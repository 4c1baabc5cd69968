use asciidork_parser::attr_entry::AttrList;
use asciidork_parser::attr_list::{trim, unquote, AttrIr};
use asciidork_parser::attrs::DocAttrs;
use asciidork_parser::line::Line;
use asciidork_parser::parser::Parser;
use asciidork_parser::token::{SourceLocation, Token, TokenKind};

/// Splits simple ASCII source into tokens the way the lexer does for the
/// characters these cases use.
fn lex(src: &str) -> Vec<Token> {
    let cs: Vec<(usize, char)> = src.char_indices().collect();
    let mut out = Vec::new();
    let mut i = 0;
    while i < cs.len() {
        let (start, c) = cs[i];
        let mut j = i + 1;
        let kind = if c.is_ascii_digit() {
            while j < cs.len() && cs[j].1.is_ascii_digit() {
                j += 1;
            }
            TokenKind::Digits
        } else if c.is_alphabetic() {
            while j < cs.len() && cs[j].1.is_alphanumeric() {
                j += 1;
            }
            TokenKind::Word
        } else if c == ' ' {
            while j < cs.len() && cs[j].1 == ' ' {
                j += 1;
            }
            TokenKind::Whitespace
        } else if c == '.' {
            while j < cs.len() && cs[j].1 == '.' {
                j += 1;
            }
            TokenKind::Dots
        } else if c == '=' {
            while j < cs.len() && cs[j].1 == '=' {
                j += 1;
            }
            TokenKind::EqualSigns
        } else {
            match c {
                '[' => TokenKind::OpenBracket,
                ']' => TokenKind::CloseBracket,
                ',' => TokenKind::Comma,
                '"' => TokenKind::DoubleQuote,
                '\'' => TokenKind::SingleQuote,
                '#' => TokenKind::Hash,
                '%' => TokenKind::Percent,
                '_' => TokenKind::Underscore,
                '\\' => TokenKind::Backslash,
                '+' => TokenKind::Plus,
                _ => TokenKind::Word,
            }
        };
        let end = if j < cs.len() { cs[j].0 } else { src.len() };
        out.push(Token::new(
            kind,
            SourceLocation::new(start as u32, end as u32),
            src[start..end].to_string(),
        ));
        i = j;
    }
    out
}

#[test]
fn test_find_attr_delims() {
    let cases: Vec<(&str, &[usize])> = vec![
        ("[]", &[]),
        ("[#a,b=c]", &[2]),
        ("[foo,bar]", &[1]),
        ("[foo , ]", &[2]),
        ("[\"foo,bar\"]", &[]),
        ("[\"foo,bar]", &[2]),
        ("[foo,\"bar]", &[1]),
        ("['foo,bar']", &[]),
        ("['foo,bar]", &[2]),
        ("['foo',bar]", &[3]),
        ("['foo',\"bar,\"]", &[3]),
        ("[foo=bar]", &[]),
        ("[foo=bar,baz=qux]", &[3]),
        ("[foo=bar,baz='qux,']", &[3]),
        ("[foo=bar,baz='qux,,,,']", &[3]),
        ("[foo=bar,baz=qux,]", &[3, 3]),
        ("[foo=bar,baz=qux,,]", &[3, 3, 0]),
        ("[foo=bar,baz='qux,]", &[3, 4]),
        ("[foo=bar ,baz=qux]", &[4]),
        ("[foo=bar,baz=qux, ,]", &[3, 3, 1]),
        ("[,,,]", &[0, 0, 0]),
        ("[, , ,]", &[0, 1, 1]),
        ("[foo=bar,opts='opt1,opt2']", &[3]),
        ("[\"foo,bar\",baz]", &[5]),
        ("[foo%bar]", &[]),
        ("['foo%bar']", &[]),
    ];
    let parser = Parser::new(DocAttrs::new());
    for (input, expected) in cases {
        let mut line = Line::new(lex(input));
        line.discard(1);
        let delims = parser.find_delimiters(&line);
        assert_eq!(delims.as_slice(), expected, "{input}");
    }
}

fn show(tokens: &[Token]) -> String {
    let parts: Vec<String> = tokens.iter().map(|t| format!("{:?}`{}`", t.kind, t.lexeme)).collect();
    format!("[{}]", parts.join(", "))
}

fn describe(ir: &AttrIr) -> String {
    match ir {
        AttrIr::Positional(ts, w) => format!("Positional({}, w_symbol: {})", show(ts), w),
        AttrIr::Named(name, ts) => format!("Named({}, {})", name.src, show(ts)),
        AttrIr::Options(gs) => {
            format!("Options({})", gs.iter().map(|g| show(g)).collect::<Vec<_>>().join(", "))
        },
        AttrIr::Roles(gs) => format!("Roles({})", gs.iter().map(|g| show(g)).collect::<Vec<_>>().join(", ")),
        AttrIr::Shorthand(ts) => format!("Shorthand({})", show(ts)),
        AttrIr::Id(ts) => format!("Id({})", show(ts)),
    }
}

#[test]
fn test_parse_attr_ir() {
    let cases = vec![
        ("''", "Positional([], w_symbol: false)"),
        ("\"\"", "Positional([], w_symbol: false)"),
        ("foo", "Positional([Word`foo`], w_symbol: false)"),
        ("\"foo\"", "Positional([Word`foo`], w_symbol: false)"),
        ("foo\"", "Positional([Word`foo`, DoubleQuote`\"`], w_symbol: false)"),
        ("\"foo", "Positional([DoubleQuote`\"`, Word`foo`], w_symbol: false)"),
        ("'", "Positional([SingleQuote`'`], w_symbol: false)"),
        ("\"", "Positional([DoubleQuote`\"`], w_symbol: false)"),
        ("=foo=", "Positional([EqualSigns`=`, Word`foo`, EqualSigns`=`], w_symbol: false)"),
        ("foo bar", "Positional([Word`foo`, Whitespace` `, Word`bar`], w_symbol: false)"),
        ("#id", "Shorthand([Hash`#`, Word`id`])"),
        ("#id.role", "Shorthand([Hash`#`, Word`id`, Dots`.`, Word`role`])"),
        (
            "#id.role_foo",
            "Shorthand([Hash`#`, Word`id`, Dots`.`, Word`role`, Underscore`_`, Word`foo`])",
        ),
        (
            "#id.role%opt",
            "Shorthand([Hash`#`, Word`id`, Dots`.`, Word`role`, Percent`%`, Word`opt`])",
        ),
        ("foo=\"bar=baz\"", "Named(foo, [Word`bar`, EqualSigns`=`, Word`baz`])"),
        ("foo=bar", "Named(foo, [Word`bar`])"),
        ("foo='bar'", "Named(foo, [Word`bar`])"),
        ("foo='", "Named(foo, [SingleQuote`'`])"),
        ("foo=\"bar\"", "Named(foo, [Word`bar`])"),
        ("foo=\"bar", "Named(foo, [DoubleQuote`\"`, Word`bar`])"),
        ("foo = bar", "Named(foo, [Word`bar`])"),
        ("options='opt1'", "Options([Word`opt1`])"),
        ("options=opt1", "Options([Word`opt1`])"),
        ("options='opt1,opt2'", "Options([Word`opt1`], [Word`opt2`])"),
        ("options='opt1 bar,opt2'", "Options([Word`opt1`, Whitespace` `, Word`bar`], [Word`opt2`])"),
        ("opts='opt1,,opt2 , opt3'", "Options([Word`opt1`], [Word`opt2`], [Word`opt3`])"),
        ("role=foo", "Roles([Word`foo`])"),
        ("role='foo bar'", "Roles([Word`foo`], [Word`bar`])"),
        ("id=foo", "Id([Word`foo`])"),
        ("foo.bar", "Positional([Word`foo`, Dots`.`, Word`bar`], w_symbol: true)"),
        ("'foo.bar'", "Positional([Word`foo`, Dots`.`, Word`bar`], w_symbol: false)"),
    ];
    let parser = Parser::new(DocAttrs::new());
    for (input, expected) in cases {
        let ir = parser.attr_ir(trim(lex(input)));
        assert_eq!(describe(&ir), expected, "{input}");
    }
}

#[test]
fn trim_and_unquote_tokens() {
    let trimmed = trim(lex("  foo bar  "));
    assert_eq!(show(&trimmed), "[Word`foo`, Whitespace` `, Word`bar`]");
    assert_eq!(trim(lex("   ")).len(), 0);
    assert_eq!(show(&unquote(lex("'a'"))), "[Word`a`]");
    assert_eq!(show(&unquote(lex("'a\""))), "[SingleQuote`'`, Word`a`, DoubleQuote`\"`]");
    assert_eq!(show(&unquote(lex("'"))), "[SingleQuote`'`]");
}

#[test]
fn key_value_name_spans_its_tokens() {
    let parser = Parser::new(DocAttrs::new());
    match parser.attr_ir(trim(lex("foo bar=baz"))) {
        AttrIr::Positional(..) => {},
        other => panic!("unexpected {}", describe(&other)),
    }
    match parser.parse_key_value_attr(lex("ab.cd = x")) {
        AttrIr::Named(name, value) => {
            assert_eq!(name.src, "ab.cd");
            assert_eq!(name.loc, SourceLocation::new(0, 5));
            assert_eq!(show(&value), "[Word`x`]");
        },
        other => panic!("unexpected {}", describe(&other)),
    }
}

#[test]
fn subgroups_drop_empty_parts() {
    let parser = Parser::new(DocAttrs::new());
    let groups = parser.parse_attr_subgroups(TokenKind::Comma, lex(", a ,,b c,"));
    let shown: Vec<String> = groups.iter().map(|g| show(g)).collect();
    assert_eq!(shown, vec!["[Word`a`]", "[Word`b`, Whitespace` `, Word`c`]"]);
}

fn texts(ts: &[Token]) -> Vec<String> {
    ts.iter().map(|t| t.lexeme.clone()).collect()
}

fn entry(parser: &mut Parser, list: &mut AttrList, src: &str, formatted: bool) {
    parser.parse_attr(lex(src), formatted, list).unwrap();
}

#[test]
fn parse_attr_positional_and_empty_entries() {
    let mut parser = Parser::new(DocAttrs::new());
    let mut list = AttrList::new();
    entry(&mut parser, &mut list, "foo", false);
    entry(&mut parser, &mut list, "  ", false);
    entry(&mut parser, &mut list, "\"bar baz\"", false);
    assert_eq!(list.positional.len(), 3);
    assert_eq!(texts(list.positional[0].as_ref().unwrap()), vec!["foo"]);
    assert!(list.positional[1].is_none());
    assert_eq!(texts(list.positional[2].as_ref().unwrap()), vec!["bar", " ", "baz"]);
    assert!(parser.errors.is_empty());
}

#[test]
fn parse_attr_shorthand_sets_id_roles_and_options() {
    let mut parser = Parser::new(DocAttrs::new());
    let mut list = AttrList::new();
    entry(&mut parser, &mut list, "#custom.role1.role2%opt", false);
    assert_eq!(list.id, Some("custom".to_string()));
    assert_eq!(list.roles, vec!["role1".to_string(), "role2".to_string()]);
    assert_eq!(list.options, vec!["opt".to_string()]);
    assert!(list.positional.is_empty());
}

#[test]
fn parse_attr_splits_positional_value_from_shorthand() {
    let mut parser = Parser::new(DocAttrs::new());
    let mut list = AttrList::new();
    entry(&mut parser, &mut list, "source#code.lead", false);
    assert_eq!(list.positional.len(), 1);
    assert_eq!(texts(list.positional[0].as_ref().unwrap()), vec!["source"]);
    assert_eq!(list.id, Some("code".to_string()));
    assert_eq!(list.roles, vec!["lead".to_string()]);
}

#[test]
fn parse_attr_named_role_options_and_id() {
    let mut parser = Parser::new(DocAttrs::new());
    let mut list = AttrList::new();
    entry(&mut parser, &mut list, "name=value", false);
    entry(&mut parser, &mut list, "role=lead big", false);
    entry(&mut parser, &mut list, "opts=\"a,b\"", false);
    entry(&mut parser, &mut list, "id=x", false);
    entry(&mut parser, &mut list, "id=y", false);
    assert_eq!(list.named.len(), 1);
    assert_eq!(list.named[0].0.src, "name");
    assert_eq!(texts(&list.named[0].1), vec!["value"]);
    assert_eq!(list.roles, vec!["lead".to_string(), "big".to_string()]);
    assert_eq!(list.options, vec!["a".to_string(), "b".to_string()]);
    assert_eq!(list.id, Some("x".to_string()));
    assert_eq!(parser.errors, vec!["More than one id attribute".to_string()]);
}

#[test]
fn parse_attr_formatted_text_takes_only_shorthand() {
    let mut parser = Parser::new(DocAttrs::new());
    let mut list = AttrList::new();
    entry(&mut parser, &mut list, "foo", true);
    entry(&mut parser, &mut list, ".role", true);
    assert!(list.positional.is_empty());
    assert_eq!(list.roles, vec!["role".to_string()]);
    assert_eq!(
        parser.errors,
        vec!["Formatted text only supports attribute shorthand: id, roles, & options".to_string()]
    );
}

#[test]
fn parse_attr_reports_second_id_and_non_shorthand_in_formatted_text() {
    for formatted in [true, false] {
        let mut parser = Parser::new(DocAttrs::new());
        let mut list = AttrList::new();
        entry(&mut parser, &mut list, "#foo#bar", formatted);
        assert_eq!(list.id, Some("foo".to_string()));
        assert_eq!(parser.errors, vec!["More than one id attribute".to_string()]);
    }
    let only = "Formatted text only supports attribute shorthand: id, roles, & options".to_string();
    for src in ["foobar", "b=c", "opts='opt1,opt2'", "id=baz"] {
        let mut parser = Parser::new(DocAttrs::new());
        let mut list = AttrList::new();
        entry(&mut parser, &mut list, src, true);
        assert_eq!(parser.errors, vec![only.clone()]);
        assert!(list.named.is_empty() && list.options.is_empty() && list.id.is_none());
    }
    let mut parser = Parser::new(DocAttrs::new());
    let mut list = AttrList::new();
    entry(&mut parser, &mut list, "#tigers", true);
    assert_eq!(list.id, Some("tigers".to_string()));
    assert!(parser.errors.is_empty());
}

#[test]
fn parse_attr_list_splits_entries_at_commas() {
    let mut parser = Parser::new(DocAttrs::new());
    let mut line = Line::new(lex(" foo , bar ]"));
    let list = parser.parse_inline_attr_list(&mut line).unwrap();
    assert_eq!(list.positional.len(), 2);
    assert_eq!(texts(list.positional[0].as_ref().unwrap()), vec!["foo"]);
    assert_eq!(texts(list.positional[1].as_ref().unwrap()), vec!["bar"]);
    assert!(line.is_empty());

    let mut line = Line::new(lex("foo=bar,baz='qux,x']rest"));
    let list = parser.parse_inline_attr_list(&mut line).unwrap();
    assert_eq!(list.named.len(), 2);
    assert_eq!(list.named[0].0.src, "foo");
    assert_eq!(texts(&list.named[0].1), vec!["bar"]);
    assert_eq!(list.named[1].0.src, "baz");
    assert_eq!(texts(&list.named[1].1), vec!["qux", ",", "x"]);
    assert_eq!(texts(&line.tokens), vec!["rest"]);
    assert!(parser.errors.is_empty());
}

#[test]
fn parse_attr_list_empty_and_block_lists() {
    let mut parser = Parser::new(DocAttrs::new());
    let mut line = Line::new(lex("]x"));
    let list = parser.parse_inline_attr_list(&mut line).unwrap();
    assert!(list.positional.is_empty() && list.named.is_empty());
    assert_eq!(texts(&line.tokens), vec!["x"]);

    let mut line = Line::new(lex("#a,opts=\"b,c\"]"));
    let list = parser.parse_block_attr_list(&mut line).unwrap();
    assert_eq!(list.id, Some("a".to_string()));
    assert_eq!(list.options, vec!["b".to_string(), "c".to_string()]);
    assert!(line.is_empty());

    let mut line = Line::new(lex("#a,b=c]"));
    let list = parser.parse_formatted_text_attr_list(&mut line).unwrap();
    assert_eq!(list.id, Some("a".to_string()));
    assert!(list.named.is_empty());
    assert_eq!(
        parser.errors,
        vec!["Formatted text only supports attribute shorthand: id, roles, & options".to_string()]
    );
}

/// The text of a list's positional values (`None` for empty slots).
fn positional_texts(list: &AttrList) -> Vec<Option<String>> {
    list.positional.iter().map(|p| p.as_ref().map(|ts| texts(ts).concat())).collect()
}

fn named_texts(list: &AttrList) -> Vec<(String, String)> {
    list.named.iter().map(|(n, ts)| (n.src.clone(), texts(ts).concat())).collect()
}

struct Expected {
    positional: Vec<Option<&'static str>>,
    named: Vec<(&'static str, &'static str)>,
    id: Option<&'static str>,
    roles: Vec<&'static str>,
    options: Vec<&'static str>,
}

fn expected(positional: Vec<Option<&'static str>>) -> Expected {
    Expected { positional, named: vec![], id: None, roles: vec![], options: vec![] }
}

fn assert_list(list: &AttrList, e: &Expected, input: &str) {
    let pos: Vec<Option<String>> = e.positional.iter().map(|p| p.map(|s| s.to_string())).collect();
    assert_eq!(positional_texts(list), pos, "{}", input);
    let named: Vec<(String, String)> = e.named.iter().map(|(a, b)| (a.to_string(), b.to_string())).collect();
    assert_eq!(named_texts(list), named, "{}", input);
    assert_eq!(list.id, e.id.map(|s| s.to_string()), "{}", input);
    assert_eq!(list.roles, e.roles.iter().map(|s| s.to_string()).collect::<Vec<_>>(), "{}", input);
    assert_eq!(list.options, e.options.iter().map(|s| s.to_string()).collect::<Vec<_>>(), "{}", input);
}

/// Values are the tokens the inline parser reads; their text is compared
/// (the inline parser then drops a `\` before `]` and curls `'`).
#[test]
fn test_parse_attr_list_more() {
    let cases: Vec<(&str, Expected)> = vec![
        ("[ foo bar ]", expected(vec![Some("foo bar")])),
        ("[ foo , bar ]", expected(vec![Some("foo"), Some("bar")])),
        ("[line-comment=%%]", Expected { named: vec![("line-comment", "%%")], ..expected(vec![None]) }),
        ("[link=https://example.com]", Expected { named: vec![("link", "https://example.com")], ..expected(vec![None]) }),
        ("[lines=1;3..4;6..-1]", Expected { named: vec![("lines", "1;3..4;6..-1")], ..expected(vec![None]) }),
        ("[link=\"https://example.com\"]", Expected { named: vec![("link", "https://example.com")], ..expected(vec![None]) }),
        ("[\\ ]", expected(vec![Some("\\")])),
        ("[Ctrl+\\]]", expected(vec![Some("Ctrl+\\]")])),
        ("[#someid]", Expected { id: Some("someid"), ..expected(vec![]) }),
        ("[id=someid]", Expected { id: Some("someid"), ..expected(vec![]) }),
        ("[id=someid,]", Expected { id: Some("someid"), ..expected(vec![None]) }),
        ("[#someid.nowrap]", Expected { id: Some("someid"), roles: vec!["nowrap"], ..expected(vec![]) }),
        ("[.nowrap]", Expected { roles: vec!["nowrap"], ..expected(vec![]) }),
        ("[role=nowrap]", Expected { roles: vec!["nowrap"], ..expected(vec![]) }),
        ("[role=nowrap,]", Expected { roles: vec!["nowrap"], ..expected(vec![None]) }),
        ("[.nowrap.underline]", Expected { roles: vec!["nowrap", "underline"], ..expected(vec![]) }),
        ("[role=nowrap underline]", Expected { roles: vec!["nowrap", "underline"], ..expected(vec![]) }),
        ("[role=\"nowrap underline\"]", Expected { roles: vec!["nowrap", "underline"], ..expected(vec![]) }),
        ("[foo,bar,a=b]", Expected { named: vec![("a", "b")], ..expected(vec![Some("foo"), Some("bar"), None]) }),
        (
            "[a=b,foo,b=c,bar]",
            Expected { named: vec![("a", "b"), ("b", "c")], ..expected(vec![None, Some("foo"), None, Some("bar")]) },
        ),
        ("[\"foo,bar\",baz]", expected(vec![Some("foo,bar"), Some("baz")])),
        ("[Sunset,300,400]", expected(vec![Some("Sunset"), Some("300"), Some("400")])),
        (
            "[alt=Sunset,width=300,height=400]",
            Expected {
                named: vec![("alt", "Sunset"), ("width", "300"), ("height", "400")],
                ..expected(vec![None, None, None])
            },
        ),
        (
            "[#custom-id,named=\"value of named\"]",
            Expected { id: Some("custom-id"), named: vec![("named", "value of named")], ..expected(vec![None]) },
        ),
        ("[,bar]", expected(vec![None, Some("bar")])),
        ("[ , bar]", expected(vec![None, Some("bar")])),
        ("[, , bar]", expected(vec![None, None, Some("bar")])),
        ("[foo\\]]", expected(vec![Some("foo\\]")])),
        ("[foo='.foo#id%opt']", Expected { named: vec![("foo", ".foo#id%opt")], ..expected(vec![None]) }),
        ("[width=50%]", Expected { named: vec![("width", "50%")], ..expected(vec![None]) }),
        ("[don't]", expected(vec![Some("don't")])),
        ("[don\"t]", expected(vec![Some("don\"t")])),
        ("[%header%footer%autowidth]", Expected { options: vec!["header", "footer", "autowidth"], ..expected(vec![]) }),
        ("[example%collapsible]", Expected { options: vec!["collapsible"], ..expected(vec![Some("example")]) }),
        ("[example#collapsible]", Expected { id: Some("collapsible"), ..expected(vec![Some("example")]) }),
        (
            "[example#coll_psible.cust-class]",
            Expected { id: Some("coll_psible"), roles: vec!["cust-class"], ..expected(vec![Some("example")]) },
        ),
    ];
    for (input, e) in cases {
        let mut parser = Parser::new(DocAttrs::new());
        let mut tokens = lex(input);
        tokens.remove(0);
        let mut line = Line::new(tokens);
        let list = parser.parse_block_attr_list(&mut line).unwrap();
        assert_list(&list, &e, input);
        assert!(line.is_empty(), "{}", input);

        let inline_input = format!("{}foo bar", input);
        let mut tokens = lex(&inline_input);
        tokens.remove(0);
        let mut line = Line::new(tokens);
        let list = parser.parse_inline_attr_list(&mut line).unwrap();
        assert_list(&list, &e, input);
        assert_eq!(texts(&line.tokens).concat(), "foo bar", "{}", input);
        assert!(parser.errors.is_empty(), "{}", input);
    }
}

#[test]
fn test_parse_attr_list_block_only() {
    let mut parser = Parser::new(DocAttrs::new());
    let mut tokens = lex("[\"foo]\"]");
    tokens.remove(0);
    let mut line = Line::new(tokens);
    let list = parser.parse_block_attr_list(&mut line).unwrap();
    assert_list(&list, &expected(vec![Some("foo]")]), "[\"foo]\"]");
}

#[test]
fn test_parse_attr_list_errs() {
    let only = "Formatted text only supports attribute shorthand: id, roles, & options";
    // (input, formatted, message, column, underline width), all on line 1
    let cases = [
        ("[#foo#bar]", true, "More than one id attribute", 6, 1),
        ("[#foo#bar]", false, "More than one id attribute", 6, 1),
        ("[foobar]", true, only, 2, 6),
        ("[#a,b=c]", true, only, 5, 3),
        ("[#a,opts='opt1,opt2']", true, only, 11, 9),
        ("[#a,foo=bar,id=baz]", false, "More than one id attribute", 16, 3),
    ];
    for (input, formatted, message, column, width) in cases {
        let mut parser = Parser::new(DocAttrs::new());
        parser.strict = true;
        let mut tokens = lex(input);
        tokens.remove(0);
        let mut line = Line::new(tokens);
        let diag = parser.parse_attr_list(&mut line, true, formatted).err().unwrap();
        assert_eq!(diag.message, message, "{}", input);
        assert_eq!(diag.start as usize + 1, column, "{}", input);
        assert_eq!((diag.end - diag.start) as usize, width, "{}", input);
        let underline = format!("{}{}", " ".repeat(diag.start as usize), "^".repeat(width));
        assert_eq!(&input[diag.start as usize..diag.end as usize].len(), &underline.trim_start().len(), "{}", input);
        assert!(parser.errors.is_empty(), "{}", input);
    }
}

#[test]
fn test_parse_formatted_text_attr_list() {
    let mut parser = Parser::new(DocAttrs::new());
    let mut tokens = lex("[#tigers]#a text span#");
    tokens.remove(0);
    let mut line = Line::new(tokens);
    let list = parser.parse_formatted_text_attr_list(&mut line).unwrap();
    assert_list(&list, &Expected { id: Some("tigers"), ..expected(vec![]) }, "[#tigers]");
    assert_eq!(texts(&line.tokens).concat(), "#a text span#");
}

/// Values are compared by the text of the tokens the inline parser reads
/// (it then drops the `\` of an escaped quote).
#[test]
fn test_parse_attr_list_asciidoctor() {
    let cases: Vec<(&str, Expected)> = vec![
        ("[]", expected(vec![])),
        ("['']", expected(vec![Some("")])),
        ("[foo]", expected(vec![Some("foo")])),
        ("[\"foo\"]", expected(vec![Some("foo")])),
        ("['foo']", expected(vec![Some("foo")])),
        ("[foo bar]", expected(vec![Some("foo bar")])),
        ("[\"ba\\\"zaar\"]", expected(vec![Some("ba\\\"zaar")])),
        ("['ba\\'zaar']", expected(vec![Some("ba\\'zaar")])),
        ("[']", expected(vec![Some("'")])),
        ("[=foo=]", expected(vec![Some("=foo=")])),
        ("[foo , ]", expected(vec![Some("foo"), None])),
        ("[, foo]", expected(vec![None, Some("foo")])),
        ("[, foo bar]", expected(vec![None, Some("foo bar")])),
        ("[first, second one, third]", expected(vec![Some("first"), Some("second one"), Some("third")])),
        ("[first,,third,]", expected(vec![Some("first"), None, Some("third"), None])),
        ("[foo=']", Expected { named: vec![("foo", "'")], ..expected(vec![None]) }),
        ("[foo=\"]", Expected { named: vec![("foo", "\"")], ..expected(vec![None]) }),
        ("[foo=bar]", Expected { named: vec![("foo", "bar")], ..expected(vec![None]) }),
        ("[foo=\"bar\"]", Expected { named: vec![("foo", "bar")], ..expected(vec![None]) }),
        ("[foo='bar']", Expected { named: vec![("foo", "bar")], ..expected(vec![None]) }),
        ("[foo=]", Expected { named: vec![("foo", "")], ..expected(vec![None]) }),
        ("[foo=,bar=baz]", Expected { named: vec![("foo", ""), ("bar", "baz")], ..expected(vec![None, None]) }),
        (
            "[height=100,caption=\"\",link=\"images/octocat.png\"]",
            Expected {
                named: vec![("height", "100"), ("caption", ""), ("link", "images/octocat.png")],
                ..expected(vec![None, None, None])
            },
        ),
        (
            "[height=100,caption='',link='images/octocat.png']",
            Expected {
                named: vec![("height", "100"), ("caption", ""), ("link", "images/octocat.png")],
                ..expected(vec![None, None, None])
            },
        ),
        (
            "[first=value, second=two, third=3]",
            Expected {
                named: vec![("first", "value"), ("second", "two"), ("third", "3")],
                ..expected(vec![None, None, None])
            },
        ),
        (
            "[first='value', second=\"value two\", third=three]",
            Expected {
                named: vec![("first", "value"), ("second", "value two"), ("third", "three")],
                ..expected(vec![None, None, None])
            },
        ),
        (
            "[     first    =     'value', second     =\"value two\"     , third=       three   ]",
            Expected {
                named: vec![("first", "value"), ("second", "value two"), ("third", "three")],
                ..expected(vec![None, None, None])
            },
        ),
        (
            "[first, second=\"value two\", third=three, Sherlock Holmes]",
            Expected {
                named: vec![("second", "value two"), ("third", "three")],
                ..expected(vec![Some("first"), None, None, Some("Sherlock Holmes")])
            },
        ),
        (
            "[first,,third=,,fifth=five]",
            Expected {
                named: vec![("third", ""), ("fifth", "five")],
                ..expected(vec![Some("first"), None, None, None, None])
            },
        ),
        (
            "[quote, options='opt1,,opt2 , opt3 foo']",
            Expected { options: vec!["opt1", "opt2", "opt3 foo"], ..expected(vec![Some("quote")]) },
        ),
        (
            "[quote, opts=\"opt1,,opt2 , opt3\"]",
            Expected { options: vec!["opt1", "opt2", "opt3"], ..expected(vec![Some("quote")]) },
        ),
        ("[quote, opts=]", expected(vec![Some("quote")])),
    ];
    for (input, e) in cases {
        let mut parser = Parser::new(DocAttrs::new());
        let mut tokens = lex(input);
        tokens.remove(0);
        let mut line = Line::new(tokens);
        let list = parser.parse_block_attr_list(&mut line).unwrap();
        assert_list(&list, &e, input);
        assert!(line.is_empty(), "{}", input);

        let inline_input = format!("{}foo bar", input);
        let mut tokens = lex(&inline_input);
        tokens.remove(0);
        let mut line = Line::new(tokens);
        let list = parser.parse_inline_attr_list(&mut line).unwrap();
        assert_list(&list, &e, input);
        assert_eq!(texts(&line.tokens).concat(), "foo bar", "{}", input);
        assert!(parser.errors.is_empty(), "{}", input);
    }
}
