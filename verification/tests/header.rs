use asciidork_parser::attr_def::{scan_attr_def_at, Negation};
use asciidork_parser::attrs::{AttrValue, DocAttrs};
use asciidork_parser::author::Author;
use asciidork_parser::parser::Parser;
use asciidork_parser::token::{SourceLocation, Token, TokenKind};

#[test]
fn test_leveloffset() {
    let cases = vec![
        (0, AttrValue::String("1".into()), 1),
        (0, AttrValue::String("+1".into()), 1),
        (0, AttrValue::String("+4".into()), 4),
        (1, AttrValue::String("+1".into()), 2),
        (2, AttrValue::String("-1".into()), 1),
        (2, AttrValue::String("-6".into()), -4),
        (0, AttrValue::Bool(false), 0),
        (1, AttrValue::Bool(false), 0),
        (4, AttrValue::Bool(false), 0),
    ];
    for (mut initial, attr_value, expected) in cases {
        Parser::adjust_leveloffset(&mut initial, &attr_value);
        assert_eq!(initial, expected);
    }
}

#[test]
fn leveloffset_ignores_unreadable_values() {
    let mut lo: i8 = 3;
    Parser::adjust_leveloffset(&mut lo, &AttrValue::String("x".into()));
    assert_eq!(lo, 3);
    Parser::adjust_leveloffset(&mut lo, &AttrValue::String("+x".into()));
    assert_eq!(lo, 3);
    Parser::adjust_leveloffset(&mut lo, &AttrValue::Bool(true));
    assert_eq!(lo, 3);
}

#[test]
fn test_parse_revision_lines() {
    let cases = vec![
        ("foobar", None, None, None),
        ("v7.5", Some("7.5"), None, None),
        ("v7.5, 1-29-2020", Some("7.5"), Some("1-29-2020"), None),
        ("LPR55, 1-29-2020", Some("55"), Some("1-29-2020"), None),
        ("7.5, 1-29-2020", Some("7.5"), Some("1-29-2020"), None),
        ("7.5: A new analysis", Some("7.5"), None, Some("A new analysis")),
        ("v7.5, 1-29-2020: A new analysis", Some("7.5"), Some("1-29-2020"), Some("A new analysis")),
        ("v7.5 1-29-2020 A new analysis", None, None, None),
        ("2.9, October 31, 2021: Fall incarnation", Some("2.9"), Some("October 31, 2021"), Some("Fall incarnation")),
    ];
    for (input, rev, date, remark) in cases {
        let mut parser = Parser::new(DocAttrs::new());
        let first_kind =
            if input.starts_with(|c: char| c.is_ascii_digit()) { TokenKind::Digits } else { TokenKind::Word };
        parser.parse_revision_line(first_kind, input, input.len() as u32);
        let get = |k: &str| match parser.attrs.get(k) {
            Some(AttrValue::String(s)) => Some(s.clone()),
            _ => None,
        };
        assert_eq!(get("revnumber"), rev.map(|s| s.to_string()), "{input}");
        assert_eq!(get("revdate"), date.map(|s| s.to_string()), "{input}");
        assert_eq!(get("revremark"), remark.map(|s| s.to_string()), "{input}");
    }
}

#[test]
fn revision_line_reports_whether_taken() {
    let mut parser = Parser::new(DocAttrs::new());
    assert_eq!(parser.parse_revision_line(TokenKind::Word, "v1.2", 9), Some(9));
    assert_eq!(parser.parse_revision_line(TokenKind::Word, "foobar", 9), None);
    assert_eq!(parser.parse_revision_line(TokenKind::Colon, "v1.2", 9), None);
    // a bare version without `v` is taken but sets nothing
    let mut parser = Parser::new(DocAttrs::new());
    assert_eq!(parser.parse_revision_line(TokenKind::Digits, "7.5", 3), Some(3));
    assert!(parser.attrs.get("revnumber").is_none());
}

#[test]
fn test_parse_author_lines() {
    #[allow(clippy::type_complexity)]
    let cases: Vec<(&str, Vec<(&str, Option<&str>, &str, Option<&str>)>)> = vec![
        ("Bob L. Foo", vec![("Bob", Some("L."), "Foo", None)]),
        ("Bob Foo", vec![("Bob", None, "Foo", None)]),
        ("Bob Foo ", vec![("Bob", None, "Foo", None)]),
        ("Bob L. Foo <bob@foo.com>", vec![("Bob", Some("L."), "Foo", Some("bob@foo.com"))]),
        (
            "Kismet R. Lee <kismet@asciidoctor.org>",
            vec![("Kismet", Some("R."), "Lee", Some("kismet@asciidoctor.org"))],
        ),
        ("Bob Foo <bob@foo.com>", vec![("Bob", None, "Foo", Some("bob@foo.com"))]),
        ("Bob Foo; Bob Baz", vec![("Bob", None, "Foo", None), ("Bob", None, "Baz", None)]),
        (
            "Bob Foo <bob@foo.com>; Bob Thomas Baz",
            vec![("Bob", None, "Foo", Some("bob@foo.com")), ("Bob", Some("Thomas"), "Baz", None)],
        ),
    ];
    for (input, authors) in cases {
        let mut parser = Parser::new(DocAttrs::new());
        let expected_authors = authors
            .iter()
            .map(|(first, middle, last, email)| Author {
                first_name: first.to_string(),
                middle_name: middle.map(|m| m.to_string()),
                last_name: last.to_string(),
                email: email.map(|e| e.to_string()),
            })
            .collect::<Vec<Author>>();
        parser.parse_author_line(input);
        assert_eq!(parser.authors, expected_authors, "{input}");
        assert!(parser.errors.is_empty(), "{input}");
    }
}

#[test]
fn invalid_author_line_is_reported() {
    let mut parser = Parser::new(DocAttrs::new());
    parser.parse_author_line("<<<");
    assert_eq!(parser.errors, vec!["invalid author line".to_string()]);
}

fn colon_token() -> Token {
    Token::new(TokenKind::Colon, SourceLocation::new(0, 1), ":".to_string())
}

#[test]
fn test_parse_doc_attr_entry() {
    let src = b":foo: bar\n:!baz:\n:qux!:\n";
    let scan = scan_attr_def_at(src, 0).unwrap();
    assert_eq!(scan.name, b"foo".to_vec());
    assert_eq!(scan.value, b" bar".to_vec());
    assert_eq!(scan.negation, Negation::Unnegated);
    assert_eq!(scan.end, 9);
    let scan = scan_attr_def_at(src, 10).unwrap();
    assert_eq!(scan.name, b"baz".to_vec());
    assert_eq!(scan.negation, Negation::Leading);
    let scan = scan_attr_def_at(src, 17).unwrap();
    assert_eq!(scan.name, b"qux".to_vec());
    assert_eq!(scan.negation, Negation::Trailing);
    assert!(scan_attr_def_at(b":a:", 0).is_none());
    assert!(scan_attr_def_at(b": a: b\n", 0).is_none());
    assert!(scan_attr_def_at(b":-a: b\n", 0).is_none());
}

#[test]
fn attr_def_sets_header_attr_and_rewrites_token() {
    let src = ":Foo-Bar: hello {x}\nrest";
    let mut parser = Parser::new(DocAttrs::new());
    let mut token = colon_token();
    parser.try_parse_attr_def(src.as_bytes(), &mut token, true).unwrap();
    assert_eq!(token.kind, TokenKind::AttrDef);
    assert_eq!(token.loc, SourceLocation::new(0, 19));
    assert_eq!(token.lexeme, ":Foo-Bar: hello {x}");
    assert_eq!(parser.attrs.get("foo-bar"), Some(&AttrValue::String("hello {x}".into())));
}

#[test]
fn attr_def_joins_continuation_lines() {
    let src = ":desc: one \\\ntwo + \\\nthree\nnext";
    let mut parser = Parser::new(DocAttrs::new());
    let mut token = colon_token();
    parser.try_parse_attr_def(src.as_bytes(), &mut token, true).unwrap();
    assert_eq!(parser.attrs.get("desc"), Some(&AttrValue::String("one two +\nthree".into())));
    assert_eq!(token.loc.end, 26);
}

#[test]
fn attr_def_unset_forms() {
    let mut parser = Parser::new(DocAttrs::new());
    let src = ":!sectids:\n";
    let mut token = colon_token();
    parser.try_parse_attr_def(src.as_bytes(), &mut token, true).unwrap();
    assert_eq!(parser.attrs.get("sectids"), Some(&AttrValue::Bool(false)));
    let src = ":toc!: left\n";
    let mut token = colon_token();
    parser.try_parse_attr_def(src.as_bytes(), &mut token, true).unwrap();
    assert_eq!(parser.errors, vec!["Cannot unset attr with `!` AND provide value".to_string()]);
    assert_eq!(parser.attrs.get("toc"), Some(&AttrValue::String("left".into())));
}

#[test]
fn attr_def_leveloffset_and_body_defs() {
    let mut parser = Parser::new(DocAttrs::new());
    let src = ":leveloffset: +2\n";
    let mut token = colon_token();
    parser.try_parse_attr_def(src.as_bytes(), &mut token, false).unwrap();
    assert_eq!(parser.leveloffset, 2);
    assert!(parser.attrs.get("leveloffset").is_none());
    let src = "not a def";
    let mut token = Token::new(TokenKind::Word, SourceLocation::new(0, 3), "not".to_string());
    parser.try_parse_attr_def(src.as_bytes(), &mut token, true).unwrap();
    assert_eq!(token.kind, TokenKind::Word);
}

#[test]
fn attr_def_records_every_definition() {
    let mut parser = Parser::new(DocAttrs::new());
    let src = ":Foo: {bar} baz\n";
    let mut token = colon_token();
    parser.try_parse_attr_def(src.as_bytes(), &mut token, false).unwrap();
    assert_eq!(parser.attr_defs.len(), 1);
    let d = &parser.attr_defs[0];
    assert_eq!(d.name, "foo");
    assert_eq!(d.loc, SourceLocation::new(0, 15));
    assert_eq!(d.value, AttrValue::String("{bar} baz".into()));
    assert!(d.has_lbrace);
    assert!(!d.in_header);

    let src = ":!toc: left\n";
    let mut token = colon_token();
    parser.try_parse_attr_def(src.as_bytes(), &mut token, true).unwrap();
    assert_eq!(parser.attr_defs.len(), 2);
    assert_eq!(parser.attr_defs[1].value, AttrValue::String("left".into()));
    assert!(parser.attr_defs[1].in_header);
    assert_eq!(parser.errors.len(), 1);

    let mut token = Token::new(TokenKind::Word, SourceLocation::new(0, 3), "not".to_string());
    parser.try_parse_attr_def(b"not a def", &mut token, true).unwrap();
    assert_eq!(parser.attr_defs.len(), 2);
}

#[test]
fn attr_def_unset_with_value_fails_a_strict_parser() {
    let mut parser = Parser::new(DocAttrs::new());
    parser.strict = true;
    let src = ":toc!: left\n";
    let mut token = colon_token();
    let d = parser.try_parse_attr_def(src.as_bytes(), &mut token, true).err().unwrap();
    assert_eq!(d.message, "Cannot unset attr with `!` AND provide value");
    assert_eq!((d.start, d.end), (0, 11));
    assert!(parser.errors.is_empty());
    assert!(parser.attr_defs.is_empty());
    assert!(parser.attrs.get("toc").is_none());
    let mut token = colon_token();
    assert!(parser.try_parse_attr_def(b":toc: left\n", &mut token, true).is_ok());
}
