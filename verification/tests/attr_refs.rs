use asciidork_parser::attrs::{AttrValue, DocAttrs};
use asciidork_parser::line::Line;
use asciidork_parser::parser::Parser;
use asciidork_parser::token::{SourceLocation, Token, TokenKind};

fn parser_with(attrs: &[(&str, AttrValue)]) -> Parser {
    let mut doc_attrs = DocAttrs::new();
    for (k, v) in attrs {
        let v = match v {
            AttrValue::String(s) => AttrValue::String(s.clone()),
            AttrValue::Bool(b) => AttrValue::Bool(*b),
        };
        doc_attrs.insert(k.to_string(), v);
    }
    Parser::new(doc_attrs)
}

fn attr_ref(name: &str) -> Token {
    let lexeme = format!("{{{}}}", name);
    let len = lexeme.len() as u32;
    Token::new(TokenKind::AttrRef, SourceLocation::new(3, 3 + len), lexeme)
}

#[test]
fn defined_attr_is_read_in_place() {
    let mut parser = parser_with(&[("foo", AttrValue::String("bar".into()))]);
    let mut line = Line::new(vec![]);
    let mut drop_line = false;
    let r = parser.push_token_replacing_attr_ref(attr_ref("foo"), &mut line, &mut drop_line, true);
    assert_eq!(r, Some("bar".to_string()));
    assert_eq!(line.len(), 1);
    assert_eq!(line.tokens[0].kind, TokenKind::AttrRef);
    assert!(!drop_line);
}

#[test]
fn empty_attr_reads_nothing() {
    let mut parser = parser_with(&[("foo", AttrValue::String("".into()))]);
    let mut line = Line::new(vec![]);
    let mut drop_line = false;
    let r = parser.push_token_replacing_attr_ref(attr_ref("foo"), &mut line, &mut drop_line, true);
    assert_eq!(r, None);
    assert_eq!(line.len(), 1);
}

#[test]
fn missing_attr_stays_as_word() {
    let mut parser = parser_with(&[("foo", AttrValue::Bool(true))]);
    let mut line = Line::new(vec![]);
    let mut drop_line = false;
    let r = parser.push_token_replacing_attr_ref(attr_ref("foo"), &mut line, &mut drop_line, true);
    assert_eq!(r, None);
    assert_eq!(line.tokens[0].kind, TokenKind::Word);
    assert_eq!(line.tokens[0].lexeme, "{foo}");
    assert!(parser.errors.is_empty());
}

#[test]
fn missing_attr_warns() {
    let mut parser = parser_with(&[("attribute-missing", AttrValue::String("warn".into()))]);
    let mut line = Line::new(vec![]);
    let mut drop_line = false;
    parser.push_token_replacing_attr_ref(attr_ref("nope"), &mut line, &mut drop_line, true);
    assert_eq!(line.tokens[0].kind, TokenKind::Word);
    assert_eq!(parser.errors, vec!["Skipping reference to missing attribute".to_string()]);
}

#[test]
fn missing_attr_drops_token_or_line() {
    let mut parser = parser_with(&[("attribute-missing", AttrValue::String("drop".into()))]);
    let mut line = Line::new(vec![]);
    let mut drop_line = false;
    parser.push_token_replacing_attr_ref(attr_ref("nope"), &mut line, &mut drop_line, true);
    assert!(line.is_empty());
    assert!(!drop_line);

    let mut parser = parser_with(&[("attribute-missing", AttrValue::String("drop-line".into()))]);
    parser.push_token_replacing_attr_ref(attr_ref("nope"), &mut line, &mut drop_line, true);
    assert!(line.is_empty());
    assert!(drop_line);
}

#[test]
fn refs_untouched_without_attr_ref_subs() {
    let mut parser = parser_with(&[("foo", AttrValue::String("bar".into()))]);
    let mut line = Line::new(vec![]);
    let mut drop_line = false;
    let r = parser.push_token_replacing_attr_ref(attr_ref("foo"), &mut line, &mut drop_line, false);
    assert_eq!(r, None);
    assert_eq!(line.tokens[0].kind, TokenKind::AttrRef);
    let word = Token::new(TokenKind::Word, SourceLocation::new(0, 1), "x".to_string());
    let r = parser.push_token_replacing_attr_ref(word, &mut line, &mut drop_line, true);
    assert_eq!(r, None);
    assert_eq!(line.len(), 2);
}
