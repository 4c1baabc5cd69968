use asciidork_parser::line::{Line, TokenSpec};
use asciidork_parser::token::{SourceLocation, Token, TokenKind};

fn tokens(spec: &[(TokenKind, &str)]) -> Line {
    let mut pos: u32 = 0;
    let mut ts = Vec::new();
    for (kind, lexeme) in spec {
        let end = pos + lexeme.len() as u32;
        ts.push(Token::new(*kind, SourceLocation::new(pos, end), lexeme.to_string()));
        pos = end;
    }
    Line::new(ts)
}

fn texts(items: &[Vec<Token>]) -> Vec<String> {
    items.iter().map(|ts| ts.iter().map(|t| t.lexeme.as_str()).collect::<String>()).collect()
}

use TokenKind::{CloseBracket, CloseParens, Comma, DoubleQuote, Whitespace, Word};

#[test]
fn splits_on_commas_and_trims_terms() {
    let mut line = tokens(&[
        (Word, "knight"),
        (Comma, ","),
        (Whitespace, " "),
        (Word, "Lancelot"),
        (Whitespace, " "),
        (Comma, ","),
        (Word, "sword"),
        (CloseParens, ")"),
        (CloseParens, "))"),
    ]);
    let items = line.consume_splitting_csv_until(TokenSpec::Len(2, CloseParens));
    assert_eq!(texts(&items), vec!["knight", "Lancelot", "sword)"]);
    assert_eq!(line.len(), 1);
}

#[test]
fn comma_inside_quotes_does_not_split() {
    let mut line = tokens(&[
        (DoubleQuote, "\""),
        (Word, "Arthur"),
        (Comma, ","),
        (Whitespace, " "),
        (Word, "King"),
        (DoubleQuote, "\""),
        (Comma, ","),
        (Word, "Britain"),
        (CloseBracket, "]"),
    ]);
    let items = line.consume_splitting_csv_until(TokenSpec::Kind(CloseBracket));
    assert_eq!(texts(&items), vec!["Arthur, King", "Britain"]);
    assert_eq!(line.len(), 1);
}

#[test]
fn empty_terms_are_dropped() {
    let mut line = tokens(&[(Comma, ","), (Whitespace, " "), (Comma, ","), (Word, "a"), (Whitespace, " ")]);
    let items = line.consume_splitting_csv_until(TokenSpec::Kind(CloseBracket));
    assert_eq!(texts(&items), vec!["a"]);
    assert!(line.is_empty());
}

#[test]
fn whitespace_after_comma_is_skipped_even_at_stop() {
    let mut line = tokens(&[(Word, "a"), (Comma, ","), (Whitespace, " "), (Word, "b")]);
    let items = line.consume_splitting_csv_until(TokenSpec::Kind(Whitespace));
    assert_eq!(texts(&items), vec!["a", "b"]);
    assert!(line.is_empty());
}

#[test]
fn stops_immediately_at_stop_token() {
    let mut line = tokens(&[(CloseBracket, "]"), (Word, "x")]);
    let items = line.consume_splitting_csv_until(TokenSpec::Kind(CloseBracket));
    assert!(items.is_empty());
    assert_eq!(line.len(), 2);
}
