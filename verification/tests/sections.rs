use asciidork_parser::attrs::{AttrValue, DocAttrs};
use asciidork_parser::blocks::{BlockContext, BlockMetadata, LineShape, PeekedSection, SpecialSection};
use asciidork_parser::line::{ContiguousLines, Line};
use asciidork_parser::parser::{Parser, TocPosition};
use asciidork_parser::token::{SourceLocation, Token, TokenKind};

#[test]
fn test_autogen_sect_id() {
    let cases = &[
        ("Ben & Jerry's Ice Cream!", "_ben_jerrys_ice_cream"),
        ("a &#xae;&AMP;&#xA9; b", "_a_b"),
        ("foo +++<em>+++bar+++</em>+++ <i>baz</i>", "_foo_bar_baz"),
        ("     Go       Far   ", "_go_far"),
        ("State-of-the-art design", "_state_of_the_art_design"),
        ("Section 1.1.1", "_section_1_1_1"),
    ];
    let parser = Parser::new(DocAttrs::new());
    for (input, expected) in cases {
        let id = parser.autogen_sect_id(input, "_", Some('_'));
        assert_eq!(id, *expected, "{input}");
    }
}

#[test]
fn test_autogenerate_section_id() {
    #[allow(clippy::type_complexity)]
    let cases: Vec<(&str, &str, Option<char>, &[&str], &str)> = vec![
        ("foo Bar", "_", Some('_'), &[], "_foo_bar"),
        ("foo Bar", "id_", Some('-'), &[], "id_foo-bar"),
        ("foo Bar", "", Some('-'), &[], "foo-bar"),
        ("Section One", "_", None, &[], "_sectionone"),
        ("Section One", "", None, &[], "sectionone"),
        ("+Section One", "", Some('_'), &[], "section_one"),
        ("Foo, bar.", "_", Some('_'), &[], "_foo_bar"),
        ("foo bar", "_", Some('_'), &["_foo_bar"], "_foo_bar_2"),
        ("foo   ,.  bar", "_", Some('_'), &[], "_foo_bar"),
        ("foo <em>bar</em>", "_", Some('_'), &[], "_foo_bar"),
        ("We’re back!", "_", Some('_'), &[], "_were_back"),
        ("Section $ One", "_", Some('_'), &[], "_section_one"),
        ("& ! More", "", Some('_'), &[], "more"),
        ("Foo-bar design", "_", Some('-'), &[], "_foo-bar-design"),
        ("Version 5.0.1", "_", Some('.'), &[], "_version.5.0.1"),
        ("<em></em>", "_", Some('_'), &[], "_2"),
        ("[[aux-id]]foo Bar", "_", Some('_'), &[], "_foo_bar"),
        ("[[aux-id]][[two]]foo Bar", "_", Some('_'), &[], "_foo_bar"),
        ("foo Bar[[aux-id]][[two]]", "_", Some('_'), &[], "_foo_bar"),
    ];
    for (line, id_prefix, id_sep, prev, expected) in cases {
        let mut parser = Parser::new(DocAttrs::new());
        for s in prev {
            parser.anchor_ids.push(s.to_string());
        }
        let id = parser.autogen_sect_id(line, id_prefix, id_sep);
        assert_eq!(id, expected, "{line}");
    }
}

#[test]
fn taken_ids_are_numbered_onwards() {
    let mut parser = Parser::new(DocAttrs::new());
    parser.anchor_ids.push("_a".to_string());
    parser.anchor_ids.push("_a_2".to_string());
    parser.anchor_ids.push("_a_3".to_string());
    assert_eq!(parser.autogen_sect_id("A", "_", Some('_')), "_a_4");
    assert_eq!(parser.autogen_sect_id("A", "_", None), "_a2");
    assert_eq!(parser.autogen_sect_id("Éclair", "_", Some('_')), "_éclair");
}

#[test]
fn section_id_records_ids() {
    let mut parser = Parser::new(DocAttrs::new());
    assert_eq!(parser.section_id("Intro", None), Some("_intro".to_string()));
    assert_eq!(parser.section_id("Intro", None), Some("_intro_2".to_string()));
    assert_eq!(parser.section_id("Whatever", Some("custom")), Some("custom".to_string()));
    assert_eq!(parser.anchor_ids, vec!["_intro", "_intro_2", "custom"]);

    let mut attrs = DocAttrs::new();
    attrs.insert("idprefix".to_string(), AttrValue::String("x-".to_string()));
    attrs.insert("idseparator".to_string(), AttrValue::String("-".to_string()));
    let mut parser = Parser::new(attrs);
    assert_eq!(parser.section_id("Big Deal", None), Some("x-big-deal".to_string()));

    let mut attrs = DocAttrs::new();
    attrs.insert("sectids".to_string(), AttrValue::Bool(false));
    let mut parser = Parser::new(attrs);
    assert_eq!(parser.section_id("Big Deal", None), None);
    assert!(parser.anchor_ids.is_empty());
}

fn word(s: &str, start: u32) -> Token {
    Token::new(TokenKind::Word, SourceLocation::new(start, start + s.len() as u32), s.to_string())
}

fn tok(kind: TokenKind, s: &str, start: u32) -> Token {
    Token::new(kind, SourceLocation::new(start, start + s.len() as u32), s.to_string())
}

#[test]
fn paragraph_context_from_admonition_label() {
    let meta = BlockMetadata { title: None, block_style: None, start: 0 };
    let line = Line::new(vec![
        word("TIP", 0),
        tok(TokenKind::Colon, ":", 3),
        tok(TokenKind::Whitespace, " ", 4),
        word("careful", 5),
    ]);
    let mut lines = ContiguousLines { lines: vec![line] };
    assert_eq!(meta.paragraph_context(&mut lines), BlockContext::AdmonitionTip);
    assert_eq!(lines.lines.len(), 1);
    assert_eq!(lines.lines[0].tokens.len(), 1);
    assert_eq!(lines.lines[0].tokens[0].lexeme, "careful");

    let line = Line::new(vec![word("Hint", 0), tok(TokenKind::Colon, ":", 4), tok(TokenKind::Whitespace, " ", 5)]);
    let mut lines = ContiguousLines { lines: vec![line] };
    assert_eq!(meta.paragraph_context(&mut lines), BlockContext::Paragraph);
    assert_eq!(lines.lines[0].tokens.len(), 3);

    let styled = BlockMetadata { title: None, block_style: Some(BlockContext::Sidebar), start: 0 };
    assert_eq!(styled.paragraph_context(&mut lines), BlockContext::Sidebar);
    assert_eq!(styled.block_style_or(BlockContext::Paragraph), BlockContext::Sidebar);
    assert_eq!(meta.block_style_or(BlockContext::Paragraph), BlockContext::Paragraph);
}

#[test]
fn section_start_level_skips_metadata() {
    let parser = Parser::new(DocAttrs::new());
    let meta = LineShape { skippable: true, heading_level: None, include_leveloffset: 0 };
    let heading = LineShape { skippable: false, heading_level: Some(2), include_leveloffset: 0 };
    let text = LineShape { skippable: false, heading_level: None, include_leveloffset: 0 };
    assert_eq!(parser.section_start_level(&[meta, heading], false), Some(2));
    assert_eq!(parser.section_start_level(&[meta, heading], true), None);
    assert_eq!(parser.section_start_level(&[text, heading], false), None);
    assert_eq!(parser.section_start_level(&[meta], false), None);
    let shifted = LineShape { skippable: false, heading_level: Some(1), include_leveloffset: 2 };
    assert_eq!(parser.section_start_level(&[shifted], false), Some(3));
}

#[test]
fn peeked_section_special() {
    let peeked = PeekedSection {
        special_sect: Some(SpecialSection::Appendix),
        lines: ContiguousLines { lines: vec![] },
        semantic_level: 1,
        authored_level: 1,
    };
    assert!(peeked.is_special_sect());
    assert_eq!(peeked.special_sect(), Some(SpecialSection::Appendix));
}

#[test]
fn toc_tree_nests_by_level() {
    let mut attrs = DocAttrs::new();
    attrs.insert("toc".to_string(), AttrValue::Bool(true));
    let mut parser = Parser::new(attrs);
    parser.prepare_toc();
    let toc = parser.toc.as_ref().unwrap();
    assert_eq!(toc.position, TocPosition::Auto);
    assert_eq!(toc.title, "Table of Contents");
    parser.push_toc_node(1, 1, "One".to_string(), Some(&"_one".to_string()), None);
    parser.push_toc_node(2, 2, "One A".to_string(), None, None);
    parser.push_toc_node(3, 3, "Too deep".to_string(), None, None);
    parser.push_toc_node(1, 1, "Two".to_string(), None, None);
    let toc = parser.toc.as_ref().unwrap();
    assert_eq!(toc.nodes.len(), 2);
    assert_eq!(toc.nodes[0].title, "One");
    assert_eq!(toc.nodes[0].id, Some("_one".to_string()));
    assert_eq!(toc.nodes[0].children.len(), 1);
    assert_eq!(toc.nodes[0].children[0].title, "One A");
    assert_eq!(toc.nodes[0].children[0].children.len(), 0);
    assert_eq!(toc.nodes[1].title, "Two");
}

#[test]
fn toc_positions() {
    for (value, expected) in [("left", Some(TocPosition::Left)), ("macro", Some(TocPosition::Macro)), ("nope", None)] {
        let mut attrs = DocAttrs::new();
        attrs.insert("toc".to_string(), AttrValue::String(value.to_string()));
        attrs.insert("toc-title".to_string(), AttrValue::String("Contents".to_string()));
        let mut parser = Parser::new(attrs);
        parser.prepare_toc();
        assert_eq!(parser.toc.as_ref().map(|t| t.position), expected);
        if let Some(t) = parser.toc.as_ref() {
            assert_eq!(t.title, "Contents");
        }
    }
    let mut parser = Parser::new(DocAttrs::new());
    parser.prepare_toc();
    assert!(parser.toc.is_none());
    parser.push_toc_node(1, 1, "One".to_string(), None, None);
    assert!(parser.toc.is_none());
}

#[test]
fn autogen_with_leading_multibyte_separator_is_refused() {
    let mut parser = Parser::new(DocAttrs::new());
    assert_eq!(parser.try_autogen_sect_id(" a", "", Some('•')), None);
    assert_eq!(parser.try_autogen_sect_id("a b", "", Some('•')), Some("a•b".to_string()));
    let mut attrs = DocAttrs::new();
    attrs.insert("idprefix".to_string(), AttrValue::String("".into()));
    attrs.insert("idseparator".to_string(), AttrValue::String("•".into()));
    parser = Parser::new(attrs);
    assert_eq!(parser.section_id_checked(" a", None), None);
    assert!(parser.anchor_ids.is_empty());
    assert_eq!(parser.section_id_checked("x y", None), Some(Some("x•y".to_string())));
    assert_eq!(parser.section_id_checked(" a", Some("custom")), Some(Some("custom".to_string())));
}

#[test]
fn section_out_of_sequence_is_reported_and_left_out_of_toc() {
    let mut attrs = DocAttrs::new();
    attrs.insert("toc".to_string(), AttrValue::Bool(true));
    let mut parser = Parser::new(attrs);
    parser.prepare_toc();
    assert!(!parser.enter_section(0, 1, 1, "One".to_string(), None, None));
    assert!(parser.enter_section(1, 3, 3, "Deep".to_string(), None, None));
    assert_eq!(
        parser.errors,
        vec!["Section title out of sequence: expected level 2 `===`".to_string()]
    );
    assert!(!parser.enter_section(1, 2, 2, "One A".to_string(), None, None));
    assert!(!parser.enter_section(2, 1, 1, "Two".to_string(), None, None));
    let toc = parser.toc.as_ref().unwrap();
    assert_eq!(toc.nodes.len(), 2);
    assert_eq!(toc.nodes[0].children.len(), 1);
    assert_eq!(toc.nodes[0].children[0].title, "One A");
    assert_eq!(toc.nodes[1].title, "Two");
    assert_eq!(parser.errors.len(), 1);
}
