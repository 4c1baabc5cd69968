use asciidork_parser::attrs::DocAttrs;
use asciidork_parser::blocks::SpecialSection;
use asciidork_parser::index_term::terminates;
use asciidork_parser::line::Line;
use asciidork_parser::parser::Parser;
use asciidork_parser::structure::{
    BiblioContext, BlockSpan, Chunk, DelimiterLine, DocContent, DocCursor, Event, SectionHeading,
};
use asciidork_parser::token::{SourceLocation, Token, TokenKind};

fn heading(level: u8, start: u32, end: u32) -> SectionHeading {
    SectionHeading {
        level,
        special: None,
        bibliography: false,
        line_start: start,
        line_end: end,
        marker_end: start + level as u32 + 1,
        text_start: start + level as u32 + 2,
    }
}

fn special(level: u8, sp: SpecialSection, start: u32, end: u32) -> SectionHeading {
    SectionHeading { special: Some(sp), ..heading(level, start, end) }
}

fn block(start: u32, end: u32) -> Chunk {
    Chunk::Block(BlockSpan { start, end })
}

fn cursor(chunks: Vec<Chunk>, book: bool) -> DocCursor {
    DocCursor {
        chunks,
        pos: 0,
        section_level: 0,
        bibliography_ctx: BiblioContext::Outside,
        doctype_book: book,
        delimiter: None,
    }
}

fn parser() -> Parser {
    Parser::new(DocAttrs::new())
}

#[test]
fn test_parse_2_sections() {
    // == one\n\nfoo\n\n== two\n\nbar
    let one = heading(1, 0, 6);
    let two = heading(1, 13, 19);
    let mut cur = cursor(vec![Chunk::Heading(one), block(8, 11), Chunk::Heading(two), block(21, 24)], false);
    let mut p = parser();
    let first = p.parse_section(&mut cur).unwrap().unwrap();
    assert_eq!(first, vec![Event::Open(1, one), Event::Block(BlockSpan { start: 8, end: 11 }), Event::Close]);
    let second = p.parse_section(&mut cur).unwrap().unwrap();
    assert_eq!(second, vec![Event::Open(1, two), Event::Block(BlockSpan { start: 21, end: 24 }), Event::Close]);
    assert!(p.parse_section(&mut cur).unwrap().is_none());
    assert!(p.errors.is_empty());
}

#[test]
fn nested_sections_close_at_their_level() {
    let h1 = heading(1, 0, 5);
    let h2 = heading(2, 7, 13);
    let h3 = heading(1, 20, 25);
    let mut cur = cursor(vec![Chunk::Heading(h1), block(5, 6), Chunk::Heading(h2), block(14, 15), Chunk::Heading(h3)], false);
    let mut p = parser();
    let sec = p.parse_section(&mut cur).unwrap().unwrap();
    assert_eq!(
        sec,
        vec![
            Event::Open(1, h1),
            Event::Block(BlockSpan { start: 5, end: 6 }),
            Event::Open(2, h2),
            Event::Block(BlockSpan { start: 14, end: 15 }),
            Event::Close,
            Event::Close,
        ]
    );
    assert_eq!(cur.pos, 4);
    assert_eq!(cur.section_level, 0);
}

#[test]
fn section_level_restored_and_bibliography_left() {
    let mut h = heading(1, 0, 16);
    h.bibliography = true;
    let mut cur = cursor(vec![Chunk::Heading(h), block(18, 30)], false);
    let mut p = parser();
    p.parse_section(&mut cur).unwrap().unwrap();
    assert_eq!(cur.section_level, 0);
    assert_eq!(cur.bibliography_ctx, BiblioContext::Outside);
}

#[test]
fn block_stops_at_top_level_heading() {
    let mut cur = cursor(vec![block(0, 3), Chunk::Heading(heading(1, 5, 10))], false);
    let mut p = parser();
    assert_eq!(p.parse_block(&mut cur).unwrap(), Some(vec![Event::Block(BlockSpan { start: 0, end: 3 })]));
    assert_eq!(p.parse_block(&mut cur).unwrap(), None);
    assert_eq!(cur.pos, 1);
}

#[test]
fn out_of_sequence_heading_is_reported() {
    let h = heading(3, 0, 9);
    let mut cur = cursor(vec![Chunk::Heading(h)], false);
    cur.section_level = 1;
    let mut p = parser();
    let sec = p.parse_section(&mut cur).unwrap().unwrap();
    assert_eq!(sec, vec![Event::Open(3, h), Event::Close]);
    assert_eq!(p.errors, vec!["Section title out of sequence: expected level 2 `===`".to_string()]);
    assert_eq!(cur.section_level, 1);
}

#[test]
fn level_0_section_outside_book_is_reported() {
    let h = heading(0, 0, 7);
    let mut cur = cursor(vec![Chunk::Heading(h), block(9, 12)], false);
    let mut p = parser();
    let sec = p.parse_section(&mut cur).unwrap().unwrap();
    assert_eq!(sec, vec![Event::Open(0, h), Event::Block(BlockSpan { start: 9, end: 12 }), Event::Close]);
    assert_eq!(p.errors, vec!["Level 0 section allowed only in doctype=book".to_string()]);
}

#[test]
fn level_0_section_in_strict_mode_is_returned() {
    let h = heading(0, 0, 7);
    let mut cur = cursor(vec![Chunk::Heading(h)], false);
    let mut p = parser();
    p.strict = true;
    let err = p.parse_section(&mut cur).unwrap_err();
    assert_eq!(err.message, "Level 0 section allowed only in doctype=book");
    assert_eq!((err.start, err.end), (0, 7));
    assert!(p.errors.is_empty());
}

#[test]
fn level_0_heading_ends_sections_in_book() {
    let mut cur = cursor(vec![Chunk::Heading(heading(0, 0, 7))], true);
    let mut p = parser();
    assert!(p.parse_section(&mut cur).unwrap().is_none());
    assert_eq!(cur.pos, 0);
}

#[test]
fn special_section_without_subsections_reports_nested() {
    let g = special(1, SpecialSection::Glossary, 0, 11);
    let sub = heading(2, 13, 20);
    let mut cur = cursor(vec![Chunk::Heading(g), Chunk::Heading(sub), block(22, 25)], false);
    let mut p = parser();
    let sec = p.parse_section(&mut cur).unwrap().unwrap();
    assert_eq!(sec.len(), 5);
    assert_eq!(p.errors, vec!["glossary sections do not support nested sections".to_string()]);
}

#[test]
fn appendix_may_hold_subsections() {
    let a = special(1, SpecialSection::Appendix, 0, 11);
    let sub = heading(2, 13, 20);
    let mut cur = cursor(vec![Chunk::Heading(a), Chunk::Heading(sub)], false);
    let mut p = parser();
    p.parse_section(&mut cur).unwrap().unwrap();
    assert!(p.errors.is_empty());
}

#[test]
fn sectioned_splits_preamble_from_sections() {
    let h = heading(1, 10, 15);
    let mut cur = cursor(vec![block(0, 4), block(5, 8), Chunk::Heading(h), block(16, 20)], false);
    let mut p = parser();
    let sd = p.parse_sectioned(&mut cur).unwrap();
    assert_eq!(
        sd.preamble,
        Some(vec![Event::Block(BlockSpan { start: 0, end: 4 }), Event::Block(BlockSpan { start: 5, end: 8 })])
    );
    assert_eq!(sd.sections, vec![Event::Open(1, h), Event::Block(BlockSpan { start: 16, end: 20 }), Event::Close]);
    let mut cur = cursor(vec![Chunk::Heading(h)], false);
    assert_eq!(p.parse_sectioned(&mut cur).unwrap().preamble, None);
}

#[test]
fn article_has_no_book_body() {
    let mut cur = cursor(vec![block(0, 3)], false);
    let mut p = parser();
    assert!(p.parse_book(&mut cur).unwrap().is_none());
}

#[test]
fn book_of_parts_with_special_sections() {
    let preface = special(0, SpecialSection::Preface, 0, 10);
    let part1 = heading(0, 20, 30);
    let ch1 = heading(1, 32, 40);
    let part2 = heading(0, 50, 60);
    let ch2 = heading(1, 62, 70);
    let colophon = special(0, SpecialSection::Colophon, 80, 90);
    let mut cur = cursor(
        vec![
            Chunk::Heading(preface),
            block(12, 18),
            Chunk::Heading(part1),
            block(31, 31),
            Chunk::Heading(ch1),
            block(41, 45),
            Chunk::Heading(part2),
            Chunk::Heading(ch2),
            Chunk::Heading(colophon),
            block(91, 95),
        ],
        true,
    );
    let mut p = parser();
    let content = p.parse_book(&mut cur).unwrap().unwrap();
    let DocContent::Parts(book) = content else { panic!("expected parts") };
    assert_eq!(book.preamble, None);
    assert_eq!(
        book.opening_special_sects,
        vec![Event::Open(1, preface), Event::Block(BlockSpan { start: 12, end: 18 }), Event::Close]
    );
    assert_eq!(book.parts.len(), 2);
    assert_eq!(book.parts[0].heading, part1);
    assert_eq!(book.parts[0].intro, Some(vec![Event::Block(BlockSpan { start: 31, end: 31 })]));
    assert_eq!(
        book.parts[0].sections,
        vec![Event::Open(1, ch1), Event::Block(BlockSpan { start: 41, end: 45 }), Event::Close]
    );
    assert_eq!(book.parts[1].intro, None);
    assert_eq!(book.parts[1].sections, vec![Event::Open(1, ch2), Event::Close]);
    assert_eq!(
        book.closing_special_sects,
        vec![Event::Open(1, colophon), Event::Block(BlockSpan { start: 91, end: 95 }), Event::Close]
    );
    assert!(p.errors.is_empty());
    assert_eq!(cur.pos, 10);
}

#[test]
fn empty_book_part_is_reported() {
    let part = heading(0, 0, 8);
    let mut cur = cursor(vec![Chunk::Heading(part), block(10, 12)], true);
    let mut p = parser();
    let content = p.parse_book(&mut cur).unwrap().unwrap();
    assert!(matches!(content, DocContent::Parts(_)));
    assert_eq!(p.errors, vec!["Invalid empty book part, must have at least one section".to_string()]);
}

#[test]
fn book_of_sections_keeps_opening_special_sections_first() {
    let ded = special(1, SpecialSection::Dedication, 0, 10);
    let ch = heading(1, 20, 30);
    let mut cur = cursor(vec![Chunk::Heading(ded), block(11, 15), Chunk::Heading(ch), block(31, 35)], true);
    let mut p = parser();
    let DocContent::Sections(sd) = p.parse_book(&mut cur).unwrap().unwrap() else { panic!("expected sections") };
    assert_eq!(sd.preamble, None);
    assert_eq!(
        sd.sections,
        vec![
            Event::Open(1, ded),
            Event::Block(BlockSpan { start: 11, end: 15 }),
            Event::Close,
            Event::Open(1, ch),
            Event::Block(BlockSpan { start: 31, end: 35 }),
            Event::Close,
        ]
    );
}

#[test]
fn book_blocks_before_sections_become_preamble() {
    let ch = heading(1, 10, 20);
    let mut cur = cursor(vec![block(0, 5), Chunk::Heading(ch), block(21, 25)], true);
    let mut p = parser();
    let DocContent::Sections(sd) = p.parse_book(&mut cur).unwrap().unwrap() else { panic!("expected sections") };
    assert_eq!(sd.preamble, Some(vec![Event::Block(BlockSpan { start: 0, end: 5 })]));
    assert_eq!(sd.sections, vec![Event::Open(1, ch), Event::Block(BlockSpan { start: 21, end: 25 }), Event::Close]);
}

#[test]
fn book_of_blocks_only() {
    let mut cur = cursor(vec![block(0, 5), block(6, 9)], true);
    let mut p = parser();
    let content = p.parse_book(&mut cur).unwrap().unwrap();
    let DocContent::Blocks(b) = content else { panic!("expected blocks") };
    assert_eq!(b, vec![Event::Block(BlockSpan { start: 0, end: 5 }), Event::Block(BlockSpan { start: 6, end: 9 })]);
}

#[test]
fn special_section_names() {
    assert_eq!(SpecialSection::Bibliography.to_str(), "bibliography");
    assert!(SpecialSection::Appendix.supports_subsections());
    assert!(!SpecialSection::Index.supports_subsections());
}

fn tokens(kinds: &[TokenKind]) -> Line {
    let mut v = Vec::new();
    let mut at = 0u32;
    for k in kinds {
        v.push(Token::new(*k, SourceLocation::new(at, at + 1), "x".to_string()));
        at += 1;
    }
    Line::new(v)
}

#[test]
fn index_term_end() {
    let closing = tokens(&[TokenKind::CloseParens, TokenKind::Word]);
    assert_eq!(terminates(&closing, Some(3), Some(7)), None);
    let word = tokens(&[TokenKind::Word, TokenKind::CloseParens]);
    assert_eq!(terminates(&word, Some(3), Some(7)), Some(3));
    assert_eq!(terminates(&word, None, Some(7)), Some(7));
    assert_eq!(terminates(&word, None, None), None);
}

fn delim(kind: u32, start: u32) -> DelimiterLine {
    DelimiterLine { kind, open_block: false, start, end: start + 4 }
}

#[test]
fn delimited_block_holds_blocks() {
    // ====\nfoo\n\n====
    let open = delim(1, 0);
    let mut cur = cursor(vec![Chunk::Delimiter(open), block(5, 8), block(10, 12), Chunk::Delimiter(delim(1, 13))], false);
    let mut p = parser();
    let v = p.parse_block(&mut cur).unwrap().unwrap();
    assert_eq!(
        v,
        vec![
            Event::Delimited(open),
            Event::Block(BlockSpan { start: 5, end: 8 }),
            Event::Block(BlockSpan { start: 10, end: 12 }),
            Event::Close,
        ]
    );
    assert_eq!(cur.pos, 4);
    assert_eq!(cur.delimiter, None);
    assert!(p.errors.is_empty());
}

#[test]
fn unclosed_delimiter_is_reported() {
    let open = delim(2, 0);
    let mut cur = cursor(vec![Chunk::Delimiter(open), block(5, 8)], false);
    let mut p = parser();
    let v = p.parse_block(&mut cur).unwrap().unwrap();
    assert_eq!(v, vec![Event::Delimited(open), Event::Block(BlockSpan { start: 5, end: 8 }), Event::Close]);
    assert_eq!(p.errors, vec!["This delimiter was never closed".to_string()]);
    let mut cur = cursor(vec![Chunk::Delimiter(open)], false);
    let mut strict = parser();
    strict.strict = true;
    let err = strict.parse_block(&mut cur).unwrap_err();
    assert_eq!((err.message.as_str(), err.start, err.end), ("This delimiter was never closed", 0, 4));
}

#[test]
fn top_level_heading_inside_delimited_block_is_a_block() {
    let open = delim(3, 0);
    let h = heading(1, 5, 10);
    let mut cur = cursor(vec![Chunk::Delimiter(open), Chunk::Heading(h), Chunk::Delimiter(delim(3, 11))], false);
    let mut p = parser();
    let v = p.parse_block(&mut cur).unwrap().unwrap();
    assert_eq!(v, vec![Event::Delimited(open), Event::Block(BlockSpan { start: 5, end: 10 }), Event::Close]);
}

#[test]
fn nested_delimited_blocks_of_other_kinds() {
    let outer = delim(1, 0);
    let inner = delim(2, 5);
    let mut cur = cursor(
        vec![
            Chunk::Delimiter(outer),
            Chunk::Delimiter(inner),
            block(10, 12),
            Chunk::Delimiter(delim(2, 13)),
            Chunk::Delimiter(delim(1, 18)),
        ],
        false,
    );
    let mut p = parser();
    let v = p.parse_block(&mut cur).unwrap().unwrap();
    assert_eq!(
        v,
        vec![
            Event::Delimited(outer),
            Event::Delimited(inner),
            Event::Block(BlockSpan { start: 10, end: 12 }),
            Event::Close,
            Event::Close,
        ]
    );
    assert_eq!(cur.pos, 5);
}

fn is_balanced(e: &[Event]) -> bool {
    let mut depth = 0i64;
    for ev in e {
        match ev {
            Event::Open(..) | Event::Delimited(_) => depth += 1,
            Event::Close => {
                if depth == 0 {
                    return false;
                }
                depth -= 1;
            }
            Event::Block(_) => {}
        }
    }
    depth == 0
}

#[test]
fn sections_nest_and_stand_below() {
    let h1 = heading(1, 0, 5);
    let h2 = heading(2, 6, 12);
    let h3 = heading(3, 13, 20);
    let mut cur = cursor(
        vec![Chunk::Heading(h1), Chunk::Heading(h2), Chunk::Heading(h3), block(21, 22), Chunk::Delimiter(delim(1, 23)), Chunk::Delimiter(delim(1, 30))],
        false,
    );
    let mut p = parser();
    let v = p.parse_section(&mut cur).unwrap().unwrap();
    assert!(is_balanced(&v));
    let levels: Vec<u8> = v.iter().filter_map(|e| if let Event::Open(l, _) = e { Some(*l) } else { None }).collect();
    assert_eq!(levels, vec![1, 2, 3]);
}

#[test]
fn part_intro_in_one_open_block_is_its_blocks() {
    let part = heading(0, 0, 8);
    let open = DelimiterLine { kind: 7, open_block: true, start: 10, end: 12 };
    let ch = heading(1, 30, 38);
    let mut cur = cursor(
        vec![
            Chunk::Heading(part),
            Chunk::Delimiter(open),
            block(13, 20),
            Chunk::Delimiter(DelimiterLine { start: 21, end: 23, ..open }),
            Chunk::Heading(ch),
        ],
        true,
    );
    let mut p = parser();
    let DocContent::Parts(book) = p.parse_book(&mut cur).unwrap().unwrap() else { panic!("expected parts") };
    assert_eq!(book.parts[0].intro, Some(vec![Event::Block(BlockSpan { start: 13, end: 20 })]));
    // an example block stays as it is
    let example = DelimiterLine { kind: 8, open_block: false, start: 10, end: 14 };
    let mut cur = cursor(
        vec![
            Chunk::Heading(part),
            Chunk::Delimiter(example),
            block(15, 20),
            Chunk::Delimiter(DelimiterLine { start: 21, end: 25, ..example }),
            Chunk::Heading(ch),
        ],
        true,
    );
    let DocContent::Parts(book) = p.parse_book(&mut cur).unwrap().unwrap() else { panic!("expected parts") };
    assert_eq!(
        book.parts[0].intro,
        Some(vec![Event::Delimited(example), Event::Block(BlockSpan { start: 15, end: 20 }), Event::Close])
    );
}
