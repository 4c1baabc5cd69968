use asciidork_parser::attrs::{AttrValue, DocAttrs};
use asciidork_parser::include_directive::SafeMode;
use asciidork_parser::parser::Parser;
use asciidork_parser::source_file::SourceFile;

fn meta_str<'a>(parser: &'a Parser, key: &str) -> Option<&'a str> {
    match parser.attrs.get(key) {
        Some(AttrValue::String(s)) => Some(s.as_str()),
        _ => None,
    }
}

#[test]
fn file_attrs_in_safe_mode() {
    let mut parser = Parser::new(DocAttrs::new());
    parser.set_source_file_attrs(&SourceFile::Path("/home/doc/book.adoc".to_string()), SafeMode::Safe);
    assert_eq!(meta_str(&parser, "docfilesuffix"), Some(".adoc"));
    assert_eq!(meta_str(&parser, "docname"), Some("book"));
    assert_eq!(meta_str(&parser, "asciidork-docfilename"), Some("book.adoc"));
    assert_eq!(meta_str(&parser, "docfile"), Some("/home/doc/book.adoc"));
    assert_eq!(meta_str(&parser, "docdir"), Some("/home/doc"));
}

#[test]
fn file_attrs_hidden_in_secure_mode() {
    let mut parser = Parser::new(DocAttrs::new());
    parser.set_source_file_attrs(&SourceFile::Path("/home/doc/book.adoc".to_string()), SafeMode::Secure);
    assert_eq!(meta_str(&parser, "docname"), Some("book"));
    assert_eq!(meta_str(&parser, "docfile"), Some(""));
    assert_eq!(meta_str(&parser, "docdir"), Some(""));
}

#[test]
fn name_without_extension() {
    let mut parser = Parser::new(DocAttrs::new());
    parser.set_source_file_attrs(&SourceFile::Path("notes.v2/README".to_string()), SafeMode::Unsafe);
    assert_eq!(meta_str(&parser, "docfilesuffix"), Some(""));
    assert_eq!(meta_str(&parser, "docname"), Some("README"));
    assert_eq!(meta_str(&parser, "docdir"), Some("notes.v2"));
}

#[test]
fn stdin_and_tmp_sources_set_nothing() {
    let mut parser = Parser::new(DocAttrs::new());
    parser.set_source_file_attrs(&SourceFile::Stdin, SafeMode::Safe);
    parser.set_source_file_attrs(&SourceFile::Tmp, SafeMode::Safe);
    assert_eq!(meta_str(&parser, "docname"), None);
    assert!(parser.attrs.entries.is_empty());
}
