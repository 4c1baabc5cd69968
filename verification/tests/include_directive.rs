use asciidork_parser::attrs::{AttrValue, DocAttrs};
use asciidork_parser::include_directive::{
    include_link_line, prepare, IncludeAction, IncludeAttrs, IncludeDirective, IncludeSource, SafeMode,
};
use asciidork_parser::parser::Parser;
use asciidork_parser::resolver::{ConstResolver, ErrorResolver, IncludeBuffer, IncludeResolver, IncludeTarget, ResolveError};

#[test]
fn resolve_target_filepaths() {
    struct Case {
        target: &'static str,
        uri: bool,
        src: Option<&'static str>,
        primary: bool,
        base: Option<&'static str>,
        expected: Result<IncludeTarget, ResolveError>,
    }
    let fp = |s: &str| Ok(IncludeTarget::FilePath(s.to_string()));
    let cases = vec![
        Case {
            target: "b.adoc",
            uri: false,
            src: Some("/basedir/subdir/src.adoc"),
            primary: true,
            base: Some("/basedir"),
            expected: fp("/basedir/b.adoc"),
        },
        Case {
            target: "b.adoc",
            uri: false,
            src: Some("/basedir/src.adoc"),
            primary: true,
            base: Some("/basedir"),
            expected: fp("/basedir/b.adoc"),
        },
        Case {
            target: "other.adoc",
            uri: false,
            src: Some("/basedir/sub/src.adoc"),
            primary: false,
            base: Some("/basedir"),
            expected: fp("/basedir/sub/other.adoc"),
        },
        Case {
            target: "/abs/other.adoc",
            uri: false,
            src: Some("/path/to/src.adoc"),
            primary: true,
            base: Some("/basedir"),
            expected: fp("/abs/other.adoc"),
        },
        Case {
            target: "../other.adoc",
            uri: false,
            src: Some("/d1/d2/src.adoc"),
            primary: false,
            base: Some("/basedir"),
            expected: fp("/d1/d2/../other.adoc"),
        },
        Case {
            target: "b.adoc",
            uri: false,
            src: None,
            primary: true,
            base: None,
            expected: Err(ResolveError::BaseDirRequired),
        },
        Case {
            target: "https://example.com/a.adoc",
            uri: true,
            src: None,
            primary: true,
            base: None,
            expected: Ok(IncludeTarget::Uri("https://example.com/a.adoc".to_string())),
        },
    ];
    for c in cases {
        assert_eq!(prepare(c.target, c.uri, c.src, c.primary, c.base), c.expected, "{}", c.target);
    }
}

fn attrs() -> IncludeAttrs {
    IncludeAttrs {
        lines: None,
        tag: None,
        tags: None,
        indent: None,
        leveloffset: None,
        depth: None,
        encoding: None,
        optional: false,
    }
}

fn directive(target: &str, a: IncludeAttrs) -> IncludeDirective {
    IncludeDirective {
        line_src: format!("include::{target}[]"),
        target: target.to_string(),
        target_is_uri: target.starts_with("http"),
        attrs: a,
    }
}

fn source() -> IncludeSource {
    IncludeSource {
        path: Some("/docs/main.adoc".to_string()),
        is_primary: true,
        file_name: "main.adoc".to_string(),
        max_depth: None,
        depth: 0,
    }
}

#[test]
fn include_is_read_and_prepared() {
    let mut parser = Parser::new(DocAttrs::new());
    let mut resolver = Some(ConstResolver::new(b"one\r\ntwo  \nthree\n".to_vec()));
    let mut a = attrs();
    a.lines = Some("2..3".to_string());
    a.leveloffset = Some("+1".to_string());
    a.depth = Some("3".to_string());
    let d = directive("part.adoc", a);
    let action = parser.try_process_include_directive(Some(&d), SafeMode::Unsafe, &mut resolver, &source());
    match action {
        IncludeAction::PushSource { path, bytes, leveloffset, depth, diagnostics } => {
            assert_eq!(path, "/part.adoc");
            assert_eq!(
                String::from_utf8(bytes).unwrap(),
                "asciidorkinclude::[false]\ntwo\nthree\nasciidorkinclude::[false]\n"
            );
            assert_eq!(leveloffset, 1);
            assert_eq!(depth, Some(3));
            assert!(diagnostics.is_empty());
        },
        other => panic!("unexpected {other:?}"),
    }
    assert_eq!(parser.included_files, vec!["part.adoc".to_string()]);
    assert!(parser.errors.is_empty());
    assert_eq!(resolver.unwrap().asked, vec![IncludeTarget::FilePath("/part.adoc".to_string())]);
}

#[test]
fn include_gates() {
    let d = directive("part.adoc", attrs());
    let mut parser = Parser::new(DocAttrs::new());
    let mut resolver = Some(ConstResolver::new(b"x".to_vec()));
    assert_eq!(
        parser.try_process_include_directive(Some(&d), SafeMode::Secure, &mut resolver, &source()),
        IncludeAction::SubstituteLink("link:part.adoc[role=include,]".to_string())
    );
    assert_eq!(
        parser.try_process_include_directive::<ConstResolver>(None, SafeMode::Unsafe, &mut resolver, &source()),
        IncludeAction::Passthrough
    );
    let uri = directive("https://example.com/a.adoc", attrs());
    assert_eq!(
        parser.try_process_include_directive(Some(&uri), SafeMode::Unsafe, &mut resolver, &source()),
        IncludeAction::SubstituteLink("link:https://example.com/a.adoc[role=include,]".to_string())
    );
    assert_eq!(parser.errors, vec!["Cannot include URL contents (allow-uri-read not enabled)".to_string()]);

    let mut deep = source();
    deep.max_depth = Some((2, 0));
    deep.depth = 2;
    let mut parser = Parser::new(DocAttrs::new());
    assert_eq!(
        parser.try_process_include_directive(Some(&d), SafeMode::Unsafe, &mut resolver, &deep),
        IncludeAction::Passthrough
    );
    assert_eq!(parser.errors, vec!["Maximum include depth of 2 exceeded".to_string()]);

    let mut parser = Parser::new(DocAttrs::new());
    assert_eq!(
        parser.try_process_include_directive::<ConstResolver>(Some(&d), SafeMode::Unsafe, &mut None, &source()),
        IncludeAction::Passthrough
    );
    assert_eq!(parser.errors, vec!["No resolver supplied for include directive".to_string()]);

    let mut allowed = DocAttrs::new();
    allowed.insert("allow-uri-read".to_string(), AttrValue::Bool(true));
    let mut parser = Parser::new(allowed);
    match parser.try_process_include_directive(Some(&uri), SafeMode::Safe, &mut resolver, &source()) {
        IncludeAction::PushSource { path, .. } => assert_eq!(path, "https://example.com/a.adoc"),
        other => panic!("unexpected {other:?}"),
    }
    // only the last call got as far as the resolver
    assert_eq!(resolver.unwrap().asked, vec![IncludeTarget::Uri("https://example.com/a.adoc".to_string())]);
}

#[test]
fn include_resolve_errors() {
    let d = directive("missing.adoc", attrs());
    let mut parser = Parser::new(DocAttrs::new());
    let mut resolver = Some(ErrorResolver::new(ResolveError::NotFound));
    assert_eq!(
        parser.try_process_include_directive(Some(&d), SafeMode::Unsafe, &mut resolver, &source()),
        IncludeAction::ReadText("+++Unresolved directive in main.adoc - include::missing.adoc[]+++".to_string())
    );
    assert_eq!(parser.errors, vec!["Include error: File not found".to_string()]);

    let mut a = attrs();
    a.optional = true;
    let d = directive("missing.adoc", a);
    let mut parser = Parser::new(DocAttrs::new());
    assert_eq!(
        parser.try_process_include_directive(Some(&d), SafeMode::Unsafe, &mut resolver, &source()),
        IncludeAction::ReadNextLine
    );
    assert!(parser.errors.is_empty());

    let d = directive("x.adoc", attrs());
    let mut parser = Parser::new(DocAttrs::new());
    let mut resolver = Some(ErrorResolver::new(ResolveError::UriReadNotSupported));
    assert_eq!(
        parser.try_process_include_directive(Some(&d), SafeMode::Unsafe, &mut resolver, &source()),
        IncludeAction::Passthrough
    );
    assert_eq!(parser.errors, vec!["Include error: URI read not supported".to_string()]);
}

#[test]
fn include_decoding_error_becomes_link() {
    let mut parser = Parser::new(DocAttrs::new());
    let mut a = attrs();
    a.encoding = Some("utf-16".to_string());
    let action = parser.include_resolved("/x.adoc", "x.adoc", "include::x.adoc[encoding=utf-16]", vec![0x00, 0xD8], &a);
    assert_eq!(action, IncludeAction::SubstituteLink("link:x.adoc[role=include,encoding=utf-16]".to_string()));
    assert_eq!(parser.errors.len(), 1);
    assert!(parser.errors[0].starts_with("Error resolving file contents: "));
    assert!(parser.included_files.is_empty());
}

#[test]
fn include_indent_and_tags() {
    let mut parser = Parser::new(DocAttrs::new());
    let mut a = attrs();
    a.indent = Some("0".to_string());
    a.tag = Some("t".to_string());
    let raw = b"x\n  // tag::t[]\n    a\n      b\n  // end::t[]\n".to_vec();
    match parser.include_resolved("/x.rb", "x.rb", "include::x.rb[]", raw, &a) {
        IncludeAction::PushSource { bytes, .. } => {
            // re-indenting drops the marker lines, which are less indented
            assert_eq!(String::from_utf8(bytes).unwrap(), "a\n  b");
        },
        other => panic!("unexpected {other:?}"),
    }
}

#[test]
fn resolve_failure_outcomes() {
    let mut parser = Parser::new(DocAttrs::new());
    let mut a = attrs();
    a.optional = true;
    let d = directive("missing.adoc", a);
    assert_eq!(parser.include_resolve_failed(&d, &source(), ResolveError::NotFound), IncludeAction::ReadNextLine);
    assert!(parser.errors.is_empty());

    let d = directive("missing.adoc", attrs());
    match parser.include_resolve_failed(&d, &source(), ResolveError::Io("disk".to_string())) {
        IncludeAction::ReadText(t) => assert!(t.starts_with("+++Unresolved directive in ")),
        other => panic!("unexpected {:?}", other),
    }
    assert_eq!(parser.errors, vec!["Include error: I/O error: disk".to_string()]);

    let r = parser.include_resolve_failed(&d, &source(), ResolveError::UriReadNotSupported);
    assert_eq!(r, IncludeAction::Passthrough);
    assert_eq!(parser.errors.len(), 2);
}

#[test]
fn buffer_initialize_keeps_prefix_and_pads_with_zeros() {
    let mut v: Vec<u8> = vec![7, 8];
    v.initialize(4);
    assert_eq!(v, vec![7, 8, 0, 0]);
    v.initialize(1);
    assert_eq!(v, vec![7]);
}

struct NoBaseDir;

impl IncludeResolver for NoBaseDir {
    fn resolve(&mut self, _target: IncludeTarget, _buffer: &mut Vec<u8>) -> Result<usize, ResolveError> {
        Err(ResolveError::NotFound)
    }
}

#[test]
fn default_base_dir_is_none() {
    assert_eq!(NoBaseDir.get_base_dir(), None);
}

#[test]
fn included_file_recorded_once() {
    let mut parser = Parser::new(DocAttrs::new());
    let mut resolver = Some(ConstResolver::new(b"x\n".to_vec()));
    let d = directive("part.adoc", attrs());
    parser.try_process_include_directive(Some(&d), SafeMode::Unsafe, &mut resolver, &source());
    parser.try_process_include_directive(Some(&d), SafeMode::Unsafe, &mut resolver, &source());
    assert_eq!(parser.included_files, vec!["part.adoc".to_string()]);
    let action = parser.try_process_include_directive(Some(&d), SafeMode::Secure, &mut resolver, &source());
    assert_eq!(action, IncludeAction::SubstituteLink("link:part.adoc[role=include,]".to_string()));
    assert_eq!(parser.included_files.len(), 1);
}

#[test]
fn secure_mode_link_line() {
    assert_eq!(include_link_line("include::part.adoc[]", "part.adoc"), "link:part.adoc[role=include,]");
    assert_eq!(
        include_link_line("include::my file.adoc[lines=1]", "my file.adoc"),
        "link:pass:c[my file.adoc][role=include,lines=1]"
    );
    assert_eq!(
        include_link_line("include::a.adoc[x=include::b]", "a.adoc"),
        "link:a.adoc[role=include,x=link:b]"
    );
}
