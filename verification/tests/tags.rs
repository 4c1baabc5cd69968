use asciidork_parser::tags::{parse_selection, select_tagged, Spec, TagDiagnostic, TagSpecs};

fn s(v: &str) -> String {
    v.to_string()
}

#[test]
fn test_parse_tag_selection() {
    let cases = [
        ("**", vec![Spec::AllNonTagDirectiveLines]),
        ("!**", vec![Spec::NoLines]),
        ("*", vec![Spec::AllTaggedRegions]),
        ("!*", vec![Spec::AllUntaggedRegions]),
        ("foo", vec![Spec::Tag(s("foo"))]),
        ("!foo", vec![Spec::AllLinesExcl(s("foo"))]),
        ("foo,!bar", vec![Spec::TagExclNested(s("foo"), s("bar"))]),
        ("    foo; !bar  ", vec![Spec::TagExclNested(s("foo"), s("bar"))]),
        ("foo;!*", vec![Spec::TagExclAllNested(s("foo"))]),
        ("*;!foo", vec![Spec::AllTaggedExcl(s("foo"))]),
        ("!*;foo", vec![Spec::AllUntaggedIncl(s("foo"))]),
        ("!foo;!bar", vec![Spec::AllLinesExcl(s("foo")), Spec::AllLinesExcl(s("bar"))]),
    ];
    for (input, expected) in cases.into_iter() {
        assert_eq!(parse_selection(input), TagSpecs(expected), "{input}");
    }
}

const SIMPLE: &str = "outside\n#tag::foo[]\ninside foo\n#end::foo[]\noutside";

const SNIPPETS: &str = "untagged first line\n\n// tag::snippet[]\n// tag::snippetA[]\nsnippetA content\n// end::snippetA[]\n\nsnippet content\n\n// tag::snippetB[]\nsnippetB content\n// end::snippetB[]\n// end::snippet[]\n\nuntagged last line";

const M: &str = "asciidorkinclude::[false]";

fn select(file: &str, selection: &str) -> String {
    let mut bytes = file.as_bytes().to_vec();
    let specs = parse_selection(selection);
    select_tagged(&specs, &mut bytes);
    String::from_utf8(bytes).unwrap()
}

#[test]
fn test_selection() {
    let cases = vec![
        (SIMPLE, "**", format!("outside\n{M}\ninside foo\n{M}\noutside\n")),
        (SIMPLE, "!*", format!("outside\n{M}\n{M}\noutside\n")),
        (SIMPLE, "*", format!("{M}\ninside foo\n{M}\n")),
        (SIMPLE, "!**", String::new()),
        (SIMPLE, "foo", format!("{M}\ninside foo\n{M}\n")),
        (SNIPPETS, "snippetA", format!("{M}\n{M}\nsnippetA content\n{M}\n{M}\n{M}\n{M}\n")),
        (
            SNIPPETS,
            "snippetA,snippetB",
            format!("{M}\n{M}\nsnippetA content\n{M}\n{M}\nsnippetB content\n{M}\n{M}\n"),
        ),
        (
            SNIPPETS,
            "snippet",
            format!("{M}\n{M}\nsnippetA content\n{M}\n\nsnippet content\n\n{M}\nsnippetB content\n{M}\n{M}\n"),
        ),
        (
            "(* tag::snippet[] *)\nlet s = SS.empty;;\n(* end::snippet[] *)",
            "snippet",
            format!("{M}\nlet s = SS.empty;;\n{M}\n"),
        ),
        (
            "not included\ntag::include-me[]\nincluded\nend::include-me[]",
            "include-me",
            format!("{M}\nincluded\n{M}\n"),
        ),
        (
            "do not include\r\ntag::include-me[]\r\nincluded line\r\nend::include-me[]\r\ndo not include",
            "include-me",
            format!("{M}\nincluded line\r\n{M}\n"),
        ),
    ];
    for (file, selection, expected) in cases {
        assert_eq!(select(file, selection), expected, "{selection}");
    }
}

#[test]
fn tags_not_found_are_reported_sorted() {
    let mut bytes = SIMPLE.as_bytes().to_vec();
    let specs = parse_selection("zeta;alpha;mid");
    let diags = select_tagged(&specs, &mut bytes);
    let tags = diags
        .iter()
        .find_map(|d| match d {
            TagDiagnostic::TagsNotFound { tags } => Some(tags.clone()),
            _ => None,
        })
        .unwrap();
    assert_eq!(tags, vec!["alpha".to_string(), "mid".to_string(), "zeta".to_string()]);
}
