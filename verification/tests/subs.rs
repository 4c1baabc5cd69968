use asciidork_parser::ifeval::{eval, Op, Value};
use asciidork_parser::subs::{from_meta, StepOrGroup, Subs, Substitutions};

fn exactly(subs: &[Subs]) -> Substitutions {
    let mut s = Substitutions::none();
    subs.iter().for_each(|sub| s.insert(*sub));
    s
}

fn all_except(subs: &[Subs]) -> Substitutions {
    let mut s = Substitutions::all();
    subs.iter().for_each(|sub| s.remove(*sub));
    s
}

#[test]
fn test_customize_subs_from_meta() {
    let cases = [
        ("none", Substitutions::all(), Substitutions::none()),
        ("normal", Substitutions::none(), Substitutions::all()),
        ("-specialchars", Substitutions::all(), all_except(&[Subs::SpecialChars])),
        ("macros+", exactly(&[Subs::SpecialChars]), exactly(&[Subs::Macros, Subs::SpecialChars])),
        ("+macros", exactly(&[Subs::SpecialChars]), exactly(&[Subs::SpecialChars, Subs::Macros])),
        (
            "attributes+,+quotes,-macros",
            exactly(&[Subs::SpecialChars, Subs::Macros]),
            exactly(&[Subs::AttrRefs, Subs::SpecialChars, Subs::InlineFormatting]),
        ),
    ];
    for (attr, current, expected) in cases {
        let next = from_meta(current, Some(attr));
        assert_eq!(next, expected, "{attr}");
    }
}

#[test]
fn from_meta_without_attr_keeps_current() {
    let current = exactly(&[Subs::Macros]);
    assert_eq!(from_meta(current.clone(), None), current);
    // short and unknown entries are ignored
    assert_eq!(from_meta(current.clone(), Some("+ab,bogus")), current);
    // a replacing entry ends the list
    assert_eq!(from_meta(current, Some("none,+verbatim")), Substitutions::none());
}

#[test]
fn pass_macro_targets() {
    assert_eq!(Substitutions::from_pass_macro_target(""), Substitutions::none());
    assert_eq!(
        Substitutions::from_pass_macro_target("q,a"),
        exactly(&[Subs::InlineFormatting, Subs::AttrRefs])
    );
    assert_eq!(Substitutions::from_pass_macro_target("c,v,x"), exactly(&[Subs::SpecialChars]));
    assert_eq!(Substitutions::from_pass_macro_target("c,n"), Substitutions::normal());
    assert_eq!(
        Substitutions::from_pass_macro_target("n,p"),
        Substitutions::normal()
    );
    assert_eq!(Substitutions::from_pass_plus_len(3), Substitutions::none());
    assert_eq!(Substitutions::from_pass_plus_len(1), exactly(&[Subs::SpecialChars]));
}

#[test]
fn steps_are_kept_once_and_in_order() {
    let mut s = exactly(&[Subs::Macros]);
    s.insert(Subs::Macros);
    s.prepend(Subs::Macros);
    assert_eq!(s, exactly(&[Subs::Macros]));
    s.prepend(Subs::AttrRefs);
    assert_eq!(s, exactly(&[Subs::AttrRefs, Subs::Macros]));
    assert!(s.contains(Subs::AttrRefs));
    s.remove(Subs::AttrRefs);
    assert!(!s.contains(Subs::AttrRefs));
    assert_eq!(StepOrGroup::from("post_replacements"), Some(StepOrGroup::PostReplacements));
    assert_eq!(StepOrGroup::from("post"), None);
}

#[test]
fn ifeval_comparisons() {
    assert_eq!(Op::from_str("<="), Some(Op::LessEq));
    assert_eq!(Op::from_str("=<"), None);
    assert!(eval(&Value::Int(1), Op::Less, &Value::Int(2)));
    assert!(!eval(&Value::Int(1), Op::GreaterEq, &Value::Int(2)));
    assert!(eval(&Value::String("abc".into()), Op::Less, &Value::String("abd".into())));
    assert!(eval(&Value::String("ab".into()), Op::Less, &Value::String("abc".into())));
    assert!(eval(&Value::String("b".into()), Op::Greater, &Value::String("abc".into())));
    assert!(eval(&Value::Boolean(true), Op::Eq, &Value::Boolean(true)));
    assert!(!eval(&Value::Boolean(true), Op::Less, &Value::Boolean(true)));
    assert!(eval(&Value::Nil, Op::Eq, &Value::Nil));
    assert!(eval(&Value::Nil, Op::NotEq, &Value::Int(1)));
    assert!(!eval(&Value::Int(1), Op::NotEq, &Value::Nil));
    assert!(!eval(&Value::Int(1), Op::Eq, &Value::String("1".into())));
}
