use asciidork_parser::attrs::DocAttrs;
use asciidork_parser::ifeval::{coerce_eval_expr, Coerced, Value};
use asciidork_parser::parser::{DirectiveAction, Parser};

fn coerce(expr: &str) -> Coerced {
    coerce_eval_expr(expr, expr.parse::<f32>().is_ok())
}

#[test]
fn coerce_plain_operands() {
    let cases = vec![
        ("true", Coerced::Value(Value::Boolean(true))),
        ("false", Coerced::Value(Value::Boolean(false))),
        ("", Coerced::Value(Value::Nil)),
        ("1", Coerced::Value(Value::Int(1))),
        ("2", Coerced::Value(Value::Int(2))),
        ("-7", Coerced::Value(Value::Int(-7))),
        ("3.23", Coerced::Float),
        (".3", Coerced::Float),
        ("\"\"", Coerced::Value(Value::String("".to_string()))),
        ("''", Coerced::Value(Value::String("".to_string()))),
        ("'world'", Coerced::Value(Value::String("world".to_string()))),
        ("\"world\"", Coerced::Value(Value::String("world".to_string()))),
        ("    ", Coerced::Value(Value::String(" ".to_string()))),
        ("not-enclosed-or-period", Coerced::Value(Value::Int(0))),
        ("'mismatched\"", Coerced::Value(Value::Int(0))),
    ];
    for (input, expected) in cases {
        assert_eq!(coerce(input), expected, "input: {input:?}");
    }
}

#[test]
fn integer_too_large_for_isize_reads_as_float() {
    assert_eq!(coerce("99999999999999999999"), Coerced::Float);
}

#[test]
fn ifeval_directive_outcomes() {
    let mut parser = Parser::new(DocAttrs::new());
    assert_eq!(
        parser.try_process_ifeval("", "==", &Value::Int(1), &Value::Int(1)),
        DirectiveAction::ReadNextLine
    );
    assert_eq!(parser.ifdef_stack, vec!["[•ifeval•]".to_string()]);
    assert_eq!(
        parser.try_process_ifeval("", "<", &Value::Int(2), &Value::Int(1)),
        DirectiveAction::SkipLinesUntilEndIf
    );
    assert_eq!(
        parser.try_process_ifeval("", "=~", &Value::Int(2), &Value::Int(1)),
        DirectiveAction::Passthrough
    );
    assert!(parser.errors.is_empty());
    assert_eq!(
        parser.try_process_ifeval("foo", "==", &Value::Int(1), &Value::Int(1)),
        DirectiveAction::Passthrough
    );
    assert_eq!(parser.invalid_ifeval_directive(), DirectiveAction::Passthrough);
    assert_eq!(
        parser.errors,
        vec![
            "ifeval directive may not include a target".to_string(),
            "Invalid ifeval directive expression".to_string()
        ]
    );
    assert_eq!(parser.ifdef_stack.len(), 1);
}
