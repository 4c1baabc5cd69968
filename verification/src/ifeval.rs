//! The comparison of `ifeval::[lhs op rhs]` directives, for integer,
//! string, boolean and empty operands.
use vstd::prelude::*;
use vstd::string::StringExecFns;

use crate::text::signed_decimal;

verus! {

/// A comparison operator of `ifeval`.
#[derive(Debug, Clone, Copy, PartialEq, Eq, Structural)]
pub enum Op {
    Eq,
    NotEq,
    Less,
    LessEq,
    Greater,
    GreaterEq,
}

pub open spec fn op_of(s: Seq<char>) -> Option<Op> {
    if s == "=="@ {
        Some(Op::Eq)
    } else if s == "!="@ {
        Some(Op::NotEq)
    } else if s == "<"@ {
        Some(Op::Less)
    } else if s == "<="@ {
        Some(Op::LessEq)
    } else if s == ">"@ {
        Some(Op::Greater)
    } else if s == ">="@ {
        Some(Op::GreaterEq)
    } else {
        None
    }
}

impl Op {
    /// The operator a text names.
    pub fn from_str(op: &str) -> (r: Option<Op>)
        ensures
            r == op_of(op@),
    {
        if crate::text::str_eq(op, "==") {
            Some(Op::Eq)
        } else if crate::text::str_eq(op, "!=") {
            Some(Op::NotEq)
        } else if crate::text::str_eq(op, "<") {
            Some(Op::Less)
        } else if crate::text::str_eq(op, "<=") {
            Some(Op::LessEq)
        } else if crate::text::str_eq(op, ">") {
            Some(Op::Greater)
        } else if crate::text::str_eq(op, ">=") {
            Some(Op::GreaterEq)
        } else {
            None
        }
    }
}

/// An operand of `ifeval`. (Decimal operands are compared where floating
/// point is available.)
#[derive(Debug, Clone, PartialEq, Eq)]
pub enum Value {
    Int(isize),
    String(String),
    Boolean(bool),
    Nil,
}

pub enum ValueV {
    Int(int),
    String(Seq<char>),
    Boolean(bool),
    Nil,
}

impl View for Value {
    type V = ValueV;

    open spec fn view(&self) -> ValueV {
        match self {
            Value::Int(i) => ValueV::Int(*i as int),
            Value::String(s) => ValueV::String(s@),
            Value::Boolean(b) => ValueV::Boolean(*b),
            Value::Nil => ValueV::Nil,
        }
    }
}

/// Lexicographic order of texts, char by char (the order of their UTF-8
/// bytes).
pub open spec fn text_less(a: Seq<char>, b: Seq<char>) -> bool
    decreases a.len(),
{
    if a.len() == 0 {
        b.len() > 0
    } else if b.len() == 0 {
        false
    } else if a[0] != b[0] {
        (a[0] as u32) < (b[0] as u32)
    } else {
        text_less(a.drop_first(), b.drop_first())
    }
}

/// The result of an `ifeval` comparison: operands of the same type are
/// compared (booleans only for equality); `Nil` equals only `Nil`; mixed
/// types compare false.
pub open spec fn eval_spec(lhs: ValueV, op: Op, rhs: ValueV) -> bool {
    match (lhs, rhs) {
        (ValueV::String(a), ValueV::String(b)) => match op {
            Op::Eq => a == b,
            Op::NotEq => a != b,
            Op::Less => text_less(a, b),
            Op::LessEq => text_less(a, b) || a == b,
            Op::Greater => text_less(b, a),
            Op::GreaterEq => text_less(b, a) || a == b,
        },
        (ValueV::Int(a), ValueV::Int(b)) => match op {
            Op::Eq => a == b,
            Op::NotEq => a != b,
            Op::Less => a < b,
            Op::LessEq => a <= b,
            Op::Greater => a > b,
            Op::GreaterEq => a >= b,
        },
        (ValueV::Boolean(a), ValueV::Boolean(b)) => match op {
            Op::Eq => a == b,
            Op::NotEq => a != b,
            _ => false,
        },
        (ValueV::Nil, ValueV::Nil) => match op {
            Op::Eq => true,
            _ => false,
        },
        (ValueV::Nil, _) => match op {
            Op::NotEq => true,
            _ => false,
        },
        _ => false,
    }
}

/// Whether `a` comes before `b`.
pub fn less_text(a: &str, b: &str) -> (r: bool)
    ensures
        r == text_less(a@, b@),
{
    let ca = crate::text::chars_of(a);
    let cb = crate::text::chars_of(b);
    let mut i: usize = 0;
    assert(ca@.skip(0) =~= ca@);
    assert(cb@.skip(0) =~= cb@);
    while i < ca.len() && i < cb.len() && ca[i] == cb[i]
        invariant
            0 <= i <= ca@.len(),
            i <= cb@.len(),
            text_less(ca@, cb@) == text_less(ca@.skip(i as int), cb@.skip(i as int)),
        decreases ca@.len() - i,
    {
        assert(ca@.skip(i as int).drop_first() =~= ca@.skip(i + 1));
        assert(cb@.skip(i as int).drop_first() =~= cb@.skip(i + 1));
        i = i + 1;
    }
    if i == ca.len() {
        i < cb.len()
    } else if i == cb.len() {
        false
    } else {
        assert(ca@.skip(i as int)[0] == ca@[i as int]);
        assert(cb@.skip(i as int)[0] == cb@[i as int]);
        (ca[i] as u32) < (cb[i] as u32)
    }
}

/// Evaluates an `ifeval` comparison.
pub fn eval(lhs: &Value, op: Op, rhs: &Value) -> (r: bool)
    ensures
        r == eval_spec(lhs@, op, rhs@),
{
    match (lhs, rhs) {
        (Value::String(a), Value::String(b)) => {
            let eq = crate::text::str_eq(a.as_str(), b.as_str());
            match op {
                Op::Eq => eq,
                Op::NotEq => !eq,
                Op::Less => less_text(a.as_str(), b.as_str()),
                Op::LessEq => less_text(a.as_str(), b.as_str()) || eq,
                Op::Greater => less_text(b.as_str(), a.as_str()),
                Op::GreaterEq => less_text(b.as_str(), a.as_str()) || eq,
            }
        },
        (Value::Int(a), Value::Int(b)) => match op {
            Op::Eq => *a == *b,
            Op::NotEq => *a != *b,
            Op::Less => *a < *b,
            Op::LessEq => *a <= *b,
            Op::Greater => *a > *b,
            Op::GreaterEq => *a >= *b,
        },
        (Value::Boolean(a), Value::Boolean(b)) => match op {
            Op::Eq => *a == *b,
            Op::NotEq => *a != *b,
            _ => false,
        },
        (Value::Nil, Value::Nil) => match op {
            Op::Eq => true,
            _ => false,
        },
        (Value::Nil, _) => match op {
            Op::NotEq => true,
            _ => false,
        },
        _ => false,
    }
}

/// An `ifeval` operand once coerced: a value, or a decimal number, which is
/// read where floating point is available.
#[derive(Debug, Clone, PartialEq, Eq)]
pub enum Coerced {
    Value(Value),
    Float,
}

pub enum CoercedV {
    Value(ValueV),
    Float,
}

impl View for Coerced {
    type V = CoercedV;

    open spec fn view(&self) -> CoercedV {
        match self {
            Coerced::Value(v) => CoercedV::Value(v@),
            Coerced::Float => CoercedV::Float,
        }
    }
}

/// What `char::is_ascii_whitespace` accepts: space, tab, line feed, form
/// feed and carriage return.
pub open spec fn is_ascii_ws(c: char) -> bool {
    c == ' ' || c == '\t' || c == '\n' || c == '\x0C' || c == '\r'
}

/// Whether `e` opens and closes with the same quote, `'` or `"`.
pub open spec fn quoted(e: Seq<char>) -> bool {
    e.len() > 0 && ((e[0] == '\'' && e.last() == '\'') || (e[0] == '"' && e.last() == '"'))
}

/// The operand an `ifeval` expression stands for (once its attribute
/// references are replaced): `true` and `false` are booleans, the empty text
/// is nil, an integer is an integer, a decimal number (`float`: `e` reads as
/// one) is a float, a quoted text is the text inside the quotes, blank text
/// is a single space, and anything else is 0.
pub open spec fn coerced(e: Seq<char>, float: bool) -> CoercedV {
    if e == "true"@ {
        CoercedV::Value(ValueV::Boolean(true))
    } else if e == "false"@ {
        CoercedV::Value(ValueV::Boolean(false))
    } else if e.len() == 0 {
        CoercedV::Value(ValueV::Nil)
    } else if signed_decimal(e) is Some && isize::MIN <= signed_decimal(e)->0 <= isize::MAX {
        CoercedV::Value(ValueV::Int(signed_decimal(e)->0))
    } else if float {
        CoercedV::Float
    } else if quoted(e) {
        CoercedV::Value(ValueV::String(e.subrange(1, e.len() - 1)))
    } else if forall|i: int| 0 <= i < e.len() ==> is_ascii_ws(#[trigger] e[i]) {
        CoercedV::Value(ValueV::String(seq![' ']))
    } else {
        CoercedV::Value(ValueV::Int(0))
    }
}

/// Coerces an `ifeval` operand, given whether it reads as a decimal number
/// (`parses_as_float`). A lone quote mark, which opens and closes nothing,
/// is left out.
#[verifier::loop_isolation(false)]
pub fn coerce_eval_expr(expr: &str, parses_as_float: bool) -> (r: Coerced)
    requires
        expr@ != seq!['\''],
        expr@ != seq!['"'],
    ensures
        r@ == coerced(expr@, parses_as_float),
{
    proof {
        reveal_strlit("true");
        reveal_strlit("false");
        reveal_strlit(" ");
    }
    if crate::text::str_eq(expr, "true") {
        return Coerced::Value(Value::Boolean(true));
    }
    if crate::text::str_eq(expr, "false") {
        return Coerced::Value(Value::Boolean(false));
    }
    let cs = crate::text::chars_of(expr);
    if cs.len() == 0 {
        return Coerced::Value(Value::Nil);
    }
    if let Some(n) = crate::text::parse_isize(cs.as_slice()) {
        return Coerced::Value(Value::Int(n));
    }
    if parses_as_float {
        return Coerced::Float;
    }
    let last = cs[cs.len() - 1];
    if (cs[0] == '\'' && last == '\'') || (cs[0] == '"' && last == '"') {
        if cs.len() == 1 {
            assert(cs@ =~= seq![cs[0]]);
        }
        let inner = crate::text::string_of(&cs.as_slice()[1..cs.len() - 1]);
        return Coerced::Value(Value::String(inner));
    }
    assert(!quoted(expr@));
    let mut i: usize = 0;
    while i < cs.len()
        invariant
            0 <= i <= cs@.len(),
            forall|j: int| 0 <= j < i ==> is_ascii_ws(#[trigger] cs@[j]),
        decreases cs@.len() - i,
    {
        let c = cs[i];
        if !(c == ' ' || c == '\t' || c == '\n' || c == '\x0C' || c == '\r') {
            assert(!is_ascii_ws(expr@[i as int]));
            return Coerced::Value(Value::Int(0));
        }
        i = i + 1;
    }
    assert(forall|j: int| 0 <= j < expr@.len() ==> is_ascii_ws(#[trigger] expr@[j]));
    assert(" "@ =~= seq![' ']);
    Coerced::Value(Value::String(String::from_str(" ")))
}


/// What a valid `ifeval` directive pushes onto the conditional stack.
pub open spec fn ifeval_marker() -> Seq<char> {
    "[•ifeval•]"@
}

pub open spec fn ifeval_target_message() -> Seq<char> {
    "ifeval directive may not include a target"@
}

pub open spec fn invalid_ifeval_message() -> Seq<char> {
    "Invalid ifeval directive expression"@
}

impl crate::parser::Parser {
    /// A line that reads like an `ifeval` directive but whose expression is
    /// not one: reported, and the line stays.
    pub fn invalid_ifeval_directive(&mut self) -> (r: crate::parser::DirectiveAction)
        ensures
            r == crate::parser::DirectiveAction::Passthrough,
            crate::include_directive::strings_of(final(self).errors@) == crate::include_directive::strings_of(
                old(self).errors@,
            ).push(invalid_ifeval_message()),
            final(self).ifdef_stack == old(self).ifdef_stack,
            final(self).attrs == old(self).attrs,
    {
        crate::include_directive::push_error(&mut self.errors, String::from_str("Invalid ifeval directive expression"));
        crate::parser::DirectiveAction::Passthrough
    }

    /// An `ifeval` directive with its target (which must be empty), its
    /// operator (`None` when not one), and whether its comparison holds:
    /// a target is reported and the line stays; an unknown operator leaves
    /// the line; a comparison that holds opens a conditional section (the
    /// marker goes onto the stack) and reading goes on; one that fails
    /// skips to the matching `endif`.
    pub fn ifeval_decided(&mut self, target: &str, op: Option<Op>, holds: bool) -> (r: crate::parser::DirectiveAction)
        ensures
            final(self).attrs == old(self).attrs,
            target@.len() > 0 ==> r == crate::parser::DirectiveAction::Passthrough
                && crate::include_directive::strings_of(final(self).errors@) == crate::include_directive::strings_of(
                old(self).errors@,
            ).push(ifeval_target_message()) && final(self).ifdef_stack == old(self).ifdef_stack,
            target@.len() == 0 ==> final(self).errors == old(self).errors && match op {
                None => r == crate::parser::DirectiveAction::Passthrough && final(self).ifdef_stack
                    == old(self).ifdef_stack,
                Some(_) => if holds {
                    r == crate::parser::DirectiveAction::ReadNextLine && crate::include_directive::strings_of(
                        final(self).ifdef_stack@,
                    ) == crate::include_directive::strings_of(old(self).ifdef_stack@).push(ifeval_marker())
                } else {
                    r == crate::parser::DirectiveAction::SkipLinesUntilEndIf && final(self).ifdef_stack
                        == old(self).ifdef_stack
                },
            },
    {
        if target.unicode_len() > 0 {
            crate::include_directive::push_error(
                &mut self.errors,
                String::from_str("ifeval directive may not include a target"),
            );
            return crate::parser::DirectiveAction::Passthrough;
        }
        match op {
            None => crate::parser::DirectiveAction::Passthrough,
            Some(_) => if holds {
                crate::attr_entry::push_string(&mut self.ifdef_stack, String::from_str("[•ifeval•]"));
                crate::parser::DirectiveAction::ReadNextLine
            } else {
                crate::parser::DirectiveAction::SkipLinesUntilEndIf
            },
        }
    }

    /// An `ifeval` directive whose operands are not decimal numbers (see
    /// `ifeval_decided`): the operator is read and the comparison made with
    /// `eval`.
    pub fn try_process_ifeval(&mut self, target: &str, op: &str, lhs: &Value, rhs: &Value) -> (r:
        crate::parser::DirectiveAction)
        ensures
            final(self).attrs == old(self).attrs,
            target@.len() > 0 ==> r == crate::parser::DirectiveAction::Passthrough
                && crate::include_directive::strings_of(final(self).errors@) == crate::include_directive::strings_of(
                old(self).errors@,
            ).push(ifeval_target_message()) && final(self).ifdef_stack == old(self).ifdef_stack,
            target@.len() == 0 ==> final(self).errors == old(self).errors && match op_of(op@) {
                None => r == crate::parser::DirectiveAction::Passthrough && final(self).ifdef_stack
                    == old(self).ifdef_stack,
                Some(o) => if eval_spec(lhs@, o, rhs@) {
                    r == crate::parser::DirectiveAction::ReadNextLine && crate::include_directive::strings_of(
                        final(self).ifdef_stack@,
                    ) == crate::include_directive::strings_of(old(self).ifdef_stack@).push(ifeval_marker())
                } else {
                    r == crate::parser::DirectiveAction::SkipLinesUntilEndIf && final(self).ifdef_stack
                        == old(self).ifdef_stack
                },
            },
    {
        let o = Op::from_str(op);
        let holds = match o {
            Some(o) => eval(lhs, o, rhs),
            None => false,
        };
        self.ifeval_decided(target, o, holds)
    }
}

} // verus!
