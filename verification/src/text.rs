//! Character-level helpers shared by the parsing modules: conversions between
//! `str` and `Vec<char>`, equality, trimming, and decimal number parsing with
//! the semantics of std's `FromStr` for integers.
use vstd::prelude::*;
use vstd::string::StrSliceExecFns;

verus! {

/// Converts a string slice into the vector of its chars.
pub(crate) fn chars_of(s: &str) -> (r: Vec<char>)
    ensures
        r@ == s@,
{
    let n = s.unicode_len();
    let mut out: Vec<char> = Vec::new();
    let mut i: usize = 0;
    while i < n
        invariant
            n == s@.len(),
            0 <= i <= n,
            out@ == s@.take(i as int),
        decreases n - i,
    {
        out.push(s.get_char(i));
        assert(s@.take(i + 1) =~= s@.take(i as int).push(s@[i as int]));
        i = i + 1;
    }
    assert(s@.take(n as int) =~= s@);
    out
}

/// Builds a `String` from a slice of chars.
///
/// Trusted: calls std's `FromIterator<char> for String`, which std documents
/// as pushing each char in order.
#[verifier::external_body]
pub(crate) fn string_of(cs: &[char]) -> (r: String)
    ensures
        r@ == cs@,
{
    cs.iter().collect()
}

/// Equality of two char slices.
pub fn chars_eq(a: &[char], b: &[char]) -> (r: bool)
    ensures
        r == (a@ == b@),
{
    if a.len() != b.len() {
        return false;
    }
    let mut i: usize = 0;
    while i < a.len()
        invariant
            a@.len() == b@.len(),
            0 <= i <= a@.len(),
            forall|j: int| 0 <= j < i ==> a@[j] == b@[j],
        decreases a@.len() - i,
    {
        if a[i] != b[i] {
            return false;
        }
        i = i + 1;
    }
    assert(a@ =~= b@);
    true
}

/// Whether the byte range `s[start..end]` equals `lit`.
pub fn bytes_range_eq(s: &[u8], start: usize, end: usize, lit: &[u8]) -> (r: bool)
    requires
        start <= end <= s@.len(),
    ensures
        r == (s@.subrange(start as int, end as int) == lit@),
{
    if end - start != lit.len() {
        assert(s@.subrange(start as int, end as int).len() != lit@.len());
        return false;
    }
    let mut i: usize = 0;
    while i < lit.len()
        invariant
            start <= end <= s@.len(),
            end - start == lit@.len(),
            0 <= i <= lit@.len(),
            forall|j: int| 0 <= j < i ==> s@[start + j] == lit@[j],
        decreases lit@.len() - i,
    {
        if s[start + i] != lit[i] {
            assert(s@.subrange(start as int, end as int)[i as int] != lit@[i as int]);
            return false;
        }
        i = i + 1;
    }
    assert(s@.subrange(start as int, end as int) =~= lit@);
    true
}

/// Equality of two string slices, by their chars.
pub fn str_eq(a: &str, b: &str) -> (r: bool)
    ensures
        r == (a@ == b@),
{
    let ca = chars_of(a);
    let cb = chars_of(b);
    chars_eq(ca.as_slice(), cb.as_slice())
}

/// Whether the char range `s[start..end]` equals `lit`.
pub fn range_eq(s: &[char], start: usize, end: usize, lit: &[char]) -> (r: bool)
    requires
        start <= end <= s@.len(),
    ensures
        r == (s@.subrange(start as int, end as int) == lit@),
{
    if end - start != lit.len() {
        assert(s@.subrange(start as int, end as int).len() != lit@.len());
        return false;
    }
    let mut i: usize = 0;
    while i < lit.len()
        invariant
            start <= end <= s@.len(),
            end - start == lit@.len(),
            0 <= i <= lit@.len(),
            forall|j: int| 0 <= j < i ==> s@[start + j] == lit@[j],
        decreases lit@.len() - i,
    {
        if s[start + i] != lit[i] {
            assert(s@.subrange(start as int, end as int)[i as int] != lit@[i as int]);
            return false;
        }
        i = i + 1;
    }
    assert(s@.subrange(start as int, end as int) =~= lit@);
    true
}

pub open spec fn is_digit(c: char) -> bool {
    '0' <= c <= '9'
}

pub open spec fn digit_value(c: char) -> int {
    c as int - '0' as int
}

/// Whether every char is an ASCII digit.
pub open spec fn all_digits(s: Seq<char>) -> bool {
    forall|i: int| 0 <= i < s.len() ==> is_digit(#[trigger] s[i])
}

/// The value of a run of decimal digits.
pub open spec fn digits_value(s: Seq<char>) -> int
    decreases s.len(),
{
    if s.len() == 0 {
        0
    } else {
        digits_value(s.drop_last()) * 10 + digit_value(s.last())
    }
}

/// What std's unsigned `FromStr` accepts: an optional `+`, then one or more
/// ASCII digits. The value is unbounded here; callers bound it by the type.
pub open spec fn unsigned_decimal(s: Seq<char>) -> Option<int> {
    let body = if s.len() > 0 && s[0] == '+' { s.drop_first() } else { s };
    if body.len() > 0 && all_digits(body) {
        Some(digits_value(body))
    } else {
        None
    }
}

/// What std's signed `FromStr` accepts: an optional `+` or `-`, then one or
/// more ASCII digits.
pub open spec fn signed_decimal(s: Seq<char>) -> Option<int> {
    if s.len() > 0 && s[0] == '-' {
        let body = s.drop_first();
        if body.len() > 0 && all_digits(body) {
            Some(-digits_value(body))
        } else {
            None
        }
    } else {
        unsigned_decimal(s)
    }
}

pub proof fn lemma_digits_value_nonneg(s: Seq<char>)
    requires
        all_digits(s),
    ensures
        digits_value(s) >= 0,
    decreases s.len(),
{
    if s.len() > 0 {
        assert(all_digits(s.drop_last()));
        lemma_digits_value_nonneg(s.drop_last());
        assert(is_digit(s[s.len() - 1]));
    }
}

pub proof fn lemma_digits_value_prefix(s: Seq<char>, i: int)
    requires
        all_digits(s),
        0 <= i <= s.len(),
    ensures
        digits_value(s.take(i)) <= digits_value(s),
    decreases s.len() - i,
{
    if i < s.len() {
        lemma_digits_value_prefix(s, i + 1);
        assert(s.take(i + 1).drop_last() =~= s.take(i));
        assert(all_digits(s.take(i)));
        lemma_digits_value_nonneg(s.take(i));
        assert(is_digit(s.take(i + 1).last()));
    } else {
        assert(s.take(i) =~= s);
    }
}

/// Parses `s[start..end]` as a run of digits, `None` if a char is not a
/// digit, the run is empty, or the value exceeds `max`.
pub fn parse_digits(s: &[char], start: usize, end: usize, max: u64) -> (r: Option<u64>)
    requires
        start <= end <= s@.len(),
    ensures
        ({
            let body = s@.subrange(start as int, end as int);
            match r {
                Some(v) => body.len() > 0 && all_digits(body) && v == digits_value(body) && v <= max,
                None => !(body.len() > 0 && all_digits(body) && digits_value(body) <= max),
            }
        }),
{
    let ghost body = s@.subrange(start as int, end as int);
    if start == end {
        return None;
    }
    let mut v: u64 = 0;
    let mut i: usize = start;
    while i < end
        invariant
            start <= i <= end <= s@.len(),
            body == s@.subrange(start as int, end as int),
            all_digits(body.take(i - start)),
            v == digits_value(body.take(i - start)),
            v <= max,
        decreases end - i,
    {
        let c = s[i];
        if !('0' <= c && c <= '9') {
            proof {
                assert(!is_digit(body[i - start]));
            }
            return None;
        }
        let d = (c as u32 - '0' as u32) as u64;
        proof {
            assert(body.take(i + 1 - start).drop_last() =~= body.take(i - start));
            assert(body.take(i + 1 - start).last() == c);
        }
        let next = if v <= (u64::MAX - d) / 10 {
            v * 10 + d
        } else {
            proof {
                assert(all_digits(body.take(i + 1 - start)));
                if all_digits(body) {
                    lemma_digits_value_prefix(body, i + 1 - start);
                }
            }
            return None;
        };
        if next > max {
            proof {
                assert(all_digits(body.take(i + 1 - start)));
                if all_digits(body) {
                    lemma_digits_value_prefix(body, i + 1 - start);
                }
            }
            return None;
        }
        v = next;
        i = i + 1;
        proof {
            assert(all_digits(body.take(i - start)));
        }
    }
    assert(body.take(end - start) =~= body);
    Some(v)
}

/// std's unsigned `FromStr` on `s[start..end]`, bounded by `max`.
pub fn parse_unsigned(s: &[char], start: usize, end: usize, max: u64) -> (r: Option<u64>)
    requires
        start <= end <= s@.len(),
    ensures
        ({
            let u = unsigned_decimal(s@.subrange(start as int, end as int));
            match r {
                Some(v) => u == Some(v as int) && v <= max,
                None => !(u is Some && u->0 <= max),
            }
        }),
{
    let ghost t = s@.subrange(start as int, end as int);
    if start < end && s[start] == '+' {
        assert(t.drop_first() =~= s@.subrange(start + 1, end as int));
        parse_digits(s, start + 1, end, max)
    } else {
        parse_digits(s, start, end, max)
    }
}

/// std's `usize::from_str` on a whole char slice.
pub fn parse_usize(s: &[char]) -> (r: Option<usize>)
    ensures
        ({
            let u = unsigned_decimal(s@);
            match r {
                Some(v) => u == Some(v as int),
                None => !(u is Some && u->0 <= usize::MAX),
            }
        }),
{
    assert(s@.subrange(0, s@.len() as int) =~= s@);
    match parse_unsigned(s, 0, s.len(), usize::MAX as u64) {
        Some(v) => Some(v as usize),
        None => None,
    }
}

/// std's `u8::from_str`.
pub fn parse_u8(s: &[char]) -> (r: Option<u8>)
    ensures
        ({
            let u = unsigned_decimal(s@);
            match r {
                Some(v) => u == Some(v as int),
                None => !(u is Some && u->0 <= u8::MAX),
            }
        }),
{
    assert(s@.subrange(0, s@.len() as int) =~= s@);
    match parse_unsigned(s, 0, s.len(), u8::MAX as u64) {
        Some(v) => Some(v as u8),
        None => None,
    }
}

/// std's `u16::from_str`.
pub fn parse_u16(s: &[char]) -> (r: Option<u16>)
    ensures
        ({
            let u = unsigned_decimal(s@);
            match r {
                Some(v) => u == Some(v as int),
                None => !(u is Some && u->0 <= u16::MAX),
            }
        }),
{
    assert(s@.subrange(0, s@.len() as int) =~= s@);
    match parse_unsigned(s, 0, s.len(), u16::MAX as u64) {
        Some(v) => Some(v as u16),
        None => None,
    }
}

/// std's signed `FromStr` on a whole char slice, for the range
/// `-(max + 1) ..= max` (two's complement bounds).
pub fn parse_signed(s: &[char], max: u64) -> (r: Option<i128>)
    requires
        max < u64::MAX,
    ensures
        ({
            let u = signed_decimal(s@);
            match r {
                Some(v) => u == Some(v as int) && -(max + 1) <= v <= max,
                None => !(u is Some && -(max + 1) <= u->0 <= max),
            }
        }),
{
    if s.len() > 0 && s[0] == '-' {
        assert(s@.drop_first() =~= s@.subrange(1, s@.len() as int));
        match parse_digits(s, 1, s.len(), max + 1) {
            Some(v) => Some(-(v as i128)),
            None => None,
        }
    } else {
        assert(s@.subrange(0, s@.len() as int) =~= s@);
        match parse_unsigned(s, 0, s.len(), max) {
            Some(v) => Some(v as i128),
            None => None,
        }
    }
}

/// std's `i8::from_str`.
pub fn parse_i8(s: &[char]) -> (r: Option<i8>)
    ensures
        ({
            let u = signed_decimal(s@);
            match r {
                Some(v) => u == Some(v as int),
                None => !(u is Some && i8::MIN <= u->0 <= i8::MAX),
            }
        }),
{
    match parse_signed(s, 127) {
        Some(v) => Some(v as i8),
        None => None,
    }
}

/// std's `isize::from_str`.
pub fn parse_isize(s: &[char]) -> (r: Option<isize>)
    ensures
        ({
            let u = signed_decimal(s@);
            match r {
                Some(v) => u == Some(v as int),
                None => !(u is Some && isize::MIN <= u->0 <= isize::MAX),
            }
        }),
{
    match parse_signed(s, isize::MAX as u64) {
        Some(v) => Some(v as isize),
        None => None,
    }
}


/// Unicode `White_Space`, which std documents as what `char::is_whitespace`
/// and `str::trim` go by.
pub open spec fn is_ws(c: char) -> bool {
    ||| ('\u{9}' <= c <= '\u{d}')
    ||| c == ' '
    ||| c == '\u{85}'
    ||| c == '\u{a0}'
    ||| c == '\u{1680}'
    ||| ('\u{2000}' <= c <= '\u{200a}')
    ||| c == '\u{2028}'
    ||| c == '\u{2029}'
    ||| c == '\u{202f}'
    ||| c == '\u{205f}'
    ||| c == '\u{3000}'
}

/// `char::is_whitespace`.
pub fn is_whitespace(c: char) -> (r: bool)
    ensures
        r == is_ws(c),
{
    ('\u{9}' <= c && c <= '\u{d}') || c == ' ' || c == '\u{85}' || c == '\u{a0}' || c == '\u{1680}'
        || ('\u{2000}' <= c && c <= '\u{200a}') || c == '\u{2028}' || c == '\u{2029}' || c
        == '\u{202f}' || c == '\u{205f}' || c == '\u{3000}'
}

/// `s` without leading whitespace.
pub open spec fn trim_start(s: Seq<char>) -> Seq<char>
    decreases s.len(),
{
    if s.len() > 0 && is_ws(s[0]) {
        trim_start(s.drop_first())
    } else {
        s
    }
}

/// `s` without trailing whitespace.
pub open spec fn trim_end(s: Seq<char>) -> Seq<char>
    decreases s.len(),
{
    if s.len() > 0 && is_ws(s.last()) {
        trim_end(s.drop_last())
    } else {
        s
    }
}

/// `str::trim`: `s` without leading and trailing whitespace.
pub open spec fn trim(s: Seq<char>) -> Seq<char> {
    trim_end(trim_start(s))
}

/// Bounds of `s[start..end]` once trimmed.
pub fn trim_bounds(s: &[char], start: usize, end: usize) -> (r: (usize, usize))
    requires
        start <= end <= s@.len(),
    ensures
        start <= r.0 <= r.1 <= end,
        s@.subrange(r.0 as int, r.1 as int) == trim(s@.subrange(start as int, end as int)),
{
    let mut a = start;
    while a < end && is_whitespace(s[a])
        invariant
            start <= a <= end <= s@.len(),
            trim_start(s@.subrange(a as int, end as int)) == trim_start(s@.subrange(start as int, end as int)),
        decreases end - a,
    {
        assert(s@.subrange(a as int, end as int).drop_first() =~= s@.subrange(a + 1, end as int));
        a = a + 1;
    }
    let mut b = end;
    assert(s@.subrange(a as int, b as int) == trim_start(s@.subrange(start as int, end as int)));
    let ghost ts = s@.subrange(a as int, end as int);
    while b > a && is_whitespace(s[b - 1])
        invariant
            start <= a <= b <= end <= s@.len(),
            ts == s@.subrange(a as int, end as int),
            trim_end(s@.subrange(a as int, b as int)) == trim_end(ts),
        decreases b,
    {
        assert(s@.subrange(a as int, b as int).drop_last() =~= s@.subrange(a as int, b - 1));
        b = b - 1;
    }
    (a, b)
}

/// Splits `s` on every occurrence of `a` or `b`, as `str::split([a, b])`
/// does; always yields at least one part.
pub open spec fn split_chars(s: Seq<char>, a: char, b: char) -> Seq<Seq<char>>
    decreases s.len(),
{
    if s.len() == 0 {
        seq![Seq::<char>::empty()]
    } else {
        let prev = split_chars(s.drop_last(), a, b);
        if s.last() == a || s.last() == b {
            prev.push(Seq::<char>::empty())
        } else {
            prev.update(prev.len() - 1, prev.last().push(s.last()))
        }
    }
}

pub proof fn lemma_split_chars_nonempty(s: Seq<char>, a: char, b: char)
    ensures
        split_chars(s, a, b).len() >= 1,
        split_chars(s, a, b).len() <= s.len() + 1,
    decreases s.len(),
{
    if s.len() > 0 {
        lemma_split_chars_nonempty(s.drop_last(), a, b);
    } else {
        assert(split_chars(s, a, b).len() == 1);
    }
}

/// Bounds of the parts of `s` split on `a` or `b`.
pub fn split_bounds(s: &[char], a: char, b: char) -> (r: Vec<(usize, usize)>)
    ensures
        r@.len() == split_chars(s@, a, b).len(),
        forall|k: int|
            0 <= k < r@.len() ==> (#[trigger] r@[k]).0 <= r@[k].1 <= s@.len() && s@.subrange(
                r@[k].0 as int,
                r@[k].1 as int,
            ) == split_chars(s@, a, b)[k],
{
    let mut r: Vec<(usize, usize)> = Vec::new();
    let mut start: usize = 0;
    let mut i: usize = 0;
    while i < s.len()
        invariant
            0 <= start <= i <= s@.len(),
            split_chars(s@.take(i as int), a, b).len() == r@.len() + 1,
            forall|k: int|
                0 <= k < r@.len() ==> (#[trigger] r@[k]).0 <= r@[k].1 < i && s@.subrange(
                    r@[k].0 as int,
                    r@[k].1 as int,
                ) == split_chars(s@.take(i as int), a, b)[k],
            s@.subrange(start as int, i as int) == split_chars(s@.take(i as int), a, b)[r@.len() as int],
        decreases s@.len() - i,
    {
        assert(s@.take(i + 1).drop_last() =~= s@.take(i as int));
        assert(s@.take(i + 1).last() == s@[i as int]);
        if s[i] == a || s[i] == b {
            r.push((start, i));
            start = i + 1;
            assert(s@.subrange(start as int, (i + 1) as int) =~= Seq::<char>::empty());
        } else {
            assert(s@.subrange(start as int, (i + 1) as int) =~= s@.subrange(start as int, i as int).push(
                s@[i as int],
            ));
        }
        i = i + 1;
    }
    r.push((start, i));
    assert(s@.take(s@.len() as int) =~= s@);
    r
}

/// The ASCII digit of a value below 10.
pub open spec fn digit_char(d: int) -> char {
    if d == 0 {
        '0'
    } else if d == 1 {
        '1'
    } else if d == 2 {
        '2'
    } else if d == 3 {
        '3'
    } else if d == 4 {
        '4'
    } else if d == 5 {
        '5'
    } else if d == 6 {
        '6'
    } else if d == 7 {
        '7'
    } else if d == 8 {
        '8'
    } else {
        '9'
    }
}

/// The decimal digits of `n`, as `to_string` writes them.
pub open spec fn decimal(n: nat) -> Seq<char>
    decreases n,
{
    if n < 10 {
        seq![digit_char(n as int)]
    } else {
        decimal(n / 10).push(digit_char((n % 10) as int))
    }
}

/// Reading the digits back gives the number.
pub proof fn lemma_decimal_value(n: nat)
    ensures
        digits_value(decimal(n)) == n,
        decimal(n).len() >= 1,
    decreases n,
{
    if n < 10 {
        let s = decimal(n);
        assert(s.drop_last() =~= Seq::<char>::empty());
        assert(digits_value(s.drop_last()) == 0);
        assert(s.last() == digit_char(n as int));
        assert(digit_value(digit_char(n as int)) == n);
        assert(digits_value(s) == digits_value(s.drop_last()) * 10 + digit_value(s.last()));
    } else {
        lemma_decimal_value(n / 10);
        assert(decimal(n).drop_last() =~= decimal(n / 10));
        let d = (n % 10) as int;
        assert(0 <= d < 10);
        assert(digit_value(digit_char(d)) == d);
        assert((n / 10) * 10 + n % 10 == n) by (nonlinear_arith);
        let s = decimal(n);
        assert(s.last() == digit_char(d));
        assert(digits_value(s) == digits_value(s.drop_last()) * 10 + digit_value(s.last()));
    }
}

/// Distinct numbers have distinct decimal forms.
pub proof fn lemma_decimal_injective(a: nat, b: nat)
    requires
        decimal(a) == decimal(b),
    ensures
        a == b,
{
    lemma_decimal_value(a);
    lemma_decimal_value(b);
}

/// The decimal form of `n`.
pub fn decimal_string(n: u32) -> (r: Vec<char>)
    ensures
        r@ == decimal(n as nat),
    decreases n,
{
    if n < 10 {
        let c = char_of_digit(n);
        let mut v: Vec<char> = Vec::new();
        v.push(c);
        assert(v@ =~= seq![digit_char(n as int)]);
        v
    } else {
        let mut v = decimal_string(n / 10);
        v.push(char_of_digit(n % 10));
        v
    }
}

/// The decimal form of `n`.
pub fn decimal_string_u64(n: u64) -> (r: Vec<char>)
    ensures
        r@ == decimal(n as nat),
    decreases n,
{
    if n < 10 {
        let c = char_of_digit(n as u32);
        let mut v: Vec<char> = Vec::new();
        v.push(c);
        assert(v@ =~= seq![digit_char(n as int)]);
        v
    } else {
        let mut v = decimal_string_u64(n / 10);
        v.push(char_of_digit((n % 10) as u32));
        v
    }
}

fn char_of_digit(d: u32) -> (c: char)
    requires
        d < 10,
    ensures
        c == digit_char(d as int),
{
    if d == 0 { '0' } else if d == 1 { '1' } else if d == 2 { '2' } else if d == 3 { '3' } else if d == 4 { '4' }
    else if d == 5 { '5' } else if d == 6 { '6' } else if d == 7 { '7' } else if d == 8 { '8' } else { '9' }
}

/// An optional string, as the specifications see it.
pub open spec fn opt_string_view(o: Option<String>) -> Option<Seq<char>> {
    match o {
        Some(s) => Some(s@),
        None => None,
    }
}

/// The length of `s` once trailing whitespace is dropped.
pub fn trim_end_len(s: &[char]) -> (n: usize)
    ensures
        n <= s@.len(),
        s@.subrange(0, n as int) == trim_end(s@),
{
    let mut b = s.len();
    assert(s@.subrange(0, b as int) =~= s@);
    while b > 0 && is_whitespace(s[b - 1])
        invariant
            b <= s@.len(),
            trim_end(s@.subrange(0, b as int)) == trim_end(s@),
        decreases b,
    {
        assert(s@.subrange(0, b as int).drop_last() =~= s@.subrange(0, b - 1));
        b = b - 1;
    }
    b
}

} // verus!
