//! Encoding normalization of included files: a UTF-8 byte-order mark is
//! stripped, UTF-16 (by BOM or by the `encoding` attribute) is decoded to
//! UTF-8, and anything else must already be valid UTF-8.
use vstd::prelude::*;

verus! {

/// The scalar values that `units` decode to as UTF-16, or `None` when a
/// surrogate is unpaired (std's `decode_utf16`, which bumpalo's
/// `String::from_utf16_in` runs).
pub open spec fn utf16_scalars(u: Seq<u16>) -> Option<Seq<u32>>
    decreases u.len(),
{
    if u.len() == 0 {
        Some(Seq::empty())
    } else if u[0] < 0xD800 || u[0] > 0xDFFF {
        match utf16_scalars(u.drop_first()) {
            Some(rest) => Some(seq![u[0] as u32] + rest),
            None => None,
        }
    } else if u[0] <= 0xDBFF && u.len() >= 2 && 0xDC00 <= u[1] <= 0xDFFF {
        match utf16_scalars(u.skip(2)) {
            Some(rest) => Some(
                seq![(0x10000 + (u[0] - 0xD800) * 0x400 + (u[1] - 0xDC00)) as u32] + rest,
            ),
            None => None,
        }
    } else {
        None
    }
}

/// The UTF-8 encoding of a sequence of scalar values.
pub open spec fn utf8_of_scalars(s: Seq<u32>) -> Seq<u8>
    decreases s.len(),
{
    if s.len() == 0 {
        Seq::empty()
    } else {
        vstd::utf8::encode_scalar(s[0]) + utf8_of_scalars(s.drop_first())
    }
}

/// The UTF-8 bytes UTF-16 `units` decode to, if they are valid.
pub open spec fn utf16_to_utf8(u: Seq<u16>) -> Option<Seq<u8>> {
    match utf16_scalars(u) {
        Some(s) => Some(utf8_of_scalars(s)),
        None => None,
    }
}

/// Decodes UTF-16 code units into UTF-8 bytes.
///
/// Trusted: calls bumpalo's `collections::String::from_utf16_in` (which runs
/// std's `decode_utf16`, failing on the first unpaired surrogate) and copies
/// the resulting string's UTF-8 bytes out; the contract states that decoding.
#[verifier::external_body]
fn decode_utf16_in_bump(units: &[u16]) -> (r: Option<Vec<u8>>)
    ensures
        match utf16_to_utf8(units@) {
            Some(b) => r matches Some(v) && v@ == b,
            None => r is None,
        },
{
    let bump = bumpalo::Bump::new();
    let decoded = match bumpalo::collections::String::from_utf16_in(units, &bump) {
        Ok(s) => Some(s.as_bytes().to_vec()),
        Err(_) => None,
    };
    decoded
}

/// The string `bytes` spell in UTF-8, `None` when they are not valid UTF-8.
///
/// Trusted: calls std's `str::from_utf8`, documented to fail exactly when the
/// bytes are not valid UTF-8, and copies the string out.
#[verifier::external_body]
pub(crate) fn utf8_string(bytes: &[u8]) -> (r: Option<String>)
    ensures
        r is Some <==> vstd::utf8::valid_utf8(bytes@),
        r matches Some(s) ==> s@ == vstd::utf8::decode_utf8(bytes@),
{
    match std::str::from_utf8(bytes) {
        Ok(s) => Some(s.to_string()),
        Err(_) => None,
    }
}

/// Whether `bytes` are valid UTF-8.
pub fn is_valid_utf8(bytes: &[u8]) -> (r: bool)
    ensures
        r == vstd::utf8::valid_utf8(bytes@),
{
    utf8_string(bytes).is_some()
}

/// Replaces `dest` with the UTF-8 form of `utf16`; `false` (and `dest` left
/// alone) when the units are not valid UTF-16.
pub fn from_utf16_in(utf16: &[u16], dest: &mut Vec<u8>) -> (r: bool)
    ensures
        match utf16_to_utf8(utf16@) {
            Some(b) => r && final(dest)@ == b,
            None => !r && final(dest)@ == old(dest)@,
        },
{
    match decode_utf16_in_bump(utf16) {
        Some(v) => {
            *dest = v;
            true
        },
        None => false,
    }
}

/// `b` with a zero byte added when its length is odd.
pub open spec fn padded(b: Seq<u8>) -> Seq<u8> {
    if b.len() % 2 == 1 {
        b.push(0u8)
    } else {
        b
    }
}

/// Byte pairs read as little-endian (`le`) or big-endian 16-bit units.
pub open spec fn units_of(b: Seq<u8>, le: bool) -> Seq<u16> {
    Seq::new(
        b.len() / 2,
        |i: int|
            if le {
                (b[2 * i] + b[2 * i + 1] * 256) as u16
            } else {
                (b[2 * i] * 256 + b[2 * i + 1]) as u16
            },
    )
}

fn to_units(b: &Vec<u8>, le: bool) -> (r: Vec<u16>)
    ensures
        r@ == units_of(b@, le),
{
    let mut r: Vec<u16> = Vec::new();
    let blen = b.len();
    let n = blen / 2;
    let mut i: usize = 0;
    assert(n * 2 <= b@.len()) by (nonlinear_arith)
        requires
            n == b@.len() / 2,
    ;
    while i < n
        invariant
            n == b@.len() / 2,
            blen == b@.len(),
            n * 2 <= blen,
            0 <= i <= n,
            r@.len() == i,
            forall|j: int| 0 <= j < i ==> #[trigger] r@[j] == units_of(b@, le)[j],
        decreases n - i,
    {
        let lo = b[2 * i];
        let hi = b[2 * i + 1];
        let u: u16 = if le {
            (lo as u16) + (hi as u16) * 256
        } else {
            (lo as u16) * 256 + (hi as u16)
        };
        r.push(u);
        i = i + 1;
    }
    assert(r@ =~= units_of(b@, le));
    r
}

/// Whether the attribute names UTF-16.
pub open spec fn names_utf16(enc: Seq<char>) -> bool {
    enc == "utf-16"@ || enc == "utf16"@ || enc == "UTF-16"@ || enc == "UTF16"@
}

/// Outcome of converting UTF-16 bytes `b`: the final buffer, and whether it
/// succeeded. On failure the buffer holds the padded input.
pub open spec fn utf16_converted(b: Seq<u8>, le: bool) -> (Seq<u8>, bool) {
    match utf16_to_utf8(units_of(padded(b), le)) {
        Some(out) => (out, true),
        None => (padded(b), false),
    }
}

/// Converts little-endian UTF-16 bytes to UTF-8 in place.
pub fn convert_utf16_le(bytes: &mut Vec<u8>) -> (r: Result<(), &'static str>)
    ensures
        final(bytes)@ == utf16_converted(old(bytes)@, true).0,
        r is Ok <==> utf16_converted(old(bytes)@, true).1,
        r matches Err(e) ==> e@ == "Invalid UTF-16 (LE)"@,
{
    convert_utf16(bytes, true)
}

fn convert_utf16(bytes: &mut Vec<u8>, le: bool) -> (r: Result<(), &'static str>)
    ensures
        final(bytes)@ == utf16_converted(old(bytes)@, le).0,
        r is Ok <==> utf16_converted(old(bytes)@, le).1,
        r matches Err(e) ==> e@ == (if le { "Invalid UTF-16 (LE)"@ } else { "Invalid UTF-16 (BE)"@ }),
{
    if bytes.len() % 2 == 1 {
        bytes.push(0u8);
    }
    let units = to_units(bytes, le);
    if from_utf16_in(units.as_slice(), bytes) {
        Ok(())
    } else if le {
        Err("Invalid UTF-16 (LE)")
    } else {
        Err("Invalid UTF-16 (BE)")
    }
}

/// Whether the attribute value names UTF-16.
pub fn is_utf16_name(enc: &str) -> (r: bool)
    ensures
        r == names_utf16(enc@),
{
    crate::text::str_eq(enc, "utf-16") || crate::text::str_eq(enc, "utf16") || crate::text::str_eq(
        enc,
        "UTF-16",
    ) || crate::text::str_eq(enc, "UTF16")
}

pub open spec fn starts_with_bytes(b: Seq<u8>, p: Seq<u8>) -> bool {
    b.len() >= p.len() && b.take(p.len() as int) == p
}

/// The buffer after encoding normalization, and the error if any.
pub open spec fn encoding_normalized(enc: Option<Seq<char>>, b: Seq<u8>) -> (Seq<u8>, Option<Seq<char>>) {
    if enc matches Some(e) && names_utf16(e) {
        let c = utf16_converted(b, true);
        (c.0, if c.1 { None } else { Some("Invalid UTF-16 (LE)"@) })
    } else if starts_with_bytes(b, seq![0xEFu8, 0xBBu8, 0xBFu8]) {
        (b.skip(3), None)
    } else if starts_with_bytes(b, seq![0xFFu8, 0xFEu8]) {
        let c = utf16_converted(b.skip(2), true);
        (c.0, if c.1 { None } else { Some("Invalid UTF-16 (LE)"@) })
    } else if starts_with_bytes(b, seq![0xFEu8, 0xFFu8]) {
        let c = utf16_converted(b.skip(2), false);
        (c.0, if c.1 { None } else { Some("Invalid UTF-16 (BE)"@) })
    } else if vstd::utf8::valid_utf8(b) {
        (b, None)
    } else {
        (b, Some("Invalid UTF-8"@))
    }
}

fn drop_front(bytes: &mut Vec<u8>, n: usize)
    requires
        n <= old(bytes)@.len(),
    ensures
        final(bytes)@ == old(bytes)@.skip(n as int),
{
    let mut out: Vec<u8> = Vec::new();
    crate::bytes::extend_range(&mut out, bytes.as_slice(), n, bytes.len());
    assert(out@ =~= old(bytes)@.skip(n as int));
    *bytes = out;
}

/// Normalizes the encoding of an included file's bytes to UTF-8.
pub fn normalize_encoding(encoding: Option<&str>, bytes: &mut Vec<u8>) -> (r: Result<(), &'static str>)
    ensures
        ({
            let enc = match encoding {
                Some(e) => Some(e@),
                None => None,
            };
            let out = encoding_normalized(enc, old(bytes)@);
            &&& final(bytes)@ == out.0
            &&& match out.1 {
                None => r is Ok,
                Some(msg) => r matches Err(e) && e@ == msg,
            }
        }),
{
    if let Some(e) = encoding {
        if is_utf16_name(e) {
            return convert_utf16_le(bytes);
        }
    }
    let ghost b = bytes@;
    if bytes.len() >= 3 && bytes[0] == 0xEFu8 && bytes[1] == 0xBBu8 && bytes[2] == 0xBFu8 {
        assert(b.take(3) =~= seq![0xEFu8, 0xBBu8, 0xBFu8]);
        drop_front(bytes, 3);
        return Ok(());
    }
    proof {
        if b.len() >= 3 {
            if starts_with_bytes(b, seq![0xEFu8, 0xBBu8, 0xBFu8]) {
                assert(b.take(3)[0] == b[0] && b.take(3)[1] == b[1] && b.take(3)[2] == b[2]);
            }
        }
    }
    if bytes.len() >= 2 && bytes[0] == 0xFFu8 && bytes[1] == 0xFEu8 {
        assert(b.take(2) =~= seq![0xFFu8, 0xFEu8]);
        drop_front(bytes, 2);
        return convert_utf16_le(bytes);
    }
    proof {
        if b.len() >= 2 && starts_with_bytes(b, seq![0xFFu8, 0xFEu8]) {
            assert(b.take(2)[0] == b[0] && b.take(2)[1] == b[1]);
        }
    }
    if bytes.len() >= 2 && bytes[0] == 0xFEu8 && bytes[1] == 0xFFu8 {
        assert(b.take(2) =~= seq![0xFEu8, 0xFFu8]);
        drop_front(bytes, 2);
        return convert_utf16(bytes, false);
    }
    proof {
        if b.len() >= 2 && starts_with_bytes(b, seq![0xFEu8, 0xFFu8]) {
            assert(b.take(2)[0] == b[0] && b.take(2)[1] == b[1]);
        }
    }
    if !is_valid_utf8(bytes.as_slice()) {
        return Err("Invalid UTF-8");
    }
    Ok(())
}

} // verus!
