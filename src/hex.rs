//! Lower-case hexadecimal text for byte strings, two digits per byte.

use vstd::prelude::*;
use vstd::string::StringSliceAdditionalSpecFns;

verus! {

/// Why a text is not the hexadecimal form of any bytes.
#[derive(Debug, Clone, Copy, PartialEq, Eq, Structural)]
pub enum HexError {
    OddLength,
    InvalidDigit,
}

/// The ASCII code of the digit for `d < 16`.
pub open spec fn digit_code(d: u8) -> u8 {
    if d < 10 { (d + 48) as u8 } else { (d + 87) as u8 }
}

pub open spec fn is_hex_code(c: u8) -> bool {
    (48 <= c <= 57) || (97 <= c <= 102) || (65 <= c <= 70)
}

/// The value of a hex digit code.
pub open spec fn code_value(c: u8) -> u8 {
    if 48 <= c <= 57 {
        (c - 48) as u8
    } else if 97 <= c <= 102 {
        (c - 87) as u8
    } else {
        (c - 55) as u8
    }
}

/// The hex text of `b`, as ASCII codes: high digit, then low digit, for each byte.
pub open spec fn encode_spec(b: Seq<u8>) -> Seq<u8> {
    Seq::new(2 * b.len(), |i: int| if i % 2 == 0 { digit_code(b[i / 2] / 16) } else { digit_code(b[i / 2] % 16) })
}

/// The bytes written by hex text `s`, or `None` where `s` has odd length or a non-hex code.
pub open spec fn decode_spec(s: Seq<u8>) -> Option<Seq<u8>> {
    if s.len() % 2 != 0 || exists|i: int| 0 <= i < s.len() && !is_hex_code(#[trigger] s[i]) {
        None
    } else {
        Some(Seq::new(s.len() / 2, |i: int| (code_value(s[2 * i]) * 16 + code_value(s[2 * i + 1])) as u8))
    }
}

/// The characters of a sequence of ASCII codes.
pub open spec fn ascii_chars(s: Seq<u8>) -> Seq<char> {
    Seq::new(s.len(), |i: int| s[i] as char)
}

/// Relies on `String::from_utf8`: ASCII codes are valid UTF-8, one character each.
#[verifier::external_body]
fn ascii_text(v: Vec<u8>) -> (r: String)
    requires
        forall|i: int| 0 <= i < v@.len() ==> v@[i] < 128,
    ensures
        r@ == ascii_chars(v@),
{
    String::from_utf8(v).unwrap()
}

fn digit(d: u8) -> (c: u8)
    requires
        d < 16,
    ensures
        c == digit_code(d),
{
    if d < 10 { d + 48 } else { d + 87 }
}

/// The lower-case hex text of `bytes`.
pub fn encode_hex(bytes: &[u8]) -> (r: String)
    ensures
        r@ == ascii_chars(encode_spec(bytes@)),
{
    let mut out: Vec<u8> = Vec::new();
    let mut i: usize = 0;
    while i < bytes.len()
        invariant
            i <= bytes@.len(),
            out@ =~= encode_spec(bytes@.take(i as int)),
            forall|k: int| 0 <= k < out@.len() ==> out@[k] < 128,
        decreases bytes@.len() - i,
    {
        let b = bytes[i];
        out.push(digit(b / 16));
        out.push(digit(b % 16));
        i = i + 1;
        assert(out@ =~= encode_spec(bytes@.take(i as int)));
    }
    assert(bytes@.take(i as int) =~= bytes@);
    ascii_text(out)
}

fn code_val(c: u8) -> (r: Option<u8>)
    ensures
        r == (if is_hex_code(c) { Some(code_value(c)) } else { None::<u8> }),
{
    if 48 <= c && c <= 57 {
        Some(c - 48)
    } else if 97 <= c && c <= 102 {
        Some(c - 87)
    } else if 65 <= c && c <= 70 {
        Some(c - 55)
    } else {
        None
    }
}

/// The bytes written by hex text `s` (either case); an odd length or any other
/// character is an error.
pub fn decode_hex(s: &str) -> (r: Result<Vec<u8>, HexError>)
    ensures
        s.spec_bytes().len() % 2 != 0 ==> r == Err::<Vec<u8>, HexError>(HexError::OddLength),
        s.spec_bytes().len() % 2 == 0 ==> match decode_spec(s.spec_bytes()) {
            Some(b) => r is Ok && r->Ok_0@ == b,
            None => r == Err::<Vec<u8>, HexError>(HexError::InvalidDigit),
        },
{
    let t = s.as_bytes();
    if t.len() % 2 != 0 {
        return Err(HexError::OddLength);
    }
    let mut out: Vec<u8> = Vec::new();
    let mut i: usize = 0;
    while i < t.len() / 2
        invariant
            t@ == s.spec_bytes(),
            t@.len() % 2 == 0,
            i <= t@.len() / 2,
            out@.len() == i,
            forall|k: int| 0 <= k < 2 * i ==> is_hex_code(#[trigger] t@[k]),
            forall|k: int| 0 <= k < i ==> #[trigger] out@[k] == (code_value(t@[2 * k]) * 16 + code_value(t@[2 * k + 1])) as u8,
        decreases t@.len() / 2 - i,
    {
        let hi = code_val(t[2 * i]);
        let lo = code_val(t[2 * i + 1]);
        match (hi, lo) {
            (Some(h), Some(l)) => {
                out.push(h * 16 + l);
            },
            _ => {
                proof {
                    let k = if hi is None { 2 * i as int } else { 2 * i + 1 };
                    assert(!is_hex_code(t@[k]));
                }
                return Err(HexError::InvalidDigit);
            },
        }
        i = i + 1;
    }
    assert(forall|k: int| 0 <= k < t@.len() ==> is_hex_code(#[trigger] t@[k]));
    assert(out@ =~= decode_spec(t@)->Some_0);
    Ok(out)
}

/// Decoding the hex text of any bytes gives those bytes back; text of odd
/// length decodes to nothing.
pub proof fn lemma_hex_round_trip(b: Seq<u8>, s: Seq<u8>)
    ensures
        decode_spec(encode_spec(b)) == Some(b),
        s.len() % 2 != 0 ==> decode_spec(s) is None,
{
    let e = encode_spec(b);
    assert forall|i: int| 0 <= i < e.len() implies is_hex_code(#[trigger] e[i]) by {
        let d = if i % 2 == 0 { b[i / 2] / 16 } else { b[i / 2] % 16 };
        assert(d < 16);
    }
    assert forall|i: int| 0 <= i < b.len() implies (code_value(e[2 * i]) * 16 + code_value(e[2 * i + 1])) as u8 == b[i] by {
        assert((2 * i) / 2 == i && (2 * i + 1) / 2 == i);
        assert((2 * i) % 2 == 0 && (2 * i + 1) % 2 == 1);
        assert(code_value(digit_code(b[i] / 16)) == b[i] / 16);
        assert(code_value(digit_code(b[i] % 16)) == b[i] % 16);
    }
    assert(decode_spec(e)->Some_0 =~= b);
}

/// The text that `encode_hex` returns is plain ASCII, so its bytes are the codes
/// of `encode_spec`: what `decode_hex` reads back.
pub proof fn lemma_encoded_text_bytes(b: Seq<u8>, t: &str)
    requires
        t@ == ascii_chars(encode_spec(b)),
    ensures
        t.spec_bytes() == encode_spec(b),
{
    let e = encode_spec(b);
    assert forall|i: int| 0 <= i < e.len() implies e[i] < 128 by {
        let d = if i % 2 == 0 { b[i / 2] / 16 } else { b[i / 2] % 16 };
        assert(d < 16);
    }
    assert(vstd::utf8::is_ascii_chars(t@)) by {
        assert forall|i: int| 0 <= i < t@.len() implies '\0' <= #[trigger] t@[i] <= '\u{7f}' by {
            assert(e[i] < 128);
        }
    }
    vstd::string::is_ascii_spec_bytes(t);
    assert(t.spec_bytes() =~= e);
}

} // verus!
