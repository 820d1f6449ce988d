//! Creation code of the interpreter contract, given as hexadecimal text in a
//! build artifact.
use vstd::prelude::*;

verus! {

/// The error that hex reports for text that is not hexadecimal; opaque to proofs.
#[verifier::external_type_specification]
#[verifier::external_body]
pub struct ExFromHexError(hex::FromHexError);

/// An ASCII hexadecimal digit, in either case.
pub open spec fn is_hex_digit(c: char) -> bool {
    ('0' <= c <= '9') || ('a' <= c <= 'f') || ('A' <= c <= 'F')
}

/// The value of a hexadecimal digit.
pub open spec fn hex_value(c: char) -> int {
    if '0' <= c <= '9' {
        c as int - '0' as int
    } else if 'a' <= c <= 'f' {
        c as int - 'a' as int + 10
    } else {
        c as int - 'A' as int + 10
    }
}

/// Text that decodes to bytes: an even number of hexadecimal digits.
pub open spec fn hex_text(s: Seq<char>) -> bool {
    s.len() % 2 == 0 && forall|i: int| 0 <= i < s.len() ==> is_hex_digit(#[trigger] s[i])
}

/// The bytes that hexadecimal text encodes, two digits per byte, high digit first.
pub open spec fn hex_bytes(s: Seq<char>) -> Seq<u8> {
    Seq::new((s.len() / 2) as nat, |i: int| (hex_value(s[2 * i]) * 16 + hex_value(s[2 * i + 1])) as u8)
}

/// Relies on `hex::decode`: text of an even number of hexadecimal digits (either
/// case) decodes to one byte per pair; any other text is an error.
#[verifier::external_body]
fn decode_hex(s: &str) -> (r: Result<Vec<u8>, hex::FromHexError>)
    ensures
        r is Ok <==> hex_text(s@),
        r matches Ok(b) ==> b@ == hex_bytes(s@),
{
    hex::decode(s)
}

/// `s` with every leading `0x` removed.
pub open spec fn without_0x(s: Seq<char>) -> Seq<char>
    decreases s.len(),
{
    if s.len() >= 2 && s[0] == '0' && s[1] == 'x' {
        without_0x(s.subrange(2, s.len() as int))
    } else {
        s
    }
}

/// Why an artifact's creation code could not be read.
#[derive(Debug, Clone, Copy, PartialEq, Eq, Structural)]
pub enum CreationCodeError {
    /// The code, once its `0x` prefixes are removed, is not hexadecimal.
    InvalidHex,
}

/// The creation code that the artifact's hexadecimal `object` text holds,
/// leading `0x` prefixes removed.
pub fn creation_code_from_hex(object: &str) -> (r: Result<Vec<u8>, CreationCodeError>)
    ensures
        hex_text(without_0x(object@)) ==> (r matches Ok(b) && b@ == hex_bytes(without_0x(object@))),
        !hex_text(without_0x(object@)) ==> r == Err::<Vec<u8>, CreationCodeError>(CreationCodeError::InvalidHex),
{
    let n = object.unicode_len();
    let mut k: usize = 0;
    assert(object@.subrange(0, n as int) =~= object@);
    while n - k >= 2 && object.get_char(k) == '0' && object.get_char(k + 1) == 'x'
        invariant
            n == object@.len(),
            k <= n,
            without_0x(object@) == without_0x(object@.subrange(k as int, n as int)),
        decreases n - k,
    {
        proof {
            let rest = object@.subrange(k as int, n as int);
            assert(rest.subrange(2, rest.len() as int) =~= object@.subrange(k + 2, n as int));
        }
        k = k + 2;
    }
    let stripped = object.substring_char(k, n);
    proof {
        let rest = object@.subrange(k as int, n as int);
        if rest.len() >= 2 {
            assert(rest[0] == object@[k as int]);
            assert(rest[1] == object@[k + 1]);
        }
    }
    match decode_hex(stripped) {
        Ok(bytes) => Ok(bytes),
        Err(_) => Err(CreationCodeError::InvalidHex),
    }
}

} // verus!
