//! Byte-string helpers: widening to the 64-byte form the field reduction
//! takes, hex parsing of field-element constants, and base58 decoding of
//! configured keys.

use vstd::prelude::*;
use vstd::string::StringSliceAdditionalSpecFns;

use crate::scalar::{fr_modulus, le_bytes_value, lemma_le_bytes_value_zero_pad, wide_to_scalar, Scalar};
use crate::EigenError;

verus! {

/// Write an array of 32 elements into an array of 64 elements.
pub fn to_wide(p: [u8; 32]) -> (r: [u8; 64])
    ensures
        r@ == p@ + Seq::<u8>::new(32, |i: int| 0u8),
{
    let mut res = [0u8; 64];
    let mut i: usize = 0;
    #[verifier::loop_isolation(false)]
    while i < 32
        invariant
            i <= 32,
            forall|j: int| 0 <= j < i ==> res@[j] == p@[j],
            forall|j: int| i <= j < 64 ==> res@[j] == 0,
        decreases 32 - i,
    {
        res[i] = p[i];
        i = i + 1;
    }
    proof {
        assert(res@ =~= p@ + Seq::<u8>::new(32, |j: int| 0u8));
    }
    res
}

/// Write a byte string of at most 64 bytes into an array of 64 elements.
pub fn to_wide_bytes(p: &[u8]) -> (r: [u8; 64])
    requires
        p@.len() <= 64,
    ensures
        r@ == p@ + Seq::<u8>::new((64 - p@.len()) as nat, |i: int| 0u8),
{
    let mut res = [0u8; 64];
    let n = p.len();
    let mut i: usize = 0;
    #[verifier::loop_isolation(false)]
    while i < n
        invariant
            i <= n,
            forall|j: int| 0 <= j < i ==> res@[j] == p@[j],
            forall|j: int| i <= j < 64 ==> res@[j] == 0,
        decreases n - i,
    {
        res[i] = p[i];
        i = i + 1;
    }
    proof {
        assert(res@ =~= p@ + Seq::<u8>::new((64 - p@.len()) as nat, |j: int| 0u8));
    }
    res
}

/// Whether a byte is an ASCII hexadecimal digit.
pub open spec fn is_hex_digit(b: u8) -> bool {
    (0x30 <= b <= 0x39) || (0x41 <= b <= 0x46) || (0x61 <= b <= 0x66)
}

/// The value of an ASCII hexadecimal digit.
pub open spec fn hex_nibble(b: u8) -> u8 {
    if 0x30 <= b <= 0x39 {
        (b - 0x30) as u8
    } else if 0x41 <= b <= 0x46 {
        (b - 0x41 + 10) as u8
    } else if 0x61 <= b <= 0x66 {
        (b - 0x61 + 10) as u8
    } else {
        0
    }
}

/// Whether a byte string is well-formed hexadecimal: even length, every
/// byte a digit.
pub open spec fn is_hex(s: Seq<u8>) -> bool {
    s.len() % 2 == 0 && forall|i: int| 0 <= i < s.len() ==> is_hex_digit(#[trigger] s[i])
}

/// The bytes a hexadecimal string decodes to: one byte per digit pair,
/// high nibble first.
pub open spec fn hex_bytes_of(s: Seq<u8>) -> Seq<u8> {
    Seq::new(s.len() / 2, |i: int| (16 * hex_nibble(s[2 * i]) + hex_nibble(s[2 * i + 1])) as u8)
}

/// Relies on hex::decode: succeeds exactly on even-length strings of
/// ASCII hexadecimal digits, upper or lower case, and yields one byte per
/// digit pair, high nibble first.
#[verifier::external_body]
fn hex_decode(s: &[u8]) -> (r: Option<Vec<u8>>)
    ensures
        r is Some <==> is_hex(s@),
        r matches Some(v) ==> v@ == hex_bytes_of(s@),
{
    match hex::decode(s) {
        Ok(v) => Some(v),
        Err(_) => None,
    }
}

/// A byte string read back to front.
pub open spec fn reversed(s: Seq<u8>) -> Seq<u8> {
    Seq::new(s.len(), |i: int| s[s.len() - 1 - i])
}

/// Returns the congruent field element for the given hex string: the two
/// leading prefix bytes are dropped, the digits decoded, the bytes
/// reversed into little-endian order and reduced modulo the field order.
#[verifier::loop_isolation(false)]
pub fn hex_to_field(s: &str) -> (r: Scalar)
    requires
        2 <= s.spec_bytes().len() <= 130,
        is_hex(s.spec_bytes().skip(2)),
    ensures
        r.value() == le_bytes_value(reversed(hex_bytes_of(s.spec_bytes().skip(2))))
            % fr_modulus(),
        r.wf(),
{
    let bytes = s.as_bytes();
    let digits = vstd::slice::slice_subrange(bytes, 2, bytes.len());
    let decoded = hex_decode(digits).unwrap();
    let n = decoded.len();
    let mut rev: Vec<u8> = Vec::new();
    let mut i: usize = 0;
    while i < n
        invariant
            i <= n,
            rev@.len() == i,
            forall|j: int| 0 <= j < i ==> rev@[j] == decoded@[n - 1 - j],
        decreases n - i,
    {
        rev.push(decoded[n - 1 - i]);
        i = i + 1;
    }
    proof {
        assert(rev@ =~= reversed(decoded@));
    }
    let wide = to_wide_bytes(rev.as_slice());
    proof {
        lemma_le_bytes_value_zero_pad(rev@, Seq::<u8>::new((64 - rev@.len()) as nat, |j: int| 0u8));
        assert(le_bytes_value(wide@) == le_bytes_value(reversed(hex_bytes_of(
            s.spec_bytes().skip(2),
        ))));
    }
    wide_to_scalar(&wide)
}

/// Whether a character is in the base58 alphabet: digits and letters
/// without 0, O, I and l.
pub open spec fn is_base58_char(c: char) -> bool {
    ||| 0x31 <= c as u32 <= 0x39
    ||| 0x41 <= c as u32 <= 0x48
    ||| 0x4a <= c as u32 <= 0x4e
    ||| 0x50 <= c as u32 <= 0x5a
    ||| 0x61 <= c as u32 <= 0x6b
    ||| 0x6d <= c as u32 <= 0x7a
}

/// The bytes a base58 string decodes to: what the bs58 crate returns.
pub uninterp spec fn base58_decoded(s: Seq<char>) -> Seq<u8>;

/// Relies on bs58::decode: succeeds exactly on strings of base58
/// alphabet characters; the decoded bytes depend on the string alone.
#[verifier::external_body]
fn bs58_decode(s: &str) -> (r: Option<Vec<u8>>)
    ensures
        r is Some <==> forall|i: int| 0 <= i < s@.len() ==> is_base58_char(#[trigger] s@[i]),
        r matches Some(v) ==> v@ == base58_decoded(s@),
{
    match bs58::decode(s).into_vec() {
        Ok(v) => Some(v),
        Err(_) => None,
    }
}

/// A usable bootstrap key: base58 throughout, and short enough that its
/// decoded bytes fit the 64-byte reduction input.
pub open spec fn valid_bootstrap_key(s: Seq<char>) -> bool {
    &&& forall|j: int| 0 <= j < s.len() ==> is_base58_char(#[trigger] s[j])
    &&& base58_decoded(s).len() <= 64
}

/// Decodes a configured list of base58 bootstrap keys into field
/// elements: each decodes, widens little-endian to 64 bytes and reduces
/// modulo the field order. It succeeds exactly when every key is base58
/// throughout and decodes to at most 64 bytes; any other key is rejected
/// as an invalid bootstrap key.
#[verifier::loop_isolation(false)]
pub fn decode_bootstrap_pubkeys(keys: &Vec<String>) -> (r: Result<Vec<Scalar>, EigenError>)
    ensures
        r is Ok <==> forall|i: int|
            0 <= i < keys@.len() ==> valid_bootstrap_key((#[trigger] keys@[i])@),
        r matches Ok(v) ==> v@.len() == keys@.len() && forall|i: int|
            0 <= i < v@.len() ==> (#[trigger] v@[i]).value() == le_bytes_value(
                base58_decoded(keys@[i]@),
            ) % fr_modulus() && v@[i].wf(),
        r matches Err(e) ==> e is InvalidBootstrapPubkey,
{
    let mut out: Vec<Scalar> = Vec::new();
    let n = keys.len();
    let mut i: usize = 0;
    while i < n
        invariant
            i <= n,
            out@.len() == i,
            forall|j: int| 0 <= j < i ==> valid_bootstrap_key((#[trigger] keys@[j])@),
            forall|j: int|
                0 <= j < i ==> (#[trigger] out@[j]).value() == le_bytes_value(
                    base58_decoded(keys@[j]@),
                ) % fr_modulus() && out@[j].wf(),
        decreases n - i,
    {
        let decoded = match bs58_decode(keys[i].as_str()) {
            Some(v) => v,
            None => {
                proof {
                    assert(!valid_bootstrap_key(keys@[i as int]@));
                }
                return Err(EigenError::InvalidBootstrapPubkey);
            },
        };
        if decoded.len() > 64 {
            proof {
                assert(!valid_bootstrap_key(keys@[i as int]@));
            }
            return Err(EigenError::InvalidBootstrapPubkey);
        }
        let wide = to_wide_bytes(decoded.as_slice());
        proof {
            lemma_le_bytes_value_zero_pad(
                decoded@,
                Seq::<u8>::new((64 - decoded@.len()) as nat, |j: int| 0u8),
            );
            assert(le_bytes_value(wide@) == le_bytes_value(base58_decoded(keys@[i as int]@)));
        }
        out.push(wide_to_scalar(&wide));
        i = i + 1;
    }
    Ok(out)
}

} // verus!
