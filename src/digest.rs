//! Content digests and their hexadecimal text form.
use vstd::prelude::*;
use crate::error::BranchDBError;

verus! {

/// A 256-bit content hash.
pub type Digest = [u8; 32];

/// The BLAKE3 digest of a byte string.
pub uninterp spec fn blake3_of(data: Seq<u8>) -> Seq<u8>;

/// Relies on `blake3::hash`: the 32-byte digest of the input, which depends
/// on the input bytes alone.
#[verifier::external_body]
pub(crate) fn digest(data: &[u8]) -> (r: Digest)
    ensures
        r@ == blake3_of(data@),
{
    *blake3::hash(data).as_bytes()
}

/// The lowercase hexadecimal digit for a value below 16.
pub open spec fn hex_char(n: u8) -> char {
    if n == 0 { '0' } else if n == 1 { '1' } else if n == 2 { '2' } else if n == 3 { '3' }
    else if n == 4 { '4' } else if n == 5 { '5' } else if n == 6 { '6' } else if n == 7 { '7' }
    else if n == 8 { '8' } else if n == 9 { '9' } else if n == 10 { 'a' } else if n == 11 { 'b' }
    else if n == 12 { 'c' } else if n == 13 { 'd' } else if n == 14 { 'e' } else { 'f' }
}

/// Two lowercase hexadecimal digits per byte, high nibble first.
pub open spec fn hex_lower(b: Seq<u8>) -> Seq<char>
    decreases b.len(),
{
    if b.len() == 0 {
        Seq::empty()
    } else {
        seq![hex_char(b[0] / 16), hex_char(b[0] % 16)] + hex_lower(b.drop_first())
    }
}

/// The value of a hexadecimal digit of either case.
pub open spec fn hex_value(c: char) -> Option<u8> {
    if '0' <= c && c <= '9' {
        Some((c as u32 - '0' as u32) as u8)
    } else if 'a' <= c && c <= 'f' {
        Some((c as u32 - 'a' as u32 + 10) as u8)
    } else if 'A' <= c && c <= 'F' {
        Some((c as u32 - 'A' as u32 + 10) as u8)
    } else {
        None
    }
}

/// `s` is an even-length string of hexadecimal digits.
pub open spec fn is_hex_text(s: Seq<char>) -> bool {
    s.len() % 2 == 0 && forall|i: int| 0 <= i < s.len() ==> (#[trigger] hex_value(s[i])) is Some
}

/// The bytes that hexadecimal text `s` denotes.
pub open spec fn hex_bytes(s: Seq<char>) -> Seq<u8> {
    Seq::new(
        (s.len() / 2) as nat,
        |i: int| (hex_value(s[2 * i])->0 * 16 + hex_value(s[2 * i + 1])->0) as u8,
    )
}

/// The error type of `hex::decode`.
#[verifier::external_type_specification]
#[verifier::external_body]
pub struct ExFromHexError(hex::FromHexError);

/// Relies on `hex::encode`: two lowercase digits for each byte.
#[verifier::external_body]
pub(crate) fn to_hex(b: &[u8]) -> (r: String)
    ensures
        r@ == hex_lower(b@),
{
    hex::encode(b)
}

/// Relies on `hex::decode`: succeeds exactly on even-length text of digits of
/// either case, and yields one byte for each pair of digits.
#[verifier::external_body]
pub(crate) fn from_hex(s: &str) -> (r: Result<Vec<u8>, hex::FromHexError>)
    ensures
        r is Ok <==> is_hex_text(s@),
        r matches Ok(v) ==> v@ == hex_bytes(s@),
{
    hex::decode(s)
}

/// Parses a commit hash written as exactly 64 hexadecimal digits.
pub fn parse_hash(s: &str) -> (r: Result<Digest, BranchDBError>)
    ensures
        r is Ok <==> (s@.len() == 64 && is_hex_text(s@)),
        r matches Ok(h) ==> h@ == hex_bytes(s@),
        r matches Err(e) ==> e is InvalidInput,
{
    let n = s.unicode_len();
    if n != 64 {
        return Err(BranchDBError::InvalidInput("Commit hash must be 64 characters long".to_owned()));
    }
    match from_hex(s) {
        Ok(v) => {
            let mut h: Digest = [0u8; 32];
            let mut i: usize = 0;
            while i < 32
                invariant
                    v@.len() == 32,
                    i <= 32,
                    forall|j: int| 0 <= j < i ==> h@[j] == v@[j],
                    h@.len() == 32,
                decreases 32 - i,
            {
                h[i] = v[i];
                i = i + 1;
            }
            assert(h@ =~= v@);
            Ok(h)
        },
        Err(_) => Err(BranchDBError::InvalidInput("Invalid hex string for commit hash".to_owned())),
    }
}

/// The 64-digit lowercase hexadecimal form of a hash.
pub fn hash_to_hex(h: &Digest) -> (r: String)
    ensures
        r@ == hex_lower(h@),
{
    to_hex(h.as_slice())
}

} // verus!
