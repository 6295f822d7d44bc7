use vstd::prelude::*;
use crate::text::{ascii_chars, ascii_string, is_ascii_bytes};

verus! {

/// The SHA-1 digest of a byte sequence.
pub uninterp spec fn sha1_digest(data: Seq<u8>) -> Seq<u8>;

/// Relies on `sha1::Sha1::digest` (through the `Digest` trait): the SHA-1 digest of
/// `bytes`, which is 20 bytes long.
#[verifier::external_body]
fn sha1_of(bytes: &[u8]) -> (r: [u8; 20])
    ensures
        r@ == sha1_digest(bytes@),
{
    <sha1::Sha1 as sha1::Digest>::digest(bytes).into()
}

/// The 20-byte SHA-1 digest of `bytes`.
pub fn hash_bytes(bytes: &[u8]) -> (r: [u8; 20])
    ensures
        r@ == sha1_digest(bytes@),
        sha1_digest(bytes@).len() == 20,
{
    sha1_of(bytes)
}

/// The lower-case hexadecimal digit of `n < 16`.
pub open spec fn hex_digit(n: u8) -> u8 {
    if n < 10 {
        (n + 48) as u8
    } else {
        (n + 87) as u8
    }
}

/// Two lower-case hexadecimal digits per byte.
pub open spec fn hex_text(b: Seq<u8>) -> Seq<u8>
    decreases b.len(),
{
    if b.len() == 0 {
        Seq::empty()
    } else {
        hex_text(b.drop_last()) + seq![hex_digit(b.last() / 16), hex_digit(b.last() % 16)]
    }
}

/// `%` and two lower-case hexadecimal digits per byte.
pub open spec fn percent_text(b: Seq<u8>) -> Seq<u8>
    decreases b.len(),
{
    if b.len() == 0 {
        Seq::empty()
    } else {
        percent_text(b.drop_last()) + seq![37u8, hex_digit(b.last() / 16), hex_digit(b.last() % 16)]
    }
}

fn hex_digit_exec(n: u8) -> (r: u8)
    requires
        n < 16,
    ensures
        r == hex_digit(n),
        r < 128,
{
    if n < 10 {
        n + 48
    } else {
        n + 87
    }
}

/// Two lower-case hexadecimal digits per byte, each pair led by `%` when `percent`.
pub fn hex_bytes(bytes: &[u8], percent: bool) -> (r: Vec<u8>)
    ensures
        r@ == (if percent { percent_text(bytes@) } else { hex_text(bytes@) }),
        is_ascii_bytes(r@),
{
    let mut out: Vec<u8> = Vec::new();
    let mut i: usize = 0;
    while i < bytes.len()
        invariant
            i <= bytes@.len(),
            out@ == (if percent { percent_text(bytes@.take(i as int)) } else { hex_text(bytes@.take(i as int)) }),
            is_ascii_bytes(out@),
        decreases bytes@.len() - i,
    {
        let b = bytes[i];
        if percent {
            out.push(37u8);
        }
        out.push(hex_digit_exec(b / 16));
        out.push(hex_digit_exec(b % 16));
        i = i + 1;
        proof {
            assert(bytes@.take(i as int).drop_last() =~= bytes@.take(i - 1));
            if percent {
                assert(out@ =~= percent_text(bytes@.take(i as int)));
            } else {
                assert(out@ =~= hex_text(bytes@.take(i as int)));
            }
        }
    }
    proof {
        assert(bytes@.take(i as int) =~= bytes@);
    }
    out
}

/// The bytes written as lower-case hexadecimal, two digits per byte.
pub fn bytes_to_hex(bytes: &[u8]) -> (r: String)
    ensures
        r@ == ascii_chars(hex_text(bytes@)),
{
    ascii_string(hex_bytes(bytes, false))
}

/// The SHA-1 digest of `bytes` in hexadecimal.
pub fn hash_bytes_and_hex(bytes: &[u8]) -> (r: String)
    ensures
        r@ == ascii_chars(hex_text(sha1_digest(bytes@))),
{
    let h = sha1_of(bytes);
    bytes_to_hex(&h)
}

/// The bytes percent-encoded, every byte as `%xx`.
pub fn percent_encode_bytes(bytes: &[u8]) -> (r: String)
    ensures
        r@ == ascii_chars(percent_text(bytes@)),
{
    ascii_string(hex_bytes(bytes, true))
}

/// The SHA-1 digest of `bytes`, percent-encoded byte by byte as the tracker query
/// expects an info hash.
pub fn bytes_to_hex_url_encoded(bytes: &[u8]) -> (r: String)
    ensures
        r@ == ascii_chars(percent_text(sha1_digest(bytes@))),
{
    let h = sha1_of(bytes);
    percent_encode_bytes(&h)
}

} // verus!
