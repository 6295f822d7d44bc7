use vstd::prelude::*;
use vstd::utf8::{decode_utf8, encode_utf8, valid_utf8};
use crate::bencode::bytes_equal;
use crate::text::{ascii_chars, ascii_string, is_ascii_bytes, string_from_utf8};

verus! {

/// The bytes with every `%xx` escape replaced by the byte it stands for.
pub uninterp spec fn percent_decoded(b: Seq<u8>) -> Seq<u8>;

/// Relies on `urlencoding::decode_binary`: it decodes the `%xx` escapes of its input,
/// and hands back input that holds no `%` unchanged.
#[verifier::external_body]
fn url_decode_bytes(b: &[u8]) -> (r: Vec<u8>)
    ensures
        r@ == percent_decoded(b@),
        (forall|i: int| 0 <= i < b@.len() ==> b@[i] != 37u8) ==> r@ == b@,
{
    urlencoding::decode_binary(b).into_owned()
}

#[derive(Clone, Copy, Debug, PartialEq, Eq)]
pub enum MagnetError {
    Malformed,
}

pub open spec fn magnet_prefix() -> Seq<u8> {
    seq![109u8, 97u8, 103u8, 110u8, 101u8, 116u8, 58u8, 63u8]
}

pub open spec fn btih_prefix() -> Seq<u8> {
    seq![117u8, 114u8, 110u8, 58u8, 98u8, 116u8, 105u8, 104u8, 58u8]
}

pub open spec fn key_xt() -> Seq<u8> {
    seq![120u8, 116u8]
}

pub open spec fn key_tr() -> Seq<u8> {
    seq![116u8, 114u8]
}

pub open spec fn is_hex_char(b: u8) -> bool {
    (48 <= b <= 57) || (97 <= b <= 102) || (65 <= b <= 70)
}

/// Where the query parameter that starts at `i` ends: at the next `&` or at the end.
pub open spec fn seg_end(q: Seq<u8>, i: int) -> int
    decreases q.len() - i,
{
    if i >= q.len() {
        q.len() as int
    } else if q[i] == 38u8 {
        i
    } else {
        seg_end(q, i + 1)
    }
}

/// The value of the first parameter named `key` among the `&`-separated parameters
/// of `q` from position `i` on.
pub open spec fn param(q: Seq<u8>, i: int, key: Seq<u8>) -> Option<Seq<u8>>
    decreases q.len() - i,
    via param_decreases
{
    if i < 0 || i > q.len() {
        None
    } else {
        let e = seg_end(q, i);
        let seg = q.subrange(i, e);
        if seg.len() > key.len() && seg.take(key.len() as int) == key && seg[key.len() as int] == 61u8 {
            Some(seg.skip(key.len() + 1int))
        } else if e >= q.len() {
            None
        } else {
            param(q, e + 1, key)
        }
    }
}

proof fn lemma_seg_end(q: Seq<u8>, i: int)
    ensures
        i <= q.len() ==> i <= seg_end(q, i) <= q.len(),
    decreases q.len() - i,
{
    if i < q.len() && q[i] != 38u8 {
        lemma_seg_end(q, i + 1);
    }
}

#[via_fn]
proof fn param_decreases(q: Seq<u8>, i: int, key: Seq<u8>) {
    lemma_seg_end(q, i);
}

/// The info hash text and the still encoded tracker URL of a magnet link:
/// `magnet:?` followed by parameters among which `xt=urn:btih:<40 hex digits>` and
/// `tr=<tracker>`.
pub open spec fn magnet_parts(s: Seq<u8>) -> Option<(Seq<u8>, Seq<u8>)> {
    if s.len() >= 8 && s.take(8) == magnet_prefix() {
        let q = s.skip(8);
        match (param(q, 0, key_xt()), param(q, 0, key_tr())) {
            (Some(x), Some(t)) => if x.len() == 49 && x.take(9) == btih_prefix() && (forall|k: int|
                9 <= k < 49 ==> is_hex_char(#[trigger] x[k])) {
                Some((x.skip(9), t))
            } else {
                None
            },
            _ => None,
        }
    } else {
        None
    }
}

fn seg_end_exec(q: &[u8], i: usize) -> (r: usize)
    requires
        i <= q@.len(),
    ensures
        r == seg_end(q@, i as int),
        i <= r <= q@.len(),
{
    let mut k = i;
    while k < q.len() && q[k] != 38u8
        invariant
            i <= k <= q@.len(),
            seg_end(q@, i as int) == seg_end(q@, k as int),
        decreases q@.len() - k,
    {
        k = k + 1;
    }
    k
}

fn starts_with_at(q: &[u8], i: usize, e: usize, key: &[u8]) -> (r: bool)
    requires
        i <= e <= q@.len(),
    ensures
        r == ({
            let seg = q@.subrange(i as int, e as int);
            seg.len() > key@.len() && seg.take(key@.len() as int) == key@ && seg[key@.len() as int]
                == 61u8
        }),
{
    let ghost seg = q@.subrange(i as int, e as int);
    if e - i <= key.len() {
        return false;
    }
    let mut k: usize = 0;
    while k < key.len()
        invariant
            k <= key@.len(),
            i <= e <= q@.len(),
            key@.len() < e - i,
            seg == q@.subrange(i as int, e as int),
            seg.take(k as int) == key@.take(k as int),
        decreases key@.len() - k,
    {
        if q[i + k] != key[k] {
            proof {
                assert(seg[k as int] == q@[i + k]);
                assert(seg.take(key@.len() as int)[k as int] != key@[k as int]);
            }
            return false;
        }
        proof {
            assert(seg[k as int] == q@[i + k]);
        }
        k = k + 1;
        proof {
            assert(seg.take(k as int) =~= seg.take(k - 1).push(seg[k - 1]));
            assert(key@.take(k as int) =~= key@.take(k - 1).push(key@[k - 1]));
        }
    }
    proof {
        assert(key@.take(k as int) =~= key@);
    }
    proof {
        assert(seg[key@.len() as int] == q@[i + key@.len()]);
    }
    q[i + key.len()] == 61u8
}

/// The position range of the value of the first parameter named `key` from `start`.
fn find_param(q: &[u8], start: usize, key: &[u8]) -> (r: Option<(usize, usize)>)
    requires
        start <= q@.len(),
    ensures
        r matches Some((a, b)) ==> a <= b <= q@.len() && param(q@, start as int, key@) == Some(
            q@.subrange(a as int, b as int),
        ),
        r is None ==> param(q@, start as int, key@) is None,
{
    let mut i = start;
    loop
        invariant
            start <= i <= q@.len(),
            param(q@, start as int, key@) == param(q@, i as int, key@),
        decreases q@.len() - i,
    {
        let e = seg_end_exec(q, i);
        if starts_with_at(q, i, e, key) {
            proof {
                let seg = q@.subrange(i as int, e as int);
                assert(seg.skip(key@.len() + 1int) =~= q@.subrange(i + key@.len() + 1, e as int));
            }
            return Some((i + key.len() + 1, e));
        }
        if e >= q.len() {
            return None;
        }
        i = e + 1;
    }
}

fn copy_range(q: &[u8], a: usize, b: usize) -> (r: Vec<u8>)
    requires
        a <= b <= q@.len(),
    ensures
        r@ == q@.subrange(a as int, b as int),
{
    let mut out: Vec<u8> = Vec::new();
    let mut k = a;
    while k < b
        invariant
            a <= k <= b,
            b <= q@.len(),
            out@ == q@.subrange(a as int, k as int),
        decreases b - k,
    {
        out.push(q[k]);
        k = k + 1;
        proof {
            assert(out@ =~= q@.subrange(a as int, k as int));
        }
    }
    out
}

/// Reads a magnet link into its tracker URL, percent-decoded, and its info hash text.
/// It fails when the link does not start with `magnet:?`, lacks an `xt` parameter of
/// the form `urn:btih:<40 hex digits>` or a `tr` parameter, or when the decoded
/// tracker URL is not UTF-8. Other parameters are ignored.
pub fn decode_magnet_link(magnet_link: &str) -> (r: Result<(String, String), MagnetError>)
    ensures
        magnet_parts(encode_utf8(magnet_link@)) is None ==> r == Err::<(String, String), MagnetError>(
            MagnetError::Malformed,
        ),
        magnet_parts(encode_utf8(magnet_link@)) matches Some((h, t)) ==> {
            &&& valid_utf8(percent_decoded(t)) ==> (r matches Ok((tracker, hash)) && tracker@
                == decode_utf8(percent_decoded(t)) && hash@ == ascii_chars(h))
            &&& !valid_utf8(percent_decoded(t)) ==> r == Err::<(String, String), MagnetError>(
                MagnetError::Malformed,
            )
        },
{
    let s = magnet_link.as_bytes();
    let ghost sv = s@;
    let prefix = vec![109u8, 97u8, 103u8, 110u8, 101u8, 116u8, 58u8, 63u8];
    proof {
        assert(prefix@ =~= magnet_prefix());
    }
    if s.len() < 8 {
        return Err(MagnetError::Malformed);
    }
    let head = copy_range(s, 0, 8);
    if !bytes_equal(head.as_slice(), prefix.as_slice()) {
        proof {
            assert(head@ =~= sv.take(8));
        }
        return Err(MagnetError::Malformed);
    }
    let q = copy_range(s, 8, s.len());
    proof {
        assert(head@ =~= sv.take(8));
        assert(q@ =~= sv.skip(8));
    }
    let kx = vec![120u8, 116u8];
    let kt = vec![116u8, 114u8];
    proof {
        assert(kx@ =~= key_xt());
        assert(kt@ =~= key_tr());
    }
    let (xa, xb) = match find_param(q.as_slice(), 0, kx.as_slice()) {
        Some(p) => p,
        None => {
            return Err(MagnetError::Malformed);
        },
    };
    let (ta, tb) = match find_param(q.as_slice(), 0, kt.as_slice()) {
        Some(p) => p,
        None => {
            return Err(MagnetError::Malformed);
        },
    };
    let x = copy_range(q.as_slice(), xa, xb);
    proof {
        assert(sv.take(8) == magnet_prefix());
        assert(sv.skip(8) == q@);
        assert(param(q@, 0, key_xt()) == Some(x@));
        assert(param(q@, 0, key_tr()) == Some(q@.subrange(ta as int, tb as int)));
    }
    let btih = vec![117u8, 114u8, 110u8, 58u8, 98u8, 116u8, 105u8, 104u8, 58u8];
    proof {
        assert(btih@ =~= btih_prefix());
    }
    if x.len() != 49 {
        return Err(MagnetError::Malformed);
    }
    let xh = copy_range(x.as_slice(), 0, 9);
    proof {
        assert(xh@ =~= x@.take(9));
    }
    if !bytes_equal(xh.as_slice(), btih.as_slice()) {
        return Err(MagnetError::Malformed);
    }
    let mut k: usize = 9;
    while k < 49
        invariant
            9 <= k <= 49,
            x@.len() == 49,
            sv == encode_utf8(magnet_link@),
            sv.take(8) == magnet_prefix(),
            sv.skip(8) == q@,
            param(q@, 0, key_xt()) == Some(x@),
            forall|m: int| 9 <= m < k ==> is_hex_char(#[trigger] x@[m]),
        decreases 49 - k,
    {
        let c = x[k];
        if !((c >= 48 && c <= 57) || (c >= 97 && c <= 102) || (c >= 65 && c <= 70)) {
            proof {
                assert(!is_hex_char(x@[k as int]));
            }
            return Err(MagnetError::Malformed);
        }
        k = k + 1;
    }
    let hash_bytes = copy_range(x.as_slice(), 9, 49);
    proof {
        assert(hash_bytes@ =~= x@.skip(9));
        assert forall|m: int| 0 <= m < hash_bytes@.len() implies #[trigger] hash_bytes@[m] < 128 by {
            assert(is_hex_char(x@[m + 9]));
        }
    }
    let ghost hv = hash_bytes@;
    let hash = ascii_string(hash_bytes);
    let raw = copy_range(q.as_slice(), ta, tb);
    proof {
        assert(sv.take(8) == magnet_prefix());
        assert(sv.skip(8) == q@);
        assert(param(q@, 0, key_xt()) == Some(x@));
        assert(param(q@, 0, key_tr()) == Some(raw@));
        assert(x@.take(9) == btih_prefix());
        assert(magnet_parts(sv) == Some((hv, raw@)));
    }
    let decoded = url_decode_bytes(raw.as_slice());
    match string_from_utf8(decoded) {
        Some(tracker) => Ok((tracker, hash)),
        None => Err(MagnetError::Malformed),
    }
}

} // verus!
