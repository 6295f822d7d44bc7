use vstd::prelude::*;
use vstd::utf8::{decode_utf8, encode_utf8, valid_utf8};
use crate::bencode::{
    lemma_wf_list, bytes_lt, decode, dict_lookup, encode, encode_value, keys_ascending, lookup, wf, wf_list,
    Bencode, DecodeError, Value,
};
use crate::digest::{hash_bytes, sha1_digest};
use crate::text::{string_bytes, string_from_utf8};

verus! {

pub open spec fn key_announce() -> Seq<u8> {
    seq![97u8, 110u8, 110u8, 111u8, 117u8, 110u8, 99u8, 101u8]
}

pub open spec fn key_info() -> Seq<u8> {
    seq![105u8, 110u8, 102u8, 111u8]
}

pub open spec fn key_length() -> Seq<u8> {
    seq![108u8, 101u8, 110u8, 103u8, 116u8, 104u8]
}

pub open spec fn key_name() -> Seq<u8> {
    seq![110u8, 97u8, 109u8, 101u8]
}

pub open spec fn key_piece_length() -> Seq<u8> {
    seq![112u8, 105u8, 101u8, 99u8, 101u8, 32u8, 108u8, 101u8, 110u8, 103u8, 116u8, 104u8]
}

pub open spec fn key_pieces() -> Seq<u8> {
    seq![112u8, 105u8, 101u8, 99u8, 101u8, 115u8]
}

/// An integer entry that fits in a `u32`.
pub open spec fn u32_of(b: Option<Bencode>) -> Option<u32> {
    match b {
        Some(Bencode::Int(n)) => if 0 <= n <= u32::MAX {
            Some(n as u32)
        } else {
            None
        },
        _ => None,
    }
}

/// A byte-string entry.
pub open spec fn bytes_of(b: Option<Bencode>) -> Option<Seq<u8>> {
    match b {
        Some(Bencode::Bytes(s)) => Some(s),
        _ => None,
    }
}

/// A byte-string entry that is valid UTF-8, as characters.
pub open spec fn text_of(b: Option<Bencode>) -> Option<Seq<char>> {
    match bytes_of(b) {
        Some(s) => if valid_utf8(s) {
            Some(decode_utf8(s))
        } else {
            None
        },
        None => None,
    }
}

/// `ceil(length / piece_length)`; no pieces when the piece length is zero.
pub open spec fn piece_count(length: nat, piece_length: nat) -> nat {
    if piece_length == 0 {
        0
    } else {
        ((length + piece_length - 1) as nat / piece_length) as nat
    }
}

/// The length of piece `i`: the standard piece length, but for the last piece, which
/// holds what remains.
pub open spec fn piece_len(length: nat, piece_length: nat, i: nat) -> nat {
    if (i + 1) * piece_length <= length {
        piece_length
    } else {
        (length - i * piece_length) as nat
    }
}

/// The sum of the lengths of the first `n` pieces.
pub open spec fn sum_piece_lengths(length: nat, piece_length: nat, n: nat) -> nat
    decreases n,
{
    if n == 0 {
        0
    } else {
        sum_piece_lengths(length, piece_length, (n - 1) as nat) + piece_len(
            length,
            piece_length,
            (n - 1) as nat,
        )
    }
}

/// The `info` part of a metainfo file.
#[derive(Debug, Default, PartialEq, Eq)]
pub struct TorrentInfo {
    pub length: u32,
    pub name: String,
    pub piece_length: u32,
    pub pieces: Vec<u8>,
}

/// A single-file metainfo file: the tracker URL and the `info` part.
#[derive(Debug, Default, PartialEq, Eq)]
pub struct TorrentFile {
    pub announce: String,
    pub info: TorrentInfo,
}

/// Parses metainfo files.
#[derive(Debug, Default)]
pub struct Parser;

#[derive(Debug, Clone, Copy, PartialEq, Eq)]
pub enum MetainfoError {
    /// The input is not the canonical bencode text of one value.
    Bencode(DecodeError),
    /// A field is missing or has the wrong kind, or the piece table is inconsistent.
    Malformed,
}

impl TorrentInfo {
    /// A piece length of zero only for an empty file, and one 20-byte hash per piece.
    pub open spec fn wf(&self) -> bool {
        &&& self.piece_length > 0 || self.length == 0
        &&& self.pieces@.len() == 20 * piece_count(self.length as nat, self.piece_length as nat)
    }

    pub open spec fn count(&self) -> nat {
        piece_count(self.length as nat, self.piece_length as nat)
    }

    /// The `info` dictionary, keys in ascending order.
    pub open spec fn spec_value(&self) -> Bencode {
        Bencode::Dict(
            seq![key_length(), key_name(), key_piece_length(), key_pieces()],
            seq![
                Bencode::Int(self.length as int),
                Bencode::Bytes(encode_utf8(self.name@)),
                Bencode::Int(self.piece_length as int),
                Bencode::Bytes(self.pieces@),
            ],
        )
    }
}

impl TorrentFile {
    pub open spec fn spec_value(&self) -> Bencode {
        Bencode::Dict(
            seq![key_announce(), key_info()],
            seq![Bencode::Bytes(encode_utf8(self.announce@)), self.info.spec_value()],
        )
    }
}

/// Every field that `t` holds is what the decoded value `w` holds under its key.
pub open spec fn torrent_matches(t: TorrentFile, w: Bencode) -> bool {
    let info = lookup(w, key_info());
    &&& text_of(lookup(w, key_announce())) == Some(t.announce@)
    &&& info is Some
    &&& u32_of(lookup(info->0, key_length())) == Some(t.info.length)
    &&& text_of(lookup(info->0, key_name())) == Some(t.info.name@)
    &&& u32_of(lookup(info->0, key_piece_length())) == Some(t.info.piece_length)
    &&& bytes_of(lookup(info->0, key_pieces())) == Some(t.info.pieces@)
    &&& t.info.wf()
}

/// A decoded value that describes a single-file torrent.
pub open spec fn is_metainfo(w: Bencode) -> bool {
    let info = lookup(w, key_info());
    &&& text_of(lookup(w, key_announce())) is Some
    &&& info is Some
    &&& u32_of(lookup(info->0, key_length())) is Some
    &&& text_of(lookup(info->0, key_name())) is Some
    &&& u32_of(lookup(info->0, key_piece_length())) is Some
    &&& bytes_of(lookup(info->0, key_pieces())) is Some
    &&& {
        let length = u32_of(lookup(info->0, key_length()))->0;
        let piece_length = u32_of(lookup(info->0, key_piece_length()))->0;
        &&& piece_length > 0 || length == 0
        &&& bytes_of(lookup(info->0, key_pieces()))->0.len() == 20 * piece_count(
            length as nat,
            piece_length as nat,
        )
    }
}

fn vec_announce() -> (r: Vec<u8>)
    ensures
        r@ == key_announce(),
{
    let r = vec![97u8, 110u8, 110u8, 111u8, 117u8, 110u8, 99u8, 101u8];
    assert(r@ =~= key_announce());
    r
}

fn vec_info() -> (r: Vec<u8>)
    ensures
        r@ == key_info(),
{
    let r = vec![105u8, 110u8, 102u8, 111u8];
    assert(r@ =~= key_info());
    r
}

fn vec_length() -> (r: Vec<u8>)
    ensures
        r@ == key_length(),
{
    let r = vec![108u8, 101u8, 110u8, 103u8, 116u8, 104u8];
    assert(r@ =~= key_length());
    r
}

fn vec_name() -> (r: Vec<u8>)
    ensures
        r@ == key_name(),
{
    let r = vec![110u8, 97u8, 109u8, 101u8];
    assert(r@ =~= key_name());
    r
}

fn vec_piece_length() -> (r: Vec<u8>)
    ensures
        r@ == key_piece_length(),
{
    let r = vec![112u8, 105u8, 101u8, 99u8, 101u8, 32u8, 108u8, 101u8, 110u8, 103u8, 116u8, 104u8];
    assert(r@ =~= key_piece_length());
    r
}

fn vec_pieces() -> (r: Vec<u8>)
    ensures
        r@ == key_pieces(),
{
    let r = vec![112u8, 105u8, 101u8, 99u8, 101u8, 115u8];
    assert(r@ =~= key_pieces());
    r
}

fn get_u32(d: &Value, key: &[u8]) -> (r: Option<u32>)
    ensures
        r == u32_of(lookup(d@, key@)),
{
    match dict_lookup(d, key) {
        Some(Value::Integer(n)) => if *n >= 0 && *n <= 4294967295 {
            Some(*n as u32)
        } else {
            None
        },
        _ => None,
    }
}

fn get_bytes(d: &Value, key: &[u8]) -> (r: Option<Vec<u8>>)
    ensures
        r matches Some(b) ==> bytes_of(lookup(d@, key@)) == Some(b@),
        r is None <==> bytes_of(lookup(d@, key@)) is None,
{
    match dict_lookup(d, key) {
        Some(Value::Bytes(b)) => Some(vstd::slice::slice_to_vec(b.as_slice())),
        _ => None,
    }
}

fn get_text(d: &Value, key: &[u8]) -> (r: Option<String>)
    ensures
        r matches Some(s) ==> text_of(lookup(d@, key@)) == Some(s@),
        r is None <==> text_of(lookup(d@, key@)) is None,
{
    match get_bytes(d, key) {
        Some(b) => string_from_utf8(b),
        None => None,
    }
}

/// The number of pieces of a file of `length` bytes cut into `piece_length`-byte pieces.
pub fn count_pieces(length: u32, piece_length: u32) -> (r: u64)
    ensures
        r == piece_count(length as nat, piece_length as nat),
{
    if piece_length == 0 {
        0
    } else {
        (length as u64 + piece_length as u64 - 1) / piece_length as u64
    }
}

impl Parser {
    /// Parses the bytes of a metainfo file. It succeeds exactly when the bytes are the
    /// canonical bencode text of a dictionary with a UTF-8 `announce` string and an
    /// `info` dictionary holding `length` and `piece length` (each fitting in a `u32`),
    /// a UTF-8 `name` and `pieces` with one 20-byte hash per piece.
    pub fn parse_torrent_file(input: &[u8]) -> (r: Result<TorrentFile, MetainfoError>)
        ensures
            r matches Ok(t) ==> exists|w: Bencode|
                wf(w) && encode_value(w) == input@ && #[trigger] torrent_matches(t, w),
            forall|w: Bencode|
                wf(w) && encode_value(w) == input@ && #[trigger] is_metainfo(w) ==> (r matches Ok(
                    t,
                ) && torrent_matches(t, w)),
            forall|w: Bencode|
                wf(w) && encode_value(w) == input@ && !#[trigger] is_metainfo(w) ==> r
                    == Err::<TorrentFile, MetainfoError>(MetainfoError::Malformed),
            (r matches Err(MetainfoError::Bencode(_))) <==> !exists|w: Bencode|
                wf(w) && #[trigger] encode_value(w) == input@,
    {
        let v = match decode(input) {
            Ok(v) => v,
            Err(e) => {
                return Err(MetainfoError::Bencode(e));
            },
        };
        let ghost w = v@;
        let announce = match get_text(&v, vec_announce().as_slice()) {
            Some(s) => s,
            None => {
                return Err(MetainfoError::Malformed);
            },
        };
        let info = match dict_lookup(&v, vec_info().as_slice()) {
            Some(i) => i,
            None => {
                return Err(MetainfoError::Malformed);
            },
        };
        let length = match get_u32(info, vec_length().as_slice()) {
            Some(n) => n,
            None => {
                return Err(MetainfoError::Malformed);
            },
        };
        let name = match get_text(info, vec_name().as_slice()) {
            Some(s) => s,
            None => {
                return Err(MetainfoError::Malformed);
            },
        };
        let piece_length = match get_u32(info, vec_piece_length().as_slice()) {
            Some(n) => n,
            None => {
                return Err(MetainfoError::Malformed);
            },
        };
        let pieces = match get_bytes(info, vec_pieces().as_slice()) {
            Some(b) => b,
            None => {
                return Err(MetainfoError::Malformed);
            },
        };
        if piece_length == 0 && length != 0 {
            return Err(MetainfoError::Malformed);
        }
        let count = count_pieces(length, piece_length);
        if pieces.len() as u64 != 20 * count {
            return Err(MetainfoError::Malformed);
        }
        let t = TorrentFile { announce, info: TorrentInfo { length, name, piece_length, pieces } };
        proof {
            assert(wf(w) && encode_value(w) == input@);
            assert(torrent_matches(t, w));
        }
        let r: Result<TorrentFile, MetainfoError> = Ok(t);
        proof {
            assert(r->Ok_0 == t);
            assert(exists|w2: Bencode| wf(w2) && encode_value(w2) == input@ && #[trigger] torrent_matches(r->Ok_0, w2));
        }
        r
    }
}

pub proof fn lemma_piece_index(length: nat, piece_length: nat, i: nat)
    requires
        piece_length > 0,
    ensures
        i < piece_count(length, piece_length) <==> i * piece_length < length,
{
    let c = piece_count(length, piece_length);
    let t = (length + piece_length - 1) as nat;
    assert(t == c * piece_length + t % piece_length) by {
        vstd::arithmetic::div_mod::lemma_fundamental_div_mod(t as int, piece_length as int);
    }
    assert(t % piece_length < piece_length) by {
        vstd::arithmetic::div_mod::lemma_mod_bound(t as int, piece_length as int);
    }
    if i < c {
        assert((i + 1) * piece_length <= c * piece_length) by (nonlinear_arith)
            requires
                i + 1 <= c,
        ;
        assert((i + 1) * piece_length == i * piece_length + piece_length) by (nonlinear_arith);
    } else {
        assert(c * piece_length <= i * piece_length) by (nonlinear_arith)
            requires
                c <= i,
        ;
    }
}

/// The piece lengths add up to the file length.
pub proof fn lemma_piece_lengths_sum(length: nat, piece_length: nat)
    requires
        piece_length > 0 || length == 0,
    ensures
        sum_piece_lengths(length, piece_length, piece_count(length, piece_length)) == length,
{
    if piece_length > 0 {
        let c = piece_count(length, piece_length);
        lemma_sum_prefix(length, piece_length, c);
        lemma_piece_index(length, piece_length, c);
        if c > 0 {
            lemma_piece_index(length, piece_length, (c - 1) as nat);
        }
    }
}

proof fn lemma_sum_prefix(length: nat, piece_length: nat, n: nat)
    requires
        piece_length > 0,
        n <= piece_count(length, piece_length),
    ensures
        sum_piece_lengths(length, piece_length, n) == if n * piece_length <= length {
            n * piece_length
        } else {
            length
        },
    decreases n,
{
    if n == 0 {
        assert(n * piece_length == 0) by (nonlinear_arith)
            requires
                n == 0,
        ;
    } else {
        let j = (n - 1) as nat;
        lemma_sum_prefix(length, piece_length, j);
        lemma_piece_index(length, piece_length, j);
        assert(n * piece_length == j * piece_length + piece_length) by (nonlinear_arith)
            requires
                n == j + 1,
        ;
        assert(j * piece_length < length);
        assert(sum_piece_lengths(length, piece_length, j) == j * piece_length);
        assert(sum_piece_lengths(length, piece_length, n) == sum_piece_lengths(length, piece_length, j) + piece_len(length, piece_length, j));
        if n * piece_length <= length {
            assert(piece_len(length, piece_length, j) == piece_length);
        } else {
            assert(piece_len(length, piece_length, j) == length - j * piece_length);
        }
    }
}

/// When the file length is not a multiple of the piece length, the last piece is
/// shorter than the others and holds the remainder.
pub proof fn lemma_last_piece(length: nat, piece_length: nat)
    requires
        piece_length > 0,
        length % piece_length != 0,
    ensures
        piece_count(length, piece_length) > 0,
        piece_len(length, piece_length, (piece_count(length, piece_length) - 1) as nat) == length
            % piece_length,
        length % piece_length < piece_length,
{
    let c = piece_count(length, piece_length);
    let q = length / piece_length;
    let r = length % piece_length;
    assert(length == q * piece_length + r) by {
        vstd::arithmetic::div_mod::lemma_fundamental_div_mod(length as int, piece_length as int);
    }
    assert(r < piece_length) by {
        vstd::arithmetic::div_mod::lemma_mod_bound(length as int, piece_length as int);
    }
    lemma_piece_index(length, piece_length, q);
    lemma_piece_index(length, piece_length, q + 1);
    assert((q + 1) * piece_length == q * piece_length + piece_length) by (nonlinear_arith);
    assert(c == q + 1);
}

impl TorrentFile {
    /// The piece table: `(index, length)` for every piece, in order.
    pub fn piece_and_length(&self) -> (r: Vec<(u32, u32)>)
        ensures
            r@.len() == self.info.count(),
            forall|i: int|
                0 <= i < r@.len() ==> #[trigger] r@[i] == (
                    i as u32,
                    piece_len(self.info.length as nat, self.info.piece_length as nat, i as nat) as u32,
                ),
    {
        let total: u64 = self.info.length as u64;
        let standard: u64 = self.info.piece_length as u64;
        let mut out: Vec<(u32, u32)> = Vec::new();
        if standard == 0 {
            return out;
        }
        let ghost len = total as nat;
        let ghost pl = standard as nat;
        let mut offset: u64 = 0;
        let mut index: u32 = 0;
        while offset < total
            invariant
                pl > 0,
                len == total,
                pl == standard,
                total <= u32::MAX,
                standard <= u32::MAX,
                offset == index as nat * pl,
                index as nat <= piece_count(len, pl),
                out@.len() == index,
                forall|i: int|
                    0 <= i < out@.len() ==> #[trigger] out@[i] == (
                        i as u32,
                        piece_len(len, pl, i as nat) as u32,
                    ),
            decreases piece_count(len, pl) - index,
        {
            proof {
                lemma_piece_index(len, pl, index as nat);
                assert((index as nat + 1) * pl == index as nat * pl + pl) by (nonlinear_arith);
                assert(index < piece_count(len, pl));
                assert(piece_count(len, pl) <= len) by (nonlinear_arith)
                    requires
                        pl > 0,
                        piece_count(len, pl) == ((len + pl - 1) as nat / pl) as nat,
                ;
            }
            let piece = if total - offset < standard {
                total - offset
            } else {
                standard
            };
            out.push((index, piece as u32));
            offset = offset + standard;
            index = index + 1;
        }
        proof {
            lemma_piece_index(len, pl, index as nat);
        }
        out
    }

    /// The length of piece `index`, or `None` past the last piece.
    pub fn piece_length_at(&self, index: u32) -> (r: Option<u32>)
        ensures
            index < self.info.count() ==> r == Some(
                piece_len(self.info.length as nat, self.info.piece_length as nat, index as nat) as u32,
            ),
            index >= self.info.count() ==> r is None,
    {
        let total: u64 = self.info.length as u64;
        let standard: u64 = self.info.piece_length as u64;
        if standard == 0 {
            return None;
        }
        proof {
            lemma_piece_index(total as nat, standard as nat, index as nat);
            assert((index as nat + 1) * standard == index as nat * standard + standard) by (nonlinear_arith);
        }
        assert(index as u64 * standard <= 0xffff_ffff_ffff_ffffu64) by (nonlinear_arith)
            requires
                index <= u32::MAX,
                standard <= u32::MAX,
        ;
        let start: u64 = index as u64 * standard;
        if start >= total {
            return None;
        }
        if total - start < standard {
            Some((total - start) as u32)
        } else {
            Some(standard as u32)
        }
    }

    /// The expected SHA-1 hash of piece `index`: its 20 bytes of `pieces`.
    pub fn piece_hash(&self, index: u32) -> (r: Vec<u8>)
        requires
            self.info.wf(),
            index < self.info.count(),
        ensures
            r@ == self.info.pieces@.subrange(20 * index as int, 20 * index as int + 20),
            r@.len() == 20,
    {
        assert(20 * index + 20 <= self.info.pieces@.len()) by (nonlinear_arith)
            requires
                index < self.info.count(),
                self.info.pieces@.len() == 20 * self.info.count(),
        ;
        let total_len = self.info.pieces.len();
        let start: usize = 20 * index as usize;
        let mut out: Vec<u8> = Vec::new();
        let mut i: usize = start;
        let end: usize = start + 20;
        while i < end
            invariant
                end == start + 20,
                start == 20 * index,
                start + 20 <= self.info.pieces@.len(),
                start <= i <= start + 20,
                out@ == self.info.pieces@.subrange(start as int, i as int),
            decreases end - i,
        {
            out.push(self.info.pieces[i]);
            i = i + 1;
            proof {
                assert(out@ =~= self.info.pieces@.subrange(start as int, i as int));
            }
        }
        out
    }
}

proof fn lemma_key_order()
    ensures
        bytes_lt(key_length(), key_name()),
        bytes_lt(key_name(), key_piece_length()),
        bytes_lt(key_piece_length(), key_pieces()),
        bytes_lt(key_announce(), key_info()),
{
    reveal_with_fuel(bytes_lt, 8);
    let a = key_piece_length();
    let b = key_pieces();
    assert(a.drop_first() =~= seq![105u8, 101u8, 99u8, 101u8, 32u8, 108u8, 101u8, 110u8, 103u8, 116u8, 104u8]);
    assert(b.drop_first() =~= seq![105u8, 101u8, 99u8, 101u8, 115u8]);
    assert(a.drop_first().drop_first() =~= seq![101u8, 99u8, 101u8, 32u8, 108u8, 101u8, 110u8, 103u8, 116u8, 104u8]);
    assert(b.drop_first().drop_first() =~= seq![101u8, 99u8, 101u8, 115u8]);
    assert(a.drop_first().drop_first().drop_first() =~= seq![99u8, 101u8, 32u8, 108u8, 101u8, 110u8, 103u8, 116u8, 104u8]);
    assert(b.drop_first().drop_first().drop_first() =~= seq![99u8, 101u8, 115u8]);
    assert(a.drop_first().drop_first().drop_first().drop_first() =~= seq![101u8, 32u8, 108u8, 101u8, 110u8, 103u8, 116u8, 104u8]);
    assert(b.drop_first().drop_first().drop_first().drop_first() =~= seq![101u8, 115u8]);
    assert(a.drop_first().drop_first().drop_first().drop_first().drop_first() =~= seq![32u8, 108u8, 101u8, 110u8, 103u8, 116u8, 104u8]);
    assert(b.drop_first().drop_first().drop_first().drop_first().drop_first() =~= seq![115u8]);
}

impl TorrentInfo {
    /// The `info` dictionary as a bencode value.
    pub fn to_value(&self) -> (r: Value)
        ensures
            r@ == self.spec_value(),
            wf(r@),
    {
        let mut entries: Vec<(Vec<u8>, Value)> = Vec::new();
        entries.push((vec_length(), Value::Integer(self.length as i64)));
        entries.push((vec_name(), Value::Bytes(string_bytes(&self.name))));
        entries.push((vec_piece_length(), Value::Integer(self.piece_length as i64)));
        entries.push((vec_pieces(), Value::Bytes(vstd::slice::slice_to_vec(self.pieces.as_slice()))));
        proof {
            let sv = self.spec_value();
            assert(entries@[0].1@ == sv->Dict_1[0]);
            assert(entries@[1].1@ == sv->Dict_1[1]);
            assert(entries@[2].1@ == sv->Dict_1[2]);
            assert(entries@[3].1@ == sv->Dict_1[3]);
        }
        let r = Value::Dict(entries);
        proof {
            let sv = self.spec_value();
            assert(r@->Dict_0 =~= sv->Dict_0);
            assert(r@->Dict_1 =~= sv->Dict_1);
            lemma_key_order();
            assert(keys_ascending(sv->Dict_0));
            lemma_wf_list(sv->Dict_1);
        }
        r
    }

    /// The SHA-1 hash of the canonical encoding of the `info` dictionary.
    pub fn info_hash(&self) -> (r: [u8; 20])
        ensures
            r@ == sha1_digest(encode_value(self.spec_value())),
    {
        let bytes = encode(&self.to_value());
        hash_bytes(bytes.as_slice())
    }
}

impl TorrentFile {
    /// The whole metainfo as a bencode value.
    pub fn to_value(&self) -> (r: Value)
        ensures
            r@ == self.spec_value(),
            wf(r@),
    {
        let mut entries: Vec<(Vec<u8>, Value)> = Vec::new();
        entries.push((vec_announce(), Value::Bytes(string_bytes(&self.announce))));
        entries.push((vec_info(), self.info.to_value()));
        proof {
            let sv = self.spec_value();
            assert(entries@[0].1@ == sv->Dict_1[0]);
            assert(entries@[1].1@ == sv->Dict_1[1]);
        }
        let r = Value::Dict(entries);
        proof {
            let sv = self.spec_value();
            assert(r@->Dict_0 =~= sv->Dict_0);
            assert(r@->Dict_1 =~= sv->Dict_1);
            lemma_key_order();
            assert(keys_ascending(sv->Dict_0));
            lemma_wf_list(sv->Dict_1);
        }
        r
    }

    /// The canonical bencode text of the metainfo.
    pub fn to_bytes(&self) -> (r: Vec<u8>)
        ensures
            r@ == encode_value(self.spec_value()),
    {
        encode(&self.to_value())
    }

    /// The info hash that identifies the torrent to trackers and peers.
    pub fn info_hash(&self) -> (r: [u8; 20])
        ensures
            r@ == sha1_digest(encode_value(self.info.spec_value())),
    {
        self.info.info_hash()
    }
}

impl Parser {
    /// The info hash of a metainfo file: the SHA-1 digest of the canonical encoding of
    /// its whole `info` value, whatever keys that value holds.
    pub fn info_hash_of(input: &[u8]) -> (r: Result<[u8; 20], MetainfoError>)
        ensures
            r matches Ok(h) ==> exists|w: Bencode|
                wf(w) && encode_value(w) == input@ && #[trigger] lookup(w, key_info()) is Some && h@
                    == sha1_digest(encode_value(lookup(w, key_info())->0)),
            forall|w: Bencode|
                wf(w) && encode_value(w) == input@ && #[trigger] lookup(w, key_info()) is Some ==> (r matches Ok(h)
                    && h@ == sha1_digest(encode_value(lookup(w, key_info())->0))),
            forall|w: Bencode|
                wf(w) && encode_value(w) == input@ && #[trigger] lookup(w, key_info()) is None ==> r
                    == Err::<[u8; 20], MetainfoError>(MetainfoError::Malformed),
    {
        let v = match decode(input) {
            Ok(v) => v,
            Err(e) => {
                return Err(MetainfoError::Bencode(e));
            },
        };
        let ghost w = v@;
        let info = match dict_lookup(&v, vec_info().as_slice()) {
            Some(i) => i,
            None => {
                return Err(MetainfoError::Malformed);
            },
        };
        let h = hash_bytes(encode(info).as_slice());
        let r: Result<[u8; 20], MetainfoError> = Ok(h);
        proof {
            assert(r->Ok_0 == h);
            assert(wf(w) && encode_value(w) == input@ && lookup(w, key_info()) is Some);
        }
        r
    }
}

/// Writing a well-formed torrent out with `to_bytes` and parsing it back gives the same
/// fields: its value is canonical, describes a torrent, and whatever `parse_torrent_file`
/// reads from it equals the torrent field for field.
pub proof fn lemma_metainfo_round_trip(t: TorrentFile, t2: TorrentFile)
    requires
        t.info.wf(),
    ensures
        wf(t.spec_value()),
        is_metainfo(t.spec_value()),
        torrent_matches(t2, t.spec_value()) ==> {
            &&& t2.announce@ == t.announce@
            &&& t2.info.length == t.info.length
            &&& t2.info.name@ == t.info.name@
            &&& t2.info.piece_length == t.info.piece_length
            &&& t2.info.pieces@ == t.info.pieces@
        },
{
    let iv = t.info.spec_value();
    let tv = t.spec_value();
    lemma_key_order();
    lemma_wf_list(iv->Dict_1);
    assert(wf(iv));
    lemma_wf_list(tv->Dict_1);
    assert(wf(tv));
    vstd::utf8::encode_utf8_valid_utf8(t.announce@);
    vstd::utf8::encode_utf8_decode_utf8(t.announce@);
    vstd::utf8::encode_utf8_valid_utf8(t.info.name@);
    vstd::utf8::encode_utf8_decode_utf8(t.info.name@);
    reveal_with_fuel(crate::bencode::dict_get, 5);
    assert(key_info() != key_announce());
    assert(key_pieces() != key_piece_length());
    assert(key_pieces() != key_name());
    assert(key_pieces() != key_length());
    assert(key_piece_length() != key_name());
    assert(key_piece_length() != key_length());
    assert(key_name() != key_length());
    assert(lookup(tv, key_info()) == Some(iv));
    assert(lookup(tv, key_announce()) == Some(Bencode::Bytes(encode_utf8(t.announce@))));
    assert(lookup(iv, key_length()) == Some(Bencode::Int(t.info.length as int)));
    assert(lookup(iv, key_name()) == Some(Bencode::Bytes(encode_utf8(t.info.name@))));
    assert(lookup(iv, key_piece_length()) == Some(Bencode::Int(t.info.piece_length as int)));
    assert(lookup(iv, key_pieces()) == Some(Bencode::Bytes(t.info.pieces@)));
}

} // verus!
