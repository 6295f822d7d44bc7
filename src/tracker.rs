use vstd::prelude::*;
use crate::bencode::{
    decimal, decode, dict_lookup, encode_value, lemma_decimal, lookup, push_decimal, wf, Bencode,
    DecodeError, Value,
};
use crate::digest::{hex_bytes, percent_text};
use crate::metainfo::bytes_of;
use crate::text::{ascii_chars, ascii_string, is_ascii_bytes};
use crate::wire::push_all;

verus! {

pub open spec fn key_interval() -> Seq<u8> {
    seq![105u8, 110u8, 116u8, 101u8, 114u8, 118u8, 97u8, 108u8]
}

pub open spec fn key_peers() -> Seq<u8> {
    seq![112u8, 101u8, 101u8, 114u8, 115u8]
}

/// A tracker's answer to an announce: how long to wait before the next one, and the
/// compact peer list.
#[derive(Debug, Default, PartialEq, Eq)]
pub struct TrackerResponse {
    pub interval: usize,
    pub peers: Vec<u8>,
}

/// A peer endpoint: IPv4 address and port.
#[derive(Clone, Copy, Debug, PartialEq, Eq)]
pub struct PeerAddr {
    pub ip: [u8; 4],
    pub port: u16,
}

#[derive(Clone, Copy, Debug, PartialEq, Eq)]
pub enum TrackerError {
    /// The body is not the canonical bencode text of one value.
    Bencode(DecodeError),
    /// `interval` or `peers` is missing or of the wrong kind, or the peer list is not
    /// made of 6-byte entries.
    Protocol,
}

/// An `interval` that fits in 32 bits.
pub open spec fn interval_of(w: Bencode) -> Option<nat> {
    match lookup(w, key_interval()) {
        Some(Bencode::Int(n)) => if 0 <= n <= u32::MAX {
            Some(n as nat)
        } else {
            None
        },
        _ => None,
    }
}

/// Reads a tracker's announce answer: a dictionary with an integer `interval` and a
/// byte string `peers`.
pub fn parse_tracker_response(body: &[u8]) -> (r: Result<TrackerResponse, TrackerError>)
    ensures
        r matches Ok(t) ==> exists|w: Bencode|
            wf(w) && encode_value(w) == body@ && interval_of(w) == Some(t.interval as nat)
                && #[trigger] bytes_of(lookup(w, key_peers())) == Some(t.peers@),
        forall|w: Bencode|
            wf(w) && encode_value(w) == body@ && interval_of(w) is Some && #[trigger] bytes_of(
                lookup(w, key_peers()),
            ) is Some ==> (r matches Ok(t) && interval_of(w) == Some(t.interval as nat) && bytes_of(
                lookup(w, key_peers()),
            ) == Some(t.peers@)),
        forall|w: Bencode|
            wf(w) && encode_value(w) == body@ && !(#[trigger] interval_of(w) is Some && bytes_of(
                lookup(w, key_peers()),
            ) is Some) ==> r == Err::<TrackerResponse, TrackerError>(TrackerError::Protocol),
        (r matches Err(TrackerError::Bencode(_))) <==> !exists|w: Bencode|
            wf(w) && #[trigger] encode_value(w) == body@,
{
    let v = match decode(body) {
        Ok(v) => v,
        Err(e) => {
            return Err(TrackerError::Bencode(e));
        },
    };
    let ghost w = v@;
    let k_interval = vec![105u8, 110u8, 116u8, 101u8, 114u8, 118u8, 97u8, 108u8];
    let k_peers = vec![112u8, 101u8, 101u8, 114u8, 115u8];
    proof {
        assert(k_interval@ =~= key_interval());
        assert(k_peers@ =~= key_peers());
    }
    let interval: usize = match dict_lookup(&v, k_interval.as_slice()) {
        Some(Value::Integer(n)) => if *n >= 0 && *n <= 4294967295 {
            *n as usize
        } else {
            return Err(TrackerError::Protocol);
        },
        _ => {
            return Err(TrackerError::Protocol);
        },
    };
    let peers = match dict_lookup(&v, k_peers.as_slice()) {
        Some(Value::Bytes(b)) => vstd::slice::slice_to_vec(b.as_slice()),
        _ => {
            return Err(TrackerError::Protocol);
        },
    };
    let t = TrackerResponse { interval, peers };
    let r: Result<TrackerResponse, TrackerError> = Ok(t);
    proof {
        assert(r->Ok_0 == t);
        assert(wf(w) && encode_value(w) == body@ && interval_of(w) == Some(t.interval as nat)
            && bytes_of(lookup(w, key_peers())) == Some(t.peers@));
    }
    r
}

/// The peer at position `i` of a compact peer list.
pub open spec fn compact_peer(peers: Seq<u8>, i: int) -> PeerAddr {
    PeerAddr {
        ip: [peers[6 * i], peers[6 * i + 1], peers[6 * i + 2], peers[6 * i + 3]],
        port: (peers[6 * i + 4] * 256 + peers[6 * i + 5]) as u16,
    }
}

/// Splits a compact peer list into endpoints: 4 address bytes and 2 port bytes, both
/// big-endian, per peer.
pub fn parse_compact_peers(peers: &[u8]) -> (r: Result<Vec<PeerAddr>, TrackerError>)
    ensures
        peers@.len() % 6 != 0 ==> r == Err::<Vec<PeerAddr>, TrackerError>(TrackerError::Protocol),
        peers@.len() % 6 == 0 ==> (r matches Ok(v) && v@.len() == peers@.len() / 6 && forall|i: int|
            0 <= i < v@.len() ==> #[trigger] v@[i] == compact_peer(peers@, i)),
{
    if peers.len() % 6 != 0 {
        return Err(TrackerError::Protocol);
    }
    let len = peers.len();
    let n = len / 6;
    let mut out: Vec<PeerAddr> = Vec::new();
    let mut i: usize = 0;
    while i < n
        invariant
            i <= n,
            n == peers@.len() / 6,
            len == peers@.len(),
            peers@.len() % 6 == 0,
            out@.len() == i,
            forall|j: int| 0 <= j < i ==> #[trigger] out@[j] == compact_peer(peers@, j),
        decreases n - i,
    {
        let b = 6 * i;
        let p = PeerAddr {
            ip: [peers[b], peers[b + 1], peers[b + 2], peers[b + 3]],
            port: (peers[b + 4] as u16) * 256 + peers[b + 5] as u16,
        };
        proof {
            assert(p.ip@ =~= compact_peer(peers@, i as int).ip@);
        }
        out.push(p);
        i = i + 1;
    }
    Ok(out)
}

/// `a.b.c.d:port`
pub open spec fn peer_text(p: PeerAddr) -> Seq<u8> {
    decimal(p.ip[0] as nat) + seq![46u8] + decimal(p.ip[1] as nat) + seq![46u8] + decimal(
        p.ip[2] as nat,
    ) + seq![46u8] + decimal(p.ip[3] as nat) + seq![58u8] + decimal(p.port as nat)
}

proof fn lemma_decimal_ascii(n: nat)
    ensures
        is_ascii_bytes(decimal(n)),
{
    lemma_decimal(n);
    assert forall|i: int| 0 <= i < decimal(n).len() implies #[trigger] decimal(n)[i] < 128 by {
        assert(48 <= decimal(n)[i] <= 57);
    }
}

impl PeerAddr {
    /// The endpoint as `a.b.c.d:port`.
    pub fn formatted(&self) -> (r: String)
        ensures
            r@ == ascii_chars(peer_text(*self)),
    {
        let mut out: Vec<u8> = Vec::new();
        push_decimal(self.ip[0] as u64, &mut out);
        out.push(46u8);
        push_decimal(self.ip[1] as u64, &mut out);
        out.push(46u8);
        push_decimal(self.ip[2] as u64, &mut out);
        out.push(46u8);
        push_decimal(self.ip[3] as u64, &mut out);
        out.push(58u8);
        push_decimal(self.port as u64, &mut out);
        proof {
            assert(out@ =~= peer_text(*self));
            lemma_decimal_ascii(self.ip[0] as nat);
            lemma_decimal_ascii(self.ip[1] as nat);
            lemma_decimal_ascii(self.ip[2] as nat);
            lemma_decimal_ascii(self.ip[3] as nat);
            lemma_decimal_ascii(self.port as nat);
            assert forall|i: int| 0 <= i < out@.len() implies #[trigger] out@[i] < 128 by {
                assert(is_ascii_bytes(peer_text(*self)));
            }
        }
        ascii_string(out)
    }
}

/// The query of an announce: the info hash and the peer id percent-encoded byte by
/// byte, the listen port, nothing uploaded or downloaded yet, `left` bytes to go, and
/// a compact answer asked for.
pub open spec fn announce_query(info_hash: Seq<u8>, peer_id: Seq<u8>, port: nat, left: nat) -> Seq<u8> {
    seq![105u8, 110u8, 102u8, 111u8, 95u8, 104u8, 97u8, 115u8, 104u8, 61u8] + percent_text(info_hash)
        + seq![38u8, 112u8, 101u8, 101u8, 114u8, 95u8, 105u8, 100u8, 61u8] + percent_text(peer_id)
        + seq![38u8, 112u8, 111u8, 114u8, 116u8, 61u8] + decimal(port) + seq![38u8, 117u8, 112u8, 108u8, 111u8, 97u8, 100u8, 101u8, 100u8, 61u8, 48u8, 38u8, 100u8, 111u8, 119u8, 110u8, 108u8, 111u8, 97u8, 100u8, 101u8, 100u8, 61u8, 48u8, 38u8, 108u8, 101u8, 102u8, 116u8, 61u8]
        + decimal(left) + seq![38u8, 99u8, 111u8, 109u8, 112u8, 97u8, 99u8, 116u8, 61u8, 49u8]
}

/// The query string of the first announce for a torrent.
pub fn build_announce_query(info_hash: &[u8; 20], peer_id: &[u8; 20], port: u16, left: u32) -> (r: String)
    ensures
        r@ == ascii_chars(announce_query(info_hash@, peer_id@, port as nat, left as nat)),
{
    let mut out: Vec<u8> = vec![105u8, 110u8, 102u8, 111u8, 95u8, 104u8, 97u8, 115u8, 104u8, 61u8];
    push_all(&mut out, hex_bytes(info_hash.as_slice(), true).as_slice());
    push_all(&mut out, vec![38u8, 112u8, 101u8, 101u8, 114u8, 95u8, 105u8, 100u8, 61u8].as_slice());
    push_all(&mut out, hex_bytes(peer_id.as_slice(), true).as_slice());
    push_all(&mut out, vec![38u8, 112u8, 111u8, 114u8, 116u8, 61u8].as_slice());
    push_decimal(port as u64, &mut out);
    push_all(&mut out, vec![38u8, 117u8, 112u8, 108u8, 111u8, 97u8, 100u8, 101u8, 100u8, 61u8, 48u8, 38u8, 100u8, 111u8, 119u8, 110u8, 108u8, 111u8, 97u8, 100u8, 101u8, 100u8, 61u8, 48u8, 38u8, 108u8, 101u8, 102u8, 116u8, 61u8].as_slice());
    push_decimal(left as u64, &mut out);
    push_all(&mut out, vec![38u8, 99u8, 111u8, 109u8, 112u8, 97u8, 99u8, 116u8, 61u8, 49u8].as_slice());
    proof {
        let q = announce_query(info_hash@, peer_id@, port as nat, left as nat);
        assert(out@ =~= q);
        lemma_decimal_ascii(port as nat);
        lemma_decimal_ascii(left as nat);
        assert forall|i: int| 0 <= i < out@.len() implies #[trigger] out@[i] < 128 by {
            assert(is_ascii_bytes(q));
        }
    }
    ascii_string(out)
}

} // verus!
