use vstd::prelude::*;

verus! {

/// The message kinds of the peer wire protocol, by id.
#[derive(Clone, Copy, Debug, PartialEq, Eq, Structural)]
pub enum PeerMessage {
    Choke,
    Unchoke,
    Interested,
    NotInterested,
    Have,
    Bitfield,
    Request,
    Piece,
    Cancel,
}

/// What can go wrong on one peer connection.
#[derive(Clone, Copy, Debug, PartialEq, Eq, Structural)]
pub enum PeerError {
    HandshakeMismatch,
    FrameTruncated,
    UnexpectedMessage,
    PieceHashMismatch,
}

impl PeerMessage {
    pub open spec fn spec_id(self) -> u8 {
        match self {
            PeerMessage::Choke => 0,
            PeerMessage::Unchoke => 1,
            PeerMessage::Interested => 2,
            PeerMessage::NotInterested => 3,
            PeerMessage::Have => 4,
            PeerMessage::Bitfield => 5,
            PeerMessage::Request => 6,
            PeerMessage::Piece => 7,
            PeerMessage::Cancel => 8,
        }
    }

    /// The id byte of the message kind.
    pub fn id(&self) -> (r: u8)
        ensures
            r == self.spec_id(),
    {
        match self {
            PeerMessage::Choke => 0,
            PeerMessage::Unchoke => 1,
            PeerMessage::Interested => 2,
            PeerMessage::NotInterested => 3,
            PeerMessage::Have => 4,
            PeerMessage::Bitfield => 5,
            PeerMessage::Request => 6,
            PeerMessage::Piece => 7,
            PeerMessage::Cancel => 8,
        }
    }

    /// The message kind with the given id; ids above 8 are unknown.
    pub fn from_id(id: u8) -> (r: Option<PeerMessage>)
        ensures
            r is Some <==> id <= 8,
            r matches Some(m) ==> m.spec_id() == id,
    {
        match id {
            0 => Some(PeerMessage::Choke),
            1 => Some(PeerMessage::Unchoke),
            2 => Some(PeerMessage::Interested),
            3 => Some(PeerMessage::NotInterested),
            4 => Some(PeerMessage::Have),
            5 => Some(PeerMessage::Bitfield),
            6 => Some(PeerMessage::Request),
            7 => Some(PeerMessage::Piece),
            8 => Some(PeerMessage::Cancel),
            _ => None,
        }
    }
}

/// The four big-endian bytes of `x`.
pub open spec fn be_bytes(x: u32) -> Seq<u8> {
    seq![(x / 16777216) as u8, (x / 65536 % 256) as u8, (x / 256 % 256) as u8, (x % 256) as u8]
}

/// The number that four big-endian bytes denote.
pub open spec fn be_value(s: Seq<u8>) -> int {
    s[0] * 16777216 + s[1] * 65536 + s[2] * 256 + s[3]
}

/// The four big-endian bytes of `x`.
pub fn u32_to_be(x: u32) -> (r: [u8; 4])
    ensures
        r@ == be_bytes(x),
        be_value(r@) == x,
{
    let r = [(x / 16777216) as u8, (x / 65536 % 256) as u8, (x / 256 % 256) as u8, (x % 256) as u8];
    proof {
        assert(r@ =~= be_bytes(x));
        assert(be_value(r@) == x) by (nonlinear_arith)
            requires
                r@[0] == x / 16777216,
                r@[1] == x / 65536 % 256,
                r@[2] == x / 256 % 256,
                r@[3] == x % 256,
                x <= u32::MAX,
        ;
    }
    r
}

/// The number that the four big-endian bytes at `at` denote.
pub fn be_to_u32(b: &[u8], at: usize) -> (r: u32)
    requires
        at + 4 <= b@.len(),
    ensures
        r == be_value(b@.subrange(at as int, at + 4)),
{
    let r = (b[at] as u32) * 16777216 + (b[at + 1] as u32) * 65536 + (b[at + 2] as u32) * 256
        + (b[at + 3] as u32);
    r
}

pub open spec fn protocol_name() -> Seq<u8> {
    seq![66u8, 105u8, 116u8, 84u8, 111u8, 114u8, 114u8, 101u8, 110u8, 116u8, 32u8, 112u8, 114u8, 111u8, 116u8, 111u8, 99u8, 111u8, 108u8]
}

/// The 68-byte handshake: `19`, the protocol name, eight zero bytes, the info hash
/// and the peer id.
pub open spec fn handshake_bytes(info_hash: Seq<u8>, peer_id: Seq<u8>) -> Seq<u8> {
    seq![19u8] + protocol_name() + Seq::new(8, |i: int| 0u8) + info_hash + peer_id
}

/// Appends all of `b`.
pub fn push_all(out: &mut Vec<u8>, b: &[u8])
    ensures
        final(out)@ == old(out)@ + b@,
{
    let mut i: usize = 0;
    while i < b.len()
        invariant
            i <= b@.len(),
            out@ == old(out)@ + b@.take(i as int),
        decreases b@.len() - i,
    {
        out.push(b[i]);
        i = i + 1;
        proof {
            assert(b@.take(i as int) =~= b@.take(i - 1).push(b@[i - 1]));
        }
    }
    proof {
        assert(b@.take(i as int) =~= b@);
    }
}

/// The handshake to send to a peer.
pub fn build_handshake(info_hash: &[u8; 20], peer_id: &[u8; 20]) -> (r: Vec<u8>)
    ensures
        r@ == handshake_bytes(info_hash@, peer_id@),
        r@.len() == 68,
{
    let mut out: Vec<u8> = vec![19u8, 66u8, 105u8, 116u8, 84u8, 111u8, 114u8, 114u8, 101u8, 110u8, 116u8, 32u8, 112u8, 114u8, 111u8, 116u8, 111u8, 99u8, 111u8, 108u8, 0u8, 0u8, 0u8, 0u8, 0u8, 0u8, 0u8, 0u8];
    proof {
        assert(out@ =~= seq![19u8] + protocol_name() + Seq::new(8, |i: int| 0u8));
    }
    push_all(&mut out, info_hash.as_slice());
    push_all(&mut out, peer_id.as_slice());
    out
}

/// What a peer's handshake tells: its id and whether it supports the extension
/// protocol.
#[derive(Debug, PartialEq, Eq)]
pub struct Handshake {
    pub peer_id: Vec<u8>,
    pub extensions: bool,
}

/// Checks a peer's 68-byte handshake against the info hash that was sent.
pub fn parse_handshake(response: &[u8], info_hash: &[u8; 20]) -> (r: Result<Handshake, PeerError>)
    ensures
        response@.len() != 68 ==> r == Err::<Handshake, PeerError>(PeerError::FrameTruncated),
        response@.len() == 68 && response@.subrange(28, 48) != info_hash@ ==> r == Err::<
            Handshake,
            PeerError,
        >(PeerError::HandshakeMismatch),
        response@.len() == 68 && response@.subrange(28, 48) == info_hash@ ==> (r matches Ok(h)
            && h.peer_id@ == response@.subrange(48, 68) && h.extensions == (response@[25] & 16u8
            != 0)),
{
    if response.len() != 68 {
        return Err(PeerError::FrameTruncated);
    }
    let mut i: usize = 0;
    while i < 20
        invariant
            i <= 20,
            response@.len() == 68,
            response@.subrange(28, 28 + i as int) == info_hash@.take(i as int),
        decreases 20 - i,
    {
        if response[28 + i] != info_hash[i] {
            proof {
                assert(response@.subrange(28, 48)[i as int] != info_hash@[i as int]);
            }
            return Err(PeerError::HandshakeMismatch);
        }
        i = i + 1;
        proof {
            assert(response@.subrange(28, 28 + i as int) =~= info_hash@.take(i as int));
        }
    }
    proof {
        assert(info_hash@.take(20) =~= info_hash@);
    }
    let mut peer_id: Vec<u8> = Vec::new();
    let mut j: usize = 48;
    while j < 68
        invariant
            48 <= j <= 68,
            response@.len() == 68,
            peer_id@ == response@.subrange(48, j as int),
        decreases 68 - j,
    {
        peer_id.push(response[j]);
        j = j + 1;
        proof {
            assert(peer_id@ =~= response@.subrange(48, j as int));
        }
    }
    Ok(Handshake { peer_id, extensions: response[25] & 16u8 != 0 })
}

/// A length-prefixed message: the length of what follows, the id, the payload.
pub open spec fn frame_bytes(id: u8, payload: Seq<u8>) -> Seq<u8> {
    be_bytes((payload.len() + 1) as u32) + seq![id] + payload
}

/// Frames a message for sending.
pub fn encode_message(kind: PeerMessage, payload: &[u8]) -> (r: Vec<u8>)
    requires
        payload@.len() < u32::MAX,
    ensures
        r@ == frame_bytes(kind.spec_id(), payload@),
{
    let len = u32_to_be((payload.len() + 1) as u32);
    let mut out: Vec<u8> = Vec::new();
    push_all(&mut out, len.as_slice());
    out.push(kind.id());
    push_all(&mut out, payload);
    proof {
        assert(out@ =~= frame_bytes(kind.spec_id(), payload@));
    }
    out
}

/// A received message: its kind and its payload.
#[derive(Debug, PartialEq, Eq)]
pub struct Frame {
    pub kind: PeerMessage,
    pub payload: Vec<u8>,
}

/// Reads a frame body, the bytes that follow the length prefix: the id byte and the
/// payload. An empty body is a keepalive and reads as `None`.
pub fn parse_frame(body: &[u8]) -> (r: Result<Option<Frame>, PeerError>)
    ensures
        body@.len() == 0 ==> r == Ok::<Option<Frame>, PeerError>(None),
        body@.len() > 0 && body@[0] > 8 ==> r == Err::<Option<Frame>, PeerError>(
            PeerError::UnexpectedMessage,
        ),
        body@.len() > 0 && body@[0] <= 8 ==> (r matches Ok(Some(f)) && f.kind.spec_id() == body@[0]
            && f.payload@ == body@.subrange(1, body@.len() as int)),
{
    if body.len() == 0 {
        return Ok(None);
    }
    match PeerMessage::from_id(body[0]) {
        None => Err(PeerError::UnexpectedMessage),
        Some(kind) => {
            let mut payload: Vec<u8> = Vec::new();
            let mut j: usize = 1;
            while j < body.len()
                invariant
                    1 <= j <= body@.len(),
                    payload@ == body@.subrange(1, j as int),
                decreases body@.len() - j,
            {
                payload.push(body[j]);
                j = j + 1;
                proof {
                    assert(payload@ =~= body@.subrange(1, j as int));
                }
            }
            Ok(Some(Frame { kind, payload }))
        },
    }
}

/// The payload of a `Request` (and of a `Cancel`): index, begin, length.
pub fn request_payload(index: u32, begin: u32, length: u32) -> (r: Vec<u8>)
    ensures
        r@ == be_bytes(index) + be_bytes(begin) + be_bytes(length),
{
    let mut out: Vec<u8> = Vec::new();
    push_all(&mut out, u32_to_be(index).as_slice());
    push_all(&mut out, u32_to_be(begin).as_slice());
    push_all(&mut out, u32_to_be(length).as_slice());
    out
}

/// The parts of a `Piece` payload.
#[derive(Debug, PartialEq, Eq)]
pub struct Block {
    pub index: u32,
    pub begin: u32,
    pub data: Vec<u8>,
}

/// Splits a `Piece` payload into piece index, offset and block bytes.
pub fn parse_piece(payload: &[u8]) -> (r: Result<Block, PeerError>)
    ensures
        payload@.len() < 8 ==> r == Err::<Block, PeerError>(PeerError::FrameTruncated),
        payload@.len() >= 8 ==> (r matches Ok(b) && b.index == be_value(payload@.subrange(0, 4))
            && b.begin == be_value(payload@.subrange(4, 8)) && b.data@ == payload@.subrange(
            8,
            payload@.len() as int,
        )),
{
    if payload.len() < 8 {
        return Err(PeerError::FrameTruncated);
    }
    let index = be_to_u32(payload, 0);
    let begin = be_to_u32(payload, 4);
    let mut data: Vec<u8> = Vec::new();
    let mut j: usize = 8;
    while j < payload.len()
        invariant
            8 <= j <= payload@.len(),
            data@ == payload@.subrange(8, j as int),
        decreases payload@.len() - j,
    {
        data.push(payload[j]);
        j = j + 1;
        proof {
            assert(data@ =~= payload@.subrange(8, j as int));
        }
    }
    Ok(Block { index, begin, data })
}

/// Whether bit `i` of a bitfield is set; bits run from the most significant bit of
/// each byte.
pub open spec fn bit_set(bits: Seq<u8>, i: int) -> bool {
    0 <= i < 8 * bits.len() && (bits[i / 8] >> ((7 - i % 8) as u8)) & 1u8 == 1u8
}

/// Whether the peer has piece `i` according to its bitfield.
pub fn has_piece(bits: &[u8], i: usize) -> (r: bool)
    ensures
        r == bit_set(bits@, i as int),
{
    let byte = i / 8;
    if byte >= bits.len() {
        return false;
    }
    let shift = (7 - i % 8) as u8;
    (bits[byte] >> shift) & 1u8 == 1u8
}

} // verus!
