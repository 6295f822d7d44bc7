use vstd::prelude::*;
use crate::wire::{bit_set, be_value, be_to_u32, has_piece, Block, Frame, PeerError, PeerMessage};

verus! {

/// The logical state of one peer connection.
#[derive(Clone, Copy, Debug, PartialEq, Eq, Structural)]
pub enum ConnState {
    Connecting,
    Handshaken,
    BitfieldReceived,
    Interested,
    Unchoked,
    Closed,
}

/// The state that follows `s` when a message of kind `kind` arrives.
pub open spec fn next_state(s: ConnState, kind: PeerMessage) -> ConnState {
    match kind {
        PeerMessage::Bitfield => if s == ConnState::Handshaken {
            ConnState::BitfieldReceived
        } else {
            s
        },
        PeerMessage::Unchoke => if s == ConnState::Interested {
            ConnState::Unchoked
        } else {
            s
        },
        PeerMessage::Choke => if s == ConnState::Unchoked {
            ConnState::Interested
        } else {
            s
        },
        _ => s,
    }
}

/// One peer connection's state and which pieces the peer has said it holds.
pub struct PeerSession {
    pub state: ConnState,
    pub has: Vec<bool>,
}

/// The pieces held after a `Have` of piece `i`.
pub open spec fn after_have(has: Seq<bool>, i: int) -> Seq<bool> {
    has.update(i, true)
}

/// The pieces held according to a bitfield.
pub open spec fn from_bitfield(n: nat, bits: Seq<u8>) -> Seq<bool> {
    Seq::new(n, |j: int| bit_set(bits, j))
}

impl PeerSession {
    /// A connection that is being opened to a peer of a torrent with `piece_count` pieces.
    pub fn new(piece_count: usize) -> (r: PeerSession)
        ensures
            r.state == ConnState::Connecting,
            r.has@ == Seq::new(piece_count as nat, |j: int| false),
    {
        let mut has: Vec<bool> = Vec::new();
        let mut i: usize = 0;
        while i < piece_count
            invariant
                i <= piece_count,
                has@ == Seq::new(i as nat, |j: int| false),
            decreases piece_count - i,
        {
            has.push(false);
            i = i + 1;
            proof {
                assert(has@ =~= Seq::new(i as nat, |j: int| false));
            }
        }
        PeerSession { state: ConnState::Connecting, has }
    }

    /// Records the outcome of the handshake.
    pub fn on_handshake(&mut self, ok: bool)
        ensures
            final(self).has == old(self).has,
            final(self).state == if ok && old(self).state == ConnState::Connecting {
                ConnState::Handshaken
            } else {
                ConnState::Closed
            },
    {
        if ok && self.state == ConnState::Connecting {
            self.state = ConnState::Handshaken;
        } else {
            self.state = ConnState::Closed;
        }
    }

    /// Records that `Interested` was sent after the bitfield arrived.
    pub fn on_interested_sent(&mut self)
        ensures
            final(self).has == old(self).has,
            final(self).state == if old(self).state == ConnState::BitfieldReceived {
                ConnState::Interested
            } else {
                old(self).state
            },
    {
        if self.state == ConnState::BitfieldReceived {
            self.state = ConnState::Interested;
        }
    }

    /// Closes the connection; closing twice changes nothing.
    pub fn close(&mut self)
        ensures
            final(self).has == old(self).has,
            final(self).state == ConnState::Closed,
    {
        self.state = ConnState::Closed;
    }

    /// Whether requests may be sent.
    pub fn can_request(&self) -> (r: bool)
        ensures
            r == (self.state == ConnState::Unchoked),
    {
        self.state == ConnState::Unchoked
    }

    /// Takes in one frame that arrived while waiting for a message of kind `awaited`.
    /// A frame of that kind hands its payload back. `Choke`, `Unchoke`, `Have` and
    /// `Bitfield` update the state; other kinds are dropped. A `Have` whose payload is
    /// not one index of a piece of the torrent closes the connection.
    pub fn absorb(&mut self, awaited: PeerMessage, frame: Frame) -> (r: Result<Option<Vec<u8>>, PeerError>)
        ensures
            frame.kind == PeerMessage::Have && (frame.payload@.len() != 4 || be_value(frame.payload@)
                >= old(self).has@.len()) ==> r == Err::<Option<Vec<u8>>, PeerError>(
                PeerError::UnexpectedMessage,
            ) && final(self).state == ConnState::Closed && final(self).has == old(self).has,
            frame.kind == PeerMessage::Have && frame.payload@.len() == 4 && be_value(frame.payload@)
                < old(self).has@.len() ==> final(self).has@ == after_have(
                old(self).has@,
                be_value(frame.payload@),
            ) && final(self).state == old(self).state,
            frame.kind == PeerMessage::Bitfield ==> final(self).has@ == from_bitfield(
                old(self).has@.len(),
                frame.payload@,
            ) && final(self).state == next_state(old(self).state, frame.kind),
            frame.kind != PeerMessage::Have && frame.kind != PeerMessage::Bitfield ==> final(self).has
                == old(self).has && final(self).state == next_state(old(self).state, frame.kind),
            r is Ok ==> (frame.kind == awaited <==> r == Ok::<Option<Vec<u8>>, PeerError>(
                Some(frame.payload),
            )),
            r is Ok && frame.kind != awaited ==> r == Ok::<Option<Vec<u8>>, PeerError>(None),
    {
        let kind = frame.kind;
        match kind {
            PeerMessage::Have => {
                if frame.payload.len() != 4 {
                    self.state = ConnState::Closed;
                    return Err(PeerError::UnexpectedMessage);
                }
                let i = be_to_u32(frame.payload.as_slice(), 0);
                proof {
                    assert(frame.payload@.subrange(0, 4) =~= frame.payload@);
                }
                if i as usize >= self.has.len() {
                    self.state = ConnState::Closed;
                    return Err(PeerError::UnexpectedMessage);
                }
                self.has.set(i as usize, true);
            },
            PeerMessage::Bitfield => {
                let n = self.has.len();
                let mut has: Vec<bool> = Vec::new();
                let mut j: usize = 0;
                while j < n
                    invariant
                        j <= n,
                        has@ == Seq::new(j as nat, |k: int| bit_set(frame.payload@, k)),
                    decreases n - j,
                {
                    let bit = has_piece(frame.payload.as_slice(), j);
                    has.push(bit);
                    j = j + 1;
                    proof {
                        assert(has@ =~= Seq::new(j as nat, |k: int| bit_set(frame.payload@, k)));
                    }
                }
                self.has = has;
                if self.state == ConnState::Handshaken {
                    self.state = ConnState::BitfieldReceived;
                }
            },
            PeerMessage::Unchoke => {
                if self.state == ConnState::Interested {
                    self.state = ConnState::Unchoked;
                }
            },
            PeerMessage::Choke => {
                if self.state == ConnState::Unchoked {
                    self.state = ConnState::Interested;
                }
            },
            _ => {},
        }
        if kind == awaited {
            Ok(Some(frame.payload))
        } else {
            Ok(None)
        }
    }
}

} // verus!
