use bittorrent_core::digest::bytes_to_hex;
use bittorrent_core::session::{ConnState, PeerSession};
use bittorrent_core::wire::{
    build_handshake, encode_message, has_piece, parse_frame, parse_handshake, parse_piece,
    request_payload, u32_to_be, Block, Frame, PeerError, PeerMessage,
};

fn peer_reply(info_hash: &[u8; 20], peer_id: &[u8; 20], reserved5: u8) -> Vec<u8> {
    let mut r = build_handshake(info_hash, peer_id);
    r[25] = reserved5;
    r
}

#[test]
fn handshake_layout() {
    let info_hash = [7u8; 20];
    let h = build_handshake(&info_hash, b"00112233445566778899");
    assert_eq!(h.len(), 68);
    assert_eq!(h[0], 19);
    assert_eq!(&h[1..20], b"BitTorrent protocol");
    assert_eq!(&h[20..28], &[0u8; 8]);
    assert_eq!(&h[28..48], &info_hash);
    assert_eq!(&h[48..68], b"00112233445566778899");
}

#[test]
fn handshake_with_well_behaved_peer() {
    let info_hash = [9u8; 20];
    let remote = *b"-XX0001-abcdefghijkl";
    let reply = peer_reply(&info_hash, &remote, 0x10);
    let hs = parse_handshake(&reply, &info_hash).unwrap();
    assert_eq!(hs.peer_id, remote.to_vec());
    assert!(hs.extensions);
    let hex = bytes_to_hex(&hs.peer_id);
    assert_eq!(hex.len(), 40);
    assert_eq!(hex, "2d5858303030312d6162636465666768696a6b6c");
}

#[test]
fn handshake_rejects_other_torrent() {
    let reply = peer_reply(&[1u8; 20], b"00112233445566778899", 0);
    assert_eq!(parse_handshake(&reply, &[2u8; 20]), Err(PeerError::HandshakeMismatch));
    assert_eq!(parse_handshake(&reply[..67], &[1u8; 20]), Err(PeerError::FrameTruncated));
    assert!(!parse_handshake(&reply, &[1u8; 20]).unwrap().extensions);
}

#[test]
fn message_framing() {
    assert_eq!(encode_message(PeerMessage::Interested, &[]), vec![0, 0, 0, 1, 2]);
    let req = request_payload(1, 16384, 16384);
    assert_eq!(req, vec![0, 0, 0, 1, 0, 0, 64, 0, 0, 0, 64, 0]);
    let framed = encode_message(PeerMessage::Request, &req);
    assert_eq!(&framed[..5], &[0, 0, 0, 13, 6]);
    assert_eq!(u32_to_be(0x01020304), [1, 2, 3, 4]);
}

#[test]
fn frame_parsing() {
    assert_eq!(parse_frame(&[]), Ok(None));
    assert_eq!(parse_frame(&[9]), Err(PeerError::UnexpectedMessage));
    assert_eq!(
        parse_frame(&[7, 1, 2]),
        Ok(Some(Frame { kind: PeerMessage::Piece, payload: vec![1, 2] }))
    );
    assert_eq!(PeerMessage::from_id(5), Some(PeerMessage::Bitfield));
    assert_eq!(PeerMessage::Cancel.id(), 8);
}

#[test]
fn piece_payload_parsing() {
    let p = parse_piece(&[0, 0, 0, 2, 0, 0, 64, 0, 9, 8]).unwrap();
    assert_eq!(p, Block { index: 2, begin: 16384, data: vec![9, 8] });
    assert_eq!(parse_piece(&[0, 0, 0]), Err(PeerError::FrameTruncated));
}

#[test]
fn bitfield_bits_are_msb_first() {
    let bits = [0b1000_0001u8, 0b0100_0000];
    assert!(has_piece(&bits, 0));
    assert!(!has_piece(&bits, 1));
    assert!(has_piece(&bits, 7));
    assert!(has_piece(&bits, 9));
    assert!(!has_piece(&bits, 16));
}

fn frame(kind: PeerMessage, payload: Vec<u8>) -> Frame {
    Frame { kind, payload }
}

#[test]
fn session_reaches_unchoked() {
    let mut s = PeerSession::new(10);
    assert_eq!(s.state, ConnState::Connecting);
    s.on_handshake(true);
    assert_eq!(s.state, ConnState::Handshaken);
    let got = s.absorb(PeerMessage::Bitfield, frame(PeerMessage::Bitfield, vec![0b1010_0000, 0b0100_0000]));
    assert_eq!(got, Ok(Some(vec![0b1010_0000, 0b0100_0000])));
    assert_eq!(s.state, ConnState::BitfieldReceived);
    assert!(s.has[0] && !s.has[1] && s.has[2] && s.has[9]);
    s.on_interested_sent();
    assert_eq!(s.state, ConnState::Interested);
    assert_eq!(s.absorb(PeerMessage::Unchoke, frame(PeerMessage::Unchoke, vec![])), Ok(Some(vec![])));
    assert!(s.can_request());
    assert_eq!(s.absorb(PeerMessage::Piece, frame(PeerMessage::Choke, vec![])), Ok(None));
    assert_eq!(s.state, ConnState::Interested);
}

#[test]
fn session_absorbs_have_before_bitfield() {
    let mut s = PeerSession::new(4);
    s.on_handshake(true);
    assert_eq!(s.absorb(PeerMessage::Bitfield, frame(PeerMessage::Have, vec![0, 0, 0, 3])), Ok(None));
    assert_eq!(s.has, vec![false, false, false, true]);
    assert_eq!(s.state, ConnState::Handshaken);
    assert_eq!(
        s.absorb(PeerMessage::Bitfield, frame(PeerMessage::Have, vec![0, 0, 0, 4])),
        Err(PeerError::UnexpectedMessage)
    );
    assert_eq!(s.state, ConnState::Closed);
    s.close();
    s.close();
    assert_eq!(s.state, ConnState::Closed);
}

#[test]
fn failed_handshake_closes() {
    let mut s = PeerSession::new(1);
    s.on_handshake(false);
    assert_eq!(s.state, ConnState::Closed);
}
