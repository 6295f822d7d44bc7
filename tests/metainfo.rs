use bittorrent_core::bencode::{decode, encode, DecodeError};
use bittorrent_core::digest::{
    bytes_to_hex, bytes_to_hex_url_encoded, hash_bytes, hash_bytes_and_hex, percent_encode_bytes,
};
use bittorrent_core::metainfo::{count_pieces, MetainfoError, Parser, TorrentFile, TorrentInfo};

fn sample(length: u32, piece_length: u32) -> TorrentFile {
    let n = count_pieces(length, piece_length) as usize;
    let mut pieces = Vec::new();
    for i in 0..n {
        pieces.extend_from_slice(&[i as u8; 20]);
    }
    TorrentFile {
        announce: "http://tracker.example/announce".to_string(),
        info: TorrentInfo { length, name: "sample.bin".to_string(), piece_length, pieces },
    }
}

#[test]
fn test_torrent_file_ser_deser() {
    let torrent_file = TorrentFile::default();

    let serialized_tf = torrent_file.to_bytes();
    let deserialized_tf = Parser::parse_torrent_file(&serialized_tf).unwrap();

    assert_eq!(torrent_file, deserialized_tf);
}

#[test]
fn round_trip_of_a_full_torrent() {
    let t = sample(92063, 32768);
    let parsed = Parser::parse_torrent_file(&t.to_bytes()).unwrap();
    assert_eq!(parsed, t);
}

#[test]
fn info_prints_piece_table() {
    let t = sample(92063, 32768);
    let table = t.piece_and_length();
    assert_eq!(t.info.piece_length, 32768);
    assert_eq!(table, vec![(0, 32768), (1, 32768), (2, 26527)]);
    let hashes: Vec<String> = (0..3).map(|i| bytes_to_hex(&t.piece_hash(i))).collect();
    assert_eq!(hashes.len(), 3);
    assert_eq!(hashes[2], "02".repeat(20));
}

#[test]
fn piece_lengths_add_up() {
    for (length, piece_length) in [(92063u32, 32768u32), (32768, 32768), (1, 16384), (0, 0), (100, 7)] {
        let t = sample(length, piece_length);
        let total: u64 = t.piece_and_length().iter().map(|p| p.1 as u64).sum();
        assert_eq!(total, length as u64);
    }
}

#[test]
fn last_piece_is_the_remainder() {
    let pl = 1000u32;
    for r in [1u32, pl - 1] {
        let t = sample(pl * 3 + r, pl);
        let table = t.piece_and_length();
        assert_eq!(table.len(), 4);
        assert_eq!(table[3], (3, r));
        assert!(table[3].1 < pl);
        assert_eq!(t.piece_length_at(3), Some(r));
        assert_eq!(t.piece_length_at(4), None);
    }
}

#[test]
fn piece_hashes_are_twenty_bytes() {
    let t = sample(92063, 32768);
    for i in 0..3 {
        let h = t.piece_hash(i);
        assert_eq!(h.len(), 20);
        assert_eq!(h, vec![i as u8; 20]);
    }
}

#[test]
fn parse_rejects_bad_inputs() {
    assert_eq!(
        Parser::parse_torrent_file(b"i1"),
        Err(MetainfoError::Bencode(DecodeError::UnexpectedEnd))
    );
    assert_eq!(Parser::parse_torrent_file(b"de"), Err(MetainfoError::Malformed));
    let mut t = sample(92063, 32768);
    t.info.pieces.pop();
    assert_eq!(Parser::parse_torrent_file(&t.to_bytes()), Err(MetainfoError::Malformed));
    let mut z = sample(0, 0);
    z.info.length = 5;
    assert_eq!(Parser::parse_torrent_file(&z.to_bytes()), Err(MetainfoError::Malformed));
}

#[test]
fn sha1_of_known_input() {
    assert_eq!(hash_bytes_and_hex(b"abc"), "a9993e364706816aba3e25717850c26c9cd0d89d");
    assert_eq!(hash_bytes(b"abc").len(), 20);
    assert_eq!(
        bytes_to_hex_url_encoded(b"abc"),
        "%a9%99%3e%36%47%06%81%6a%ba%3e%25%71%78%50%c2%6c%9c%d0%d8%9d"
    );
}

#[test]
fn hex_renderings() {
    assert_eq!(bytes_to_hex(&[0x00, 0xab, 0xff, 0x10]), "00abff10");
    assert_eq!(percent_encode_bytes(&[0x12, 0xfe]), "%12%fe");
    assert_eq!(bytes_to_hex(&[]), "");
}

#[test]
fn info_hash_is_sha1_of_canonical_info() {
    let t = sample(92063, 32768);
    let text = encode(&t.info.to_value());
    assert_eq!(t.info_hash(), hash_bytes(&text));
    assert!(text.starts_with(b"d6:lengthi92063e4:name10:sample.bin12:piece lengthi32768e6:pieces60:"));
    assert_eq!(decode(&text).unwrap(), t.info.to_value());
}

#[test]
fn info_hash_covers_every_info_key() {
    let text = b"d8:announce3:url4:infod6:lengthi3e4:name1:x12:piece lengthi4e6:pieces20:aaaaaaaaaaaaaaaaaaaa7:privatei1eee";
    let t = Parser::parse_torrent_file(text).unwrap();
    let whole = Parser::info_hash_of(text).unwrap();
    let info_text: &[u8] = b"d6:lengthi3e4:name1:x12:piece lengthi4e6:pieces20:aaaaaaaaaaaaaaaaaaaa7:privatei1ee";
    assert_eq!(whole, hash_bytes(info_text));
    assert_ne!(whole, t.info_hash());
    assert_eq!(Parser::info_hash_of(b"d8:announce3:urle"), Err(MetainfoError::Malformed));
}
