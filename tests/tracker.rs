use bittorrent_core::bencode::DecodeError;
use bittorrent_core::magnet::{decode_magnet_link, MagnetError};
use bittorrent_core::tracker::{
    build_announce_query, parse_compact_peers, parse_tracker_response, PeerAddr, TrackerError,
    TrackerResponse,
};

#[test]
fn tracker_response_parsing() {
    let body = b"d8:intervali1800e5:peers12:\x7f\x00\x00\x01\x1a\xe1\x0a\x00\x00\x02\x00\x50e";
    let r = parse_tracker_response(body).unwrap();
    assert_eq!(r.interval, 1800);
    let peers = parse_compact_peers(&r.peers).unwrap();
    assert_eq!(
        peers,
        vec![
            PeerAddr { ip: [127, 0, 0, 1], port: 6881 },
            PeerAddr { ip: [10, 0, 0, 2], port: 80 }
        ]
    );
    assert_eq!(peers[0].formatted(), "127.0.0.1:6881");
    assert_eq!(peers[1].formatted(), "10.0.0.2:80");
}

#[test]
fn tracker_errors() {
    assert_eq!(parse_compact_peers(&[1, 2, 3, 4, 5]), Err(TrackerError::Protocol));
    assert_eq!(parse_tracker_response(b"d5:peers0:e"), Err(TrackerError::Protocol));
    assert_eq!(
        parse_tracker_response(b"d8:intervali1e"),
        Err(TrackerError::Bencode(DecodeError::UnexpectedEnd))
    );
    assert_eq!(
        parse_tracker_response(b"d8:intervali5e5:peers0:e"),
        Ok(TrackerResponse { interval: 5, peers: Vec::new() })
    );
}

#[test]
fn announce_query_text() {
    let q = build_announce_query(&[0xab; 20], b"-TR2940-5f2b3b3b3b3b", 6881, 92063);
    let hash = "%ab".repeat(20);
    let id = "%2d%54%52%32%39%34%30%2d%35%66%32%62%33%62%33%62%33%62%33%62";
    assert_eq!(
        q,
        format!("info_hash={}&peer_id={}&port=6881&uploaded=0&downloaded=0&left=92063&compact=1", hash, id)
    );
}

#[test]
fn magnet_link_parsing() {
    let link = "magnet:?xt=urn:btih:ad42ce8109f54c99613ce38f9b4d87e70f24a165&dn=magnet1.gif&tr=http%3A%2F%2Fbittorrent-test-tracker.codecrafters.io%2Fannounce";
    let (tracker, hash) = decode_magnet_link(link).unwrap();
    assert_eq!(tracker, "http://bittorrent-test-tracker.codecrafters.io/announce");
    assert_eq!(hash, "ad42ce8109f54c99613ce38f9b4d87e70f24a165");
}

#[test]
fn magnet_link_order_and_errors() {
    let link = "magnet:?tr=plain&x=1&xt=urn:btih:AD42CE8109F54C99613CE38F9B4D87E70F24A165";
    assert_eq!(
        decode_magnet_link(link),
        Ok(("plain".to_string(), "AD42CE8109F54C99613CE38F9B4D87E70F24A165".to_string()))
    );
    assert_eq!(decode_magnet_link("http://x"), Err(MagnetError::Malformed));
    assert_eq!(decode_magnet_link("magnet:?xt=urn:btih:ad42&tr=x"), Err(MagnetError::Malformed));
    assert_eq!(
        decode_magnet_link("magnet:?xt=urn:btih:ad42ce8109f54c99613ce38f9b4d87e70f24a165"),
        Err(MagnetError::Malformed)
    );
    assert_eq!(
        decode_magnet_link("magnet:?xt=urn:btih:zd42ce8109f54c99613ce38f9b4d87e70f24a165&tr=x"),
        Err(MagnetError::Malformed)
    );
}
