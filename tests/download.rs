use bittorrent_core::digest::hash_bytes;
use bittorrent_core::download::{
    Coordinator, DownloadOutcome, PeerRequest, PeerResponse, PieceDownload,
};
use bittorrent_core::metainfo::{TorrentFile, TorrentInfo};
use bittorrent_core::wire::{Block, PeerError};

fn file_bytes(n: usize) -> Vec<u8> {
    (0..n).map(|i| (i * 7 % 251) as u8).collect()
}

fn torrent_for(data: &[u8], piece_length: u32) -> TorrentFile {
    let mut pieces = Vec::new();
    for chunk in data.chunks(piece_length as usize) {
        pieces.extend_from_slice(&hash_bytes(chunk));
    }
    TorrentFile {
        announce: "http://t/announce".to_string(),
        info: TorrentInfo { length: data.len() as u32, name: "f".to_string(), piece_length, pieces },
    }
}

/// Drives one piece through the block protocol against an honest peer holding `data`.
fn fetch(data: &[u8], piece_length: u32, req: PeerRequest) -> (PeerResponse, usize) {
    let PeerRequest::DownloadPiece { piece_index, piece_length: len } = req;
    let mut d = PieceDownload::new(piece_index, len);
    let mut requests = 0;
    while let Some((begin, block_len)) = d.next_request() {
        requests += 1;
        let start = piece_index as usize * piece_length as usize + begin as usize;
        let block = data[start..start + block_len as usize].to_vec();
        d.on_block(Block { index: piece_index, begin, data: block }).unwrap();
    }
    assert!(d.is_complete());
    (PeerResponse { data: d.data, piece: piece_index }, requests)
}

#[test]
fn block_counts_at_the_boundary() {
    let data = file_bytes(16384 * 2 + 1);
    let (_, one) = fetch(&data, 16384, PeerRequest::DownloadPiece { piece_index: 0, piece_length: 16384 });
    assert_eq!(one, 1);
    let (r, two) = fetch(&data, 16385, PeerRequest::DownloadPiece { piece_index: 0, piece_length: 16385 });
    assert_eq!(two, 2);
    assert_eq!(r.data.len(), 16385);
}

#[test]
fn wrong_offset_is_rejected() {
    let mut d = PieceDownload::new(0, 20000);
    assert_eq!(d.next_request(), Some((0, 16384)));
    let bad = Block { index: 0, begin: 16, data: vec![0; 16384] };
    assert_eq!(d.on_block(bad), Err(PeerError::UnexpectedMessage));
    assert_eq!(d.data.len(), 0);
    let wrong_piece = Block { index: 1, begin: 0, data: vec![0; 16384] };
    assert_eq!(d.on_block(wrong_piece), Err(PeerError::UnexpectedMessage));
    let short = Block { index: 0, begin: 0, data: vec![0; 10] };
    assert_eq!(d.on_block(short), Err(PeerError::UnexpectedMessage));
}

fn run(c: &mut Coordinator, data: &[u8], piece_length: u32, worker: u64) -> bool {
    match c.next_piece(worker) {
        Some(req) => {
            let (resp, _) = fetch(data, piece_length, req);
            assert_eq!(c.piece_done(worker, resp), Ok(()));
            true
        }
        None => false,
    }
}

#[test]
fn single_worker_downloads_everything() {
    let data = file_bytes(70000);
    let t = torrent_for(&data, 32768);
    let mut c = Coordinator::new(&t);
    while run(&mut c, &data, 32768, 1) {}
    assert_eq!(c.outcome(1), DownloadOutcome::Complete);
    assert_eq!(c.assemble(), data);
}

#[test]
fn two_workers_out_of_order() {
    let data = file_bytes(3 * 20000 - 5);
    let t = torrent_for(&data, 20000);
    let mut c = Coordinator::new(&t);
    let a = c.next_piece(1).unwrap();
    let b = c.next_piece(2).unwrap();
    assert_eq!(a, PeerRequest::DownloadPiece { piece_index: 0, piece_length: 20000 });
    assert_eq!(b, PeerRequest::DownloadPiece { piece_index: 1, piece_length: 20000 });
    let (rb, _) = fetch(&data, 20000, b);
    assert_eq!(c.piece_done(2, rb), Ok(()));
    let cr = c.next_piece(2).unwrap();
    assert_eq!(cr, PeerRequest::DownloadPiece { piece_index: 2, piece_length: 19995 });
    let (rc, _) = fetch(&data, 20000, cr);
    assert_eq!(c.piece_done(2, rc), Ok(()));
    assert_eq!(c.outcome(2), DownloadOutcome::InProgress);
    let (ra, _) = fetch(&data, 20000, a);
    assert_eq!(c.piece_done(1, ra), Ok(()));
    assert!(c.is_complete());
    let out = c.assemble();
    assert_eq!(out.len(), data.len());
    assert_eq!(out, data);
    assert_eq!(c.next_piece(1), None);
}

#[test]
fn failed_worker_piece_goes_to_another() {
    let data = file_bytes(3 * 16384);
    let t = torrent_for(&data, 16384);
    let mut c = Coordinator::new(&t);
    let first = c.next_piece(1).unwrap();
    // The peer of worker 1 answers with the wrong offset: the worker gives up.
    let PeerRequest::DownloadPiece { piece_index, piece_length } = first;
    let mut d = PieceDownload::new(piece_index, piece_length);
    let bad = Block { index: piece_index, begin: 8, data: vec![0; 16384] };
    assert_eq!(d.on_block(bad), Err(PeerError::UnexpectedMessage));
    c.release_worker(1);
    while run(&mut c, &data, 16384, 2) {}
    assert!(c.is_complete());
    assert_eq!(c.assemble(), data);
}

#[test]
fn corrupt_piece_is_requeued() {
    let data = file_bytes(40000);
    let t = torrent_for(&data, 32768);
    let mut c = Coordinator::new(&t);
    let req = c.next_piece(1).unwrap();
    let (mut resp, _) = fetch(&data, 32768, req);
    resp.data[0] ^= 1;
    assert_eq!(c.piece_done(1, resp), Err(PeerError::PieceHashMismatch));
    assert_eq!(c.next_piece(2), Some(req));
}

#[test]
fn no_workers_left_is_insufficient() {
    let data = file_bytes(100);
    let t = torrent_for(&data, 64);
    let mut c = Coordinator::new(&t);
    let _ = c.next_piece(1);
    c.release_worker(1);
    assert_eq!(c.outcome(0), DownloadOutcome::InsufficientPeers);
}
