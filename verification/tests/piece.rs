use bittorrent_starter_rust::network::{
    block_requests, PeerMessage, PieceDownload, PieceError, BLOCK_SIZE,
};

fn unhex(text: &str) -> [u8; 20] {
    let digits: Vec<u8> = text
        .bytes()
        .map(|b| match b {
            b'0'..=b'9' => b - b'0',
            b'a'..=b'f' => b - b'a' + 10,
            other => panic!("not a hex digit: {}", other),
        })
        .collect();
    let bytes: Vec<u8> = digits.chunks(2).map(|pair| pair[0] * 16 + pair[1]).collect();
    let mut out = [0u8; 20];
    out.copy_from_slice(&bytes);
    out
}

fn request(index: u32, begin: u32, length: u32) -> PeerMessage {
    PeerMessage::Request { index, begin, length }
}

fn block(index: u32, begin: u32, data: &[u8]) -> PeerMessage {
    PeerMessage::Piece { index, begin, block: data.to_vec() }
}

#[test]
fn two_requests_for_a_piece_of_32_kib() {
    assert_eq!(BLOCK_SIZE, 16384);
    assert_eq!(
        block_requests(0, 32768),
        vec![request(0, 0, 16384), request(0, 16384, 16384)]
    );
    let download = PieceDownload::new(5, 32768);
    assert_eq!(
        download.requests(),
        vec![request(5, 0, 16384), request(5, 16384, 16384)]
    );
    let frames: Vec<Vec<u8>> = download
        .requests()
        .iter()
        .map(|r| r.to_bytes().unwrap())
        .collect();
    assert_eq!(
        frames,
        vec![
            vec![0, 0, 0, 13, 6, 0, 0, 0, 5, 0, 0, 0, 0, 0, 0, 0x40, 0],
            vec![0, 0, 0, 13, 6, 0, 0, 0, 5, 0, 0, 0x40, 0, 0, 0, 0x40, 0],
        ]
    );
}

#[test]
fn the_last_block_may_be_short() {
    assert_eq!(block_requests(1, 0), vec![]);
    assert_eq!(block_requests(1, 1), vec![request(1, 0, 1)]);
    assert_eq!(block_requests(1, 16383), vec![request(1, 0, 16383)]);
    assert_eq!(block_requests(1, 16384), vec![request(1, 0, 16384)]);
    assert_eq!(
        block_requests(1, 16385),
        vec![request(1, 0, 16384), request(1, 16384, 1)]
    );
    assert_eq!(
        block_requests(2, 26527),
        vec![request(2, 0, 16384), request(2, 16384, 10143)]
    );
    assert_eq!(
        block_requests(9, 40000),
        vec![
            request(9, 0, 16384),
            request(9, 16384, 16384),
            request(9, 32768, 7232)
        ]
    );
}

#[test]
fn requests_cover_the_largest_piece() {
    let requests = block_requests(0, u32::MAX);
    assert_eq!(requests.len(), 262144);
    assert_eq!(requests[262143], request(0, 262143 * 16384, 16383));
    let total: u64 = requests
        .iter()
        .map(|r| match r {
            PeerMessage::Request { length, .. } => *length as u64,
            other => panic!("not a request: {:?}", other),
        })
        .sum();
    assert_eq!(total, u32::MAX as u64);
}

fn piece_of_32_kib() -> Vec<u8> {
    (0..32768u32).map(|i| ((i * 7 + 3) % 256) as u8).collect()
}

#[test]
fn piece_of_32_kib_is_put_together_and_verified() {
    let data = piece_of_32_kib();
    let expected = unhex("e80f067483da32ce898e48bf91d89bbd6cce68d1");
    let mut download = PieceDownload::new(0, 32768);
    assert_eq!(download.index(), 0);
    assert_eq!(download.size(), 32768);
    assert!(!download.is_complete());
    assert_eq!(download.receive(&block(0, 0, &data[..16384])), Ok(false));
    assert_eq!(download.receive(&block(0, 16384, &data[16384..])), Ok(true));
    assert!(download.is_complete());
    assert_eq!(download.finish(&expected), Ok(data));
}

#[test]
fn blocks_may_arrive_in_any_order() {
    let data: Vec<u8> = (0..40000u32).map(|i| ((i * 5 + 1) % 256) as u8).collect();
    let expected = unhex("33a02d5fb5a71d1ba0330b7047a9b4e3ed516dc6");
    let mut download = PieceDownload::new(3, 40000);
    assert_eq!(download.receive(&block(3, 32768, &data[32768..])), Ok(false));
    assert_eq!(download.receive(&PeerMessage::KeepAlive), Ok(false));
    assert_eq!(download.receive(&block(3, 0, &data[..16384])), Ok(false));
    // the same block once more changes nothing
    assert_eq!(download.receive(&block(3, 0, &data[..16384])), Ok(false));
    assert_eq!(
        download.receive(&block(3, 16384, &data[16384..32768])),
        Ok(true)
    );
    assert_eq!(download.receive(&PeerMessage::KeepAlive), Ok(true));
    assert_eq!(download.finish(&expected), Ok(data));
}

#[test]
fn hash_mismatch_drops_the_piece() {
    let mut data = piece_of_32_kib();
    data[12345] ^= 1;
    let expected = unhex("e80f067483da32ce898e48bf91d89bbd6cce68d1");
    let mut download = PieceDownload::new(0, 32768);
    download.receive(&block(0, 16384, &data[16384..])).unwrap();
    download.receive(&block(0, 0, &data[..16384])).unwrap();
    assert_eq!(download.finish(&expected), Err(PieceError::HashMismatch));
}

#[test]
fn an_incomplete_piece_cannot_be_finished() {
    let data = piece_of_32_kib();
    let expected = unhex("e80f067483da32ce898e48bf91d89bbd6cce68d1");
    let mut download = PieceDownload::new(0, 32768);
    download.receive(&block(0, 0, &data[..16384])).unwrap();
    assert_eq!(download.finish(&expected), Err(PieceError::Incomplete));
}

#[test]
fn an_empty_piece_is_complete_at_once() {
    let download = PieceDownload::new(0, 0);
    assert!(download.is_complete());
    assert_eq!(
        download.finish(&unhex("da39a3ee5e6b4b0d3255bfef95601890afd80709")),
        Ok(vec![])
    );
}

#[test]
fn choke_ends_the_download() {
    let data = piece_of_32_kib();
    let mut download = PieceDownload::new(0, 32768);
    download.receive(&block(0, 0, &data[..16384])).unwrap();
    assert_eq!(
        download.receive(&PeerMessage::Choke),
        Err(PieceError::ChokedMidPiece)
    );
    // the download is as it was
    assert_eq!(download.receive(&block(0, 16384, &data[16384..])), Ok(true));
}

#[test]
fn other_messages_are_protocol_errors() {
    let mut download = PieceDownload::new(0, 32768);
    for message in [
        PeerMessage::Unchoke,
        PeerMessage::Interested,
        PeerMessage::NotInterested,
        PeerMessage::Have { index: 0 },
        PeerMessage::Bitfield(vec![0xff]),
        request(0, 0, 16384),
        PeerMessage::Cancel { index: 0, begin: 0, length: 16384 },
    ] {
        assert_eq!(
            download.receive(&message),
            Err(PieceError::UnexpectedMessage),
            "{:?}",
            message
        );
    }
}

#[test]
fn blocks_that_were_not_asked_for() {
    let mut download = PieceDownload::new(4, 40000);
    let full = vec![1u8; 16384];
    // another piece
    assert_eq!(
        download.receive(&block(5, 0, &full)),
        Err(PieceError::UnexpectedBlock)
    );
    // not at the start of a block
    assert_eq!(
        download.receive(&block(4, 1, &full)),
        Err(PieceError::UnexpectedBlock)
    );
    // past the end of the piece
    assert_eq!(
        download.receive(&block(4, 49152, &full)),
        Err(PieceError::UnexpectedBlock)
    );
    // too short, too long
    assert_eq!(
        download.receive(&block(4, 0, &full[..16383])),
        Err(PieceError::UnexpectedBlock)
    );
    assert_eq!(
        download.receive(&block(4, 32768, &full)),
        Err(PieceError::UnexpectedBlock)
    );
    assert_eq!(
        download.receive(&block(4, 32768, &full[..7231])),
        Err(PieceError::UnexpectedBlock)
    );
    assert_eq!(download.receive(&block(4, 32768, &full[..7232])), Ok(false));
}
