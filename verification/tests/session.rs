use bittorrent_starter_rust::network::{
    FramingError, HandshakeError, PeerHandshake, PeerMessage, PeerState, PeerStream, PieceError,
    SessionError, PEER_ID,
};

fn info_hash() -> [u8; 20] {
    [
        0xd6, 0x9f, 0x91, 0xe6, 0xb2, 0xae, 0x4c, 0x54, 0x24, 0x68, 0xd1, 0x07, 0x3a, 0x71, 0xd4,
        0xea, 0x13, 0x87, 0x9a, 0x7f,
    ]
}

fn reply() -> Vec<u8> {
    PeerHandshake::new(info_hash().to_vec(), b"-XX0000-abcdefghijkl".to_vec()).to_bytes()
}

fn unchoked() -> PeerStream {
    let mut session = PeerStream::new();
    session.handshake(&info_hash(), &reply()).unwrap();
    session.read_bitfield(&[0, 0, 0, 2, 5, 0xe0]).unwrap();
    session.write_interested().unwrap();
    session.read_unchoke(&[0, 0, 0, 1, 1]).unwrap();
    session
}

#[test]
fn session_walks_through_its_states() {
    let mut session = PeerStream::new();
    assert_eq!(session.state(), PeerState::Init);
    assert_eq!(session.bitfield(), &Vec::<u8>::new());

    let ours = session.handshake_request(&info_hash()).unwrap();
    assert_eq!(ours.len(), 68);
    assert_eq!(
        PeerHandshake::from_bytes(&ours),
        Ok(PeerHandshake::new(
            info_hash().to_vec(),
            PEER_ID.as_bytes().to_vec()
        ))
    );
    let theirs = session.handshake(&info_hash(), &reply()).unwrap();
    assert_eq!(theirs.peer_id, b"-XX0000-abcdefghijkl");
    assert_eq!(session.state(), PeerState::Handshake);

    assert_eq!(
        session.read_bitfield(&[0, 0, 0, 2, 5, 0xe0]),
        Ok(PeerMessage::Bitfield(vec![0xe0]))
    );
    assert_eq!(session.state(), PeerState::Bitfield);
    assert_eq!(session.bitfield(), &vec![0xe0]);

    assert_eq!(session.write_interested(), Ok(vec![0, 0, 0, 1, 2]));
    assert_eq!(session.state(), PeerState::Interested);

    assert_eq!(session.read_unchoke(&[0, 0, 0, 0]), Ok(PeerMessage::KeepAlive));
    assert_eq!(session.state(), PeerState::Interested);
    assert_eq!(session.read_unchoke(&[0, 0, 0, 1, 1]), Ok(PeerMessage::Unchoke));
    assert_eq!(session.state(), PeerState::Unchoke);
    assert_eq!(session.bitfield(), &vec![0xe0]);

    assert!(!session.is_downloading());
    let requests = session.download_piece(2, 26527).unwrap();
    assert!(session.is_downloading());
    assert_eq!(session.state(), PeerState::Unchoke);
    assert_eq!(
        requests,
        vec![
            PeerMessage::Request { index: 2, begin: 0, length: 16384 },
            PeerMessage::Request { index: 2, begin: 16384, length: 10143 },
        ]
    );
    let frames: Vec<Vec<u8>> = requests.iter().map(|r| session.write(r).unwrap()).collect();
    assert_eq!(
        frames,
        vec![
            vec![0, 0, 0, 13, 6, 0, 0, 0, 2, 0, 0, 0, 0, 0, 0, 0x40, 0],
            vec![0, 0, 0, 13, 6, 0, 0, 0, 2, 0, 0, 0x40, 0, 0, 0, 0x27, 0x9f],
        ]
    );
}

fn unhex(text: &str) -> [u8; 20] {
    let digits: Vec<u8> = text
        .bytes()
        .map(|b| match b {
            b'0'..=b'9' => b - b'0',
            b'a'..=b'f' => b - b'a' + 10,
            other => panic!("not a hex digit: {}", other),
        })
        .collect();
    let bytes: Vec<u8> = digits.chunks(2).map(|pair| pair[0] * 16 + pair[1]).collect();
    let mut out = [0u8; 20];
    out.copy_from_slice(&bytes);
    out
}

fn piece_frame(index: u32, begin: u32, block: &[u8]) -> Vec<u8> {
    PeerMessage::Piece { index, begin, block: block.to_vec() }
        .to_bytes()
        .unwrap()
}

#[test]
fn a_piece_is_downloaded_through_the_session() {
    let data: Vec<u8> = (0..32768u32).map(|i| ((i * 7 + 3) % 256) as u8).collect();
    let expected = unhex("e80f067483da32ce898e48bf91d89bbd6cce68d1");
    let mut session = unchoked();
    let requests = session.download_piece(0, 32768).unwrap();
    assert_eq!(
        requests,
        vec![
            PeerMessage::Request { index: 0, begin: 0, length: 16384 },
            PeerMessage::Request { index: 0, begin: 16384, length: 16384 },
        ]
    );
    // the second block first, and a keep-alive in between
    assert_eq!(
        session.receive_block(&piece_frame(0, 16384, &data[16384..])),
        Ok(false)
    );
    assert_eq!(session.receive_block(&[0, 0, 0, 0]), Ok(false));
    assert_eq!(
        session.receive_block(&piece_frame(0, 0, &data[..16384])),
        Ok(true)
    );
    assert_eq!(session.finish_piece(&expected), Ok(data));
    assert!(!session.is_downloading());
    assert_eq!(session.state(), PeerState::Unchoke);
    // the session is ready for the next piece
    assert!(session.download_piece(1, 16384).is_ok());
}

#[test]
fn only_one_download_is_in_flight() {
    let mut session = unchoked();
    assert_eq!(
        session.receive_block(&piece_frame(0, 0, &[1, 2, 3])),
        Err(SessionError::State)
    );
    assert_eq!(session.finish_piece(&[0; 20]), Err(SessionError::State));
    session.download_piece(0, 3).unwrap();
    assert_eq!(session.download_piece(1, 3), Err(SessionError::State));
    assert_eq!(
        session.finish_piece(&[0; 20]),
        Err(SessionError::Piece(PieceError::Incomplete))
    );
    assert!(!session.is_downloading());
    assert!(session.download_piece(1, 3).is_ok());
}

#[test]
fn choke_and_other_messages_fail_the_piece() {
    let mut session = unchoked();
    session.download_piece(0, 3).unwrap();
    assert_eq!(
        session.receive_block(&[0, 0, 0, 1, 0]),
        Err(SessionError::Piece(PieceError::ChokedMidPiece))
    );
    assert_eq!(
        session.receive_block(&[0, 0, 0, 1, 1]),
        Err(SessionError::Piece(PieceError::UnexpectedMessage))
    );
    assert_eq!(
        session.receive_block(&piece_frame(1, 0, &[1, 2, 3])),
        Err(SessionError::Piece(PieceError::UnexpectedBlock))
    );
    assert_eq!(
        session.receive_block(&[0, 0, 0, 1, 99]),
        Err(SessionError::Framing(FramingError::UnknownId))
    );
    // the download is as it was
    assert!(session.is_downloading());
    assert_eq!(
        session.receive_block(&piece_frame(0, 0, &[b'a', b'b', b'c'])),
        Ok(true)
    );
    // SHA-1("abc")
    assert_eq!(
        session.finish_piece(&unhex("a9993e364706816aba3e25717850c26c9cd0d89d")),
        Ok(b"abc".to_vec())
    );
}

#[test]
fn a_piece_with_the_wrong_digest_is_dropped() {
    let mut session = unchoked();
    session.download_piece(0, 3).unwrap();
    session
        .receive_block(&piece_frame(0, 0, &[b'a', b'b', b'd']))
        .unwrap();
    assert_eq!(
        session.finish_piece(&unhex("a9993e364706816aba3e25717850c26c9cd0d89d")),
        Err(SessionError::Piece(PieceError::HashMismatch))
    );
    assert!(!session.is_downloading());
}

#[test]
fn operations_out_of_state_fail() {
    let mut session = PeerStream::new();
    assert_eq!(session.read(&[0, 0, 0, 1, 0]), Err(SessionError::State));
    assert_eq!(session.write(&PeerMessage::Interested), Err(SessionError::State));
    assert_eq!(
        session.read_bitfield(&[0, 0, 0, 2, 5, 0xe0]),
        Err(SessionError::State)
    );
    assert_eq!(session.write_interested(), Err(SessionError::State));
    assert_eq!(session.read_unchoke(&[0, 0, 0, 1, 1]), Err(SessionError::State));
    assert_eq!(session.download_piece(0, 1), Err(SessionError::State));
    assert_eq!(session.state(), PeerState::Init);

    session.handshake(&info_hash(), &reply()).unwrap();
    assert_eq!(
        session.handshake_request(&info_hash()),
        Err(SessionError::State)
    );
    assert_eq!(
        session.handshake(&info_hash(), &reply()),
        Err(SessionError::State)
    );
    assert_eq!(session.write_interested(), Err(SessionError::State));
    assert_eq!(session.read_unchoke(&[0, 0, 0, 1, 1]), Err(SessionError::State));
    assert_eq!(session.download_piece(0, 1), Err(SessionError::State));
    assert_eq!(session.state(), PeerState::Handshake);

    session.read_bitfield(&[0, 0, 0, 1, 5]).unwrap();
    assert_eq!(
        session.read_bitfield(&[0, 0, 0, 1, 5]),
        Err(SessionError::State)
    );
    assert_eq!(session.read_unchoke(&[0, 0, 0, 1, 1]), Err(SessionError::State));
    assert_eq!(session.download_piece(0, 1), Err(SessionError::State));

    session.write_interested().unwrap();
    assert_eq!(session.write_interested(), Err(SessionError::State));
    assert_eq!(session.download_piece(0, 1), Err(SessionError::State));

    session.read_unchoke(&[0, 0, 0, 1, 1]).unwrap();
    assert_eq!(session.read_unchoke(&[0, 0, 0, 1, 1]), Err(SessionError::State));
    assert_eq!(session.write_interested(), Err(SessionError::State));
    assert_eq!(session.state(), PeerState::Unchoke);
}

#[test]
fn handshake_must_be_for_the_same_torrent() {
    let mut session = PeerStream::new();
    let mut other = info_hash();
    other[19] ^= 1;
    assert_eq!(
        session.handshake(&other, &reply()),
        Err(SessionError::Handshake(HandshakeError::InfoHash))
    );
    assert_eq!(session.state(), PeerState::Init);
    assert_eq!(
        session.handshake(&info_hash(), &reply()[..60]),
        Err(SessionError::Handshake(HandshakeError::Truncated))
    );
    let mut wrong = reply();
    wrong[1] = b'b';
    assert_eq!(
        session.handshake(&info_hash(), &wrong),
        Err(SessionError::Handshake(HandshakeError::Protocol))
    );
    assert_eq!(session.state(), PeerState::Init);
    assert!(session.handshake(&info_hash(), &reply()).is_ok());
}

#[test]
fn the_first_message_must_be_a_bitfield() {
    let mut session = PeerStream::new();
    session.handshake(&info_hash(), &reply()).unwrap();
    assert_eq!(
        session.read_bitfield(&[0, 0, 0, 1, 1]),
        Err(SessionError::UnexpectedMessage)
    );
    assert_eq!(
        session.read_bitfield(&[0, 0, 0, 0]),
        Err(SessionError::UnexpectedMessage)
    );
    assert_eq!(
        session.read_bitfield(&[0, 0, 0, 1, 77]),
        Err(SessionError::Framing(FramingError::UnknownId))
    );
    assert_eq!(
        session.read_bitfield(&[0, 0]),
        Err(SessionError::Framing(FramingError::TruncatedPrefix))
    );
    assert_eq!(session.state(), PeerState::Handshake);
    assert_eq!(session.bitfield(), &Vec::<u8>::new());
}

#[test]
fn only_unchoke_ends_the_wait() {
    let mut session = PeerStream::new();
    session.handshake(&info_hash(), &reply()).unwrap();
    session.read_bitfield(&[0, 0, 0, 1, 5]).unwrap();
    session.write_interested().unwrap();
    assert_eq!(
        session.read_unchoke(&[0, 0, 0, 1, 0]),
        Err(SessionError::UnexpectedMessage)
    );
    assert_eq!(
        session.read_unchoke(&[0, 0, 0, 5, 4, 0, 0, 0, 1]),
        Err(SessionError::UnexpectedMessage)
    );
    assert_eq!(
        session.read_unchoke(&[0, 0, 0, 3, 1]),
        Err(SessionError::Framing(FramingError::ImpossibleLength))
    );
    assert_eq!(session.state(), PeerState::Interested);
}

#[test]
fn read_and_write_after_the_handshake() {
    let session = unchoked();
    assert_eq!(
        session.read(&[0, 0, 0, 5, 4, 0, 0, 0, 9]),
        Ok(PeerMessage::Have { index: 9 })
    );
    assert_eq!(
        session.read(&[0, 0, 0, 5, 4, 0, 0, 0]),
        Err(SessionError::Framing(FramingError::ImpossibleLength))
    );
    assert_eq!(
        session.write(&PeerMessage::Request { index: 1, begin: 2, length: 3 }),
        Ok(vec![0, 0, 0, 13, 6, 0, 0, 0, 1, 0, 0, 0, 2, 0, 0, 0, 3])
    );
    assert_eq!(session.write(&PeerMessage::KeepAlive), Ok(vec![0, 0, 0, 0]));
}
