use bittorrent_starter_rust::network::{HandshakeError, PeerHandshake, PEER_ID};

#[test]
fn test_peer_handshake_default() {
    let handshake = PeerHandshake::default();
    assert_eq!(handshake.length, 19);
    assert_eq!(handshake.protocol, "BitTorrent protocol");
    assert_eq!(handshake.reserved, vec![0; 8]);
    assert_eq!(handshake.info_hash, Vec::<u8>::new());
    assert_eq!(handshake.peer_id, PEER_ID.as_bytes());
}

#[test]
fn test_peer_handshake_from() {
    let handshake_bytes = vec![
        19, 66, 105, 116, 84, 111, 114, 114, 101, 110, 116, 32, 112, 114, 111, 116, 111, 99, 111,
        108, 0, 0, 0, 0, 0, 0, 0, 0, 214, 159, 145, 230, 178, 174, 76, 84, 36, 104, 209, 7, 58,
        113, 212, 234, 19, 135, 154, 127, 45, 84, 82, 50, 57, 52, 48, 45, 50, 98, 51, 98, 54, 98,
        52, 98, 53, 98, 54, 0, 0, 0, 0, 0, 0, 0, 0,
    ];
    let handshake = PeerHandshake::from_bytes(&handshake_bytes).unwrap();
    assert_eq!(handshake.length, 19);
    assert_eq!(handshake.protocol, "BitTorrent protocol");
    assert_eq!(handshake.reserved, vec![0; 8]);
    assert_eq!(
        handshake.info_hash,
        vec![
            214, 159, 145, 230, 178, 174, 76, 84, 36, 104, 209, 7, 58, 113, 212, 234, 19, 135,
            154, 127
        ]
    );
    assert_eq!(
        handshake.peer_id,
        vec![45, 84, 82, 50, 57, 52, 48, 45, 50, 98, 51, 98, 54, 98, 52, 98, 53, 98, 54, 0]
    );
}

#[test]
fn test_peer_handshake_into() {
    let handshake = PeerHandshake {
        length: 19,
        protocol: "BitTorrent protocol".to_string(),
        reserved: vec![0; 8],
        info_hash: vec![
            214, 159, 145, 230, 178, 174, 76, 84, 36, 104, 209, 7, 58, 113, 212, 234, 19, 135,
            154, 127,
        ],
        peer_id: vec![
            45, 84, 82, 50, 57, 52, 48, 45, 50, 98, 51, 98, 54, 98, 52, 98, 53, 98, 54,
        ],
    };
    let handshake_bytes: Vec<u8> = handshake.to_bytes();
    assert_eq!(
        handshake_bytes,
        vec![
            19, 66, 105, 116, 84, 111, 114, 114, 101, 110, 116, 32, 112, 114, 111, 116, 111, 99,
            111, 108, 0, 0, 0, 0, 0, 0, 0, 0, 214, 159, 145, 230, 178, 174, 76, 84, 36, 104, 209,
            7, 58, 113, 212, 234, 19, 135, 154, 127, 45, 84, 82, 50, 57, 52, 48, 45, 50, 98, 51,
            98, 54, 98, 52, 98, 53, 98, 54
        ]
    );
}

#[test]
fn handshake_round_trip() {
    let info_hash: Vec<u8> = (1..=20).collect();
    let peer_id: Vec<u8> = (101..=120).collect();
    let ours = PeerHandshake::new(info_hash.clone(), peer_id.clone());
    let bytes = ours.to_bytes();
    assert_eq!(bytes.len(), 68);
    assert_eq!(bytes[0], 19);
    assert_eq!(&bytes[1..20], b"BitTorrent protocol");
    assert_eq!(&bytes[20..28], &[0u8; 8]);
    assert_eq!(&bytes[28..48], &info_hash[..]);
    assert_eq!(&bytes[48..68], &peer_id[..]);
    assert_eq!(PeerHandshake::from_bytes(&bytes), Ok(ours));
}

#[test]
fn handshake_keeps_reserved_bytes_as_they_are() {
    let mut bytes = PeerHandshake::new(vec![7; 20], vec![9; 20]).to_bytes();
    bytes[25] = 0x10;
    let theirs = PeerHandshake::from_bytes(&bytes).unwrap();
    assert_eq!(theirs.reserved, vec![0, 0, 0, 0, 0, 0x10, 0, 0]);
}

#[test]
fn handshake_errors() {
    let good = PeerHandshake::new(vec![7; 20], vec![9; 20]).to_bytes();
    assert_eq!(
        PeerHandshake::from_bytes(&good[..67]),
        Err(HandshakeError::Truncated)
    );
    assert_eq!(PeerHandshake::from_bytes(&[]), Err(HandshakeError::Truncated));
    let mut wrong_length = good.clone();
    wrong_length[0] = 18;
    assert_eq!(
        PeerHandshake::from_bytes(&wrong_length),
        Err(HandshakeError::Protocol)
    );
    let mut wrong_name = good.clone();
    wrong_name[19] = b'L';
    assert_eq!(
        PeerHandshake::from_bytes(&wrong_name),
        Err(HandshakeError::Protocol)
    );
}

#[test]
fn handshake_length_is_written_as_one_byte() {
    let mut h = PeerHandshake::new(vec![], vec![]);
    h.length = 256 + 19;
    assert_eq!(h.to_bytes()[0], 19);
}
