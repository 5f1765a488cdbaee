use bittorrent_starter_rust::decoder::{decode_bencoded_value, BencodedValue};
use bittorrent_starter_rust::grammar::{DecodeError, DecodeErrorKind};
use bittorrent_starter_rust::network::{
    announce_url, parse_announce_response, parse_compact_peers, url_encode, urlencode, PeerAddr,
    TrackerError, TrackerPayload, TrackerResponse, PEER_ID,
};

#[test]
fn test_urlencode() {
    let info_hash = [
        0xd6, 0x9f, 0x91, 0xe6, 0xb2, 0xae, 0x4c, 0x54, 0x24, 0x68, 0xd1, 0x07, 0x3a, 0x71, 0xd4,
        0xea, 0x13, 0x87, 0x9a, 0x7f,
    ];
    let encoded = urlencode(&info_hash);
    assert_eq!(
        encoded,
        "%d6%9f%91%e6%b2%ae%4c%54%24%68%d1%07%3a%71%d4%ea%13%87%9a%7f"
    );
    assert_eq!(url_encode(&info_hash), encoded);
}

#[test]
fn url_encode_escapes_every_byte() {
    let mut bytes = [0u8; 20];
    bytes[0] = b'a';
    bytes[1] = b'~';
    bytes[2] = 0x0f;
    bytes[3] = 0xf0;
    bytes[19] = 0xff;
    assert_eq!(
        url_encode(&bytes),
        "%61%7e%0f%f0%00%00%00%00%00%00%00%00%00%00%00%00%00%00%00%ff"
    );
}

#[test]
fn test_tracker_payload_default() {
    let payload = TrackerPayload::default();
    assert_eq!(payload.port, 6881);
    assert_eq!(payload.uploaded, 0);
    assert_eq!(payload.downloaded, 0);
    assert_eq!(payload.left, 0);
    assert_eq!(payload.compact, true);
}

#[test]
fn test_tracker_payload_serialize() {
    let payload = TrackerPayload {
        peer_id: "peer_id".to_string(),
        port: 6881,
        uploaded: 0,
        downloaded: 0,
        left: 0,
        compact: true,
    };
    let serialized = payload.to_query();
    assert_eq!(
        serialized,
        "peer_id=peer_id&port=6881&uploaded=0&downloaded=0&left=0&compact=1"
    );
}

#[test]
fn tracker_payload_query_escapes_and_counts() {
    let payload = TrackerPayload {
        peer_id: "a b&c=d".to_string(),
        port: 1,
        uploaded: 23,
        downloaded: 456,
        left: u64::MAX,
        compact: false,
    };
    assert_eq!(
        payload.to_query(),
        "peer_id=a+b%26c%3Dd&port=1&uploaded=23&downloaded=456&left=18446744073709551615&compact=0"
    );
}

#[test]
fn announce_url_has_the_query_then_the_info_hash() {
    let info_hash = [
        0xd6, 0x9f, 0x91, 0xe6, 0xb2, 0xae, 0x4c, 0x54, 0x24, 0x68, 0xd1, 0x07, 0x3a, 0x71, 0xd4,
        0xea, 0x13, 0x87, 0x9a, 0x7f,
    ];
    assert_eq!(PEER_ID.len(), 20);
    assert_eq!(
        announce_url("http://tracker.example/announce", &info_hash, 92063),
        "http://tracker.example/announce?peer_id=-TR2940-2b3b6b4b5b6b&port=6881&uploaded=0\
         &downloaded=0&left=92063&compact=1\
         &info_hash=%d6%9f%91%e6%b2%ae%4c%54%24%68%d1%07%3a%71%d4%ea%13%87%9a%7f"
    );
}

#[test]
fn test_tracker_response_try_from() {
    let (_, bencoded) = decode_bencoded_value(
        b"d8:intervali1800e5:peers12:\x7f\x00\x00\x01\x1a\x90\x7f\x00\x00\x01\x1b\x90e".as_slice(),
    )
    .unwrap();
    let tracker_response = TrackerResponse::try_from(&bencoded).unwrap();
    assert_eq!(tracker_response.interval, 1800);
    assert!(tracker_response.interval_given);
    // Test without ordering
    assert!(tracker_response.peers.contains(&PeerAddr {
        ip: u32::from_be_bytes([127, 0, 0, 1]),
        port: 6800
    }));
    assert!(tracker_response.peers.contains(&PeerAddr {
        ip: u32::from_be_bytes([127, 0, 0, 1]),
        port: 7056
    }));
}

#[test]
fn compact_peers_one_peer() {
    let peers = parse_compact_peers(b"\x7f\x00\x00\x01\x1a\x90").unwrap();
    assert_eq!(peers, vec![PeerAddr { ip: 0x7f000001, port: 6800 }]);
    assert_eq!(peers[0].octets(), [127, 0, 0, 1]);
}

#[test]
fn compact_peers_keep_their_order() {
    let peers = parse_compact_peers(b"\x0a\x00\x00\x02\x00\x50\xc0\xa8\x01\xfe\xff\xff").unwrap();
    assert_eq!(
        peers,
        vec![
            PeerAddr { ip: 0x0a000002, port: 80 },
            PeerAddr { ip: 0xc0a801fe, port: 65535 }
        ]
    );
    assert_eq!(peers[1].octets(), [192, 168, 1, 254]);
    assert_eq!(parse_compact_peers(b""), Ok(vec![]));
}

#[test]
fn compact_peers_must_be_whole() {
    assert_eq!(
        parse_compact_peers(b"\x7f\x00\x00\x01\x1a"),
        Err(TrackerError::PeersLength)
    );
    assert_eq!(
        parse_compact_peers(b"\x7f\x00\x00\x01\x1a\x90\x7f"),
        Err(TrackerError::PeersLength)
    );
}

#[test]
fn tracker_response_errors() {
    assert_eq!(
        parse_announce_response(b"not bencode"),
        Err(TrackerError::Decode(DecodeError {
            kind: DecodeErrorKind::UnknownPrefix,
            offset: 0
        }))
    );
    assert_eq!(
        parse_announce_response(b"i3e"),
        Err(TrackerError::NotADictionary)
    );
    assert_eq!(
        TrackerResponse::try_from(&BencodedValue::List(vec![])),
        Err(TrackerError::NotADictionary)
    );
    assert_eq!(
        parse_announce_response(b"d8:intervali1800ee"),
        Err(TrackerError::NoPeers)
    );
    assert_eq!(
        parse_announce_response(b"d8:intervali1800e5:peersi6ee"),
        Err(TrackerError::NoPeers)
    );
    assert_eq!(
        parse_announce_response(b"d8:intervali-1e5:peers0:e"),
        Err(TrackerError::NegativeInterval)
    );
    assert_eq!(
        parse_announce_response(b"d8:intervali1800e5:peers5:abcdee"),
        Err(TrackerError::PeersLength)
    );
}

#[test]
fn tracker_response_without_interval() {
    let response = parse_announce_response(b"d5:peers6:\x7f\x00\x00\x01\x1a\x90e").unwrap();
    assert_eq!(response.interval, 0);
    assert!(!response.interval_given);
    assert_eq!(response.peers, vec![PeerAddr { ip: 0x7f000001, port: 6800 }]);
    let response =
        parse_announce_response(b"d8:interval2:605:peers6:\x7f\x00\x00\x01\x1a\x90e").unwrap();
    assert_eq!(response.interval, 0);
    assert!(!response.interval_given);
    let response =
        parse_announce_response(b"d8:intervali0e5:peers6:\x7f\x00\x00\x01\x1a\x90e").unwrap();
    assert_eq!(response.interval, 0);
    assert!(response.interval_given);
}
