use bittorrent_starter_rust::decoder::{
    decode_bencoded_value, BencodedDict, BencodedString, BencodedValue, Bencodeable,
};
use bittorrent_starter_rust::file::{Info, MetainfoError, MetainfoField, MetainfoFile};
use bittorrent_starter_rust::grammar::{DecodeError, DecodeErrorKind};

fn unhex(text: &str) -> Vec<u8> {
    let digits: Vec<u8> = text
        .bytes()
        .map(|b| match b {
            b'0'..=b'9' => b - b'0',
            b'a'..=b'f' => b - b'a' + 10,
            other => panic!("not a hex digit: {}", other),
        })
        .collect();
    digits.chunks(2).map(|pair| pair[0] * 16 + pair[1]).collect()
}

const PIECE_HASHES: [&str; 3] = [
    "e876f67a2a8886e8f36b136726c30fa29703022d",
    "6e2275e604a0766656736e81ff10b55204ad8d35",
    "f00d937a0213df1982bc8d097227ad9e909acc17",
];

const ANNOUNCE: &str = "http://tracker.example.org:6969/announce";

fn sample_pieces() -> Vec<u8> {
    PIECE_HASHES.iter().flat_map(|h| unhex(h)).collect()
}

fn sample_info_bytes() -> Vec<u8> {
    let mut bytes = b"d6:lengthi92063e4:name10:sample.txt12:piece lengthi32768e6:pieces60:".to_vec();
    bytes.extend(sample_pieces());
    bytes.push(b'e');
    bytes
}

fn sample_torrent() -> Vec<u8> {
    let mut bytes = format!("d8:announce{}:{}10:created by13:mktorrent 1.14:info", ANNOUNCE.len(), ANNOUNCE)
        .into_bytes();
    bytes.extend(sample_info_bytes());
    bytes.push(b'e');
    bytes
}

fn sample_info() -> Info {
    Info::new(92063, b"sample.txt".to_vec(), 32768, sample_pieces()).unwrap()
}

#[test]
fn parse_sample_torrent() {
    let metainfo = MetainfoFile::parse(&sample_torrent()).unwrap();
    assert_eq!(metainfo.announce(), ANNOUNCE);
    assert_eq!(metainfo.info().length(), 92063);
    assert_eq!(metainfo.info().name(), b"sample.txt");
    assert_eq!(metainfo.info().piece_length(), 32768);
    assert_eq!(metainfo.info(), &sample_info());
    assert_eq!(metainfo, MetainfoFile::new(ANNOUNCE.to_string(), sample_info()));
}

#[test]
fn info_hash_of_sample_torrent() {
    let metainfo = MetainfoFile::parse(&sample_torrent()).unwrap();
    assert_eq!(
        metainfo.info().info_hash().to_vec(),
        unhex("d69f91e6b2ae4c542468d1073a71d4ea13879a7f")
    );
    assert_eq!(
        metainfo.info().info_hash_hex(),
        "d69f91e6b2ae4c542468d1073a71d4ea13879a7f"
    );
}

#[test]
fn info_hash_is_a_function_of_the_four_values() {
    let a = sample_info();
    let b = Info::new(92063, b"sample.txt".to_vec(), 32768, sample_pieces()).unwrap();
    assert_eq!(a.info_hash(), b.info_hash());
    assert_eq!(a.info_hash(), a.info_hash());
    let renamed = Info::new(92063, b"sample.txT".to_vec(), 32768, sample_pieces()).unwrap();
    assert_ne!(a.info_hash(), renamed.info_hash());
}

#[test]
fn info_dictionary_is_the_slice_of_the_torrent() {
    let info = sample_info();
    assert_eq!(info.bencode(), sample_info_bytes());
    assert_eq!(info.to_bencode().bencode(), sample_info_bytes());
    let (consumed, decoded) = decode_bencoded_value(&sample_info_bytes()).unwrap();
    assert_eq!(consumed, sample_info_bytes().len());
    assert_eq!(decoded, info.to_bencode());
}

#[test]
fn info_hash_keeps_bytes_that_are_not_text() {
    let name = vec![0xff, 0xfe, b'.', b't', b'x', b't'];
    let info = Info::new(5, name.clone(), 5, vec![0xab; 20]).unwrap();
    let mut expected = b"d6:lengthi5e4:name6:".to_vec();
    expected.extend(&name);
    expected.extend(b"12:piece lengthi5e6:pieces20:");
    expected.extend(vec![0xab; 20]);
    expected.push(b'e');
    assert_eq!(info.to_bencode().bencode(), expected);
    assert_eq!(info.name(), &name);
}

#[test]
fn piece_hashes_of_sample_torrent() {
    let info = sample_info();
    let hashes = info.pieces();
    assert_eq!(hashes.len(), 3);
    assert_eq!(info.piece_count(), 3);
    for (hash, hex) in hashes.iter().zip(PIECE_HASHES.iter()) {
        assert_eq!(hash.to_vec(), unhex(hex));
    }
    assert_eq!(
        info.piece_hash(),
        vec![
            "e876f67a2a8886e8f36b136726c30fa29703022d",
            "6e2275e604a0766656736e81ff10b55204ad8d35",
            "f00d937a0213df1982bc8d097227ad9e909acc17"
        ]
    );
}

#[test]
fn pieces_partition_the_length() {
    let info = sample_info();
    let n = info.pieces().len() as i64;
    assert!(n * info.piece_length() >= info.length());
    assert!(info.length() > (n - 1) * info.piece_length());
}

#[test]
fn piece_sizes() {
    let info = sample_info();
    assert_eq!(info.piece_size(0), 32768);
    assert_eq!(info.piece_size(1), 32768);
    assert_eq!(info.piece_size(2), 92063 - 2 * 32768);
    assert_eq!(info.piece_size(2), 26527);
    let even = Info::new(40, b"x".to_vec(), 20, vec![0; 40]).unwrap();
    assert_eq!(even.piece_size(0), 20);
    assert_eq!(even.piece_size(1), 20);
    let single = Info::new(7, b"x".to_vec(), 16384, vec![0; 20]).unwrap();
    assert_eq!(single.piece_size(0), 7);
    let empty = Info::new(0, b"x".to_vec(), 16384, vec![]).unwrap();
    assert_eq!(empty.pieces().len(), 0);
    assert_eq!(empty.piece_hash().len(), 0);
}

#[test]
fn verify_piece_compares_digests() {
    // SHA-1("hello world") and SHA-1("abc")
    let mut pieces = unhex("2aae6c35c94fcfb415dbe95f408b9ce91ee846ed");
    pieces.extend(unhex("a9993e364706816aba3e25717850c26c9cd0d89d"));
    let info = Info::new(14, b"x".to_vec(), 11, pieces).unwrap();
    assert_eq!(info.piece_size(0), 11);
    assert_eq!(info.piece_size(1), 3);
    assert!(info.verify_piece(0, b"hello world"));
    assert!(info.verify_piece(1, b"abc"));
    assert!(!info.verify_piece(0, b"abc"));
    assert!(!info.verify_piece(1, b"hello world"));
    assert!(!info.verify_piece(0, b"hello worle"));
    assert!(!info.verify_piece(2, b"abc"));
}

#[test]
fn info_must_be_a_file_cut_into_pieces() {
    assert_eq!(
        Info::new(-1, vec![], 16384, vec![]),
        Err(MetainfoError::NegativeLength)
    );
    assert_eq!(
        Info::new(10, vec![], 16384, vec![0; 19]),
        Err(MetainfoError::PiecesLength)
    );
    // too few pieces
    assert_eq!(
        Info::new(16385, vec![], 16384, vec![0; 20]),
        Err(MetainfoError::Partition)
    );
    // too many pieces
    assert_eq!(
        Info::new(16384, vec![], 16384, vec![0; 40]),
        Err(MetainfoError::Partition)
    );
    assert_eq!(
        Info::new(0, vec![], 16384, vec![0; 20]),
        Err(MetainfoError::Partition)
    );
    assert_eq!(
        Info::new(10, vec![], 0, vec![0; 20]),
        Err(MetainfoError::Partition)
    );
    assert_eq!(
        Info::new(10, vec![], -5, vec![0; 20]),
        Err(MetainfoError::Partition)
    );
    assert_eq!(
        Info::new(i64::MAX, vec![], i64::MAX, vec![0; 20]).map(|i| i.piece_size(0)),
        Ok(i64::MAX)
    );
    assert!(Info::new(16384, vec![], 16384, vec![0; 20]).is_ok());
    assert!(Info::new(16385, vec![], 16384, vec![0; 40]).is_ok());
}

fn text(s: &str) -> BencodedValue {
    BencodedValue::String(BencodedString(s.as_bytes().to_vec()))
}

fn dict(entries: Vec<(&str, BencodedValue)>) -> BencodedValue {
    let mut d = BencodedDict::new();
    for (key, value) in entries {
        d.insert(BencodedString(key.as_bytes().to_vec()), value);
    }
    BencodedValue::Dict(d)
}

fn info_entries() -> Vec<(&'static str, BencodedValue)> {
    vec![
        ("length", BencodedValue::Integer(30)),
        ("name", text("n")),
        ("piece length", BencodedValue::Integer(16)),
        ("pieces", BencodedValue::String(BencodedString(vec![1; 40]))),
    ]
}

fn without(key: &str) -> BencodedValue {
    dict(info_entries().into_iter().filter(|e| e.0 != key).collect())
}

fn with(key: &'static str, value: BencodedValue) -> BencodedValue {
    let mut entries: Vec<(&str, BencodedValue)> =
        info_entries().into_iter().filter(|e| e.0 != key).collect();
    entries.push((key, value));
    dict(entries)
}

fn torrent(info: BencodedValue) -> BencodedValue {
    dict(vec![("announce", text("http://t/a")), ("info", info)])
}

#[test]
fn metainfo_from_a_decoded_value() {
    let metainfo = MetainfoFile::from_bencode(&torrent(dict(info_entries()))).unwrap();
    assert_eq!(metainfo.announce(), "http://t/a");
    assert_eq!(metainfo.info().length(), 30);
    assert_eq!(metainfo.info().name(), b"n");
    assert_eq!(metainfo.info().piece_length(), 16);
    assert_eq!(metainfo.info().pieces(), vec![[1u8; 20], [1u8; 20]]);
}

#[test]
fn metainfo_errors() {
    assert_eq!(
        MetainfoFile::parse(b"d8:announce"),
        Err(MetainfoError::Decode(DecodeError {
            kind: DecodeErrorKind::Truncated,
            offset: 11
        }))
    );
    assert_eq!(
        MetainfoFile::parse(b"li1ee"),
        Err(MetainfoError::NotADictionary)
    );
    assert_eq!(
        MetainfoFile::from_bencode(&dict(vec![("info", dict(info_entries()))])),
        Err(MetainfoError::Missing(MetainfoField::Announce))
    );
    assert_eq!(
        MetainfoFile::from_bencode(&dict(vec![
            ("announce", BencodedValue::Integer(1)),
            ("info", dict(info_entries()))
        ])),
        Err(MetainfoError::Mistyped(MetainfoField::Announce))
    );
    assert_eq!(
        MetainfoFile::from_bencode(&dict(vec![
            ("announce", BencodedValue::String(BencodedString(vec![b'h', 0xff]))),
            ("info", dict(info_entries()))
        ])),
        Err(MetainfoError::Mistyped(MetainfoField::Announce))
    );
    assert_eq!(
        MetainfoFile::from_bencode(&dict(vec![("announce", text("http://t/a"))])),
        Err(MetainfoError::Missing(MetainfoField::Info))
    );
    assert_eq!(
        MetainfoFile::from_bencode(&torrent(BencodedValue::List(vec![]))),
        Err(MetainfoError::Mistyped(MetainfoField::Info))
    );
    assert_eq!(
        MetainfoFile::from_bencode(&torrent(without("length"))),
        Err(MetainfoError::Missing(MetainfoField::Length))
    );
    assert_eq!(
        MetainfoFile::from_bencode(&torrent(without("name"))),
        Err(MetainfoError::Missing(MetainfoField::Name))
    );
    assert_eq!(
        MetainfoFile::from_bencode(&torrent(without("piece length"))),
        Err(MetainfoError::Missing(MetainfoField::PieceLength))
    );
    assert_eq!(
        MetainfoFile::from_bencode(&torrent(without("pieces"))),
        Err(MetainfoError::Missing(MetainfoField::Pieces))
    );
    assert_eq!(
        MetainfoFile::from_bencode(&torrent(with("length", text("30")))),
        Err(MetainfoError::Mistyped(MetainfoField::Length))
    );
    assert_eq!(
        MetainfoFile::from_bencode(&torrent(with("name", BencodedValue::Integer(1)))),
        Err(MetainfoError::Mistyped(MetainfoField::Name))
    );
    assert_eq!(
        MetainfoFile::from_bencode(&torrent(with("piece length", BencodedValue::List(vec![])))),
        Err(MetainfoError::Mistyped(MetainfoField::PieceLength))
    );
    assert_eq!(
        MetainfoFile::from_bencode(&torrent(with("pieces", BencodedValue::Integer(1)))),
        Err(MetainfoError::Mistyped(MetainfoField::Pieces))
    );
    assert_eq!(
        MetainfoFile::from_bencode(&torrent(with("private", BencodedValue::Integer(1)))),
        Err(MetainfoError::UnexpectedKey)
    );
    assert_eq!(
        MetainfoFile::from_bencode(&torrent(with("length", BencodedValue::Integer(-30)))),
        Err(MetainfoError::NegativeLength)
    );
    assert_eq!(
        MetainfoFile::from_bencode(&torrent(with(
            "pieces",
            BencodedValue::String(BencodedString(vec![1; 41]))
        ))),
        Err(MetainfoError::PiecesLength)
    );
    assert_eq!(
        MetainfoFile::from_bencode(&torrent(with("length", BencodedValue::Integer(33)))),
        Err(MetainfoError::Partition)
    );
}
