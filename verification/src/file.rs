//! The metainfo of a single-file torrent: where to announce, and what the
//! file is made of.

use vstd::prelude::*;
use vstd::slice::{slice_subrange, slice_to_vec};
use vstd::string::is_ascii;
use vstd::utf8::{decode_utf8, valid_utf8};

use crate::bencode::{
    encode, entry_keys, lemma_insert_entry_at, lemma_lookup_found, lookup, Bencode,
};
use crate::decoder::{
    decode_bencoded_value, encode_value, Bencodeable, BencodedDict, BencodedString, BencodedValue,
};
use crate::grammar::{parse_value, DecodeError};
use crate::hashing::{hex_of, sha1_digest, sha1_of};
use crate::lex::{
    bytes_equal, lemma_lex_asymmetric, lemma_lex_irreflexive, lex_less, lex_less_from,
    strictly_ascending,
};
use crate::roundtrip::lemma_parse_value_canonical;
use crate::text::{ascii_bytes, bytes_of_ascii, hex_text, utf8_text};

verus! {

/// A field of the metainfo.
#[derive(Debug, PartialEq, Eq, Clone, Copy)]
pub enum MetainfoField {
    Announce,
    Info,
    Length,
    Name,
    PieceLength,
    Pieces,
}

/// Why a value is not the metainfo of a single-file torrent.
#[derive(Debug, PartialEq, Eq, Clone, Copy)]
pub enum MetainfoError {
    /// The bytes are not bencoded.
    Decode(DecodeError),
    /// The top-level value is not a dictionary.
    NotADictionary,
    /// A field is absent.
    Missing(MetainfoField),
    /// A field has the wrong type, or `announce` is not UTF-8 text.
    Mistyped(MetainfoField),
    /// The `info` dictionary has a key besides its four.
    UnexpectedKey,
    /// The length of the file is negative.
    NegativeLength,
    /// `pieces` is not made of whole 20-byte digests.
    PiecesLength,
    /// The pieces do not cover the file: with `n` pieces it must hold that
    /// `n * piece_length >= length > (n - 1) * piece_length`.
    Partition,
}

/// What an `Info` holds.
pub struct InfoView {
    /// The size of the file in bytes.
    pub length: i64,
    /// The suggested name of the file, as bytes.
    pub name: Seq<u8>,
    /// The number of bytes in each piece but the last.
    pub piece_length: i64,
    /// The SHA-1 digests of the pieces, one after the other.
    pub pieces: Seq<u8>,
}

/// What a `MetainfoFile` holds.
pub struct MetainfoView {
    /// The URL of the tracker.
    pub announce: Seq<char>,
    pub info: InfoView,
}

pub open spec fn announce_key() -> Seq<u8> {
    ascii_bytes("announce"@)
}

pub open spec fn info_key() -> Seq<u8> {
    ascii_bytes("info"@)
}

pub open spec fn length_key() -> Seq<u8> {
    ascii_bytes("length"@)
}

pub open spec fn name_key() -> Seq<u8> {
    ascii_bytes("name"@)
}

pub open spec fn piece_length_key() -> Seq<u8> {
    ascii_bytes("piece length"@)
}

pub open spec fn pieces_key() -> Seq<u8> {
    ascii_bytes("pieces"@)
}

/// Whether `count` pieces of `piece_length` bytes, the last one possibly
/// shorter but not empty, make up `length` bytes.
pub open spec fn partitioned(length: int, piece_length: int, count: int) -> bool {
    count * piece_length >= length > (count - 1) * piece_length
}

/// The number of pieces.
pub open spec fn piece_count(info: InfoView) -> int {
    info.pieces.len() as int / 20
}

/// The digest of piece `i`: the `i`-th chunk of twenty bytes of `pieces`.
pub open spec fn piece_digest(info: InfoView, i: int) -> Seq<u8> {
    info.pieces.subrange(20 * i, 20 * i + 20)
}

/// What is wrong with the numbers of an info dictionary, if anything.
pub open spec fn info_fault(info: InfoView) -> Option<MetainfoError> {
    if info.length < 0 {
        Some(MetainfoError::NegativeLength)
    } else if info.pieces.len() % 20 != 0 {
        Some(MetainfoError::PiecesLength)
    } else if !partitioned(info.length as int, info.piece_length as int, piece_count(info)) {
        Some(MetainfoError::Partition)
    } else {
        None
    }
}

/// The `info` dictionary: its four keys in ascending order, each with its
/// value.
pub open spec fn info_dict(info: InfoView) -> Bencode {
    Bencode::Dict(
        seq![
            (length_key(), Bencode::Int(info.length)),
            (name_key(), Bencode::Bytes(info.name)),
            (piece_length_key(), Bencode::Int(info.piece_length)),
            (pieces_key(), Bencode::Bytes(info.pieces)),
        ],
    )
}

/// The size of piece `i`: `piece_length`, except for the last piece, which
/// has what is left of the file.
pub open spec fn piece_size_of(info: InfoView, i: int) -> int {
    if i < piece_count(info) - 1 {
        info.piece_length as int
    } else {
        info.length - (piece_count(info) - 1) * info.piece_length
    }
}

/// The integer under `key`, or why there is none.
pub open spec fn integer_field(
    entries: Seq<(Seq<u8>, Bencode)>,
    key: Seq<u8>,
    field: MetainfoField,
) -> Result<i64, MetainfoError> {
    match lookup(entries, key) {
        None => Err(MetainfoError::Missing(field)),
        Some(Bencode::Int(i)) => Ok(i),
        Some(_) => Err(MetainfoError::Mistyped(field)),
    }
}

/// The byte-string under `key`, or why there is none.
pub open spec fn bytes_field(
    entries: Seq<(Seq<u8>, Bencode)>,
    key: Seq<u8>,
    field: MetainfoField,
) -> Result<Seq<u8>, MetainfoError> {
    match lookup(entries, key) {
        None => Err(MetainfoError::Missing(field)),
        Some(Bencode::Bytes(b)) => Ok(b),
        Some(_) => Err(MetainfoError::Mistyped(field)),
    }
}

/// The info that a dictionary's entries describe: `length`, `name`,
/// `piece length` and `pieces`, each of its type, and no other key; the
/// numbers must be those of a file cut into pieces.
pub open spec fn info_of(entries: Seq<(Seq<u8>, Bencode)>) -> Result<InfoView, MetainfoError> {
    match integer_field(entries, length_key(), MetainfoField::Length) {
        Err(e) => Err(e),
        Ok(length) => match bytes_field(entries, name_key(), MetainfoField::Name) {
            Err(e) => Err(e),
            Ok(name) => match integer_field(
                entries,
                piece_length_key(),
                MetainfoField::PieceLength,
            ) {
                Err(e) => Err(e),
                Ok(piece_length) => match bytes_field(
                    entries,
                    pieces_key(),
                    MetainfoField::Pieces,
                ) {
                    Err(e) => Err(e),
                    Ok(pieces) => {
                        let info = InfoView { length, name, piece_length, pieces };
                        if entries.len() != 4 {
                            Err(MetainfoError::UnexpectedKey)
                        } else if info_fault(info) is Some {
                            Err(info_fault(info)->0)
                        } else {
                            Ok(info)
                        }
                    },
                },
            },
        },
    }
}

/// The metainfo that a value describes: a dictionary with the text
/// `announce` and the dictionary `info`; other top-level keys are ignored.
pub open spec fn metainfo_of(v: Bencode) -> Result<MetainfoView, MetainfoError> {
    match v {
        Bencode::Dict(top) => match bytes_field(top, announce_key(), MetainfoField::Announce) {
            Err(e) => Err(e),
            Ok(announce) => if !valid_utf8(announce) {
                Err(MetainfoError::Mistyped(MetainfoField::Announce))
            } else {
                match lookup(top, info_key()) {
                    None => Err(MetainfoError::Missing(MetainfoField::Info)),
                    Some(Bencode::Dict(entries)) => match info_of(entries) {
                        Err(e) => Err(e),
                        Ok(info) => Ok(MetainfoView { announce: decode_utf8(announce), info }),
                    },
                    Some(_) => Err(MetainfoError::Mistyped(MetainfoField::Info)),
                }
            },
        },
        _ => Err(MetainfoError::NotADictionary),
    }
}

/// The metainfo that a `.torrent` file's bytes describe. Bytes after the
/// top-level value are ignored.
pub open spec fn metainfo_of_bytes(bytes: Seq<u8>) -> Result<MetainfoView, MetainfoError> {
    match parse_value(bytes, 0) {
        Err(e) => Err(MetainfoError::Decode(e)),
        Ok((v, _)) => metainfo_of(v),
    }
}

/// The `info` dictionary of a single-file torrent. Its pieces cover its
/// length: with `n` digests in `pieces`,
/// `n * piece_length >= length > (n - 1) * piece_length`.
#[derive(Debug, PartialEq, Eq)]
pub struct Info {
    length: i64,
    name: Vec<u8>,
    piece_length: i64,
    pieces: Vec<u8>,
}

/// The metainfo of a single-file torrent.
#[derive(Debug, PartialEq, Eq)]
pub struct MetainfoFile {
    announce: String,
    info: Info,
}

impl View for Info {
    type V = InfoView;

    closed spec fn view(&self) -> InfoView {
        InfoView {
            length: self.length,
            name: self.name@,
            piece_length: self.piece_length,
            pieces: self.pieces@,
        }
    }
}

impl View for MetainfoFile {
    type V = MetainfoView;

    closed spec fn view(&self) -> MetainfoView {
        MetainfoView { announce: self.announce@, info: self.info@ }
    }
}

/// The key written `text`, which must be ASCII.
fn key_of(text: &str) -> (key: BencodedString)
    requires
        is_ascii(text),
    ensures
        key@ == ascii_bytes(text@),
{
    BencodedString(bytes_of_ascii(text))
}

/// The integer under `key` in `dict`, or why there is none.
fn get_integer(dict: &BencodedDict, key: &BencodedString, field: MetainfoField) -> (r: Result<
    i64,
    MetainfoError,
>)
    ensures
        r == integer_field(dict@, key@, field),
{
    match dict.get(key) {
        None => Err(MetainfoError::Missing(field)),
        Some(BencodedValue::Integer(i)) => Ok(*i),
        Some(_) => Err(MetainfoError::Mistyped(field)),
    }
}

/// The byte-string under `key` in `dict`, or why there is none.
fn get_bytes<'a>(dict: &'a BencodedDict, key: &BencodedString, field: MetainfoField) -> (r: Result<
    &'a BencodedString,
    MetainfoError,
>)
    ensures
        match r {
            Ok(s) => bytes_field(dict@, key@, field) == Ok::<_, MetainfoError>(s@),
            Err(e) => bytes_field(dict@, key@, field) == Err::<Seq<u8>, _>(e),
        },
{
    match dict.get(key) {
        None => Err(MetainfoError::Missing(field)),
        Some(BencodedValue::String(s)) => Ok(s),
        Some(_) => Err(MetainfoError::Mistyped(field)),
    }
}

impl Info {
    #[verifier::type_invariant]
    spec fn covered(self) -> bool {
        info_fault(self@) is None
    }

    /// The info with these four values, if they are those of a file cut
    /// into pieces.
    pub fn new(length: i64, name: Vec<u8>, piece_length: i64, pieces: Vec<u8>) -> (r: Result<
        Info,
        MetainfoError,
    >)
        ensures
            match r {
                Ok(info) => info@ == (InfoView { length, name: name@, piece_length, pieces: pieces@ })
                    && info_fault(info@) is None,
                Err(e) => info_fault(InfoView { length, name: name@, piece_length, pieces: pieces@ })
                    == Some(e),
            },
    {
        if length < 0 {
            return Err(MetainfoError::NegativeLength);
        }
        if pieces.len() % 20 != 0 {
            return Err(MetainfoError::PiecesLength);
        }
        let count: i128 = (pieces.len() / 20) as i128;
        let step: i128 = piece_length as i128;
        assert(-0x8000_0000_0000_0000_0000_0000_0000_0000 <= count * step
            < 0x8000_0000_0000_0000_0000_0000_0000_0000) by (nonlinear_arith)
            requires
                -0x8000_0000_0000_0000 <= step < 0x8000_0000_0000_0000,
                0 <= count <= 0xFFFF_FFFF_FFFF_FFFF,
        ;
        assert(-0x8000_0000_0000_0000_0000_0000_0000_0000 <= (count - 1) * step
            < 0x8000_0000_0000_0000_0000_0000_0000_0000) by (nonlinear_arith)
            requires
                -0x8000_0000_0000_0000 <= step < 0x8000_0000_0000_0000,
                0 <= count <= 0xFFFF_FFFF_FFFF_FFFF,
        ;
        let upper: i128 = count * step;
        let lower: i128 = (count - 1) * step;
        if !(upper >= length as i128 && length as i128 > lower) {
            return Err(MetainfoError::Partition);
        }
        Ok(Info { length, name, piece_length, pieces })
    }

    /// The size of the file in bytes.
    pub fn length(&self) -> (length: i64)
        ensures
            length == self@.length,
            length >= 0,
    {
        proof {
            use_type_invariant(self);
        }
        self.length
    }

    /// The suggested name of the file, as the bytes that the torrent holds.
    pub fn name(&self) -> (name: &Vec<u8>)
        ensures
            name@ == self@.name,
    {
        &self.name
    }

    /// The number of bytes in each piece but the last.
    pub fn piece_length(&self) -> (piece_length: i64)
        ensures
            piece_length == self@.piece_length,
            piece_length > 0,
    {
        proof {
            use_type_invariant(self);
            lemma_partition_step(self@);
        }
        self.piece_length
    }

    /// The number of pieces.
    pub fn piece_count(&self) -> (count: usize)
        ensures
            count == piece_count(self@),
            partitioned(self@.length as int, self@.piece_length as int, count as int),
    {
        proof {
            use_type_invariant(self);
        }
        self.pieces.len() / 20
    }

    /// The SHA-1 digest of each piece, in order. There are as many as it
    /// takes pieces to cover the file:
    /// `n * piece_length >= length > (n - 1) * piece_length`.
    pub fn pieces(&self) -> (hashes: Vec<[u8; 20]>)
        ensures
            hashes@.len() == piece_count(self@),
            forall|i: int| 0 <= i < hashes@.len() ==> (#[trigger] hashes@[i])@ == piece_digest(self@, i),
            partitioned(self@.length as int, self@.piece_length as int, hashes@.len() as int),
    {
        proof {
            use_type_invariant(self);
        }
        let count: usize = self.pieces.len() / 20;
        let mut hashes: Vec<[u8; 20]> = Vec::new();
        let mut i: usize = 0;
        while i < count
            invariant
                i <= count,
                count == self.pieces@.len() / 20,
                self.pieces@.len() <= usize::MAX,
                hashes@.len() == i,
                forall|k: int| 0 <= k < i ==> (#[trigger] hashes@[k])@ == piece_digest(self@, k),
            decreases count - i,
        {
            let mut hash: [u8; 20] = [0u8; 20];
            let mut j: usize = 0;
            while j < 20
                invariant
                    j <= 20,
                    20 * i + 20 <= self.pieces@.len() <= usize::MAX,
                    forall|k: int| 0 <= k < j ==> hash@[k] == self.pieces@[20 * i + k],
                decreases 20 - j,
            {
                hash[j] = self.pieces[20 * i + j];
                j += 1;
            }
            hashes.push(hash);
            i += 1;
        }
        hashes
    }

    /// The SHA-1 digest of each piece as forty hexadecimal digits, in order.
    pub fn piece_hash(&self) -> (hashes: Vec<String>)
        ensures
            hashes@.len() == piece_count(self@),
            forall|i: int|
                0 <= i < hashes@.len() ==> (#[trigger] hashes@[i])@ == hex_text(
                    piece_digest(self@, i),
                ),
    {
        let count: usize = self.pieces.len() / 20;
        let mut hashes: Vec<String> = Vec::new();
        let mut i: usize = 0;
        while i < count
            invariant
                i <= count,
                count == self.pieces@.len() / 20,
                self.pieces@.len() <= usize::MAX,
                hashes@.len() == i,
                forall|k: int|
                    0 <= k < i ==> (#[trigger] hashes@[k])@ == hex_text(piece_digest(self@, k)),
            decreases count - i,
        {
            let chunk = slice_subrange(self.pieces.as_slice(), 20 * i, 20 * i + 20);
            hashes.push(hex_of(chunk));
            i += 1;
        }
        hashes
    }

    /// The size of piece `i`: `piece_length`, except for the last piece,
    /// which has what is left of the file.
    pub fn piece_size(&self, i: usize) -> (size: i64)
        ensures
            size == piece_size_of(self@, i as int),
            i < piece_count(self@) ==> 0 < size <= self@.piece_length,
    {
        proof {
            use_type_invariant(self);
            lemma_partition_step(self@);
        }
        let count: usize = self.pieces.len() / 20;
        if count > 0 && i < count - 1 {
            self.piece_length
        } else {
            let before: i128 = count as i128 - 1;
            let step: i128 = self.piece_length as i128;
            assert(-0x8000_0000_0000_0000 <= before * step <= self.length) by (nonlinear_arith)
                requires
                    -1 <= before,
                    0 < step < 0x8000_0000_0000_0000,
                    self.length as int > before * step,
            ;
            let size: i128 = self.length as i128 - before * step;
            assert(0 < size <= step) by (nonlinear_arith)
                requires
                    size == self.length - before * step,
                    (before + 1) * step >= self.length > before * step,
            ;
            size as i64
        }
    }

    /// Whether `bytes` are piece `i`: whether their SHA-1 digest is the one
    /// that the torrent gives for that piece.
    pub fn verify_piece(&self, i: usize, bytes: &[u8]) -> (ok: bool)
        ensures
            ok == (i < piece_count(self@) && sha1_digest(bytes@) == piece_digest(self@, i as int)),
    {
        let count: usize = self.pieces.len() / 20;
        if i >= count {
            return false;
        }
        let digest: [u8; 20] = sha1_of(bytes);
        let expected = slice_subrange(self.pieces.as_slice(), 20 * i, 20 * i + 20);
        bytes_equal(digest.as_slice(), expected)
    }

    /// The `info` dictionary as a bencoded value.
    pub fn to_bencode(&self) -> (value: BencodedValue)
        ensures
            value@ == info_dict(self@),
    {
        proof {
            reveal_strlit("length");
            reveal_strlit("name");
            reveal_strlit("piece length");
            reveal_strlit("pieces");
        }
        let mut dict = BencodedDict::new();
        let ghost e0 = (length_key(), Bencode::Int(self.length));
        let ghost e1 = (name_key(), Bencode::Bytes(self.name@));
        let ghost e2 = (piece_length_key(), Bencode::Int(self.piece_length));
        let ghost e3 = (pieces_key(), Bencode::Bytes(self.pieces@));
        proof {
            lemma_info_keys_ascend();
            lemma_insert_entry_at(Seq::empty(), e0.0, e0.1, 0);
            lemma_insert_entry_at(seq![e0], e1.0, e1.1, 1);
            lemma_insert_entry_at(seq![e0, e1], e2.0, e2.1, 2);
            lemma_insert_entry_at(seq![e0, e1, e2], e3.0, e3.1, 3);
            assert(seq![e0].insert(1, e1) =~= seq![e0, e1]);
            assert(seq![e0, e1].insert(2, e2) =~= seq![e0, e1, e2]);
            assert(seq![e0, e1, e2].insert(3, e3) =~= seq![e0, e1, e2, e3]);
        }
        dict.insert(key_of("length"), BencodedValue::Integer(self.length));
        dict.insert(
            key_of("name"),
            BencodedValue::String(BencodedString(slice_to_vec(self.name.as_slice()))),
        );
        dict.insert(key_of("piece length"), BencodedValue::Integer(self.piece_length));
        dict.insert(
            key_of("pieces"),
            BencodedValue::String(BencodedString(slice_to_vec(self.pieces.as_slice()))),
        );
        BencodedValue::Dict(dict)
    }

    /// The info-hash: the SHA-1 digest of the canonical bencoding of the
    /// `info` dictionary. It is a function of the four values alone.
    pub fn info_hash(&self) -> (hash: [u8; 20])
        ensures
            hash@ == sha1_digest(encode(info_dict(self@))),
    {
        let bytes = self.bencode();
        sha1_of(bytes.as_slice())
    }

    /// The info-hash as forty hexadecimal digits.
    pub fn info_hash_hex(&self) -> (hash: String)
        ensures
            hash@ == hex_text(sha1_digest(encode(info_dict(self@)))),
    {
        let hash = self.info_hash();
        hex_of(hash.as_slice())
    }
}

impl Bencodeable for Info {
    open spec fn bencoding(&self) -> Seq<u8> {
        encode(info_dict(self@))
    }

    /// The canonical bencoding of the `info` dictionary: the bytes that the
    /// info-hash is the digest of.
    fn bencode(&self) -> (out: Vec<u8>) {
        let value = self.to_bencode();
        let mut out: Vec<u8> = Vec::new();
        encode_value(&value, &mut out);
        out
    }
}

/// The four keys of an info dictionary are in ascending order as listed.
pub proof fn lemma_info_keys_ascend()
    ensures
        lex_less(length_key(), name_key()),
        lex_less(length_key(), piece_length_key()),
        lex_less(length_key(), pieces_key()),
        lex_less(name_key(), piece_length_key()),
        lex_less(name_key(), pieces_key()),
        lex_less(piece_length_key(), pieces_key()),
{
    reveal_strlit("length");
    reveal_strlit("name");
    reveal_strlit("piece length");
    reveal_strlit("pieces");
    reveal_with_fuel(lex_less_from, 7);
}

/// The info-hash is taken over the dictionary that was decoded: where the
/// entries of a decoded `info` dictionary, which are in ascending order,
/// describe an info, the dictionary made of its four values is that
/// dictionary, entry for entry.
pub proof fn lemma_info_dict_is_decoded(entries: Seq<(Seq<u8>, Bencode)>)
    requires
        strictly_ascending(entry_keys(entries)),
        info_of(entries) is Ok,
    ensures
        info_dict(info_of(entries)->Ok_0) == Bencode::Dict(entries),
{
    lemma_info_keys_ascend();
    let at_length = lemma_lookup_found(entries, length_key());
    let at_name = lemma_lookup_found(entries, name_key());
    let at_piece_length = lemma_lookup_found(entries, piece_length_key());
    let at_pieces = lemma_lookup_found(entries, pieces_key());
    lemma_ascending_positions(entries, at_length, at_name);
    lemma_ascending_positions(entries, at_name, at_piece_length);
    lemma_ascending_positions(entries, at_piece_length, at_pieces);
    assert(info_dict(info_of(entries)->Ok_0)->Dict_0 =~= entries);
}

/// The dictionary that is hashed is the one in the file: where the bytes of
/// a `.torrent` file describe a metainfo, the `info` dictionary made of its
/// four values is the very value that the file holds under `info`.
pub proof fn lemma_hashed_info_is_the_files(bytes: Seq<u8>)
    requires
        metainfo_of_bytes(bytes) is Ok,
    ensures
        parse_value(bytes, 0) matches Ok((Bencode::Dict(top), _)) && lookup(top, info_key())
            == Some(info_dict(metainfo_of_bytes(bytes)->Ok_0.info)),
{
    lemma_parse_value_canonical(bytes, 0);
    let top = parse_value(bytes, 0)->Ok_0.0->Dict_0;
    let at = lemma_lookup_found(top, info_key());
    assert(top[at].1.canonical());
    lemma_info_dict_is_decoded(top[at].1->Dict_0);
}

/// In ascending entries a smaller key stands before a greater one.
pub proof fn lemma_ascending_positions(entries: Seq<(Seq<u8>, Bencode)>, i: int, j: int)
    requires
        strictly_ascending(entry_keys(entries)),
        0 <= i < entries.len(),
        0 <= j < entries.len(),
        lex_less(entries[i].0, entries[j].0),
    ensures
        i < j,
{
    if i == j {
        lemma_lex_irreflexive(entries[i].0);
    } else if i > j {
        assert(lex_less(entry_keys(entries)[j], entry_keys(entries)[i]));
        lemma_lex_asymmetric(entries[i].0, entries[j].0);
    }
}

/// Pieces that cover a file have a positive length.
pub proof fn lemma_partition_step(info: InfoView)
    requires
        info_fault(info) is None,
    ensures
        info.piece_length > 0,
{
    let count = piece_count(info);
    let step = info.piece_length as int;
    assert(count * step - (count - 1) * step == step) by (nonlinear_arith);
}

impl MetainfoFile {
    /// The metainfo with this tracker URL and this info.
    pub fn new(announce: String, info: Info) -> (metainfo: MetainfoFile)
        ensures
            metainfo@ == (MetainfoView { announce: announce@, info: info@ }),
    {
        MetainfoFile { announce, info }
    }

    /// The URL of the tracker.
    pub fn announce(&self) -> (announce: &str)
        ensures
            announce@ == self@.announce,
    {
        self.announce.as_str()
    }

    /// The `info` dictionary.
    pub fn info(&self) -> (info: &Info)
        ensures
            info@ == self@.info,
    {
        &self.info
    }

    /// The metainfo that the decoded value describes.
    pub fn from_bencode(value: &BencodedValue) -> (r: Result<MetainfoFile, MetainfoError>)
        ensures
            match r {
                Ok(metainfo) => metainfo_of(value@) == Ok::<_, MetainfoError>(metainfo@),
                Err(e) => metainfo_of(value@) == Err::<MetainfoView, _>(e),
            },
    {
        proof {
            reveal_strlit("announce");
            reveal_strlit("info");
            reveal_strlit("length");
            reveal_strlit("name");
            reveal_strlit("piece length");
            reveal_strlit("pieces");
        }
        let top = match value {
            BencodedValue::Dict(top) => top,
            _ => {
                return Err(MetainfoError::NotADictionary);
            },
        };
        let announce_bytes = get_bytes(top, &key_of("announce"), MetainfoField::Announce)?;
        let announce = match utf8_text(slice_to_vec(announce_bytes.0.as_slice())) {
            Some(text) => text,
            None => {
                return Err(MetainfoError::Mistyped(MetainfoField::Announce));
            },
        };
        let entries = match top.get(&key_of("info")) {
            None => {
                return Err(MetainfoError::Missing(MetainfoField::Info));
            },
            Some(BencodedValue::Dict(entries)) => entries,
            Some(_) => {
                return Err(MetainfoError::Mistyped(MetainfoField::Info));
            },
        };
        let length = get_integer(entries, &key_of("length"), MetainfoField::Length)?;
        let name = get_bytes(entries, &key_of("name"), MetainfoField::Name)?;
        let piece_length = get_integer(
            entries,
            &key_of("piece length"),
            MetainfoField::PieceLength,
        )?;
        let pieces = get_bytes(entries, &key_of("pieces"), MetainfoField::Pieces)?;
        if entries.len() != 4 {
            return Err(MetainfoError::UnexpectedKey);
        }
        let info = Info::new(
            length,
            slice_to_vec(name.0.as_slice()),
            piece_length,
            slice_to_vec(pieces.0.as_slice()),
        )?;
        Ok(MetainfoFile { announce, info })
    }

    /// The metainfo that the bytes of a `.torrent` file describe.
    pub fn parse(bytes: &[u8]) -> (r: Result<MetainfoFile, MetainfoError>)
        ensures
            match r {
                Ok(metainfo) => metainfo_of_bytes(bytes@) == Ok::<_, MetainfoError>(metainfo@),
                Err(e) => metainfo_of_bytes(bytes@) == Err::<MetainfoView, _>(e),
            },
    {
        match decode_bencoded_value(bytes) {
            Err(e) => Err(MetainfoError::Decode(e)),
            Ok((_, value)) => MetainfoFile::from_bencode(&value),
        }
    }
}

} // verus!
