//! The handshake that opens a peer connection: a fixed frame of 68 bytes.

use vstd::prelude::*;
use vstd::slice::{slice_subrange, slice_to_vec};
use vstd::string::is_ascii;
use vstd::utf8::{encode_utf8, is_ascii_chars_encode_utf8};

use crate::lex::bytes_equal;
use crate::text::{ascii_bytes, bytes_of_ascii};
use crate::tracker::PEER_ID;

verus! {

/// The name of the protocol, as the handshake spells it.
pub const PROTOCOL: &'static str = "BitTorrent protocol";

/// The number of bytes in a handshake.
pub const HANDSHAKE_LENGTH: usize = 68;

/// What a `PeerHandshake` holds.
pub struct HandshakeView {
    pub length: u64,
    pub protocol: Seq<char>,
    pub reserved: Seq<u8>,
    pub info_hash: Seq<u8>,
    pub peer_id: Seq<u8>,
}

/// Why bytes are not the handshake that was expected.
#[derive(Debug, PartialEq, Eq, Clone, Copy)]
pub enum HandshakeError {
    /// Fewer than 68 bytes.
    Truncated,
    /// The first byte is not 19, or the 19 bytes after it are not the
    /// protocol's name.
    Protocol,
    /// The handshake is for another torrent.
    InfoHash,
}

/// The opening frame of a peer connection.
#[derive(Debug, PartialEq, Eq, Clone)]
pub struct PeerHandshake {
    /// The length of the protocol's name: 19.
    pub length: u64,
    /// The protocol's name: `BitTorrent protocol`.
    pub protocol: String,
    /// Eight reserved bytes, all zero.
    pub reserved: Vec<u8>,
    /// The info-hash of the torrent: twenty bytes.
    pub info_hash: Vec<u8>,
    /// The id of the peer that sends the handshake: twenty bytes.
    pub peer_id: Vec<u8>,
}

impl View for PeerHandshake {
    type V = HandshakeView;

    open spec fn view(&self) -> HandshakeView {
        HandshakeView {
            length: self.length,
            protocol: self.protocol@,
            reserved: self.reserved@,
            info_hash: self.info_hash@,
            peer_id: self.peer_id@,
        }
    }
}

/// Eight zero bytes.
pub open spec fn no_flags() -> Seq<u8> {
    Seq::new(8, |i: int| 0u8)
}

/// Whether a handshake has the fixed shape: length 19, the protocol's name,
/// eight reserved bytes, twenty bytes of info-hash and twenty of peer id.
pub open spec fn well_formed(h: HandshakeView) -> bool {
    &&& h.length == 19
    &&& h.protocol == PROTOCOL@
    &&& h.reserved.len() == 8
    &&& h.info_hash.len() == 20
    &&& h.peer_id.len() == 20
}

/// The bytes of a handshake: the low byte of the length, the protocol's
/// name in UTF-8, the reserved bytes, the info-hash, the peer id.
pub open spec fn handshake_bytes(h: HandshakeView) -> Seq<u8> {
    seq![(h.length % 256) as u8] + encode_utf8(h.protocol) + h.reserved + h.info_hash + h.peer_id
}

/// The handshake in the first 68 bytes of `bytes`: the byte 19, the
/// protocol's name, then eight reserved bytes, the info-hash and the peer
/// id, taken as they are.
pub open spec fn parse_handshake(bytes: Seq<u8>) -> Result<HandshakeView, HandshakeError> {
    if bytes.len() < 68 {
        Err(HandshakeError::Truncated)
    } else if bytes[0] != 19 || bytes.subrange(1, 20) != ascii_bytes(PROTOCOL@) {
        Err(HandshakeError::Protocol)
    } else {
        Ok(
            HandshakeView {
                length: 19,
                protocol: PROTOCOL@,
                reserved: bytes.subrange(20, 28),
                info_hash: bytes.subrange(28, 48),
                peer_id: bytes.subrange(48, 68),
            },
        )
    }
}

/// The protocol's name is ASCII, nineteen characters, and so nineteen bytes.
pub proof fn lemma_protocol_bytes()
    ensures
        PROTOCOL@.len() == 19,
        is_ascii(PROTOCOL),
        encode_utf8(PROTOCOL@) == ascii_bytes(PROTOCOL@),
{
    reveal_strlit("BitTorrent protocol");
    is_ascii_chars_encode_utf8(PROTOCOL@);
}

/// A well-formed handshake takes 68 bytes, and reading them gives it back.
pub proof fn lemma_handshake_round_trip(h: HandshakeView)
    requires
        well_formed(h),
    ensures
        handshake_bytes(h).len() == 68,
        parse_handshake(handshake_bytes(h)) == Ok::<_, HandshakeError>(h),
{
    lemma_protocol_bytes();
    let bytes = handshake_bytes(h);
    assert(bytes.subrange(1, 20) =~= ascii_bytes(PROTOCOL@));
    assert(bytes.subrange(20, 28) =~= h.reserved);
    assert(bytes.subrange(28, 48) =~= h.info_hash);
    assert(bytes.subrange(48, 68) =~= h.peer_id);
}

/// What the result of reading a handshake stands for.
pub open spec fn shaken(r: Result<PeerHandshake, HandshakeError>) -> Result<
    HandshakeView,
    HandshakeError,
> {
    match r {
        Ok(h) => Ok(h@),
        Err(e) => Err(e),
    }
}

/// Eight zero bytes.
fn zero_flags() -> (flags: Vec<u8>)
    ensures
        flags@ == no_flags(),
{
    let mut flags: Vec<u8> = Vec::new();
    let mut i: usize = 0;
    while i < 8
        invariant
            i <= 8,
            flags@.len() == i,
            forall|k: int| 0 <= k < i ==> flags@[k] == 0u8,
        decreases 8 - i,
    {
        flags.push(0u8);
        i += 1;
    }
    flags
}

impl Default for PeerHandshake {
    /// This client's handshake for no torrent yet: everything but the
    /// info-hash, which is empty.
    fn default() -> (h: PeerHandshake)
        ensures
            h@.length == 19,
            h@.protocol == PROTOCOL@,
            h@.reserved == no_flags(),
            h@.info_hash == Seq::<u8>::empty(),
            h@.peer_id == ascii_bytes(PEER_ID@),
    {
        proof {
            reveal_strlit("-TR2940-2b3b6b4b5b6b");
        }
        PeerHandshake {
            length: 19,
            protocol: PROTOCOL.to_owned(),
            reserved: zero_flags(),
            info_hash: Vec::new(),
            peer_id: bytes_of_ascii(PEER_ID),
        }
    }
}

impl PeerHandshake {
    /// The handshake for the torrent `info_hash` from the peer `peer_id`.
    pub fn new(info_hash: Vec<u8>, peer_id: Vec<u8>) -> (h: PeerHandshake)
        ensures
            h@ == (HandshakeView {
                length: 19,
                protocol: PROTOCOL@,
                reserved: no_flags(),
                info_hash: info_hash@,
                peer_id: peer_id@,
            }),
    {
        PeerHandshake {
            length: 19,
            protocol: PROTOCOL.to_owned(),
            reserved: zero_flags(),
            info_hash,
            peer_id,
        }
    }

    /// The bytes of the handshake, field after field.
    pub fn to_bytes(&self) -> (bytes: Vec<u8>)
        ensures
            bytes@ == handshake_bytes(self@),
    {
        let mut bytes: Vec<u8> = Vec::new();
        bytes.push((self.length % 256) as u8);
        bytes.extend_from_slice(self.protocol.as_str().as_bytes());
        bytes.extend_from_slice(self.reserved.as_slice());
        bytes.extend_from_slice(self.info_hash.as_slice());
        bytes.extend_from_slice(self.peer_id.as_slice());
        bytes
    }

    /// The handshake in the first 68 bytes of `bytes`.
    pub fn from_bytes(bytes: &[u8]) -> (r: Result<PeerHandshake, HandshakeError>)
        ensures
            shaken(r) == parse_handshake(bytes@),
    {
        if bytes.len() < 68 {
            return Err(HandshakeError::Truncated);
        }
        proof {
            lemma_protocol_bytes();
        }
        let name = bytes_of_ascii(PROTOCOL);
        if bytes[0] != 19u8 || !bytes_equal(slice_subrange(bytes, 1, 20), name.as_slice()) {
            return Err(HandshakeError::Protocol);
        }
        Ok(
            PeerHandshake {
                length: 19,
                protocol: PROTOCOL.to_owned(),
                reserved: slice_to_vec(slice_subrange(bytes, 20, 28)),
                info_hash: slice_to_vec(slice_subrange(bytes, 28, 48)),
                peer_id: slice_to_vec(slice_subrange(bytes, 48, 68)),
            },
        )
    }
}

} // verus!
