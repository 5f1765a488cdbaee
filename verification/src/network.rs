//! Everything that goes over the network, under one roof: the tracker's
//! formats, the handshake, the peer messages, the session and the piece
//! download.

pub use crate::handshake::{HandshakeError, PeerHandshake, HANDSHAKE_LENGTH, PROTOCOL};
pub use crate::message::{frame_body_length, FramingError, PeerMessage};
pub use crate::piece::{block_requests, PieceDownload, PieceError, BLOCK_SIZE};
pub use crate::session::{PeerState, PeerStream, SessionError};
pub use crate::tracker::{
    announce_url, parse_announce_response, parse_compact_peers, url_encode, urlencode, PeerAddr,
    TrackerError, TrackerPayload, TrackerResponse, PEER_ID, PORT,
};
