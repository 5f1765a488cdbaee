//! The session with one peer, as a state machine: what to send, and what
//! each thing received does to the session. The socket stays with the
//! caller, which writes the bytes that these functions return and hands
//! them the bytes that it read.

use vstd::prelude::*;
use vstd::slice::slice_to_vec;

use crate::handshake::{
    handshake_bytes, lemma_handshake_round_trip, no_flags, parse_handshake, HandshakeError,
    HandshakeView, PeerHandshake, PROTOCOL,
};
use crate::lex::bytes_equal;
use crate::message::{fits, frame, parse_frame, FramingError, Message, PeerMessage};
use crate::piece::{fresh_piece, messages_view, request_plan, PieceDownload, PieceError, PieceView};
use crate::text::{ascii_bytes, bytes_of_ascii};
use crate::tracker::PEER_ID;

verus! {

/// How far a session has come.
#[derive(Debug, PartialEq, Eq, Clone, Copy)]
pub enum PeerState {
    /// Connected; nothing exchanged yet.
    Init,
    /// The handshakes have been exchanged.
    Handshake,
    /// The peer has sent its bitfield.
    Bitfield,
    /// The peer has been told of our interest.
    Interested,
    /// The peer has unchoked us: pieces can be asked for.
    Unchoke,
}

/// Why a step of the session failed.
#[derive(Debug, PartialEq, Eq, Clone, Copy)]
pub enum SessionError {
    /// The operation does not belong to the state that the session is in.
    State,
    /// The peer's handshake is wrong.
    Handshake(HandshakeError),
    /// What was read or is to be written is not a frame.
    Framing(FramingError),
    /// The peer sent a message other than the one that comes next.
    UnexpectedMessage,
    /// The piece in flight could not be had.
    Piece(PieceError),
}

/// What a `PeerStream` holds.
pub struct SessionView {
    pub state: PeerState,
    /// The bitfield that the peer sent, empty before it has.
    pub bitfield: Seq<u8>,
    /// The download in flight, if there is one.
    pub download: Option<PieceView>,
}

/// The handshake that this client sends for the torrent `info_hash`.
pub open spec fn our_handshake(info_hash: Seq<u8>) -> HandshakeView {
    HandshakeView {
        length: 19,
        protocol: PROTOCOL@,
        reserved: no_flags(),
        info_hash,
        peer_id: ascii_bytes(PEER_ID@),
    }
}

/// What the peer's handshake does to a session: in `Init`, a handshake with
/// the right protocol and this torrent's info-hash takes it to `Handshake`.
pub open spec fn handshake_step(v: SessionView, info_hash: Seq<u8>, reply: Seq<u8>) -> Result<
    (SessionView, HandshakeView),
    SessionError,
> {
    if v.state != PeerState::Init {
        Err(SessionError::State)
    } else {
        match parse_handshake(reply) {
            Err(e) => Err(SessionError::Handshake(e)),
            Ok(theirs) => if theirs.info_hash != info_hash {
                Err(SessionError::Handshake(HandshakeError::InfoHash))
            } else {
                Ok((SessionView { state: PeerState::Handshake, ..v }, theirs))
            },
        }
    }
}

/// The message in a frame, for a session that is past the handshake.
pub open spec fn read_step(v: SessionView, bytes: Seq<u8>) -> Result<Message, SessionError> {
    if v.state == PeerState::Init {
        Err(SessionError::State)
    } else {
        match parse_frame(bytes) {
            Err(e) => Err(SessionError::Framing(e)),
            Ok(m) => Ok(m),
        }
    }
}

/// The frame of a message, for a session that is past the handshake.
pub open spec fn write_step(v: SessionView, m: Message) -> Result<Seq<u8>, SessionError> {
    if v.state == PeerState::Init {
        Err(SessionError::State)
    } else if !fits(m) {
        Err(SessionError::Framing(FramingError::ImpossibleLength))
    } else {
        Ok(frame(m))
    }
}

/// What the frame after the handshake does to a session: in `Handshake`, a
/// bitfield is kept and takes the session to `Bitfield`.
pub open spec fn bitfield_step(v: SessionView, bytes: Seq<u8>) -> Result<
    (SessionView, Message),
    SessionError,
> {
    if v.state != PeerState::Handshake {
        Err(SessionError::State)
    } else {
        match parse_frame(bytes) {
            Err(e) => Err(SessionError::Framing(e)),
            Ok(Message::Bitfield(bits)) => Ok(
                (
                    SessionView { state: PeerState::Bitfield, bitfield: bits, ..v },
                    Message::Bitfield(bits),
                ),
            ),
            Ok(_) => Err(SessionError::UnexpectedMessage),
        }
    }
}

/// What a frame does to a session that waits to be unchoked: in
/// `Interested`, a keep-alive changes nothing, an unchoke takes the session
/// to `Unchoke`, and any other message is an error.
pub open spec fn unchoke_step(v: SessionView, bytes: Seq<u8>) -> Result<
    (SessionView, Message),
    SessionError,
> {
    if v.state != PeerState::Interested {
        Err(SessionError::State)
    } else {
        match parse_frame(bytes) {
            Err(e) => Err(SessionError::Framing(e)),
            Ok(Message::KeepAlive) => Ok((v, Message::KeepAlive)),
            Ok(Message::Unchoke) => Ok(
                (SessionView { state: PeerState::Unchoke, ..v }, Message::Unchoke),
            ),
            Ok(_) => Err(SessionError::UnexpectedMessage),
        }
    }
}

/// What starting a download does to a session: in `Unchoke`, with no
/// download in flight, a fresh download of the piece is in flight.
pub open spec fn download_step(v: SessionView, index: u32, size: u32) -> Result<
    SessionView,
    SessionError,
> {
    if v.state != PeerState::Unchoke || v.download is Some {
        Err(SessionError::State)
    } else {
        Ok(SessionView { download: Some(fresh_piece(index, size)), ..v })
    }
}

/// What a frame does to a session with a download in flight: the message
/// in it is taken in by the download. Yields the session and whether the
/// piece is complete.
pub open spec fn block_step(v: SessionView, bytes: Seq<u8>) -> Result<
    (SessionView, bool),
    SessionError,
> {
    match v.download {
        None => Err(SessionError::State),
        Some(download) => match parse_frame(bytes) {
            Err(e) => Err(SessionError::Framing(e)),
            Ok(m) => match download.step(m) {
                Err(e) => Err(SessionError::Piece(e)),
                Ok(after) => Ok((SessionView { download: Some(after), ..v }, after.complete())),
            },
        },
    }
}

/// The bytes of the piece in flight, if it is complete and has the digest
/// `expected`.
pub open spec fn finish_step(v: SessionView, expected: Seq<u8>) -> Result<Seq<u8>, SessionError> {
    match v.download {
        None => Err(SessionError::State),
        Some(download) => match download.outcome(expected) {
            Ok(bytes) => Ok(bytes),
            Err(e) => Err(SessionError::Piece(e)),
        },
    }
}

/// What the result of a step that yields requests stands for.
pub open spec fn requests_made(r: Result<Vec<PeerMessage>, SessionError>) -> Result<
    Seq<Message>,
    SessionError,
> {
    match r {
        Ok(requests) => Ok(messages_view(requests@)),
        Err(e) => Err(e),
    }
}

/// What the result of a step that yields a message stands for.
pub open spec fn message_read(r: Result<PeerMessage, SessionError>) -> Result<Message, SessionError> {
    match r {
        Ok(message) => Ok(message@),
        Err(e) => Err(e),
    }
}

/// What the result of a step that yields bytes stands for.
pub open spec fn bytes_written(r: Result<Vec<u8>, SessionError>) -> Result<Seq<u8>, SessionError> {
    match r {
        Ok(bytes) => Ok(bytes@),
        Err(e) => Err(e),
    }
}

/// What the result of a step that yields a handshake stands for.
pub open spec fn handshake_read(r: Result<PeerHandshake, SessionError>) -> Result<
    HandshakeView,
    SessionError,
> {
    match r {
        Ok(h) => Ok(h@),
        Err(e) => Err(e),
    }
}

/// The protocol state of a connection to one peer. At most one piece is on
/// its way at a time, and only once the peer has unchoked us.
#[derive(Debug)]
pub struct PeerStream {
    state: PeerState,
    bitfield: Vec<u8>,
    download: Option<PieceDownload>,
}

impl View for PeerStream {
    type V = SessionView;

    closed spec fn view(&self) -> SessionView {
        SessionView {
            state: self.state,
            bitfield: self.bitfield@,
            download: match self.download {
                Some(download) => Some(download@),
                None => None,
            },
        }
    }
}

impl PeerStream {
    #[verifier::type_invariant]
    spec fn orderly(self) -> bool {
        self.download is Some ==> self.state == PeerState::Unchoke
    }

    /// The session of a connection that has just been made.
    pub fn new() -> (session: PeerStream)
        ensures
            session@ == (SessionView {
                state: PeerState::Init,
                bitfield: Seq::empty(),
                download: None,
            }),
    {
        PeerStream { state: PeerState::Init, bitfield: Vec::new(), download: None }
    }

    /// Whether a piece is on its way, which can be only in `Unchoke`.
    pub fn is_downloading(&self) -> (downloading: bool)
        ensures
            downloading == (self@.download is Some),
            downloading ==> self@.state == PeerState::Unchoke,
    {
        proof {
            use_type_invariant(self);
        }
        self.download.is_some()
    }

    /// How far the session has come.
    pub fn state(&self) -> (state: PeerState)
        ensures
            state == self@.state,
    {
        self.state
    }

    /// The bitfield that the peer sent; empty before it has.
    pub fn bitfield(&self) -> (bits: &Vec<u8>)
        ensures
            bits@ == self@.bitfield,
    {
        &self.bitfield
    }

    /// The 68 bytes to write first: this client's handshake for the torrent
    /// `info_hash`. Only a session in `Init` has one to send.
    pub fn handshake_request(&self, info_hash: &[u8; 20]) -> (r: Result<Vec<u8>, SessionError>)
        ensures
            match r {
                Ok(bytes) => self@.state == PeerState::Init && bytes@ == handshake_bytes(
                    our_handshake(info_hash@),
                ) && bytes@.len() == 68,
                Err(e) => self@.state != PeerState::Init && e == SessionError::State,
            },
    {
        match self.state {
            PeerState::Init => {},
            _ => {
                return Err(SessionError::State);
            },
        }
        proof {
            reveal_strlit("-TR2940-2b3b6b4b5b6b");
            lemma_handshake_round_trip(our_handshake(info_hash@));
        }
        let ours = PeerHandshake::new(slice_to_vec(info_hash.as_slice()), bytes_of_ascii(PEER_ID));
        Ok(ours.to_bytes())
    }

    /// Takes in the 68 bytes that the peer answered the handshake with:
    /// `Init` to `Handshake`. The answer must name the protocol and the
    /// same torrent. Returns the peer's handshake, which holds its peer id.
    pub fn handshake(&mut self, info_hash: &[u8; 20], reply: &[u8]) -> (r: Result<
        PeerHandshake,
        SessionError,
    >)
        ensures
            match handshake_step(old(self)@, info_hash@, reply@) {
                Ok((after, theirs)) => final(self)@ == after && handshake_read(r) == Ok::<
                    _,
                    SessionError,
                >(theirs),
                Err(e) => final(self)@ == old(self)@ && handshake_read(r) == Err::<HandshakeView, _>(
                    e,
                ),
            },
    {
        proof {
            use_type_invariant(&*self);
        }
        match self.state {
            PeerState::Init => {},
            _ => {
                return Err(SessionError::State);
            },
        }
        let theirs = match PeerHandshake::from_bytes(reply) {
            Err(e) => {
                return Err(SessionError::Handshake(e));
            },
            Ok(theirs) => theirs,
        };
        if !bytes_equal(theirs.info_hash.as_slice(), info_hash.as_slice()) {
            return Err(SessionError::Handshake(HandshakeError::InfoHash));
        }
        self.state = PeerState::Handshake;
        Ok(theirs)
    }

    /// The message in the frame `frame`, which was read from the peer. No
    /// message can be read before the handshake.
    pub fn read(&self, frame: &[u8]) -> (r: Result<PeerMessage, SessionError>)
        ensures
            message_read(r) == read_step(self@, frame@),
    {
        match self.state {
            PeerState::Init => {
                return Err(SessionError::State);
            },
            _ => {},
        }
        match PeerMessage::from_bytes(frame) {
            Err(e) => Err(SessionError::Framing(e)),
            Ok(message) => Ok(message),
        }
    }

    /// The frame to write for `message`. No message can be written before
    /// the handshake.
    pub fn write(&self, message: &PeerMessage) -> (r: Result<Vec<u8>, SessionError>)
        ensures
            bytes_written(r) == write_step(self@, message@),
    {
        match self.state {
            PeerState::Init => {
                return Err(SessionError::State);
            },
            _ => {},
        }
        match message.to_bytes() {
            Err(e) => Err(SessionError::Framing(e)),
            Ok(bytes) => Ok(bytes),
        }
    }

    /// Takes in the frame that follows the handshake: `Handshake` to
    /// `Bitfield`. It must hold a bitfield, which the session keeps.
    /// Returns the message.
    pub fn read_bitfield(&mut self, frame: &[u8]) -> (r: Result<PeerMessage, SessionError>)
        ensures
            match bitfield_step(old(self)@, frame@) {
                Ok((after, m)) => final(self)@ == after && message_read(r) == Ok::<_, SessionError>(
                    m,
                ),
                Err(e) => final(self)@ == old(self)@ && message_read(r) == Err::<Message, _>(e),
            },
    {
        proof {
            use_type_invariant(&*self);
        }
        match self.state {
            PeerState::Handshake => {},
            _ => {
                return Err(SessionError::State);
            },
        }
        match PeerMessage::from_bytes(frame) {
            Err(e) => Err(SessionError::Framing(e)),
            Ok(PeerMessage::Bitfield(bits)) => {
                self.bitfield = slice_to_vec(bits.as_slice());
                self.state = PeerState::Bitfield;
                Ok(PeerMessage::Bitfield(bits))
            },
            Ok(_) => Err(SessionError::UnexpectedMessage),
        }
    }

    /// Says that we are interested: `Bitfield` to `Interested`. Returns the
    /// frame to write, an `interested` message.
    pub fn write_interested(&mut self) -> (r: Result<Vec<u8>, SessionError>)
        ensures
            match r {
                Ok(bytes) => old(self)@.state == PeerState::Bitfield && bytes@ == frame(
                    Message::Interested,
                ) && final(self)@ == (SessionView { state: PeerState::Interested, ..old(self)@ }),
                Err(e) => old(self)@.state != PeerState::Bitfield && e == SessionError::State
                    && final(self)@ == old(self)@,
            },
    {
        proof {
            use_type_invariant(&*self);
        }
        match self.state {
            PeerState::Bitfield => {},
            _ => {
                return Err(SessionError::State);
            },
        }
        match PeerMessage::Interested.to_bytes() {
            Ok(bytes) => {
                self.state = PeerState::Interested;
                Ok(bytes)
            },
            Err(_) => unreached(),
        }
    }

    /// Takes in a frame while waiting to be unchoked: `Interested` to
    /// `Unchoke` on an `unchoke`. A keep-alive is passed over: the session
    /// stays as it is and the next frame is to be read. Any other message
    /// is an error. Returns the message.
    pub fn read_unchoke(&mut self, frame: &[u8]) -> (r: Result<PeerMessage, SessionError>)
        ensures
            match unchoke_step(old(self)@, frame@) {
                Ok((after, m)) => final(self)@ == after && message_read(r) == Ok::<_, SessionError>(
                    m,
                ),
                Err(e) => final(self)@ == old(self)@ && message_read(r) == Err::<Message, _>(e),
            },
    {
        proof {
            use_type_invariant(&*self);
        }
        match self.state {
            PeerState::Interested => {},
            _ => {
                return Err(SessionError::State);
            },
        }
        match PeerMessage::from_bytes(frame) {
            Err(e) => Err(SessionError::Framing(e)),
            Ok(PeerMessage::KeepAlive) => Ok(PeerMessage::KeepAlive),
            Ok(PeerMessage::Unchoke) => {
                self.state = PeerState::Unchoke;
                Ok(PeerMessage::Unchoke)
            },
            Ok(_) => Err(SessionError::UnexpectedMessage),
        }
    }

    /// Starts the download of piece `piece_id`, which has `piece_length`
    /// bytes: `Unchoke` to `Unchoke`. Only one download is in flight at a
    /// time. Returns the requests to send: one for each block of 16 KiB,
    /// the last block being what is left of the piece.
    pub fn download_piece(&mut self, piece_id: u32, piece_length: u32) -> (r: Result<
        Vec<PeerMessage>,
        SessionError,
    >)
        ensures
            match download_step(old(self)@, piece_id, piece_length) {
                Ok(after) => final(self)@ == after && requests_made(r) == Ok::<_, SessionError>(
                    request_plan(piece_id, piece_length),
                ),
                Err(e) => final(self)@ == old(self)@ && requests_made(r) == Err::<Seq<Message>, _>(
                    e,
                ),
            },
    {
        proof {
            use_type_invariant(&*self);
        }
        match self.state {
            PeerState::Unchoke => {},
            _ => {
                return Err(SessionError::State);
            },
        }
        if self.download.is_some() {
            return Err(SessionError::State);
        }
        let download = PieceDownload::new(piece_id, piece_length);
        let requests = download.requests();
        self.download = Some(download);
        Ok(requests)
    }

    /// Takes in a frame while a piece is on its way. A block that was asked
    /// for is put at its `begin`, in whatever order the blocks arrive; a
    /// keep-alive is passed over; a choke, or any other message, is an
    /// error. An error leaves the session and the download as they were.
    /// Returns whether all blocks of the piece are there.
    pub fn receive_block(&mut self, frame: &[u8]) -> (r: Result<bool, SessionError>)
        ensures
            match block_step(old(self)@, frame@) {
                Ok((after, complete)) => final(self)@ == after && r == Ok::<_, SessionError>(
                    complete,
                ),
                Err(e) => final(self)@ == old(self)@ && r == Err::<bool, _>(e),
            },
    {
        proof {
            use_type_invariant(&*self);
        }
        let mut slot: Option<PieceDownload> = None;
        core::mem::swap(&mut self.download, &mut slot);
        match slot {
            None => Err(SessionError::State),
            Some(mut download) => {
                let outcome = match PeerMessage::from_bytes(frame) {
                    Err(e) => Err(SessionError::Framing(e)),
                    Ok(message) => match download.receive(&message) {
                        Ok(complete) => Ok(complete),
                        Err(e) => Err(SessionError::Piece(e)),
                    },
                };
                self.download = Some(download);
                outcome
            },
        }
    }

    /// Ends the download in flight, whatever its state, and returns the
    /// bytes of the piece if every block is there and the SHA-1 digest of
    /// the whole is `expected`. Otherwise the bytes are dropped.
    pub fn finish_piece(&mut self, expected: &[u8; 20]) -> (r: Result<Vec<u8>, SessionError>)
        ensures
            bytes_written(r) == finish_step(old(self)@, expected@),
            final(self)@ == (SessionView { download: None, ..old(self)@ }),
    {
        proof {
            use_type_invariant(&*self);
        }
        let mut slot: Option<PieceDownload> = None;
        core::mem::swap(&mut self.download, &mut slot);
        match slot {
            None => Err(SessionError::State),
            Some(download) => match download.finish(expected) {
                Ok(bytes) => Ok(bytes),
                Err(e) => Err(SessionError::Piece(e)),
            },
        }
    }
}

} // verus!
