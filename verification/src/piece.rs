//! Downloading one piece: the block requests that cover it, the buffer in
//! which the answers are put together, and the check of its digest.

use vstd::prelude::*;

use crate::hashing::{sha1_digest, sha1_of};
use crate::lex::bytes_equal;
use crate::message::{Message, PeerMessage};

verus! {

/// The number of bytes asked for in one request: 16 KiB.
pub const BLOCK_SIZE: u32 = 16384;

/// The number of blocks in a piece of `size` bytes: `size / 16384`, rounded
/// up.
pub open spec fn block_count(size: int) -> int {
    (size + 16383) / 16384
}

/// The number of bytes in block `j` of a piece of `size` bytes: 16384, or
/// what is left of the piece if that is less.
pub open spec fn block_length(size: int, j: int) -> int {
    if size - j * 16384 < 16384 {
        size - j * 16384
    } else {
        16384
    }
}

/// The requests for a piece, in order: block `j` begins at `j * 16384`.
pub open spec fn request_plan(index: u32, size: u32) -> Seq<Message> {
    Seq::new(
        block_count(size as int) as nat,
        |j: int|
            Message::Request {
                index,
                begin: (j * 16384) as u32,
                length: block_length(size as int, j) as u32,
            },
    )
}

/// The blocks tile the piece: each is between 1 and 16384 bytes long and
/// lies within the piece, every block but the last is full, and the last
/// ends where the piece ends.
pub proof fn lemma_blocks_cover(size: int)
    requires
        0 <= size,
    ensures
        block_count(size) >= 0,
        size > 0 ==> block_count(size) >= 1,
        forall|j: int|
            0 <= j < block_count(size) ==> 0 < #[trigger] block_length(size, j) <= 16384 && j
                * 16384 + block_length(size, j) <= size,
        forall|j: int| 0 <= j < block_count(size) - 1 ==> #[trigger] block_length(size, j) == 16384,
        block_count(size) >= 1 ==> (block_count(size) - 1) * 16384 + block_length(
            size,
            block_count(size) - 1,
        ) == size,
{
}

/// What a `PieceDownload` holds.
pub struct PieceView {
    /// The index of the piece.
    pub index: u32,
    /// The number of bytes in the piece.
    pub size: u32,
    /// The bytes of the piece, as far as they have arrived.
    pub buffer: Seq<u8>,
    /// For each block, whether it has arrived.
    pub received: Seq<bool>,
}

/// Why a piece could not be had.
#[derive(Debug, PartialEq, Eq, Clone, Copy)]
pub enum PieceError {
    /// A message came that is neither a block, a choke nor a keep-alive.
    UnexpectedMessage,
    /// A block came that was not asked for: for another piece, or not at
    /// the start of a block, or not of that block's length.
    UnexpectedBlock,
    /// The peer choked before all blocks were there.
    ChokedMidPiece,
    /// Not all blocks are there yet.
    Incomplete,
    /// The digest of the bytes is not the one expected.
    HashMismatch,
}

impl PieceView {
    /// Whether the buffer and the flags have the sizes that the piece asks
    /// for.
    pub open spec fn well_formed(self) -> bool {
        &&& self.buffer.len() == self.size
        &&& self.received.len() == block_count(self.size as int)
    }

    /// Whether every block has arrived.
    pub open spec fn complete(self) -> bool {
        forall|j: int| 0 <= j < self.received.len() ==> #[trigger] self.received[j]
    }

    /// Whether a block of `length` bytes for piece `index` at `begin` is one
    /// of those asked for.
    pub open spec fn expects(self, index: u32, begin: u32, length: int) -> bool {
        &&& index == self.index
        &&& begin % 16384 == 0
        &&& begin < self.size
        &&& length == block_length(self.size as int, begin as int / 16384)
    }

    /// The download with `block` put at `begin`, wherever the other blocks
    /// are and whether or not it was there before.
    pub open spec fn place(self, begin: u32, block: Seq<u8>) -> PieceView {
        PieceView {
            buffer: self.buffer.subrange(0, begin as int) + block + self.buffer.subrange(
                begin + block.len(),
                self.size as int,
            ),
            received: self.received.update(begin as int / 16384, true),
            ..self
        }
    }

    /// What a message does to the download: an expected block is put in its
    /// place, a keep-alive changes nothing, a choke ends the download, and
    /// anything else is a protocol error.
    pub open spec fn step(self, message: Message) -> Result<PieceView, PieceError> {
        match message {
            Message::Piece { index, begin, block } => if self.expects(
                index,
                begin,
                block.len() as int,
            ) {
                Ok(self.place(begin, block))
            } else {
                Err(PieceError::UnexpectedBlock)
            },
            Message::KeepAlive => Ok(self),
            Message::Choke => Err(PieceError::ChokedMidPiece),
            _ => Err(PieceError::UnexpectedMessage),
        }
    }

    /// The bytes of the piece, if all blocks are there and their digest is
    /// `expected`.
    pub open spec fn outcome(self, expected: Seq<u8>) -> Result<Seq<u8>, PieceError> {
        if !self.complete() {
            Err(PieceError::Incomplete)
        } else if sha1_digest(self.buffer) != expected {
            Err(PieceError::HashMismatch)
        } else {
            Ok(self.buffer)
        }
    }

    /// Whether each block that has arrived holds the bytes that `data` has
    /// in that place.
    pub open spec fn agrees_with(self, data: Seq<u8>) -> bool {
        forall|j: int|
            0 <= j < self.received.len() && #[trigger] self.received[j] ==> forall|k: int|
                j * 16384 <= k < j * 16384 + block_length(self.size as int, j)
                    ==> self.buffer[k] == data[k]
    }
}

/// A download of piece `index` with nothing there yet: a buffer of `size`
/// zero bytes, and no block marked as arrived.
pub open spec fn fresh_piece(index: u32, size: u32) -> PieceView {
    PieceView {
        index,
        size,
        buffer: Seq::new(size as nat, |k: int| 0u8),
        received: Seq::new(block_count(size as int) as nat, |j: int| false),
    }
}

/// What a list of messages stands for, message by message.
pub open spec fn messages_view(messages: Seq<PeerMessage>) -> Seq<Message> {
    Seq::new(messages.len(), |i: int| messages[i]@)
}

/// The block of `data` that begins at `begin`.
pub open spec fn block_of(data: Seq<u8>, begin: u32) -> Seq<u8> {
    data.subrange(
        begin as int,
        begin + block_length(data.len() as int, begin as int / 16384),
    )
}

/// Putting a block of `data` in its place keeps the download in agreement
/// with `data`, whatever had arrived before and in whatever order.
pub proof fn lemma_place_agrees(v: PieceView, data: Seq<u8>, begin: u32)
    requires
        v.well_formed(),
        data.len() == v.size,
        v.agrees_with(data),
        v.expects(v.index, begin, block_of(data, begin).len() as int),
    ensures
        v.place(begin, block_of(data, begin)).well_formed(),
        v.place(begin, block_of(data, begin)).agrees_with(data),
{
    lemma_blocks_cover(v.size as int);
}

/// Reassembly: once every block of `data` has been put in its place, in
/// whatever order, the buffer is `data`.
pub proof fn lemma_complete_agrees(v: PieceView, data: Seq<u8>)
    requires
        v.well_formed(),
        data.len() == v.size,
        v.agrees_with(data),
        v.complete(),
    ensures
        v.buffer == data,
{
    lemma_blocks_cover(v.size as int);
    assert forall|k: int| 0 <= k < v.size implies v.buffer[k] == data[k] by {
        let j = k / 16384;
        assert(v.received[j]);
    }
}

/// One piece on its way: the buffer that its blocks are put into as they
/// arrive, in whatever order.
#[derive(Debug)]
pub struct PieceDownload {
    index: u32,
    size: u32,
    buffer: Vec<u8>,
    received: Vec<bool>,
}

impl View for PieceDownload {
    type V = PieceView;

    closed spec fn view(&self) -> PieceView {
        PieceView {
            index: self.index,
            size: self.size,
            buffer: self.buffer@,
            received: self.received@,
        }
    }
}

/// The requests that cover a piece of `size` bytes with blocks of 16 KiB:
/// as many as `size / 16384` rounded up, block `j` beginning at `j * 16384`
/// and every block but possibly the last being full.
pub fn block_requests(index: u32, size: u32) -> (requests: Vec<PeerMessage>)
    ensures
        messages_view(requests@) == request_plan(index, size),
{
    let mut requests: Vec<PeerMessage> = Vec::new();
    let mut begin: u32 = 0;
    proof {
        lemma_blocks_cover(size as int);
    }
    while begin < size
        invariant
            begin <= size || begin == block_count(size as int) * 16384,
            begin == requests@.len() * 16384,
            requests@.len() <= block_count(size as int),
            begin >= size ==> requests@.len() == block_count(size as int),
            forall|j: int|
                0 <= j < requests@.len() ==> (#[trigger] requests@[j])@ == request_plan(
                    index,
                    size,
                )[j],
        decreases block_count(size as int) - requests@.len(),
    {
        let left: u32 = size - begin;
        let length: u32 = if left < BLOCK_SIZE {
            left
        } else {
            BLOCK_SIZE
        };
        requests.push(PeerMessage::Request { index, begin, length });
        if left <= BLOCK_SIZE {
            proof {
                assert(messages_view(requests@) =~= request_plan(index, size));
            }
            return requests;
        }
        begin += BLOCK_SIZE;
    }
    proof {
        assert(messages_view(requests@) =~= request_plan(index, size));
    }
    requests
}

impl PieceDownload {
    #[verifier::type_invariant]
    spec fn sized(self) -> bool {
        self@.well_formed()
    }

    /// A download of piece `index`, which has `size` bytes, with nothing
    /// there yet.
    pub fn new(index: u32, size: u32) -> (download: PieceDownload)
        ensures
            download@ == fresh_piece(index, size),
    {
        let count: usize = ((size as u64 + 16383) / 16384) as usize;
        let buffer: Vec<u8> = vec![0u8; size as usize];
        let received: Vec<bool> = vec![false; count];
        let download = PieceDownload { index, size, buffer, received };
        proof {
            assert(download@.buffer =~= fresh_piece(index, size).buffer);
            assert(download@.received =~= fresh_piece(index, size).received);
        }
        download
    }

    /// The index of the piece.
    pub fn index(&self) -> (index: u32)
        ensures
            index == self@.index,
    {
        self.index
    }

    /// The number of bytes in the piece.
    pub fn size(&self) -> (size: u32)
        ensures
            size == self@.size,
            self@.well_formed(),
    {
        proof {
            use_type_invariant(self);
        }
        self.size
    }

    /// The requests to send for the piece, in order.
    pub fn requests(&self) -> (requests: Vec<PeerMessage>)
        ensures
            messages_view(requests@) == request_plan(self@.index, self@.size),
    {
        block_requests(self.index, self.size)
    }

    /// Whether every block has arrived.
    pub fn is_complete(&self) -> (complete: bool)
        ensures
            complete == self@.complete(),
    {
        let mut j: usize = 0;
        while j < self.received.len()
            invariant
                j <= self.received.len(),
                forall|i: int| 0 <= i < j ==> #[trigger] self.received@[i],
            decreases self.received.len() - j,
        {
            if !self.received[j] {
                proof {
                    assert(!self@.received[j as int]);
                }
                return false;
            }
            j += 1;
        }
        true
    }

    /// Takes in one message from the peer. A block that was asked for is
    /// put at its `begin`, in whatever order the blocks arrive; a keep-alive
    /// is ignored; a choke or any other message is an error and leaves the
    /// download as it was. Returns whether the piece is complete.
    pub fn receive(&mut self, message: &PeerMessage) -> (r: Result<bool, PieceError>)
        ensures
            match old(self)@.step(message@) {
                Ok(after) => final(self)@ == after && r == Ok::<_, PieceError>(after.complete()),
                Err(e) => final(self)@ == old(self)@ && r == Err::<bool, _>(e),
            },
    {
        proof {
            use_type_invariant(&*self);
            lemma_blocks_cover(self.size as int);
        }
        match message {
            PeerMessage::Piece { index, begin, block } => {
                if *index != self.index || *begin % BLOCK_SIZE != 0 || *begin >= self.size {
                    return Err(PieceError::UnexpectedBlock);
                }
                let at: usize = (*begin / BLOCK_SIZE) as usize;
                let left: u32 = self.size - *begin;
                let length: u32 = if left < BLOCK_SIZE {
                    left
                } else {
                    BLOCK_SIZE
                };
                if block.len() != length as usize {
                    return Err(PieceError::UnexpectedBlock);
                }
                let start: usize = *begin as usize;
                let mut k: usize = 0;
                while k < block.len()
                    invariant
                        k <= block@.len(),
                        start + block@.len() <= self.size <= usize::MAX,
                        self.index == old(self).index,
                        self.size == old(self).size,
                        self.received@ == old(self).received@,
                        self.buffer@.len() == self.size,
                        self.received@.len() == block_count(self.size as int),
                        forall|i: int| 0 <= i < start ==> self.buffer@[i] == old(self).buffer@[i],
                        forall|i: int| start <= i < start + k ==> self.buffer@[i] == block@[i - start],
                        forall|i: int|
                            start + k <= i < self.size ==> self.buffer@[i] == old(self).buffer@[i],
                    decreases block@.len() - k,
                {
                    self.buffer[start + k] = block[k];
                    k += 1;
                }
                self.received[at] = true;
                proof {
                    assert(self@.buffer =~= old(self)@.place(*begin, block@).buffer);
                }
                Ok(self.is_complete())
            },
            PeerMessage::KeepAlive => Ok(self.is_complete()),
            PeerMessage::Choke => Err(PieceError::ChokedMidPiece),
            _ => Err(PieceError::UnexpectedMessage),
        }
    }

    /// Ends the download: the bytes of the piece, if every block is there
    /// and the SHA-1 digest of the whole is `expected`. Otherwise the bytes
    /// are dropped.
    pub fn finish(self, expected: &[u8; 20]) -> (r: Result<Vec<u8>, PieceError>)
        ensures
            match r {
                Ok(bytes) => self@.outcome(expected@) == Ok::<_, PieceError>(bytes@),
                Err(e) => self@.outcome(expected@) == Err::<Seq<u8>, _>(e),
            },
    {
        if !self.is_complete() {
            return Err(PieceError::Incomplete);
        }
        let digest: [u8; 20] = sha1_of(self.buffer.as_slice());
        if !bytes_equal(digest.as_slice(), expected.as_slice()) {
            return Err(PieceError::HashMismatch);
        }
        Ok(self.buffer)
    }
}

} // verus!
