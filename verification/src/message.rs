//! Peer messages and their length-prefixed frames.

use vstd::prelude::*;
use vstd::slice::{slice_subrange, slice_to_vec};

use crate::endian::{
    be32, from_be32, lemma_be32_round_trip, lemma_from_be32_round_trip, push_be32, read_be32,
};
use crate::text::{decimal_text, push_decimal_text};

verus! {

/// A peer message, as mathematics sees it.
pub enum Message {
    /// A frame of length zero: no id, no payload.
    KeepAlive,
    Choke,
    Unchoke,
    Interested,
    NotInterested,
    Have { index: u32 },
    Bitfield(Seq<u8>),
    Request { index: u32, begin: u32, length: u32 },
    Piece { index: u32, begin: u32, block: Seq<u8> },
    Cancel { index: u32, begin: u32, length: u32 },
}

/// Why a byte sequence is not the frame of a peer message.
#[derive(Debug, PartialEq, Eq, Clone, Copy)]
pub enum FramingError {
    /// Fewer than the four bytes of a length prefix.
    TruncatedPrefix,
    /// The length prefix does not match the bytes that follow it, or the
    /// message id cannot have a payload of that length, or a payload is too
    /// long for a 32-bit prefix.
    ImpossibleLength,
    /// The message id is none of 0 to 8.
    UnknownId,
}

/// What follows the length prefix: the message id, then the payload with its
/// integers big-endian. Nothing at all for a keep-alive.
pub open spec fn body(m: Message) -> Seq<u8> {
    match m {
        Message::KeepAlive => Seq::empty(),
        Message::Choke => seq![0u8],
        Message::Unchoke => seq![1u8],
        Message::Interested => seq![2u8],
        Message::NotInterested => seq![3u8],
        Message::Have { index } => seq![4u8] + be32(index),
        Message::Bitfield(bits) => seq![5u8] + bits,
        Message::Request { index, begin, length } => seq![6u8] + be32(index) + be32(begin) + be32(
            length,
        ),
        Message::Piece { index, begin, block } => seq![7u8] + be32(index) + be32(begin) + block,
        Message::Cancel { index, begin, length } => seq![8u8] + be32(index) + be32(begin) + be32(
            length,
        ),
    }
}

/// Whether the length of the message's body can be written in 32 bits.
pub open spec fn fits(m: Message) -> bool {
    body(m).len() <= u32::MAX
}

/// The frame of a message: the length of its body as four big-endian bytes,
/// then the body.
pub open spec fn frame(m: Message) -> Seq<u8> {
    be32(body(m).len() as u32) + body(m)
}

/// The message whose frame `bytes` is. The length prefix must count exactly
/// the bytes after it, the id must be known, and the payload must have the
/// length that the id asks for.
pub open spec fn parse_frame(bytes: Seq<u8>) -> Result<Message, FramingError> {
    if bytes.len() < 4 {
        Err(FramingError::TruncatedPrefix)
    } else {
        let length = from_be32(bytes.subrange(0, 4));
        if bytes.len() != 4 + length {
            Err(FramingError::ImpossibleLength)
        } else if length == 0 {
            Ok(Message::KeepAlive)
        } else {
            let id = bytes[4];
            let payload = bytes.subrange(5, bytes.len() as int);
            if id > 8 {
                Err(FramingError::UnknownId)
            } else if id <= 3 {
                if length != 1 {
                    Err(FramingError::ImpossibleLength)
                } else if id == 0 {
                    Ok(Message::Choke)
                } else if id == 1 {
                    Ok(Message::Unchoke)
                } else if id == 2 {
                    Ok(Message::Interested)
                } else {
                    Ok(Message::NotInterested)
                }
            } else if id == 4 {
                if length != 5 {
                    Err(FramingError::ImpossibleLength)
                } else {
                    Ok(Message::Have { index: from_be32(payload.subrange(0, 4)) })
                }
            } else if id == 5 {
                Ok(Message::Bitfield(payload))
            } else if id == 7 {
                if length < 9 {
                    Err(FramingError::ImpossibleLength)
                } else {
                    Ok(
                        Message::Piece {
                            index: from_be32(payload.subrange(0, 4)),
                            begin: from_be32(payload.subrange(4, 8)),
                            block: payload.subrange(8, payload.len() as int),
                        },
                    )
                }
            } else if length != 13 {
                Err(FramingError::ImpossibleLength)
            } else if id == 6 {
                Ok(
                    Message::Request {
                        index: from_be32(payload.subrange(0, 4)),
                        begin: from_be32(payload.subrange(4, 8)),
                        length: from_be32(payload.subrange(8, 12)),
                    },
                )
            } else {
                Ok(
                    Message::Cancel {
                        index: from_be32(payload.subrange(0, 4)),
                        begin: from_be32(payload.subrange(4, 8)),
                        length: from_be32(payload.subrange(8, 12)),
                    },
                )
            }
        }
    }
}

/// Framing round trip: the frame of any message whose body fits a 32-bit
/// length parses back to that message.
pub proof fn lemma_frame_round_trip(m: Message)
    requires
        fits(m),
    ensures
        parse_frame(frame(m)) == Ok::<_, FramingError>(m),
{
    let f = frame(m);
    let n = body(m).len() as u32;
    lemma_be32_round_trip(n);
    if n > 0 {
        let payload = f.subrange(5, f.len() as int);
        match m {
            Message::Have { index } => {
                lemma_be32_round_trip(index);
            },
            Message::Bitfield(bits) => {
                assert(payload =~= bits);
            },
            Message::Request { index, begin, length } => {
                lemma_be32_round_trip(index);
                lemma_be32_round_trip(begin);
                lemma_be32_round_trip(length);
            },
            Message::Piece { index, begin, block } => {
                lemma_be32_round_trip(index);
                lemma_be32_round_trip(begin);
                assert(payload.subrange(8, payload.len() as int) =~= block);
            },
            Message::Cancel { index, begin, length } => {
                lemma_be32_round_trip(index);
                lemma_be32_round_trip(begin);
                lemma_be32_round_trip(length);
            },
            _ => {},
        }
    }
}

/// Frames are unique: bytes that parse to a message are that message's
/// frame, byte for byte.
pub proof fn lemma_parse_frame_exact(bytes: Seq<u8>)
    ensures
        parse_frame(bytes) matches Ok(m) ==> fits(m) && frame(m) == bytes,
{
    if let Ok(m) = parse_frame(bytes) {
        let prefix = bytes.subrange(0, 4);
        let length = from_be32(prefix);
        lemma_from_be32_round_trip(prefix);
        if length > 0 {
            let payload = bytes.subrange(5, bytes.len() as int);
            match m {
                Message::Have { index } => {
                    lemma_from_be32_round_trip(payload.subrange(0, 4));
                },
                Message::Request { index, begin, length } => {
                    lemma_from_be32_round_trip(payload.subrange(0, 4));
                    lemma_from_be32_round_trip(payload.subrange(4, 8));
                    lemma_from_be32_round_trip(payload.subrange(8, 12));
                },
                Message::Piece { index, begin, block } => {
                    lemma_from_be32_round_trip(payload.subrange(0, 4));
                    lemma_from_be32_round_trip(payload.subrange(4, 8));
                },
                Message::Cancel { index, begin, length } => {
                    lemma_from_be32_round_trip(payload.subrange(0, 4));
                    lemma_from_be32_round_trip(payload.subrange(4, 8));
                    lemma_from_be32_round_trip(payload.subrange(8, 12));
                },
                _ => {},
            }
        }
    }
}

/// The numbers of `bytes` in decimal, with `, ` between them.
pub open spec fn numbers_text(bytes: Seq<u8>) -> Seq<char>
    decreases bytes.len(),
{
    if bytes.len() == 0 {
        Seq::empty()
    } else if bytes.len() == 1 {
        decimal_text(bytes[0] as nat)
    } else {
        numbers_text(bytes.drop_last()) + ", "@ + decimal_text(bytes.last() as nat)
    }
}

/// The first ten bytes of `block`, or all of them if there are fewer.
pub open spec fn block_head(block: Seq<u8>) -> Seq<u8> {
    if block.len() < 10 {
        block
    } else {
        block.take(10)
    }
}

/// A message written out for people: its name and its numbers; of a block
/// only the first ten bytes, and of a bitfield nothing.
pub open spec fn message_text(m: Message) -> Seq<char> {
    match m {
        Message::KeepAlive => "KeepAlive"@,
        Message::Choke => "Choke"@,
        Message::Unchoke => "Unchoke"@,
        Message::Interested => "Interested"@,
        Message::NotInterested => "NotInterested"@,
        Message::Have { index } => "Have { index: "@ + decimal_text(index as nat) + " }"@,
        Message::Bitfield(_) => "Bitfield"@,
        Message::Request { index, begin, length } => "Request { index: "@ + decimal_text(
            index as nat,
        ) + ", begin: "@ + decimal_text(begin as nat) + ", length: "@ + decimal_text(length as nat)
            + " }"@,
        Message::Piece { index, begin, block } => "Piece { index: "@ + decimal_text(index as nat)
            + ", block: ["@ + numbers_text(block_head(block)) + "]... }"@,
        Message::Cancel { index, begin, length } => "Cancel { index: "@ + decimal_text(
            index as nat,
        ) + ", begin: "@ + decimal_text(begin as nat) + ", length: "@ + decimal_text(length as nat)
            + " }"@,
    }
}

/// A message exchanged with a peer after the handshake.
#[derive(Debug, PartialEq, Eq, Clone)]
pub enum PeerMessage {
    /// A frame of length zero: no id, no payload.
    KeepAlive,
    Choke,
    Unchoke,
    Interested,
    NotInterested,
    Have { index: u32 },
    Bitfield(Vec<u8>),
    Request { index: u32, begin: u32, length: u32 },
    Piece { index: u32, begin: u32, block: Vec<u8> },
    Cancel { index: u32, begin: u32, length: u32 },
}

impl View for PeerMessage {
    type V = Message;

    open spec fn view(&self) -> Message {
        match self {
            PeerMessage::KeepAlive => Message::KeepAlive,
            PeerMessage::Choke => Message::Choke,
            PeerMessage::Unchoke => Message::Unchoke,
            PeerMessage::Interested => Message::Interested,
            PeerMessage::NotInterested => Message::NotInterested,
            PeerMessage::Have { index } => Message::Have { index: *index },
            PeerMessage::Bitfield(bits) => Message::Bitfield(bits@),
            PeerMessage::Request { index, begin, length } => Message::Request {
                index: *index,
                begin: *begin,
                length: *length,
            },
            PeerMessage::Piece { index, begin, block } => Message::Piece {
                index: *index,
                begin: *begin,
                block: block@,
            },
            PeerMessage::Cancel { index, begin, length } => Message::Cancel {
                index: *index,
                begin: *begin,
                length: *length,
            },
        }
    }
}

/// What the result of reading a frame stands for.
pub open spec fn framed(r: Result<PeerMessage, FramingError>) -> Result<Message, FramingError> {
    match r {
        Ok(message) => Ok(message@),
        Err(e) => Err(e),
    }
}

/// The number of bytes that follow a length prefix, for a reader that has
/// just read the prefix from its stream.
pub fn frame_body_length(prefix: &[u8]) -> (r: Result<u32, FramingError>)
    ensures
        r == if prefix@.len() < 4 {
            Err::<u32, _>(FramingError::TruncatedPrefix)
        } else {
            Ok::<_, FramingError>(from_be32(prefix@.subrange(0, 4)))
        },
{
    if prefix.len() < 4 {
        Err(FramingError::TruncatedPrefix)
    } else {
        Ok(read_be32(prefix, 0))
    }
}

impl PeerMessage {
    /// The message whose frame `bytes` is: a four-byte big-endian length,
    /// then that many bytes, the first of them the message id.
    pub fn from_bytes(bytes: &[u8]) -> (r: Result<PeerMessage, FramingError>)
        ensures
            framed(r) == parse_frame(bytes@),
    {
        if bytes.len() < 4 {
            return Err(FramingError::TruncatedPrefix);
        }
        let length: u32 = read_be32(bytes, 0);
        if bytes.len() - 4 != length as usize {
            return Err(FramingError::ImpossibleLength);
        }
        if length == 0 {
            return Ok(PeerMessage::KeepAlive);
        }
        let id: u8 = bytes[4];
        let payload = slice_subrange(bytes, 5, bytes.len());
        if id > 8 {
            Err(FramingError::UnknownId)
        } else if id <= 3 {
            if length != 1 {
                Err(FramingError::ImpossibleLength)
            } else if id == 0 {
                Ok(PeerMessage::Choke)
            } else if id == 1 {
                Ok(PeerMessage::Unchoke)
            } else if id == 2 {
                Ok(PeerMessage::Interested)
            } else {
                Ok(PeerMessage::NotInterested)
            }
        } else if id == 4 {
            if length != 5 {
                Err(FramingError::ImpossibleLength)
            } else {
                Ok(PeerMessage::Have { index: read_be32(payload, 0) })
            }
        } else if id == 5 {
            Ok(PeerMessage::Bitfield(slice_to_vec(payload)))
        } else if id == 7 {
            if length < 9 {
                Err(FramingError::ImpossibleLength)
            } else {
                let block = slice_to_vec(slice_subrange(payload, 8, payload.len()));
                Ok(
                    PeerMessage::Piece {
                        index: read_be32(payload, 0),
                        begin: read_be32(payload, 4),
                        block,
                    },
                )
            }
        } else if length != 13 {
            Err(FramingError::ImpossibleLength)
        } else if id == 6 {
            Ok(
                PeerMessage::Request {
                    index: read_be32(payload, 0),
                    begin: read_be32(payload, 4),
                    length: read_be32(payload, 8),
                },
            )
        } else {
            Ok(
                PeerMessage::Cancel {
                    index: read_be32(payload, 0),
                    begin: read_be32(payload, 4),
                    length: read_be32(payload, 8),
                },
            )
        }
    }

    /// The message written out for people: its name and its numbers; of a
    /// block only the first ten bytes, and of a bitfield nothing.
    pub fn to_string(&self) -> (s: String)
        ensures
            s@ == message_text(self@),
    {
        match self {
            PeerMessage::KeepAlive => "KeepAlive".to_owned(),
            PeerMessage::Choke => "Choke".to_owned(),
            PeerMessage::Unchoke => "Unchoke".to_owned(),
            PeerMessage::Interested => "Interested".to_owned(),
            PeerMessage::NotInterested => "NotInterested".to_owned(),
            PeerMessage::Have { index } => {
                let mut s = "Have { index: ".to_owned();
                push_decimal_text(&mut s, *index as u64);
                s.append(" }");
                s
            },
            PeerMessage::Bitfield(_) => "Bitfield".to_owned(),
            PeerMessage::Request { index, begin, length } => {
                let mut s = "Request { index: ".to_owned();
                push_decimal_text(&mut s, *index as u64);
                s.append(", begin: ");
                push_decimal_text(&mut s, *begin as u64);
                s.append(", length: ");
                push_decimal_text(&mut s, *length as u64);
                s.append(" }");
                s
            },
            PeerMessage::Piece { index, begin, block } => {
                let mut s = "Piece { index: ".to_owned();
                push_decimal_text(&mut s, *index as u64);
                s.append(", block: [");
                let ghost before = s@;
                let shown: usize = if block.len() < 10 {
                    block.len()
                } else {
                    10
                };
                let ghost head = block_head(block@);
                let mut i: usize = 0;
                while i < shown
                    invariant
                        i <= shown,
                        shown == head.len(),
                        shown <= block@.len(),
                        head == block@.take(shown as int),
                        s@ == before + numbers_text(head.take(i as int)),
                    decreases shown - i,
                {
                    if i > 0 {
                        s.append(", ");
                    }
                    push_decimal_text(&mut s, block[i] as u64);
                    proof {
                        let longer = head.take(i + 1);
                        assert(longer.drop_last() =~= head.take(i as int));
                    }
                    i += 1;
                }
                proof {
                    assert(head.take(i as int) =~= head);
                }
                s.append("]... }");
                s
            },
            PeerMessage::Cancel { index, begin, length } => {
                let mut s = "Cancel { index: ".to_owned();
                push_decimal_text(&mut s, *index as u64);
                s.append(", begin: ");
                push_decimal_text(&mut s, *begin as u64);
                s.append(", length: ");
                push_decimal_text(&mut s, *length as u64);
                s.append(" }");
                s
            },
        }
    }

    /// The frame of the message: the length prefix, computed from the
    /// payload's length plus one for the id, then the id and the payload.
    /// Fails only for a payload too long for a 32-bit length.
    pub fn to_bytes(&self) -> (r: Result<Vec<u8>, FramingError>)
        ensures
            match r {
                Ok(bytes) => fits(self@) && bytes@ == frame(self@),
                Err(e) => !fits(self@) && e == FramingError::ImpossibleLength,
            },
    {
        let mut out: Vec<u8> = Vec::new();
        match self {
            PeerMessage::KeepAlive => {
                push_be32(&mut out, 0);
            },
            PeerMessage::Choke => {
                push_be32(&mut out, 1);
                out.push(0u8);
            },
            PeerMessage::Unchoke => {
                push_be32(&mut out, 1);
                out.push(1u8);
            },
            PeerMessage::Interested => {
                push_be32(&mut out, 1);
                out.push(2u8);
            },
            PeerMessage::NotInterested => {
                push_be32(&mut out, 1);
                out.push(3u8);
            },
            PeerMessage::Have { index } => {
                push_be32(&mut out, 5);
                out.push(4u8);
                push_be32(&mut out, *index);
            },
            PeerMessage::Bitfield(bits) => {
                if bits.len() >= u32::MAX as usize {
                    return Err(FramingError::ImpossibleLength);
                }
                push_be32(&mut out, bits.len() as u32 + 1);
                out.push(5u8);
                out.extend_from_slice(bits.as_slice());
            },
            PeerMessage::Request { index, begin, length } => {
                push_be32(&mut out, 13);
                out.push(6u8);
                push_be32(&mut out, *index);
                push_be32(&mut out, *begin);
                push_be32(&mut out, *length);
            },
            PeerMessage::Piece { index, begin, block } => {
                if block.len() > u32::MAX as usize - 9 {
                    return Err(FramingError::ImpossibleLength);
                }
                push_be32(&mut out, block.len() as u32 + 9);
                out.push(7u8);
                push_be32(&mut out, *index);
                push_be32(&mut out, *begin);
                out.extend_from_slice(block.as_slice());
            },
            PeerMessage::Cancel { index, begin, length } => {
                push_be32(&mut out, 13);
                out.push(8u8);
                push_be32(&mut out, *index);
                push_be32(&mut out, *begin);
                push_be32(&mut out, *length);
            },
        }
        Ok(out)
    }
}

} // verus!
