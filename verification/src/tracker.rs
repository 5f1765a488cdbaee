//! The tracker's side of things: the announce request and the compact peer
//! list that answers it.

use vstd::prelude::*;

use crate::bencode::{lookup, Bencode};
use crate::decimal::{decimal, lemma_decimal_shape};
use crate::decoder::{decode_bencoded_value, BencodedString, BencodedValue};
use crate::endian::{be32, from_be16, from_be32, read_be16, read_be32};
use crate::grammar::{parse_value, DecodeError};
use crate::text::{
    ascii_bytes, bytes_of_ascii, decimal_text, hex_digit, hex_digit_of, push_decimal_text,
};

verus! {

/// The peer id under which this client announces itself: twenty ASCII bytes.
pub const PEER_ID: &'static str = "-TR2940-2b3b6b4b5b6b";

/// The port that this client says it listens on.
pub const PORT: u64 = 6881;

/// The parameters of an announce, but for the info-hash.
#[derive(Debug, PartialEq, Eq, Clone)]
pub struct TrackerPayload {
    /// A unique identifier for this client.
    pub peer_id: String,
    /// The port this client is listening on.
    pub port: u64,
    /// The total amount uploaded so far.
    pub uploaded: u64,
    /// The total amount downloaded so far.
    pub downloaded: u64,
    /// The number of bytes left to download.
    pub left: u64,
    /// Whether the peer list is wanted in compact form.
    pub compact: bool,
}

impl Default for TrackerPayload {
    /// An announce from the default port with nothing moved yet, asking for
    /// a compact answer.
    fn default() -> (payload: TrackerPayload)
        ensures
            payload.peer_id@ == Seq::<char>::empty(),
            payload.port == 6881,
            payload.uploaded == 0,
            payload.downloaded == 0,
            payload.left == 0,
            payload.compact,
    {
        TrackerPayload {
            peer_id: String::new(),
            port: PORT,
            uploaded: 0,
            downloaded: 0,
            left: 0,
            compact: true,
        }
    }
}

/// The query string that form-urlencoding makes of a sequence of pairs, as
/// `serde_urlencoded::to_string` writes it.
pub uninterp spec fn form_urlencoded(pairs: Seq<(Seq<char>, Seq<char>)>) -> Seq<char>;

/// The text of each pair of strings.
pub open spec fn pairs_text(pairs: Seq<(String, String)>) -> Seq<(Seq<char>, Seq<char>)> {
    Seq::new(pairs.len(), |i: int| (pairs[i].0@, pairs[i].1@))
}

/// Whether form-urlencoding writes the character as it is: an ASCII letter
/// or digit, or one of `*`, `-`, `.` and `_`.
pub open spec fn unreserved(c: char) -> bool {
    ||| '0' <= c <= '9'
    ||| 'A' <= c <= 'Z'
    ||| 'a' <= c <= 'z'
    ||| c == '*'
    ||| c == '-'
    ||| c == '.'
    ||| c == '_'
}

/// Whether every character of every name and value is written as it is.
pub open spec fn plain_pairs(pairs: Seq<(Seq<char>, Seq<char>)>) -> bool {
    forall|i: int, j: int|
        #![trigger pairs[i].0[j]]
        #![trigger pairs[i].1[j]]
        0 <= i < pairs.len() ==> (0 <= j < pairs[i].0.len() ==> unreserved(pairs[i].0[j])) && (0
            <= j < pairs[i].1.len() ==> unreserved(pairs[i].1[j]))
}

/// Each pair as `name=value`, with `&` between the pairs.
pub open spec fn joined_pairs(pairs: Seq<(Seq<char>, Seq<char>)>) -> Seq<char>
    decreases pairs.len(),
{
    if pairs.len() == 0 {
        Seq::empty()
    } else if pairs.len() == 1 {
        pairs[0].0 + "="@ + pairs[0].1
    } else {
        joined_pairs(pairs.drop_last()) + "&"@ + pairs.last().0 + "="@ + pairs.last().1
    }
}

/// Calls `serde_urlencoded::to_string` on a sequence of pairs of strings.
/// Believed: for such a sequence the serializer succeeds, and the string is
/// a function of the pairs' text alone, here named `form_urlencoded`. Where
/// no character needs escaping, it is each pair as `name=value` with `&`
/// between the pairs.
#[verifier::external_body]
fn form_urlencode(pairs: &Vec<(String, String)>) -> (r: Option<String>)
    ensures
        r is Some,
        r matches Some(s) ==> s@ == form_urlencoded(pairs_text(pairs@)),
        r matches Some(s) ==> (plain_pairs(pairs_text(pairs@)) ==> s@ == joined_pairs(
            pairs_text(pairs@),
        )),
{
    serde_urlencoded::to_string(pairs).ok()
}

/// The pairs of an announce, in the order in which they are written.
/// Numbers are in decimal; `compact` is `1` or `0`.
pub open spec fn query_pairs(
    peer_id: Seq<char>,
    port: u64,
    uploaded: u64,
    downloaded: u64,
    left: u64,
    compact: bool,
) -> Seq<(Seq<char>, Seq<char>)> {
    seq![
        ("peer_id"@, peer_id),
        ("port"@, decimal_text(port as nat)),
        ("uploaded"@, decimal_text(uploaded as nat)),
        ("downloaded"@, decimal_text(downloaded as nat)),
        ("left"@, decimal_text(left as nat)),
        ("compact"@, if compact {
            "1"@
        } else {
            "0"@
        }),
    ]
}

/// The decimal numeral of `n` as a string.
fn decimal_string(n: u64) -> (s: String)
    ensures
        s@ == decimal_text(n as nat),
{
    let mut s = String::new();
    push_decimal_text(&mut s, n);
    s
}

impl TrackerPayload {
    /// The pairs that the payload is written as.
    pub open spec fn pairs(&self) -> Seq<(Seq<char>, Seq<char>)> {
        query_pairs(
            self.peer_id@,
            self.port,
            self.uploaded,
            self.downloaded,
            self.left,
            self.compact,
        )
    }

    /// The payload as a query string: `peer_id`, `port`, `uploaded`,
    /// `downloaded`, `left` and `compact`, form-urlencoded. With a peer id
    /// that needs no escaping this is
    /// `peer_id=..&port=..&uploaded=..&downloaded=..&left=..&compact=..`.
    pub fn to_query(&self) -> (query: String)
        ensures
            query@ == form_urlencoded(self.pairs()),
            plain_pairs(self.pairs()) ==> query@ == joined_pairs(self.pairs()),
    {
        let mut pairs: Vec<(String, String)> = Vec::new();
        pairs.push(("peer_id".to_owned(), self.peer_id.clone()));
        pairs.push(("port".to_owned(), decimal_string(self.port)));
        pairs.push(("uploaded".to_owned(), decimal_string(self.uploaded)));
        pairs.push(("downloaded".to_owned(), decimal_string(self.downloaded)));
        pairs.push(("left".to_owned(), decimal_string(self.left)));
        pairs.push(
            (
                "compact".to_owned(),
                if self.compact {
                    "1".to_owned()
                } else {
                    "0".to_owned()
                },
            ),
        );
        proof {
            assert(pairs_text(pairs@) =~= self.pairs());
        }
        match form_urlencode(&pairs) {
            Some(query) => query,
            None => unreached(),
        }
    }
}

/// Each byte as a percent sign and its two lower-case hexadecimal digits.
pub open spec fn percent_encoded(bytes: Seq<u8>) -> Seq<char> {
    Seq::new(
        3 * bytes.len(),
        |i: int|
            if i % 3 == 0 {
                '%'
            } else if i % 3 == 1 {
                hex_digit(bytes[i / 3] as int / 16)
            } else {
                hex_digit(bytes[i / 3] as int % 16)
            },
    )
}

/// Appends the percent-encoding of `bytes` to `s`.
fn push_percent_encoded(s: &mut String, bytes: &[u8])
    ensures
        final(s)@ == old(s)@ + percent_encoded(bytes@),
{
    let mut i: usize = 0;
    while i < bytes.len()
        invariant
            i <= bytes.len(),
            s@ == old(s)@ + percent_encoded(bytes@.take(i as int)),
        decreases bytes.len() - i,
    {
        let b: u8 = bytes[i];
        s.push('%');
        s.push(hex_digit_of(b / 16));
        s.push(hex_digit_of(b % 16));
        i += 1;
    }
}

/// The info-hash as it goes into a query: every byte, whatever it is, as a
/// percent sign and two lower-case hexadecimal digits.
pub fn url_encode(t: &[u8; 20]) -> (s: String)
    ensures
        s@ == percent_encoded(t@),
{
    let mut s = String::new();
    push_percent_encoded(&mut s, t.as_slice());
    s
}

/// The info-hash as it goes into a query; the same as `url_encode`.
pub fn urlencode(t: &[u8; 20]) -> (s: String)
    ensures
        s@ == percent_encoded(t@),
{
    url_encode(t)
}

/// The URL of an announce: the tracker's URL, a question mark, the query,
/// and the percent-encoded info-hash as the last parameter.
pub open spec fn announce_url_text(tracker_url: Seq<char>, query: Seq<char>, info_hash: Seq<u8>) -> Seq<
    char,
> {
    tracker_url + "?"@ + query + "&info_hash="@ + percent_encoded(info_hash)
}

/// The numeral of a number is made of digits, which need no escaping.
pub proof fn lemma_decimal_text_plain(n: nat)
    ensures
        forall|j: int| 0 <= j < decimal_text(n).len() ==> unreserved(#[trigger] decimal_text(n)[j]),
{
    lemma_decimal_shape(n);
}

/// The pairs of this client's first announce need no escaping, so its
/// query is the pairs as they are.
pub proof fn lemma_first_announce_plain(left: u64)
    ensures
        plain_pairs(query_pairs(PEER_ID@, PORT, 0, 0, left, true)),
        joined_pairs(query_pairs(PEER_ID@, PORT, 0, 0, left, true))
            == "peer_id=-TR2940-2b3b6b4b5b6b&port=6881&uploaded=0&downloaded=0&left="@
            + decimal_text(left as nat) + "&compact=1"@,
{
    let pairs = query_pairs(PEER_ID@, PORT, 0, 0, left, true);
    reveal_strlit("-TR2940-2b3b6b4b5b6b");
    reveal_strlit("peer_id");
    reveal_strlit("port");
    reveal_strlit("uploaded");
    reveal_strlit("downloaded");
    reveal_strlit("left");
    reveal_strlit("compact");
    reveal_strlit("1");
    reveal_strlit("0");
    reveal_strlit("=");
    reveal_strlit("&");
    reveal_strlit("&compact=1");
    reveal_strlit("peer_id=-TR2940-2b3b6b4b5b6b&port=6881&uploaded=0&downloaded=0&left=");
    lemma_decimal_text_plain(6881);
    lemma_decimal_text_plain(0);
    lemma_decimal_text_plain(left as nat);
    reveal_with_fuel(decimal, 5);
    assert(decimal_text(6881) =~= seq!['6', '8', '8', '1']);
    assert(decimal_text(0) =~= seq!['0']);
    let one = pairs.take(1);
    let two = pairs.take(2);
    let three = pairs.take(3);
    let four = pairs.take(4);
    let five = pairs.take(5);
    assert(pairs.drop_last() =~= five);
    assert(five.drop_last() =~= four);
    assert(four.drop_last() =~= three);
    assert(three.drop_last() =~= two);
    assert(two.drop_last() =~= one);
    assert(joined_pairs(one) =~= "peer_id"@ + "="@ + PEER_ID@);
    assert(joined_pairs(two) =~= joined_pairs(one) + "&"@ + "port"@ + "="@ + decimal_text(6881));
    assert(joined_pairs(three) =~= joined_pairs(two) + "&"@ + "uploaded"@ + "="@ + decimal_text(0));
    assert(joined_pairs(four) =~= joined_pairs(three) + "&"@ + "downloaded"@ + "="@ + decimal_text(0));
    assert(joined_pairs(five) =~= joined_pairs(four) + "&"@ + "left"@ + "="@ + decimal_text(
        left as nat,
    ));
    assert(joined_pairs(pairs) =~= joined_pairs(five) + "&"@ + "compact"@ + "="@ + "1"@);
    assert(joined_pairs(pairs)
        =~= "peer_id=-TR2940-2b3b6b4b5b6b&port=6881&uploaded=0&downloaded=0&left="@
        + decimal_text(left as nat) + "&compact=1"@);
}

/// The URL of the first announce for a torrent of `left` bytes: this
/// client's peer id and port, nothing uploaded or downloaded, all of the
/// file left, a compact answer wanted, and the info-hash with every byte
/// percent-encoded:
/// `{tracker_url}?peer_id=-TR2940-2b3b6b4b5b6b&port=6881&uploaded=0&downloaded=0&left={left}&compact=1&info_hash={..}`.
pub fn announce_url(tracker_url: &str, info_hash: &[u8; 20], left: u64) -> (url: String)
    ensures
        url@ == announce_url_text(
            tracker_url@,
            "peer_id=-TR2940-2b3b6b4b5b6b&port=6881&uploaded=0&downloaded=0&left="@
                + decimal_text(left as nat) + "&compact=1"@,
            info_hash@,
        ),
{
    proof {
        lemma_first_announce_plain(left);
    }
    let payload = TrackerPayload {
        peer_id: PEER_ID.to_owned(),
        port: PORT,
        uploaded: 0,
        downloaded: 0,
        left,
        compact: true,
    };
    let query = payload.to_query();
    let mut url = tracker_url.to_owned();
    url.append("?");
    url.append(query.as_str());
    url.append("&info_hash=");
    push_percent_encoded(&mut url, info_hash.as_slice());
    url
}

/// The address of a peer: an IPv4 address and a port.
#[derive(Debug, PartialEq, Eq, Clone, Copy)]
pub struct PeerAddr {
    /// The four bytes of the address as one big-endian number.
    pub ip: u32,
    pub port: u16,
}

/// What a tracker answers to an announce.
#[derive(Debug, PartialEq, Eq, Clone)]
pub struct TrackerResponse {
    /// How many seconds to wait before the next announce; zero if the
    /// tracker did not say.
    pub interval: u64,
    /// Whether the tracker gave an interval. Where it did not, the caller
    /// may want to warn.
    pub interval_given: bool,
    /// The peers to connect to, in the order in which the tracker lists them.
    pub peers: Vec<PeerAddr>,
}

/// What a `TrackerResponse` holds.
pub struct ResponseView {
    pub interval: u64,
    pub interval_given: bool,
    pub peers: Seq<PeerAddr>,
}

impl View for TrackerResponse {
    type V = ResponseView;

    open spec fn view(&self) -> ResponseView {
        ResponseView {
            interval: self.interval,
            interval_given: self.interval_given,
            peers: self.peers@,
        }
    }
}

/// Why a tracker's answer cannot be used.
#[derive(Debug, PartialEq, Eq, Clone, Copy)]
pub enum TrackerError {
    /// The body is not bencoded.
    Decode(DecodeError),
    /// The answer is not a dictionary.
    NotADictionary,
    /// The interval is negative.
    NegativeInterval,
    /// There is no byte-string under `peers`.
    NoPeers,
    /// The peer list is not made of whole six-byte groups.
    PeersLength,
}

pub open spec fn interval_key() -> Seq<u8> {
    ascii_bytes("interval"@)
}

pub open spec fn peers_key() -> Seq<u8> {
    ascii_bytes("peers"@)
}

/// The `i`-th peer of a compact list: four bytes of address and two of
/// port, both big-endian.
pub open spec fn compact_peer(bytes: Seq<u8>, i: int) -> PeerAddr {
    PeerAddr {
        ip: from_be32(bytes.subrange(6 * i, 6 * i + 4)),
        port: from_be16(bytes.subrange(6 * i + 4, 6 * i + 6)),
    }
}

/// The peers of a compact list, in order.
pub open spec fn compact_peers(bytes: Seq<u8>) -> Seq<PeerAddr> {
    Seq::new(bytes.len() / 6, |i: int| compact_peer(bytes, i))
}

/// The interval and the peers that a decoded answer holds. An interval that
/// is absent or not an integer counts as zero, and as not given.
pub open spec fn response_of(v: Bencode) -> Result<ResponseView, TrackerError> {
    match v {
        Bencode::Dict(entries) => {
            let interval = lookup(entries, interval_key());
            if interval matches Some(Bencode::Int(i)) && i < 0 {
                Err(TrackerError::NegativeInterval)
            } else {
                match lookup(entries, peers_key()) {
                    Some(Bencode::Bytes(bytes)) => if bytes.len() % 6 != 0 {
                        Err(TrackerError::PeersLength)
                    } else {
                        Ok(
                            ResponseView {
                                interval: match interval {
                                    Some(Bencode::Int(i)) => i as u64,
                                    _ => 0,
                                },
                                interval_given: interval matches Some(Bencode::Int(_)),
                                peers: compact_peers(bytes),
                            },
                        )
                    },
                    _ => Err(TrackerError::NoPeers),
                }
            }
        },
        _ => Err(TrackerError::NotADictionary),
    }
}

/// The interval and the peers that the body of a tracker's answer holds.
/// Bytes after the bencoded value are ignored.
pub open spec fn response_of_bytes(body: Seq<u8>) -> Result<ResponseView, TrackerError> {
    match parse_value(body, 0) {
        Err(e) => Err(TrackerError::Decode(e)),
        Ok((v, _)) => response_of(v),
    }
}

/// What a parsed answer stands for.
pub open spec fn answered(r: Result<TrackerResponse, TrackerError>) -> Result<
    ResponseView,
    TrackerError,
> {
    match r {
        Ok(response) => Ok(response@),
        Err(e) => Err(e),
    }
}

/// The peers of a compact list: each group of six bytes is four bytes of
/// IPv4 address and two bytes of port, both big-endian.
pub fn parse_compact_peers(bytes: &[u8]) -> (r: Result<Vec<PeerAddr>, TrackerError>)
    ensures
        match r {
            Ok(peers) => bytes@.len() % 6 == 0 && peers@ == compact_peers(bytes@),
            Err(e) => bytes@.len() % 6 != 0 && e == TrackerError::PeersLength,
        },
{
    if bytes.len() % 6 != 0 {
        return Err(TrackerError::PeersLength);
    }
    let count: usize = bytes.len() / 6;
    let mut peers: Vec<PeerAddr> = Vec::new();
    let mut i: usize = 0;
    while i < count
        invariant
            i <= count,
            count == bytes@.len() / 6,
            bytes@.len() % 6 == 0,
            bytes@.len() <= usize::MAX,
            peers@.len() == i,
            forall|k: int| 0 <= k < i ==> #[trigger] peers@[k] == compact_peer(bytes@, k),
        decreases count - i,
    {
        let ip: u32 = read_be32(bytes, 6 * i);
        let port: u16 = read_be16(bytes, 6 * i + 4);
        peers.push(PeerAddr { ip, port });
        i += 1;
    }
    Ok(peers)
}

impl PeerAddr {
    /// The four bytes of the address, in network order.
    pub fn octets(&self) -> (octets: [u8; 4])
        ensures
            octets@ == be32(self.ip),
    {
        let octets: [u8; 4] = [
            (self.ip / 0x100_0000) as u8,
            ((self.ip / 0x1_0000) % 0x100) as u8,
            ((self.ip / 0x100) % 0x100) as u8,
            (self.ip % 0x100) as u8,
        ];
        octets
    }
}

impl TryFrom<&BencodedValue> for TrackerResponse {
    type Error = TrackerError;

    /// The answer that a decoded value holds: a dictionary with the peers
    /// in compact form under `peers` and, if the tracker gives one, a
    /// non-negative `interval`.
    fn try_from(value: &BencodedValue) -> (r: Result<TrackerResponse, TrackerError>)
        ensures
            answered(r) == response_of(value@),
    {
        proof {
            reveal_strlit("interval");
            reveal_strlit("peers");
        }
        let dict = match value {
            BencodedValue::Dict(dict) => dict,
            _ => {
                return Err(TrackerError::NotADictionary);
            },
        };
        let (interval, interval_given) = match dict.get(
            &BencodedString(bytes_of_ascii("interval")),
        ) {
            Some(BencodedValue::Integer(i)) => {
                if *i < 0 {
                    return Err(TrackerError::NegativeInterval);
                }
                (*i as u64, true)
            },
            _ => (0u64, false),
        };
        match dict.get(&BencodedString(bytes_of_ascii("peers"))) {
            Some(BencodedValue::String(s)) => {
                let peers = parse_compact_peers(s.0.as_slice())?;
                Ok(TrackerResponse { interval, interval_given, peers })
            },
            _ => Err(TrackerError::NoPeers),
        }
    }
}

/// No function of the value names the answer, which owns its list of
/// peers; the contract of `try_from` says what it holds.
impl vstd::std_specs::convert::TryFromSpecImpl<&BencodedValue> for TrackerResponse {
    open spec fn obeys_try_from_spec() -> bool {
        false
    }

    open spec fn try_from_spec(value: &BencodedValue) -> Result<TrackerResponse, TrackerError> {
        arbitrary()
    }
}

/// The answer in the body of a tracker's reply.
pub fn parse_announce_response(body: &[u8]) -> (r: Result<TrackerResponse, TrackerError>)
    ensures
        answered(r) == response_of_bytes(body@),
{
    match decode_bencoded_value(body) {
        Err(e) => Err(TrackerError::Decode(e)),
        Ok((_, value)) => TrackerResponse::try_from(&value),
    }
}

} // verus!
