//! The announce to a tracker: the URL of the request, and the interval and
//! the compact peer list of the response.

use vstd::prelude::*;
use vstd::string::StringExecFns;
use vstd::utf8::{
    decode_utf8,
    encode_utf8,
    encode_utf8_decode_utf8,
    is_ascii_chars_encode_utf8,
};
use crate::decode::{decode, decoded};
use crate::encode::encode_term;
use crate::fields::{bytes_field, count_field, get_bytes, get_count, Field, ParseError};
use crate::metainfo::{info_term, MetainfoModel, TorrentMetainfo};
use crate::text::{
    decimal_string,
    decimal_text,
    lemma_decimal_text_bytes,
    percent_encode,
    percent_text,
};
use crate::trusted::{
    pairs_view,
    query_within,
    sha1,
    url_parse_with_params,
    url_with_query,
    MAX_QUERY_TEXT,
    MAX_URL_BYTES,
};
use crate::value::{Dictionary, Term, Value};

verus! {

/// The size of a peer in a compact peer list: 4 bytes of address and 2 of
/// port.
pub const PEER_SIZE: usize = 6;

/// The address of a peer as a compact peer list gives it.
pub struct PeerModel {
    /// The four octets of the IPv4 address, the first one first.
    pub octets: Seq<u8>,
    /// The port.
    pub port: int,
}

/// The peer that a record of 6 bytes stands for: the octets of the address,
/// then the port with its high byte first.
pub open spec fn peer_of(record: Seq<u8>) -> PeerModel {
    PeerModel { octets: record.subrange(0, 4), port: record[4] as int * 256 + record[5] as int }
}

/// The peers of a compact peer list: one for each run of 6 bytes.
pub open spec fn split_peers(bytes: Seq<u8>) -> Seq<PeerModel> {
    Seq::new(bytes.len() / 6, |i: int| peer_of(bytes.subrange(6 * i, 6 * i + 6)))
}

/// The IPv4 address and the port of a peer.
#[derive(Clone, Copy, Debug, PartialEq, Eq)]
pub struct PeerAddr {
    /// The four octets of the address, the first one first.
    pub octets: [u8; 4],
    /// The port.
    pub port: u16,
}

impl View for PeerAddr {
    type V = PeerModel;

    open spec fn view(&self) -> PeerModel {
        PeerModel { octets: self.octets@, port: self.port as int }
    }
}

/// The peers that a tracker names, in the order of its list.
#[derive(Debug, PartialEq, Eq)]
pub struct Peers(pub Vec<PeerAddr>);

impl View for Peers {
    type V = Seq<PeerModel>;

    open spec fn view(&self) -> Seq<PeerModel> {
        Seq::new(self.0@.len(), |i: int| self.0@[i]@)
    }
}

impl Peers {
    /// Splits a compact peer list into peers. There is no result where its
    /// length is no multiple of 6.
    pub fn from_bytes(bytes: &[u8]) -> (r: Option<Peers>)
        ensures
            r.is_some() == (bytes@.len() % 6 == 0),
            r matches Some(peers) ==> peers@ == split_peers(bytes@),
    {
        if bytes.len() % PEER_SIZE != 0 {
            return None;
        }
        let count = bytes.len() / PEER_SIZE;
        let mut peers: Vec<PeerAddr> = Vec::new();
        let mut i: usize = 0;
        while i < count
            invariant
                count == bytes@.len() / 6,
                bytes@.len() % 6 == 0,
                bytes@.len() <= usize::MAX,
                i <= count,
                peers@.len() == i,
                forall|k: int| 0 <= k < i ==> (#[trigger] peers@[k])@ == peer_of(
                    bytes@.subrange(6 * k, 6 * k + 6),
                ),
            decreases count - i,
        {
            let at = 6 * i;
            let octets = [bytes[at], bytes[at + 1], bytes[at + 2], bytes[at + 3]];
            let port = bytes[at + 4] as u16 * 256 + bytes[at + 5] as u16;
            let peer = PeerAddr { octets, port };
            proof {
                let record = bytes@.subrange(6 * i, 6 * i + 6);
                assert(octets@ =~= record.subrange(0, 4));
                assert(record[4] == bytes@[at + 4]);
                assert(record[5] == bytes@[at + 5]);
            }
            peers.push(peer);
            i += 1;
        }
        let peers = Peers(peers);
        assert(peers@ =~= split_peers(bytes@));
        Some(peers)
    }
}

/// What the response of a tracker says.
pub struct ResponseModel {
    /// The seconds to wait between two requests.
    pub interval: int,
    /// The peers.
    pub peers: Seq<PeerModel>,
}

/// The response of a tracker to an announce.
#[derive(Debug, PartialEq, Eq)]
pub struct TrackerResponse {
    /// The seconds to wait between two requests.
    pub interval: u64,
    /// The peers.
    pub peers: Peers,
}

impl View for TrackerResponse {
    type V = ResponseModel;

    open spec fn view(&self) -> ResponseModel {
        ResponseModel { interval: self.interval as int, peers: self.peers@ }
    }
}

/// What a decoded response says: `interval`, then `peers`, or the first
/// failure.
pub open spec fn response_of(term: Term) -> Result<ResponseModel, ParseError> {
    match term {
        Term::Dictionary(entries) => match count_field(entries, Field::Interval) {
            Err(e) => Err(e),
            Ok(interval) => match bytes_field(entries, Field::Peers) {
                Err(e) => Err(e),
                Ok(peers) => if peers.len() % 6 != 0 {
                    Err(ParseError::Size(Field::Peers))
                } else {
                    Ok(ResponseModel { interval, peers: split_peers(peers) })
                },
            },
        },
        _ => Err(ParseError::NotADictionary),
    }
}

/// What the bytes of a response say. Bytes after the dictionary are not
/// looked at.
pub open spec fn response_in(bytes: Seq<u8>) -> Result<ResponseModel, ParseError> {
    match decoded(bytes) {
        Err(e) => Err(ParseError::Decode(e)),
        Ok((term, _)) => response_of(term),
    }
}

/// What an executable result stands for.
pub open spec fn response_outcome(r: Result<TrackerResponse, ParseError>) -> Result<
    ResponseModel,
    ParseError,
> {
    match r {
        Ok(response) => Ok(response@),
        Err(e) => Err(e),
    }
}

/// Reads the response that a decoded tracker response holds.
pub fn project_response(value: &Value) -> (r: Result<TrackerResponse, ParseError>)
    ensures
        response_outcome(r) == response_of(value@),
{
    match value {
        Value::Dictionary(entries) => {
            let interval = match get_count(entries, Field::Interval) {
                Ok(n) => n,
                Err(e) => {
                    return Err(e);
                },
            };
            let bytes = match get_bytes(entries, Field::Peers) {
                Ok(bytes) => bytes,
                Err(e) => {
                    return Err(e);
                },
            };
            match Peers::from_bytes(bytes.as_slice()) {
                None => Err(ParseError::Size(Field::Peers)),
                Some(peers) => Ok(TrackerResponse { interval, peers }),
            }
        },
        _ => Err(ParseError::NotADictionary),
    }
}

/// Reads the response of a tracker: decodes it and reads `interval` and
/// `peers` from the dictionary.
pub fn parse_tracker_response(bytes: &[u8]) -> (r: Result<TrackerResponse, ParseError>)
    ensures
        response_outcome(r) == response_in(bytes@),
{
    match decode(bytes) {
        Err(e) => Err(ParseError::Decode(e)),
        Ok((value, _)) => project_response(&value),
    }
}

/// Why no announce URL can be built.
#[derive(Clone, Copy, Debug, PartialEq, Eq, Structural)]
pub enum AnnounceError {
    /// The peer identifier does not have 20 bytes.
    PeerIdLength,
    /// The announce URL of the torrent is longer than `MAX_URL_BYTES`.
    AnnounceLength,
    /// The announce URL of the torrent is no absolute URL.
    AnnounceUrl,
}

/// The query pairs of an announce in the order in which they are sent, but
/// for the info-hash.
pub open spec fn announce_query(
    peer_id: Seq<char>,
    port: u16,
    uploaded: u64,
    downloaded: u64,
    left: u64,
    compact: bool,
) -> Seq<(Seq<char>, Seq<char>)> {
    seq![
        ("peer_id"@, peer_id),
        ("port"@, decimal_text(port as nat)),
        ("uploaded"@, decimal_text(uploaded as nat)),
        ("downloaded"@, decimal_text(downloaded as nat)),
        ("left"@, decimal_text(left as nat)),
        ("compact"@, if compact {
            "1"@
        } else {
            "0"@
        }),
    ]
}

/// The query pairs of an announce are few and short, where the peer
/// identifier is short.
pub proof fn lemma_announce_query_within(
    peer_id: Seq<char>,
    port: u16,
    uploaded: u64,
    downloaded: u64,
    left: u64,
    compact: bool,
)
    requires
        encode_utf8(peer_id).len() <= MAX_QUERY_TEXT,
    ensures
        query_within(announce_query(peer_id, port, uploaded, downloaded, left, compact)),
{
    reveal_strlit("peer_id");
    reveal_strlit("port");
    reveal_strlit("uploaded");
    reveal_strlit("downloaded");
    reveal_strlit("left");
    reveal_strlit("compact");
    reveal_strlit("1");
    reveal_strlit("0");
    is_ascii_chars_encode_utf8("peer_id"@);
    is_ascii_chars_encode_utf8("port"@);
    is_ascii_chars_encode_utf8("uploaded"@);
    is_ascii_chars_encode_utf8("downloaded"@);
    is_ascii_chars_encode_utf8("left"@);
    is_ascii_chars_encode_utf8("compact"@);
    is_ascii_chars_encode_utf8("1"@);
    is_ascii_chars_encode_utf8("0"@);
    lemma_decimal_text_bytes(port as nat);
    lemma_decimal_text_bytes(uploaded as nat);
    lemma_decimal_text_bytes(downloaded as nat);
    lemma_decimal_text_bytes(left as nat);
}

/// A URL with the info-hash added as its last query pair, every byte of the
/// hash escaped.
pub open spec fn with_info_hash(url: Seq<char>, digest: Seq<u8>) -> Seq<char> {
    url + "&info_hash="@ + percent_text(digest)
}

/// The URL of an announce for a torrent: what its announce URL and the query
/// pairs make by the rules of URLs, and then the info-hash of the torrent.
/// There is none where the announce URL is no absolute URL.
pub open spec fn announce_url(metainfo: MetainfoModel, query: Seq<(Seq<char>, Seq<char>)>) -> Option<
    Seq<char>,
> {
    match url_with_query(decode_utf8(metainfo.announce), query) {
        Some(base) => Some(with_info_hash(base, sha1(encode_term(info_term(metainfo.info))))),
        None => None,
    }
}

/// Adds the info-hash to a URL that has a query already. The hash is raw
/// binary, so every byte of it is escaped, which an encoder of query text
/// would not do.
pub fn append_info_hash(url: String, digest: &[u8; 20]) -> (full: String)
    ensures
        full@ == with_info_hash(url@, digest@),
{
    let mut full = url;
    full.append("&info_hash=");
    let escaped = percent_encode(digest.as_slice());
    full.append(escaped.as_str());
    full
}

/// The query pairs of an announce, but for the info-hash.
pub fn announce_pairs(
    peer_id: &str,
    port: u16,
    uploaded: u64,
    downloaded: u64,
    left: u64,
    compact: bool,
) -> (pairs: Vec<(String, String)>)
    ensures
        pairs_view(pairs@) == announce_query(peer_id@, port, uploaded, downloaded, left, compact),
{
    let mut pairs: Vec<(String, String)> = Vec::new();
    pairs.push((String::from_str("peer_id"), String::from_str(peer_id)));
    pairs.push((String::from_str("port"), decimal_string(port as u64)));
    pairs.push((String::from_str("uploaded"), decimal_string(uploaded)));
    pairs.push((String::from_str("downloaded"), decimal_string(downloaded)));
    pairs.push((String::from_str("left"), decimal_string(left)));
    let flag = if compact {
        "1"
    } else {
        "0"
    };
    pairs.push((String::from_str("compact"), String::from_str(flag)));
    assert(pairs_view(pairs@) =~= announce_query(
        peer_id@,
        port,
        uploaded,
        downloaded,
        left,
        compact,
    ));
    pairs
}

/// Builds the URL of an announce for the torrent of `metainfo`: its announce
/// URL with the query pairs `peer_id`, `port`, `uploaded`, `downloaded`,
/// `left` and `compact` added by the rules of URLs, and then the info-hash
/// with every byte escaped. The peer identifier has to have 20 bytes, and
/// the announce URL at most `MAX_URL_BYTES`.
pub fn build_announce_url(
    metainfo: &TorrentMetainfo,
    peer_id: &str,
    port: u16,
    uploaded: u64,
    downloaded: u64,
    left: u64,
    compact: bool,
) -> (r: Result<String, AnnounceError>)
    ensures
        match r {
            Ok(url) => encode_utf8(peer_id@).len() == 20 && metainfo@.announce.len()
                <= MAX_URL_BYTES && announce_url(
                metainfo@,
                announce_query(peer_id@, port, uploaded, downloaded, left, compact),
            ) == Some(url@),
            Err(AnnounceError::PeerIdLength) => encode_utf8(peer_id@).len() != 20,
            Err(AnnounceError::AnnounceLength) => encode_utf8(peer_id@).len() == 20
                && metainfo@.announce.len() > MAX_URL_BYTES,
            Err(AnnounceError::AnnounceUrl) => encode_utf8(peer_id@).len() == 20
                && metainfo@.announce.len() <= MAX_URL_BYTES && announce_url(
                metainfo@,
                announce_query(peer_id@, port, uploaded, downloaded, left, compact),
            ).is_none(),
        },
{
    if peer_id.as_bytes().len() != 20 {
        return Err(AnnounceError::PeerIdLength);
    }
    if metainfo.announce.as_str().as_bytes().len() > MAX_URL_BYTES {
        return Err(AnnounceError::AnnounceLength);
    }
    let pairs = announce_pairs(peer_id, port, uploaded, downloaded, left, compact);
    proof {
        encode_utf8_decode_utf8(metainfo.announce@);
        lemma_announce_query_within(peer_id@, port, uploaded, downloaded, left, compact);
    }
    match url_parse_with_params(metainfo.announce.as_str(), &pairs) {
        None => Err(AnnounceError::AnnounceUrl),
        Some(base) => {
            let digest = metainfo.info.info_hash();
            Ok(append_info_hash(base, &digest))
        },
    }
}

} // verus!
