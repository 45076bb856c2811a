//! The metainfo of a single-file torrent: the typed fields that a decoded
//! metainfo file holds, and the hash that names the torrent.

use vstd::prelude::*;
use vstd::utf8::encode_utf8;
use crate::decode::{decode, decoded};
use crate::encode::{encode, encode_term};
use crate::fields::{
    bytes_field,
    count_field,
    dictionary_field,
    get_bytes,
    get_count,
    get_dictionary,
    get_text,
    text_field,
    Field,
    ParseError,
};
use crate::order::{bytes_lt, lemma_lt_skip_common};
use crate::trusted::{sha1, sha1_digest};
use crate::value::{lemma_put_last, Dictionary, Term, Value};

verus! {

/// The size of a piece hash in bytes.
pub const HASH_SIZE: usize = 20;

/// The hashes that a `pieces` byte string holds: its bytes in runs of 20.
pub open spec fn split_pieces(bytes: Seq<u8>) -> Seq<Seq<u8>> {
    Seq::new(bytes.len() / 20, |i: int| bytes.subrange(20 * i, 20 * i + 20))
}

/// The `pieces` byte string of hashes of 20 bytes: one after the other.
pub open spec fn join_pieces(pieces: Seq<Seq<u8>>) -> Seq<u8> {
    Seq::new(20 * pieces.len(), |k: int| pieces[k / 20][k % 20])
}

/// Joining the hashes of a `pieces` byte string gives the byte string back.
pub proof fn lemma_join_split(bytes: Seq<u8>)
    requires
        bytes.len() % 20 == 0,
    ensures
        join_pieces(split_pieces(bytes)) == bytes,
{
    let pieces = split_pieces(bytes);
    let joined = join_pieces(pieces);
    assert(joined.len() == bytes.len());
    assert forall|k: int| 0 <= k < bytes.len() implies joined[k] == bytes[k] by {
        assert(pieces[k / 20] == bytes.subrange(20 * (k / 20), 20 * (k / 20) + 20));
    }
    assert(joined =~= bytes);
}

/// Splitting the joined hashes gives the hashes back.
pub proof fn lemma_split_join(pieces: Seq<Seq<u8>>)
    requires
        forall|i: int| 0 <= i < pieces.len() ==> (#[trigger] pieces[i]).len() == 20,
    ensures
        join_pieces(pieces).len() % 20 == 0,
        split_pieces(join_pieces(pieces)) == pieces,
{
    let joined = join_pieces(pieces);
    let split = split_pieces(joined);
    assert(split.len() == pieces.len());
    assert forall|i: int| 0 <= i < pieces.len() implies split[i] == pieces[i] by {
        assert forall|j: int| 0 <= j < 20 implies split[i][j] == pieces[i][j] by {
            assert(joined[20 * i + j] == pieces[(20 * i + j) / 20][(20 * i + j) % 20]);
        }
        assert(split[i] =~= pieces[i]);
    }
    assert(split =~= pieces);
}

/// The hashes of the pieces of a torrent, in the order of the pieces.
#[derive(Debug, PartialEq, Eq)]
pub struct Hashes(pub Vec<[u8; 20]>);

impl View for Hashes {
    type V = Seq<Seq<u8>>;

    open spec fn view(&self) -> Seq<Seq<u8>> {
        Seq::new(self.0@.len(), |i: int| self.0@[i]@)
    }
}

impl Hashes {
    /// Splits a `pieces` byte string into hashes. There is no result where
    /// its length is no multiple of 20.
    pub fn from_bytes(bytes: &[u8]) -> (r: Option<Hashes>)
        ensures
            r.is_some() == (bytes@.len() % 20 == 0),
            r matches Some(hashes) ==> hashes@ == split_pieces(bytes@),
    {
        if bytes.len() % HASH_SIZE != 0 {
            return None;
        }
        let count = bytes.len() / HASH_SIZE;
        let mut pieces: Vec<[u8; 20]> = Vec::new();
        let mut i: usize = 0;
        while i < count
            invariant
                count == bytes@.len() / 20,
                bytes@.len() % 20 == 0,
                bytes@.len() <= usize::MAX,
                i <= count,
                pieces@.len() == i,
                forall|k: int| 0 <= k < i ==> (#[trigger] pieces@[k])@ == bytes@.subrange(
                    20 * k,
                    20 * k + 20,
                ),
            decreases count - i,
        {
            let mut piece = [0u8;20];
            let mut j: usize = 0;
            while j < HASH_SIZE
                invariant
                    20 * i + 20 <= bytes@.len() <= usize::MAX,
                    j <= 20,
                    forall|k: int| 0 <= k < j ==> piece@[k] == bytes@[20 * i + k],
                decreases 20 - j,
            {
                piece[j] = bytes[20 * i + j];
                j += 1;
            }
            assert(piece@ =~= bytes@.subrange(20 * i, 20 * i + 20));
            pieces.push(piece);
            i += 1;
        }
        let hashes = Hashes(pieces);
        assert(hashes@ =~= split_pieces(bytes@));
        Some(hashes)
    }

    /// Joins the hashes into a `pieces` byte string.
    pub fn to_bytes(&self) -> (bytes: Vec<u8>)
        ensures
            bytes@ == join_pieces(self@),
    {
        let mut bytes: Vec<u8> = Vec::new();
        let mut i: usize = 0;
        while i < self.0.len()
            invariant
                i <= self.0@.len(),
                bytes@.len() == 20 * i,
                forall|k: int| 0 <= k < 20 * i ==> bytes@[k] == self@[k / 20][k % 20],
            decreases self.0@.len() - i,
        {
            let piece = &self.0[i];
            let mut j: usize = 0;
            while j < HASH_SIZE
                invariant
                    i < self.0@.len(),
                    *piece == self.0@[i as int],
                    j <= 20,
                    bytes@.len() == 20 * i + j,
                    forall|k: int| 0 <= k < 20 * i + j ==> bytes@[k] == self@[k / 20][k % 20],
                decreases 20 - j,
            {
                bytes.push(piece[j]);
                j += 1;
            }
            i += 1;
        }
        assert(bytes@ =~= join_pieces(self@));
        bytes
    }
}

/// What an `info` dictionary says of the content of a torrent.
pub struct InfoModel {
    /// The size of the content in bytes.
    pub length: int,
    /// The suggested file name, in UTF-8.
    pub name: Seq<u8>,
    /// The size of a piece in bytes.
    pub piece_length: int,
    /// The hashes of the pieces.
    pub pieces: Seq<Seq<u8>>,
}

/// The `info` dictionary of a single-file torrent. Both sizes fit in a
/// bencode integer.
#[derive(Debug, PartialEq, Eq)]
pub struct Info {
    length: u64,
    name: String,
    piece_length: u64,
    pieces: Hashes,
}

impl View for Info {
    type V = InfoModel;

    closed spec fn view(&self) -> InfoModel {
        InfoModel {
            length: self.length as int,
            name: encode_utf8(self.name@),
            piece_length: self.piece_length as int,
            pieces: self.pieces@,
        }
    }
}

/// The dictionary that holds exactly the four fields of `info`.
pub open spec fn info_term(info: InfoModel) -> Term {
    Term::Dictionary(
        seq![
            (Field::Length.key(), Term::Integer(info.length)),
            (Field::Name.key(), Term::ByteString(info.name)),
            (Field::PieceLength.key(), Term::Integer(info.piece_length)),
            (Field::Pieces.key(), Term::ByteString(join_pieces(info.pieces))),
        ],
    )
}

/// The keys of `info` in their canonical order.
pub proof fn lemma_info_keys()
    ensures
        bytes_lt(Field::Length.key(), Field::Name.key()),
        bytes_lt(Field::Length.key(), Field::PieceLength.key()),
        bytes_lt(Field::Length.key(), Field::Pieces.key()),
        bytes_lt(Field::Name.key(), Field::PieceLength.key()),
        bytes_lt(Field::Name.key(), Field::Pieces.key()),
        bytes_lt(Field::PieceLength.key(), Field::Pieces.key()),
{
    let a = Field::PieceLength.key();
    let b = Field::Pieces.key();
    lemma_lt_skip_common(a, b, 5);
    assert(a.skip(5)[0] == 0x20);
    assert(b.skip(5)[0] == 0x73);
}

impl Info {
    #[verifier::type_invariant]
    closed spec fn sizes_fit(self) -> bool {
        self.length <= i64::MAX && self.piece_length <= i64::MAX
    }

    /// Makes an `info` of its four fields, unless a size is too large for a
    /// bencode integer.
    pub fn new(length: u64, name: String, piece_length: u64, pieces: Hashes) -> (r: Option<Info>)
        ensures
            r.is_some() == (length <= i64::MAX && piece_length <= i64::MAX),
            r matches Some(info) ==> info@ == (InfoModel {
                length: length as int,
                name: encode_utf8(name@),
                piece_length: piece_length as int,
                pieces: pieces@,
            }),
    {
        if length > 0x7fff_ffff_ffff_ffff || piece_length > 0x7fff_ffff_ffff_ffff {
            None
        } else {
            Some(Info { length, name, piece_length, pieces })
        }
    }

    /// The size of the content in bytes.
    pub fn length(&self) -> (n: u64)
        ensures
            n == self@.length,
    {
        self.length
    }

    /// The suggested file name.
    pub fn name(&self) -> (name: &String)
        ensures
            encode_utf8(name@) == self@.name,
    {
        &self.name
    }

    /// The size of a piece in bytes.
    pub fn piece_length(&self) -> (n: u64)
        ensures
            n == self@.piece_length,
    {
        self.piece_length
    }

    /// The hashes of the pieces.
    pub fn pieces(&self) -> (pieces: &Hashes)
        ensures
            pieces@ == self@.pieces,
    {
        &self.pieces
    }

    /// Whether there are as many hashes as the content has pieces: its
    /// length divided by the piece length, rounded up.
    pub fn piece_count_matches(&self) -> (r: bool)
        ensures
            r == (self@.piece_length > 0 && self@.pieces.len() == (self@.length
                + self@.piece_length - 1) / self@.piece_length),
    {
        proof {
            use_type_invariant(self);
        }
        if self.piece_length == 0 {
            return false;
        }
        let wanted = (self.length + (self.piece_length - 1)) / self.piece_length;
        self.pieces.0.len() as u64 == wanted
    }

    /// The dictionary of the four fields.
    pub fn to_value(&self) -> (value: Value)
        ensures
            value@ == info_term(self@),
    {
        proof {
            use_type_invariant(self);
            lemma_info_keys();
        }
        let mut dictionary = Dictionary::new();
        let ghost e0 = dictionary@;
        let length = Value::Integer(self.length as i64);
        proof {
            lemma_put_last(e0, Field::Length.key(), length@);
        }
        dictionary.insert(Field::Length.key_bytes(), length);
        let ghost e1 = dictionary@;
        let name = Value::ByteString(self.name.as_str().as_bytes_vec());
        proof {
            lemma_put_last(e1, Field::Name.key(), name@);
        }
        dictionary.insert(Field::Name.key_bytes(), name);
        let ghost e2 = dictionary@;
        let piece_length = Value::Integer(self.piece_length as i64);
        proof {
            lemma_put_last(e2, Field::PieceLength.key(), piece_length@);
        }
        dictionary.insert(Field::PieceLength.key_bytes(), piece_length);
        let ghost e3 = dictionary@;
        let pieces = Value::ByteString(self.pieces.to_bytes());
        proof {
            lemma_put_last(e3, Field::Pieces.key(), pieces@);
        }
        dictionary.insert(Field::Pieces.key_bytes(), pieces);
        assert(dictionary@ =~= info_term(self@)->Dictionary_0);
        Value::Dictionary(dictionary)
    }

    /// The hash that names the torrent: the SHA-1 digest of the canonical
    /// encoding of the dictionary of the four fields.
    pub fn info_hash(&self) -> (digest: [u8; 20])
        ensures
            digest@ == sha1(encode_term(info_term(self@))),
    {
        info_hash(&self.to_value())
    }
}

/// The SHA-1 digest of the canonical encoding of `info`, which names a
/// torrent to trackers and peers.
pub fn info_hash(info: &Value) -> (digest: [u8; 20])
    ensures
        digest@ == sha1(encode_term(info@)),
{
    let bytes = encode(info);
    sha1_digest(bytes.as_slice())
}

/// What a metainfo file says.
pub struct MetainfoModel {
    /// The URL of the tracker, in UTF-8.
    pub announce: Seq<u8>,
    /// The description of the content.
    pub info: InfoModel,
}

/// The metainfo of a single-file torrent.
#[derive(Debug, PartialEq, Eq)]
pub struct TorrentMetainfo {
    /// The URL of the tracker.
    pub announce: String,
    /// The description of the content.
    pub info: Info,
}

impl View for TorrentMetainfo {
    type V = MetainfoModel;

    open spec fn view(&self) -> MetainfoModel {
        MetainfoModel { announce: encode_utf8(self.announce@), info: self.info@ }
    }
}

/// What the entries of an `info` dictionary say: the four fields, read in
/// the order `length`, `name`, `piece length`, `pieces`, or the first
/// failure.
pub open spec fn info_of(entries: Seq<(Seq<u8>, Term)>) -> Result<InfoModel, ParseError> {
    match count_field(entries, Field::Length) {
        Err(e) => Err(e),
        Ok(length) => match text_field(entries, Field::Name) {
            Err(e) => Err(e),
            Ok(name) => match count_field(entries, Field::PieceLength) {
                Err(e) => Err(e),
                Ok(piece_length) => match bytes_field(entries, Field::Pieces) {
                    Err(e) => Err(e),
                    Ok(pieces) => if pieces.len() % 20 != 0 {
                        Err(ParseError::Size(Field::Pieces))
                    } else {
                        Ok(InfoModel { length, name, piece_length, pieces: split_pieces(pieces) })
                    },
                },
            },
        },
    }
}

/// What a decoded metainfo file says: `announce`, then `info`, or the first
/// failure.
pub open spec fn metainfo_of(term: Term) -> Result<MetainfoModel, ParseError> {
    match term {
        Term::Dictionary(entries) => match text_field(entries, Field::Announce) {
            Err(e) => Err(e),
            Ok(announce) => match dictionary_field(entries, Field::Info) {
                Err(e) => Err(e),
                Ok(inner) => match info_of(inner) {
                    Err(e) => Err(e),
                    Ok(info) => Ok(MetainfoModel { announce, info }),
                },
            },
        },
        _ => Err(ParseError::NotADictionary),
    }
}

/// What the bytes of a metainfo file say. Bytes after the dictionary are not
/// looked at.
pub open spec fn metainfo_in(bytes: Seq<u8>) -> Result<MetainfoModel, ParseError> {
    match decoded(bytes) {
        Err(e) => Err(ParseError::Decode(e)),
        Ok((term, _)) => metainfo_of(term),
    }
}

/// What an executable result stands for.
pub open spec fn metainfo_outcome(r: Result<TorrentMetainfo, ParseError>) -> Result<
    MetainfoModel,
    ParseError,
> {
    match r {
        Ok(metainfo) => Ok(metainfo@),
        Err(e) => Err(e),
    }
}

/// Reads the four fields of an `info` dictionary.
pub fn project_info(dictionary: &Dictionary) -> (r: Result<Info, ParseError>)
    ensures
        match r {
            Ok(info) => info_of(dictionary@) == Ok::<InfoModel, ParseError>(info@),
            Err(e) => info_of(dictionary@) == Err::<InfoModel, ParseError>(e),
        },
{
    let length = match get_count(dictionary, Field::Length) {
        Ok(n) => n,
        Err(e) => {
            return Err(e);
        },
    };
    let name = match get_text(dictionary, Field::Name) {
        Ok(text) => text,
        Err(e) => {
            return Err(e);
        },
    };
    let piece_length = match get_count(dictionary, Field::PieceLength) {
        Ok(n) => n,
        Err(e) => {
            return Err(e);
        },
    };
    let bytes = match get_bytes(dictionary, Field::Pieces) {
        Ok(bytes) => bytes,
        Err(e) => {
            return Err(e);
        },
    };
    match Hashes::from_bytes(bytes.as_slice()) {
        None => Err(ParseError::Size(Field::Pieces)),
        Some(pieces) => Ok(Info { length, name, piece_length, pieces }),
    }
}

/// Reads the metainfo that a decoded metainfo file holds.
pub fn project_metainfo(value: &Value) -> (r: Result<TorrentMetainfo, ParseError>)
    ensures
        metainfo_outcome(r) == metainfo_of(value@),
{
    match value {
        Value::Dictionary(entries) => {
            let announce = match get_text(entries, Field::Announce) {
                Ok(text) => text,
                Err(e) => {
                    return Err(e);
                },
            };
            let inner = match get_dictionary(entries, Field::Info) {
                Ok(inner) => inner,
                Err(e) => {
                    return Err(e);
                },
            };
            match project_info(inner) {
                Ok(info) => Ok(TorrentMetainfo { announce, info }),
                Err(e) => Err(e),
            }
        },
        _ => Err(ParseError::NotADictionary),
    }
}

/// Reads a metainfo file: decodes it and reads `announce` and `info` from
/// the dictionary.
pub fn parse_metainfo(bytes: &[u8]) -> (r: Result<TorrentMetainfo, ParseError>)
    ensures
        metainfo_outcome(r) == metainfo_in(bytes@),
{
    match decode(bytes) {
        Err(e) => Err(ParseError::Decode(e)),
        Ok((value, _)) => project_metainfo(&value),
    }
}

} // verus!
