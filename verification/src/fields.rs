//! The named fields of the dictionaries that a torrent and a tracker send,
//! and how a field of a given type is read from a decoded dictionary.

use vstd::prelude::*;
use vstd::utf8::{encode_utf8, valid_utf8};
use crate::decode::{DecodeError, ErrorKind};
use crate::trusted::string_from_utf8;
use crate::value::{lookup, Dictionary, Term, Value};

verus! {

/// The fields that this library reads.
#[derive(Clone, Copy, Debug, PartialEq, Eq, Structural)]
pub enum Field {
    /// `announce` of a metainfo file: the URL of the tracker.
    Announce,
    /// `info` of a metainfo file: the dictionary that describes the content.
    Info,
    /// `length` of `info`: the size of the content in bytes.
    Length,
    /// `name` of `info`: the suggested file name.
    Name,
    /// `piece length` of `info`: the size of a piece in bytes.
    PieceLength,
    /// `pieces` of `info`: the hashes of the pieces, 20 bytes each.
    Pieces,
    /// `interval` of a tracker response: seconds between two requests.
    Interval,
    /// `peers` of a tracker response: the compact list, 6 bytes each.
    Peers,
}

impl Field {
    /// The key of the field, in ASCII.
    pub open spec fn key(self) -> Seq<u8> {
        match self {
            Field::Announce => seq![0x61u8, 0x6e, 0x6e, 0x6f, 0x75, 0x6e, 0x63, 0x65],
            Field::Info => seq![0x69u8, 0x6e, 0x66, 0x6f],
            Field::Length => seq![0x6cu8, 0x65, 0x6e, 0x67, 0x74, 0x68],
            Field::Name => seq![0x6eu8, 0x61, 0x6d, 0x65],
            Field::PieceLength => seq![
                0x70u8,
                0x69,
                0x65,
                0x63,
                0x65,
                0x20,
                0x6c,
                0x65,
                0x6e,
                0x67,
                0x74,
                0x68,
            ],
            Field::Pieces => seq![0x70u8, 0x69, 0x65, 0x63, 0x65, 0x73],
            Field::Interval => seq![0x69u8, 0x6e, 0x74, 0x65, 0x72, 0x76, 0x61, 0x6c],
            Field::Peers => seq![0x70u8, 0x65, 0x65, 0x72, 0x73],
        }
    }

    /// The key of the field.
    pub fn key_bytes(self) -> (key: Vec<u8>)
        ensures
            key@ == self.key(),
    {
        let key = match self {
            Field::Announce => vec![0x61u8, 0x6e, 0x6e, 0x6f, 0x75, 0x6e, 0x63, 0x65],
            Field::Info => vec![0x69u8, 0x6e, 0x66, 0x6f],
            Field::Length => vec![0x6cu8, 0x65, 0x6e, 0x67, 0x74, 0x68],
            Field::Name => vec![0x6eu8, 0x61, 0x6d, 0x65],
            Field::PieceLength => vec![
                0x70u8,
                0x69,
                0x65,
                0x63,
                0x65,
                0x20,
                0x6c,
                0x65,
                0x6e,
                0x67,
                0x74,
                0x68,
            ],
            Field::Pieces => vec![0x70u8, 0x69, 0x65, 0x63, 0x65, 0x73],
            Field::Interval => vec![0x69u8, 0x6e, 0x74, 0x65, 0x72, 0x76, 0x61, 0x6c],
            Field::Peers => vec![0x70u8, 0x65, 0x65, 0x72, 0x73],
        };
        assert(key@ =~= self.key());
        key
    }
}

/// Why bytes are no metainfo file or no tracker response.
#[derive(Clone, Copy, Debug, PartialEq, Eq, Structural)]
pub enum ParseError {
    /// The bytes are no bencode.
    Decode(DecodeError),
    /// The term decoded is no dictionary.
    NotADictionary,
    /// The dictionary has no such key.
    Missing(Field),
    /// The field holds a term of another type.
    WrongType(Field),
    /// The field holds a negative integer.
    Negative(Field),
    /// The field holds bytes that are no UTF-8.
    NotUtf8(Field),
    /// The length of the field is no multiple of its record size.
    Size(Field),
}

impl ParseError {
    /// The kind of the failure.
    pub open spec fn kind_of(self) -> ErrorKind {
        match self {
            ParseError::Decode(e) => e.kind,
            ParseError::Size(_) => ErrorKind::SizeMismatch,
            _ => ErrorKind::TypeMismatch,
        }
    }

    /// The kind of the failure.
    pub fn kind(&self) -> (kind: ErrorKind)
        ensures
            kind == self.kind_of(),
    {
        match self {
            ParseError::Decode(e) => e.kind,
            ParseError::Size(_) => ErrorKind::SizeMismatch,
            _ => ErrorKind::TypeMismatch,
        }
    }
}

/// The term under the key of `field`.
pub open spec fn term_field(entries: Seq<(Seq<u8>, Term)>, field: Field) -> Result<
    Term,
    ParseError,
> {
    match lookup(entries, field.key()) {
        Some(term) => Ok(term),
        None => Err(ParseError::Missing(field)),
    }
}

/// The byte string under the key of `field`.
pub open spec fn bytes_field(entries: Seq<(Seq<u8>, Term)>, field: Field) -> Result<
    Seq<u8>,
    ParseError,
> {
    match term_field(entries, field) {
        Ok(Term::ByteString(bytes)) => Ok(bytes),
        Ok(_) => Err(ParseError::WrongType(field)),
        Err(e) => Err(e),
    }
}

/// The byte string under the key of `field`, which has to be UTF-8.
pub open spec fn text_field(entries: Seq<(Seq<u8>, Term)>, field: Field) -> Result<
    Seq<u8>,
    ParseError,
> {
    match bytes_field(entries, field) {
        Ok(bytes) => if valid_utf8(bytes) {
            Ok(bytes)
        } else {
            Err(ParseError::NotUtf8(field))
        },
        Err(e) => Err(e),
    }
}

/// The integer under the key of `field`, which must not be negative.
pub open spec fn count_field(entries: Seq<(Seq<u8>, Term)>, field: Field) -> Result<
    int,
    ParseError,
> {
    match term_field(entries, field) {
        Ok(Term::Integer(i)) => if i < 0 {
            Err(ParseError::Negative(field))
        } else {
            Ok(i)
        },
        Ok(_) => Err(ParseError::WrongType(field)),
        Err(e) => Err(e),
    }
}

/// The entries of the dictionary under the key of `field`.
pub open spec fn dictionary_field(entries: Seq<(Seq<u8>, Term)>, field: Field) -> Result<
    Seq<(Seq<u8>, Term)>,
    ParseError,
> {
    match term_field(entries, field) {
        Ok(Term::Dictionary(inner)) => Ok(inner),
        Ok(_) => Err(ParseError::WrongType(field)),
        Err(e) => Err(e),
    }
}

/// Reads the value under the key of `field`.
pub fn get_field<'a>(dictionary: &'a Dictionary, field: Field) -> (r: Result<
    &'a Value,
    ParseError,
>)
    ensures
        match r {
            Ok(value) => term_field(dictionary@, field) == Ok::<Term, ParseError>(value@),
            Err(e) => term_field(dictionary@, field) == Err::<Term, ParseError>(e),
        },
{
    let key = field.key_bytes();
    match dictionary.get(key.as_slice()) {
        Some(value) => Ok(value),
        None => Err(ParseError::Missing(field)),
    }
}

/// Reads the byte string under the key of `field`.
pub fn get_bytes<'a>(dictionary: &'a Dictionary, field: Field) -> (r: Result<
    &'a Vec<u8>,
    ParseError,
>)
    ensures
        match r {
            Ok(bytes) => bytes_field(dictionary@, field) == Ok::<Seq<u8>, ParseError>(bytes@),
            Err(e) => bytes_field(dictionary@, field) == Err::<Seq<u8>, ParseError>(e),
        },
{
    match get_field(dictionary, field) {
        Ok(Value::ByteString(bytes)) => Ok(bytes),
        Ok(_) => Err(ParseError::WrongType(field)),
        Err(e) => Err(e),
    }
}

/// Reads the text under the key of `field`.
pub fn get_text(dictionary: &Dictionary, field: Field) -> (r: Result<String, ParseError>)
    ensures
        match r {
            Ok(text) => text_field(dictionary@, field) == Ok::<Seq<u8>, ParseError>(
                encode_utf8(text@),
            ),
            Err(e) => text_field(dictionary@, field) == Err::<Seq<u8>, ParseError>(e),
        },
{
    match get_bytes(dictionary, field) {
        Ok(bytes) => match string_from_utf8(bytes.as_slice()) {
            Some(text) => Ok(text),
            None => Err(ParseError::NotUtf8(field)),
        },
        Err(e) => Err(e),
    }
}

/// Reads the count under the key of `field`.
pub fn get_count(dictionary: &Dictionary, field: Field) -> (r: Result<u64, ParseError>)
    ensures
        match r {
            Ok(n) => count_field(dictionary@, field) == Ok::<int, ParseError>(n as int) && n
                <= i64::MAX,
            Err(e) => count_field(dictionary@, field) == Err::<int, ParseError>(e),
        },
{
    match get_field(dictionary, field) {
        Ok(Value::Integer(i)) => if *i < 0 {
            Err(ParseError::Negative(field))
        } else {
            Ok(*i as u64)
        },
        Ok(_) => Err(ParseError::WrongType(field)),
        Err(e) => Err(e),
    }
}

/// Reads the dictionary under the key of `field`.
pub fn get_dictionary<'a>(dictionary: &'a Dictionary, field: Field) -> (r: Result<
    &'a Dictionary,
    ParseError,
>)
    ensures
        match r {
            Ok(inner) => dictionary_field(dictionary@, field) == Ok::<
                Seq<(Seq<u8>, Term)>,
                ParseError,
            >(inner@),
            Err(e) => dictionary_field(dictionary@, field) == Err::<
                Seq<(Seq<u8>, Term)>,
                ParseError,
            >(e),
        },
{
    match get_field(dictionary, field) {
        Ok(Value::Dictionary(inner)) => Ok(inner),
        Ok(_) => Err(ParseError::WrongType(field)),
        Err(e) => Err(e),
    }
}

} // verus!
