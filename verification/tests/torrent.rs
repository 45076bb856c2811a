use bencode_torrent::decode::{decode, DecodeError, ErrorKind, Expected};
use bencode_torrent::encode::encode;
use bencode_torrent::fields::{get_bytes, get_count, get_dictionary, get_field, get_text, Field, ParseError};
use bencode_torrent::metainfo::{
    info_hash, parse_metainfo, project_info, project_metainfo, Hashes, Info, TorrentMetainfo,
};
use bencode_torrent::text::{decimal_string, percent_encode, to_hex};
use bencode_torrent::tracker::{
    announce_pairs, append_info_hash, build_announce_url, parse_tracker_response,
    project_response, AnnounceError, PeerAddr, Peers, TrackerResponse,
};
use bencode_torrent::trusted::MAX_URL_BYTES;
use bencode_torrent::value::{Dictionary, Value};

const PIECES: [[u8; 20]; 3] = [
    [
        0xe8, 0x76, 0xf6, 0x7a, 0x2a, 0x88, 0x86, 0xe8, 0xf3, 0x6b, 0x13, 0x67, 0x26, 0xc3, 0x0f,
        0xa2, 0x97, 0x03, 0x02, 0x2d,
    ],
    [
        0x6e, 0x22, 0x75, 0xe6, 0x04, 0xa0, 0x76, 0x66, 0x56, 0x73, 0x6e, 0x81, 0xff, 0x10, 0xb5,
        0x52, 0x04, 0xad, 0x8d, 0x35,
    ],
    [
        0xf0, 0x0d, 0x93, 0x7a, 0x02, 0x13, 0xdf, 0x19, 0x82, 0xbc, 0x8d, 0x09, 0x72, 0x27, 0xad,
        0x9e, 0x90, 0x9a, 0xcc, 0x17,
    ],
];

const INFO_HASH: [u8; 20] = [
    0xd6, 0x9f, 0x91, 0xe6, 0xb2, 0xae, 0x4c, 0x54, 0x24, 0x68, 0xd1, 0x07, 0x3a, 0x71, 0xd4, 0xea,
    0x13, 0x87, 0x9a, 0x7f,
];

const ANNOUNCE: &str = "http://bittorrent-test-tracker.codecrafters.io/announce";

fn sample_info_bytes() -> Vec<u8> {
    let mut out = b"d6:lengthi92063e4:name10:sample.txt12:piece lengthi32768e6:pieces60:".to_vec();
    for piece in PIECES {
        out.extend_from_slice(&piece);
    }
    out.push(b'e');
    out
}

fn sample_torrent() -> Vec<u8> {
    let mut out = format!(
        "d8:announce{}:{}10:created by13:mktorrent 1.14:info",
        ANNOUNCE.len(),
        ANNOUNCE
    )
    .into_bytes();
    out.extend_from_slice(&sample_info_bytes());
    out.push(b'e');
    out
}

fn sample_info() -> Info {
    Info::new(
        92063,
        "sample.txt".to_string(),
        32768,
        Hashes(PIECES.to_vec()),
    )
    .unwrap()
}

fn torrent_with_pieces(pieces: &[u8]) -> Vec<u8> {
    let mut out = format!(
        "d8:announce3:a:b4:infod6:lengthi1e4:name1:n12:piece lengthi1e6:pieces{}:",
        pieces.len()
    )
    .into_bytes();
    out.extend_from_slice(pieces);
    out.extend_from_slice(b"ee");
    out
}

fn entries(pairs: Vec<(&str, Value)>) -> Dictionary {
    let mut d = Dictionary::new();
    for (key, value) in pairs {
        d.insert(key.as_bytes().to_vec(), value);
    }
    d
}

#[test]
fn parse_sample_metainfo() {
    let metainfo = parse_metainfo(&sample_torrent()).unwrap();
    assert_eq!(metainfo.announce, ANNOUNCE);
    assert_eq!(metainfo.info.length(), 92063);
    assert_eq!(metainfo.info.name(), "sample.txt");
    assert_eq!(metainfo.info.piece_length(), 32768);
    assert_eq!(metainfo.info.pieces(), &Hashes(PIECES.to_vec()));
    assert_eq!(
        metainfo,
        TorrentMetainfo { announce: ANNOUNCE.to_string(), info: sample_info() }
    );
}

#[test]
fn info_hash_of_sample_is_the_reference_hash() {
    let torrent = sample_torrent();
    let (top, rest) = decode(&torrent).unwrap();
    assert!(rest.is_empty());
    let Value::Dictionary(top) = top else {
        panic!("no dictionary");
    };
    let info = top.get(b"info").unwrap();
    assert_eq!(encode(info), sample_info_bytes());
    assert_eq!(info_hash(info), INFO_HASH);
    assert_eq!(
        to_hex(&info_hash(info)),
        "d69f91e6b2ae4c542468d1073a71d4ea13879a7f"
    );
}

#[test]
fn info_hash_of_typed_info_is_the_reference_hash() {
    let metainfo = parse_metainfo(&sample_torrent()).unwrap();
    assert_eq!(metainfo.info.info_hash(), INFO_HASH);
    assert_eq!(encode(&metainfo.info.to_value()), sample_info_bytes());
}

#[test]
fn info_hash_differs_for_other_content() {
    let other = Info::new(92064, "sample.txt".to_string(), 32768, Hashes(PIECES.to_vec())).unwrap();
    assert_ne!(other.info_hash(), INFO_HASH);
    assert_ne!(info_hash(&Value::Integer(0)), info_hash(&Value::Integer(1)));
}

#[test]
fn sha1_of_known_message() {
    assert_eq!(
        to_hex(&info_hash(&Value::ByteString(vec![]))),
        "b44b82a4bc6c35f6ad5e9fceefef9509c17fba74"
    );
}

#[test]
fn piece_count_of_sample_matches() {
    assert!(sample_info().piece_count_matches());
    let short = Info::new(92063, "x".to_string(), 32768, Hashes(PIECES[..2].to_vec())).unwrap();
    assert!(!short.piece_count_matches());
    let exact = Info::new(65536, "x".to_string(), 32768, Hashes(PIECES[..2].to_vec())).unwrap();
    assert!(exact.piece_count_matches());
    let zero = Info::new(0, "x".to_string(), 0, Hashes(vec![])).unwrap();
    assert!(!zero.piece_count_matches());
    let empty = Info::new(0, "x".to_string(), 16, Hashes(vec![])).unwrap();
    assert!(empty.piece_count_matches());
}

#[test]
fn info_sizes_must_fit_a_bencode_integer() {
    assert!(Info::new(i64::MAX as u64, String::new(), 1, Hashes(vec![])).is_some());
    assert!(Info::new(i64::MAX as u64 + 1, String::new(), 1, Hashes(vec![])).is_none());
    assert!(Info::new(1, String::new(), u64::MAX, Hashes(vec![])).is_none());
}

#[test]
fn pieces_of_45_bytes_fail() {
    assert_eq!(Hashes::from_bytes(&[7u8; 45]), None);
    assert_eq!(
        parse_metainfo(&torrent_with_pieces(&[7u8; 45])),
        Err(ParseError::Size(Field::Pieces))
    );
    assert_eq!(ParseError::Size(Field::Pieces).kind(), ErrorKind::SizeMismatch);
}

#[test]
fn pieces_split_into_hashes() {
    let mut bytes = Vec::new();
    for i in 0..40u8 {
        bytes.push(i);
    }
    let hashes = Hashes::from_bytes(&bytes).unwrap();
    assert_eq!(hashes.0.len(), 2);
    assert_eq!(hashes.0[0][0], 0);
    assert_eq!(hashes.0[0][19], 19);
    assert_eq!(hashes.0[1][0], 20);
    assert_eq!(hashes.0[1][19], 39);
    assert_eq!(hashes.to_bytes(), bytes);
    assert_eq!(Hashes::from_bytes(&[]), Some(Hashes(vec![])));
    assert_eq!(Hashes(vec![]).to_bytes(), Vec::<u8>::new());
    assert!(parse_metainfo(&torrent_with_pieces(&bytes)).is_ok());
    assert!(parse_metainfo(&torrent_with_pieces(&[])).is_ok());
}

#[test]
fn metainfo_that_is_no_bencode() {
    assert_eq!(
        parse_metainfo(b"d8:announce"),
        Err(ParseError::Decode(DecodeError {
            kind: ErrorKind::Truncation,
            expected: Expected::Term,
            offset: 11
        }))
    );
    assert_eq!(
        ParseError::Decode(DecodeError {
            kind: ErrorKind::Malformed,
            expected: Expected::Term,
            offset: 0
        })
        .kind(),
        ErrorKind::Malformed
    );
}

#[test]
fn metainfo_that_is_no_dictionary() {
    assert_eq!(parse_metainfo(b"le"), Err(ParseError::NotADictionary));
    assert_eq!(parse_metainfo(b"i1e"), Err(ParseError::NotADictionary));
    assert_eq!(ParseError::NotADictionary.kind(), ErrorKind::TypeMismatch);
}

#[test]
fn metainfo_with_missing_fields() {
    assert_eq!(parse_metainfo(b"de"), Err(ParseError::Missing(Field::Announce)));
    assert_eq!(
        parse_metainfo(b"d8:announce3:a:be"),
        Err(ParseError::Missing(Field::Info))
    );
    assert_eq!(
        parse_metainfo(b"d8:announce3:a:b4:infodee"),
        Err(ParseError::Missing(Field::Length))
    );
    assert_eq!(
        parse_metainfo(b"d8:announce3:a:b4:infod6:lengthi1eee"),
        Err(ParseError::Missing(Field::Name))
    );
    assert_eq!(
        parse_metainfo(b"d8:announce3:a:b4:infod6:lengthi1e4:name1:nee"),
        Err(ParseError::Missing(Field::PieceLength))
    );
    assert_eq!(
        parse_metainfo(b"d8:announce3:a:b4:infod6:lengthi1e4:name1:n12:piece lengthi1eee"),
        Err(ParseError::Missing(Field::Pieces))
    );
    assert_eq!(ParseError::Missing(Field::Info).kind(), ErrorKind::TypeMismatch);
}

#[test]
fn metainfo_with_mistyped_fields() {
    assert_eq!(
        parse_metainfo(b"d8:announcei1ee"),
        Err(ParseError::WrongType(Field::Announce))
    );
    assert_eq!(
        parse_metainfo(b"d8:announce3:a:b4:info1:xe"),
        Err(ParseError::WrongType(Field::Info))
    );
    assert_eq!(
        parse_metainfo(b"d8:announce3:a:b4:infod6:length1:1ee"),
        Err(ParseError::WrongType(Field::Length))
    );
    assert_eq!(
        parse_metainfo(b"d8:announce3:a:b4:infod6:lengthi-1eee"),
        Err(ParseError::Negative(Field::Length))
    );
    assert_eq!(
        parse_metainfo(b"d8:announce3:a:b4:infod6:lengthi1e4:nameleee"),
        Err(ParseError::WrongType(Field::Name))
    );
    assert_eq!(
        parse_metainfo(b"d8:announce3:a:b4:infod6:lengthi1e4:name1:n12:piece lengthi1e6:piecesi0eee"),
        Err(ParseError::WrongType(Field::Pieces))
    );
    assert_eq!(ParseError::WrongType(Field::Info).kind(), ErrorKind::TypeMismatch);
    assert_eq!(ParseError::Negative(Field::Length).kind(), ErrorKind::TypeMismatch);
}

#[test]
fn metainfo_with_text_that_is_no_utf8() {
    let mut bytes = b"d8:announce2:".to_vec();
    bytes.extend_from_slice(&[0xc3, 0x28]);
    bytes.push(b'e');
    assert_eq!(parse_metainfo(&bytes), Err(ParseError::NotUtf8(Field::Announce)));
    assert_eq!(ParseError::NotUtf8(Field::Name).kind(), ErrorKind::TypeMismatch);
}

#[test]
fn metainfo_with_text_beyond_ascii() {
    let name = "s\u{f3}";
    let bytes = format!(
        "d8:announce3:a:b4:infod6:lengthi1e4:name{}:{}12:piece lengthi1e6:pieces0:ee",
        name.len(),
        name
    )
    .into_bytes();
    let metainfo = parse_metainfo(&bytes).unwrap();
    assert_eq!(metainfo.info.name(), "s\u{f3}");
    assert_eq!(metainfo.announce, "a:b");
}

#[test]
fn project_from_decoded_values() {
    let torrent = sample_torrent();
    let (value, _) = decode(&torrent).unwrap();
    assert_eq!(project_metainfo(&value).unwrap().info, sample_info());
    assert_eq!(
        project_metainfo(&Value::Integer(1)),
        Err(ParseError::NotADictionary)
    );
    let info = entries(vec![
        ("pieces", Value::ByteString(vec![])),
        ("name", Value::ByteString(b"n".to_vec())),
        ("length", Value::Integer(5)),
        ("piece length", Value::Integer(4)),
    ]);
    let info = project_info(&info).unwrap();
    assert_eq!(info.length(), 5);
    assert_eq!(info.piece_length(), 4);
}

#[test]
fn field_keys_and_readers() {
    assert_eq!(Field::Announce.key_bytes(), b"announce".to_vec());
    assert_eq!(Field::Info.key_bytes(), b"info".to_vec());
    assert_eq!(Field::Length.key_bytes(), b"length".to_vec());
    assert_eq!(Field::Name.key_bytes(), b"name".to_vec());
    assert_eq!(Field::PieceLength.key_bytes(), b"piece length".to_vec());
    assert_eq!(Field::Pieces.key_bytes(), b"pieces".to_vec());
    assert_eq!(Field::Interval.key_bytes(), b"interval".to_vec());
    assert_eq!(Field::Peers.key_bytes(), b"peers".to_vec());
    let d = entries(vec![
        ("length", Value::Integer(9)),
        ("name", Value::ByteString(b"n".to_vec())),
        ("info", Value::Dictionary(Dictionary::new())),
    ]);
    assert_eq!(get_field(&d, Field::Length), Ok(&Value::Integer(9)));
    assert_eq!(get_field(&d, Field::Pieces), Err(ParseError::Missing(Field::Pieces)));
    assert_eq!(get_count(&d, Field::Length), Ok(9));
    assert_eq!(get_count(&d, Field::Name), Err(ParseError::WrongType(Field::Name)));
    assert_eq!(get_bytes(&d, Field::Name), Ok(&b"n".to_vec()));
    assert_eq!(get_bytes(&d, Field::Length), Err(ParseError::WrongType(Field::Length)));
    assert_eq!(get_text(&d, Field::Name), Ok("n".to_string()));
    assert_eq!(get_dictionary(&d, Field::Info), Ok(&Dictionary::new()));
    assert_eq!(get_dictionary(&d, Field::Name), Err(ParseError::WrongType(Field::Name)));
}

#[test]
fn compact_peer_is_address_and_port() {
    let peers = Peers::from_bytes(&[127, 0, 0, 1, 0x1a, 0xe1]).unwrap();
    assert_eq!(peers, Peers(vec![PeerAddr { octets: [127, 0, 0, 1], port: 6881 }]));
}

#[test]
fn compact_peers_in_order() {
    let blob = [
        178, 62, 82, 89, 0xc9, 0x0e, 165, 232, 33, 77, 0xc9, 0x0b, 10, 0, 0, 1, 0xff, 0xff, 0, 0,
        0, 0, 0, 0,
    ];
    let peers = Peers::from_bytes(&blob).unwrap();
    assert_eq!(
        peers.0,
        vec![
            PeerAddr { octets: [178, 62, 82, 89], port: 51470 },
            PeerAddr { octets: [165, 232, 33, 77], port: 51467 },
            PeerAddr { octets: [10, 0, 0, 1], port: 65535 },
            PeerAddr { octets: [0, 0, 0, 0], port: 0 },
        ]
    );
    assert_eq!(Peers::from_bytes(&[]), Some(Peers(vec![])));
}

#[test]
fn compact_peers_with_a_remainder_fail() {
    assert_eq!(Peers::from_bytes(&[127, 0, 0, 1, 0x1a]), None);
    assert_eq!(Peers::from_bytes(&[0u8; 7]), None);
    assert_eq!(
        parse_tracker_response(b"d8:intervali60e5:peers7:1234567e"),
        Err(ParseError::Size(Field::Peers))
    );
}

#[test]
fn tracker_response_is_interval_and_peers() {
    let mut bytes = b"d8:intervali1800e5:peers12:".to_vec();
    bytes.extend_from_slice(&[127, 0, 0, 1, 0x1a, 0xe1, 192, 168, 1, 2, 0, 80]);
    bytes.push(b'e');
    assert_eq!(
        parse_tracker_response(&bytes),
        Ok(TrackerResponse {
            interval: 1800,
            peers: Peers(vec![
                PeerAddr { octets: [127, 0, 0, 1], port: 6881 },
                PeerAddr { octets: [192, 168, 1, 2], port: 80 },
            ]),
        })
    );
    let (value, _) = decode(&bytes).unwrap();
    assert_eq!(project_response(&value).unwrap().interval, 1800);
}

#[test]
fn tracker_response_failures() {
    assert_eq!(
        parse_tracker_response(b""),
        Err(ParseError::Decode(DecodeError {
            kind: ErrorKind::Truncation,
            expected: Expected::Term,
            offset: 0
        }))
    );
    assert_eq!(parse_tracker_response(b"le"), Err(ParseError::NotADictionary));
    assert_eq!(
        parse_tracker_response(b"d5:peers0:e"),
        Err(ParseError::Missing(Field::Interval))
    );
    assert_eq!(
        parse_tracker_response(b"d8:intervali60ee"),
        Err(ParseError::Missing(Field::Peers))
    );
    assert_eq!(
        parse_tracker_response(b"d8:interval2:605:peers0:e"),
        Err(ParseError::WrongType(Field::Interval))
    );
    assert_eq!(
        parse_tracker_response(b"d8:intervali-1e5:peers0:e"),
        Err(ParseError::Negative(Field::Interval))
    );
    assert_eq!(
        parse_tracker_response(b"d8:intervali60e5:peerslee"),
        Err(ParseError::WrongType(Field::Peers))
    );
}

#[test]
fn hexadecimal_text() {
    assert_eq!(to_hex(&[1, 2, 3, 15, 16]), "0102030f10");
    assert_eq!(to_hex(b"Hello world!"), "48656c6c6f20776f726c6421");
    assert_eq!(to_hex(&[]), "");
    assert_eq!(to_hex(&[0xff, 0x00, 0xa5]), "ff00a5");
}

#[test]
fn percent_encoding_escapes_every_byte() {
    assert_eq!(percent_encode(&[]), "");
    assert_eq!(percent_encode(b"aZ9"), "%61%5a%39");
    assert_eq!(percent_encode(&[0x00, 0xff, 0x20, 0x7e]), "%00%ff%20%7e");
    assert_eq!(
        percent_encode(&INFO_HASH),
        "%d6%9f%91%e6%b2%ae%4c%54%24%68%d1%07%3a%71%d4%ea%13%87%9a%7f"
    );
}

#[test]
fn decimal_numerals() {
    assert_eq!(decimal_string(0), "0");
    assert_eq!(decimal_string(7), "7");
    assert_eq!(decimal_string(10), "10");
    assert_eq!(decimal_string(92063), "92063");
    assert_eq!(decimal_string(u64::MAX), "18446744073709551615");
}

#[test]
fn announce_query_pairs() {
    let pairs = announce_pairs("00112233445566778899", 6881, 1, 2, 3, true);
    let want: Vec<(String, String)> = [
        ("peer_id", "00112233445566778899"),
        ("port", "6881"),
        ("uploaded", "1"),
        ("downloaded", "2"),
        ("left", "3"),
        ("compact", "1"),
    ]
    .iter()
    .map(|(k, v)| (k.to_string(), v.to_string()))
    .collect();
    assert_eq!(pairs, want);
    assert_eq!(announce_pairs("x", 0, 0, 0, 0, false)[5].1, "0");
}

#[test]
fn info_hash_is_appended_escaped() {
    assert_eq!(
        append_info_hash("http://t/a?x=1".to_string(), &INFO_HASH),
        "http://t/a?x=1&info_hash=%d6%9f%91%e6%b2%ae%4c%54%24%68%d1%07%3a%71%d4%ea%13%87%9a%7f"
    );
}

#[test]
fn announce_url_of_sample() {
    let metainfo = parse_metainfo(&sample_torrent()).unwrap();
    let url = build_announce_url(
        &metainfo,
        "00112233445566778899",
        6881,
        0,
        0,
        metainfo.info.length(),
        true,
    );
    assert_eq!(
        url,
        Ok("http://bittorrent-test-tracker.codecrafters.io/announce?peer_id=00112233445566778899&port=6881&uploaded=0&downloaded=0&left=92063&compact=1&info_hash=%d6%9f%91%e6%b2%ae%4c%54%24%68%d1%07%3a%71%d4%ea%13%87%9a%7f".to_string())
    );
}

#[test]
fn announce_url_keeps_an_existing_query_and_escapes_the_peer_id() {
    let metainfo = TorrentMetainfo {
        announce: "https://example.net?dont=clobberme".to_string(),
        info: sample_info(),
    };
    let url = build_announce_url(&metainfo, "-AB1234-&=+ *\u{e9}abcde", 51413, 10, 20, 30, false);
    assert_eq!(
        url,
        Ok("https://example.net/?dont=clobberme&peer_id=-AB1234-%26%3D%2B+*%C3%A9abcde&port=51413&uploaded=10&downloaded=20&left=30&compact=0&info_hash=%d6%9f%91%e6%b2%ae%4c%54%24%68%d1%07%3a%71%d4%ea%13%87%9a%7f".to_string())
    );
}

#[test]
fn announce_url_needs_a_peer_id_of_20_bytes() {
    let metainfo = parse_metainfo(&sample_torrent()).unwrap();
    assert_eq!(
        build_announce_url(&metainfo, "short", 6881, 0, 0, 0, true),
        Err(AnnounceError::PeerIdLength)
    );
    assert_eq!(
        build_announce_url(&metainfo, "001122334455667788990", 6881, 0, 0, 0, true),
        Err(AnnounceError::PeerIdLength)
    );
    assert_eq!(
        build_announce_url(&metainfo, &"\u{e9}".repeat(20), 6881, 0, 0, 0, true),
        Err(AnnounceError::PeerIdLength)
    );
}

#[test]
fn announce_url_needs_an_absolute_url() {
    let metainfo = TorrentMetainfo { announce: "/announce".to_string(), info: sample_info() };
    assert_eq!(
        build_announce_url(&metainfo, "00112233445566778899", 6881, 0, 0, 0, true),
        Err(AnnounceError::AnnounceUrl)
    );
}

#[test]
fn announce_url_must_not_be_longer_than_the_bound() {
    let at_bound = format!("http://t/{}", "a".repeat(MAX_URL_BYTES - 9));
    assert_eq!(at_bound.len(), MAX_URL_BYTES);
    let metainfo = TorrentMetainfo { announce: at_bound.clone(), info: sample_info() };
    let url = build_announce_url(&metainfo, "00112233445566778899", 6881, 0, 0, 7, true).unwrap();
    assert!(url.starts_with("http://t/aaaa"));
    assert!(url.ends_with(
        "a?peer_id=00112233445566778899&port=6881&uploaded=0&downloaded=0&left=7&compact=1&info_hash=%d6%9f%91%e6%b2%ae%4c%54%24%68%d1%07%3a%71%d4%ea%13%87%9a%7f"
    ));
    let metainfo = TorrentMetainfo { announce: at_bound + "a", info: sample_info() };
    assert_eq!(
        build_announce_url(&metainfo, "00112233445566778899", 6881, 0, 0, 7, true),
        Err(AnnounceError::AnnounceLength)
    );
    assert_eq!(
        build_announce_url(&metainfo, "short", 6881, 0, 0, 7, true),
        Err(AnnounceError::PeerIdLength)
    );
}
