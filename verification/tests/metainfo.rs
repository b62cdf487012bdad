use bittorrent_core::TorrentError;
use bittorrent_core::hashes::PieceHashList;
use bittorrent_core::torrent::{Keys, parse_torrent};

fn single_file_doc() -> Vec<u8> {
    let mut doc = Vec::new();
    doc.extend_from_slice(b"d8:announce24:http://tracker.test/path4:info");
    doc.extend_from_slice(b"d6:lengthi1024e4:name8:file.txt12:piece lengthi16384e6:pieces20:");
    for b in 1u8..=20u8 {
        doc.push(b);
    }
    doc.extend_from_slice(b"ee");
    doc
}

fn multi_file_doc() -> Vec<u8> {
    let mut doc = Vec::new();
    doc.extend_from_slice(b"d8:announce18:http://t.example/a4:info");
    doc.extend_from_slice(b"d5:filesld6:lengthi5e4:pathl3:dir8:file.binee");
    doc.extend_from_slice(b"d6:lengthi7e4:pathl5:otheree");
    doc.extend_from_slice(b"e4:name3:top12:piece lengthi32768e6:pieces0:e");
    doc.extend_from_slice(b"e");
    doc
}

#[test]
fn piece_hash_list_accepts_multiples_of_twenty() {
    let h = PieceHashList::new(vec![7u8; 40]).unwrap();
    assert_eq!(h.count(), 2);
    assert_eq!(h.hash_at(0), vec![7u8; 20]);
    assert_eq!(h.as_flat_bytes().len(), 40);
}

#[test]
fn piece_hash_list_rejects_other_lengths() {
    assert!(matches!(
        PieceHashList::new(vec![7u8; 13]),
        Err(TorrentError::SchemaError)
    ));
    assert!(matches!(
        PieceHashList::new(vec![7u8; 21]),
        Err(TorrentError::SchemaError)
    ));
}

#[test]
fn piece_hash_list_accepts_empty() {
    let h = PieceHashList::new(Vec::new()).unwrap();
    assert_eq!(h.count(), 0);
}

#[test]
fn parses_single_file_document() {
    let t = parse_torrent(&single_file_doc()).unwrap();
    assert_eq!(t.announce, "http://tracker.test/path");
    assert_eq!(t.info.name, "file.txt");
    assert_eq!(t.info.piece_length, 16384);
    assert_eq!(t.info.pieces.count(), 1);
    assert_eq!(t.info.pieces.hash_at(0), (1u8..=20u8).collect::<Vec<u8>>());
    match &t.info.keys {
        Keys::SingleFile { length } => assert_eq!(*length, 1024),
        Keys::MultiFile { .. } => panic!("expected a single-file layout"),
    }
}

#[test]
fn parses_multi_file_document() {
    let t = parse_torrent(&multi_file_doc()).unwrap();
    assert_eq!(t.announce, "http://t.example/a");
    assert_eq!(t.info.name, "top");
    match &t.info.keys {
        Keys::MultiFile { files } => {
            assert_eq!(files.len(), 2);
            assert_eq!(files[0].length, 5);
            assert_eq!(files[0].path, vec!["dir".to_string(), "file.bin".to_string()]);
            assert_eq!(files[1].length, 7);
            assert_eq!(files[1].path, vec!["other".to_string()]);
        }
        Keys::SingleFile { .. } => panic!("expected a multi-file layout"),
    }
}

#[test]
fn layout_with_neither_key_is_schema_error() {
    let doc = b"d8:announce3:url4:infod4:name1:n12:piece lengthi1e6:pieces0:ee";
    assert_eq!(parse_torrent(doc), Err(TorrentError::SchemaError));
}

#[test]
fn layout_with_both_keys_is_schema_error() {
    let doc = b"d8:announce3:url4:infod5:filesle6:lengthi1e4:name1:n12:piece lengthi1e6:pieces0:ee";
    assert_eq!(parse_torrent(doc), Err(TorrentError::SchemaError));
}

#[test]
fn missing_announce_is_schema_error() {
    let doc = b"d4:infod6:lengthi1e4:name1:n12:piece lengthi1e6:pieces0:ee";
    assert_eq!(parse_torrent(doc), Err(TorrentError::SchemaError));
}

#[test]
fn mistyped_piece_length_is_schema_error() {
    let doc = b"d8:announce3:url4:infod6:lengthi1e4:name1:n12:piece length1:x6:pieces0:ee";
    assert_eq!(parse_torrent(doc), Err(TorrentError::SchemaError));
}

#[test]
fn zero_piece_length_is_schema_error() {
    let doc = b"d8:announce3:url4:infod6:lengthi1e4:name1:n12:piece lengthi0e6:pieces0:ee";
    assert_eq!(parse_torrent(doc), Err(TorrentError::SchemaError));
}

#[test]
fn ragged_pieces_length_is_schema_error() {
    let doc = b"d8:announce3:url4:infod6:lengthi1e4:name1:n12:piece lengthi1e6:pieces3:abcee";
    assert_eq!(parse_torrent(doc), Err(TorrentError::SchemaError));
}

#[test]
fn invalid_utf8_name_is_schema_error() {
    let mut doc = Vec::new();
    doc.extend_from_slice(b"d8:announce3:url4:infod6:lengthi1e4:name1:");
    doc.push(0xff);
    doc.extend_from_slice(b"12:piece lengthi1e6:pieces0:ee");
    assert_eq!(parse_torrent(&doc), Err(TorrentError::SchemaError));
}

#[test]
fn trailing_bytes_are_malformed() {
    let mut doc = single_file_doc();
    doc.push(b'x');
    assert_eq!(parse_torrent(&doc), Err(TorrentError::MalformedEncoding));
}

#[test]
fn malformed_document_error_passes_through() {
    assert_eq!(parse_torrent(b"i52"), Err(TorrentError::MalformedEncoding));
    assert_eq!(parse_torrent(b""), Err(TorrentError::UnsupportedType));
}

#[test]
fn top_level_non_dictionary_is_schema_error() {
    assert_eq!(parse_torrent(b"i52e"), Err(TorrentError::SchemaError));
}

#[test]
fn identity_matches_known_digest() {
    let t = parse_torrent(&single_file_doc()).unwrap();
    let id = t.info_hash();
    assert_eq!(
        hex::encode(id),
        "a6be565f7606ee527adf490060a466ee09c0a050"
    );
}

#[test]
fn identity_of_multi_file_document() {
    let t = parse_torrent(&multi_file_doc()).unwrap();
    assert_eq!(
        hex::encode(t.info_hash()),
        "cd6a352bdebed5572a4b870ec965aee2ae5bdea5"
    );
}

#[test]
fn identity_is_idempotent() {
    let t = parse_torrent(&single_file_doc()).unwrap();
    assert_eq!(t.info_hash(), t.info_hash());
}

#[test]
fn encode_hash_percent_encodes_each_byte() {
    let t = parse_torrent(&single_file_doc()).unwrap();
    let mut id = [0u8; 20];
    id[0] = 0x00;
    id[1] = 0xab;
    id[2] = 0x7f;
    let encoded = t.encode_hash(id);
    assert!(encoded.starts_with("%00%ab%7f"));
    assert_eq!(encoded.len(), 60);
    let expected = t
        .info_hash()
        .iter()
        .map(|b| format!("%{:02x}", b))
        .collect::<String>();
    assert_eq!(t.encode_hash(t.info_hash()), expected);
}
