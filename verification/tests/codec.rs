use bittorrent_core::TorrentError;
use bittorrent_core::bencode::{BencodeValue, decode_bencoded_value, encode_bencoded_value};

fn bs(s: &[u8]) -> BencodeValue {
    BencodeValue::ByteString(s.to_vec())
}

#[test]
fn decodes_byte_string_with_empty_remainder() {
    let (v, pos) = decode_bencoded_value(b"4:spam").unwrap();
    assert_eq!(v, bs(b"spam"));
    assert_eq!(pos, 6);
}

#[test]
fn decodes_integer() {
    let (v, pos) = decode_bencoded_value(b"i52e").unwrap();
    assert_eq!(v, BencodeValue::Integer(52));
    assert_eq!(pos, 4);
}

#[test]
fn decodes_list() {
    let (v, pos) = decode_bencoded_value(b"l4:spam4:eggse").unwrap();
    assert_eq!(v, BencodeValue::List(vec![bs(b"spam"), bs(b"eggs")]));
    assert_eq!(pos, 14);
}

#[test]
fn decodes_dictionary_in_source_order() {
    let (v, pos) = decode_bencoded_value(b"d3:cow3:moo4:spam4:eggse").unwrap();
    assert_eq!(
        v,
        BencodeValue::Dictionary(vec![
            (b"cow".to_vec(), bs(b"moo")),
            (b"spam".to_vec(), bs(b"eggs")),
        ])
    );
    assert_eq!(pos, 24);
}

#[test]
fn unterminated_integer_is_malformed() {
    assert_eq!(
        decode_bencoded_value(b"i52"),
        Err(TorrentError::MalformedEncoding)
    );
}

#[test]
fn empty_input_is_unsupported() {
    assert_eq!(decode_bencoded_value(b""), Err(TorrentError::UnsupportedType));
}

#[test]
fn unknown_leading_byte_is_unsupported() {
    assert_eq!(
        decode_bencoded_value(b"x1:a"),
        Err(TorrentError::UnsupportedType)
    );
}

#[test]
fn negative_integer_round_trips() {
    let (v, pos) = decode_bencoded_value(b"i-42e").unwrap();
    assert_eq!(v, BencodeValue::Integer(-42));
    assert_eq!(pos, 5);
    assert_eq!(encode_bencoded_value(&BencodeValue::Integer(-42)), b"i-42e");
}

#[test]
fn zero_integer_is_accepted() {
    let (v, _) = decode_bencoded_value(b"i0e").unwrap();
    assert_eq!(v, BencodeValue::Integer(0));
}

#[test]
fn leading_zero_integer_is_malformed() {
    assert_eq!(
        decode_bencoded_value(b"i052e"),
        Err(TorrentError::MalformedEncoding)
    );
}

#[test]
fn negative_zero_is_malformed() {
    assert_eq!(
        decode_bencoded_value(b"i-0e"),
        Err(TorrentError::MalformedEncoding)
    );
}

#[test]
fn leading_zero_length_is_malformed() {
    assert_eq!(
        decode_bencoded_value(b"01:a"),
        Err(TorrentError::MalformedEncoding)
    );
}

#[test]
fn length_beyond_input_is_malformed() {
    assert_eq!(
        decode_bencoded_value(b"10:abc"),
        Err(TorrentError::MalformedEncoding)
    );
}

#[test]
fn missing_length_separator_is_malformed() {
    assert_eq!(
        decode_bencoded_value(b"4spam"),
        Err(TorrentError::MalformedEncoding)
    );
}

#[test]
fn unterminated_list_is_malformed() {
    assert_eq!(
        decode_bencoded_value(b"l4:spam"),
        Err(TorrentError::MalformedEncoding)
    );
}

#[test]
fn unterminated_dictionary_is_malformed() {
    assert_eq!(
        decode_bencoded_value(b"d3:cow3:moo"),
        Err(TorrentError::MalformedEncoding)
    );
}

#[test]
fn non_string_dictionary_key_is_malformed() {
    assert_eq!(
        decode_bencoded_value(b"di5ei6ee"),
        Err(TorrentError::MalformedEncoding)
    );
}

#[test]
fn integer_overflow_is_malformed() {
    assert_eq!(
        decode_bencoded_value(b"i9223372036854775808e"),
        Err(TorrentError::MalformedEncoding)
    );
    let (v, _) = decode_bencoded_value(b"i9223372036854775807e").unwrap();
    assert_eq!(v, BencodeValue::Integer(i64::MAX));
    let (v, _) = decode_bencoded_value(b"i-9223372036854775808e").unwrap();
    assert_eq!(v, BencodeValue::Integer(i64::MIN));
}

#[test]
fn encodes_dictionary_in_stored_order() {
    let v = BencodeValue::Dictionary(vec![
        (b"cow".to_vec(), bs(b"moo")),
        (b"spam".to_vec(), bs(b"eggs")),
    ]);
    assert_eq!(encode_bencoded_value(&v), b"d3:cow3:moo4:spam4:eggse");
}

#[test]
fn encodes_empty_byte_string() {
    assert_eq!(encode_bencoded_value(&bs(b"")), b"0:");
}

fn sample_tree() -> BencodeValue {
    BencodeValue::Dictionary(vec![
        (
            b"list".to_vec(),
            BencodeValue::List(vec![
                BencodeValue::Integer(0),
                BencodeValue::Integer(-7),
                BencodeValue::Integer(i64::MAX),
                BencodeValue::Integer(i64::MIN),
                bs(b""),
                bs(&[0u8, 255u8, 128u8]),
            ]),
        ),
        (b"nested".to_vec(), BencodeValue::Dictionary(vec![])),
        (b"str".to_vec(), bs(b"ten letters")),
    ])
}

#[test]
fn round_trip_of_nested_tree() {
    let v = sample_tree();
    let enc = encode_bencoded_value(&v);
    let (decoded, pos) = decode_bencoded_value(&enc).unwrap();
    assert_eq!(decoded, v);
    assert_eq!(pos, enc.len());
}

#[test]
fn decoder_leaves_trailing_bytes_unconsumed() {
    let (v, pos) = decode_bencoded_value(b"4:spamrest").unwrap();
    assert_eq!(v, bs(b"spam"));
    assert_eq!(pos, 6);
}

#[test]
fn decode_then_encode_reproduces_input_bytes() {
    let inputs: Vec<&[u8]> = vec![
        b"d3:cow3:moo4:spam4:eggse",
        b"l4:spam4:eggse",
        b"i-42e",
        b"i0e",
        b"0:",
        b"ld3:keyi1eel4:spamei9223372036854775807ee",
    ];
    for input in inputs {
        let (v, pos) = decode_bencoded_value(input).unwrap();
        assert_eq!(pos, input.len());
        assert_eq!(encode_bencoded_value(&v), input);
    }
}
