use bittorrent_core::TorrentError;
use bittorrent_core::peer::Handshake;
use bittorrent_core::tracker::{PeerAddr, TrackerRequest, decode_response};

#[test]
fn build_request_produces_exact_query() {
    let req = TrackerRequest {
        info_hash: "%01%ab".to_string(),
        peer_id: "00112233445566778899".to_string(),
        port: 6881,
        uploaded: 0,
        downloaded: 0,
        left: 1024,
        compact: 1,
    };
    assert_eq!(
        req.build_request(),
        "peer_id=00112233445566778899&port=6881&uploaded=0&downloaded=0&left=1024&compact=1&info_hash=%01%ab"
    );
}

#[test]
fn build_request_form_encodes_peer_id() {
    let req = TrackerRequest {
        info_hash: String::new(),
        peer_id: "a b/c~".to_string(),
        port: 1,
        uploaded: 2,
        downloaded: 3,
        left: 4,
        compact: 0,
    };
    assert_eq!(
        req.build_request(),
        "peer_id=a+b%2Fc%7E&port=1&uploaded=2&downloaded=3&left=4&compact=0&info_hash="
    );
}

fn response_with_peers(peers: &[u8]) -> Vec<u8> {
    let mut doc = Vec::new();
    doc.extend_from_slice(b"d8:intervali1800e5:peers");
    doc.extend_from_slice(peers.len().to_string().as_bytes());
    doc.push(b':');
    doc.extend_from_slice(peers);
    doc.push(b'e');
    doc
}

#[test]
fn twelve_byte_peers_string_yields_two_addresses() {
    let peers = [10u8, 0, 0, 1, 0x1a, 0xe1, 192, 168, 1, 2, 0, 80];
    let resp = decode_response(&response_with_peers(&peers)).unwrap();
    assert_eq!(resp.interval, 1800);
    assert_eq!(resp.peers.0.len(), 2);
    assert_eq!(
        resp.peers.0[0],
        PeerAddr { ip: [10, 0, 0, 1], port: 6881 }
    );
    assert_eq!(
        resp.peers.0[1],
        PeerAddr { ip: [192, 168, 1, 2], port: 80 }
    );
}

#[test]
fn thirteen_byte_peers_string_is_malformed() {
    let peers = [0u8; 13];
    assert_eq!(
        decode_response(&response_with_peers(&peers)),
        Err(TorrentError::MalformedEncoding)
    );
}

#[test]
fn empty_peers_string_yields_no_addresses() {
    let resp = decode_response(&response_with_peers(&[])).unwrap();
    assert_eq!(resp.peers.0.len(), 0);
}

#[test]
fn response_without_interval_is_schema_error() {
    assert_eq!(
        decode_response(b"d5:peers0:e"),
        Err(TorrentError::SchemaError)
    );
}

#[test]
fn response_decode_error_passes_through() {
    assert_eq!(
        decode_response(b"d8:intervali1800e"),
        Err(TorrentError::MalformedEncoding)
    );
}

#[test]
fn handshake_new_fills_fixed_fields() {
    let h = Handshake::new([1u8; 20], [2u8; 20]);
    assert_eq!(h.protocol_length, 19);
    assert_eq!(&h.protocol, b"BitTorrent protocol");
    assert_eq!(h.reserved, [0u8; 8]);
    assert_eq!(h.info_hash, [1u8; 20]);
    assert_eq!(h.peer_id, [2u8; 20]);
}

#[test]
fn handshake_packs_to_68_bytes_without_padding() {
    let h = Handshake::new([1u8; 20], [2u8; 20]);
    let bytes = h.to_bytes();
    assert_eq!(bytes.len(), 68);
    assert_eq!(bytes[0], 19);
    assert_eq!(&bytes[1..20], b"BitTorrent protocol");
    assert_eq!(&bytes[20..28], &[0u8; 8]);
    assert_eq!(&bytes[28..48], &[1u8; 20]);
    assert_eq!(&bytes[48..68], &[2u8; 20]);
}

#[test]
fn handshake_round_trips_through_parse() {
    let sent = Handshake::new([3u8; 20], [4u8; 20]);
    let parsed = Handshake::parse(&sent.to_bytes()).unwrap();
    assert_eq!(parsed.protocol_length, 19);
    assert_eq!(parsed.info_hash, [3u8; 20]);
    assert_eq!(parsed.peer_id, [4u8; 20]);
}

#[test]
fn handshake_with_wrong_tag_length_is_rejected() {
    let mut bytes = Handshake::new([3u8; 20], [4u8; 20]).to_bytes();
    bytes[0] = 18;
    assert!(matches!(
        Handshake::parse(&bytes),
        Err(TorrentError::ProtocolMismatch)
    ));
}

#[test]
fn handshake_with_mismatched_tag_is_rejected() {
    let mut bytes = Handshake::new([3u8; 20], [4u8; 20]).to_bytes();
    bytes[5] = b'x';
    assert!(matches!(
        Handshake::parse(&bytes),
        Err(TorrentError::ProtocolMismatch)
    ));
}

#[test]
fn short_handshake_buffer_is_rejected() {
    let bytes = vec![19u8; 67];
    assert!(matches!(
        Handshake::parse(&bytes),
        Err(TorrentError::ProtocolMismatch)
    ));
}
