use bittorrent::tracker::{
    build_announce_url, decode_compact_peers, parse_tracker_response, PeerAddress, TrackerError,
};
use bittorrent::digest::hash_content;

#[test]
fn compact_peers_two_entries() {
    let blob = vec![192, 168, 0, 1, 0x1A, 0xE1, 10, 0, 0, 7, 0, 80];
    let peers = decode_compact_peers(&blob).unwrap();
    assert_eq!(peers.len(), 2);
    assert_eq!(
        peers[0],
        PeerAddress { o0: 192, o1: 168, o2: 0, o3: 1, port: 6881 }
    );
    assert_eq!(peers[1], PeerAddress { o0: 10, o1: 0, o2: 0, o3: 7, port: 80 });
}

#[test]
fn compact_peers_rejects_ragged_blob() {
    let blob = vec![0u8; 11];
    assert_eq!(decode_compact_peers(&blob), Err(TrackerError::MalformedPeerList));
}

#[test]
fn compact_peers_empty_blob() {
    let blob: Vec<u8> = Vec::new();
    assert_eq!(decode_compact_peers(&blob).unwrap(), Vec::new());
}

#[test]
fn tracker_response_yields_peers() {
    let mut data = Vec::new();
    data.extend_from_slice(b"d5:peers12:");
    data.extend_from_slice(&[127, 0, 0, 1, 0x1A, 0xE1, 8, 8, 8, 8, 0, 53]);
    data.extend_from_slice(b"e");
    let peers = parse_tracker_response(&data).unwrap();
    assert_eq!(peers.len(), 2);
    assert_eq!(peers[0], PeerAddress { o0: 127, o1: 0, o2: 0, o3: 1, port: 6881 });
    assert_eq!(peers[1], PeerAddress { o0: 8, o1: 8, o2: 8, o3: 8, port: 53 });
}

#[test]
fn tracker_response_rejects_non_dictionary() {
    assert_eq!(parse_tracker_response(b"le"), Err(TrackerError::MalformedResponse));
}

#[test]
fn tracker_response_rejects_integer_peers() {
    assert_eq!(parse_tracker_response(b"d5:peersi5ee"), Err(TrackerError::MalformedResponse));
}

#[test]
fn tracker_response_rejects_ragged_peers() {
    let mut data = Vec::new();
    data.extend_from_slice(b"d5:peers11:");
    data.extend_from_slice(&[0u8; 11]);
    data.extend_from_slice(b"e");
    assert_eq!(parse_tracker_response(&data), Err(TrackerError::MalformedPeerList));
}

#[test]
fn announce_url_exact_bytes() {
    let announce = b"http://tracker.example/announce".to_vec();
    let mut info_hash = vec![0x01, 0xAB, 0xFF];
    info_hash.extend_from_slice(&[0u8; 17]);
    let peer_id = b"00112233445566778899".to_vec();
    let url = build_announce_url(&announce, &info_hash, &peer_id, 6881, 17);
    let mut expected = Vec::new();
    expected.extend_from_slice(b"http://tracker.example/announce");
    expected.extend_from_slice(b"?peer_id=00112233445566778899");
    expected.extend_from_slice(b"&port=6881");
    expected.extend_from_slice(b"&uploaded=0&downloaded=0&left=17");
    expected.extend_from_slice(b"&compact=1");
    expected.extend_from_slice(b"&info_hash=%01%ab%ff");
    expected.extend_from_slice(&b"%00".repeat(17));
    assert_eq!(url, expected);
}

#[test]
fn hash_content_known_vector() {
    // SHA-1 of "abc", spelled in lowercase hex.
    assert_eq!(
        hash_content(b"abc"),
        b"a9993e364706816aba3e25717850c26c9cd0d89d".to_vec()
    );
}
