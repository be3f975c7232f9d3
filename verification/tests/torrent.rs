use bittorrent::torrent::{TorrentDescriptor, TorrentError};
use sha1::Digest;

fn descriptor_bytes(length: u64, piece_length: u64, pieces: &[u8]) -> Vec<u8> {
    let mut out = Vec::new();
    out.extend_from_slice(b"d8:announce31:http://tracker.example/announce4:info");
    out.extend_from_slice(&info_bytes(length, piece_length, pieces));
    out.extend_from_slice(b"e");
    out
}

fn info_bytes(length: u64, piece_length: u64, pieces: &[u8]) -> Vec<u8> {
    let mut out = Vec::new();
    out.extend_from_slice(format!("d6:lengthi{}e4:name4:test12:piece lengthi{}e", length, piece_length).as_bytes());
    out.extend_from_slice(format!("6:pieces{}:", pieces.len()).as_bytes());
    out.extend_from_slice(pieces);
    out.extend_from_slice(b"e");
    out
}

#[test]
fn load_reads_fields() {
    let pieces: Vec<u8> = (0u8..40).collect();
    let data = descriptor_bytes(17, 10, &pieces);
    let d = TorrentDescriptor::load(&data).unwrap();
    assert_eq!(d.announce, b"http://tracker.example/announce".to_vec());
    assert_eq!(d.info.name, b"test".to_vec());
    assert_eq!(d.info.piece_length, 10);
    assert_eq!(d.info.length, 17);
    assert_eq!(d.info.pieces, pieces);
    assert_eq!(d.piece_count(), 2);
}

#[test]
fn load_rejects_bad_bencode() {
    assert!(matches!(TorrentDescriptor::load(b"not bencode"), Err(TorrentError::MalformedDescriptor)));
}

#[test]
fn load_rejects_missing_announce() {
    let pieces: Vec<u8> = (0u8..20).collect();
    let mut data = Vec::new();
    data.extend_from_slice(b"d4:info");
    data.extend_from_slice(&info_bytes(10, 10, &pieces));
    data.extend_from_slice(b"e");
    assert!(matches!(TorrentDescriptor::load(&data), Err(TorrentError::MalformedDescriptor)));
}

#[test]
fn load_rejects_trailing_bytes() {
    let pieces: Vec<u8> = (0u8..40).collect();
    let mut data = descriptor_bytes(17, 10, &pieces);
    data.push(b'x');
    assert!(matches!(TorrentDescriptor::load(&data), Err(TorrentError::MalformedDescriptor)));
}

#[test]
fn load_rejects_ragged_piece_digests() {
    let pieces: Vec<u8> = (0u8..39).collect();
    let data = descriptor_bytes(17, 10, &pieces);
    assert!(matches!(TorrentDescriptor::load(&data), Err(TorrentError::MalformedDescriptor)));
}

#[test]
fn load_rejects_wrong_piece_count() {
    let pieces: Vec<u8> = (0u8..20).collect();
    let data = descriptor_bytes(17, 10, &pieces);
    assert!(matches!(TorrentDescriptor::load(&data), Err(TorrentError::MalformedDescriptor)));
}

#[test]
fn load_rejects_zero_piece_length() {
    let pieces: Vec<u8> = (0u8..20).collect();
    let data = descriptor_bytes(17, 0, &pieces);
    assert!(matches!(TorrentDescriptor::load(&data), Err(TorrentError::MalformedDescriptor)));
}

#[test]
fn piece_lengths_with_remainder() {
    let pieces: Vec<u8> = (0u8..40).collect();
    let d = TorrentDescriptor::load(&descriptor_bytes(17, 10, &pieces)).unwrap();
    assert_eq!(d.piece_length_of(0), 10);
    assert_eq!(d.piece_length_of(1), 7);
}

#[test]
fn piece_lengths_with_exact_division() {
    let pieces: Vec<u8> = (0u8..40).collect();
    let d = TorrentDescriptor::load(&descriptor_bytes(20, 10, &pieces)).unwrap();
    assert_eq!(d.piece_length_of(0), 10);
    assert_eq!(d.piece_length_of(1), 10);
}

#[test]
fn piece_hash_at_reads_each_digest() {
    let pieces: Vec<u8> = (0u8..40).collect();
    let d = TorrentDescriptor::load(&descriptor_bytes(17, 10, &pieces)).unwrap();
    assert_eq!(d.piece_hash_at(0).unwrap(), pieces[..20].to_vec());
    assert_eq!(d.piece_hash_at(1).unwrap(), pieces[20..].to_vec());
    assert_eq!(d.piece_hash_at(2), Err(TorrentError::PieceIndexOutOfRange));
}

#[test]
fn info_hash_matches_digest_of_canonical_encoding() {
    let pieces: Vec<u8> = (0u8..40).collect();
    let d = TorrentDescriptor::load(&descriptor_bytes(17, 10, &pieces)).unwrap();
    let expected = sha1::Sha1::digest(&info_bytes(17, 10, &pieces));
    assert_eq!(d.info_hash(), expected.as_slice().to_vec());
}

#[test]
fn info_hash_is_stable_across_calls() {
    let pieces: Vec<u8> = (0u8..40).collect();
    let d = TorrentDescriptor::load(&descriptor_bytes(17, 10, &pieces)).unwrap();
    let first = d.info_hash();
    let second = d.info_hash();
    assert_eq!(first, second);
    assert_eq!(first.len(), 20);
}

#[test]
fn info_hash_canonicalizes_key_order() {
    // The same info dictionary with its keys out of order in the file:
    // the hash is taken over the canonical re-encoding, so it matches the
    // hash of the ordered form.
    let pieces: Vec<u8> = (0u8..20).collect();
    let mut data = Vec::new();
    data.extend_from_slice(b"d8:announce31:http://tracker.example/announce4:infod");
    data.extend_from_slice(b"4:name4:test6:pieces20:");
    data.extend_from_slice(&pieces);
    data.extend_from_slice(b"12:piece lengthi10e6:lengthi10ee");
    data.extend_from_slice(b"e");
    let d = TorrentDescriptor::load(&data).unwrap();
    let expected = sha1::Sha1::digest(&info_bytes(10, 10, &pieces));
    assert_eq!(d.info_hash(), expected.as_slice().to_vec());
}
