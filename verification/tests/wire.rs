use bittorrent::wire::{
    encode_frame, FrameDecoder, Handshake, MessageKind, PeerMessage, WireError,
};

#[test]
fn handshake_layout_is_68_bytes() {
    let info_hash = vec![7u8; 20];
    let peer_id = b"00112233445566778899".to_vec();
    let h = Handshake::new(info_hash.clone(), peer_id.clone());
    let bytes = h.to_bytes();
    assert_eq!(bytes.len(), 68);
    assert_eq!(bytes[0], 19);
    assert_eq!(&bytes[1..20], b"BitTorrent protocol");
    assert_eq!(&bytes[20..28], &[0u8; 8]);
    assert_eq!(&bytes[28..48], info_hash.as_slice());
    assert_eq!(&bytes[48..68], peer_id.as_slice());
}

#[test]
fn handshake_parse_round_trip() {
    let h = Handshake::new(vec![9u8; 20], b"99887766554433221100".to_vec());
    let bytes = h.to_bytes();
    let parsed = Handshake::parse(&bytes).unwrap();
    assert_eq!(parsed.info_hash, vec![9u8; 20]);
    assert_eq!(parsed.peer_id, b"99887766554433221100".to_vec());
}

#[test]
fn handshake_parse_rejects_wrong_length_byte() {
    let h = Handshake::new(vec![9u8; 20], vec![1u8; 20]);
    let mut bytes = h.to_bytes();
    bytes[0] = 18;
    assert!(matches!(Handshake::parse(&bytes), Err(WireError::HandshakeRejected)));
}

#[test]
fn handshake_parse_rejects_wrong_protocol() {
    let h = Handshake::new(vec![9u8; 20], vec![1u8; 20]);
    let mut bytes = h.to_bytes();
    bytes[5] = b'X';
    assert!(matches!(Handshake::parse(&bytes), Err(WireError::HandshakeRejected)));
}

#[test]
fn handshake_parse_rejects_short_input() {
    assert!(matches!(Handshake::parse(&[19u8; 10]), Err(WireError::HandshakeRejected)));
}

#[test]
fn encode_interested_frame() {
    let msg = PeerMessage { kind: MessageKind::Interested, payload: Vec::new() };
    assert_eq!(encode_frame(&msg).unwrap(), vec![0, 0, 0, 1, 2]);
}

#[test]
fn encode_frame_with_payload() {
    let msg = PeerMessage { kind: MessageKind::Have, payload: vec![0, 0, 0, 9] };
    assert_eq!(encode_frame(&msg).unwrap(), vec![0, 0, 0, 5, 4, 0, 0, 0, 9]);
}

#[test]
fn encode_frame_rejects_oversized_payload() {
    let msg = PeerMessage { kind: MessageKind::Piece, payload: vec![0u8; 65536] };
    assert!(matches!(encode_frame(&msg), Err(WireError::FrameTooLarge)));
}

#[test]
fn decoder_consumes_lone_keep_alive() {
    let mut dec = FrameDecoder::new();
    dec.feed(&[0, 0, 0, 0]);
    assert!(dec.next_message().unwrap().is_none());
    // The four bytes are gone: a following frame decodes on its own.
    dec.feed(&[0, 0, 0, 1, 1]);
    let msg = dec.next_message().unwrap().unwrap();
    assert_eq!(msg.kind, MessageKind::Unchoke);
    assert!(msg.payload.is_empty());
}

#[test]
fn decoder_reassembles_split_frame() {
    let mut dec = FrameDecoder::new();
    let frame = [0u8, 0, 0, 3, 7, 42, 43];
    dec.feed(&frame[..3]);
    assert!(dec.next_message().unwrap().is_none());
    dec.feed(&frame[3..]);
    let msg = dec.next_message().unwrap().unwrap();
    assert_eq!(msg.kind, MessageKind::Piece);
    assert_eq!(msg.payload, vec![42, 43]);
    assert!(dec.next_message().unwrap().is_none());
}

#[test]
fn decoder_skips_keep_alive_before_frame() {
    let mut dec = FrameDecoder::new();
    dec.feed(&[0, 0, 0, 0, 0, 0, 0, 2, 5, 255]);
    let msg = dec.next_message().unwrap().unwrap();
    assert_eq!(msg.kind, MessageKind::Bitfield);
    assert_eq!(msg.payload, vec![255]);
}

#[test]
fn decoder_rejects_oversized_frame() {
    let mut dec = FrameDecoder::new();
    // Length prefix 65537, just over the bound.
    dec.feed(&[0, 1, 0, 1]);
    assert!(matches!(dec.next_message(), Err(WireError::FrameTooLarge)));
}

#[test]
fn decoder_rejects_unknown_message_id() {
    let mut dec = FrameDecoder::new();
    dec.feed(&[0, 0, 0, 1, 9]);
    assert!(matches!(dec.next_message(), Err(WireError::UnknownMessageId)));
}

#[test]
fn decoder_round_trips_encoded_frame() {
    let msg = PeerMessage { kind: MessageKind::Request, payload: vec![1, 2, 3, 4, 5] };
    let frame = encode_frame(&msg).unwrap();
    let mut dec = FrameDecoder::new();
    dec.feed(&frame);
    let back = dec.next_message().unwrap().unwrap();
    assert_eq!(back.kind, MessageKind::Request);
    assert_eq!(back.payload, vec![1, 2, 3, 4, 5]);
}

#[test]
fn decoder_yields_messages_in_order() {
    let mut dec = FrameDecoder::new();
    dec.feed(&[0, 0, 0, 1, 0]);
    dec.feed(&[0, 0, 0, 2, 4, 1]);
    let first = dec.next_message().unwrap().unwrap();
    assert_eq!(first.kind, MessageKind::Choke);
    let second = dec.next_message().unwrap().unwrap();
    assert_eq!(second.kind, MessageKind::Have);
    assert_eq!(second.payload, vec![1]);
}
