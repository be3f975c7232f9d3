use bittorrent::engine::{
    check_first_message, check_unchoke_message, parse_piece_payload, EngineError, PieceBlock,
    PieceDownload, PieceRequest,
};
use bittorrent::wire::MessageKind;
use sha1::Digest;

#[test]
fn request_payload_layout() {
    let q = PieceRequest::new(1, 16384, 5);
    assert_eq!(q.to_bytes(), vec![0, 0, 0, 1, 0, 0, 64, 0, 0, 0, 0, 5]);
}

#[test]
fn parse_piece_payload_splits_fields() {
    let payload = vec![0, 0, 0, 1, 0, 0, 0, 5, 9, 9, 9];
    let pb = parse_piece_payload(&payload).unwrap();
    assert_eq!(pb.index, 1);
    assert_eq!(pb.begin, 5);
    assert_eq!(pb.block, vec![9, 9, 9]);
}

#[test]
fn parse_piece_payload_rejects_short_input() {
    let payload = vec![0, 0, 0, 1, 0, 0, 0];
    assert!(matches!(parse_piece_payload(&payload), Err(EngineError::UnexpectedBlock)));
}

#[test]
fn small_piece_is_one_block() {
    let d = PieceDownload::new(0, 17);
    let q = d.next_request().unwrap();
    assert_eq!(q, PieceRequest::new(0, 0, 17));
}

#[test]
fn exact_blocks_have_full_length() {
    let mut d = PieceDownload::new(2, 32768);
    let q0 = d.next_request().unwrap();
    assert_eq!(q0, PieceRequest::new(2, 0, 16384));
    d.on_block(&PieceBlock { index: 2, begin: 0, block: vec![0u8; 16384] }).unwrap();
    let q1 = d.next_request().unwrap();
    assert_eq!(q1, PieceRequest::new(2, 16384, 16384));
    d.on_block(&PieceBlock { index: 2, begin: 16384, block: vec![0u8; 16384] }).unwrap();
    assert!(d.is_complete());
    assert!(d.next_request().is_none());
}

#[test]
fn final_block_carries_remainder() {
    let d = PieceDownload::new(0, 16389);
    let mut blocks = Vec::new();
    let mut dl = d;
    while let Some(q) = dl.next_request() {
        blocks.push(q);
        dl.on_block(&PieceBlock {
            index: q.index,
            begin: q.begin,
            block: vec![7u8; q.length as usize],
        })
        .unwrap();
    }
    assert_eq!(blocks.len(), 2);
    assert_eq!(blocks[0], PieceRequest::new(0, 0, 16384));
    assert_eq!(blocks[1], PieceRequest::new(0, 16384, 5));
    assert!(dl.is_complete());
}

#[test]
fn mismatched_block_offset_is_rejected() {
    let mut d = PieceDownload::new(0, 10);
    let r = d.on_block(&PieceBlock { index: 0, begin: 5, block: vec![0u8; 10] });
    assert_eq!(r, Err(EngineError::UnexpectedBlock));
}

#[test]
fn mismatched_piece_index_is_rejected() {
    let mut d = PieceDownload::new(0, 10);
    let r = d.on_block(&PieceBlock { index: 3, begin: 0, block: vec![0u8; 10] });
    assert_eq!(r, Err(EngineError::UnexpectedBlock));
}

#[test]
fn block_after_completion_is_rejected() {
    let mut d = PieceDownload::new(0, 3);
    d.on_block(&PieceBlock { index: 0, begin: 0, block: vec![1, 2, 3] }).unwrap();
    let r = d.on_block(&PieceBlock { index: 0, begin: 0, block: vec![1, 2, 3] });
    assert_eq!(r, Err(EngineError::UnexpectedBlock));
}

#[test]
fn verify_accepts_matching_digest() {
    let mut d = PieceDownload::new(0, 3);
    d.on_block(&PieceBlock { index: 0, begin: 0, block: b"abc".to_vec() }).unwrap();
    let expected = sha1::Sha1::digest(b"abc").as_slice().to_vec();
    assert!(d.verify(&expected).is_ok());
    assert_eq!(d.into_bytes(), b"abc".to_vec());
}

#[test]
fn verify_rejects_wrong_digest() {
    let mut d = PieceDownload::new(0, 3);
    d.on_block(&PieceBlock { index: 0, begin: 0, block: b"abc".to_vec() }).unwrap();
    let wrong = vec![0u8; 20];
    assert_eq!(d.verify(&wrong), Err(EngineError::PieceHashMismatch));
}

#[test]
fn first_message_must_be_bitfield() {
    assert!(check_first_message(MessageKind::Bitfield).is_ok());
    assert_eq!(
        check_first_message(MessageKind::Choke),
        Err(EngineError::UnexpectedFirstMessage)
    );
}

#[test]
fn only_unchoke_accepted_while_choked() {
    assert!(check_unchoke_message(MessageKind::Unchoke).is_ok());
    assert_eq!(
        check_unchoke_message(MessageKind::Have),
        Err(EngineError::UnexpectedMessage)
    );
}
