use crate::bencode::bytes_eq;
use crate::digest::{sha1_digest, sha1_of};
use crate::wire::{be32_at, be32_bytes, read_be32, MessageKind};
use vstd::prelude::*;

verus! {

/// The unit of request/response within a piece.
pub const BLOCK_SIZE: u32 = 16384;

/// The errors of the transfer engine.
#[derive(Debug, Clone, Copy, PartialEq, Eq, Structural)]
pub enum EngineError {
    /// The first frame after the handshake was not a Bitfield.
    UnexpectedFirstMessage,
    /// A message other than Unchoke while waiting to be unchoked.
    UnexpectedMessage,
    /// A Piece payload that does not carry the block just requested.
    UnexpectedBlock,
    /// A reassembled piece whose SHA-1 digest is not the expected one.
    PieceHashMismatch,
}

/// One outstanding block request: piece index, byte offset within the
/// piece, and block length, as they ride in a Request payload.
#[derive(Debug, Clone, Copy, PartialEq, Eq, Structural)]
pub struct PieceRequest {
    pub index: u32,
    pub begin: u32,
    pub length: u32,
}

/// The 12 payload bytes of a Request message: three big-endian 32-bit
/// values, piece index, byte offset, block length.
pub open spec fn request_payload(index: int, begin: int, length: int) -> Seq<u8> {
    be32_bytes(index) + be32_bytes(begin) + be32_bytes(length)
}

impl PieceRequest {
    /// A request for `length` bytes at `begin` within piece `index`.
    pub fn new(index: u32, begin: u32, length: u32) -> (r: PieceRequest)
        ensures
            r.index == index,
            r.begin == begin,
            r.length == length,
    {
        PieceRequest { index, begin, length }
    }

    /// The request's wire payload.
    pub fn to_bytes(&self) -> (r: Vec<u8>)
        ensures
            r@ == request_payload(self.index as int, self.begin as int, self.length as int),
    {
        let mut out: Vec<u8> = Vec::new();
        push_be32(&mut out, self.index);
        push_be32(&mut out, self.begin);
        push_be32(&mut out, self.length);
        proof {
            assert(out@ =~= request_payload(
                self.index as int,
                self.begin as int,
                self.length as int,
            ));
        }
        out
    }
}

/// Appends the four big-endian bytes of `n`.
fn push_be32(out: &mut Vec<u8>, n: u32)
    ensures
        final(out)@ == old(out)@ + be32_bytes(n as int),
{
    out.push(((n / 16777216) % 256) as u8);
    out.push(((n / 65536) % 256) as u8);
    out.push(((n / 256) % 256) as u8);
    out.push((n % 256) as u8);
    proof {
        assert(out@ =~= old(out)@ + be32_bytes(n as int));
    }
}

/// One block handed back in a Piece message: the piece index and byte
/// offset it claims, and the block bytes after them.
pub struct PieceBlock {
    pub index: u32,
    pub begin: u32,
    pub block: Vec<u8>,
}

/// Splits a Piece payload into the `(index, begin)` it claims and the block
/// bytes; `UnexpectedBlock` exactly when it is too short to carry them.
pub fn parse_piece_payload(payload: &Vec<u8>) -> (r: Result<PieceBlock, EngineError>)
    ensures
        match r {
            Ok(pb) => {
                &&& payload@.len() >= 8
                &&& pb.index as int == be32_at(payload@, 0)
                &&& pb.begin as int == be32_at(payload@, 4)
                &&& pb.block@ == payload@.skip(8)
            },
            Err(e) => payload@.len() < 8 && e == EngineError::UnexpectedBlock,
        },
{
    if payload.len() < 8 {
        return Err(EngineError::UnexpectedBlock);
    }
    let index = read_be32(payload, 0);
    let begin = read_be32(payload, 4);
    let block = vstd::slice::slice_to_vec(
        vstd::slice::slice_subrange(payload.as_slice(), 8, payload.len()),
    );
    proof {
        assert(block@ =~= payload@.skip(8));
    }
    Ok(PieceBlock { index, begin, block })
}

/// The number of blocks a piece of `piece_length` bytes splits into.
pub open spec fn block_count(piece_length: int) -> int {
    (piece_length + BLOCK_SIZE - 1) / (BLOCK_SIZE as int)
}

/// The byte length of block `block` of a piece: a full block for every
/// block but the last, whose length is the remainder, or a full block when
/// the piece divides evenly.
pub open spec fn block_size_spec(piece_length: int, block: int) -> int {
    if block == block_count(piece_length) - 1 {
        if piece_length % (BLOCK_SIZE as int) == 0 {
            BLOCK_SIZE as int
        } else {
            piece_length % (BLOCK_SIZE as int)
        }
    } else {
        BLOCK_SIZE as int
    }
}

/// The byte offset where block `b` starts, and the piece length once every
/// block is in.
pub open spec fn block_offset(piece_length: int, b: int) -> int {
    if b == block_count(piece_length) {
        piece_length
    } else {
        b * (BLOCK_SIZE as int)
    }
}

/// A finished block advances the offset by exactly its size.
pub proof fn lemma_block_partition(piece_length: int, b: int)
    requires
        0 <= piece_length,
        0 <= b < block_count(piece_length),
    ensures
        block_offset(piece_length, b) + block_size_spec(piece_length, b) == block_offset(
            piece_length,
            b + 1,
        ),
        block_offset(piece_length, b) + block_size_spec(piece_length, b) <= piece_length,
{
    let bs = BLOCK_SIZE as int;
    let count = block_count(piece_length);
    assert(piece_length == (piece_length / bs) * bs + piece_length % bs);
    if piece_length % bs == 0 {
        assert(count == piece_length / bs);
    } else {
        assert(count == piece_length / bs + 1);
    }
}

/// Block `b` starts strictly inside the piece.
pub proof fn lemma_block_offset_in_piece(piece_length: int, b: int)
    requires
        0 <= piece_length,
        0 <= b < block_count(piece_length),
    ensures
        b * (BLOCK_SIZE as int) < piece_length,
        block_offset(piece_length, b) == b * (BLOCK_SIZE as int),
{
    let bs = BLOCK_SIZE as int;
    assert(piece_length == (piece_length / bs) * bs + piece_length % bs);
    if piece_length % bs == 0 {
        assert(block_count(piece_length) == piece_length / bs);
        assert(b <= piece_length / bs - 1);
        assert(b * bs <= (piece_length / bs - 1) * bs);
    } else {
        assert(block_count(piece_length) == piece_length / bs + 1);
        assert(b <= piece_length / bs);
        assert(b * bs <= (piece_length / bs) * bs);
    }
}

/// The number of blocks of a piece, executable.
pub fn block_count_of(piece_length: u32) -> (r: u32)
    ensures
        r as int == block_count(piece_length as int),
{
    let wide = ((piece_length as u64) + ((BLOCK_SIZE as u64) - 1)) / (BLOCK_SIZE as u64);
    proof {
        assert(wide <= 0xffff_ffff);
    }
    wide as u32
}

/// The in-flight download of one piece: blocks are requested and appended
/// strictly in ascending order, one at a time, into a buffer that ends up
/// holding exactly the piece's bytes.
pub struct PieceDownload {
    piece_index: u32,
    piece_length: u32,
    next_block: u32,
    buffer: Vec<u8>,
}

/// The model of an in-flight piece download.
pub ghost struct DownloadModel {
    pub piece_index: int,
    pub piece_length: int,
    pub next_block: int,
    pub data: Seq<u8>,
}

impl View for PieceDownload {
    type V = DownloadModel;

    closed spec fn view(&self) -> DownloadModel {
        DownloadModel {
            piece_index: self.piece_index as int,
            piece_length: self.piece_length as int,
            next_block: self.next_block as int,
            data: self.buffer@,
        }
    }
}

impl PieceDownload {
    /// Blocks come in order, and the buffer holds exactly the bytes of the
    /// blocks received so far.
    pub open spec fn wf(&self) -> bool {
        &&& 0 <= self@.next_block <= block_count(self@.piece_length)
        &&& self@.data.len() == block_offset(self@.piece_length, self@.next_block)
    }

    /// An empty download of piece `piece_index`, whose exact byte length is
    /// `piece_length`.
    pub fn new(piece_index: u32, piece_length: u32) -> (r: PieceDownload)
        ensures
            r.wf(),
            r@.piece_index == piece_index,
            r@.piece_length == piece_length,
            r@.next_block == 0,
            r@.data == Seq::<u8>::empty(),
    {
        let r = PieceDownload { piece_index, piece_length, next_block: 0, buffer: Vec::new() };
        proof {
            assert(block_count(piece_length as int) >= 0);
        }
        r
    }

    /// Whether every block of the piece has been received.
    pub fn is_complete(&self) -> (r: bool)
        requires
            self.wf(),
        ensures
            r == (self@.next_block == block_count(self@.piece_length)),
    {
        self.next_block == block_count_of(self.piece_length)
    }

    /// The next Request to send: the lowest block not yet received, or
    /// `None` once the piece is complete. Requests carry the piece index,
    /// the block's byte offset, and its exact length.
    pub fn next_request(&self) -> (r: Option<PieceRequest>)
        requires
            self.wf(),
        ensures
            match r {
                Some(q) => {
                    &&& self@.next_block < block_count(self@.piece_length)
                    &&& q.index == self@.piece_index
                    &&& q.begin == self@.next_block * (BLOCK_SIZE as int)
                    &&& q.length == block_size_spec(self@.piece_length, self@.next_block)
                },
                None => self@.next_block >= block_count(self@.piece_length),
            },
    {
        let count = block_count_of(self.piece_length);
        if self.next_block >= count {
            return None;
        }
        proof {
            lemma_block_offset_in_piece(self@.piece_length, self@.next_block);
        }
        let begin64 = (self.next_block as u64) * (BLOCK_SIZE as u64);
        let begin = begin64 as u32;
        let length = if self.next_block == count - 1 {
            let rem = self.piece_length % BLOCK_SIZE;
            if rem == 0 {
                BLOCK_SIZE
            } else {
                rem
            }
        } else {
            BLOCK_SIZE
        };
        Some(PieceRequest { index: self.piece_index, begin, length })
    }

    /// Takes one block handed back by the peer. `Ok` appends it and moves to
    /// the next block; `UnexpectedBlock` exactly when the block is not the
    /// one just requested, the piece index or byte offset differ, the length
    /// is not the requested block's, or no block was outstanding, and then
    /// nothing changes.
    pub fn on_block(&mut self, incoming: &PieceBlock) -> (r: Result<(), EngineError>)
        requires
            old(self).wf(),
        ensures
            ({
                let pl = old(self)@.piece_length;
                let b = old(self)@.next_block;
                let expected = {
                    &&& b < block_count(pl)
                    &&& incoming.index == old(self)@.piece_index
                    &&& incoming.begin == b * (BLOCK_SIZE as int)
                    &&& incoming.block@.len() == block_size_spec(pl, b)
                };
                match r {
                    Ok(u) => {
                        &&& expected
                        &&& final(self).wf()
                        &&& final(self)@.piece_index == old(self)@.piece_index
                        &&& final(self)@.piece_length == pl
                        &&& final(self)@.next_block == b + 1
                        &&& final(self)@.data == old(self)@.data + incoming.block@
                    },
                    Err(e) => {
                        &&& !expected
                        &&& e == EngineError::UnexpectedBlock
                        &&& final(self)@ == old(self)@
                    },
                }
            }),
    {
        let count = block_count_of(self.piece_length);
        if self.next_block >= count {
            return Err(EngineError::UnexpectedBlock);
        }
        proof {
            lemma_block_offset_in_piece(self@.piece_length, self@.next_block);
        }
        let begin64 = (self.next_block as u64) * (BLOCK_SIZE as u64);
        let begin = begin64 as u32;
        if incoming.index != self.piece_index {
            return Err(EngineError::UnexpectedBlock);
        }
        if incoming.begin != begin {
            return Err(EngineError::UnexpectedBlock);
        }
        let expected_len = if self.next_block == count - 1 {
            let rem = self.piece_length % BLOCK_SIZE;
            if rem == 0 {
                BLOCK_SIZE
            } else {
                rem
            }
        } else {
            BLOCK_SIZE
        };
        if incoming.block.len() != expected_len as usize {
            return Err(EngineError::UnexpectedBlock);
        }
        proof {
            lemma_block_partition(self@.piece_length, self@.next_block);
        }
        crate::bencode::append_bytes(&mut self.buffer, &incoming.block);
        self.next_block = self.next_block + 1;
        Ok(())
    }

    /// Checks the reassembled piece against its expected 20-byte digest.
    /// `Ok` exactly when the SHA-1 digest of the buffer equals the expected
    /// bytes; `PieceHashMismatch` otherwise, and the piece is to be
    /// discarded, never reported as downloaded.
    pub fn verify(&self, expected_hash: &Vec<u8>) -> (r: Result<(), EngineError>)
        requires
            self.wf(),
            self@.next_block == block_count(self@.piece_length),
        ensures
            match r {
                Ok(u) => sha1_of(self@.data) == expected_hash@,
                Err(e) => sha1_of(self@.data) != expected_hash@ && e
                    == EngineError::PieceHashMismatch,
            },
    {
        let digest = sha1_digest(self.buffer.as_slice());
        if bytes_eq(&digest, expected_hash) {
            Ok(())
        } else {
            Err(EngineError::PieceHashMismatch)
        }
    }

    /// Hands the reassembled bytes out.
    pub fn into_bytes(self) -> (r: Vec<u8>)
        ensures
            r@ == self@.data,
    {
        self.buffer
    }
}

/// The very first frame after a successful handshake must be a Bitfield;
/// anything else is a protocol violation that fails the connection.
pub fn check_first_message(kind: MessageKind) -> (r: Result<(), EngineError>)
    ensures
        match r {
            Ok(u) => kind == MessageKind::Bitfield,
            Err(e) => kind != MessageKind::Bitfield && e == EngineError::UnexpectedFirstMessage,
        },
{
    if kind == MessageKind::Bitfield {
        Ok(())
    } else {
        Err(EngineError::UnexpectedFirstMessage)
    }
}

/// After Interested is sent, the only acceptable reply is Unchoke; anything
/// else is fatal to the connection in this design.
pub fn check_unchoke_message(kind: MessageKind) -> (r: Result<(), EngineError>)
    ensures
        match r {
            Ok(u) => kind == MessageKind::Unchoke,
            Err(e) => kind != MessageKind::Unchoke && e == EngineError::UnexpectedMessage,
        },
{
    if kind == MessageKind::Unchoke {
        Ok(())
    } else {
        Err(EngineError::UnexpectedMessage)
    }
}

} // verus!
