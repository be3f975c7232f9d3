use crate::bencode::append_bytes;
use vstd::prelude::*;

verus! {

/// The largest frame the codec accepts: a corrupt or adversarial peer
/// claiming more is refused rather than buffered.
pub const MAX_FRAME_LEN: usize = 65536;

/// The errors of the wire codec.
#[derive(Debug, Clone, Copy, PartialEq, Eq, Structural)]
pub enum WireError {
    /// The 68 handshake bytes read back are not a BitTorrent handshake.
    HandshakeRejected,
    /// A frame whose declared length is over `MAX_FRAME_LEN`.
    FrameTooLarge,
    /// A frame whose message-id byte is outside the protocol's range.
    UnknownMessageId,
}

/// The kinds of runtime protocol messages, in the protocol's numbering
/// order, 0 through 8.
#[derive(Debug, Clone, Copy, PartialEq, Eq, Structural)]
pub enum MessageKind {
    Choke,
    Unchoke,
    Interested,
    NotInterested,
    Have,
    Bitfield,
    Request,
    Piece,
    Cancel,
}

/// The id byte of a message kind.
pub open spec fn kind_byte(k: MessageKind) -> u8 {
    match k {
        MessageKind::Choke => 0,
        MessageKind::Unchoke => 1,
        MessageKind::Interested => 2,
        MessageKind::NotInterested => 3,
        MessageKind::Have => 4,
        MessageKind::Bitfield => 5,
        MessageKind::Request => 6,
        MessageKind::Piece => 7,
        MessageKind::Cancel => 8,
    }
}

/// The message kind of an id byte; `None` beyond 8.
pub open spec fn kind_of_byte(b: u8) -> Option<MessageKind> {
    if b == 0 {
        Some(MessageKind::Choke)
    } else if b == 1 {
        Some(MessageKind::Unchoke)
    } else if b == 2 {
        Some(MessageKind::Interested)
    } else if b == 3 {
        Some(MessageKind::NotInterested)
    } else if b == 4 {
        Some(MessageKind::Have)
    } else if b == 5 {
        Some(MessageKind::Bitfield)
    } else if b == 6 {
        Some(MessageKind::Request)
    } else if b == 7 {
        Some(MessageKind::Piece)
    } else if b == 8 {
        Some(MessageKind::Cancel)
    } else {
        None
    }
}

/// The two maps are inverse: decoding the id byte of a kind gives the kind
/// back.
pub proof fn lemma_kind_byte_inverse(k: MessageKind)
    ensures
        kind_of_byte(kind_byte(k)) == Some(k),
{
}

/// The id byte of a message kind, executable.
pub fn message_kind_byte(k: MessageKind) -> (r: u8)
    ensures
        r == kind_byte(k),
{
    match k {
        MessageKind::Choke => 0,
        MessageKind::Unchoke => 1,
        MessageKind::Interested => 2,
        MessageKind::NotInterested => 3,
        MessageKind::Have => 4,
        MessageKind::Bitfield => 5,
        MessageKind::Request => 6,
        MessageKind::Piece => 7,
        MessageKind::Cancel => 8,
    }
}

/// The message kind of an id byte, executable.
pub fn message_kind_of_byte(b: u8) -> (r: Option<MessageKind>)
    ensures
        r == kind_of_byte(b),
{
    if b == 0 {
        Some(MessageKind::Choke)
    } else if b == 1 {
        Some(MessageKind::Unchoke)
    } else if b == 2 {
        Some(MessageKind::Interested)
    } else if b == 3 {
        Some(MessageKind::NotInterested)
    } else if b == 4 {
        Some(MessageKind::Have)
    } else if b == 5 {
        Some(MessageKind::Bitfield)
    } else if b == 6 {
        Some(MessageKind::Request)
    } else if b == 7 {
        Some(MessageKind::Piece)
    } else if b == 8 {
        Some(MessageKind::Cancel)
    } else {
        None
    }
}

/// One runtime protocol message: its kind and its payload bytes.
pub struct PeerMessage {
    pub kind: MessageKind,
    pub payload: Vec<u8>,
}

/// The model of a message.
pub ghost struct MessageModel {
    pub kind: MessageKind,
    pub payload: Seq<u8>,
}

impl View for PeerMessage {
    type V = MessageModel;

    open spec fn view(&self) -> MessageModel {
        MessageModel { kind: self.kind, payload: self.payload@ }
    }
}

/// The big-endian 32-bit value held at `s[i .. i + 4]`.
pub open spec fn be32_at(s: Seq<u8>, i: int) -> int {
    (s[i] as int) * 16777216 + (s[i + 1] as int) * 65536 + (s[i + 2] as int) * 256 + (s[i
        + 3] as int)
}

/// The four big-endian bytes of a 32-bit value.
pub open spec fn be32_bytes(n: int) -> Seq<u8> {
    seq![
        ((n / 16777216) % 256) as u8,
        ((n / 65536) % 256) as u8,
        ((n / 256) % 256) as u8,
        (n % 256) as u8,
    ]
}

/// Reading back the four big-endian bytes of a 32-bit value gives the value.
pub proof fn lemma_be32_value(n: int, rest: Seq<u8>)
    requires
        0 <= n < 0x1_0000_0000,
    ensures
        be32_at(be32_bytes(n) + rest, 0) == n,
{
    let s = be32_bytes(n) + rest;
    assert(s[0] == ((n / 16777216) % 256) as u8);
    assert(s[1] == ((n / 65536) % 256) as u8);
    assert(s[2] == ((n / 256) % 256) as u8);
    assert(s[3] == (n % 256) as u8);
    assert(n / 16777216 < 256);
    assert((n / 16777216) % 256 == n / 16777216);
    assert((n / 65536) % 256 == (n % 16777216) / 65536) by {
        assert(n == (n / 16777216) * 16777216 + n % 16777216);
        assert(n / 65536 == (n / 16777216) * 256 + (n % 16777216) / 65536);
        assert((n % 16777216) / 65536 < 256);
    }
    assert((n / 256) % 256 == (n % 65536) / 256) by {
        assert(n == (n / 65536) * 65536 + n % 65536);
        assert(n / 256 == (n / 65536) * 256 + (n % 65536) / 256);
        assert((n % 65536) / 256 < 256);
    }
    assert((n / 16777216) * 16777216 + (n % 16777216) / 65536 * 65536 + (n % 65536) / 256 * 256 + n
        % 256 == n) by {
        assert(n % 16777216 == (n % 16777216) / 65536 * 65536 + (n % 16777216) % 65536);
        assert((n % 16777216) % 65536 == n % 65536);
        assert(n % 65536 == (n % 65536) / 256 * 256 + (n % 65536) % 256);
        assert((n % 65536) % 256 == n % 256);
    }
}

/// Reads the big-endian 32-bit value at `pos`.
pub(crate) fn read_be32(v: &Vec<u8>, pos: usize) -> (r: u32)
    requires
        pos + 4 <= v@.len(),
    ensures
        r as int == be32_at(v@, pos as int),
{
    let n = v.len();
    assert(pos + 4 <= n);
    (v[pos] as u32) * 16777216 + (v[pos + 1] as u32) * 65536 + (v[pos + 2] as u32) * 256 + (v[pos
        + 3] as u32)
}

/// The outcome of one decoding attempt over a receive buffer.
pub ghost enum FrameOutcome {
    /// No full frame yet; the given count of leading keep-alive bytes is
    /// consumed and the rest is kept for the next attempt.
    NeedMore(int),
    /// One message: its kind, its payload, and the bytes it occupied
    /// (keep-alives stripped before it included).
    Message(MessageKind, Seq<u8>, int),
    /// A frame whose declared length is over the bound.
    TooLarge,
    /// A frame whose id byte is outside the protocol's range.
    BadId,
}

/// What one decoding attempt over the buffered bytes `s` must do: strip
/// leading zero-length keep-alive frames, wait for at least a full length
/// prefix and then a full frame, refuse oversized lengths and unknown id
/// bytes, and otherwise hand out the first message.
pub open spec fn frame_step(s: Seq<u8>) -> FrameOutcome
    decreases s.len(),
{
    if s.len() < 4 {
        FrameOutcome::NeedMore(0)
    } else {
        let l = be32_at(s, 0);
        if l == 0 {
            match frame_step(s.skip(4)) {
                FrameOutcome::NeedMore(c) => FrameOutcome::NeedMore(c + 4),
                FrameOutcome::Message(k, p, n) => FrameOutcome::Message(k, p, n + 4),
                FrameOutcome::TooLarge => FrameOutcome::TooLarge,
                FrameOutcome::BadId => FrameOutcome::BadId,
            }
        } else if l > MAX_FRAME_LEN {
            FrameOutcome::TooLarge
        } else if s.len() < 4 + l {
            FrameOutcome::NeedMore(0)
        } else {
            match kind_of_byte(s[4]) {
                None => FrameOutcome::BadId,
                Some(k) => FrameOutcome::Message(k, s.subrange(5, 4 + l), 4 + l),
            }
        }
    }
}

/// The wire bytes of a message: the 4-byte big-endian length
/// `payload.len() + 1`, the id byte, then the payload.
pub open spec fn frame_bytes(m: MessageModel) -> Seq<u8> {
    be32_bytes(m.payload.len() + 1 as int) + seq![kind_byte(m.kind)] + m.payload
}

/// The frame round trip: decoding a buffer that starts with the encoding of
/// a message (of accepted size) yields exactly that message, however the
/// remaining bytes arrived or what they hold.
pub proof fn lemma_frame_round_trip(m: MessageModel, rest: Seq<u8>)
    requires
        m.payload.len() + 1 <= MAX_FRAME_LEN,
    ensures
        frame_step(frame_bytes(m) + rest) == FrameOutcome::Message(
            m.kind,
            m.payload,
            frame_bytes(m).len() as int,
        ),
{
    let l = (m.payload.len() + 1) as int;
    let after = seq![kind_byte(m.kind)] + m.payload + rest;
    let s = frame_bytes(m) + rest;
    assert(s =~= be32_bytes(l) + after);
    lemma_be32_value(l, after);
    assert(be32_at(s, 0) == l);
    assert(s.len() == 4 + l + rest.len());
    assert(s[4] == kind_byte(m.kind));
    lemma_kind_byte_inverse(m.kind);
    assert(s.subrange(5, 4 + l) =~= m.payload);
    assert(frame_bytes(m).len() == 4 + l);
}

/// A frame split across two transport deliveries in any way: once both
/// parts are buffered, one decoding attempt yields exactly the one
/// correctly-assembled message, and consumes the whole frame.
pub proof fn lemma_split_frame_reassembly(m: MessageModel, part1: Seq<u8>, part2: Seq<u8>)
    requires
        m.payload.len() + 1 <= MAX_FRAME_LEN,
        part1 + part2 == frame_bytes(m),
    ensures
        frame_step(part1 + part2) == FrameOutcome::Message(
            m.kind,
            m.payload,
            (part1 + part2).len() as int,
        ),
{
    lemma_frame_round_trip(m, Seq::empty());
    assert(frame_bytes(m) + Seq::<u8>::empty() =~= frame_bytes(m));
}

/// The streaming frame decoder: a growable receive buffer fed by the
/// transport, from which messages are taken one at a time. Partial frames
/// stay buffered and are re-attempted once more bytes arrive.
pub struct FrameDecoder {
    buf: Vec<u8>,
}

impl View for FrameDecoder {
    type V = Seq<u8>;

    closed spec fn view(&self) -> Seq<u8> {
        self.buf@
    }
}

impl FrameDecoder {
    /// An empty decoder.
    pub fn new() -> (r: FrameDecoder)
        ensures
            r@ == Seq::<u8>::empty(),
    {
        FrameDecoder { buf: Vec::new() }
    }

    /// Appends one delivery of transport bytes to the buffer.
    pub fn feed(&mut self, data: &[u8])
        ensures
            final(self)@ == old(self)@ + data@,
    {
        let mut i: usize = 0;
        while i < data.len()
            invariant
                0 <= i <= data@.len(),
                self.buf@ == old(self).buf@ + data@.take(i as int),
            decreases data@.len() - i,
        {
            self.buf.push(data[i]);
            proof {
                assert(data@.take(i + 1) =~= data@.take(i as int).push(data@[i as int]));
                assert(old(self).buf@ + data@.take(i as int).push(data@[i as int]) =~= (old(
                    self,
                ).buf@ + data@.take(i as int)).push(data@[i as int]));
            }
            i = i + 1;
        }
        proof {
            assert(data@.take(data@.len() as int) =~= data@);
        }
    }

    /// Attempts to decode one message from the buffer, exactly as
    /// `frame_step` says: `Ok(None)` when no full frame is buffered yet
    /// (leading keep-alives are consumed), `Ok(Some(m))` with the first
    /// message and its bytes consumed, and the two frame errors with the
    /// buffer left as it was.
    #[verifier::loop_isolation(false)]
    #[verifier::rlimit(60)]
    pub fn next_message(&mut self) -> (r: Result<Option<PeerMessage>, WireError>)
        ensures
            match frame_step(old(self)@) {
                FrameOutcome::NeedMore(c) => r matches Ok(None) && final(self)@ == old(
                    self,
                )@.skip(c),
                FrameOutcome::Message(k, p, n) => (r matches Ok(Some(m)) && m@.kind == k
                    && m@.payload == p) && final(self)@ == old(self)@.skip(n),
                FrameOutcome::TooLarge => r matches Err(e) && e == WireError::FrameTooLarge
                    && final(self)@ == old(self)@,
                FrameOutcome::BadId => r matches Err(e) && e == WireError::UnknownMessageId
                    && final(self)@ == old(self)@,
            },
    {
        let ghost s0 = self.buf@;
        proof {
            assert(s0.skip(0int) =~= s0);
        }
        let mut pos: usize = 0;
        while self.buf.len() - pos >= 4 && read_be32(&self.buf, pos) == 0
            invariant
                0 <= pos <= self.buf@.len(),
                self.buf@ == s0,
                match frame_step(s0.skip(pos as int)) {
                    FrameOutcome::NeedMore(c) => frame_step(s0) == FrameOutcome::NeedMore(pos + c),
                    FrameOutcome::Message(k, p, n) => frame_step(s0) == FrameOutcome::Message(
                        k,
                        p,
                        pos + n,
                    ),
                    FrameOutcome::TooLarge => frame_step(s0) == FrameOutcome::TooLarge,
                    FrameOutcome::BadId => frame_step(s0) == FrameOutcome::BadId,
                },
            decreases self.buf@.len() - pos,
        {
            proof {
                let t = s0.skip(pos as int);
                assert(t[0] == s0[pos as int]);
                assert(t[1] == s0[pos + 1]);
                assert(t[2] == s0[pos + 2]);
                assert(t[3] == s0[pos + 3]);
                assert(be32_at(t, 0) == be32_at(s0, pos as int));
                assert(t.skip(4) =~= s0.skip(pos + 4));
            }
            pos = pos + 4;
        }
        let remaining = self.buf.len() - pos;
        let ghost t = s0.skip(pos as int);
        if remaining < 4 {
            proof {
                assert(frame_step(t) == FrameOutcome::NeedMore(0));
            }
            let rest = vstd::slice::slice_to_vec(
                vstd::slice::slice_subrange(self.buf.as_slice(), pos, self.buf.len()),
            );
            proof {
                assert(s0.subrange(pos as int, s0.len() as int) =~= s0.skip(pos as int));
            }
            self.buf = rest;
            return Ok(None);
        }
        let l32 = read_be32(&self.buf, pos);
        proof {
            assert(t[0] == s0[pos as int]);
            assert(t[1] == s0[pos + 1]);
            assert(t[2] == s0[pos + 2]);
            assert(t[3] == s0[pos + 3]);
            assert(be32_at(t, 0) == be32_at(s0, pos as int));
        }
        let l = l32 as usize;
        if l > MAX_FRAME_LEN {
            return Err(WireError::FrameTooLarge);
        }
        if remaining < 4 + l {
            proof {
                assert(frame_step(t) == FrameOutcome::NeedMore(0));
            }
            let rest = vstd::slice::slice_to_vec(
                vstd::slice::slice_subrange(self.buf.as_slice(), pos, self.buf.len()),
            );
            proof {
                assert(s0.subrange(pos as int, s0.len() as int) =~= s0.skip(pos as int));
            }
            self.buf = rest;
            return Ok(None);
        }
        let id = self.buf[pos + 4];
        proof {
            assert(t[4] == s0[pos + 4]);
        }
        let kind = match message_kind_of_byte(id) {
            None => {
                return Err(WireError::UnknownMessageId);
            },
            Some(kind) => kind,
        };
        let payload = vstd::slice::slice_to_vec(
            vstd::slice::slice_subrange(self.buf.as_slice(), pos + 5, pos + 4 + l),
        );
        let rest = vstd::slice::slice_to_vec(
            vstd::slice::slice_subrange(self.buf.as_slice(), pos + 4 + l, self.buf.len()),
        );
        proof {
            assert(payload@ =~= t.subrange(5, 4 + l));
            assert(s0.subrange(pos + 4 + l, s0.len() as int) =~= s0.skip(pos + 4 + l));
            assert(t.subrange(5, 4 + l) == s0.subrange(pos + 5, pos + 4 + l)) by {
                assert(t.subrange(5, 4 + l) =~= s0.subrange(pos + 5, pos + 4 + l));
            }
        }
        self.buf = rest;
        Ok(Some(PeerMessage { kind, payload }))
    }
}

/// Encodes a message into its wire frame; `FrameTooLarge` exactly when the
/// id byte and payload together are over the accepted bound.
pub fn encode_frame(msg: &PeerMessage) -> (r: Result<Vec<u8>, WireError>)
    ensures
        match r {
            Ok(b) => msg@.payload.len() + 1 <= MAX_FRAME_LEN && b@ == frame_bytes(msg@),
            Err(e) => msg@.payload.len() + 1 > MAX_FRAME_LEN && e == WireError::FrameTooLarge,
        },
{
    if msg.payload.len() >= MAX_FRAME_LEN {
        return Err(WireError::FrameTooLarge);
    }
    let l = (msg.payload.len() + 1) as u32;
    let mut out: Vec<u8> = Vec::new();
    out.push(((l / 16777216) % 256) as u8);
    out.push(((l / 65536) % 256) as u8);
    out.push(((l / 256) % 256) as u8);
    out.push((l % 256) as u8);
    out.push(message_kind_byte(msg.kind));
    proof {
        assert(out@ =~= be32_bytes(l as int) + seq![kind_byte(msg@.kind)]);
    }
    append_bytes(&mut out, &msg.payload);
    proof {
        assert(out@ =~= frame_bytes(msg@));
    }
    Ok(out)
}

/// The fixed 19 protocol bytes of the handshake, `BitTorrent protocol`.
pub open spec fn protocol_bytes() -> Seq<u8> {
    seq![
        66u8, 105u8, 116u8, 84u8, 111u8, 114u8, 114u8, 101u8, 110u8, 116u8, 32u8, 112u8, 114u8,
        111u8, 116u8, 111u8, 99u8, 111u8, 108u8,
    ]
}

/// The eight reserved zero bytes of the handshake.
pub open spec fn reserved_bytes() -> Seq<u8> {
    seq![0u8, 0u8, 0u8, 0u8, 0u8, 0u8, 0u8, 0u8]
}

/// The 68 wire bytes of a handshake: the protocol string length, the
/// protocol string, eight reserved zero bytes, the info-hash, the peer id.
pub open spec fn handshake_bytes(info_hash: Seq<u8>, peer_id: Seq<u8>) -> Seq<u8> {
    seq![19u8] + protocol_bytes() + reserved_bytes() + info_hash + peer_id
}

/// Whether 68 read-back bytes are a BitTorrent handshake: the length byte is
/// 19 and the protocol string matches.
pub open spec fn handshake_valid(s: Seq<u8>) -> bool {
    &&& s.len() == 68
    &&& s[0] == 19
    &&& s.subrange(1, 20) == protocol_bytes()
}

/// The handshake record exchanged once per connection.
pub struct Handshake {
    pub info_hash: Vec<u8>,
    pub peer_id: Vec<u8>,
}

/// The model of a handshake.
pub ghost struct HandshakeModel {
    pub info_hash: Seq<u8>,
    pub peer_id: Seq<u8>,
}

impl View for Handshake {
    type V = HandshakeModel;

    open spec fn view(&self) -> HandshakeModel {
        HandshakeModel { info_hash: self.info_hash@, peer_id: self.peer_id@ }
    }
}

impl Handshake {
    /// Both identifiers are 20 bytes.
    pub open spec fn wf(&self) -> bool {
        self@.info_hash.len() == 20 && self@.peer_id.len() == 20
    }

    /// A handshake for the given info-hash and peer id.
    pub fn new(info_hash: Vec<u8>, peer_id: Vec<u8>) -> (r: Handshake)
        requires
            info_hash@.len() == 20,
            peer_id@.len() == 20,
        ensures
            r@.info_hash == info_hash@,
            r@.peer_id == peer_id@,
            r.wf(),
    {
        Handshake { info_hash, peer_id }
    }

    /// The 68 bytes this handshake puts on the wire.
    pub fn to_bytes(&self) -> (r: Vec<u8>)
        requires
            self.wf(),
        ensures
            r@ == handshake_bytes(self@.info_hash, self@.peer_id),
            r@.len() == 68,
    {
        let mut out: Vec<u8> = Vec::new();
        out.push(19);
        out.push(66);
        out.push(105);
        out.push(116);
        out.push(84);
        out.push(111);
        out.push(114);
        out.push(114);
        out.push(101);
        out.push(110);
        out.push(116);
        out.push(32);
        out.push(112);
        out.push(114);
        out.push(111);
        out.push(116);
        out.push(111);
        out.push(99);
        out.push(111);
        out.push(108);
        out.push(0);
        out.push(0);
        out.push(0);
        out.push(0);
        out.push(0);
        out.push(0);
        out.push(0);
        out.push(0);
        proof {
            assert(out@ =~= seq![19u8] + protocol_bytes() + reserved_bytes());
        }
        append_bytes(&mut out, &self.info_hash);
        append_bytes(&mut out, &self.peer_id);
        proof {
            assert(out@ =~= handshake_bytes(self@.info_hash, self@.peer_id));
        }
        out
    }

    /// Validates 68 bytes read back from the peer; `HandshakeRejected`
    /// exactly when they are not a handshake with the right protocol string.
    pub fn parse(data: &[u8]) -> (r: Result<Handshake, WireError>)
        ensures
            match r {
                Ok(h) => {
                    &&& handshake_valid(data@)
                    &&& h@.info_hash == data@.subrange(28, 48)
                    &&& h@.peer_id == data@.subrange(48, 68)
                    &&& h.wf()
                },
                Err(e) => !handshake_valid(data@) && e == WireError::HandshakeRejected,
            },
    {
        if data.len() != 68 {
            return Err(WireError::HandshakeRejected);
        }
        if data[0] != 19 {
            return Err(WireError::HandshakeRejected);
        }
        let mut protocol: Vec<u8> = Vec::new();
        protocol.push(66);
        protocol.push(105);
        protocol.push(116);
        protocol.push(84);
        protocol.push(111);
        protocol.push(114);
        protocol.push(114);
        protocol.push(101);
        protocol.push(110);
        protocol.push(116);
        protocol.push(32);
        protocol.push(112);
        protocol.push(114);
        protocol.push(111);
        protocol.push(116);
        protocol.push(111);
        protocol.push(99);
        protocol.push(111);
        protocol.push(108);
        assert(protocol@ =~= protocol_bytes());
        let mut i: usize = 0;
        while i < 19
            invariant
                0 <= i <= 19,
                data@.len() == 68,
                protocol@ == protocol_bytes(),
                forall|j: int| 0 <= j < i ==> data@[1 + j] == protocol_bytes()[j],
            decreases 19 - i,
        {
            if data[1 + i] != protocol[i] {
                proof {
                    assert(data@.subrange(1, 20)[i as int] == data@[1 + i]);
                    assert(data@.subrange(1, 20) != protocol_bytes());
                }
                return Err(WireError::HandshakeRejected);
            }
            i = i + 1;
        }
        proof {
            assert(data@.subrange(1, 20) =~= protocol_bytes());
        }
        let info_hash = vstd::slice::slice_to_vec(vstd::slice::slice_subrange(data, 28, 48));
        let peer_id = vstd::slice::slice_to_vec(vstd::slice::slice_subrange(data, 48, 68));
        Ok(Handshake { info_hash, peer_id })
    }
}

} // verus!
