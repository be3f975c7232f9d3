use crate::bencode::{
    append_bytes, bdec, dec_digits, dict_get, decode, find_key, push_decimal, BValue, BencodeValue,
};
use crate::digest::hex_digit;
use vstd::prelude::*;

verus! {

/// The errors of the tracker client.
#[derive(Debug, Clone, Copy, PartialEq, Eq, Structural)]
pub enum TrackerError {
    /// The response bytes are not a bencode dictionary carrying a `peers`
    /// byte string.
    MalformedResponse,
    /// The compact peer list is not a whole number of 6-byte entries.
    MalformedPeerList,
}

/// One peer: an IPv4 address as four octets and a port.
#[derive(Debug, Clone, Copy, PartialEq, Eq, Structural)]
pub struct PeerAddress {
    pub o0: u8,
    pub o1: u8,
    pub o2: u8,
    pub o3: u8,
    pub port: u16,
}

/// The peer held at entry `i` of a compact blob: four address octets, then
/// the port in big-endian order.
pub open spec fn peer_at(blob: Seq<u8>, i: int) -> PeerAddress {
    PeerAddress {
        o0: blob[6 * i],
        o1: blob[6 * i + 1],
        o2: blob[6 * i + 2],
        o3: blob[6 * i + 3],
        port: (blob[6 * i + 4] * 256 + blob[6 * i + 5]) as u16,
    }
}

/// Decodes a compact peer list: 6 bytes per peer. `MalformedPeerList`
/// exactly when the blob is not a whole number of entries.
pub fn decode_compact_peers(blob: &Vec<u8>) -> (r: Result<Vec<PeerAddress>, TrackerError>)
    ensures
        match r {
            Ok(peers) => {
                &&& blob@.len() % 6 == 0
                &&& peers@.len() == blob@.len() / 6
                &&& forall|i: int| 0 <= i < peers@.len() ==> peers@[i] == peer_at(blob@, i)
            },
            Err(e) => blob@.len() % 6 != 0 && e == TrackerError::MalformedPeerList,
        },
{
    let blen = blob.len();
    if blen % 6 != 0 {
        return Err(TrackerError::MalformedPeerList);
    }
    let count = blen / 6;
    let mut peers: Vec<PeerAddress> = Vec::new();
    let mut i: usize = 0;
    while i < count
        invariant
            0 <= i <= count,
            count == blob@.len() / 6,
            blen == blob@.len(),
            blob@.len() % 6 == 0,
            peers@.len() == i,
            forall|j: int| 0 <= j < i ==> peers@[j] == peer_at(blob@, j),
        decreases count - i,
    {
        proof {
            assert(6 * count == blen);
            assert(6 * (i + 1) <= 6 * count);
        }
        let base = 6 * i;
        let port = (blob[base + 4] as u16) * 256 + (blob[base + 5] as u16);
        let peer = PeerAddress {
            o0: blob[base],
            o1: blob[base + 1],
            o2: blob[base + 2],
            o3: blob[base + 3],
            port,
        };
        peers.push(peer);
        i = i + 1;
    }
    Ok(peers)
}

/// The bytes of the key `peers`.
pub open spec fn key_peers() -> Seq<u8> {
    seq![112u8, 101u8, 101u8, 114u8, 115u8]
}

/// The compact peer blob a tracker response holds: one bencode dictionary
/// covering the whole input, with a `peers` byte string under it.
pub open spec fn response_peers_blob(s: Seq<u8>) -> Option<Seq<u8>> {
    match bdec(s) {
        Some((BValue::Dict(pairs), n)) => if n == s.len() {
            match dict_get(pairs, key_peers()) {
                Some(BValue::Bytes(b)) => Some(b),
                _ => None,
            }
        } else {
            None
        },
        _ => None,
    }
}

/// Decodes a bencoded tracker response into its peer list.
/// `MalformedResponse` exactly when the bytes are not a bencode dictionary
/// with a `peers` byte string; `MalformedPeerList` exactly when that string
/// is not a whole number of 6-byte entries.
pub fn parse_tracker_response(data: &[u8]) -> (r: Result<Vec<PeerAddress>, TrackerError>)
    ensures
        match r {
            Ok(peers) => match response_peers_blob(data@) {
                Some(b) => {
                    &&& b.len() % 6 == 0
                    &&& peers@.len() == b.len() / 6
                    &&& forall|i: int| 0 <= i < peers@.len() ==> peers@[i] == peer_at(b, i)
                },
                None => false,
            },
            Err(TrackerError::MalformedResponse) => response_peers_blob(data@) is None,
            Err(TrackerError::MalformedPeerList) => match response_peers_blob(data@) {
                Some(b) => b.len() % 6 != 0,
                None => false,
            },
        },
{
    let (value, end) = match decode(data, 0) {
        Ok(p) => p,
        Err(_) => {
            proof {
                assert(data@.skip(0int) =~= data@);
            }
            return Err(TrackerError::MalformedResponse);
        },
    };
    proof {
        assert(data@.skip(0int) =~= data@);
    }
    let pairs = match &value {
        BencodeValue::Dictionary(pairs) => pairs,
        _ => {
            return Err(TrackerError::MalformedResponse);
        },
    };
    if end != data.len() {
        return Err(TrackerError::MalformedResponse);
    }
    let mut peers_key: Vec<u8> = Vec::new();
    peers_key.push(112);
    peers_key.push(101);
    peers_key.push(101);
    peers_key.push(114);
    peers_key.push(115);
    assert(peers_key@ =~= key_peers());
    let blob = match find_key(pairs, &peers_key) {
        Some(BencodeValue::ByteString(b)) => b,
        _ => {
            return Err(TrackerError::MalformedResponse);
        },
    };
    match decode_compact_peers(blob) {
        Ok(peers) => Ok(peers),
        Err(_) => Err(TrackerError::MalformedPeerList),
    }
}

/// The bytes of `?peer_id=`.
pub open spec fn qs_peer_id() -> Seq<u8> {
    seq![63u8, 112u8, 101u8, 101u8, 114u8, 95u8, 105u8, 100u8, 61u8]
}

/// The bytes of `&port=`.
pub open spec fn qs_port() -> Seq<u8> {
    seq![38u8, 112u8, 111u8, 114u8, 116u8, 61u8]
}

/// The bytes of `&uploaded=0&downloaded=0&left=`.
pub open spec fn qs_counters() -> Seq<u8> {
    seq![
        38u8, 117u8, 112u8, 108u8, 111u8, 97u8, 100u8, 101u8, 100u8, 61u8, 48u8, 38u8, 100u8,
        111u8, 119u8, 110u8, 108u8, 111u8, 97u8, 100u8, 101u8, 100u8, 61u8, 48u8, 38u8, 108u8,
        101u8, 102u8, 116u8, 61u8,
    ]
}

/// The bytes of `&compact=1&info_hash=`.
pub open spec fn qs_compact_info_hash() -> Seq<u8> {
    seq![
        38u8, 99u8, 111u8, 109u8, 112u8, 97u8, 99u8, 116u8, 61u8, 49u8, 38u8, 105u8, 110u8, 102u8,
        111u8, 95u8, 104u8, 97u8, 115u8, 104u8, 61u8,
    ]
}

/// Each byte as `%XX` with lowercase hex digits: the raw-byte percent
/// encoding that carries the info-hash, which is not text and must not go
/// through a text encoder.
pub open spec fn percent_encoded(h: Seq<u8>) -> Seq<u8>
    decreases h.len(),
{
    if h.len() == 0 {
        Seq::empty()
    } else {
        seq![37u8, hex_digit((h[0] as int) / 16), hex_digit((h[0] as int) % 16)] + percent_encoded(
            h.drop_first(),
        )
    }
}

pub proof fn lemma_percent_encoded_push(h: Seq<u8>, x: u8)
    ensures
        percent_encoded(h.push(x)) == percent_encoded(h) + seq![
            37u8,
            hex_digit((x as int) / 16),
            hex_digit((x as int) % 16),
        ],
    decreases h.len(),
{
    if h.len() == 0 {
        assert(h.push(x)[0] == x);
        assert(h.push(x).drop_first() =~= Seq::<u8>::empty());
        let hx = seq![37u8, hex_digit((x as int) / 16), hex_digit((x as int) % 16)];
        assert(percent_encoded(h.push(x)) == hx + percent_encoded(Seq::<u8>::empty()));
        assert(hx + Seq::<u8>::empty() =~= hx);
        assert(Seq::<u8>::empty() + hx =~= hx);
    } else {
        assert(h.push(x)[0] == h[0]);
        assert(h.push(x).drop_first() =~= h.drop_first().push(x));
        lemma_percent_encoded_push(h.drop_first(), x);
        assert(seq![37u8, hex_digit((h[0] as int) / 16), hex_digit((h[0] as int) % 16)] + (
        percent_encoded(h.drop_first()) + seq![
            37u8,
            hex_digit((x as int) / 16),
            hex_digit((x as int) % 16),
        ]) =~= (seq![37u8, hex_digit((h[0] as int) / 16), hex_digit((h[0] as int) % 16)]
            + percent_encoded(h.drop_first())) + seq![
            37u8,
            hex_digit((x as int) / 16),
            hex_digit((x as int) % 16),
        ]);
    }
}

/// Appends `%XX` for every byte of `hash`, as the raw-byte percent encoding
/// demands.
#[verifier::loop_isolation(false)]
pub fn urlencode(hash: &Vec<u8>, out: &mut Vec<u8>)
    ensures
        final(out)@ == old(out)@ + percent_encoded(hash@),
{
    proof {
        assert(percent_encoded(hash@.take(0int)) =~= Seq::<u8>::empty());
        assert(old(out)@ + Seq::<u8>::empty() =~= old(out)@);
    }
    let mut i: usize = 0;
    while i < hash.len()
        invariant
            0 <= i <= hash.len(),
            out@ == old(out)@ + percent_encoded(hash@.take(i as int)),
        decreases hash.len() - i,
    {
        let b = hash[i];
        out.push(37);
        out.push(hex_byte((b / 16) as u8));
        out.push(hex_byte(b % 16));
        proof {
            assert(hash@.take(i + 1) =~= hash@.take(i as int).push(hash@[i as int]));
            lemma_percent_encoded_push(hash@.take(i as int), hash@[i as int]);
            assert(old(out)@ + percent_encoded(hash@.take(i as int)) + seq![
                37u8,
                hex_digit((b as int) / 16),
                hex_digit((b as int) % 16),
            ] =~= old(out)@ + (percent_encoded(hash@.take(i as int)) + seq![
                37u8,
                hex_digit((b as int) / 16),
                hex_digit((b as int) % 16),
            ]));
            assert(out@ =~= old(out)@ + percent_encoded(hash@.take(i + 1)));
        }
        i = i + 1;
    }
    proof {
        assert(hash@.take(hash@.len() as int) =~= hash@);
    }
}

/// The lowercase hexadecimal digit of a nibble, as an executable byte.
fn hex_byte(n: u8) -> (r: u8)
    requires
        n < 16,
    ensures
        r == hex_digit(n as int),
{
    if n < 10 {
        48 + n
    } else {
        87 + n
    }
}

/// The full announce URL: the announce bytes, then the query string with the
/// fixed fields `peer_id`, `port`, `uploaded=0`, `downloaded=0`, `left`,
/// `compact=1`, then the raw-byte percent-encoded info-hash.
pub open spec fn announce_url_spec(
    announce: Seq<u8>,
    info_hash: Seq<u8>,
    peer_id: Seq<u8>,
    port: int,
    left: int,
) -> Seq<u8> {
    announce + qs_peer_id() + peer_id + qs_port() + dec_digits(port as nat) + qs_counters()
        + dec_digits(left as nat) + qs_compact_info_hash() + percent_encoded(info_hash)
}

/// Builds the announce URL for one download: `left` is the whole file, and
/// the info-hash rides as raw percent-encoded bytes after the text fields.
#[verifier::rlimit(100)]
pub fn build_announce_url(
    announce: &Vec<u8>,
    info_hash: &Vec<u8>,
    peer_id: &Vec<u8>,
    port: u16,
    left: u64,
) -> (r: Vec<u8>)
    ensures
        r@ == announce_url_spec(announce@, info_hash@, peer_id@, port as int, left as int),
{
    let mut out: Vec<u8> = Vec::new();
    append_bytes(&mut out, announce);
    proof {
        assert(Seq::<u8>::empty() + announce@ =~= announce@);
    }
    out.push(63);
    out.push(112);
    out.push(101);
    out.push(101);
    out.push(114);
    out.push(95);
    out.push(105);
    out.push(100);
    out.push(61);
    proof {
        assert(out@ =~= announce@ + qs_peer_id());
    }
    append_bytes(&mut out, peer_id);
    out.push(38);
    out.push(112);
    out.push(111);
    out.push(114);
    out.push(116);
    out.push(61);
    proof {
        assert(out@ =~= announce@ + qs_peer_id() + peer_id@ + qs_port());
    }
    push_decimal(port as u64, &mut out);
    let ghost mid1 = announce@ + qs_peer_id() + peer_id@ + qs_port() + dec_digits(port as nat);
    proof {
        assert(out@ =~= mid1);
    }
    out.push(38);
    out.push(117);
    out.push(112);
    out.push(108);
    out.push(111);
    out.push(97);
    out.push(100);
    out.push(101);
    out.push(100);
    out.push(61);
    out.push(48);
    out.push(38);
    out.push(100);
    out.push(111);
    out.push(119);
    out.push(110);
    out.push(108);
    out.push(111);
    out.push(97);
    out.push(100);
    out.push(101);
    out.push(100);
    out.push(61);
    out.push(48);
    out.push(38);
    out.push(108);
    out.push(101);
    out.push(102);
    out.push(116);
    out.push(61);
    proof {
        assert(out@ =~= mid1 + qs_counters());
    }
    push_decimal(left, &mut out);
    let ghost mid2 = mid1 + qs_counters() + dec_digits(left as nat);
    proof {
        assert(out@ =~= mid2);
    }
    out.push(38);
    out.push(99);
    out.push(111);
    out.push(109);
    out.push(112);
    out.push(97);
    out.push(99);
    out.push(116);
    out.push(61);
    out.push(49);
    out.push(38);
    out.push(105);
    out.push(110);
    out.push(102);
    out.push(111);
    out.push(95);
    out.push(104);
    out.push(97);
    out.push(115);
    out.push(104);
    out.push(61);
    proof {
        assert(out@ =~= mid2 + qs_compact_info_hash());
    }
    urlencode(info_hash, &mut out);
    proof {
        assert(out@ =~= announce_url_spec(
            announce@,
            info_hash@,
            peer_id@,
            port as int,
            left as int,
        ));
    }
    out
}

} // verus!
