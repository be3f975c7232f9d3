use crate::bencode::{bdec, decode, dict_get, find_key, pair_views, BValue, BencodeValue};
use crate::digest::{sha1_digest, sha1_of};
use vstd::prelude::*;

verus! {

/// The error of the descriptor model.
#[derive(Debug, Clone, Copy, PartialEq, Eq, Structural)]
pub enum TorrentError {
    /// The descriptor bytes are not a bencode dictionary with the required
    /// fields, or the fields are mistyped or inconsistent.
    MalformedDescriptor,
    /// A piece index at or beyond the number of pieces.
    PieceIndexOutOfRange,
}

/// The info dictionary of a single-file torrent: the advisory file name, the
/// nominal piece length, the concatenated 20-byte SHA-1 digests of the
/// pieces, and the total file length.
pub struct TorrentInfo {
    pub name: Vec<u8>,
    pub piece_length: u64,
    pub pieces: Vec<u8>,
    pub length: u64,
}

/// A loaded torrent descriptor: the tracker announce URL and the info
/// dictionary.
pub struct TorrentDescriptor {
    pub announce: Vec<u8>,
    pub info: TorrentInfo,
}

/// The model of an info dictionary.
pub ghost struct InfoModel {
    pub name: Seq<u8>,
    pub piece_length: int,
    pub pieces: Seq<u8>,
    pub length: int,
}

/// The model of a descriptor.
pub ghost struct DescriptorModel {
    pub announce: Seq<u8>,
    pub info: InfoModel,
}

impl View for TorrentInfo {
    type V = InfoModel;

    open spec fn view(&self) -> InfoModel {
        InfoModel {
            name: self.name@,
            piece_length: self.piece_length as int,
            pieces: self.pieces@,
            length: self.length as int,
        }
    }
}

impl View for TorrentDescriptor {
    type V = DescriptorModel;

    open spec fn view(&self) -> DescriptorModel {
        DescriptorModel { announce: self.announce@, info: self.info@ }
    }
}

/// The bytes of the key `announce`.
pub open spec fn key_announce() -> Seq<u8> {
    seq![97u8, 110u8, 110u8, 111u8, 117u8, 110u8, 99u8, 101u8]
}

/// The bytes of the key `info`.
pub open spec fn key_info() -> Seq<u8> {
    seq![105u8, 110u8, 102u8, 111u8]
}

/// The bytes of the key `length`.
pub open spec fn key_length() -> Seq<u8> {
    seq![108u8, 101u8, 110u8, 103u8, 116u8, 104u8]
}

/// The bytes of the key `name`.
pub open spec fn key_name() -> Seq<u8> {
    seq![110u8, 97u8, 109u8, 101u8]
}

/// The bytes of the key `piece length`.
pub open spec fn key_piece_length() -> Seq<u8> {
    seq![112u8, 105u8, 101u8, 99u8, 101u8, 32u8, 108u8, 101u8, 110u8, 103u8, 116u8, 104u8]
}

/// The bytes of the key `pieces`.
pub open spec fn key_pieces() -> Seq<u8> {
    seq![112u8, 105u8, 101u8, 99u8, 101u8, 115u8]
}

/// The number of pieces: the length of the concatenated digests over 20.
pub open spec fn num_pieces(info: InfoModel) -> int {
    info.pieces.len() as int / 20
}

/// A consistent single-file info dictionary: a positive piece length, a
/// non-negative total length (both within the range a bencode integer can
/// carry), digests in whole 20-byte units, and exactly one digest per piece
/// of the file.
pub open spec fn info_wf(info: InfoModel) -> bool {
    &&& 1 <= info.piece_length <= i64::MAX
    &&& 0 <= info.length <= i64::MAX
    &&& info.pieces.len() % 20 == 0
    &&& num_pieces(info) == (info.length + info.piece_length - 1) / info.piece_length
}

/// Extracts the info model from the entries of a decoded info dictionary;
/// `None` if a field is absent, mistyped, or inconsistent.
pub open spec fn info_of_pairs(pairs: Seq<(Seq<u8>, BValue)>) -> Option<InfoModel> {
    match (
        dict_get(pairs, key_name()),
        dict_get(pairs, key_piece_length()),
        dict_get(pairs, key_pieces()),
        dict_get(pairs, key_length()),
    ) {
        (
            Some(BValue::Bytes(name)),
            Some(BValue::Int(piece_length)),
            Some(BValue::Bytes(pieces)),
            Some(BValue::Int(length)),
        ) => {
            let info = InfoModel { name, piece_length, pieces, length };
            if info_wf(info) {
                Some(info)
            } else {
                None
            }
        },
        _ => None,
    }
}

/// Extracts the descriptor model from the entries of a decoded top-level
/// dictionary.
pub open spec fn descriptor_of_pairs(pairs: Seq<(Seq<u8>, BValue)>) -> Option<DescriptorModel> {
    match (dict_get(pairs, key_announce()), dict_get(pairs, key_info())) {
        (Some(BValue::Bytes(announce)), Some(BValue::Dict(info_pairs))) => match info_of_pairs(
            info_pairs,
        ) {
            Some(info) => Some(DescriptorModel { announce, info }),
            None => None,
        },
        _ => None,
    }
}

/// The descriptor a byte sequence holds: one bencode dictionary covering the
/// whole input, with the required fields; `None` if it holds anything else.
pub open spec fn parsed_descriptor(s: Seq<u8>) -> Option<DescriptorModel> {
    match bdec(s) {
        Some((BValue::Dict(pairs), n)) => if n == s.len() {
            descriptor_of_pairs(pairs)
        } else {
            None
        },
        _ => None,
    }
}

/// Copies a byte vector.
fn copy_bytes(v: &Vec<u8>) -> (r: Vec<u8>)
    ensures
        r@ == v@,
{
    let mut out: Vec<u8> = Vec::new();
    let mut i: usize = 0;
    while i < v.len()
        invariant
            0 <= i <= v.len(),
            out@ == v@.take(i as int),
        decreases v.len() - i,
    {
        out.push(v[i]);
        proof {
            assert(v@.take(i + 1) =~= v@.take(i as int).push(v@[i as int]));
        }
        i = i + 1;
    }
    proof {
        assert(v@.take(v@.len() as int) =~= v@);
    }
    out
}

/// Builds the exec bytes of `key_announce` and the other keys.
fn make_key(which: u8) -> (r: Vec<u8>)
    requires
        0 <= which < 6,
    ensures
        which == 0 ==> r@ == key_announce(),
        which == 1 ==> r@ == key_info(),
        which == 2 ==> r@ == key_length(),
        which == 3 ==> r@ == key_name(),
        which == 4 ==> r@ == key_piece_length(),
        which == 5 ==> r@ == key_pieces(),
{
    let mut v: Vec<u8> = Vec::new();
    if which == 0 {
        v.push(97);
        v.push(110);
        v.push(110);
        v.push(111);
        v.push(117);
        v.push(110);
        v.push(99);
        v.push(101);
        assert(v@ =~= key_announce());
    } else if which == 1 {
        v.push(105);
        v.push(110);
        v.push(102);
        v.push(111);
        assert(v@ =~= key_info());
    } else if which == 2 {
        v.push(108);
        v.push(101);
        v.push(110);
        v.push(103);
        v.push(116);
        v.push(104);
        assert(v@ =~= key_length());
    } else if which == 3 {
        v.push(110);
        v.push(97);
        v.push(109);
        v.push(101);
        assert(v@ =~= key_name());
    } else if which == 4 {
        v.push(112);
        v.push(105);
        v.push(101);
        v.push(99);
        v.push(101);
        v.push(32);
        v.push(108);
        v.push(101);
        v.push(110);
        v.push(103);
        v.push(116);
        v.push(104);
        assert(v@ =~= key_piece_length());
    } else {
        v.push(112);
        v.push(105);
        v.push(101);
        v.push(99);
        v.push(101);
        v.push(115);
        assert(v@ =~= key_pieces());
    }
    v
}

impl TorrentDescriptor {
    /// Whether the descriptor is well formed; `load` establishes this and
    /// every method relies on it.
    pub open spec fn wf(&self) -> bool {
        info_wf(self@.info)
    }

    /// Loads a descriptor from its bencode bytes. Returns the descriptor
    /// exactly when the bytes hold one well-formed single-file descriptor
    /// and nothing else, and `MalformedDescriptor` otherwise.
    pub fn load(data: &[u8]) -> (r: Result<TorrentDescriptor, TorrentError>)
        ensures
            match r {
                Ok(d) => parsed_descriptor(data@) == Some(d@) && d.wf(),
                Err(e) => parsed_descriptor(data@) is None && e
                    == TorrentError::MalformedDescriptor,
            },
    {
        let (value, end) = match decode(data, 0) {
            Ok(p) => p,
            Err(_) => {
                proof {
                    assert(data@.skip(0int) =~= data@);
                }
                return Err(TorrentError::MalformedDescriptor);
            },
        };
        proof {
            assert(data@.skip(0int) =~= data@);
        }
        let pairs = match &value {
            BencodeValue::Dictionary(pairs) => pairs,
            _ => {
                return Err(TorrentError::MalformedDescriptor);
            },
        };
        if end != data.len() {
            return Err(TorrentError::MalformedDescriptor);
        }
        let announce = match find_key(pairs, &make_key(0)) {
            Some(BencodeValue::ByteString(b)) => copy_bytes(b),
            _ => {
                return Err(TorrentError::MalformedDescriptor);
            },
        };
        let info_pairs = match find_key(pairs, &make_key(1)) {
            Some(BencodeValue::Dictionary(ps)) => ps,
            _ => {
                return Err(TorrentError::MalformedDescriptor);
            },
        };
        let name = match find_key(info_pairs, &make_key(3)) {
            Some(BencodeValue::ByteString(b)) => copy_bytes(b),
            _ => {
                return Err(TorrentError::MalformedDescriptor);
            },
        };
        let piece_length_i = match find_key(info_pairs, &make_key(4)) {
            Some(BencodeValue::Integer(i)) => *i,
            _ => {
                return Err(TorrentError::MalformedDescriptor);
            },
        };
        let pieces = match find_key(info_pairs, &make_key(5)) {
            Some(BencodeValue::ByteString(b)) => copy_bytes(b),
            _ => {
                return Err(TorrentError::MalformedDescriptor);
            },
        };
        let length_i = match find_key(info_pairs, &make_key(2)) {
            Some(BencodeValue::Integer(i)) => *i,
            _ => {
                return Err(TorrentError::MalformedDescriptor);
            },
        };
        if piece_length_i < 1 || length_i < 0 {
            return Err(TorrentError::MalformedDescriptor);
        }
        let piece_length = piece_length_i as u64;
        let length = length_i as u64;
        if pieces.len() % 20 != 0 {
            return Err(TorrentError::MalformedDescriptor);
        }
        let want = (length + piece_length - 1) / piece_length;
        if (pieces.len() / 20) as u64 != want {
            return Err(TorrentError::MalformedDescriptor);
        }
        let info = TorrentInfo { name, piece_length, pieces, length };
        let d = TorrentDescriptor { announce, info };
        Ok(d)
    }

    /// The number of pieces the descriptor declares.
    pub fn piece_count(&self) -> (r: usize)
        ensures
            r == num_pieces(self@.info),
    {
        self.info.pieces.len() / 20
    }

    /// The 20-byte digest of piece `index`; `PieceIndexOutOfRange` exactly
    /// when `index` is at or beyond the number of pieces.
    pub fn piece_hash_at(&self, index: usize) -> (r: Result<Vec<u8>, TorrentError>)
        ensures
            match r {
                Ok(h) => index < num_pieces(self@.info) && h@ == self@.info.pieces.subrange(
                    20 * index as int,
                    20 * index as int + 20,
                ),
                Err(e) => index >= num_pieces(self@.info) && e
                    == TorrentError::PieceIndexOutOfRange,
            },
    {
        let plen = self.info.pieces.len();
        let count = plen / 20;
        if index >= count {
            return Err(TorrentError::PieceIndexOutOfRange);
        }
        proof {
            assert(20 * count <= plen);
            assert(20 * (index + 1) <= 20 * count);
        }
        let start = index * 20;
        let mut out: Vec<u8> = Vec::new();
        let mut i: usize = 0;
        while i < 20
            invariant
                0 <= i <= 20,
                start == index * 20,
                index < self.info.pieces@.len() / 20,
                plen == self.info.pieces@.len(),
                start + 20 <= plen,
                out@ == self.info.pieces@.subrange(start as int, start + i),
            decreases 20 - i,
        {
            out.push(self.info.pieces[start + i]);
            proof {
                assert(self.info.pieces@.subrange(start as int, start + i + 1)
                    =~= self.info.pieces@.subrange(start as int, start + i).push(
                    self.info.pieces@[start + i],
                ));
            }
            i = i + 1;
        }
        proof {
            assert(out@ =~= self@.info.pieces.subrange(20 * index as int, 20 * index as int + 20));
        }
        Ok(out)
    }

    /// The byte length of piece `index`: the nominal piece length for every
    /// piece but the last, whose length is the remainder of the total, or a
    /// full piece when the total divides evenly.
    pub fn piece_length_of(&self, index: usize) -> (r: u64)
        requires
            self.wf(),
            index < num_pieces(self@.info),
        ensures
            r == piece_length_spec(self@.info, index as int),
    {
        let count = self.info.pieces.len() / 20;
        if index == count - 1 {
            let remainder = self.info.length % self.info.piece_length;
            if remainder == 0 {
                self.info.piece_length
            } else {
                remainder
            }
        } else {
            self.info.piece_length
        }
    }

    /// The SHA-1 info-hash: the digest of the canonical bencode re-encoding
    /// of the info dictionary. A pure function of the info model, so two
    /// calls on equal descriptors return equal bytes.
    pub fn info_hash(&self) -> (r: Vec<u8>)
        requires
            self.wf(),
        ensures
            r@ == sha1_of(info_encoding(self@.info)),
            r@.len() == 20,
    {
        let mut entries: Vec<(Vec<u8>, BencodeValue)> = Vec::new();
        entries.push((make_key(2), BencodeValue::Integer(self.info.length as i64)));
        entries.push((make_key(3), BencodeValue::ByteString(copy_bytes(&self.info.name))));
        entries.push((make_key(4), BencodeValue::Integer(self.info.piece_length as i64)));
        entries.push((make_key(5), BencodeValue::ByteString(copy_bytes(&self.info.pieces))));
        let ghost ge = entries@;
        let value = BencodeValue::Dictionary(entries);
        proof {
            crate::bencode::lemma_pair_views(ge);
            assert(ge.len() == 4);
            assert(pair_views(ge)[0] == ((#[trigger] ge[0]).0@, crate::bencode::view_of(ge[0].1)));
            assert(pair_views(ge)[1] == ((#[trigger] ge[1]).0@, crate::bencode::view_of(ge[1].1)));
            assert(pair_views(ge)[2] == ((#[trigger] ge[2]).0@, crate::bencode::view_of(ge[2].1)));
            assert(pair_views(ge)[3] == ((#[trigger] ge[3]).0@, crate::bencode::view_of(ge[3].1)));
            assert(pair_views(ge) =~= info_bvalue_pairs(self@.info));
            assert(value@ == info_bvalue(self@.info));
        }
        let encoded = crate::bencode::encode(&value);
        sha1_digest(encoded.as_slice())
    }
}

/// The entries of the canonical info dictionary, keys in ascending order:
/// `length`, `name`, `piece length`, `pieces`.
pub open spec fn info_bvalue_pairs(info: InfoModel) -> Seq<(Seq<u8>, BValue)> {
    seq![
        (key_length(), BValue::Int(info.length)),
        (key_name(), BValue::Bytes(info.name)),
        (key_piece_length(), BValue::Int(info.piece_length)),
        (key_pieces(), BValue::Bytes(info.pieces)),
    ]
}

/// The canonical bencode tree of the info dictionary.
pub open spec fn info_bvalue(info: InfoModel) -> BValue {
    BValue::Dict(info_bvalue_pairs(info))
}

/// The canonical bencode encoding of the info dictionary: what the info-hash
/// is the SHA-1 digest of.
pub open spec fn info_encoding(info: InfoModel) -> Seq<u8> {
    crate::bencode::encoding(info_bvalue(info))
}

/// The byte length of piece `index`.
pub open spec fn piece_length_spec(info: InfoModel, index: int) -> int {
    if index == num_pieces(info) - 1 {
        if info.length % info.piece_length == 0 {
            info.piece_length
        } else {
            info.length % info.piece_length
        }
    } else {
        info.piece_length
    }
}

/// The byte length of piece `piece_id` of a loaded descriptor.
pub fn calculate_piece_length(piece_id: usize, torrent: &TorrentDescriptor) -> (r: u64)
    requires
        torrent.wf(),
        piece_id < num_pieces(torrent@.info),
    ensures
        r == piece_length_spec(torrent@.info, piece_id as int),
{
    torrent.piece_length_of(piece_id)
}

/// The canonical info dictionary is well formed: its integers fit a bencode
/// integer and its keys stand in ascending lexicographic byte order,
/// `length`, `name`, `piece length`, `pieces`.
pub proof fn lemma_info_bvalue_wf(info: InfoModel)
    requires
        info_wf(info),
    ensures
        crate::bencode::wf(info_bvalue(info)),
{
    reveal_with_fuel(crate::bencode::lex_lt, 8);
    assert(crate::bencode::lex_lt(key_length(), key_name()));
    assert(crate::bencode::lex_lt(key_name(), key_piece_length()));
    assert(crate::bencode::lex_lt(key_piece_length(), key_pieces()));
    let pairs = info_bvalue_pairs(info);
    assert forall|i: int| 0 <= i < pairs.len() implies crate::bencode::wf(
        (#[trigger] pairs[i]).1,
    ) by {
        if i == 0 || i == 2 {
        } else {
        }
    }
    assert(crate::bencode::lex_lt(pairs[0].0, pairs[1].0));
    assert(crate::bencode::lex_lt(pairs[1].0, pairs[2].0));
    assert(crate::bencode::lex_lt(pairs[2].0, pairs[3].0));
    assert forall|i: int| 0 <= i && i + 1 < pairs.len() implies crate::bencode::lex_lt(
        (#[trigger] pairs[i]).0,
        pairs[i + 1].0,
    ) by {
        assert(i == 0 || i == 1 || i == 2);
    }
}

/// What the info-hash is taken over is the canonical encoding of the info
/// dictionary: decoding those bytes yields that dictionary back, whole.
pub proof fn lemma_info_encoding_canonical(info: InfoModel)
    requires
        info_wf(info),
    ensures
        bdec(info_encoding(info)) == Some(
            (info_bvalue(info), info_encoding(info).len() as nat),
        ),
{
    lemma_info_bvalue_wf(info);
    crate::bencode::lemma_decode_encode_round_trip(info_bvalue(info));
}

/// The info-hash is a pure function of the info dictionary alone: digests
/// computed for equal info models are equal, so repeated calls on one
/// descriptor always return the same bytes.
pub proof fn lemma_info_hash_deterministic(info: InfoModel, r1: Seq<u8>, r2: Seq<u8>)
    requires
        r1 == sha1_of(info_encoding(info)),
        r2 == sha1_of(info_encoding(info)),
    ensures
        r1 == r2,
{
}

} // verus!
