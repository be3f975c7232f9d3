use vstd::prelude::*;

verus! {

/// The SHA-1 digest of a byte sequence, as its 20 digest bytes. What the
/// digest is would take pages of bit manipulation to state; the name stands
/// for that function of the input bytes alone, and the `sha1` crate computes
/// it.
pub uninterp spec fn sha1_of(data: Seq<u8>) -> Seq<u8>;

/// Relies on `sha1::Sha1` through the `digest::Digest` interface: the SHA-1
/// digest of the input bytes, which is always 20 bytes long and depends on
/// the input alone.
#[verifier::external_body]
pub(crate) fn sha1_digest(data: &[u8]) -> (r: Vec<u8>)
    ensures
        r@ == sha1_of(data@),
        r@.len() == 20,
{
    let mut hasher = <sha1::Sha1 as sha1::Digest>::new();
    sha1::Digest::update(&mut hasher, data);
    sha1::Digest::finalize(hasher).to_vec()
}

/// The lowercase hexadecimal digit of a value below 16, as an ASCII byte.
pub open spec fn hex_digit(n: int) -> u8 {
    if n < 10 {
        (48 + n) as u8
    } else {
        (87 + n) as u8
    }
}

/// The lowercase hexadecimal spelling of a byte sequence: two digits per
/// byte, high nibble first.
pub open spec fn hex_of(data: Seq<u8>) -> Seq<u8>
    decreases data.len(),
{
    if data.len() == 0 {
        Seq::empty()
    } else {
        seq![hex_digit((data[0] as int) / 16), hex_digit((data[0] as int) % 16)] + hex_of(
            data.drop_first(),
        )
    }
}

/// Relies on `hex::encode`: each input byte becomes two lowercase ASCII hex
/// digits, high nibble first, in input order.
#[verifier::external_body]
pub(crate) fn hex_encode(data: &[u8]) -> (r: Vec<u8>)
    ensures
        r@ == hex_of(data@),
{
    hex::encode(data).into_bytes()
}

/// The lowercase hexadecimal spelling of the SHA-1 digest of `content`.
pub fn hash_content(content: &[u8]) -> (r: Vec<u8>)
    ensures
        r@ == hex_of(sha1_of(content@)),
{
    let digest = sha1_digest(content);
    hex_encode(digest.as_slice())
}

} // verus!
