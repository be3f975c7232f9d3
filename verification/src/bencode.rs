use vstd::prelude::*;

verus! {

/// A decoded bencode tree. Dictionary entries keep their stored order; the
/// canonical form that the info-hash is taken over has its keys in ascending
/// lexicographic byte order, and `encode` emits entries exactly as stored.
#[derive(Debug, PartialEq, Eq)]
pub enum BencodeValue {
    ByteString(Vec<u8>),
    Integer(i64),
    List(Vec<BencodeValue>),
    Dictionary(Vec<(Vec<u8>, BencodeValue)>),
}

/// The mathematical model of a bencode tree.
pub ghost enum BValue {
    Bytes(Seq<u8>),
    Int(int),
    List(Seq<BValue>),
    Dict(Seq<(Seq<u8>, BValue)>),
}

/// The model of one tree node.
pub open spec fn view_of(v: BencodeValue) -> BValue
    decreases v,
{
    match v {
        BencodeValue::ByteString(b) => BValue::Bytes(b@),
        BencodeValue::Integer(i) => BValue::Int(i as int),
        BencodeValue::List(items) => BValue::List(item_views(items@)),
        BencodeValue::Dictionary(pairs) => BValue::Dict(pair_views(pairs@)),
    }
}

/// The models of a sequence of tree nodes, in order.
pub open spec fn item_views(s: Seq<BencodeValue>) -> Seq<BValue>
    decreases s,
{
    if s.len() == 0 {
        Seq::empty()
    } else {
        seq![view_of(s[0])] + item_views(s.drop_first())
    }
}

/// The models of a sequence of dictionary entries, in order.
pub open spec fn pair_views(s: Seq<(Vec<u8>, BencodeValue)>) -> Seq<(Seq<u8>, BValue)>
    decreases s,
{
    if s.len() == 0 {
        Seq::empty()
    } else {
        seq![(s[0].0@, view_of(s[0].1))] + pair_views(s.drop_first())
    }
}

impl View for BencodeValue {
    type V = BValue;

    open spec fn view(&self) -> BValue {
        view_of(*self)
    }
}

/// The decimal digits of `n`, most significant first, no leading zeros.
pub open spec fn dec_digits(n: nat) -> Seq<u8>
    decreases n,
{
    if n < 10 {
        seq![(48 + n) as u8]
    } else {
        dec_digits(n / 10).push((48 + n % 10) as u8)
    }
}

/// The bencode literal for a signed integer: its decimal digits, with a
/// leading minus sign when negative.
pub open spec fn int_literal(i: int) -> Seq<u8> {
    if i < 0 {
        seq![45u8] + dec_digits((-i) as nat)
    } else {
        dec_digits(i as nat)
    }
}

/// The bencode encoding of a byte string: its length in decimal, a colon,
/// then the bytes themselves.
pub open spec fn bytes_encoding(b: Seq<u8>) -> Seq<u8> {
    dec_digits(b.len()) + seq![58u8] + b
}

/// The canonical bencode encoding of a value.
pub open spec fn encoding(v: BValue) -> Seq<u8>
    decreases v,
{
    match v {
        BValue::Bytes(b) => bytes_encoding(b),
        BValue::Int(i) => seq![105u8] + int_literal(i) + seq![101u8],
        BValue::List(items) => seq![108u8] + encoding_of_items(items) + seq![101u8],
        BValue::Dict(pairs) => seq![100u8] + encoding_of_pairs(pairs) + seq![101u8],
    }
}

/// The concatenated encodings of a sequence of values.
pub open spec fn encoding_of_items(items: Seq<BValue>) -> Seq<u8>
    decreases items,
{
    if items.len() == 0 {
        Seq::empty()
    } else {
        encoding(items[0]) + encoding_of_items(items.drop_first())
    }
}

/// The concatenated encodings of a sequence of dictionary entries: each key
/// as a byte string, then its value.
pub open spec fn encoding_of_pairs(pairs: Seq<(Seq<u8>, BValue)>) -> Seq<u8>
    decreases pairs,
{
    if pairs.len() == 0 {
        Seq::empty()
    } else {
        bytes_encoding(pairs[0].0) + encoding(pairs[0].1) + encoding_of_pairs(pairs.drop_first())
    }
}

/// Whether `b` is an ASCII decimal digit.
pub open spec fn is_ascii_digit(b: u8) -> bool {
    48 <= b <= 57
}

/// The length of the longest prefix of `s` made of ASCII digits.
pub open spec fn digit_run_len(s: Seq<u8>) -> nat
    decreases s,
{
    if s.len() == 0 || !is_ascii_digit(s[0]) {
        0
    } else {
        1 + digit_run_len(s.drop_first())
    }
}

/// The value of a string of ASCII digits, most significant first.
pub open spec fn digits_val(s: Seq<u8>) -> nat
    decreases s,
{
    if s.len() == 0 {
        0
    } else {
        (digits_val(s.drop_last()) * 10 + (s.last() - 48)) as nat
    }
}

/// Whether a digit run is the canonical decimal form of its value: at least
/// one digit, and no leading zero except for the single digit `0`.
pub open spec fn canonical_digits(s: Seq<u8>) -> bool {
    &&& s.len() >= 1
    &&& forall|i: int| 0 <= i < s.len() ==> is_ascii_digit(#[trigger] s[i])
    &&& (s.len() > 1 ==> s[0] != 48)
}

/// Decodes one bencode value from the front of `s`. `None` is malformed
/// input; `Some((v, n))` is the decoded value and the number of bytes it
/// occupied. The accepted grammar is exactly the canonical one that
/// `encoding` emits, except that dictionary keys need not be ordered.
pub open spec fn bdec(s: Seq<u8>) -> Option<(BValue, nat)>
    decreases s.len(), 0int,
{
    if s.len() == 0 {
        None
    } else if s[0] == 105 {
        // 'i': a signed integer, canonical digits, within the i64 range.
        bdec_int(s)
    } else if s[0] == 108 {
        // 'l': a list of values up to the terminator.
        match bdec_items(s.drop_first()) {
            Some((items, n)) => Some((BValue::List(items), n + 1)),
            None => None,
        }
    } else if s[0] == 100 {
        // 'd': key/value pairs up to the terminator; keys must be strings.
        match bdec_pairs(s.drop_first()) {
            Some((pairs, n)) => Some((BValue::Dict(pairs), n + 1)),
            None => None,
        }
    } else if is_ascii_digit(s[0]) {
        // A byte string: its length in decimal, a colon, then the bytes.
        bdec_bytes(s)
    } else {
        None
    }
}

/// Decodes a byte string `<digits>:<bytes>` from the front of `s`.
pub open spec fn bdec_bytes(s: Seq<u8>) -> Option<(BValue, nat)> {
    let k = digit_run_len(s);
    if !canonical_digits(s.take(k as int)) {
        None
    } else {
        let n = digits_val(s.take(k as int));
        if k >= s.len() || s[k as int] != 58 {
            None
        } else if s.len() < k + 1 + n {
            None
        } else {
            Some((BValue::Bytes(s.subrange(k + 1 as int, (k + 1 + n) as int)), k + 1 + n))
        }
    }
}

/// Decodes an integer `i<digits>e` from the front of `s`, which starts with
/// the `i`. The digits must be canonical, `-0` is refused, and the value must
/// fit in an `i64`.
pub open spec fn bdec_int(s: Seq<u8>) -> Option<(BValue, nat)> {
    let t = s.drop_first();
    let neg = t.len() > 0 && t[0] == 45;
    let u = if neg {
        t.drop_first()
    } else {
        t
    };
    let k = digit_run_len(u);
    if !canonical_digits(u.take(k as int)) {
        None
    } else if neg && u[0] == 48 {
        None
    } else {
        let m = digits_val(u.take(k as int));
        let value: int = if neg {
            -(m as int)
        } else {
            m as int
        };
        if !(i64::MIN <= value <= i64::MAX) {
            None
        } else if k >= u.len() || u[k as int] != 101 {
            None
        } else {
            Some((BValue::Int(value), (1 + (if neg { 1int } else { 0int }) + k + 1) as nat))
        }
    }
}

/// Decodes list items up to and including the `e` terminator.
pub open spec fn bdec_items(s: Seq<u8>) -> Option<(Seq<BValue>, nat)>
    decreases s.len(), 1int,
{
    if s.len() == 0 {
        None
    } else if s[0] == 101 {
        Some((Seq::empty(), 1))
    } else {
        match bdec(s) {
            Some((v, n)) => if n < 1 || n > s.len() {
                None
            } else {
                match bdec_items(s.skip(n as int)) {
                    Some((items, m)) => Some((seq![v] + items, n + m)),
                    None => None,
                }
            },
            None => None,
        }
    }
}

/// Decodes dictionary entries up to and including the `e` terminator. Every
/// key must decode to a byte string.
pub open spec fn bdec_pairs(s: Seq<u8>) -> Option<(Seq<(Seq<u8>, BValue)>, nat)>
    decreases s.len(), 1int,
{
    if s.len() == 0 {
        None
    } else if s[0] == 101 {
        Some((Seq::empty(), 1))
    } else {
        match bdec(s) {
            Some((BValue::Bytes(key), n)) => if n < 1 || n > s.len() {
                None
            } else {
                match bdec(s.skip(n as int)) {
                    Some((v, m)) => if m < 1 || n + m > s.len() {
                        None
                    } else {
                        match bdec_pairs(s.skip((n + m) as int)) {
                            Some((pairs, q)) => Some((seq![(key, v)] + pairs, n + m + q)),
                            None => None,
                        }
                    },
                    None => None,
                }
            },
            Some(_) => None,
            None => None,
        }
    }
}

/// Strict lexicographic order on byte strings.
pub open spec fn lex_lt(a: Seq<u8>, b: Seq<u8>) -> bool
    decreases a.len(),
{
    if b.len() == 0 {
        false
    } else if a.len() == 0 {
        true
    } else if a[0] < b[0] {
        true
    } else if a[0] > b[0] {
        false
    } else {
        lex_lt(a.drop_first(), b.drop_first())
    }
}

/// A well-formed tree: every integer fits in an `i64`, and the keys of every
/// dictionary are unique and in ascending lexicographic byte order.
pub open spec fn wf(v: BValue) -> bool
    decreases v,
{
    match v {
        BValue::Bytes(b) => true,
        BValue::Int(i) => i64::MIN <= i <= i64::MAX,
        BValue::List(items) => forall|i: int| 0 <= i < items.len() ==> wf(#[trigger] items[i]),
        BValue::Dict(pairs) => {
            &&& forall|i: int| 0 <= i < pairs.len() ==> wf(#[trigger] pairs[i].1)
            &&& forall|i: int|
                0 <= i && i + 1 < pairs.len() ==> lex_lt(#[trigger] pairs[i].0, pairs[i + 1].0)
        },
    }
}

/// The value under the first entry of `pairs` whose key is `key`.
pub open spec fn dict_get(pairs: Seq<(Seq<u8>, BValue)>, key: Seq<u8>) -> Option<BValue>
    decreases pairs.len(),
{
    if pairs.len() == 0 {
        None
    } else if pairs[0].0 == key {
        Some(pairs[0].1)
    } else {
        dict_get(pairs.drop_first(), key)
    }
}

/// Compares two byte vectors for equality of contents.
pub fn bytes_eq(a: &Vec<u8>, b: &Vec<u8>) -> (r: bool)
    ensures
        r == (a@ == b@),
{
    if a.len() != b.len() {
        return false;
    }
    let mut i: usize = 0;
    while i < a.len()
        invariant
            0 <= i <= a.len(),
            a@.len() == b@.len(),
            forall|j: int| 0 <= j < i ==> a@[j] == b@[j],
        decreases a.len() - i,
    {
        if a[i] != b[i] {
            return false;
        }
        i = i + 1;
    }
    proof {
        assert(a@ =~= b@);
    }
    true
}

/// Looks `key` up in the entries of a decoded dictionary, first match wins.
#[verifier::loop_isolation(false)]
pub fn find_key<'a>(pairs: &'a Vec<(Vec<u8>, BencodeValue)>, key: &Vec<u8>) -> (r: Option<
    &'a BencodeValue,
>)
    ensures
        match r {
            Some(v) => dict_get(pair_views(pairs@), key@) == Some(v@),
            None => dict_get(pair_views(pairs@), key@) is None,
        },
{
    proof {
        lemma_pair_views(pairs@);
        assert(pair_views(pairs@).skip(0int) =~= pair_views(pairs@));
    }
    let ghost all = pair_views(pairs@);
    let mut idx: usize = 0;
    while idx < pairs.len()
        invariant
            0 <= idx <= pairs@.len(),
            dict_get(all, key@) == dict_get(all.skip(idx as int), key@),
        decreases pairs@.len() - idx,
    {
        proof {
            assert(all.skip(idx as int)[0] == all[idx as int]);
            assert(all.skip(idx as int).drop_first() =~= all.skip(idx + 1));
        }
        if bytes_eq(&pairs[idx].0, key) {
            return Some(&pairs[idx].1);
        }
        idx = idx + 1;
    }
    proof {
        assert(all.skip(idx as int).len() == 0);
    }
    None
}

/// The error of the codec: the input is not a bencode document.
#[derive(Debug, Clone, Copy, PartialEq, Eq, Structural)]
pub enum BencodeError {
    Malformed,
}

pub proof fn lemma_dec_digits(n: nat)
    ensures
        canonical_digits(dec_digits(n)),
        digits_val(dec_digits(n)) == n,
        n >= 1 ==> dec_digits(n)[0] != 48,
    decreases n,
{
    if n < 10 {
        let d = (48 + n) as u8;
        assert(dec_digits(n) == seq![d]);
        assert(seq![d].drop_last() =~= Seq::<u8>::empty());
        assert(digits_val(Seq::<u8>::empty()) == 0);
        assert(seq![d].last() == d);
        assert(digits_val(seq![d]) == n);
    } else {
        lemma_dec_digits(n / 10);
        let prefix = dec_digits(n / 10);
        let d = (48 + n % 10) as u8;
        assert(dec_digits(n) == prefix.push(d));
        assert(prefix.push(d).drop_last() =~= prefix);
        assert(digits_val(prefix.push(d)) == (n / 10) * 10 + n % 10);
        assert((n / 10) * 10 + n % 10 == n);
        assert(forall|i: int|
            0 <= i < prefix.push(d).len() ==> is_ascii_digit(#[trigger] prefix.push(d)[i]));
    }
}

pub proof fn lemma_digit_run_concat(a: Seq<u8>, t: Seq<u8>)
    requires
        forall|i: int| 0 <= i < a.len() ==> is_ascii_digit(#[trigger] a[i]),
        t.len() == 0 || !is_ascii_digit(t[0]),
    ensures
        digit_run_len(a + t) == a.len(),
    decreases a.len(),
{
    if a.len() == 0 {
        assert(a + t =~= t);
    } else {
        assert((a + t)[0] == a[0]);
        assert((a + t).drop_first() =~= a.drop_first() + t);
        lemma_digit_run_concat(a.drop_first(), t);
    }
}

pub proof fn lemma_digits_val_mono(s: Seq<u8>, j: int, k: int)
    requires
        0 <= j <= k <= s.len(),
        forall|i: int| 0 <= i < k ==> is_ascii_digit(#[trigger] s[i]),
    ensures
        digits_val(s.take(j)) <= digits_val(s.take(k)),
    decreases k - j,
{
    if j < k {
        lemma_digits_val_mono(s, j, k - 1);
        assert(s.take(k).drop_last() =~= s.take(k - 1));
        assert(digits_val(s.take(k)) == digits_val(s.take(k - 1)) * 10 + (s[k - 1] - 48));
        assert(digits_val(s.take(k - 1)) * 10 >= digits_val(s.take(k - 1)));
    }
}

pub proof fn lemma_encoding_shape(v: BValue)
    ensures
        encoding(v).len() >= 2,
        encoding(v)[0] != 101,
        is_ascii_digit(encoding(v)[0]) || encoding(v)[0] == 105 || encoding(v)[0] == 108
            || encoding(v)[0] == 100,
{
    match v {
        BValue::Bytes(b) => {
            lemma_dec_digits(b.len());
            assert(encoding(v)[0] == dec_digits(b.len())[0]);
        },
        BValue::Int(i) => {
            if i < 0 {
                lemma_dec_digits((-i) as nat);
            } else {
                lemma_dec_digits(i as nat);
            }
        },
        BValue::List(items) => {},
        BValue::Dict(pairs) => {},
    }
}

pub proof fn lemma_item_views(s: Seq<BencodeValue>)
    ensures
        item_views(s).len() == s.len(),
        forall|i: int| 0 <= i < s.len() ==> item_views(s)[i] == view_of(#[trigger] s[i]),
    decreases s.len(),
{
    if s.len() > 0 {
        lemma_item_views(s.drop_first());
        assert forall|i: int| 0 <= i < s.len() implies item_views(s)[i] == view_of(
            #[trigger] s[i],
        ) by {
            if i > 0 {
                assert(item_views(s)[i] == item_views(s.drop_first())[i - 1]);
                assert(s.drop_first()[i - 1] == s[i]);
            }
        }
    }
}

pub proof fn lemma_item_views_push(s: Seq<BencodeValue>, x: BencodeValue)
    ensures
        item_views(s.push(x)) == item_views(s).push(view_of(x)),
{
    lemma_item_views(s.push(x));
    lemma_item_views(s);
    assert forall|i: int| 0 <= i < s.len() + 1 implies item_views(s.push(x))[i] == item_views(
        s,
    ).push(view_of(x))[i] by {
        if i < s.len() {
            assert(s.push(x)[i] == s[i]);
        } else {
            assert(s.push(x)[i] == x);
        }
    }
    assert(item_views(s.push(x)) =~= item_views(s).push(view_of(x)));
}

pub proof fn lemma_pair_views(s: Seq<(Vec<u8>, BencodeValue)>)
    ensures
        pair_views(s).len() == s.len(),
        forall|i: int|
            0 <= i < s.len() ==> pair_views(s)[i] == ((#[trigger] s[i]).0@, view_of(s[i].1)),
    decreases s.len(),
{
    if s.len() > 0 {
        lemma_pair_views(s.drop_first());
        assert forall|i: int| 0 <= i < s.len() implies pair_views(s)[i] == (
            (#[trigger] s[i]).0@,
            view_of(s[i].1),
        ) by {
            if i > 0 {
                assert(pair_views(s)[i] == pair_views(s.drop_first())[i - 1]);
                assert(s.drop_first()[i - 1] == s[i]);
            }
        }
    }
}

pub proof fn lemma_pair_views_push(s: Seq<(Vec<u8>, BencodeValue)>, x: (Vec<u8>, BencodeValue))
    ensures
        pair_views(s.push(x)) == pair_views(s).push((x.0@, view_of(x.1))),
{
    lemma_pair_views(s.push(x));
    lemma_pair_views(s);
    assert forall|i: int| 0 <= i < s.len() + 1 implies pair_views(s.push(x))[i] == pair_views(
        s,
    ).push((x.0@, view_of(x.1)))[i] by {
        if i < s.len() {
            assert(s.push(x)[i] == s[i]);
        } else {
            assert(s.push(x)[i] == x);
        }
    }
    assert(pair_views(s.push(x)) =~= pair_views(s).push((x.0@, view_of(x.1))));
}

pub proof fn lemma_encoding_of_items_push(s: Seq<BValue>, x: BValue)
    ensures
        encoding_of_items(s.push(x)) == encoding_of_items(s) + encoding(x),
    decreases s.len(),
{
    if s.len() == 0 {
        assert(s.push(x)[0] == x);
        assert(s.push(x).drop_first() =~= Seq::<BValue>::empty());
        assert(encoding_of_items(s.push(x)) == encoding(x) + encoding_of_items(
            Seq::<BValue>::empty(),
        ));
        assert(encoding(x) + Seq::<u8>::empty() =~= encoding(x));
        assert(Seq::<u8>::empty() + encoding(x) =~= encoding(x));
    } else {
        assert(s.push(x)[0] == s[0]);
        assert(s.push(x).drop_first() =~= s.drop_first().push(x));
        lemma_encoding_of_items_push(s.drop_first(), x);
        assert(encoding(s[0]) + (encoding_of_items(s.drop_first()) + encoding(x)) =~= (encoding(
            s[0],
        ) + encoding_of_items(s.drop_first())) + encoding(x));
    }
}

pub proof fn lemma_encoding_of_pairs_push(s: Seq<(Seq<u8>, BValue)>, x: (Seq<u8>, BValue))
    ensures
        encoding_of_pairs(s.push(x)) == encoding_of_pairs(s) + bytes_encoding(x.0) + encoding(x.1),
    decreases s.len(),
{
    if s.len() == 0 {
        assert(s.push(x)[0] == x);
        assert(s.push(x).drop_first() =~= Seq::<(Seq<u8>, BValue)>::empty());
        assert(encoding_of_pairs(s.push(x)) == bytes_encoding(x.0) + encoding(x.1)
            + encoding_of_pairs(Seq::<(Seq<u8>, BValue)>::empty()));
        assert(bytes_encoding(x.0) + encoding(x.1) + Seq::<u8>::empty() =~= bytes_encoding(x.0)
            + encoding(x.1));
        assert(Seq::<u8>::empty() + bytes_encoding(x.0) + encoding(x.1) =~= bytes_encoding(x.0)
            + encoding(x.1));
    } else {
        assert(s.push(x)[0] == s[0]);
        assert(s.push(x).drop_first() =~= s.drop_first().push(x));
        lemma_encoding_of_pairs_push(s.drop_first(), x);
        assert(bytes_encoding(s[0].0) + encoding(s[0].1) + (encoding_of_pairs(s.drop_first())
            + bytes_encoding(x.0) + encoding(x.1)) =~= (bytes_encoding(s[0].0) + encoding(s[0].1)
            + encoding_of_pairs(s.drop_first())) + bytes_encoding(x.0) + encoding(x.1));
    }
}

/// Appends the digits of `n` in decimal, most significant first.
pub(crate) fn push_decimal(n: u64, out: &mut Vec<u8>)
    ensures
        final(out)@ == old(out)@ + dec_digits(n as nat),
    decreases n,
{
    if n < 10 {
        out.push(48 + (n as u8));
        assert(out@ =~= old(out)@ + dec_digits(n as nat));
    } else {
        push_decimal(n / 10, out);
        out.push(48 + ((n % 10) as u8));
        assert(out@ =~= old(out)@ + dec_digits((n / 10) as nat).push((48 + (n as nat) % 10) as u8));
    }
}

/// Appends every byte of `b`.
pub(crate) fn append_bytes(out: &mut Vec<u8>, b: &Vec<u8>)
    ensures
        final(out)@ == old(out)@ + b@,
{
    let mut i: usize = 0;
    while i < b.len()
        invariant
            i <= b.len(),
            out@ == old(out)@ + b@.take(i as int),
        decreases b.len() - i,
    {
        out.push(b[i]);
        proof {
            assert(b@.take(i + 1) =~= b@.take(i as int).push(b@[i as int]));
            assert(old(out)@ + b@.take(i as int).push(b@[i as int]) =~= (old(out)@ + b@.take(
                i as int,
            )).push(b@[i as int]));
        }
        i = i + 1;
    }
    assert(b@.take(b@.len() as int) =~= b@);
}

/// Appends the encoding of a byte string: decimal length, colon, bytes.
fn append_bytestring(out: &mut Vec<u8>, b: &Vec<u8>)
    ensures
        final(out)@ == old(out)@ + bytes_encoding(b@),
{
    push_decimal(b.len() as u64, out);
    out.push(58);
    append_bytes(out, b);
    assert(out@ =~= old(out)@ + bytes_encoding(b@));
}

/// Appends the canonical encoding of `v`.
#[verifier::loop_isolation(false)]
fn encode_into(v: &BencodeValue, out: &mut Vec<u8>)
    ensures
        final(out)@ == old(out)@ + encoding(v@),
    decreases v,
{
    match v {
        BencodeValue::ByteString(b) => {
            append_bytestring(out, b);
        },
        BencodeValue::Integer(i) => {
            out.push(105);
            let value = *i;
            let mag: u64 = if value < 0 {
                out.push(45);
                if value == i64::MIN {
                    9223372036854775808u64
                } else {
                    (-value) as u64
                }
            } else {
                value as u64
            };
            push_decimal(mag, out);
            out.push(101);
            proof {
                if value < 0 {
                    assert(mag as nat == (-(value as int)) as nat);
                }
                assert(out@ =~= old(out)@ + encoding(v@));
            }
        },
        BencodeValue::List(items) => {
            out.push(108);
            let ghost head = out@;
            let mut idx: usize = 0;
            while idx < items.len()
                invariant
                    idx <= items.len(),
                    out@ == head + encoding_of_items(item_views(items@.take(idx as int))),
                decreases items.len() - idx,
            {
                proof {
                    assert(encoding_of_items(item_views(items@.take(0int))) =~= Seq::<u8>::empty());
                    vstd::std_specs::vec::axiom_vec_index_decreases(*items, idx as int);
                    assert(decreases_to!(*v => *items));
                    assert(decreases_to!(*v => items@[idx as int]));
                }
                encode_into(&items[idx], out);
                proof {
                    assert(items@.take(idx + 1) =~= items@.take(idx as int).push(
                        items@[idx as int],
                    ));
                    lemma_item_views_push(items@.take(idx as int), items@[idx as int]);
                    lemma_encoding_of_items_push(
                        item_views(items@.take(idx as int)),
                        view_of(items@[idx as int]),
                    );
                    assert(head + (encoding_of_items(item_views(items@.take(idx as int)))
                        + encoding(view_of(items@[idx as int]))) =~= (head + encoding_of_items(
                        item_views(items@.take(idx as int)),
                    )) + encoding(view_of(items@[idx as int])));
                }
                idx = idx + 1;
            }
            out.push(101);
            proof {
                assert(items@.take(items@.len() as int) =~= items@);
                assert(out@ =~= old(out)@ + encoding(v@));
            }
        },
        BencodeValue::Dictionary(pairs) => {
            out.push(100);
            let ghost head = out@;
            let mut idx: usize = 0;
            while idx < pairs.len()
                invariant
                    idx <= pairs.len(),
                    out@ == head + encoding_of_pairs(pair_views(pairs@.take(idx as int))),
                decreases pairs.len() - idx,
            {
                proof {
                    assert(encoding_of_pairs(pair_views(pairs@.take(0int))) =~= Seq::<u8>::empty());
                    vstd::std_specs::vec::axiom_vec_index_decreases(*pairs, idx as int);
                    assert(decreases_to!(*v => *pairs));
                    assert(decreases_to!(pairs@[idx as int] => pairs@[idx as int].1));
                    assert(decreases_to!(*v => pairs@[idx as int].1));
                }
                append_bytestring(out, &pairs[idx].0);
                encode_into(&pairs[idx].1, out);
                proof {
                    let p = pairs@[idx as int];
                    assert(pairs@.take(idx + 1) =~= pairs@.take(idx as int).push(p));
                    lemma_pair_views_push(pairs@.take(idx as int), p);
                    lemma_encoding_of_pairs_push(
                        pair_views(pairs@.take(idx as int)),
                        (p.0@, view_of(p.1)),
                    );
                    assert(head + encoding_of_pairs(pair_views(pairs@.take(idx as int)))
                        + bytes_encoding(p.0@) + encoding(view_of(p.1)) =~= head + (
                    encoding_of_pairs(pair_views(pairs@.take(idx as int))) + bytes_encoding(p.0@)
                        + encoding(view_of(p.1))));
                }
                idx = idx + 1;
            }
            out.push(101);
            proof {
                assert(pairs@.take(pairs@.len() as int) =~= pairs@);
                assert(out@ =~= old(out)@ + encoding(v@));
            }
        },
    }
}

pub proof fn lemma_digit_run_chars(s: Seq<u8>, k: int)
    requires
        0 <= k <= s.len(),
        forall|i: int| 0 <= i < k ==> is_ascii_digit(#[trigger] s[i]),
        k == s.len() || !is_ascii_digit(s[k]),
    ensures
        digit_run_len(s) == k,
    decreases k,
{
    if k > 0 {
        assert(is_ascii_digit(s[0]));
        assert forall|i: int| 0 <= i < k - 1 implies is_ascii_digit(
            #[trigger] s.drop_first()[i],
        ) by {
            assert(s.drop_first()[i] == s[i + 1]);
        }
        if k - 1 < s.drop_first().len() {
            assert(s.drop_first()[k - 1] == s[k]);
        }
        lemma_digit_run_chars(s.drop_first(), k - 1);
    }
}

/// Scans the run of ASCII digits that starts at `start`.
#[verifier::loop_isolation(false)]
fn scan_digits(input: &[u8], start: usize) -> (j: usize)
    requires
        start <= input@.len(),
    ensures
        start <= j <= input@.len(),
        digit_run_len(input@.skip(start as int)) == j - start,
        forall|i: int| start <= i < j ==> is_ascii_digit(#[trigger] input@[i]),
        j == input@.len() || !is_ascii_digit(input@[j as int]),
{
    let mut j = start;
    while j < input.len() && input[j] >= 48 && input[j] <= 57
        invariant
            start <= j <= input@.len(),
            forall|i: int| start <= i < j ==> is_ascii_digit(#[trigger] input@[i]),
        decreases input@.len() - j,
    {
        j = j + 1;
    }
    proof {
        let u = input@.skip(start as int);
        assert forall|i: int| 0 <= i < j - start implies is_ascii_digit(#[trigger] u[i]) by {
            assert(u[i] == input@[start + i]);
        }
        if j - start < u.len() {
            assert(u[j - start] == input@[j as int]);
        }
        lemma_digit_run_chars(u, j - start);
    }
    j
}

/// Computes the value of the digit run `input[start .. start + k]`, refusing
/// values above `cap`.
#[verifier::loop_isolation(false)]
fn digits_value_capped(input: &[u8], start: usize, k: usize, cap: u128) -> (r: Option<u128>)
    requires
        start + k <= input@.len(),
        cap <= 0xffff_ffff_ffff_ffffu128,
        forall|i: int| start <= i < start + k ==> is_ascii_digit(#[trigger] input@[i]),
    ensures
        match r {
            Some(val) => val as nat == digits_val(
                input@.skip(start as int).take(k as int),
            ) && val <= cap,
            None => digits_val(input@.skip(start as int).take(k as int)) > cap,
        },
{
    let ghost u = input@.skip(start as int);
    let ilen = input.len();
    assert(start + k <= ilen);
    proof {
        assert forall|i: int| 0 <= i < k implies is_ascii_digit(#[trigger] u[i]) by {
            assert(u[i] == input@[start + i]);
        }
        assert(u.take(0int) =~= Seq::<u8>::empty());
    }
    let mut acc: u128 = 0;
    let mut i: usize = 0;
    while i < k
        invariant
            0 <= i <= k,
            acc <= cap,
            acc as nat == digits_val(u.take(i as int)),
        decreases k - i,
    {
        let d = input[start + i];
        proof {
            assert(u[i as int] == input@[start + i]);
            assert(u.take(i + 1).drop_last() =~= u.take(i as int));
            assert(u.take(i + 1).last() == u[i as int]);
            assert(digits_val(u.take(i + 1)) == digits_val(u.take(i as int)) * 10 + (d - 48));
        }
        let next = acc * 10 + ((d - 48) as u128);
        if next > cap {
            proof {
                lemma_digits_val_mono(u, i + 1, k as int);
            }
            return None;
        }
        acc = next;
        i = i + 1;
    }
    Some(acc)
}

/// Decodes an integer frame `i<digits>e` whose `i` stands at `from`.
#[verifier::loop_isolation(false)]
fn decode_int(input: &[u8], from: usize) -> (r: Result<(BencodeValue, usize), BencodeError>)
    requires
        from < input@.len(),
        input@[from as int] == 105,
    ensures
        match r {
            Ok((v, end)) => {
                &&& bdec_int(input@.skip(from as int)) == Some((v@, (end - from) as nat))
                &&& from < end <= input@.len()
            },
            Err(_) => bdec_int(input@.skip(from as int)) is None,
        },
{
    let ghost s = input@.skip(from as int);
    let ilen = input.len();
    assert(from < ilen);
    proof {
        assert(s.drop_first() =~= input@.skip(from + 1));
    }
    let neg = from + 1 < input.len() && input[from + 1] == 45;
    let num_start = if neg {
        from + 2
    } else {
        from + 1
    };
    let ghost t = input@.skip(from + 1);
    let ghost u = input@.skip(num_start as int);
    proof {
        if neg {
            assert(t[0] == input@[from + 1]);
            assert(t.drop_first() =~= input@.skip(from + 2));
        }
    }
    let j = scan_digits(input, num_start);
    let k = j - num_start;
    proof {
        assert forall|i: int| 0 <= i < k implies is_ascii_digit(#[trigger] u[i]) by {
            assert(u[i] == input@[num_start + i]);
        }
    }
    if k == 0 {
        proof {
            assert(u.take(0int) =~= Seq::<u8>::empty());
        }
        return Err(BencodeError::Malformed);
    }
    assert(u[0] == input@[num_start as int]);
    assert(u.take(k as int)[0] == u[0]);
    if k > 1 && input[num_start] == 48 {
        return Err(BencodeError::Malformed);
    }
    if neg && input[num_start] == 48 {
        proof {
            assert(canonical_digits(u.take(k as int)));
        }
        return Err(BencodeError::Malformed);
    }
    proof {
        assert(canonical_digits(u.take(k as int)));
    }
    let mag_opt = digits_value_capped(input, num_start, k, 9223372036854775808u128);
    let mag = match mag_opt {
        Some(m) => m,
        None => {
            proof {
                let m = digits_val(u.take(k as int));
                assert(m > 9223372036854775808u128);
                assert(!(i64::MIN <= -(m as int)));
                assert(!(m as int <= i64::MAX));
            }
            return Err(BencodeError::Malformed);
        },
    };
    if !neg && mag > 0x7fff_ffff_ffff_ffffu128 {
        return Err(BencodeError::Malformed);
    }
    if j == input.len() || input[j] != 101 {
        proof {
            if j < input@.len() {
                assert(u[k as int] == input@[num_start + k]);
            }
        }
        return Err(BencodeError::Malformed);
    }
    assert(u[k as int] == input@[j as int]);
    let value: i64 = if neg {
        if mag == 9223372036854775808u128 {
            i64::MIN
        } else {
            -((mag as u64) as i64)
        }
    } else {
        mag as i64
    };
    proof {
        let m = digits_val(u.take(k as int));
        if neg {
            assert(value as int == -(m as int));
        } else {
            assert(value as int == m as int);
        }
    }
    Ok((BencodeValue::Integer(value), j + 1))
}

/// Decodes a byte-string frame `<digits>:<bytes>` whose first digit stands at
/// `from`.
#[verifier::loop_isolation(false)]
fn decode_bytestring(input: &[u8], from: usize) -> (r: Result<
    (BencodeValue, usize),
    BencodeError,
>)
    requires
        from < input@.len(),
        is_ascii_digit(input@[from as int]),
    ensures
        match r {
            Ok((v, end)) => {
                &&& bdec_bytes(input@.skip(from as int)) == Some((v@, (end - from) as nat))
                &&& from < end <= input@.len()
            },
            Err(_) => bdec_bytes(input@.skip(from as int)) is None,
        },
{
    let ghost s = input@.skip(from as int);
    let j = scan_digits(input, from);
    let k = j - from;
    proof {
        assert forall|i: int| 0 <= i < k implies is_ascii_digit(#[trigger] s[i]) by {
            assert(s[i] == input@[from + i]);
        }
        assert(s[0] == input@[from as int]);
        assert(k >= 1) by {
            if k == 0 {
                assert(!is_ascii_digit(s[0]));
            }
        }
        assert(s.take(k as int)[0] == s[0]);
    }
    if k > 1 && input[from] == 48 {
        return Err(BencodeError::Malformed);
    }
    proof {
        assert(canonical_digits(s.take(k as int)));
    }
    let len_opt = digits_value_capped(input, from, k, input.len() as u128);
    let n = match len_opt {
        Some(v) => v as usize,
        None => {
            proof {
                assert(digits_val(s.take(k as int)) > input@.len());
            }
            return Err(BencodeError::Malformed);
        },
    };
    if j == input.len() || input[j] != 58 {
        proof {
            if j < input@.len() {
                assert(s[k as int] == input@[from + k]);
            }
        }
        return Err(BencodeError::Malformed);
    }
    assert(s[k as int] == input@[j as int]);
    if n > input.len() - (j + 1) {
        return Err(BencodeError::Malformed);
    }
    let content = vstd::slice::slice_to_vec(vstd::slice::slice_subrange(input, j + 1, j + 1 + n));
    proof {
        assert(content@ =~= s.subrange(k + 1 as int, (k + 1 + n) as int));
    }
    Ok((BencodeValue::ByteString(content), j + 1 + n))
}

/// Decodes one bencode value from `input` starting at position `from`. `Ok`
/// carries the value and the position just past its last byte; `Err` is
/// returned if and only if no value can be decoded there, exactly as `bdec`
/// says.
#[verifier::loop_isolation(false)]
#[verifier::rlimit(100)]
pub fn decode(input: &[u8], from: usize) -> (r: Result<(BencodeValue, usize), BencodeError>)
    requires
        from <= input@.len(),
    ensures
        match r {
            Ok((v, end)) => {
                &&& bdec(input@.skip(from as int)) == Some((v@, (end - from) as nat))
                &&& from < end <= input@.len()
            },
            Err(_) => bdec(input@.skip(from as int)) is None,
        },
    decreases input@.len() - from,
{
    let ghost s = input@.skip(from as int);
    if from == input.len() {
        assert(s.len() == 0);
        return Err(BencodeError::Malformed);
    }
    let b = input[from];
    assert(b == s[0]);
    if b == 105 {
        decode_int(input, from)
    } else if b == 108 {
        let mut items: Vec<BencodeValue> = Vec::new();
        let mut cur: usize = from + 1;
        proof {
            assert(s.drop_first() =~= input@.skip(from + 1));
            assert(item_views(items@) =~= Seq::<BValue>::empty());
        }
        loop
            invariant
                from + 1 <= cur <= input@.len(),
                ({
                    let tail = input@.skip(cur as int);
                    let body = input@.skip(from + 1);
                    match bdec_items(tail) {
                        Some((vs, m)) => bdec_items(body) == Some::<(Seq<BValue>, nat)>(
                            (item_views(items@) + vs, ((cur - (from + 1)) + m) as nat),
                        ),
                        None => bdec_items(body) is None,
                    }
                }),
            decreases input@.len() - cur,
        {
            if cur == input.len() {
                proof {
                    assert(input@.skip(cur as int).len() == 0);
                }
                return Err(BencodeError::Malformed);
            }
            let ghost tail = input@.skip(cur as int);
            assert(tail[0] == input@[cur as int]);
            if input[cur] == 101 {
                proof {
                    assert(bdec_items(tail) == Some::<(Seq<BValue>, nat)>(
                        (Seq::<BValue>::empty(), 1nat),
                    ));
                    assert(item_views(items@) + Seq::<BValue>::empty() =~= item_views(items@));
                }
                return Ok((BencodeValue::List(items), cur + 1));
            }
            match decode(input, cur) {
                Err(e) => {
                    return Err(e);
                },
                Ok((v, nend)) => {
                    proof {
                        assert(tail.skip((nend - cur) as int) =~= input@.skip(nend as int));
                    }
                    let ghost gv = v;
                    let ghost prev = items@;
                    items.push(v);
                    cur = nend;
                    proof {
                        lemma_item_views_push(prev, gv);
                        match bdec_items(input@.skip(cur as int)) {
                            Some((vs, m)) => {
                                assert(prev.push(gv) == items@);
                                assert(item_views(prev) + (seq![view_of(gv)] + vs) =~= item_views(
                                    items@,
                                ) + vs);
                            },
                            None => {},
                        }
                    }
                },
            }
        }
    } else if b == 100 {
        let mut pairs: Vec<(Vec<u8>, BencodeValue)> = Vec::new();
        let mut cur: usize = from + 1;
        proof {
            assert(s.drop_first() =~= input@.skip(from + 1));
            assert(pair_views(pairs@) =~= Seq::<(Seq<u8>, BValue)>::empty());
        }
        loop
            invariant
                from + 1 <= cur <= input@.len(),
                ({
                    let tail = input@.skip(cur as int);
                    let body = input@.skip(from + 1);
                    match bdec_pairs(tail) {
                        Some((ps, m)) => bdec_pairs(body) == Some::<
                            (Seq<(Seq<u8>, BValue)>, nat),
                        >((pair_views(pairs@) + ps, ((cur - (from + 1)) + m) as nat)),
                        None => bdec_pairs(body) is None,
                    }
                }),
            decreases input@.len() - cur,
        {
            if cur == input.len() {
                proof {
                    assert(input@.skip(cur as int).len() == 0);
                }
                return Err(BencodeError::Malformed);
            }
            let ghost tail = input@.skip(cur as int);
            assert(tail[0] == input@[cur as int]);
            if input[cur] == 101 {
                proof {
                    assert(bdec_pairs(tail) == Some::<(Seq<(Seq<u8>, BValue)>, nat)>(
                        (Seq::<(Seq<u8>, BValue)>::empty(), 1nat),
                    ));
                    assert(pair_views(pairs@) + Seq::<(Seq<u8>, BValue)>::empty() =~= pair_views(
                        pairs@,
                    ));
                }
                return Ok((BencodeValue::Dictionary(pairs), cur + 1));
            }
            let (key, kend) = match decode(input, cur) {
                Err(e) => {
                    return Err(e);
                },
                Ok(p) => p,
            };
            let kb = match key {
                BencodeValue::ByteString(kb) => kb,
                other => {
                    proof {
                        assert(!(view_of(other) is Bytes));
                    }
                    return Err(BencodeError::Malformed);
                },
            };
            proof {
                assert(tail.skip((kend - cur) as int) =~= input@.skip(kend as int));
            }
            let (val, vend) = match decode(input, kend) {
                Err(e) => {
                    return Err(e);
                },
                Ok(p) => p,
            };
            proof {
                assert(tail.skip((vend - cur) as int) =~= input@.skip(vend as int));
            }
            let ghost gkb = kb;
            let ghost gval = val;
            let ghost prev = pairs@;
            pairs.push((kb, val));
            cur = vend;
            proof {
                lemma_pair_views_push(prev, (gkb, gval));
                match bdec_pairs(input@.skip(cur as int)) {
                    Some((ps, m)) => {
                        assert(pair_views(prev) + (seq![(gkb@, view_of(gval))] + ps) =~= pair_views(
                            pairs@,
                        ) + ps);
                    },
                    None => {},
                }
            }
        }
    } else if b >= 48 && b <= 57 {
        decode_bytestring(input, from)
    } else {
        assert(bdec(s) is None);
        Err(BencodeError::Malformed)
    }
}

pub proof fn lemma_round_trip_bytes(b: Seq<u8>, rest: Seq<u8>)
    ensures
        bdec(bytes_encoding(b) + rest) == Some((BValue::Bytes(b), bytes_encoding(b).len())),
{
    let e = bytes_encoding(b);
    let s = e + rest;
    let dd = dec_digits(b.len());
    lemma_dec_digits(b.len());
    let k = dd.len() as int;
    assert(s =~= dd + (seq![58u8] + b + rest));
    lemma_digit_run_concat(dd, seq![58u8] + b + rest);
    assert(s[0] == dd[0]);
    assert(is_ascii_digit(s[0]));
    assert(s.take(k) =~= dd);
    assert(digits_val(s.take(k)) == b.len());
    assert(s[k] == 58);
    assert(s.len() >= k + 1 + b.len());
    assert(s.subrange(k + 1, k + 1 + b.len() as int) =~= b);
    assert(bdec_bytes(s) == Some((BValue::Bytes(b), (k + 1 + b.len()) as nat)));
    assert(bdec(s) == bdec_bytes(s));
}

#[verifier::rlimit(60)]
pub proof fn lemma_round_trip_at(v: BValue, rest: Seq<u8>)
    requires
        wf(v),
    ensures
        bdec(encoding(v) + rest) == Some((v, encoding(v).len())),
    decreases v, 0int,
{
    let e = encoding(v);
    let s = e + rest;
    match v {
        BValue::Bytes(b) => {
            lemma_round_trip_bytes(b, rest);
        },
        BValue::Int(i) => {
            let lit = int_literal(i);
            assert(s[0] == 105);
            let t = s.drop_first();
            assert(t =~= lit + seq![101u8] + rest);
            if i < 0 {
                let dd = dec_digits((-i) as nat);
                lemma_dec_digits((-i) as nat);
                assert(lit == seq![45u8] + dd);
                assert(t[0] == 45);
                assert(t.len() > 0);
                let u = t.drop_first();
                assert(u =~= dd + (seq![101u8] + rest));
                lemma_digit_run_concat(dd, seq![101u8] + rest);
                let k = dd.len() as int;
                assert(u.take(k) =~= dd);
                assert(u[0] == dd[0]);
                assert(u[0] != 48);
                assert(digits_val(u.take(k)) == (-i) as nat);
                assert(u[k] == 101);
                assert(u.len() > k);
                assert(-(((-i) as nat) as int) == i);
                assert(bdec_int(s) == Some((BValue::Int(i), (1 + 1 + k + 1) as nat)));
                assert(e.len() == 1 + (1 + dd.len()) + 1);
                assert(bdec(s) == bdec_int(s));
            } else {
                let dd = dec_digits(i as nat);
                lemma_dec_digits(i as nat);
                assert(lit == dd);
                assert(t[0] == dd[0]);
                assert(is_ascii_digit(t[0]));
                assert(t[0] != 45);
                assert(t =~= dd + (seq![101u8] + rest));
                lemma_digit_run_concat(dd, seq![101u8] + rest);
                let k = dd.len() as int;
                assert(t.take(k) =~= dd);
                assert(digits_val(t.take(k)) == i as nat);
                assert(t[k] == 101);
                assert(t.len() > k);
                assert(bdec_int(s) == Some((BValue::Int(i), (1 + 0 + k + 1) as nat)));
                assert(e.len() == 1 + dd.len() + 1);
                assert(bdec(s) == bdec_int(s));
            }
        },
        BValue::List(items) => {
            assert(s[0] == 108);
            let ei = encoding_of_items(items);
            lemma_round_trip_items(items, rest);
            assert(s.drop_first() =~= ei + seq![101u8] + rest);
            assert(e.len() == 1 + ei.len() + 1);
        },
        BValue::Dict(pairs) => {
            assert(s[0] == 100);
            let ep = encoding_of_pairs(pairs);
            lemma_round_trip_pairs(pairs, rest);
            assert(s.drop_first() =~= ep + seq![101u8] + rest);
            assert(e.len() == 1 + ep.len() + 1);
        },
    }
}

pub proof fn lemma_round_trip_items(items: Seq<BValue>, rest: Seq<u8>)
    requires
        forall|i: int| 0 <= i < items.len() ==> wf(#[trigger] items[i]),
    ensures
        bdec_items(encoding_of_items(items) + seq![101u8] + rest) == Some(
            (items, (encoding_of_items(items).len() + 1) as nat),
        ),
    decreases items, 1int,
{
    let ei = encoding_of_items(items);
    let s = ei + seq![101u8] + rest;
    if items.len() == 0 {
        assert(s[0] == 101);
        assert(s.len() >= 1);
        assert(items =~= Seq::<BValue>::empty());
    } else {
        let head = items[0];
        let e0 = encoding(head);
        let tail_rest = encoding_of_items(items.drop_first()) + seq![101u8] + rest;
        assert(ei == e0 + encoding_of_items(items.drop_first()));
        lemma_encoding_shape(head);
        assert(s =~= e0 + tail_rest);
        assert(s[0] == e0[0]);
        assert(s[0] != 101);
        lemma_round_trip_at(head, tail_rest);
        assert(bdec(s) == Some((head, e0.len())));
        let n0 = e0.len() as int;
        assert(1 <= n0 <= s.len());
        assert(s.skip(n0) =~= tail_rest);
        assert forall|i: int| 0 <= i < items.drop_first().len() implies wf(
            #[trigger] items.drop_first()[i],
        ) by {
            assert(items.drop_first()[i] == items[i + 1]);
        }
        lemma_round_trip_items(items.drop_first(), rest);
        assert(seq![head] + items.drop_first() =~= items);
        assert(n0 + (encoding_of_items(items.drop_first()).len() + 1) == ei.len() + 1);
    }
}

#[verifier::rlimit(60)]
pub proof fn lemma_round_trip_pairs(pairs: Seq<(Seq<u8>, BValue)>, rest: Seq<u8>)
    requires
        forall|i: int| 0 <= i < pairs.len() ==> wf((#[trigger] pairs[i]).1),
    ensures
        bdec_pairs(encoding_of_pairs(pairs) + seq![101u8] + rest) == Some(
            (pairs, (encoding_of_pairs(pairs).len() + 1) as nat),
        ),
    decreases pairs, 1int,
{
    let ep = encoding_of_pairs(pairs);
    let s = ep + seq![101u8] + rest;
    if pairs.len() == 0 {
        assert(s[0] == 101);
        assert(s.len() >= 1);
        assert(pairs =~= Seq::<(Seq<u8>, BValue)>::empty());
    } else {
        let key = pairs[0].0;
        let value = pairs[0].1;
        let ek = bytes_encoding(key);
        let ev = encoding(value);
        let ep1 = encoding_of_pairs(pairs.drop_first());
        assert(ep == ek + ev + ep1);
        let after_key = ev + (ep1 + seq![101u8] + rest);
        let after_value = ep1 + seq![101u8] + rest;
        lemma_dec_digits(key.len());
        assert(s =~= ek + after_key);
        assert(s[0] == ek[0]);
        assert(ek[0] == dec_digits(key.len())[0]);
        assert(is_ascii_digit(s[0]));
        assert(s[0] != 101);
        lemma_round_trip_bytes(key, after_key);
        assert(bdec(s) == Some((BValue::Bytes(key), ek.len())));
        let kn = ek.len() as int;
        assert(kn >= 2);
        assert(1 <= kn <= s.len());
        assert(s.skip(kn) =~= after_key);
        lemma_encoding_shape(value);
        lemma_round_trip_at(value, after_value);
        assert(after_key =~= ev + after_value);
        assert(bdec(s.skip(kn)) == Some((value, ev.len())));
        let vn = ev.len() as int;
        assert(vn >= 1);
        assert(kn + vn <= s.len());
        assert(s.skip(kn + vn) =~= after_value);
        assert forall|i: int| 0 <= i < pairs.drop_first().len() implies wf(
            (#[trigger] pairs.drop_first()[i]).1,
        ) by {
            assert(pairs.drop_first()[i] == pairs[i + 1]);
        }
        lemma_round_trip_pairs(pairs.drop_first(), rest);
        assert((key, value) == pairs[0]);
        assert(seq![pairs[0]] + pairs.drop_first() =~= pairs);
        assert(kn + vn + (ep1.len() + 1) == ep.len() + 1);
    }
}

/// The round-trip law: for any well-formed tree (its dictionary keys in
/// ascending lexicographic order and its integers within the `i64` range),
/// decoding the canonical encoding yields the tree itself and consumes every
/// byte, leaving an empty remainder.
pub proof fn lemma_decode_encode_round_trip(v: BValue)
    requires
        wf(v),
    ensures
        bdec(encoding(v)) == Some((v, encoding(v).len())),
{
    lemma_round_trip_at(v, Seq::empty());
    assert(encoding(v) + Seq::<u8>::empty() =~= encoding(v));
}

/// Encodes `v` into its canonical bencode byte sequence.
pub fn encode(v: &BencodeValue) -> (r: Vec<u8>)
    ensures
        r@ == encoding(v@),
{
    let mut out: Vec<u8> = Vec::new();
    encode_into(v, &mut out);
    assert(out@ =~= encoding(v@));
    out
}

} // verus!
