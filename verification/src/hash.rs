use vstd::prelude::*;

use vstd::utf8::encode_utf8;

use crate::errors::FumError;

verus! {

/// The digest of a byte sequence under the one-way hash function.
///
/// The function is deterministic: the digest is a function of the input
/// bytes alone, so it is left abstract here and pinned down only by the
/// trusted wrapper [`compute_sha256`].
pub uninterp spec fn sha256_of(data: Seq<u8>) -> Seq<u8>;

/// Number of bytes in a digest.
pub const DIGEST_LEN: usize = 32;

/// A fixed-length 256-bit digest.
///
/// Equality is byte-exact; two digests are ordered by byte-lexicographic
/// comparison ([`lex_lt`]).
#[derive(Debug)]
pub struct Digest {
    bytes: Vec<u8>,
}

impl View for Digest {
    type V = Seq<u8>;

    closed spec fn view(&self) -> Seq<u8> {
        self.bytes@
    }
}

/// Byte-lexicographic strict order on byte sequences: a strict prefix is
/// smaller, otherwise the first differing byte decides.
pub open spec fn lex_lt(a: Seq<u8>, b: Seq<u8>) -> bool
    decreases a.len(),
{
    if b.len() == 0 {
        false
    } else if a.len() == 0 {
        true
    } else if a[0] < b[0] {
        true
    } else if a[0] == b[0] {
        lex_lt(a.drop_first(), b.drop_first())
    } else {
        false
    }
}

/// The reflexive closure of [`lex_lt`].
pub open spec fn lex_leq(a: Seq<u8>, b: Seq<u8>) -> bool {
    a == b || lex_lt(a, b)
}

/// [`lex_leq`] as a relation value, for use with ordering lemmas.
pub open spec fn lex_leq_rel() -> spec_fn(Seq<u8>, Seq<u8>) -> bool {
    |a: Seq<u8>, b: Seq<u8>| lex_leq(a, b)
}

/// A sequence cannot be byte-lexicographically below itself.
pub proof fn lemma_lex_lt_irreflexive(a: Seq<u8>)
    ensures
        !lex_lt(a, a),
    decreases a.len(),
{
    if a.len() > 0 {
        lemma_lex_lt_irreflexive(a.drop_first());
    }
}

/// At most one of `lex_lt(a, b)` and `lex_lt(b, a)` holds.
pub proof fn lemma_lex_lt_asymmetric(a: Seq<u8>, b: Seq<u8>)
    ensures
        !(lex_lt(a, b) && lex_lt(b, a)),
    decreases a.len(),
{
    if a.len() > 0 && b.len() > 0 && a[0] == b[0] {
        lemma_lex_lt_asymmetric(a.drop_first(), b.drop_first());
    }
}

/// If neither sequence is below the other, they are equal.
pub proof fn lemma_lex_lt_connected(a: Seq<u8>, b: Seq<u8>)
    ensures
        !lex_lt(a, b) && !lex_lt(b, a) ==> a == b,
    decreases a.len(),
{
    if !lex_lt(a, b) && !lex_lt(b, a) {
        if a.len() == 0 {
            assert(b.len() == 0);
            assert(a =~= b);
        } else {
            assert(b.len() > 0);
            assert(a[0] == b[0]);
            lemma_lex_lt_connected(a.drop_first(), b.drop_first());
            assert(a.drop_first() =~= b.drop_first());
            assert forall|i: int| 0 <= i < a.len() implies a[i] == b[i] by {
                if i > 0 {
                    assert(a[i] == a.drop_first()[i - 1]);
                    assert(b[i] == b.drop_first()[i - 1]);
                }
            }
            assert(a =~= b);
        }
    }
}

/// Byte-lexicographic order is transitive.
pub proof fn lemma_lex_lt_transitive(a: Seq<u8>, b: Seq<u8>, c: Seq<u8>)
    ensures
        lex_lt(a, b) && lex_lt(b, c) ==> lex_lt(a, c),
    decreases a.len(),
{
    if lex_lt(a, b) && lex_lt(b, c) {
        if a.len() > 0 && b.len() > 0 && c.len() > 0 {
            if a[0] == b[0] && b[0] == c[0] {
                lemma_lex_lt_transitive(a.drop_first(), b.drop_first(), c.drop_first());
            }
        }
    }
}

/// [`lex_leq`] is a total ordering, as the sorting lemmas of vstd require.
pub proof fn lemma_lex_leq_total_ordering()
    ensures
        vstd::relations::total_ordering(lex_leq_rel()),
{
    let r = lex_leq_rel();
    assert forall|x: Seq<u8>| #[trigger] r(x, x) by {}
    assert forall|x: Seq<u8>, y: Seq<u8>| #[trigger] r(x, y) && #[trigger] r(y, x) implies x == y by {
        lemma_lex_lt_asymmetric(x, y);
    }
    assert forall|x: Seq<u8>, y: Seq<u8>, z: Seq<u8>|
        #[trigger] r(x, y) && #[trigger] r(y, z) implies r(x, z) by {
        lemma_lex_lt_transitive(x, y, z);
    }
    assert forall|x: Seq<u8>, y: Seq<u8>| #[trigger] r(x, y) || #[trigger] r(y, x) by {
        lemma_lex_lt_connected(x, y);
    }
}

/// Extending a common prefix does not change the comparison of the rest.
pub proof fn lemma_lex_lt_common_prefix(a: Seq<u8>, b: Seq<u8>, i: int)
    requires
        0 <= i <= a.len(),
        i <= b.len(),
        forall|j: int| 0 <= j < i ==> a[j] == b[j],
    ensures
        lex_lt(a, b) == lex_lt(a.skip(i), b.skip(i)),
    decreases i,
{
    if i > 0 {
        assert(a.len() > 0 && b.len() > 0 && a[0] == b[0]);
        assert(lex_lt(a, b) == lex_lt(a.drop_first(), b.drop_first()));
        lemma_lex_lt_common_prefix(a.drop_first(), b.drop_first(), i - 1);
        assert(a.drop_first().skip(i - 1) =~= a.skip(i));
        assert(b.drop_first().skip(i - 1) =~= b.skip(i));
    } else {
        assert(a.skip(0) =~= a);
        assert(b.skip(0) =~= b);
    }
}

/// Whether two byte vectors hold the same bytes.
pub fn bytes_eq(a: &Vec<u8>, b: &Vec<u8>) -> (r: bool)
    ensures
        r == (a@ == b@),
{
    if a.len() != b.len() {
        return false;
    }
    let mut i: usize = 0;
    while i < a.len()
        invariant
            i <= a@.len(),
            a@.len() == b@.len(),
            forall|j: int| 0 <= j < i ==> a@[j] == b@[j],
        decreases a@.len() - i,
    {
        if a[i] != b[i] {
            return false;
        }
        i = i + 1;
    }
    proof {
        assert(a@ =~= b@);
    }
    true
}

/// Whether `a` is byte-lexicographically below `b`.
pub fn bytes_lt(a: &Vec<u8>, b: &Vec<u8>) -> (r: bool)
    ensures
        r == lex_lt(a@, b@),
{
    let mut i: usize = 0;
    while i < a.len() && i < b.len()
        invariant
            i <= a@.len(),
            i <= b@.len(),
            forall|j: int| 0 <= j < i ==> a@[j] == b@[j],
        decreases a@.len() - i,
    {
        if a[i] < b[i] {
            proof {
                lemma_lex_lt_common_prefix(a@, b@, i as int);
            }
            return true;
        }
        if a[i] > b[i] {
            proof {
                lemma_lex_lt_common_prefix(a@, b@, i as int);
            }
            return false;
        }
        i = i + 1;
    }
    proof {
        lemma_lex_lt_common_prefix(a@, b@, i as int);
    }
    a.len() < b.len()
}

/// The concatenation of two byte vectors.
pub fn concat_bytes(a: &Vec<u8>, b: &Vec<u8>) -> (r: Vec<u8>)
    ensures
        r@ == a@ + b@,
{
    let mut out: Vec<u8> = Vec::new();
    let mut i: usize = 0;
    while i < a.len()
        invariant
            i <= a@.len(),
            out@ == a@.take(i as int),
        decreases a@.len() - i,
    {
        out.push(a[i]);
        proof {
            assert(out@ =~= a@.take(i + 1));
        }
        i = i + 1;
    }
    proof {
        assert(out@ =~= a@);
    }
    let mut j: usize = 0;
    while j < b.len()
        invariant
            j <= b@.len(),
            out@ == a@ + b@.take(j as int),
        decreases b@.len() - j,
    {
        out.push(b[j]);
        proof {
            assert(out@ =~= a@ + b@.take(j + 1));
        }
        j = j + 1;
    }
    proof {
        assert(out@ =~= a@ + b@);
    }
    out
}

/// A copy of a byte vector.
pub fn dup_bytes(v: &Vec<u8>) -> (r: Vec<u8>)
    ensures
        r@ == v@,
{
    vstd::slice::slice_to_vec(v.as_slice())
}

impl Digest {
    #[verifier::type_invariant]
    closed spec fn inv(self) -> bool {
        self.bytes@.len() == DIGEST_LEN
    }

    /// A digest from exactly [`DIGEST_LEN`] bytes; any other length is a
    /// [`FumError::SizeMismatch`].
    pub fn from_vec(bytes: Vec<u8>) -> (r: Result<Digest, FumError>)
        ensures
            bytes@.len() == DIGEST_LEN ==> (r matches Ok(d) && d@ == bytes@),
            bytes@.len() != DIGEST_LEN ==> r == Err::<Digest, FumError>(FumError::SizeMismatch),
    {
        if bytes.len() == DIGEST_LEN {
            Ok(Digest { bytes })
        } else {
            Err(FumError::SizeMismatch)
        }
    }

    /// The digest's bytes.
    pub fn as_bytes(&self) -> (r: &Vec<u8>)
        ensures
            r@ == self@,
    {
        &self.bytes
    }

    /// The number of bytes in the digest.
    pub fn len(&self) -> (r: usize)
        ensures
            r == self@.len(),
            r == DIGEST_LEN,
    {
        proof {
            use_type_invariant(self);
        }
        self.bytes.len()
    }

    /// Byte-exact equality of two digests.
    pub fn eq_digest(&self, other: &Digest) -> (r: bool)
        ensures
            r == (self@ == other@),
    {
        bytes_eq(&self.bytes, &other.bytes)
    }

    /// Whether `self` is byte-lexicographically below `other`.
    pub fn lt(&self, other: &Digest) -> (r: bool)
        ensures
            r == lex_lt(self@, other@),
    {
        bytes_lt(&self.bytes, &other.bytes)
    }

    /// A copy of the digest.
    pub fn dup(&self) -> (r: Digest)
        ensures
            r@ == self@,
    {
        proof {
            use_type_invariant(self);
        }
        Digest { bytes: dup_bytes(&self.bytes) }
    }
}

/// The lowercase hex digit for a value below 16.
pub open spec fn hex_digit(v: u8) -> char
    recommends
        v < 16,
{
    if v < 10 {
        ((v + 48) as char)
    } else {
        ((v + 87) as char)
    }
}

/// The lowercase hex encoding of a byte sequence: two digits per byte,
/// high nibble first.
pub open spec fn hex_of(data: Seq<u8>) -> Seq<char> {
    Seq::new(
        data.len() * 2,
        |i: int| if i % 2 == 0 {
            hex_digit(data[i / 2] / 16)
        } else {
            hex_digit(data[i / 2] % 16)
        },
    )
}

/// Whether `c` is a hex digit of either case.
pub open spec fn is_hex_digit(c: char) -> bool {
    let u = c as u32;
    (48 <= u <= 57) || (97 <= u <= 102) || (65 <= u <= 70)
}

/// The value of a hex digit of either case.
pub open spec fn hex_digit_val(c: char) -> u8
    recommends
        is_hex_digit(c),
{
    let u = c as u32;
    if 48 <= u <= 57 {
        (u - 48) as u8
    } else if 97 <= u <= 102 {
        (u - 87) as u8
    } else {
        (u - 55) as u8
    }
}

/// Whether `s` is a well-formed hex string: an even number of digits,
/// either case.
pub open spec fn is_hex_seq(s: Seq<char>) -> bool {
    s.len() % 2 == 0 && forall|i: int| 0 <= i < s.len() ==> is_hex_digit(#[trigger] s[i])
}

/// The bytes a well-formed hex string encodes.
pub open spec fn hex_val(s: Seq<char>) -> Seq<u8> {
    Seq::new(
        s.len() / 2,
        |i: int| (hex_digit_val(s[2 * i]) * 16 + hex_digit_val(s[2 * i + 1])) as u8,
    )
}

/// Hex encoding then decoding yields the original bytes.
pub proof fn lemma_hex_round_trip(data: Seq<u8>)
    ensures
        is_hex_seq(hex_of(data)),
        hex_val(hex_of(data)) == data,
{
    let h = hex_of(data);
    assert forall|i: int| 0 <= i < h.len() implies is_hex_digit(#[trigger] h[i]) by {
        if i % 2 == 0 {
            assert(data[i / 2] / 16 < 16);
        } else {
            assert(data[i / 2] % 16 < 16);
        }
    }
    assert forall|i: int| 0 <= i < data.len() implies hex_val(h)[i] == data[i] by {
        assert((2 * i) % 2 == 0);
        assert((2 * i + 1) % 2 == 1);
        assert((2 * i) / 2 == i);
        assert((2 * i + 1) / 2 == i);
        assert(h[2 * i] == hex_digit(data[i] / 16));
        assert(h[2 * i + 1] == hex_digit(data[i] % 16));
        assert(hex_digit_val(hex_digit(data[i] / 16)) == data[i] / 16);
        assert(hex_digit_val(hex_digit(data[i] % 16)) == data[i] % 16);
        assert(data[i] / 16 * 16 + data[i] % 16 == data[i]);
    }
    assert(hex_val(h) =~= data);
}

/// The lowercase hex display of byte content.
///
/// Relies on `data_encoding::HEXLOWER_PERMISSIVE.encode`: two lowercase
/// hex digits per input byte, high nibble first. Its length computation
/// asserts that the input is no longer than `usize::MAX / 512`, so such
/// inputs are excluded here rather than risked at run time.
#[verifier::external_body]
pub fn digest(data: &[u8]) -> (r: String)
    requires
        data@.len() <= usize::MAX as int / 512,
    ensures
        r@ == hex_of(data@),
{
    data_encoding::HEXLOWER_PERMISSIVE.encode(data)
}

/// Relies on `data_encoding::HEXLOWER_PERMISSIVE.decode`: it succeeds
/// exactly on an even number of hex digits of either case, and returns
/// the bytes those digits spell. Its length computation asserts that
/// the input holds at most `usize::MAX / 8` bytes, so longer inputs are
/// excluded here rather than risked at run time.
#[verifier::external_body]
fn hex_decode_raw(hex: &str) -> (r: Option<Vec<u8>>)
    requires
        encode_utf8(hex@).len() <= usize::MAX as int / 8,
    ensures
        r is Some <==> is_hex_seq(hex@),
        r matches Some(v) ==> v@ == hex_val(hex@),
{
    data_encoding::HEXLOWER_PERMISSIVE.decode(hex.as_bytes()).ok()
}

/// The bytes a well-formed hex string encodes.
pub fn hex_to_bytes(hex: &str) -> (r: Vec<u8>)
    requires
        is_hex_seq(hex@),
        encode_utf8(hex@).len() <= usize::MAX as int / 8,
    ensures
        r@ == hex_val(hex@),
{
    match hex_decode_raw(hex) {
        Some(v) => v,
        None => {
            proof {
                assert(false);
            }
            Vec::new()
        },
    }
}

/// Decode a displayed digest: any hex string spelling exactly
/// [`DIGEST_LEN`] bytes is accepted, of either case.
pub fn digest_from_hex(hex: &str) -> (r: Result<Digest, FumError>)
    requires
        encode_utf8(hex@).len() <= usize::MAX as int / 8,
    ensures
        !is_hex_seq(hex@) ==> r == Err::<Digest, FumError>(FumError::Encoding),
        is_hex_seq(hex@) && hex_val(hex@).len() != DIGEST_LEN ==> r == Err::<Digest, FumError>(
            FumError::SizeMismatch,
        ),
        is_hex_seq(hex@) && hex_val(hex@).len() == DIGEST_LEN ==> (r matches Ok(d) && d@
            == hex_val(hex@)),
{
    match hex_decode_raw(hex) {
        None => Err(FumError::Encoding),
        Some(v) => Digest::from_vec(v),
    }
}

/// The one-way hash of arbitrary byte content.
///
/// Relies on `ring::digest::digest` with the SHA-256 algorithm: the digest
/// is a function of the input bytes alone ([`sha256_of`]), and its length
/// is `ring::digest::SHA256_OUTPUT_LEN`, which is 32 bytes.
#[verifier::external_body]
pub fn compute_sha256(data: &[u8]) -> (r: Digest)
    ensures
        r@ == sha256_of(data@),
        r@.len() == DIGEST_LEN,
{
    let d = ring::digest::digest(&ring::digest::SHA256, data);
    Digest { bytes: d.as_ref().to_vec() }
}

} // verus!
