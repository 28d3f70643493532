//! Canonical big-endian byte encoding of arbitrary-precision non-negative
//! integers.
//!
//! Every value absorbed into the transcript goes through this encoding, so it
//! must be injective: no two distinct values may share an encoding, and no
//! value may have two encodings. Both directions are proved here
//! ([`lemma_canonical_unique`], [`lemma_strip_zeros_canonical`]).

use vstd::prelude::*;

verus! {

/// The integer value of a big-endian byte string (most significant byte
/// first). The empty string has value zero.
pub open spec fn be_value(s: Seq<u8>) -> nat
    decreases s.len(),
{
    if s.len() == 0 {
        0
    } else {
        (be_value(s.drop_last()) * 256 + s.last()) as nat
    }
}

/// 256 raised to the power `n`: the number of byte strings of length `n`.
pub open spec fn pow256(n: nat) -> nat
    decreases n,
{
    if n == 0 {
        1
    } else {
        256 * pow256((n - 1) as nat)
    }
}

/// A byte string is canonical when it carries no leading zero byte; canonical
/// strings are in bijection with the non-negative integers.
pub open spec fn is_canonical(s: Seq<u8>) -> bool {
    s.len() == 0 || s[0] != 0
}

/// The byte string with its leading zero bytes removed.
pub open spec fn strip_zeros(s: Seq<u8>) -> Seq<u8>
    decreases s.len(),
{
    if s.len() > 0 && s[0] == 0 {
        strip_zeros(s.drop_first())
    } else {
        s
    }
}

/// An arbitrary-precision non-negative integer, held as its canonical
/// big-endian byte encoding. Zero is the empty byte string.
///
/// The non-negative domain is a deliberate contract of the layer, not an
/// accident of representation: the protocol absorbs magnitudes and derives
/// challenges that are non-negative by construction, so rather than encode a
/// sign and prove it unambiguous, the type makes a negative value
/// unrepresentable. A boundary that computes with signed big integers must
/// reject a negative value before converting; this layer never produces one.
/// The transcript layer only ever reads an integer's canonical bytes, so the
/// bytes themselves are the representation.
pub struct Integer {
    digits: Vec<u8>,
}

impl View for Integer {
    type V = Seq<u8>;

    /// The canonical big-endian digits.
    closed spec fn view(&self) -> Seq<u8> {
        self.digits@
    }
}

impl Integer {
    /// Well-formed: the held digits are canonical.
    pub open spec fn wf(&self) -> bool {
        is_canonical(self@)
    }

    /// The mathematical value of the integer.
    pub open spec fn value(&self) -> nat {
        be_value(self@)
    }

    /// The integer zero.
    pub fn zero() -> (r: Integer)
        ensures
            r.wf(),
            r.value() == 0,
            r@ == Seq::<u8>::empty(),
    {
        Integer { digits: Vec::new() }
    }

    /// The integer with the given machine-word value.
    pub fn from_u64(v: u64) -> (r: Integer)
        ensures
            r.wf(),
            r.value() == v,
        decreases v,
    {
        if v == 0 {
            Integer { digits: Vec::new() }
        } else {
            let mut r = Integer::from_u64(v / 256);
            let ghost prefix = r.digits@;
            r.digits.push((v % 256) as u8);
            proof {
                assert(r.digits@.drop_last() =~= prefix);
                assert(r.digits@.last() == v % 256);
                assert(be_value(prefix) * 256 + v % 256 == v as nat) by (nonlinear_arith)
                    requires
                        be_value(prefix) == v as nat / 256,
                ;
                if prefix.len() == 0 {
                    assert(r.digits@[0] == v % 256);
                    assert(v % 256 != 0) by (nonlinear_arith)
                        requires
                            v as nat / 256 == 0,
                            v != 0,
                    ;
                } else {
                    assert(r.digits@[0] == prefix[0]);
                }
            }
            r
        }
    }

    /// The canonical big-endian encoding of the integer.
    pub fn to_be_bytes(&self) -> (r: Vec<u8>)
        ensures
            r@ == self@,
    {
        let mut r: Vec<u8> = Vec::new();
        let mut i: usize = 0;
        while i < self.digits.len()
            invariant
                i <= self.digits@.len(),
                r@ == self.digits@.subrange(0, i as int),
            decreases self.digits@.len() - i,
        {
            r.push(self.digits[i]);
            proof {
                assert(r@ =~= self.digits@.subrange(0, i + 1));
            }
            i += 1;
        }
        proof {
            assert(r@ =~= self.digits@);
        }
        r
    }

    /// Decode a big-endian byte string, accepting and discarding leading zero
    /// bytes, so that the result is canonical and carries the encoded value.
    pub fn from_be_bytes(bytes: &[u8]) -> (r: Integer)
        ensures
            r.wf(),
            r@ == strip_zeros(bytes@),
            r.value() == be_value(bytes@),
    {
        proof {
            assert(bytes@.subrange(0, bytes@.len() as int) =~= bytes@);
        }
        let mut k: usize = 0;
        while k < bytes.len() && bytes[k] == 0
            invariant
                k <= bytes@.len(),
                strip_zeros(bytes@) == strip_zeros(bytes@.subrange(k as int, bytes@.len() as int)),
            decreases bytes@.len() - k,
        {
            proof {
                let tail = bytes@.subrange(k as int, bytes@.len() as int);
                assert(tail[0] == bytes@[k as int]);
                assert(tail.drop_first() =~= bytes@.subrange(k + 1, bytes@.len() as int));
            }
            k += 1;
        }
        let mut digits: Vec<u8> = Vec::new();
        let mut i: usize = k;
        while i < bytes.len()
            invariant
                k <= i <= bytes@.len(),
                digits@ == bytes@.subrange(k as int, i as int),
            decreases bytes@.len() - i,
        {
            digits.push(bytes[i]);
            proof {
                assert(digits@ =~= bytes@.subrange(k as int, i + 1));
            }
            i += 1;
        }
        proof {
            let tail = bytes@.subrange(k as int, bytes@.len() as int);
            assert(digits@ =~= tail);
            if tail.len() > 0 {
                assert(tail[0] == bytes@[k as int]);
            }
            lemma_strip_zeros_value(bytes@);
        }
        Integer { digits }
    }

    /// Compare two integers for equality of value.
    pub fn eq_value(&self, other: &Integer) -> (r: bool)
        requires
            self.wf(),
            other.wf(),
        ensures
            r == (self.value() == other.value()),
    {
        let n = self.digits.len();
        if n != other.digits.len() {
            proof {
                if self.value() == other.value() {
                    lemma_canonical_unique(self@, other@);
                }
            }
            return false;
        }
        let mut i: usize = 0;
        while i < n
            invariant
                self.wf(),
                other.wf(),
                i <= n,
                n == self.digits@.len() == other.digits@.len(),
                forall|j: int| 0 <= j < i ==> self.digits@[j] == other.digits@[j],
            decreases n - i,
        {
            if self.digits[i] != other.digits[i] {
                proof {
                    if self.value() == other.value() {
                        lemma_canonical_unique(self@, other@);
                        assert(self@[i as int] == other@[i as int]);
                    }
                }
                return false;
            }
            i += 1;
        }
        proof {
            assert(self@ =~= other@);
        }
        true
    }
}

/// An element of the group of unknown order, held through its integer
/// representative: the group abstraction maps each element to an integer by a
/// defined, deterministic mapping, and the transcript layer absorbs the
/// representative's canonical bytes.
pub struct GroupElement {
    representative: Integer,
}

impl View for GroupElement {
    type V = Seq<u8>;

    /// The canonical bytes of the element's integer representative.
    closed spec fn view(&self) -> Seq<u8> {
        self.representative@
    }
}

impl GroupElement {
    /// Well-formed: the representative is canonical.
    pub open spec fn wf(&self) -> bool {
        is_canonical(self@)
    }

    /// The value of the element's integer representative.
    pub open spec fn value(&self) -> nat {
        be_value(self@)
    }

    /// Wrap the integer representative that the group abstraction assigned
    /// to an element.
    pub fn from_representative(representative: Integer) -> (r: GroupElement)
        ensures
            r@ == representative@,
    {
        GroupElement { representative }
    }

    /// The canonical bytes of the representative, as absorbed by the
    /// transcript.
    pub fn representative_bytes(&self) -> (r: Vec<u8>)
        ensures
            r@ == self@,
    {
        self.representative.to_be_bytes()
    }
}

/// A byte string with a zero in front encodes the same value as without it.
pub proof fn lemma_be_value_leading_zero(s: Seq<u8>)
    requires
        s.len() > 0,
        s[0] == 0,
    ensures
        be_value(s) == be_value(s.drop_first()),
    decreases s.len(),
{
    if s.len() == 1 {
        assert(s.drop_last() =~= Seq::<u8>::empty());
        assert(s.drop_first() =~= Seq::<u8>::empty());
        assert(be_value(s) == be_value(Seq::<u8>::empty()) * 256 + s[0]);
    } else {
        let head = s.drop_last();
        assert(head[0] == s[0]);
        lemma_be_value_leading_zero(head);
        assert(head.drop_first() =~= s.drop_first().drop_last());
        assert(s.drop_first().last() == s.last());
    }
}

/// Removing leading zero bytes does not change the encoded value.
pub proof fn lemma_strip_zeros_value(s: Seq<u8>)
    ensures
        be_value(strip_zeros(s)) == be_value(s),
        is_canonical(strip_zeros(s)),
    decreases s.len(),
{
    if s.len() > 0 && s[0] == 0 {
        lemma_be_value_leading_zero(s);
        lemma_strip_zeros_value(s.drop_first());
    }
}

/// A canonical byte string is left unchanged by zero stripping: together with
/// [`lemma_strip_zeros_value`], encoding an integer and decoding the bytes
/// recovers the integer exactly.
pub proof fn lemma_strip_zeros_canonical(s: Seq<u8>)
    requires
        is_canonical(s),
    ensures
        strip_zeros(s) == s,
{
}

/// Canonical round trip: decoding the encoding of a well-formed integer
/// gives back an equal integer. The hypothesis on `decoded` is exactly what
/// [`Integer::from_be_bytes`] ensures of its result when handed
/// [`Integer::to_be_bytes`]'s output.
pub proof fn lemma_codec_round_trip(v: Integer, decoded: Integer)
    requires
        v.wf(),
        decoded@ == strip_zeros(v@),
    ensures
        decoded@ == v@,
        decoded.value() == v.value(),
{
    lemma_strip_zeros_canonical(v@);
    lemma_strip_zeros_value(v@);
}

/// The value of a byte string is bounded by the count of byte strings of its
/// length.
pub proof fn lemma_be_value_bound(s: Seq<u8>)
    ensures
        be_value(s) < pow256(s.len()),
    decreases s.len(),
{
    if s.len() > 0 {
        lemma_be_value_bound(s.drop_last());
        assert(be_value(s.drop_last()) * 256 + 255 < 256 * pow256((s.len() - 1) as nat))
            by (nonlinear_arith)
            requires
                be_value(s.drop_last()) < pow256((s.len() - 1) as nat),
        ;
    }
}

/// A canonical, non-empty byte string encodes a value at least as large as any
/// value one byte shorter can reach.
pub proof fn lemma_be_value_lower(s: Seq<u8>)
    requires
        s.len() > 0,
        s[0] != 0,
    ensures
        be_value(s) >= pow256((s.len() - 1) as nat),
    decreases s.len(),
{
    if s.len() == 1 {
        assert(s.drop_last() =~= Seq::<u8>::empty());
    } else {
        let head = s.drop_last();
        assert(head[0] == s[0]);
        lemma_be_value_lower(head);
        assert(be_value(head) * 256 >= 256 * pow256((head.len() - 1) as nat)) by (nonlinear_arith)
            requires
                be_value(head) >= pow256((head.len() - 1) as nat),
        ;
    }
}

/// `pow256` never falls as the exponent grows.
pub proof fn lemma_pow256_monotone(m: nat, n: nat)
    requires
        m <= n,
    ensures
        pow256(m) <= pow256(n),
    decreases n,
{
    if m < n {
        lemma_pow256_monotone(m, (n - 1) as nat);
        assert(pow256(n) == 256 * pow256((n - 1) as nat));
        assert(pow256((n - 1) as nat) <= 256 * pow256((n - 1) as nat)) by (nonlinear_arith)
            requires
                pow256((n - 1) as nat) >= 0,
        ;
    }
}

/// Byte strings of equal length with equal values are equal.
pub proof fn lemma_be_value_injective_same_len(a: Seq<u8>, b: Seq<u8>)
    requires
        a.len() == b.len(),
        be_value(a) == be_value(b),
    ensures
        a == b,
    decreases a.len(),
{
    if a.len() > 0 {
        assert(be_value(a) == be_value(a.drop_last()) * 256 + a.last());
        assert(be_value(b) == be_value(b.drop_last()) * 256 + b.last());
        assert(be_value(a.drop_last()) == be_value(b.drop_last()) && a.last() == b.last())
            by (nonlinear_arith)
            requires
                be_value(a.drop_last()) * 256 + a.last() == be_value(b.drop_last()) * 256
                    + b.last(),
                a.last() < 256,
                b.last() < 256,
        ;
        lemma_be_value_injective_same_len(a.drop_last(), b.drop_last());
        assert(a =~= a.drop_last().push(a.last()));
        assert(b =~= b.drop_last().push(b.last()));
    } else {
        assert(a =~= b);
    }
}

/// The canonical encoding is injective: two canonical byte strings with the
/// same value are the same string. Together with determinism of encoding this
/// makes the encoding a bijection between integers and canonical strings, the
/// property the transcript layer's soundness rests on.
pub proof fn lemma_canonical_unique(a: Seq<u8>, b: Seq<u8>)
    requires
        is_canonical(a),
        is_canonical(b),
        be_value(a) == be_value(b),
    ensures
        a == b,
{
    if a.len() < b.len() {
        assert(b.len() > 0);
        lemma_be_value_bound(a);
        lemma_be_value_lower(b);
        lemma_pow256_monotone(a.len(), (b.len() - 1) as nat);
        assert(false);
    } else if b.len() < a.len() {
        assert(a.len() > 0);
        lemma_be_value_bound(b);
        lemma_be_value_lower(a);
        lemma_pow256_monotone(b.len(), (a.len() - 1) as nat);
        assert(false);
    } else {
        lemma_be_value_injective_same_len(a, b);
    }
}

} // verus!
