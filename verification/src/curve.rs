//! Curve-native encodings: fixed-width big-endian scalars and affine point
//! serialization.
//!
//! A curve scalar is held as the little-endian machine words of its field
//! representation, exactly the shape a prime-field representation exposes; its
//! transcript encoding is the fixed-width big-endian byte string whose width
//! is the byte length of the representation. A curve point is held in affine
//! form; its encoding is the uncompressed `x || y || flag` layout, where the
//! flag marks the point at infinity, so that a single point has exactly one
//! encoding.

use vstd::prelude::*;
use crate::codec::be_value;
use crate::codec::pow256;

verus! {

/// Fixed-width big-endian encoding of `v` in `w` bytes.
pub open spec fn be_fixed(v: nat, w: nat) -> Seq<u8>
    decreases w,
{
    if w == 0 {
        Seq::empty()
    } else {
        be_fixed(v / 256, (w - 1) as nat).push((v % 256) as u8)
    }
}

/// The fixed-width encoding has exactly the requested width.
pub proof fn lemma_be_fixed_len(v: nat, w: nat)
    ensures
        be_fixed(v, w).len() == w,
    decreases w,
{
    if w > 0 {
        lemma_be_fixed_len(v / 256, (w - 1) as nat);
    }
}

/// A value that fits in the width is encoded exactly.
pub proof fn lemma_be_fixed_value(v: nat, w: nat)
    requires
        v < pow256(w),
    ensures
        be_value(be_fixed(v, w)) == v,
    decreases w,
{
    if w > 0 {
        let tail = be_fixed(v / 256, (w - 1) as nat);
        assert(be_fixed(v, w).drop_last() =~= tail);
        assert(v / 256 < pow256((w - 1) as nat)) by (nonlinear_arith)
            requires
                v < 256 * pow256((w - 1) as nat),
        ;
        lemma_be_fixed_value(v / 256, (w - 1) as nat);
        assert((v / 256) * 256 + v % 256 == v) by (nonlinear_arith);
    }
}

/// Append the fixed-width big-endian encoding of `v` to `out`.
fn push_be_fixed(out: &mut Vec<u8>, v: u64, w: usize)
    ensures
        final(out)@ == old(out)@ + be_fixed(v as nat, w as nat),
    decreases w,
{
    if w == 0 {
        proof {
            assert(out@ + be_fixed(v as nat, 0) =~= out@);
        }
        return ;
    }
    push_be_fixed(out, v / 256, w - 1);
    out.push((v % 256) as u8);
    proof {
        assert(out@ =~= old(out)@ + be_fixed(v as nat, w as nat));
    }
}

/// The value of a little-endian sequence of 64-bit limbs, least significant
/// limb first.
pub open spec fn limbs_value(s: Seq<u64>) -> nat
    decreases s.len(),
{
    if s.len() == 0 {
        0
    } else {
        (s.first() + limbs_value(s.drop_first()) * 0x10000000000000000) as nat
    }
}

/// The canonical fixed-width big-endian byte encoding of a limb sequence:
/// most significant limb first, each limb in eight big-endian bytes.
pub open spec fn scalar_repr(s: Seq<u64>) -> Seq<u8>
    decreases s.len(),
{
    if s.len() == 0 {
        Seq::empty()
    } else {
        scalar_repr(s.drop_first()) + be_fixed(s.first() as nat, 8)
    }
}

/// Concatenation shifts the left part by the length of the right part.
pub proof fn lemma_be_value_concat(a: Seq<u8>, b: Seq<u8>)
    ensures
        be_value(a + b) == be_value(a) * pow256(b.len()) + be_value(b),
    decreases b.len(),
{
    if b.len() == 0 {
        assert(a + b =~= a);
        assert(pow256(b.len()) == 1);
        assert(be_value(b) == 0);
        assert(be_value(a) * 1 == be_value(a)) by (nonlinear_arith);
    } else {
        let bd = b.drop_last();
        assert((a + b).drop_last() =~= a + bd);
        assert((a + b).last() == b.last());
        lemma_be_value_concat(a, bd);
        assert(be_value(a + b) == be_value(a + bd) * 256 + b.last());
        assert(pow256(b.len()) == 256 * pow256(bd.len()));
        assert(be_value(b) == be_value(bd) * 256 + b.last());
        assert((be_value(a) * pow256(bd.len()) + be_value(bd)) * 256 + b.last() == be_value(a) * (
        256 * pow256(bd.len())) + (be_value(bd) * 256 + b.last())) by (nonlinear_arith);
        assert(be_value(a + b) == (be_value(a) * pow256(bd.len()) + be_value(bd)) * 256 + b.last());
        assert(be_value(a) * (256 * pow256(bd.len())) == be_value(a) * pow256(b.len()));
        assert(be_value(a + b) == be_value(a) * pow256(b.len()) + be_value(b));
    }
}

/// `pow256` of eight is the count of 64-bit values.
pub proof fn lemma_pow256_eight()
    ensures
        pow256(8) == 0x10000000000000000,
{
    reveal_with_fuel(pow256, 9);
}

/// The scalar encoding has width eight bytes per limb.
pub proof fn lemma_scalar_repr_len(s: Seq<u64>)
    ensures
        scalar_repr(s).len() == 8 * s.len(),
    decreases s.len(),
{
    if s.len() > 0 {
        lemma_scalar_repr_len(s.drop_first());
        lemma_be_fixed_len(s.first() as nat, 8);
    }
}

/// The scalar encoding is value-faithful: the big-endian value of the encoded
/// bytes is the value of the limb sequence.
pub proof fn lemma_scalar_repr_value(s: Seq<u64>)
    ensures
        be_value(scalar_repr(s)) == limbs_value(s),
    decreases s.len(),
{
    if s.len() > 0 {
        lemma_scalar_repr_value(s.drop_first());
        lemma_pow256_eight();
        lemma_be_fixed_len(s.first() as nat, 8);
        lemma_be_fixed_value(s.first() as nat, 8);
        lemma_be_value_concat(scalar_repr(s.drop_first()), be_fixed(s.first() as nat, 8));
        assert(limbs_value(s.drop_first()) * pow256(8) + s.first() == limbs_value(s))
            by (nonlinear_arith)
            requires
                pow256(8) == 0x10000000000000000,
                limbs_value(s) == (s.first() + limbs_value(s.drop_first())
                    * 0x10000000000000000) as nat,
        ;
    }
}

/// An element of the curve's prime scalar field, held as the little-endian
/// 64-bit limbs of its canonical field representation.
///
/// The limb count fixes the encoding width: eight bytes per limb, the byte
/// length of the field's representation. One protocol works over one scalar
/// field, so every scalar it absorbs must be built with that field's limb
/// count — the fixed-width guarantee is per field, and the boundary that
/// converts from the field type supplies the same limb count for every
/// value, exactly as the field's representation does.
pub struct CurveScalar {
    limbs: Vec<u64>,
}

impl View for CurveScalar {
    type V = Seq<u64>;

    /// The little-endian limbs of the canonical representation.
    closed spec fn view(&self) -> Seq<u64> {
        self.limbs@
    }
}

impl CurveScalar {
    /// The mathematical value of the scalar's representation.
    pub open spec fn value(&self) -> nat {
        limbs_value(self@)
    }

    /// Build a scalar from the little-endian limbs of its canonical field
    /// representation.
    pub fn from_limbs(limbs: Vec<u64>) -> (r: CurveScalar)
        ensures
            r@ == limbs@,
    {
        CurveScalar { limbs }
    }

    /// The field's canonical fixed-width big-endian byte representation:
    /// width is the byte length of the representation, value is preserved.
    pub fn to_repr_bytes(&self) -> (r: Vec<u8>)
        ensures
            r@ == scalar_repr(self@),
            r@.len() == 8 * self@.len(),
            be_value(r@) == self.value(),
    {
        let mut out: Vec<u8> = Vec::new();
        let mut i: usize = self.limbs.len();
        proof {
            assert(self@.subrange(i as int, self@.len() as int) =~= Seq::<u64>::empty());
            assert(out@ =~= scalar_repr(self@.subrange(i as int, self@.len() as int)));
        }
        while i > 0
            invariant
                i <= self@.len(),
                out@ == scalar_repr(self@.subrange(i as int, self@.len() as int)),
            decreases i,
        {
            i -= 1;
            push_be_fixed(&mut out, self.limbs[i], 8);
            proof {
                let sub = self@.subrange(i as int, self@.len() as int);
                assert(sub.first() == self@[i as int]);
                assert(sub.drop_first() =~= self@.subrange(i + 1, self@.len() as int));
            }
        }
        proof {
            assert(self@.subrange(0, self@.len() as int) =~= self@);
            lemma_scalar_repr_len(self@);
            lemma_scalar_repr_value(self@);
        }
        out
    }
}

/// The affine encoding of a point: both coordinates, then a one-byte flag
/// marking the point at infinity.
pub open spec fn point_encoding(x: Seq<u8>, y: Seq<u8>, infinity: bool) -> Seq<u8> {
    x + y + seq![
        if infinity {
            1u8
        } else {
            0u8
        },
    ]
}

/// An elliptic-curve group element in affine form: fixed-width coordinate
/// bytes and an infinity flag. The point at infinity carries all-zero
/// coordinates, so every point has exactly one well-formed value and exactly
/// one encoding.
pub struct CurvePoint {
    x: Vec<u8>,
    y: Vec<u8>,
    infinity: bool,
}

impl View for CurvePoint {
    type V = (Seq<u8>, Seq<u8>, bool);

    /// The coordinate bytes and the infinity flag.
    closed spec fn view(&self) -> (Seq<u8>, Seq<u8>, bool) {
        (self.x@, self.y@, self.infinity)
    }
}

impl CurvePoint {
    /// Well-formed: the coordinates share one width, and the point at
    /// infinity has the single defined all-zero coordinate form.
    pub open spec fn wf(&self) -> bool {
        &&& self@.0.len() == self@.1.len()
        &&& (self@.2 ==> (forall|i: int|
            0 <= i < self@.0.len() ==> self@.0[i] == 0 && self@.1[i] == 0))
    }

    /// The point's affine encoding.
    pub open spec fn encoding(&self) -> Seq<u8> {
        point_encoding(self@.0, self@.1, self@.2)
    }

    /// Build a finite point from its fixed-width affine coordinates.
    pub fn affine(x: Vec<u8>, y: Vec<u8>) -> (r: CurvePoint)
        requires
            x@.len() == y@.len(),
        ensures
            r.wf(),
            r@ == (x@, y@, false),
    {
        CurvePoint { x, y, infinity: false }
    }

    /// The point at infinity, in its single defined encoding for the given
    /// coordinate width.
    pub fn identity(width: usize) -> (r: CurvePoint)
        ensures
            r.wf(),
            r@.0 =~= Seq::new(width as nat, |i: int| 0u8),
            r@.1 =~= Seq::new(width as nat, |i: int| 0u8),
            r@.2 == true,
    {
        let mut zeros: Vec<u8> = Vec::new();
        let mut i: usize = 0;
        while i < width
            invariant
                i <= width,
                zeros@.len() == i,
                forall|j: int| 0 <= j < i ==> zeros@[j] == 0,
            decreases width - i,
        {
            zeros.push(0);
            i += 1;
        }
        let x = zeros.clone();
        proof {
            assert(x@ =~= Seq::new(width as nat, |i: int| 0u8));
        }
        CurvePoint { x, y: zeros, infinity: true }
    }

    /// Serialize the point: coordinates then the infinity flag. The result is
    /// a function of the point's affine value alone, so a single point never
    /// serializes to two different byte strings.
    pub fn to_affine_bytes(&self) -> (r: Vec<u8>)
        ensures
            r@ == self.encoding(),
    {
        let mut out: Vec<u8> = Vec::new();
        append_bytes(&mut out, &self.x);
        append_bytes(&mut out, &self.y);
        out.push(if self.infinity { 1 } else { 0 });
        proof {
            assert(out@ =~= self.encoding());
        }
        out
    }
}

/// Append a copy of `src` to `out`.
fn append_bytes(out: &mut Vec<u8>, src: &Vec<u8>)
    ensures
        final(out)@ == old(out)@ + src@,
{
    let mut i: usize = 0;
    proof {
        assert(out@ =~= old(out)@ + src@.subrange(0, 0));
    }
    while i < src.len()
        invariant
            i <= src@.len(),
            out@ == old(out)@ + src@.subrange(0, i as int),
        decreases src@.len() - i,
    {
        out.push(src[i]);
        proof {
            assert(out@ =~= old(out)@ + src@.subrange(0, i + 1));
        }
        i += 1;
    }
    proof {
        assert(out@ =~= old(out)@ + src@);
    }
}

/// Point encoding is deterministic: two points with the same affine value
/// have byte-identical encodings, however each was computed.
pub proof fn lemma_point_encoding_deterministic(p1: CurvePoint, p2: CurvePoint)
    requires
        p1@ == p2@,
    ensures
        p1.encoding() == p2.encoding(),
{
}

/// Point encoding is unambiguous: two well-formed points of one coordinate
/// width with equal encodings are equal in affine value.
pub proof fn lemma_point_encoding_injective(p1: CurvePoint, p2: CurvePoint)
    requires
        p1.wf(),
        p2.wf(),
        p1@.0.len() == p2@.0.len(),
        p1.encoding() == p2.encoding(),
    ensures
        p1@ == p2@,
{
    let w = p1@.0.len() as int;
    let e1 = p1.encoding();
    let e2 = p2.encoding();
    assert(p1@.0 =~= e1.subrange(0, w));
    assert(p1@.1 =~= e1.subrange(w, 2 * w));
    assert(p2@.0 =~= e2.subrange(0, w));
    assert(p2@.1 =~= e2.subrange(w, 2 * w));
    assert(e1[2 * w] == if p1@.2 {
        1u8
    } else {
        0u8
    });
    assert(e2[2 * w] == if p2@.2 {
        1u8
    } else {
        0u8
    });
}

} // verus!
