//! Choices of the float sweeps that are made on integers: the polynomial of
//! `erf`, the lanes of a partial vector, and the dequantization path.

use vstd::prelude::*;
use crate::ir::DType;

verus! {

/// Bits of `0.84375`.
pub const IX_SMALL: u32 = 0x3f58_0000;

/// Bits of `1.25`.
pub const IX_MID: u32 = 0x3fa0_0000;

/// Bits of `1 / 0.35`.
pub const IX_RA: u32 = 0x4036_db6d;

/// Bits of `6`.
pub const IX_SAT: u32 = 0x40c0_0000;

/// Bits of infinity.
pub const IX_INF: u32 = 0x7f80_0000;

/// The formula that gives `erf(x)`.
#[derive(Clone, Copy, Debug, PartialEq, Eq, Structural)]
pub enum ErfRegion {
    /// `|x| < 0.84375`: `x + x * P(x^2) / Q(x^2)`.
    Small,
    /// `|x| < 1.25`: a rational function of `|x| - 1`.
    Mid,
    /// `|x| < 1 / 0.35`: through `erfc`, first set of coefficients.
    TailA,
    /// `|x| < 6`: through `erfc`, second set of coefficients.
    TailB,
    /// `|x| >= 6`: one, with the sign of `x`.
    Saturated,
    /// Infinite, or not a number.
    Special,
}

/// The region of a value whose bits, without the sign, are `ix`.
pub open spec fn region_of(ix: u32) -> ErfRegion {
    if ix < 0x3f58_0000 {
        ErfRegion::Small
    } else if ix < 0x3fa0_0000 {
        ErfRegion::Mid
    } else if ix < 0x4036_db6d {
        ErfRegion::TailA
    } else if ix < 0x40c0_0000 {
        ErfRegion::TailB
    } else if ix < 0x7f80_0000 {
        ErfRegion::Saturated
    } else {
        ErfRegion::Special
    }
}

/// Bits of the absolute value.
pub fn abs_bits(bits: u32) -> (r: u32)
    ensures
        r == bits % 0x8000_0000,
{
    assert(bits & 0x7fff_ffff == bits % 0x8000_0000) by (bit_vector);
    bits & 0x7fff_ffff
}

/// Which formula gives the `erf` of the 32-bit float with these bits.
pub fn erf_region(bits: u32) -> (r: ErfRegion)
    ensures
        r == region_of(bits % 0x8000_0000),
{
    let ix: u32 = abs_bits(bits);
    if ix < IX_SMALL {
        ErfRegion::Small
    } else if ix < IX_MID {
        ErfRegion::Mid
    } else if ix < IX_RA {
        ErfRegion::TailA
    } else if ix < IX_SAT {
        ErfRegion::TailB
    } else if ix < IX_INF {
        ErfRegion::Saturated
    } else {
        ErfRegion::Special
    }
}

/// A value and its negation are in the same region.
pub proof fn law_region_ignores_sign(bits: u32)
    requires
        bits < 0x8000_0000,
    ensures
        region_of(bits % 0x8000_0000) == region_of(((bits + 0x8000_0000) as u32) % 0x8000_0000),
{
    let flipped: u32 = (bits + 0x8000_0000) as u32;
    assert(flipped == bits + 0x8000_0000);
    assert(flipped % 0x8000_0000 == bits) by (bit_vector)
        requires
            bits < 0x8000_0000,
            flipped == bits + 0x8000_0000,
    ;
}

/// Regions follow one another as the absolute value grows.
pub open spec fn rank(r: ErfRegion) -> int {
    match r {
        ErfRegion::Small => 0,
        ErfRegion::Mid => 1,
        ErfRegion::TailA => 2,
        ErfRegion::TailB => 3,
        ErfRegion::Saturated => 4,
        ErfRegion::Special => 5,
    }
}

/// A larger absolute value is never in an earlier region.
pub proof fn law_regions_are_intervals(x: u32, y: u32)
    requires
        x <= y,
    ensures
        rank(region_of(x)) <= rank(region_of(y)),
{
}

/// The bits with the low 13 of the fraction cleared, so that the square of
/// the value is exact.
pub fn chopped(bits: u32) -> (r: u32)
    ensures
        r == bits - bits % 0x2000,
{
    assert(bits & 0xffff_e000 == bits - bits % 0x2000) by (bit_vector);
    bits & 0xffff_e000
}

/// Lanes of a vector register.
pub const LANES: usize = 16;

/// The lane mask of the last, partial vector of a sweep: bit `i` is set for
/// the `rem` lanes that hold data.
pub fn tail_mask(rem: u32) -> (r: u16)
    requires
        rem < 16,
    ensures
        forall|i: u16| i < 16 ==> ((#[trigger] (r >> i)) & 1 == 1) == (i < rem),
{
    let wide: u32 = {
        assert(1u32 << rem >= 1) by (bit_vector)
            requires
                rem < 16,
        ;
        (1u32 << rem) - 1
    };
    let r: u16 = wide as u16;
    proof {
        assert forall|i: u16| i < 16 implies ((#[trigger] (r >> i)) & 1 == 1) == (i < rem) by {
            assert(((r >> i) & 1 == 1) == (i < rem)) by (bit_vector)
                requires
                    i < 16,
                    rem < 16,
                    wide == (1u32 << rem) - 1,
                    r == wide as u16,
            ;
        }
    }
    r
}

/// Layout of a tensor, as far as the sweeps depend on it.
#[derive(Clone, Debug)]
pub struct TensorLayout {
    pub dtype: DType,
    pub shape: Vec<usize>,
    pub contiguous: bool,
    pub start_offset: usize,
    /// Bytes of the whole buffer.
    pub byte_len: usize,
}

/// Product of the first `upto` extents.
pub open spec fn extent(shape: Seq<usize>, upto: nat) -> int
    decreases upto,
{
    if upto == 0 {
        1
    } else {
        extent(shape, (upto - 1) as nat) * shape[upto - 1]
    }
}

/// Number of elements of a shape.
pub open spec fn count(shape: Seq<usize>) -> int {
    extent(shape, shape.len())
}

/// The product of every prefix of the shape can be held.
pub open spec fn countable(shape: Seq<usize>) -> bool {
    forall|k: nat| k <= shape.len() ==> #[trigger] extent(shape, k) <= usize::MAX
}

proof fn lemma_extent(shape: Seq<usize>, upto: nat)
    ensures
        extent(shape, upto) >= 0,
    decreases upto,
{
    if upto > 0 {
        lemma_extent(shape, (upto - 1) as nat);
        let a = extent(shape, (upto - 1) as nat);
        let b = shape[upto - 1] as int;
        assert(a * b >= 0) by (nonlinear_arith)
            requires
                a >= 0,
                b >= 0,
        ;
    }
}

/// Number of elements of a shape.
pub fn num_elements(shape: &[usize]) -> (r: usize)
    requires
        countable(shape@),
    ensures
        r == count(shape@),
{
    let mut n: usize = 1;
    let mut i: usize = 0;
    while i < shape.len()
        invariant
            i <= shape.len(),
            countable(shape@),
            n == extent(shape@, i as nat),
        decreases shape.len() - i,
    {
        proof {
            lemma_extent(shape@, (i + 1) as nat);
            assert(extent(shape@, (i + 1) as nat) == n * shape@[i as int]);
        }
        n = n * shape[i];
        i += 1;
    }
    n
}

/// The last extent of a shape divides its number of elements.
pub proof fn law_last_axis_divides(shape: Seq<usize>)
    requires
        shape.len() > 0,
        shape.last() > 0,
    ensures
        count(shape) % (shape.last() as int) == 0,
{
    let a = extent(shape, (shape.len() - 1) as nat);
    let b = shape.last() as int;
    vstd::arithmetic::div_mod::lemma_mod_multiples_basic(a, b);
}

impl TensorLayout {
    /// The buffer holds exactly the elements, in order.
    pub open spec fn is_whole(self, elem_size: int) -> bool {
        self.contiguous && self.start_offset == 0 && self.byte_len == count(self.shape@)
            * elem_size
    }

    /// Whether the buffer has to be copied before it can be swept front to
    /// back.
    pub fn needs_copy(&self, elem_size: usize) -> (r: bool)
        requires
            countable(self.shape@),
            count(self.shape@) * elem_size <= usize::MAX,
        ensures
            r == !self.is_whole(elem_size as int),
    {
        if !self.contiguous || self.start_offset != 0 {
            return true;
        }
        let n: usize = num_elements(self.shape.as_slice());
        self.byte_len != n * elem_size
    }
}

/// How `x * scale + bias` is computed on an integer product.
#[derive(Clone, Copy, Debug, PartialEq, Eq, Structural)]
pub enum AffinePath {
    /// One sweep with one scale and a bias per element of the last axis.
    LastAxis { last: usize },
    /// One sweep with one scale and one bias.
    ScalarBias,
    /// A cast, a product and a sum.
    Fallback,
}

/// A bias of this shape holds one element for each place of a last axis of
/// extent `last`, and the same ones for all other axes.
pub open spec fn lies_on_last_axis(bias: Seq<usize>, last: usize) -> bool {
    &&& bias.len() > 0
    &&& bias.last() == last
    &&& forall|k: int| 0 <= k < bias.len() - 1 ==> #[trigger] bias[k] == 1
}

/// Whether a bias of this shape goes along a last axis of extent `last`.
pub fn is_last_axis(bias: &[usize], last: usize) -> (r: bool)
    ensures
        r == lies_on_last_axis(bias@, last),
{
    let rank: usize = bias.len();
    if rank == 0 || bias[rank - 1] != last {
        return false;
    }
    let mut k: usize = 0;
    while k < rank - 1
        invariant
            rank == bias.len(),
            k <= rank - 1,
            forall|l: int| 0 <= l < k ==> #[trigger] bias@[l] == 1,
        decreases rank - k,
    {
        if bias[k] != 1 {
            return false;
        }
        k += 1;
    }
    true
}

/// The path for a product of these layouts.
pub open spec fn path_of(value: TensorLayout, scale: TensorLayout, bias: TensorLayout) -> AffinePath {
    let shape = value.shape@;
    if value.dtype is I32 && scale.dtype is F32 && bias.dtype is F32 && shape.len() > 0
        && shape.last() > 0 && count(scale.shape@) == 1 {
        if lies_on_last_axis(bias.shape@, shape.last()) {
            AffinePath::LastAxis { last: shape.last() }
        } else if count(bias.shape@) == 1 {
            AffinePath::ScalarBias
        } else {
            AffinePath::Fallback
        }
    } else {
        AffinePath::Fallback
    }
}

/// Chooses how to dequantize: the fused sweep needs a 32-bit integer product
/// with a non-empty last axis, one float scale, and a float bias along the last
/// axis or one for everything.
pub fn affine_path(value: &TensorLayout, scale: &TensorLayout, bias: &TensorLayout) -> (r:
    AffinePath)
    requires
        countable(value.shape@),
        countable(scale.shape@),
        countable(bias.shape@),
    ensures
        r == path_of(*value, *scale, *bias),
{
    if value.dtype != DType::I32 || scale.dtype != DType::F32 || bias.dtype != DType::F32 {
        return AffinePath::Fallback;
    }
    let n: usize = num_elements(value.shape.as_slice());
    let rank: usize = value.shape.len();
    if rank == 0 {
        return AffinePath::Fallback;
    }
    let last: usize = value.shape[rank - 1];
    if last == 0 {
        return AffinePath::Fallback;
    }
    proof {
        law_last_axis_divides(value.shape@);
    }
    if n % last != 0 {
        return AffinePath::Fallback;
    }
    let scales: usize = num_elements(scale.shape.as_slice());
    let biases: usize = num_elements(bias.shape.as_slice());
    if scales != 1 {
        AffinePath::Fallback
    } else if is_last_axis(bias.shape.as_slice(), last) {
        AffinePath::LastAxis { last }
    } else if biases == 1 {
        AffinePath::ScalarBias
    } else {
        AffinePath::Fallback
    }
}

/// Product of the last `axes` extents.
pub open spec fn tail_extent(shape: Seq<usize>, axes: nat) -> int
    decreases axes,
{
    if axes == 0 {
        1
    } else {
        tail_extent(shape, (axes - 1) as nat) * shape[shape.len() - axes]
    }
}

/// The place of element `i` along an axis, counted from the last one.
pub open spec fn place_along(i: int, shape: Seq<usize>, axis: nat) -> int {
    (i / tail_extent(shape, axis)) % (shape[shape.len() - 1 - axis] as int)
}

/// The element of a tensor of shape `small` that goes with element `i` of one
/// of shape `large`, as far as the last `axes` axes say: axes are aligned at
/// the end, and an axis of one is repeated.
pub open spec fn broadcast_from(i: int, large: Seq<usize>, small: Seq<usize>, axes: nat) -> int
    decreases axes,
{
    if axes == 0 {
        0
    } else {
        let axis = (axes - 1) as nat;
        let place = if small[small.len() - axes] == 1 {
            0
        } else {
            place_along(i, large, axis)
        };
        broadcast_from(i, large, small, axis) + place * tail_extent(small, axis)
    }
}

/// A tensor of shape `small` broadcasts to one of shape `large`.
pub open spec fn broadcasts(large: Seq<usize>, small: Seq<usize>) -> bool {
    &&& small.len() <= large.len()
    &&& forall|a: int|
        1 <= a <= small.len() ==> #[trigger] small[small.len() - a] == 1 || small[small.len() - a]
            == large[large.len() - a]
}

/// The element of a tensor of shape `small` that goes with element `i` of one
/// of shape `large`.
pub fn broadcast_index(i: usize, large: &[usize], small: &[usize]) -> (r: usize)
    requires
        broadcasts(large@, small@),
        forall|a: int| 0 <= a < large@.len() ==> #[trigger] large@[a] > 0,
        forall|k: nat| k <= small@.len() ==> #[trigger] tail_extent(small@, k) <= usize::MAX,
    ensures
        r == broadcast_from(i as int, large@, small@, small@.len()),
        r < tail_extent(small@, small@.len()),
{
    let mut rest: usize = i;
    let mut at: usize = 0;
    let mut step: usize = 1;
    let mut axis: usize = 0;
    while axis < small.len()
        invariant
            axis <= small.len(),
            broadcasts(large@, small@),
            forall|a: int| 0 <= a < large@.len() ==> #[trigger] large@[a] > 0,
            forall|k: nat| k <= small@.len() ==> #[trigger] tail_extent(small@, k) <= usize::MAX,
            tail_extent(large@, axis as nat) > 0,
            rest == i as int / tail_extent(large@, axis as nat),
            step == tail_extent(small@, axis as nat),
            at == broadcast_from(i as int, large@, small@, axis as nat),
            at < step,
        decreases small.len() - axis,
    {
        let extent: usize = large[large.len() - 1 - axis];
        let own: usize = small[small.len() - 1 - axis];
        let place: usize = rest % extent;
        proof {
            assert(extent > 0);
            assert(own == 1 || own == extent) by {
                let a = axis + 1;
                assert(small@[small@.len() - a] == 1 || small@[small@.len() - a]
                    == large@[large@.len() - a]);
            }
            let t = tail_extent(large@, axis as nat);
            assert(tail_extent(large@, (axis + 1) as nat) == t * extent);
            assert(t * extent > 0) by (nonlinear_arith)
                requires
                    t > 0,
                    extent > 0,
            ;
            vstd::arithmetic::div_mod::lemma_div_denominator(i as int, t, extent as int);
            assert(tail_extent(small@, (axis + 1) as nat) == step * own);
            assert(step * own <= usize::MAX);
            if own != 1 {
                assert(at + place * step < step * own) by (nonlinear_arith)
                    requires
                        at < step,
                        place < extent,
                        own == extent,
                ;
                assert(place * step <= step * own) by (nonlinear_arith)
                    requires
                        place < own,
                ;
            }
        }
        rest = rest / extent;
        if own != 1 {
            at = at + place * step;
        }
        step = step * own;
        axis += 1;
    }
    at
}

/// The bits without the sign: below the sign bit, and equal to the value's up
/// to it.
pub proof fn law_absolute_bits(bits: u32, r: u32)
    requires
        call_ensures(abs_bits, (bits,), r),
    ensures
        r < 0x8000_0000,
        r == bits || r + 0x8000_0000 == bits,
{
}

/// The formula of `erf` goes by the absolute value: below 0.84375, 1.25,
/// `1 / 0.35`, 6, and infinity, by the bits of these.
pub proof fn law_erf_regions(bits: u32, ix: u32, r: ErfRegion)
    requires
        call_ensures(erf_region, (bits,), r),
        call_ensures(abs_bits, (bits,), ix),
    ensures
        r is Small <==> ix < 0x3f58_0000,
        r is Mid <==> 0x3f58_0000 <= ix < 0x3fa0_0000,
        r is TailA <==> 0x3fa0_0000 <= ix < 0x4036_db6d,
        r is TailB <==> 0x4036_db6d <= ix < 0x40c0_0000,
        r is Saturated <==> 0x40c0_0000 <= ix < 0x7f80_0000,
        r is Special <==> 0x7f80_0000 <= ix,
{
}

/// Chopping clears the low 13 bits and nothing else.
pub proof fn law_chopping(bits: u32, r: u32)
    requires
        call_ensures(chopped, (bits,), r),
    ensures
        r % 0x2000 == 0,
        0 <= bits - r < 0x2000,
{
}

/// The lanes of a partial vector that hold data are the first ones.
pub proof fn law_tail_lanes(rem: u32, r: u16, i: u16)
    requires
        call_ensures(tail_mask, (rem,), r),
        i < 16,
    ensures
        (r >> i) & 1 == (if i < rem {
            1u16
        } else {
            0u16
        }),
{
    let b = (r >> i) & 1;
    assert(b == 0 || b == 1) by (bit_vector)
        requires
            b == (r >> i) & 1,
    ;
}

proof fn lemma_extent_prefix(a: Seq<usize>, b: Seq<usize>, upto: nat)
    requires
        upto <= a.len(),
        upto <= b.len(),
        forall|i: int| 0 <= i < upto ==> #[trigger] a[i] == b[i],
    ensures
        extent(a, upto) == extent(b, upto),
    decreases upto,
{
    if upto > 0 {
        lemma_extent_prefix(a, b, (upto - 1) as nat);
        assert(a[upto - 1] == b[upto - 1]);
    }
}

proof fn lemma_count_is_a_product(shape: Seq<usize>)
    ensures
        count(shape) == shape.fold_left(1int, |n: int, d: usize| n * d),
    decreases shape.len(),
{
    reveal_with_fuel(Seq::fold_left, 2);
    if shape.len() > 0 {
        lemma_count_is_a_product(shape.drop_last());
        lemma_extent_prefix(shape, shape.drop_last(), (shape.len() - 1) as nat);
    }
}

/// The number of elements is the product of the extents.
pub proof fn law_elements(shape: &[usize], r: usize)
    requires
        call_ensures(num_elements, (shape,), r),
    ensures
        r == shape@.fold_left(1int, |n: int, d: usize| n * d),
{
    lemma_count_is_a_product(shape@);
}

/// A buffer is swept as it is exactly where it is contiguous, begins with its
/// first element and holds nothing else.
pub proof fn law_copies(t: &TensorLayout, elem_size: usize, shape: &[usize], n: usize, r: bool)
    requires
        call_ensures(TensorLayout::needs_copy, (t, elem_size), r),
        shape@ == t.shape@,
        call_ensures(num_elements, (shape,), n),
    ensures
        !r <==> t.contiguous && t.start_offset == 0 && t.byte_len == n * elem_size,
{
}

/// A shape whose extents multiply to one is ones throughout.
proof fn lemma_all_ones(shape: Seq<usize>, upto: nat)
    requires
        upto <= shape.len(),
        extent(shape, upto) == 1,
    ensures
        forall|i: int| 0 <= i < upto ==> #[trigger] shape[i] == 1,
    decreases upto,
{
    if upto > 0 {
        lemma_extent(shape, (upto - 1) as nat);
        let a = extent(shape, (upto - 1) as nat);
        let b = shape[upto - 1] as int;
        assert(a == 1 && b == 1) by (nonlinear_arith)
            requires
                a * b == 1,
                a >= 0,
                b >= 0,
        ;
        lemma_all_ones(shape, (upto - 1) as nat);
    }
}

/// A tensor that is ones but for its last axis is read along that axis.
proof fn lemma_along_last(i: int, large: Seq<usize>, small: Seq<usize>, axes: nat)
    requires
        1 <= axes <= small.len() <= large.len(),
        forall|k: int| 0 <= k < small.len() - 1 ==> #[trigger] small[k] == 1,
    ensures
        broadcast_from(i, large, small, axes) == (if small.last() == 1 {
            0
        } else {
            i % (large.last() as int)
        }),
    decreases axes,
{
    reveal_with_fuel(broadcast_from, 2);
    reveal_with_fuel(tail_extent, 2);
    if axes == 1 {
        assert(tail_extent(small, 0) == 1 && tail_extent(large, 0) == 1);
        assert(i / 1 == i);
        let place = i % (large.last() as int);
        assert(place * 1 == place);
    } else {
        lemma_along_last(i, large, small, (axes - 1) as nat);
        assert(small[small.len() - axes] == 1);
        assert(0 * tail_extent(small, (axes - 1) as nat) == 0);
    }
}

/// The fused sweeps read the elements that broadcasting calls for: one scale
/// for every element, and the bias at the place of the element along the last
/// axis, or one bias for every element.
pub proof fn law_sweeps_broadcast(
    value: &TensorLayout,
    scale: &TensorLayout,
    bias: &TensorLayout,
    path: AffinePath,
    i: usize,
    value_shape: &[usize],
    scale_shape: &[usize],
    bias_shape: &[usize],
    at_scale: usize,
    at_bias: usize,
)
    requires
        call_ensures(affine_path, (value, scale, bias), path),
        value_shape@ == value.shape@,
        scale_shape@ == scale.shape@,
        bias_shape@ == bias.shape@,
        call_ensures(broadcast_index, (i, value_shape, scale_shape), at_scale),
        call_ensures(broadcast_index, (i, value_shape, bias_shape), at_bias),
        scale.shape@.len() <= value.shape@.len(),
        bias.shape@.len() <= value.shape@.len(),
    ensures
        !(path is Fallback) ==> at_scale == 0,
        !(path is Fallback) ==> value.dtype is I32 && scale.dtype is F32 && bias.dtype is F32,
        path matches AffinePath::LastAxis { last } ==> last == value.shape@.last() && last > 0
            && at_bias == i as int % last as int,
        path is ScalarBias ==> at_bias == 0,
{
    if !(path is Fallback) {
        let large = value.shape@;
        lemma_all_ones(scale.shape@, scale.shape@.len());
        if scale.shape@.len() > 0 {
            lemma_along_last(i as int, large, scale.shape@, scale.shape@.len());
            assert(scale.shape@[scale.shape@.len() - 1] == 1);
        }
        if path is ScalarBias {
            lemma_all_ones(bias.shape@, bias.shape@.len());
        }
        if bias.shape@.len() > 0 {
            lemma_along_last(i as int, large, bias.shape@, bias.shape@.len());
            if path is ScalarBias {
                assert(bias.shape@[bias.shape@.len() - 1] == 1);
            }
        }
    }
}

/// A fused sweep runs wherever one can: on a 32-bit integer product with a
/// last axis that is not empty, a single float scale, and a float bias that is
/// ones but for the last axis or a single one.
pub proof fn law_sweeps_run(
    value: &TensorLayout,
    scale: &TensorLayout,
    bias: &TensorLayout,
    path: AffinePath,
)
    requires
        call_ensures(affine_path, (value, scale, bias), path),
        value.dtype is I32 && scale.dtype is F32 && bias.dtype is F32,
        value.shape@.len() > 0,
        value.shape@.last() > 0,
        scale.shape@.fold_left(1int, |n: int, d: usize| n * d) == 1,
    ensures
        bias.shape@.len() > 0 && bias.shape@.last() == value.shape@.last() && (forall|k: int|
            0 <= k < bias.shape@.len() - 1 ==> #[trigger] bias.shape@[k] == 1)
            ==> path == (AffinePath::LastAxis { last: value.shape@.last() }),
        bias.shape@.fold_left(1int, |n: int, d: usize| n * d) == 1 ==> !(path is Fallback),
{
    lemma_count_is_a_product(scale.shape@);
    lemma_count_is_a_product(bias.shape@);
}

/// Reading place `axis` back, from the end, out of an index: later axes do not
/// change it.
proof fn lemma_digit(x: int, t: int, e: int, more: int)
    requires
        t > 0,
        e > 0,
        0 <= x,
        0 <= more,
    ensures
        ((x + more * (t * e)) / t) % e == (x / t) % e,
{
    let k = more * e;
    assert(more * (t * e) == k * t) by (nonlinear_arith)
        requires
            k == more * e,
    ;
    vstd::arithmetic::div_mod::lemma_fundamental_div_mod(x, t);
    vstd::arithmetic::div_mod::lemma_mod_bound(x, t);
    assert((x / t + k) * t == t * (x / t) + k * t) by (nonlinear_arith);
    vstd::arithmetic::div_mod::lemma_fundamental_div_mod_converse(
        x + k * t,
        t,
        x / t + k,
        x % t,
    );
    vstd::arithmetic::div_mod::lemma_mod_multiples_vanish(more, x / t, e);
    assert(more * e == e * more) by (nonlinear_arith);
}

proof fn lemma_tail_extent_positive(shape: Seq<usize>, axes: nat)
    requires
        axes <= shape.len(),
        forall|a: int| 0 <= a < shape.len() ==> #[trigger] shape[a] > 0,
    ensures
        tail_extent(shape, axes) > 0,
    decreases axes,
{
    if axes > 0 {
        lemma_tail_extent_positive(shape, (axes - 1) as nat);
        let a = tail_extent(shape, (axes - 1) as nat);
        let b = shape[shape.len() - axes] as int;
        assert(a * b > 0) by (nonlinear_arith)
            requires
                a > 0,
                b > 0,
        ;
    }
}

proof fn lemma_broadcast_digits(i: int, large: Seq<usize>, small: Seq<usize>, axes: nat, axis: nat)
    requires
        axis < axes <= small.len(),
        0 <= i,
        broadcasts(large, small),
        forall|a: int| 0 <= a < large.len() ==> #[trigger] large[a] > 0,
        forall|a: int| 0 <= a < small.len() ==> #[trigger] small[a] > 0,
    ensures
        0 <= broadcast_from(i, large, small, axes) < tail_extent(small, axes),
        place_along(broadcast_from(i, large, small, axes), small, axis) == (if small[small.len() - 1
            - axis] == 1 {
            0
        } else {
            place_along(i, large, axis)
        }),
    decreases axes,
{
    let top = (axes - 1) as nat;
    let t = tail_extent(small, top);
    let own = small[small.len() - axes] as int;
    lemma_tail_extent_positive(small, top);
    lemma_tail_extent_positive(large, top);
    let extent = large[large.len() - axes] as int;
    assert(own == 1 || own == extent) by {
        let a = axes as int;
        assert(small[small.len() - a] == 1 || small[small.len() - a] == large[large.len() - a]);
    }
    let place = if own == 1 {
        0
    } else {
        place_along(i, large, top)
    };
    let low = broadcast_from(i, large, small, top);
    if top > 0 {
        lemma_broadcast_digits(i, large, small, top, 0);
    }
    assert(0 <= low < t);
    assert(0 <= place < own) by {
        let l = tail_extent(large, top);
        assert(large.len() - 1 - top == large.len() - axes);
        vstd::arithmetic::div_mod::lemma_mod_bound(i / l, extent);
    }
    let all = low + place * t;
    assert(0 <= all < t * own) by (nonlinear_arith)
        requires
            all == low + place * t,
            0 <= low < t,
            0 <= place < own,
    ;
    if axis == top {
        vstd::arithmetic::div_mod::lemma_fundamental_div_mod_converse(all, t, place, low);
        vstd::arithmetic::div_mod::lemma_small_mod(place as nat, own as nat);
        assert(small.len() - 1 - axis == small.len() - axes);
    } else {
        lemma_broadcast_digits(i, large, small, top, axis);
        let s = tail_extent(small, axis);
        let e = small[small.len() - 1 - axis] as int;
        lemma_tail_extent_positive(small, axis);
        let m = lemma_tail_extent_divides(small, (axis + 1) as nat, top);
        assert(tail_extent(small, (axis + 1) as nat) == s * e);
        assert(place * t == (place * m) * (s * e)) by (nonlinear_arith)
            requires
                t == m * (s * e),
        ;
        assert(0 <= place * m) by (nonlinear_arith)
            requires
                place >= 0,
                m >= 0,
        ;
        lemma_digit(low, s, e, place * m);
    }
}

/// The extent of more axes is a multiple of that of fewer.
proof fn lemma_tail_extent_divides(shape: Seq<usize>, few: nat, more: nat) -> (m: int)
    requires
        few <= more <= shape.len(),
    ensures
        m >= 0,
        tail_extent(shape, more) == m * tail_extent(shape, few),
    decreases more,
{
    if few == more {
        let t = tail_extent(shape, few);
        assert(1 * t == t);
        1
    } else {
        let k = lemma_tail_extent_divides(shape, few, (more - 1) as nat);
        let d = shape[shape.len() - more] as int;
        let t = tail_extent(shape, few);
        assert(k * t * d == (k * d) * t) by (nonlinear_arith);
        assert(k * d >= 0) by (nonlinear_arith)
            requires
                k >= 0,
                d >= 0,
        ;
        k * d
    }
}

/// The element that goes with element `i` stands, along every axis counted
/// from the last one, where `i` stands, and at the start of an axis of one.
pub proof fn law_broadcast_places(
    i: usize,
    large: &[usize],
    small: &[usize],
    r: usize,
    axis: nat,
)
    requires
        call_ensures(broadcast_index, (i, large, small), r),
        broadcasts(large@, small@),
        forall|a: int| 0 <= a < large@.len() ==> #[trigger] large@[a] > 0,
        axis < small@.len(),
    ensures
        ({
            let there = (r as int / tail_extent(small@, axis)) % (small@[small@.len() - 1
                - axis] as int);
            let here = (i as int / tail_extent(large@, axis)) % (large@[large@.len() - 1
                - axis] as int);
            if small@[small@.len() - 1 - axis] == 1 {
                there == 0
            } else {
                there == here
            }
        }),
{
    assert forall|a: int| 0 <= a < small@.len() implies #[trigger] small@[a] > 0 by {
        let b = small@.len() - a;
        assert(small@[small@.len() - b] == 1 || small@[small@.len() - b] == large@[large@.len()
            - b]);
    }
    lemma_broadcast_digits(i as int, large@, small@, small@.len(), axis);
}

/// The extents of the last axes multiply from the end, and of all of them to
/// the number of elements.
pub proof fn law_tail_extents(shape: Seq<usize>, axes: nat)
    requires
        axes <= shape.len(),
    ensures
        tail_extent(shape, axes) == shape.subrange(
            shape.len() - axes,
            shape.len() as int,
        ).fold_right_alt(|d: usize, n: int| d * n, 1int),
    decreases axes,
{
    let f = |d: usize, n: int| d * n;
    let part = shape.subrange(shape.len() - axes, shape.len() as int);
    reveal_with_fuel(Seq::fold_right_alt, 2);
    if axes > 0 {
        law_tail_extents(shape, (axes - 1) as nat);
        let rest = shape.subrange(shape.len() - axes + 1, shape.len() as int);
        assert(part.subrange(1, part.len() as int) =~= rest);
        assert(part[0] == shape[shape.len() - axes]);
        let t = tail_extent(shape, (axes - 1) as nat);
        let d = shape[shape.len() - axes] as int;
        assert(t * d == d * t) by (nonlinear_arith);
    }
}

} // verus!
