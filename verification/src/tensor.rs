//! Float tensors: what they hold, and the operations on them that the model needs.
//!
//! A [`FloatTensor`] carries a tensor of burn's CPU backend. Its view gives the length of every
//! axis and the elements in row-major order, each element as the bit pattern of a 32-bit float.
//! Operations that move elements state where each one goes. Operations that compute with them
//! state which elements each result is computed from; the rounding of the arithmetic is left to
//! the backend and stands behind a relation between operands and result, because it may differ
//! from one machine to the next.
//!
//! Every axis of a tensor is at least one long. Running out of memory is outside of what the
//! contracts speak of, as is a result of operands in memory that would have more elements than
//! `usize` counts. The element types of the backend are those it starts with.
use burn::backend::flex::FlexTensor;
use burn::tensor::{DType, TensorData, TensorMetadata};
use vstd::arithmetic::power2::pow2;
use vstd::prelude::*;

use crate::float::{magnitude, rounds_to, units, INFINITY};
use crate::ops;

verus! {

/// The tensor of burn's CPU backend, of any rank.
#[verifier::external_type_specification]
#[verifier::external_body]
pub struct ExFlexTensor(FlexTensor);

/// The lengths of a backend tensor's axes, outermost first.
pub uninterp spec fn tensor_dims(t: FlexTensor) -> Seq<nat>;

/// The elements of a backend tensor of 32-bit floats in row-major order, as bit patterns.
pub uninterp spec fn tensor_data(t: FlexTensor) -> Seq<u32>;

/// What a tensor holds: the length of every axis and the elements in row-major order.
pub struct TensorView {
    pub dims: Seq<nat>,
    pub data: Seq<u32>,
}

/// A tensor of 32-bit floats.
#[derive(Debug)]
pub struct FloatTensor {
    pub(crate) inner: FlexTensor,
}

impl View for FloatTensor {
    type V = TensorView;

    closed spec fn view(&self) -> TensorView {
        TensorView { dims: tensor_dims(self.inner), data: tensor_data(self.inner) }
    }
}

/// The number of elements of a tensor with these axes.
pub open spec fn volume(dims: Seq<nat>) -> nat
    decreases dims.len(),
{
    if dims.len() == 0 {
        1
    } else {
        volume(dims.drop_last()) * dims.last()
    }
}

/// Whether `idx` names an element of a tensor with these axes.
pub open spec fn in_bounds(dims: Seq<nat>, idx: Seq<int>) -> bool {
    &&& idx.len() == dims.len()
    &&& forall|i: int| 0 <= i < dims.len() ==> 0 <= #[trigger] idx[i] < dims[i]
}

/// The place of the element `idx` in row-major order.
pub open spec fn offset(dims: Seq<nat>, idx: Seq<int>) -> int
    decreases dims.len(),
{
    if dims.len() == 0 {
        0
    } else {
        offset(dims.drop_last(), idx.drop_last()) * dims.last() + idx.last()
    }
}

impl TensorView {
    /// Every axis is at least one long and fits the machine, and the elements fill the axes.
    pub open spec fn wf(self) -> bool {
        &&& self.dims.len() > 0
        &&& forall|i: int| 0 <= i < self.dims.len() ==> 0 < #[trigger] self.dims[i] <= usize::MAX
        &&& self.data.len() == volume(self.dims)
    }

    /// The element at `idx`.
    pub open spec fn at(self, idx: Seq<int>) -> u32 {
        self.data[offset(self.dims, idx)]
    }

    /// The same elements in the same order under other axes.
    pub open spec fn reshaped(self, dims: Seq<nat>) -> TensorView {
        TensorView { dims, data: self.data }
    }
}

/// Machine integers as naturals.
pub open spec fn nats(s: Seq<usize>) -> Seq<nat> {
    s.map_values(|x: usize| x as nat)
}

/// Whether two tensors can be combined element by element: along every axis they are equally
/// long, or one of them is one long and is read again and again.
pub open spec fn broadcastable(a: Seq<nat>, b: Seq<nat>) -> bool {
    &&& a.len() == b.len()
    &&& forall|i: int| 0 <= i < a.len() ==> (#[trigger] a[i] == b[i] || a[i] == 1 || b[i] == 1)
}

/// The axes of a combination element by element.
pub open spec fn broadcast_dims(a: Seq<nat>, b: Seq<nat>) -> Seq<nat> {
    Seq::new(a.len(), |i: int| if a[i] == 1 { b[i] } else { a[i] })
}

/// The index at which an operand with axes `dims` is read for the result's element `idx`.
pub open spec fn source_index(dims: Seq<nat>, idx: Seq<int>) -> Seq<int> {
    Seq::new(idx.len(), |i: int| if dims[i] == 1 { 0 } else { idx[i] })
}

/// `r` is a possible result of rounding `a + b`, as bit patterns of 32-bit floats.
pub uninterp spec fn sum_outcome(a: u32, b: u32, r: u32) -> bool;

/// `r` is a possible result of rounding `a - b`.
pub uninterp spec fn difference_outcome(a: u32, b: u32, r: u32) -> bool;

/// `r` is a possible result of rounding `a * b`.
pub uninterp spec fn product_outcome(a: u32, b: u32, r: u32) -> bool;

/// `r` is a possible result of `a / b`: the float nearest to the quotient, with the sign that the
/// operands' signs give, and an infinity, a zero or a NaN where IEEE 754 has one. Any NaN is
/// possible where a NaN is.
#[verifier::opaque]
pub open spec fn quotient_outcome(a: u32, b: u32, r: u32) -> bool {
    let (x, y, z) = (magnitude(a), magnitude(b), magnitude(r));
    if is_nan(a) || is_nan(b) || (x == 0 && y == 0) || (x == INFINITY && y == INFINITY) {
        is_nan(r)
    } else {
        &&& (r < 0x8000_0000) == ((a < 0x8000_0000) == (b < 0x8000_0000))
        &&& if x == INFINITY || y == 0 {
            z == INFINITY
        } else if y == INFINITY {
            z == 0
        } else {
            rounds_to(units(x) * pow2(149), units(y), z)
        }
    }
}

/// `r` is a possible result of raising `a` to the power `b`.
pub uninterp spec fn power_outcome(a: u32, b: u32, r: u32) -> bool;

/// `r` is a possible result of taking the cosine of `a`.
pub uninterp spec fn cosine_outcome(a: u32, r: u32) -> bool;

/// `r` is a possible result of taking the sine of `a`.
pub uninterp spec fn sine_outcome(a: u32, r: u32) -> bool;

/// `r` is a possible result of applying SiLU to `a`.
pub uninterp spec fn silu_outcome(a: u32, r: u32) -> bool;

/// `r` holds the sums of the elements of `a` and `b`.
pub open spec fn sums(a: TensorView, b: TensorView, r: TensorView) -> bool {
    &&& r.wf()
    &&& r.dims == broadcast_dims(a.dims, b.dims)
    &&& forall|idx: Seq<int>| in_bounds(r.dims, idx) ==> sum_outcome(
        a.at(source_index(a.dims, idx)),
        b.at(source_index(b.dims, idx)),
        #[trigger] r.at(idx),
    )
}

/// `r` holds the elements of `a` and then those of `b` along axis `dim`.
pub open spec fn concatenated(a: TensorView, b: TensorView, dim: int, r: TensorView) -> bool {
    &&& r.wf()
    &&& r.dims == a.dims.update(dim, a.dims[dim] + b.dims[dim])
    &&& forall|idx: Seq<int>| in_bounds(r.dims, idx) ==> #[trigger] r.at(idx) == (if idx[dim]
        < a.dims[dim] {
        a.at(idx)
    } else {
        b.at(idx.update(dim, idx[dim] - a.dims[dim]))
    })
}

/// `r` is the part of `t` that starts at `starts` and is `r.dims` long.
pub open spec fn sliced(t: TensorView, starts: Seq<nat>, r: TensorView) -> bool {
    &&& r.wf()
    &&& r.dims.len() == t.dims.len() == starts.len()
    &&& forall|idx: Seq<int>| in_bounds(r.dims, idx) ==> #[trigger] r.at(idx) == t.at(
        Seq::new(idx.len(), |i: int| starts[i] + idx[i]),
    )
}

/// `r` is `t` with axis `dim` repeated `times` times.
pub open spec fn repeated(t: TensorView, dim: int, times: nat, r: TensorView) -> bool {
    &&& r.wf()
    &&& r.dims == t.dims.update(dim, t.dims[dim] * times)
    &&& forall|idx: Seq<int>| in_bounds(r.dims, idx) ==> #[trigger] r.at(idx) == t.at(
        idx.update(dim, idx[dim] % (t.dims[dim] as int)),
    )
}

/// `r` is the rank four tensor `t` with its two middle axes exchanged.
pub open spec fn middle_swapped(t: TensorView, r: TensorView) -> bool {
    &&& r.wf()
    &&& r.dims == seq![t.dims[0], t.dims[2], t.dims[1], t.dims[3]]
    &&& forall|idx: Seq<int>| in_bounds(r.dims, idx) ==> #[trigger] r.at(idx) == t.at(
        seq![idx[0], idx[2], idx[1], idx[3]],
    )
}

/// Whether a bit pattern is a NaN.
pub open spec fn is_nan(bits: u32) -> bool {
    bits % 0x8000_0000 > 0x7f80_0000
}

/// The place of a float that is no NaN in the order of floats; both zeros are at 0.
pub open spec fn order_key(bits: u32) -> int {
    if bits >= 0x8000_0000 {
        -(bits - 0x8000_0000)
    } else {
        bits as int
    }
}

/// `best` is the first index of a greatest element of `row`.
pub open spec fn is_first_max(row: Seq<u32>, best: int) -> bool {
    &&& 0 <= best < row.len()
    &&& forall|j: int| 0 <= j < row.len() ==> order_key(#[trigger] row[j]) <= order_key(row[best])
    &&& forall|j: int| 0 <= j < best ==> order_key(#[trigger] row[j]) < order_key(row[best])
}

/// Row `b` of a tensor of rank two.
pub open spec fn row_of(t: TensorView, b: int) -> Seq<u32> {
    Seq::new(t.dims[1], |j: int| t.at(seq![b, j]))
}

/// The elements of a tensor along its last axis, the other indices being `prefix`.
pub open spec fn last_axis(t: TensorView, prefix: Seq<int>) -> Seq<u32> {
    Seq::new(t.dims.last(), |i: int| t.at(prefix.push(i)))
}

/// The index of an element of a tensor of rank four.
pub open spec fn ix4(a: int, b: int, c: int, d: int) -> Seq<int> {
    seq![a, b, c, d]
}

/// The index of an element of a tensor of rank three.
pub open spec fn ix3(a: int, b: int, c: int) -> Seq<int> {
    seq![a, b, c]
}

/// The lengths of a tensor's axes, from `TensorMetadata::shape`.
#[verifier::external_body]
fn shape_of(t: &FloatTensor) -> (r: Vec<usize>)
    ensures
        nats(r@) == tensor_dims(t.inner),
{
    t.inner.shape().iter().copied().collect()
}

/// A tensor's elements in row-major order, from `FlexTensor::into_data`, which copies a tensor
/// that is laid out otherwise into that order first.
#[verifier::external_body]
fn data_of(t: &FloatTensor) -> (r: Vec<u32>)
    requires
        t@.wf(),
    ensures
        r@ == tensor_data(t.inner),
{
    let data = t.inner.clone().into_data();
    TensorData { dtype: DType::U32, ..data }.into_vec().unwrap()
}

impl Clone for FloatTensor {
    fn clone(&self) -> (r: FloatTensor)
        ensures
            r@ == self@,
    {
        ops::share(self)
    }
}

impl FloatTensor {
    /// The length of every axis, outermost first.
    pub fn dims(&self) -> (r: Vec<usize>)
        ensures
            nats(r@) == self@.dims,
            r@.len() == self@.dims.len(),
            forall|i: int| 0 <= i < r@.len() ==> #[trigger] r@[i] == self@.dims[i],
    {
        let r = shape_of(self);
        assert(forall|i: int| 0 <= i < r@.len() ==> #[trigger] r@[i] == nats(r@)[i]);
        r
    }

    /// The elements in row-major order.
    pub fn to_bits(&self) -> (r: Vec<u32>)
        requires
            self@.wf(),
        ensures
            r@ == self@.data,
    {
        data_of(self)
    }

    /// The tensor with the given axes and elements, if the axes are not empty, each is at least
    /// one long, and the elements fill them.
    pub fn from_bits(dims: Vec<usize>, bits: Vec<u32>) -> (r: Option<FloatTensor>)
        ensures
            r is Some <==> (TensorView { dims: nats(dims@), data: bits@ }).wf(),
            r matches Some(t) ==> t@ == (TensorView { dims: nats(dims@), data: bits@ }),
    {
        let ghost shape = nats(dims@);
        if dims.len() == 0 {
            return None;
        }
        let mut total: usize = 1;
        let mut i: usize = 0;
        assert(shape.take(0) =~= Seq::<nat>::empty());
        while i < dims.len()
            invariant
                0 <= i <= dims@.len(),
                shape == nats(dims@),
                total == volume(shape.take(i as int)),
                0 < total <= bits@.len() || i == 0,
                total >= 1,
                forall|j: int| 0 <= j < i ==> 0 < #[trigger] shape[j],
            decreases dims@.len() - i,
        {
            let n: usize = dims[i];
            assert(shape[i as int] == n as nat);
            assert(shape.take(i + 1).drop_last() =~= shape.take(i as int));
            assert(shape.take(i + 1).last() == n as nat);
            if n == 0 {
                return None;
            }
            if n > bits.len() / total {
                proof {
                    lemma_volume_grows(shape, i + 1);
                    assert(total * n > bits@.len()) by (nonlinear_arith)
                        requires
                            n > bits@.len() as int / total as int,
                            total > 0,
                    ;
                }
                return None;
            }
            proof {
                assert(total * n <= bits@.len()) by (nonlinear_arith)
                    requires
                        n <= bits@.len() as int / total as int,
                        total > 0,
                ;
                assert(total * n > 0) by (nonlinear_arith)
                    requires
                        n > 0,
                        total > 0,
                ;
            }
            total = total * n;
            i += 1;
        }
        assert(shape.take(dims@.len() as int) =~= shape);
        if total != bits.len() {
            return None;
        }
        Some(ops::from_data(dims, bits))
    }
}

/// The first axes of a tensor hold no more than all of them, if none is empty.
proof fn lemma_volume_grows(dims: Seq<nat>, n: int)
    requires
        0 <= n <= dims.len(),
    ensures
        (forall|i: int| n <= i < dims.len() ==> 0 < #[trigger] dims[i]) ==> volume(dims.take(n))
            <= volume(dims),
    decreases dims.len() - n,
{
    if n < dims.len() {
        lemma_volume_grows(dims, n + 1);
        assert(dims.take(n + 1).drop_last() =~= dims.take(n));
        assert(dims.take(n + 1).last() == dims[n]);
        if dims[n] > 0 {
            assert(volume(dims.take(n)) <= volume(dims.take(n)) * dims[n]) by (nonlinear_arith)
                requires
                    dims[n] >= 1,
            ;
        }
    } else {
        assert(dims.take(n) =~= dims);
    }
}

/// The place of an element of a tensor of rank four.
pub proof fn lemma_offset4(dims: Seq<nat>, idx: Seq<int>)
    requires
        dims.len() == 4,
        idx.len() == 4,
    ensures
        offset(dims, idx) == ((idx[0] * dims[1] + idx[1]) * dims[2] + idx[2]) * dims[3] + idx[3],
        volume(dims) == dims[0] * dims[1] * dims[2] * dims[3],
{
    reveal_with_fuel(offset, 5);
    reveal_with_fuel(volume, 5);
    assert(0 * dims[0] == 0) by (nonlinear_arith);
}

/// The place of an element of a tensor of rank two.
pub proof fn lemma_offset2(dims: Seq<nat>, row: int, col: int)
    requires
        dims.len() == 2,
    ensures
        offset(dims, seq![row, col]) == row * dims[1] + col,
        volume(dims) == dims[0] * dims[1],
{
    reveal_with_fuel(offset, 3);
    reveal_with_fuel(volume, 3);
    let idx = seq![row, col];
    assert(idx.drop_last() =~= seq![row]);
    assert(0 * dims[0] == 0) by (nonlinear_arith);
}

/// The place of an element of a tensor of rank three.
pub proof fn lemma_offset3(dims: Seq<nat>, idx: Seq<int>)
    requires
        dims.len() == 3,
        idx.len() == 3,
    ensures
        offset(dims, idx) == (idx[0] * dims[1] + idx[1]) * dims[2] + idx[2],
        volume(dims) == dims[0] * dims[1] * dims[2],
{
    reveal_with_fuel(offset, 4);
    reveal_with_fuel(volume, 4);
    assert(0 * dims[0] == 0) by (nonlinear_arith);
}

/// The place of an element of a tensor of rank five.
pub proof fn lemma_offset5(dims: Seq<nat>, idx: Seq<int>)
    requires
        dims.len() == 5,
        idx.len() == 5,
    ensures
        offset(dims, idx) == (((idx[0] * dims[1] + idx[1]) * dims[2] + idx[2]) * dims[3] + idx[3])
            * dims[4] + idx[4],
        volume(dims) == dims[0] * dims[1] * dims[2] * dims[3] * dims[4],
{
    reveal_with_fuel(offset, 6);
    reveal_with_fuel(volume, 6);
    assert(0 * dims[0] == 0) by (nonlinear_arith);
}

/// An index within the axes has a place among the elements.
pub proof fn lemma_offset_in_volume(dims: Seq<nat>, idx: Seq<int>)
    requires
        in_bounds(dims, idx),
    ensures
        0 <= offset(dims, idx) < volume(dims),
    decreases dims.len(),
{
    if dims.len() > 0 {
        let d = dims.drop_last();
        let i = idx.drop_last();
        assert(in_bounds(d, i)) by {
            assert forall|k: int| 0 <= k < d.len() implies 0 <= #[trigger] i[k] < d[k] by {
                assert(idx[k] == i[k]);
            }
        }
        lemma_offset_in_volume(d, i);
        let n = idx.len() - 1;
        assert(0 <= idx[n] < dims[n]);
        assert(0 <= offset(d, i) * dims.last() + idx.last() < volume(d) * dims.last())
            by (nonlinear_arith)
            requires
                0 <= offset(d, i) < volume(d),
                0 <= idx.last() < dims.last(),
        ;
    }
}

/// Every place among the elements has an index.
proof fn lemma_index_at(dims: Seq<nat>, place: int) -> (idx: Seq<int>)
    requires
        0 <= place < volume(dims),
        forall|i: int| 0 <= i < dims.len() ==> 0 < #[trigger] dims[i],
    ensures
        in_bounds(dims, idx),
        offset(dims, idx) == place,
    decreases dims.len(),
{
    if dims.len() == 0 {
        Seq::empty()
    } else {
        let d = dims.drop_last();
        let n = dims.last() as int;
        assert(dims[dims.len() - 1] > 0);
        assert(forall|i: int| 0 <= i < d.len() ==> d[i] == dims[i]);
        assert(0 <= place / n < volume(d) && 0 <= place % n < n && place == (place / n) * n + place
            % n) by (nonlinear_arith)
            requires
                0 <= place < volume(d) * n,
                n > 0,
        ;
        let i = lemma_index_at(d, place / n);
        let idx = i.push(place % n);
        assert(idx.drop_last() =~= i);
        assert(in_bounds(dims, idx)) by {
            assert forall|k: int| 0 <= k < dims.len() implies 0 <= #[trigger] idx[k] < dims[k] by {
                if k < d.len() {
                    assert(idx[k] == i[k]);
                }
            }
        }
        idx
    }
}

/// Two tensors with the same axes and the same element at every index are the same.
pub proof fn lemma_same_elements(a: TensorView, b: TensorView)
    requires
        a.wf(),
        b.wf(),
        a.dims == b.dims,
        forall|idx: Seq<int>| in_bounds(a.dims, idx) ==> #[trigger] a.at(idx) == b.at(idx),
    ensures
        a == b,
{
    assert forall|i: int| 0 <= i < a.data.len() implies a.data[i] == b.data[i] by {
        let idx = lemma_index_at(a.dims, i);
        assert(a.at(idx) == b.at(idx));
    }
    assert(a.data =~= b.data);
}

} // verus!
