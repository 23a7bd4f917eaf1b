//! The tensor operations of burn that the model calls.
//!
//! Each function here hands its arguments to one function of burn and hands the result back. Its
//! contract is what the model's own contracts rest on.
use burn::backend::flex::FlexTensor;
use burn::backend::Flex;
use burn::tensor::{
    activation, Bool, DType, Tensor, TensorData, TensorPrimitive,
};
use vstd::arithmetic::power2::pow2;
use vstd::prelude::*;

use crate::float::nearest_signed;
use crate::tensor::{
    broadcast_dims, broadcastable, concatenated, cosine_outcome, difference_outcome, in_bounds,
    is_first_max, is_nan, middle_swapped, nats, power_outcome, product_outcome, quotient_outcome,
    repeated, row_of, silu_outcome, sine_outcome, sliced, source_index, sum_outcome, volume,
    FloatTensor, TensorView,
};

verus! {

/// The 32-bit float nearest to an integer, ties to even, as a bit pattern.
#[verifier::opaque]
pub open spec fn nearest_float(value: i64) -> u32 {
    nearest_signed(value * pow2(149))
}

/// `r` is a possible result of rounding the 64-bit float `a` to 32 bits.
pub uninterp spec fn narrowing_outcome(a: u64, r: u32) -> bool;

/// `r` is a possible result of rounding entry `i` of the softmax of `row`.
pub uninterp spec fn softmax_outcome(row: Seq<u32>, i: int, r: u32) -> bool;

/// A tensor of given elements, by `FlexTensor::from_data`.
#[verifier::external_body]
pub(crate) fn from_data(dims: Vec<usize>, bits: Vec<u32>) -> (r: FloatTensor)
    requires
        (TensorView { dims: nats(dims@), data: bits@ }).wf(),
    ensures
        r@ == (TensorView { dims: nats(dims@), data: bits@ }),
{
    let data = TensorData { dtype: DType::F32, ..TensorData::new(bits, dims) };
    FloatTensor { inner: FlexTensor::from_data(data) }
}

/// A second handle on the same elements, by `FlexTensor::clone`.
#[verifier::external_body]
pub(crate) fn share(t: &FloatTensor) -> (r: FloatTensor)
    ensures
        r@ == t@,
{
    FloatTensor { inner: t.inner.clone() }
}

/// A tensor of integers turned into floats, by `TensorData::convert_dtype`, which rounds each to
/// the nearest float.
#[verifier::external_body]
pub(crate) fn from_ints(dims: Vec<usize>, values: Vec<i64>) -> (r: FloatTensor)
    requires
        dims@.len() > 0,
        forall|i: int| 0 <= i < dims@.len() ==> 0 < #[trigger] dims@[i] <= usize::MAX,
        values@.len() == volume(nats(dims@)),
    ensures
        r@.wf(),
        r@.dims == nats(dims@),
        forall|i: int|
            0 <= i < values@.len() ==> #[trigger] r@.data[i] == nearest_float(values@[i]),
{
    let data = TensorData::new(values, dims).convert_dtype(DType::F32);
    FloatTensor { inner: FlexTensor::from_data(data) }
}

/// A 64-bit float as a tensor of rank four that holds it alone, by `TensorData::convert_dtype`,
/// which rounds it to 32 bits.
#[verifier::external_body]
pub(crate) fn from_double(bits: u64) -> (r: FloatTensor)
    ensures
        r@.wf(),
        r@.dims == seq![1nat, 1nat, 1nat, 1nat],
        narrowing_outcome(bits, r@.data[0]),
{
    let double = TensorData { dtype: DType::F64, ..TensorData::new(vec![bits], [1, 1, 1, 1]) };
    FloatTensor { inner: FlexTensor::from_data(double.convert_dtype(DType::F32)) }
}

/// `Tensor::reshape`: the same elements in the same row-major order under other axes.
#[verifier::external_body]
pub(crate) fn reshape<const D: usize, const E: usize>(t: &FloatTensor, dims: [usize; E]) -> (r:
    FloatTensor)
    requires
        t@.wf(),
        t@.dims.len() == D,
        t@.reshaped(nats(dims@)).wf(),
    ensures
        r@ == t@.reshaped(nats(dims@)),
{
    let t = Tensor::<Flex, D>::from_primitive(TensorPrimitive::Float(t.inner.clone()));
    FloatTensor { inner: t.reshape(dims).into_primitive().tensor() }
}

/// `Tensor::slice` with one range of indices for every axis.
#[verifier::external_body]
pub(crate) fn slice<const D: usize>(
    t: &FloatTensor,
    starts: [usize; D],
    ends: [usize; D],
) -> (r: FloatTensor)
    requires
        t@.wf(),
        t@.dims.len() == D,
        forall|i: int| 0 <= i < D ==> #[trigger] starts@[i] < ends@[i] <= t@.dims[i],
    ensures
        r@.dims == Seq::new(D as nat, |i: int| (ends@[i] - starts@[i]) as nat),
        sliced(t@, nats(starts@), r@),
{
    let t = Tensor::<Flex, D>::from_primitive(TensorPrimitive::Float(t.inner.clone()));
    let ranges: [std::ops::Range<usize>; D] = std::array::from_fn(|i| starts[i]..ends[i]);
    FloatTensor { inner: t.slice(ranges).into_primitive().tensor() }
}

/// `Tensor::cat` of two tensors along axis `dim`.
#[verifier::external_body]
pub(crate) fn cat<const D: usize>(a: &FloatTensor, b: &FloatTensor, dim: usize) -> (r: FloatTensor)
    requires
        a@.wf(),
        b@.wf(),
        a@.dims.len() == D,
        b@.dims.len() == D,
        dim < D,
        forall|i: int| 0 <= i < D && i != dim ==> #[trigger] a@.dims[i] == b@.dims[i],
        a@.dims[dim as int] + b@.dims[dim as int] <= usize::MAX,
    ensures
        concatenated(a@, b@, dim as int, r@),
{
    let a = Tensor::<Flex, D>::from_primitive(TensorPrimitive::Float(a.inner.clone()));
    let b = Tensor::<Flex, D>::from_primitive(TensorPrimitive::Float(b.inner.clone()));
    FloatTensor { inner: Tensor::cat(vec![a, b], dim).into_primitive().tensor() }
}

/// `Tensor::repeat_dim`: axis `dim` repeated as a whole, again and again.
#[verifier::external_body]
pub(crate) fn repeat_dim<const D: usize>(t: &FloatTensor, dim: usize, times: usize) -> (r:
    FloatTensor)
    requires
        t@.wf(),
        t@.dims.len() == D,
        dim < D,
        times > 0,
        t@.dims[dim as int] * times <= usize::MAX,
    ensures
        repeated(t@, dim as int, times as nat, r@),
{
    let t = Tensor::<Flex, D>::from_primitive(TensorPrimitive::Float(t.inner.clone()));
    FloatTensor { inner: t.repeat_dim(dim, times).into_primitive().tensor() }
}

/// `Tensor::movedim(1, 2)` of a tensor of rank four.
#[verifier::external_body]
pub(crate) fn swap_middle(t: &FloatTensor) -> (r: FloatTensor)
    requires
        t@.wf(),
        t@.dims.len() == 4,
    ensures
        middle_swapped(t@, r@),
{
    let t = Tensor::<Flex, 4>::from_primitive(TensorPrimitive::Float(t.inner.clone()));
    FloatTensor { inner: t.movedim(1usize, 2usize).into_primitive().tensor() }
}

/// `Tensor::add`: sums element by element.
#[verifier::external_body]
pub(crate) fn plus<const D: usize>(a: &FloatTensor, b: &FloatTensor) -> (r: FloatTensor)
    requires
        a@.wf(),
        b@.wf(),
        a@.dims.len() == D,
        broadcastable(a@.dims, b@.dims),
    ensures
        r@.wf(),
        r@.dims == broadcast_dims(a@.dims, b@.dims),
        forall|idx: Seq<int>|
            in_bounds(r@.dims, idx) ==> sum_outcome(
                a@.at(source_index(a@.dims, idx)),
                b@.at(source_index(b@.dims, idx)),
                #[trigger] r@.at(idx),
            ),
{
    let a = Tensor::<Flex, D>::from_primitive(TensorPrimitive::Float(a.inner.clone()));
    let b = Tensor::<Flex, D>::from_primitive(TensorPrimitive::Float(b.inner.clone()));
    FloatTensor { inner: a.add(b).into_primitive().tensor() }
}

/// `Tensor::sub`: differences element by element.
#[verifier::external_body]
pub(crate) fn minus<const D: usize>(a: &FloatTensor, b: &FloatTensor) -> (r: FloatTensor)
    requires
        a@.wf(),
        b@.wf(),
        a@.dims.len() == D,
        broadcastable(a@.dims, b@.dims),
    ensures
        r@.wf(),
        r@.dims == broadcast_dims(a@.dims, b@.dims),
        forall|idx: Seq<int>|
            in_bounds(r@.dims, idx) ==> difference_outcome(
                a@.at(source_index(a@.dims, idx)),
                b@.at(source_index(b@.dims, idx)),
                #[trigger] r@.at(idx),
            ),
{
    let a = Tensor::<Flex, D>::from_primitive(TensorPrimitive::Float(a.inner.clone()));
    let b = Tensor::<Flex, D>::from_primitive(TensorPrimitive::Float(b.inner.clone()));
    FloatTensor { inner: a.sub(b).into_primitive().tensor() }
}

/// `Tensor::mul`: products element by element.
#[verifier::external_body]
pub(crate) fn times<const D: usize>(a: &FloatTensor, b: &FloatTensor) -> (r: FloatTensor)
    requires
        a@.wf(),
        b@.wf(),
        a@.dims.len() == D,
        broadcastable(a@.dims, b@.dims),
    ensures
        r@.wf(),
        r@.dims == broadcast_dims(a@.dims, b@.dims),
        forall|idx: Seq<int>|
            in_bounds(r@.dims, idx) ==> product_outcome(
                a@.at(source_index(a@.dims, idx)),
                b@.at(source_index(b@.dims, idx)),
                #[trigger] r@.at(idx),
            ),
{
    let a = Tensor::<Flex, D>::from_primitive(TensorPrimitive::Float(a.inner.clone()));
    let b = Tensor::<Flex, D>::from_primitive(TensorPrimitive::Float(b.inner.clone()));
    FloatTensor { inner: a.mul(b).into_primitive().tensor() }
}

/// `Tensor::div`: quotients element by element, each by one division of 32-bit floats, which
/// rounds to the nearest float.
#[verifier::external_body]
pub(crate) fn divided_by<const D: usize>(a: &FloatTensor, b: &FloatTensor) -> (r: FloatTensor)
    requires
        a@.wf(),
        b@.wf(),
        a@.dims.len() == D,
        broadcastable(a@.dims, b@.dims),
    ensures
        r@.wf(),
        r@.dims == broadcast_dims(a@.dims, b@.dims),
        forall|idx: Seq<int>|
            in_bounds(r@.dims, idx) ==> quotient_outcome(
                a@.at(source_index(a@.dims, idx)),
                b@.at(source_index(b@.dims, idx)),
                #[trigger] r@.at(idx),
            ),
{
    let a = Tensor::<Flex, D>::from_primitive(TensorPrimitive::Float(a.inner.clone()));
    let b = Tensor::<Flex, D>::from_primitive(TensorPrimitive::Float(b.inner.clone()));
    FloatTensor { inner: a.div(b).into_primitive().tensor() }
}

/// `Tensor::powf`: powers element by element.
#[verifier::external_body]
pub(crate) fn to_the_power<const D: usize>(a: &FloatTensor, b: &FloatTensor) -> (r: FloatTensor)
    requires
        a@.wf(),
        b@.wf(),
        a@.dims.len() == D,
        broadcastable(a@.dims, b@.dims),
    ensures
        r@.wf(),
        r@.dims == broadcast_dims(a@.dims, b@.dims),
        forall|idx: Seq<int>|
            in_bounds(r@.dims, idx) ==> power_outcome(
                a@.at(source_index(a@.dims, idx)),
                b@.at(source_index(b@.dims, idx)),
                #[trigger] r@.at(idx),
            ),
{
    let a = Tensor::<Flex, D>::from_primitive(TensorPrimitive::Float(a.inner.clone()));
    let b = Tensor::<Flex, D>::from_primitive(TensorPrimitive::Float(b.inner.clone()));
    FloatTensor { inner: a.powf(b).into_primitive().tensor() }
}

/// `Tensor::cos` of every element.
#[verifier::external_body]
pub(crate) fn cosine<const D: usize>(a: &FloatTensor) -> (r: FloatTensor)
    requires
        a@.wf(),
        a@.dims.len() == D,
    ensures
        r@.wf(),
        r@.dims == a@.dims,
        forall|idx: Seq<int>|
            in_bounds(r@.dims, idx) ==> cosine_outcome(a@.at(idx), #[trigger] r@.at(idx)),
{
    let a = Tensor::<Flex, D>::from_primitive(TensorPrimitive::Float(a.inner.clone()));
    FloatTensor { inner: a.cos().into_primitive().tensor() }
}

/// `Tensor::sin` of every element.
#[verifier::external_body]
pub(crate) fn sine<const D: usize>(a: &FloatTensor) -> (r: FloatTensor)
    requires
        a@.wf(),
        a@.dims.len() == D,
    ensures
        r@.wf(),
        r@.dims == a@.dims,
        forall|idx: Seq<int>|
            in_bounds(r@.dims, idx) ==> sine_outcome(a@.at(idx), #[trigger] r@.at(idx)),
{
    let a = Tensor::<Flex, D>::from_primitive(TensorPrimitive::Float(a.inner.clone()));
    FloatTensor { inner: a.sin().into_primitive().tensor() }
}

/// `activation::silu` of every element.
#[verifier::external_body]
pub(crate) fn silu<const D: usize>(a: &FloatTensor) -> (r: FloatTensor)
    requires
        a@.wf(),
        a@.dims.len() == D,
    ensures
        r@.wf(),
        r@.dims == a@.dims,
        forall|idx: Seq<int>|
            in_bounds(r@.dims, idx) ==> silu_outcome(a@.at(idx), #[trigger] r@.at(idx)),
{
    let a = Tensor::<Flex, D>::from_primitive(TensorPrimitive::Float(a.inner.clone()));
    FloatTensor { inner: activation::silu(a).into_primitive().tensor() }
}

/// `activation::softmax` of the rows of a tensor of rank two.
#[verifier::external_body]
pub(crate) fn softmax(a: &FloatTensor) -> (r: FloatTensor)
    requires
        a@.wf(),
        a@.dims.len() == 2,
    ensures
        r@.wf(),
        r@.dims == a@.dims,
        forall|idx: Seq<int>|
            in_bounds(r@.dims, idx) ==> softmax_outcome(
                row_of(a@, idx[0]),
                idx[1],
                #[trigger] r@.at(idx),
            ),
{
    let a = Tensor::<Flex, 2>::from_primitive(TensorPrimitive::Float(a.inner.clone()));
    FloatTensor { inner: activation::softmax(a, 1).into_primitive().tensor() }
}

/// `Tensor::argmax` of the rows of a tensor of rank two: for every row the first index of a
/// greatest element. Which index comes of a row with a NaN in it is left unsaid, but that it is
/// one of the row. The backend gives indices 32 bits.
#[verifier::external_body]
pub(crate) fn argmax(a: &FloatTensor) -> (r: Vec<i64>)
    requires
        a@.wf(),
        a@.dims.len() == 2,
        a@.dims[1] <= i32::MAX,
    ensures
        r@.len() == a@.dims[0],
        forall|b: int| 0 <= b < r@.len() ==> 0 <= #[trigger] r@[b] < a@.dims[1],
        forall|b: int|
            0 <= b < r@.len() && (forall|j: int|
                0 <= j < a@.dims[1] ==> !is_nan(#[trigger] row_of(a@, b)[j])) ==> is_first_max(
                row_of(a@, b),
                #[trigger] r@[b] as int,
            ),
{
    let a = Tensor::<Flex, 2>::from_primitive(TensorPrimitive::Float(a.inner.clone()));
    a.argmax(1).into_data().iter().collect()
}

/// `Tensor::mask_fill` of a tensor of rank three with zero: every element of the rows that
/// `hidden` marks becomes zero, the others stay.
#[verifier::external_body]
pub(crate) fn zero_rows(t: &FloatTensor, hidden: &Vec<Vec<bool>>) -> (r: FloatTensor)
    requires
        t@.wf(),
        t@.dims.len() == 3,
        hidden@.len() == t@.dims[0],
        forall|b: int| 0 <= b < hidden@.len() ==> (#[trigger] hidden@[b])@.len() == t@.dims[1],
    ensures
        r@.wf(),
        r@.dims == t@.dims,
        forall|idx: Seq<int>|
            in_bounds(t@.dims, idx) ==> #[trigger] r@.at(idx) == (if hidden@[idx[0]]@[idx[1]] {
                0u32
            } else {
                t@.at(idx)
            }),
{
    let flags = TensorData::new(hidden.concat(), [hidden.len(), hidden[0].len(), 1]);
    let mask = Tensor::<Flex, 3, Bool>::from_data(flags, &Default::default());
    let t = Tensor::<Flex, 3>::from_primitive(TensorPrimitive::Float(t.inner.clone()));
    FloatTensor { inner: t.mask_fill(mask, 0).into_primitive().tensor() }
}

} // verus!
