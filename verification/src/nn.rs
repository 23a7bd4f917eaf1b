//! The layers of burn that the model is made of, each held by its weights.
use burn::backend::Flex;
use burn::module::Param;
use burn::tensor::{module, DType, Int, Tensor, TensorData, TensorPrimitive};
use vstd::prelude::*;

use crate::mask::{is_mask, mask_view, AttentionMask};
use crate::num::Double;
use crate::tensor::{in_bounds, ix3, ix4, last_axis, FloatTensor, TensorView};

verus! {

/// `r` is a possible result of rounding the sum of the products of the elements of `a` and `b`.
pub uninterp spec fn dot_outcome(a: Seq<u32>, b: Seq<u32>, r: u32) -> bool;

/// `r` is a possible result of rounding element `i` of `row` over the root of the mean square of
/// `row` plus `epsilon`, times `scale`.
pub uninterp spec fn rms_norm_outcome(
    row: Seq<u32>,
    epsilon: u64,
    scale: u32,
    i: int,
    r: u32,
) -> bool;

/// `r` is a possible result of rounding the mean of `values` weighted by softmax of the scaled dot
/// products of `query` and `keys`; zero if there are no keys.
pub uninterp spec fn attention_outcome(
    query: Seq<u32>,
    keys: Seq<Seq<u32>>,
    values: Seq<u32>,
    r: u32,
) -> bool;

/// `r` is a possible result of the same mean where the keys that `hidden` marks get the weight zero
/// and the product of that weight with an infinite value or a NaN spoils the sum.
pub uninterp spec fn spoiled_attention_outcome(
    query: Seq<u32>,
    keys: Seq<Seq<u32>>,
    values: Seq<u32>,
    hidden: Seq<bool>,
    r: u32,
) -> bool;

/// Whether a bit pattern is a finite float.
pub open spec fn is_finite(bits: u32) -> bool {
    bits % 0x8000_0000 < 0x7f80_0000
}

/// The elements of `s` that `hidden` does not mark, in order.
pub open spec fn seen<A>(s: Seq<A>, hidden: Seq<bool>) -> Seq<A>
    decreases s.len(),
{
    if s.len() == 0 {
        s
    } else if hidden[s.len() - 1] {
        seen(s.drop_last(), hidden)
    } else {
        seen(s.drop_last(), hidden).push(s.last())
    }
}

/// Whether the values of all hidden keys are finite.
pub open spec fn hidden_are_finite(values: Seq<u32>, hidden: Seq<bool>) -> bool {
    forall|j: int| 0 <= j < values.len() && hidden[j] ==> is_finite(#[trigger] values[j])
}

/// `r` is a possible result of attention of `query` over the keys that are not hidden. A hidden
/// key has no weight: it does not count at all, as long as its value is finite.
pub open spec fn masked_outcome(
    query: Seq<u32>,
    keys: Seq<Seq<u32>>,
    values: Seq<u32>,
    hidden: Seq<bool>,
    r: u32,
) -> bool {
    if hidden_are_finite(values, hidden) {
        attention_outcome(query, seen(keys, hidden), seen(values, hidden), r)
    } else {
        spoiled_attention_outcome(query, keys, values, hidden, r)
    }
}

/// Column `j` of a tensor of rank two.
pub open spec fn column_of(t: TensorView, j: int) -> Seq<u32> {
    Seq::new(t.dims[0], |i: int| t.at(seq![i, j]))
}

/// `r` holds for every row of `x` its products with the columns of `weight`.
pub open spec fn projected(weight: TensorView, x: TensorView, r: TensorView) -> bool {
    &&& r.wf()
    &&& r.dims == x.dims.update(x.dims.len() - 1, weight.dims[1])
    &&& forall|idx: Seq<int>| in_bounds(r.dims, idx) ==> dot_outcome(
        last_axis(x, idx.drop_last()),
        column_of(weight, idx.last()),
        #[trigger] r.at(idx),
    )
}

/// `r` holds the normalized rows of `x`, scaled by `gamma`.
pub open spec fn normalized(
    gamma: TensorView,
    epsilon: Double,
    x: TensorView,
    r: TensorView,
) -> bool {
    &&& r.wf()
    &&& r.dims == x.dims
    &&& forall|idx: Seq<int>| in_bounds(r.dims, idx) ==> rms_norm_outcome(
        last_axis(x, idx.drop_last()),
        epsilon.bits,
        gamma.data[idx.last()],
        idx.last(),
        #[trigger] r.at(idx),
    )
}

/// The keys that query `query` of sequence `batch` does not see, out of `keys`.
pub open spec fn hidden_keys(
    mask: Option<Seq<Seq<Seq<bool>>>>,
    batch: int,
    query: int,
    keys: nat,
) -> Seq<bool> {
    match mask {
        Some(m) => if m.len() == 1 {
            m[0][query]
        } else {
            m[batch][query]
        },
        None => Seq::new(keys, |j: int| false),
    }
}

/// The vectors of head `head` of sequence `batch`, one for every position.
pub open spec fn head_rows(t: TensorView, batch: int, head: int) -> Seq<Seq<u32>> {
    Seq::new(t.dims[2], |j: int| last_axis(t, ix3(batch, head, j)))
}

/// Entry `i` of the vectors of head `head` of sequence `batch`, one for every position.
pub open spec fn head_column(t: TensorView, batch: int, head: int, i: int) -> Seq<u32> {
    Seq::new(t.dims[2], |j: int| t.at(ix4(batch, head, j, i)))
}

/// `r` holds for every query of every head the mean of the values, weighted by how well the keys
/// match it. The tensors are `[batch, heads, seq, head_dim]`.
pub open spec fn attended(
    q: TensorView,
    k: TensorView,
    v: TensorView,
    mask: Option<Seq<Seq<Seq<bool>>>>,
    r: TensorView,
) -> bool {
    &&& r.wf()
    &&& r.dims == q.dims
    &&& forall|idx: Seq<int>| in_bounds(r.dims, idx) ==> masked_outcome(
        last_axis(q, idx.drop_last()),
        head_rows(k, idx[0], idx[1]),
        head_column(v, idx[0], idx[1], idx[3]),
        hidden_keys(mask, idx[0], idx[2], k.dims[2]),
        #[trigger] r.at(idx),
    )
}

/// A linear layer without bias; the weights are `[d_input, d_output]`.
pub struct Linear {
    pub weight: FloatTensor,
}

/// RMS normalization along the last axis.
pub struct RmsNorm {
    pub gamma: FloatTensor,
    pub epsilon: Double,
}

/// A table of vectors, one for every token; the weights are `[n_embedding, d_model]`.
pub struct Embedding {
    pub weight: FloatTensor,
}

/// The integers of a table as sequences.
pub open spec fn int_rows(rows: Seq<Vec<i64>>) -> Seq<Seq<i64>> {
    rows.map_values(|r: Vec<i64>| r@)
}

/// A table holds its integers.
pub proof fn lemma_table_holds_its_integers(rows: Seq<Vec<i64>>, i: int, j: int)
    requires
        0 <= i < rows.len(),
        0 <= j < rows[i]@.len(),
    ensures
        int_rows(rows).len() == rows.len(),
        int_rows(rows)[i].len() == rows[i]@.len(),
        int_rows(rows)[i][j] == rows[i]@[j],
{
}

/// A table with `rows` rows of `cols` integers each.
pub open spec fn is_int_table(t: Seq<Seq<i64>>, rows: nat, cols: nat) -> bool {
    &&& t.len() == rows
    &&& forall|i: int| 0 <= i < rows ==> (#[trigger] t[i]).len() == cols
}

/// Every entry of the table is at least zero and below `bound`.
pub open spec fn entries_below(t: Seq<Seq<i64>>, bound: nat) -> bool {
    forall|i: int, j: int|
        0 <= i < t.len() && 0 <= j < t[i].len() ==> 0 <= #[trigger] t[i][j] < bound
}

/// `r` holds for every token of `ids` its row of `weight`.
pub open spec fn looked_up(weight: TensorView, ids: Seq<Seq<i64>>, r: TensorView) -> bool {
    &&& r.wf()
    &&& r.dims == seq![ids.len(), ids[0].len(), weight.dims[1]]
    &&& forall|idx: Seq<int>| in_bounds(r.dims, idx) ==> #[trigger] r.at(idx) == weight.at(
        seq![ids[idx[0]][idx[1]] as int, idx[2]],
    )
}

impl Linear {
    /// The layer takes rows of `d_input` and gives rows of `d_output`.
    pub open spec fn wf(self, d_input: nat, d_output: nat) -> bool {
        &&& self.weight@.wf()
        &&& self.weight@.dims == seq![d_input, d_output]
    }

    /// `LinearConfig::init` without bias: weights drawn at random, of whose values nothing is
    /// said.
    #[verifier::external_body]
    pub(crate) fn init(d_input: usize, d_output: usize) -> (r: Linear)
        requires
            d_input > 0,
            d_output > 0,
            d_input * d_output <= usize::MAX,
        ensures
            r.wf(d_input as nat, d_output as nat),
    {
        let config = burn::nn::LinearConfig::new(d_input, d_output).with_bias(false);
        let weight = config.init::<Flex>(&Default::default()).weight.val();
        Linear { weight: FloatTensor { inner: weight.into_primitive().tensor() } }
    }

    /// `Linear::forward` of burn: every row of the last axis times the weights.
    #[verifier::external_body]
    pub(crate) fn forward<const D: usize>(&self, x: &FloatTensor) -> (r: FloatTensor)
        requires
            self.weight@.wf(),
            self.weight@.dims.len() == 2,
            x@.wf(),
            x@.dims.len() == D,
            D >= 2,
            x@.dims.last() == self.weight@.dims[0],
        ensures
            r@.wf(),
            r@.dims == x@.dims.update(D - 1, self.weight@.dims[1]),
            forall|idx: Seq<int>|
                in_bounds(r@.dims, idx) ==> dot_outcome(
                    last_axis(x@, idx.drop_last()),
                    column_of(self.weight@, idx.last()),
                    #[trigger] r@.at(idx),
                ),
    {
        let w = Tensor::from_primitive(TensorPrimitive::Float(self.weight.inner.clone()));
        let layer = burn::nn::Linear::<Flex> { weight: Param::from_tensor(w), bias: None };
        let x = Tensor::<Flex, D>::from_primitive(TensorPrimitive::Float(x.inner.clone()));
        FloatTensor { inner: layer.forward(x).into_primitive().tensor() }
    }
}

impl RmsNorm {
    /// The layer normalizes rows of `d_model`.
    pub open spec fn wf(self, d_model: nat) -> bool {
        &&& self.gamma@.wf()
        &&& self.gamma@.dims == seq![d_model]
    }

    /// The layer normalizes rows of `d_model` and scales every entry by one.
    pub open spec fn unscaled(self, d_model: nat, epsilon: Double) -> bool {
        &&& self.wf(d_model)
        &&& self.epsilon == epsilon
        &&& forall|i: int| 0 <= i < d_model ==> #[trigger] self.gamma@.data[i] == 0x3f80_0000u32
    }

    /// `RmsNormConfig::init`: a scale of ones. It panics unless `epsilon` is positive.
    #[verifier::external_body]
    pub(crate) fn init(d_model: usize, epsilon: Double) -> (r: RmsNorm)
        requires
            d_model > 0,
            epsilon.positive(),
        ensures
            r.unscaled(d_model as nat, epsilon),
    {
        let eps = TensorData { dtype: DType::F64, ..TensorData::new(vec![epsilon.bits], [1]) };
        let config = burn::nn::RmsNormConfig::new(d_model).with_epsilon(eps.iter().next().unwrap());
        let gamma = config.init::<Flex>(&Default::default()).gamma.val();
        RmsNorm { gamma: FloatTensor { inner: gamma.into_primitive().tensor() }, epsilon }
    }

    /// `RmsNorm::forward` of burn.
    #[verifier::external_body]
    pub(crate) fn forward<const D: usize>(&self, x: &FloatTensor) -> (r: FloatTensor)
        requires
            self.gamma@.wf(),
            self.gamma@.dims.len() == 1,
            x@.wf(),
            x@.dims.len() == D,
            D >= 1,
            x@.dims.last() == self.gamma@.dims[0],
        ensures
            r@.wf(),
            r@.dims == x@.dims,
            forall|idx: Seq<int>|
                in_bounds(r@.dims, idx) ==> rms_norm_outcome(
                    last_axis(x@, idx.drop_last()),
                    self.epsilon.bits,
                    self.gamma@.data[idx.last()],
                    idx.last(),
                    #[trigger] r@.at(idx),
                ),
    {
        let g = Tensor::from_primitive(TensorPrimitive::Float(self.gamma.inner.clone()));
        let bits = TensorData::new(vec![self.epsilon.bits], [1]);
        let epsilon = TensorData { dtype: DType::F64, ..bits }.iter().next().unwrap();
        let layer = burn::nn::RmsNorm::<Flex> { gamma: Param::from_tensor(g), epsilon };
        let x = Tensor::<Flex, D>::from_primitive(TensorPrimitive::Float(x.inner.clone()));
        FloatTensor { inner: layer.forward(x).into_primitive().tensor() }
    }
}

impl Embedding {
    /// The table has `n_embedding` rows of `d_model`.
    pub open spec fn wf(self, n_embedding: nat, d_model: nat) -> bool {
        &&& self.weight@.wf()
        &&& self.weight@.dims == seq![n_embedding, d_model]
    }

    /// `EmbeddingConfig::init`: weights drawn at random, of whose values nothing is said.
    #[verifier::external_body]
    pub(crate) fn init(n_embedding: usize, d_model: usize) -> (r: Embedding)
        requires
            n_embedding > 0,
            d_model > 0,
            n_embedding * d_model <= usize::MAX,
        ensures
            r.wf(n_embedding as nat, d_model as nat),
    {
        let config = burn::nn::EmbeddingConfig::new(n_embedding, d_model);
        let weight = config.init::<Flex>(&Default::default()).weight.val();
        Embedding { weight: FloatTensor { inner: weight.into_primitive().tensor() } }
    }

    /// `Embedding::forward` of burn: for every token its row of the table.
    #[verifier::external_body]
    pub(crate) fn forward(&self, ids: &Vec<Vec<i64>>) -> (r: FloatTensor)
        requires
            self.weight@.wf(),
            self.weight@.dims.len() == 2,
            ids@.len() > 0,
            ids@[0]@.len() > 0,
            is_int_table(int_rows(ids@), ids@.len(), ids@[0]@.len()),
            entries_below(int_rows(ids@), self.weight@.dims[0]),
        ensures
            looked_up(self.weight@, int_rows(ids@), r@),
    {
        let w = Tensor::from_primitive(TensorPrimitive::Float(self.weight.inner.clone()));
        let layer = burn::nn::Embedding::<Flex> { weight: Param::from_tensor(w) };
        let flat = TensorData::new(ids.concat(), [ids.len(), ids[0].len()]);
        let ids = Tensor::<Flex, 2, Int>::from_data(flat, (&Default::default(), DType::I64));
        FloatTensor { inner: layer.forward(ids).into_primitive().tensor() }
    }
}

/// `burn::tensor::module::attention` without bias and with its default options. A mask of one
/// plane serves every sequence; a call without a mask hides no key. The score of a hidden key is
/// set to minus infinity, which makes its weight zero: the key does not count, unless its value is
/// infinite or a NaN, which times zero is a NaN.
#[verifier::external_body]
pub(crate) fn attention(
    q: &FloatTensor,
    k: &FloatTensor,
    v: &FloatTensor,
    mask: &Option<AttentionMask>,
) -> (r: FloatTensor)
    requires
        q@.wf(),
        k@.wf(),
        v@.wf(),
        q@.dims.len() == 4,
        k@.dims == q@.dims.update(2, k@.dims[2]),
        v@.dims == k@.dims,
        mask matches Some(m) ==> is_mask(m@, m@.len(), q@.dims[2], k@.dims[2]) && (m@.len() == 1
            || m@.len() == q@.dims[0]),
    ensures
        r@.wf(),
        r@.dims == q@.dims,
        forall|idx: Seq<int>|
            in_bounds(r@.dims, idx) ==> {
                let query = last_axis(q@, idx.drop_last());
                let keys = head_rows(k@, idx[0], idx[1]);
                let values = head_column(v@, idx[0], idx[1], idx[3]);
                let hidden = hidden_keys(mask_view(*mask), idx[0], idx[2], k@.dims[2]);
                if hidden_are_finite(values, hidden) {
                    attention_outcome(
                        query,
                        seen(keys, hidden),
                        seen(values, hidden),
                        #[trigger] r@.at(idx),
                    )
                } else {
                    spoiled_attention_outcome(query, keys, values, hidden, r@.at(idx))
                }
            },
{
    let mask = mask.as_ref().map(|AttentionMask { planes: p }| {
        let shape = [p.len(), 1, p[0].len(), p[0][0].len()];
        let flags = TensorData::new(p.concat().concat(), shape);
        Tensor::from_data(flags, &Default::default())
    });
    let [q, k, v] = [q, k, v].map(|t| TensorPrimitive::Float(t.inner.clone()));
    let [q, k, v] = [q, k, v].map(Tensor::<Flex, 4>::from_primitive);
    let r = module::attention(q, k, v, mask, None, Default::default());
    FloatTensor { inner: r.into_primitive().tensor() }
}

} // verus!
