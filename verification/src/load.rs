//! Loading weights: which format a file has, under which names its tensors are known, and where
//! each of them goes.
use vstd::prelude::*;

use crate::causal_lm::Qwen3ForCausalLM;
use crate::decoder::Qwen3DecoderLayer;
use crate::model::Qwen3Model;
use crate::tensor::{lemma_offset2, nats, volume, FloatTensor, TensorView};
use crate::text::{chars_between, chars_of, joined, same_chars};

verus! {

/// Why weights could not be loaded.
#[derive(Clone, Copy, Debug, PartialEq, Eq, Structural)]
pub enum ModelLoadError {
    /// Error while loading weights.
    LoadError,
    /// Unrecognised file extension.
    UnknownExtension,
}

impl ModelLoadError {
    /// What the error says.
    pub open spec fn spec_message(self) -> Seq<char> {
        match self {
            ModelLoadError::LoadError => "Error while loading weights"@,
            ModelLoadError::UnknownExtension => "Unrecognised file extension"@,
        }
    }

    /// What the error says.
    pub fn message(&self) -> (r: String)
        ensures
            r@ == self.spec_message(),
    {
        match self {
            ModelLoadError::LoadError => "Error while loading weights".to_owned(),
            ModelLoadError::UnknownExtension => "Unrecognised file extension".to_owned(),
        }
    }
}

/// The formats of weight files.
#[derive(Clone, Copy, Debug, PartialEq, Eq, Structural)]
pub enum WeightFormat {
    /// The format of HuggingFace, with the names and the layout of PyTorch.
    Safetensors,
    /// The format of burn.
    Burnpack,
}

/// What `str::to_lowercase` makes of a string.
pub uninterp spec fn lowercased(s: Seq<char>) -> Seq<char>;

/// An ASCII letter in lower case; any other character as it is.
pub open spec fn ascii_lowercase(c: char) -> char {
    if 'A' <= c && c <= 'Z' {
        (c as int + 32) as char
    } else {
        c
    }
}

/// `str::to_lowercase`, which follows Unicode. ASCII characters are lowered one by one.
#[verifier::external_body]
fn lowercase(s: &String) -> (r: String)
    ensures
        r@ == lowercased(s@),
        (forall|i: int| 0 <= i < s@.len() ==> (#[trigger] s@[i] as int) < 128) ==> r@
            == s@.map_values(|c: char| ascii_lowercase(c)),
{
    s.to_lowercase()
}

/// The format that a lower case extension stands for: a file without one is taken for burn's.
pub open spec fn format_of(extension: Option<Seq<char>>) -> Result<WeightFormat, ModelLoadError> {
    match extension {
        Some(e) => if e == "safetensors"@ {
            Ok(WeightFormat::Safetensors)
        } else if e == "bpk"@ {
            Ok(WeightFormat::Burnpack)
        } else {
            Err(ModelLoadError::UnknownExtension)
        },
        None => Ok(WeightFormat::Burnpack),
    }
}

/// What an optional string holds.
pub open spec fn string_view(s: Option<String>) -> Option<Seq<char>> {
    match s {
        Some(text) => Some(text@),
        None => None,
    }
}

/// The format that a lower case extension stands for.
pub fn format_of_lowercase(extension: &Option<String>) -> (r: Result<WeightFormat, ModelLoadError>)
    ensures
        r == format_of(string_view(*extension)),
{
    match extension {
        Some(e) => {
            if e.eq(&"safetensors".to_owned()) {
                Ok(WeightFormat::Safetensors)
            } else if e.eq(&"bpk".to_owned()) {
                Ok(WeightFormat::Burnpack)
            } else {
                Err(ModelLoadError::UnknownExtension)
            }
        },
        None => Ok(WeightFormat::Burnpack),
    }
}

/// The format that a file extension stands for, in upper or lower case.
pub fn weight_format(extension: &Option<String>) -> (r: Result<WeightFormat, ModelLoadError>)
    ensures
        r == format_of(
            match *extension {
                Some(e) => Some(lowercased(e@)),
                None => None,
            },
        ),
        extension matches Some(e) && (forall|i: int|
            0 <= i < e@.len() ==> (#[trigger] e@[i] as int) < 128) ==> r == format_of(
            Some((extension->0)@.map_values(|c: char| ascii_lowercase(c))),
        ),
{
    match extension {
        Some(e) => {
            let lower = Some(lowercase(e));
            format_of_lowercase(&lower)
        },
        None => format_of_lowercase(&None),
    }
}

/// A tensor of a weight file under its name there.
pub struct StoredTensor {
    pub name: String,
    pub dims: Vec<usize>,
    pub bits: Vec<u32>,
}

/// What a stored tensor holds.
pub struct StoredView {
    pub name: Seq<char>,
    pub tensor: TensorView,
}

impl View for StoredTensor {
    type V = StoredView;

    open spec fn view(&self) -> StoredView {
        StoredView {
            name: self.name@,
            tensor: TensorView { dims: nats(self.dims@), data: self.bits@ },
        }
    }
}

/// What a list of stored tensors holds.
pub open spec fn stored_views(tensors: Seq<StoredTensor>) -> Seq<StoredView> {
    tensors.map_values(|t: StoredTensor| t@)
}

/// Under which names a file knows the weights.
#[derive(Clone, Copy, Debug, PartialEq, Eq, Structural)]
pub enum Naming {
    /// HuggingFace's names, for the base model.
    PyTorchBase,
    /// HuggingFace's names, for the causal language model.
    PyTorchCausalLM,
    /// The names of the fields.
    Fields,
}

/// Whether `s` ends in `suffix`.
pub open spec fn ends_in(s: Seq<char>, suffix: Seq<char>) -> bool {
    s.len() >= suffix.len() && s.subrange(s.len() - suffix.len(), s.len() as int) == suffix
}

/// `s` with `to` in place of `from` at its end, if it ends so.
pub open spec fn with_end(s: Seq<char>, from: Seq<char>, to: Seq<char>) -> Seq<char> {
    if ends_in(s, from) {
        s.take(s.len() - from.len()) + to
    } else {
        s
    }
}

/// `s` without `prefix` at its start, if it starts so.
pub open spec fn without_start(s: Seq<char>, prefix: Seq<char>) -> Seq<char> {
    if s.len() >= prefix.len() && s.take(prefix.len() as int) == prefix {
        s.skip(prefix.len() as int)
    } else {
        s
    }
}

/// The weight of a normalization is called gamma; those of projections and embeddings are not.
pub open spec fn norms_renamed(name: Seq<char>) -> Seq<char> {
    let a = with_end(name, ".weight"@, ".gamma"@);
    let b = with_end(a, "_proj.gamma"@, "_proj.weight"@);
    with_end(b, "embed_tokens.gamma"@, "embed_tokens.weight"@)
}

/// The path of the field that the tensor `name` of a file is for.
pub open spec fn field_path(naming: Naming, name: Seq<char>) -> Seq<char> {
    match naming {
        Naming::PyTorchBase => norms_renamed(without_start(name, "model."@)),
        Naming::PyTorchCausalLM => with_end(
            norms_renamed(name),
            "lm_head.gamma"@,
            "lm_head.weight"@,
        ),
        Naming::Fields => name,
    }
}

/// Whether the weights of linear layers are stored as `[d_output, d_input]`.
pub open spec fn stores_transposed(naming: Naming) -> bool {
    naming != Naming::Fields
}

/// The tensor of a file for a field; of several the last.
pub open spec fn stored_at(
    tensors: Seq<StoredView>,
    naming: Naming,
    path: Seq<char>,
) -> Option<TensorView>
    decreases tensors.len(),
{
    if tensors.len() == 0 {
        None
    } else if field_path(naming, tensors.last().name) == path {
        Some(tensors.last().tensor)
    } else {
        stored_at(tensors.drop_last(), naming, path)
    }
}

/// A tensor of rank two with rows and columns exchanged.
pub open spec fn flipped(t: TensorView) -> TensorView {
    let (rows, cols) = (t.dims[0], t.dims[1]);
    TensorView {
        dims: seq![cols, rows],
        data: Seq::new(
            rows * cols,
            |p: int| t.data[(p % (rows as int)) * cols + p / (rows as int)],
        ),
    }
}

/// A stored tensor as the field wants it.
pub open spec fn oriented(t: TensorView, transposed: bool) -> TensorView {
    if transposed && t.dims.len() == 2 {
        flipped(t)
    } else {
        t
    }
}

/// The file has a tensor for the field at `path`, and it fits what is there.
pub open spec fn has_field(
    tensors: Seq<StoredView>,
    naming: Naming,
    path: Seq<char>,
    transposed: bool,
    before: TensorView,
) -> bool {
    match stored_at(tensors, naming, path) {
        Some(t) => {
            &&& oriented(t, transposed).dims == before.dims
            &&& t.data.len() == volume(t.dims)
        },
        None => false,
    }
}

/// What is at `path` once the file is loaded: its tensor for the field, if it fits, and otherwise
/// what was there.
pub open spec fn field_after(
    tensors: Seq<StoredView>,
    naming: Naming,
    path: Seq<char>,
    transposed: bool,
    before: TensorView,
) -> TensorView {
    if has_field(tensors, naming, path, transposed, before) {
        oriented(stored_at(tensors, naming, path)->0, transposed)
    } else {
        before
    }
}

/// `s` with another end, if it has the given one.
fn replace_end(s: Vec<char>, from: &str, to: &str) -> (r: Vec<char>)
    ensures
        r@ == with_end(s@, from@, to@),
{
    let end = chars_of(from);
    if s.len() < end.len() {
        return s;
    }
    let cut: usize = s.len() - end.len();
    let tail = chars_between(&s, cut, s.len());
    if !same_chars(&tail, &end) {
        return s;
    }
    let head = chars_between(&s, 0, cut);
    assert(head@ =~= s@.take(cut as int));
    joined(&head, to)
}

/// `s` without a start, if it has it.
fn strip_start(s: Vec<char>, prefix: &str) -> (r: Vec<char>)
    ensures
        r@ == without_start(s@, prefix@),
{
    let start = chars_of(prefix);
    if s.len() < start.len() {
        return s;
    }
    let head = chars_between(&s, 0, start.len());
    assert(head@ =~= s@.take(start@.len() as int));
    if !same_chars(&head, &start) {
        return s;
    }
    let r = chars_between(&s, start.len(), s.len());
    assert(r@ =~= s@.skip(start@.len() as int));
    r
}

/// The path of the field that a tensor of a weight file is for.
pub fn field_path_of(naming: Naming, name: &String) -> (r: Vec<char>)
    ensures
        r@ == field_path(naming, name@),
{
    let chars = chars_of(name.as_str());
    match naming {
        Naming::Fields => chars,
        Naming::PyTorchBase => {
            let a = strip_start(chars, "model.");
            let b = replace_end(a, ".weight", ".gamma");
            let c = replace_end(b, "_proj.gamma", "_proj.weight");
            replace_end(c, "embed_tokens.gamma", "embed_tokens.weight")
        },
        Naming::PyTorchCausalLM => {
            let b = replace_end(chars, ".weight", ".gamma");
            let c = replace_end(b, "_proj.gamma", "_proj.weight");
            let d = replace_end(c, "embed_tokens.gamma", "embed_tokens.weight");
            replace_end(d, "lm_head.gamma", "lm_head.weight")
        },
    }
}

/// The paths of the fields that the tensors of a file are for.
fn field_paths(naming: Naming, tensors: &Vec<StoredTensor>) -> (r: Vec<Vec<char>>)
    ensures
        r@.len() == tensors@.len(),
        forall|i: int|
            0 <= i < r@.len() ==> (#[trigger] r@[i])@ == field_path(naming, tensors@[i].name@),
{
    let mut r: Vec<Vec<char>> = Vec::new();
    let mut i: usize = 0;
    while i < tensors.len()
        invariant
            0 <= i <= tensors@.len(),
            r@.len() == i,
            forall|j: int|
                0 <= j < i ==> (#[trigger] r@[j])@ == field_path(naming, tensors@[j].name@),
        decreases tensors@.len() - i,
    {
        r.push(field_path_of(naming, &tensors[i].name));
        i += 1;
    }
    r
}

/// The place of the tensor for a field.
fn place_of(
    naming: Naming,
    tensors: &Vec<StoredTensor>,
    paths: &Vec<Vec<char>>,
    path: &Vec<char>,
) -> (r: Option<usize>)
    requires
        paths@.len() == tensors@.len(),
        forall|i: int|
            0 <= i < paths@.len() ==> (#[trigger] paths@[i])@ == field_path(
                naming,
                tensors@[i].name@,
            ),
    ensures
        match r {
            Some(i) => i < tensors@.len() && stored_at(stored_views(tensors@), naming, path@)
                == Some(tensors@[i as int]@.tensor),
            None => stored_at(stored_views(tensors@), naming, path@) is None,
        },
{
    let ghost all = stored_views(tensors@);
    let mut n: usize = tensors.len();
    assert(all.take(n as int) =~= all);
    while n > 0
        invariant
            0 <= n <= tensors@.len(),
            paths@.len() == tensors@.len(),
            forall|i: int|
                0 <= i < paths@.len() ==> (#[trigger] paths@[i])@ == field_path(
                    naming,
                    tensors@[i].name@,
                ),
            all == stored_views(tensors@),
            stored_at(all, naming, path@) == stored_at(all.take(n as int), naming, path@),
        decreases n,
    {
        let i: usize = n - 1;
        proof {
            assert(all.take(n as int).drop_last() =~= all.take(i as int));
            assert(all.take(n as int).last() == tensors@[i as int]@);
            assert(paths@[i as int]@ == field_path(naming, tensors@[i as int].name@));
        }
        if same_chars(&paths[i], path) {
            return Some(i);
        }
        n = i;
    }
    None
}

/// The elements of a matrix with rows and columns exchanged.
fn transpose(bits: &Vec<u32>, rows: usize, cols: usize) -> (r: Vec<u32>)
    requires
        rows > 0,
        rows * cols == bits@.len(),
    ensures
        r@ == Seq::new(
            (rows * cols) as nat,
            |p: int| bits@[(p % (rows as int)) * cols + p / (rows as int)],
        ),
{
    let count: usize = bits.len();
    let mut r: Vec<u32> = Vec::new();
    let mut j: usize = 0;
    let ghost n = rows as int;
    let ghost want = |p: int| bits@[(p % n) * cols + p / n];
    while j < cols
        invariant
            0 <= j <= cols,
            n == rows > 0,
            count == bits@.len() == rows * cols,
            want == (|p: int| bits@[(p % n) * cols + p / n]),
            r@.len() == j * rows,
            forall|p: int| 0 <= p < r@.len() ==> #[trigger] r@[p] == want(p),
        decreases cols - j,
    {
        let mut i: usize = 0;
        while i < rows
            invariant
                0 <= i <= rows,
                0 <= j < cols,
                n == rows > 0,
                count == bits@.len() == rows * cols,
                want == (|p: int| bits@[(p % n) * cols + p / n]),
                r@.len() == j * rows + i,
                forall|p: int| 0 <= p < r@.len() ==> #[trigger] r@[p] == want(p),
            decreases rows - i,
        {
            proof {
                assert(i * cols + j < rows * cols && i * cols <= rows * cols) by (nonlinear_arith)
                    requires
                        0 <= i < rows,
                        0 <= j < cols,
                ;
                let p = j * rows + i;
                assert(p % n == i && p / n == j) by {
                    vstd::arithmetic::div_mod::lemma_fundamental_div_mod_converse(
                        p,
                        n,
                        j as int,
                        i as int,
                    );
                }
            }
            r.push(bits[i * cols + j]);
            i += 1;
        }
        proof {
            assert(j * rows + rows == (j + 1) * rows) by (nonlinear_arith);
        }
        j += 1;
    }
    proof {
        assert(cols * rows == rows * cols) by (nonlinear_arith);
        assert(r@ =~= Seq::new((rows * cols) as nat, want));
    }
    r
}

/// A copy of the elements.
fn copy_bits(bits: &Vec<u32>) -> (r: Vec<u32>)
    ensures
        r@ == bits@,
{
    let mut r: Vec<u32> = Vec::new();
    let mut i: usize = 0;
    while i < bits.len()
        invariant
            0 <= i <= bits@.len(),
            r@ == bits@.take(i as int),
        decreases bits@.len() - i,
    {
        r.push(bits[i]);
        assert(r@ =~= bits@.take(i + 1));
        i += 1;
    }
    assert(bits@.take(bits@.len() as int) =~= bits@);
    r
}

/// Tells whether two lists of lengths are equal.
fn same_dims(a: &Vec<usize>, b: &Vec<usize>) -> (r: bool)
    ensures
        r == (nats(a@) == nats(b@)),
{
    if a.len() != b.len() {
        assert(nats(a@).len() != nats(b@).len());
        return false;
    }
    let mut i: usize = 0;
    while i < a.len()
        invariant
            0 <= i <= a@.len(),
            a@.len() == b@.len(),
            forall|j: int| 0 <= j < i ==> #[trigger] a@[j] == b@[j],
        decreases a@.len() - i,
    {
        if a[i] != b[i] {
            assert(nats(a@)[i as int] != nats(b@)[i as int]);
            return false;
        }
        i += 1;
    }
    assert(nats(a@) =~= nats(b@));
    true
}

/// Puts the tensor of a file into a field, if there is one and it fits, and tells whether it did.
fn load_field(
    naming: Naming,
    tensors: &Vec<StoredTensor>,
    paths: &Vec<Vec<char>>,
    path: &Vec<char>,
    transposed: bool,
    field: &mut FloatTensor,
) -> (r: bool)
    requires
        paths@.len() == tensors@.len(),
        forall|i: int|
            0 <= i < paths@.len() ==> (#[trigger] paths@[i])@ == field_path(
                naming,
                tensors@[i].name@,
            ),
        old(field)@.wf(),
    ensures
        r == has_field(stored_views(tensors@), naming, path@, transposed, old(field)@),
        final(field)@ == field_after(
            stored_views(tensors@),
            naming,
            path@,
            transposed,
            old(field)@,
        ),
        final(field)@.wf(),
        final(field)@.dims == old(field)@.dims,
{
    let found = place_of(naming, tensors, paths, path);
    match found {
        None => false,
        Some(i) => {
            let stored = &tensors[i];
            let ghost t = stored@.tensor;
            let want = field.dims();
            if transposed && stored.dims.len() == 2 {
                let (rows, cols): (usize, usize) = (stored.dims[0], stored.dims[1]);
                let mut dims: Vec<usize> = Vec::new();
                dims.push(cols);
                dims.push(rows);
                proof {
                    assert(nats(dims@) =~= flipped(t).dims);
                    lemma_offset2(t.dims, 0, 0);
                    lemma_offset2(flipped(t).dims, 0, 0);
                    assert(cols * rows == rows * cols) by (nonlinear_arith);
                }
                if !same_dims(&dims, &want) {
                    return false;
                }
                assert(field@.dims[0] == cols && field@.dims[1] == rows);
                let count: usize = stored.bits.len();
                match rows.checked_mul(cols) {
                    Some(product) => {
                        if product != count {
                            return false;
                        }
                    },
                    None => {
                        return false;
                    },
                }
                let bits = transpose(&stored.bits, rows, cols);
                proof {
                    assert(bits@ =~= flipped(t).data);
                }
                let loaded = FloatTensor::from_bits(dims, bits);
                match loaded {
                    Some(tensor) => {
                        *field = tensor;
                        true
                    },
                    None => false,
                }
            } else {
                if !same_dims(&stored.dims, &want) {
                    return false;
                }
                let mut dims: Vec<usize> = Vec::new();
                let mut k: usize = 0;
                while k < stored.dims.len()
                    invariant
                        0 <= k <= stored.dims@.len(),
                        dims@ == stored.dims@.take(k as int),
                    decreases stored.dims@.len() - k,
                {
                    dims.push(stored.dims[k]);
                    assert(dims@ =~= stored.dims@.take(k + 1));
                    k += 1;
                }
                assert(dims@ =~= stored.dims@);
                let loaded = FloatTensor::from_bits(dims, copy_bits(&stored.bits));
                match loaded {
                    Some(tensor) => {
                        *field = tensor;
                        true
                    },
                    None => false,
                }
            }
        },
    }
}

/// The file has a fitting tensor for every weight of the layer whose fields start with `prefix`.
pub open spec fn has_layer(
    tensors: Seq<StoredView>,
    naming: Naming,
    prefix: Seq<char>,
    layer: Qwen3DecoderLayer,
) -> bool {
    let t = stores_transposed(naming);
    &&& has_field(
        tensors,
        naming,
        prefix + "self_attn.q_proj.weight"@,
        t,
        layer.self_attn.q_proj.weight@,
    )
    &&& has_field(
        tensors,
        naming,
        prefix + "self_attn.k_proj.weight"@,
        t,
        layer.self_attn.k_proj.weight@,
    )
    &&& has_field(
        tensors,
        naming,
        prefix + "self_attn.v_proj.weight"@,
        t,
        layer.self_attn.v_proj.weight@,
    )
    &&& has_field(
        tensors,
        naming,
        prefix + "self_attn.o_proj.weight"@,
        t,
        layer.self_attn.o_proj.weight@,
    )
    &&& has_field(
        tensors,
        naming,
        prefix + "mlp.gate_proj.weight"@,
        t,
        layer.mlp.gate_proj.weight@,
    )
    &&& has_field(
        tensors,
        naming,
        prefix + "mlp.up_proj.weight"@,
        t,
        layer.mlp.up_proj.weight@,
    )
    &&& has_field(
        tensors,
        naming,
        prefix + "mlp.down_proj.weight"@,
        t,
        layer.mlp.down_proj.weight@,
    )
    &&& has_field(
        tensors,
        naming,
        prefix + "self_attn.q_norm.gamma"@,
        false,
        layer.self_attn.q_norm.gamma@,
    )
    &&& has_field(
        tensors,
        naming,
        prefix + "self_attn.k_norm.gamma"@,
        false,
        layer.self_attn.k_norm.gamma@,
    )
    &&& has_field(
        tensors,
        naming,
        prefix + "input_layernorm.gamma"@,
        false,
        layer.input_layernorm.gamma@,
    )
    &&& has_field(
        tensors,
        naming,
        prefix + "post_attention_layernorm.gamma"@,
        false,
        layer.post_attention_layernorm.gamma@,
    )
}

/// `after` is the layer `before` with the weights of the file.
pub open spec fn layer_after(
    tensors: Seq<StoredView>,
    naming: Naming,
    prefix: Seq<char>,
    before: Qwen3DecoderLayer,
    after: Qwen3DecoderLayer,
) -> bool {
    let t = stores_transposed(naming);
    &&& after.self_attn.num_heads == before.self_attn.num_heads
    &&& after.self_attn.num_kv_heads == before.self_attn.num_kv_heads
    &&& after.self_attn.head_dim == before.self_attn.head_dim
    &&& after.self_attn.rope_theta == before.self_attn.rope_theta
    &&& after.self_attn.q_proj.weight@ == field_after(
        tensors,
        naming,
        prefix + "self_attn.q_proj.weight"@,
        t,
        before.self_attn.q_proj.weight@,
    )
    &&& after.self_attn.k_proj.weight@ == field_after(
        tensors,
        naming,
        prefix + "self_attn.k_proj.weight"@,
        t,
        before.self_attn.k_proj.weight@,
    )
    &&& after.self_attn.v_proj.weight@ == field_after(
        tensors,
        naming,
        prefix + "self_attn.v_proj.weight"@,
        t,
        before.self_attn.v_proj.weight@,
    )
    &&& after.self_attn.o_proj.weight@ == field_after(
        tensors,
        naming,
        prefix + "self_attn.o_proj.weight"@,
        t,
        before.self_attn.o_proj.weight@,
    )
    &&& after.mlp.gate_proj.weight@ == field_after(
        tensors,
        naming,
        prefix + "mlp.gate_proj.weight"@,
        t,
        before.mlp.gate_proj.weight@,
    )
    &&& after.mlp.up_proj.weight@ == field_after(
        tensors,
        naming,
        prefix + "mlp.up_proj.weight"@,
        t,
        before.mlp.up_proj.weight@,
    )
    &&& after.mlp.down_proj.weight@ == field_after(
        tensors,
        naming,
        prefix + "mlp.down_proj.weight"@,
        t,
        before.mlp.down_proj.weight@,
    )
    &&& after.self_attn.q_norm.epsilon == before.self_attn.q_norm.epsilon
    &&& after.self_attn.q_norm.gamma@ == field_after(
        tensors,
        naming,
        prefix + "self_attn.q_norm.gamma"@,
        false,
        before.self_attn.q_norm.gamma@,
    )
    &&& after.self_attn.k_norm.epsilon == before.self_attn.k_norm.epsilon
    &&& after.self_attn.k_norm.gamma@ == field_after(
        tensors,
        naming,
        prefix + "self_attn.k_norm.gamma"@,
        false,
        before.self_attn.k_norm.gamma@,
    )
    &&& after.input_layernorm.epsilon == before.input_layernorm.epsilon
    &&& after.input_layernorm.gamma@ == field_after(
        tensors,
        naming,
        prefix + "input_layernorm.gamma"@,
        false,
        before.input_layernorm.gamma@,
    )
    &&& after.post_attention_layernorm.epsilon == before.post_attention_layernorm.epsilon
    &&& after.post_attention_layernorm.gamma@ == field_after(
        tensors,
        naming,
        prefix + "post_attention_layernorm.gamma"@,
        false,
        before.post_attention_layernorm.gamma@,
    )
}

/// Every weight of the layer is a tensor.
pub open spec fn layer_has_tensors(layer: Qwen3DecoderLayer) -> bool {
    &&& layer.self_attn.q_proj.weight@.wf()
    &&& layer.self_attn.k_proj.weight@.wf()
    &&& layer.self_attn.v_proj.weight@.wf()
    &&& layer.self_attn.o_proj.weight@.wf()
    &&& layer.mlp.gate_proj.weight@.wf()
    &&& layer.mlp.up_proj.weight@.wf()
    &&& layer.mlp.down_proj.weight@.wf()
    &&& layer.self_attn.q_norm.gamma@.wf()
    &&& layer.self_attn.k_norm.gamma@.wf()
    &&& layer.input_layernorm.gamma@.wf()
    &&& layer.post_attention_layernorm.gamma@.wf()
}

/// Loads the weights of a layer, and tells whether the file has all of them.
fn load_layer(
    naming: Naming,
    tensors: &Vec<StoredTensor>,
    paths: &Vec<Vec<char>>,
    prefix: &Vec<char>,
    layer: &mut Qwen3DecoderLayer,
) -> (r: bool)
    requires
        paths@.len() == tensors@.len(),
        forall|i: int|
            0 <= i < paths@.len() ==> (#[trigger] paths@[i])@ == field_path(
                naming,
                tensors@[i].name@,
            ),
        layer_has_tensors(*old(layer)),
    ensures
        r == has_layer(stored_views(tensors@), naming, prefix@, *old(layer)),
        layer_after(stored_views(tensors@), naming, prefix@, *old(layer), *final(layer)),
        layer_has_tensors(*final(layer)),
        old(layer).wf() ==> final(layer).wf() && final(layer).hidden_size() == old(
            layer,
        ).hidden_size(),
{
    let transposed = match naming {
        Naming::Fields => false,
        _ => true,
    };
    let q_proj = load_field(
        naming,
        tensors,
        paths,
        &joined(prefix, "self_attn.q_proj.weight"),
        transposed,
        &mut layer.self_attn.q_proj.weight,
    );
    let k_proj = load_field(
        naming,
        tensors,
        paths,
        &joined(prefix, "self_attn.k_proj.weight"),
        transposed,
        &mut layer.self_attn.k_proj.weight,
    );
    let v_proj = load_field(
        naming,
        tensors,
        paths,
        &joined(prefix, "self_attn.v_proj.weight"),
        transposed,
        &mut layer.self_attn.v_proj.weight,
    );
    let o_proj = load_field(
        naming,
        tensors,
        paths,
        &joined(prefix, "self_attn.o_proj.weight"),
        transposed,
        &mut layer.self_attn.o_proj.weight,
    );
    let gate_proj = load_field(
        naming,
        tensors,
        paths,
        &joined(prefix, "mlp.gate_proj.weight"),
        transposed,
        &mut layer.mlp.gate_proj.weight,
    );
    let up_proj = load_field(
        naming,
        tensors,
        paths,
        &joined(prefix, "mlp.up_proj.weight"),
        transposed,
        &mut layer.mlp.up_proj.weight,
    );
    let down_proj = load_field(
        naming,
        tensors,
        paths,
        &joined(prefix, "mlp.down_proj.weight"),
        transposed,
        &mut layer.mlp.down_proj.weight,
    );
    let q_norm = load_field(
        naming,
        tensors,
        paths,
        &joined(prefix, "self_attn.q_norm.gamma"),
        false,
        &mut layer.self_attn.q_norm.gamma,
    );
    let k_norm = load_field(
        naming,
        tensors,
        paths,
        &joined(prefix, "self_attn.k_norm.gamma"),
        false,
        &mut layer.self_attn.k_norm.gamma,
    );
    let input_layernorm = load_field(
        naming,
        tensors,
        paths,
        &joined(prefix, "input_layernorm.gamma"),
        false,
        &mut layer.input_layernorm.gamma,
    );
    let post_attention_layernorm = load_field(
        naming,
        tensors,
        paths,
        &joined(prefix, "post_attention_layernorm.gamma"),
        false,
        &mut layer.post_attention_layernorm.gamma,
    );
    q_proj && k_proj && v_proj && o_proj && gate_proj && up_proj && down_proj && q_norm && k_norm
        && input_layernorm && post_attention_layernorm
}

/// A decimal digit.
pub open spec fn digit(d: int) -> char {
    if d == 0 {
        '0'
    } else if d == 1 {
        '1'
    } else if d == 2 {
        '2'
    } else if d == 3 {
        '3'
    } else if d == 4 {
        '4'
    } else if d == 5 {
        '5'
    } else if d == 6 {
        '6'
    } else if d == 7 {
        '7'
    } else if d == 8 {
        '8'
    } else {
        '9'
    }
}

/// A number in decimal notation.
pub open spec fn decimal(n: nat) -> Seq<char>
    decreases n,
{
    if n < 10 {
        seq![digit(n as int)]
    } else {
        decimal(n / 10).push(digit((n % 10) as int))
    }
}

/// A decimal digit.
fn digit_of(d: usize) -> (r: char)
    ensures
        r == digit(d as int),
{
    match d {
        0 => '0',
        1 => '1',
        2 => '2',
        3 => '3',
        4 => '4',
        5 => '5',
        6 => '6',
        7 => '7',
        8 => '8',
        _ => '9',
    }
}

/// A number in decimal notation.
fn decimal_of(n: usize) -> (r: Vec<char>)
    ensures
        r@ == decimal(n as nat),
    decreases n,
{
    if n < 10 {
        let mut r: Vec<char> = Vec::new();
        r.push(digit_of(n));
        assert(r@ =~= seq![digit(n as int)]);
        r
    } else {
        let mut r = decimal_of(n / 10);
        r.push(digit_of(n % 10));
        r
    }
}

/// What the paths of the fields of layer `l` start with.
pub open spec fn layer_prefix(prefix: Seq<char>, l: int) -> Seq<char> {
    prefix + "layers."@ + decimal(l as nat) + "."@
}

/// What the paths of the fields of a layer start with.
fn layer_prefix_of(prefix: &Vec<char>, l: usize) -> (r: Vec<char>)
    ensures
        r@ == layer_prefix(prefix@, l as int),
{
    let mut r = joined(prefix, "layers.");
    let mut number = decimal_of(l);
    r.append(&mut number);
    joined(&r, ".")
}

/// The file has a fitting tensor for every weight of the base model whose fields start with
/// `prefix`.
pub open spec fn has_model(
    tensors: Seq<StoredView>,
    naming: Naming,
    prefix: Seq<char>,
    model: Qwen3Model,
) -> bool {
    &&& has_field(
        tensors,
        naming,
        prefix + "embed_tokens.weight"@,
        false,
        model.embed_tokens.weight@,
    )
    &&& forall|l: int|
        0 <= l < model.layers@.len() ==> has_layer(
            tensors,
            naming,
            layer_prefix(prefix, l),
            #[trigger] model.layers@[l],
        )
    &&& has_field(tensors, naming, prefix + "norm.gamma"@, false, model.norm.gamma@)
}

/// `after` is the base model `before` with the weights of the file.
pub open spec fn model_after(
    tensors: Seq<StoredView>,
    naming: Naming,
    prefix: Seq<char>,
    before: Qwen3Model,
    after: Qwen3Model,
) -> bool {
    &&& after.config == before.config
    &&& after.embed_tokens.weight@ == field_after(
        tensors,
        naming,
        prefix + "embed_tokens.weight"@,
        false,
        before.embed_tokens.weight@,
    )
    &&& after.layers@.len() == before.layers@.len()
    &&& forall|l: int|
        0 <= l < after.layers@.len() ==> layer_after(
            tensors,
            naming,
            layer_prefix(prefix, l),
            before.layers@[l],
            #[trigger] after.layers@[l],
        )
    &&& after.norm.epsilon == before.norm.epsilon
    &&& after.norm.gamma@ == field_after(
        tensors,
        naming,
        prefix + "norm.gamma"@,
        false,
        before.norm.gamma@,
    )
}

/// Every weight of the base model is a tensor.
pub open spec fn model_has_tensors(model: Qwen3Model) -> bool {
    &&& model.embed_tokens.weight@.wf()
    &&& forall|l: int|
        0 <= l < model.layers@.len() ==> layer_has_tensors(#[trigger] model.layers@[l])
    &&& model.norm.gamma@.wf()
}

/// Loads the weights of a base model, and tells whether the file has all of them.
fn load_model(
    naming: Naming,
    tensors: &Vec<StoredTensor>,
    paths: &Vec<Vec<char>>,
    prefix: &Vec<char>,
    model: &mut Qwen3Model,
) -> (r: bool)
    requires
        paths@.len() == tensors@.len(),
        forall|i: int|
            0 <= i < paths@.len() ==> (#[trigger] paths@[i])@ == field_path(
                naming,
                tensors@[i].name@,
            ),
        model_has_tensors(*old(model)),
    ensures
        r == has_model(stored_views(tensors@), naming, prefix@, *old(model)),
        model_after(stored_views(tensors@), naming, prefix@, *old(model), *final(model)),
        model_has_tensors(*final(model)),
        old(model).wf() ==> final(model).wf(),
{
    let ghost stored = stored_views(tensors@);
    let ghost before = *model;
    let embeddings = load_field(
        naming,
        tensors,
        paths,
        &joined(prefix, "embed_tokens.weight"),
        false,
        &mut model.embed_tokens.weight,
    );
    let mut complete = true;
    let mut l: usize = 0;
    while l < model.layers.len()
        invariant
            0 <= l <= model.layers@.len(),
            stored == stored_views(tensors@),
            paths@.len() == tensors@.len(),
            forall|i: int|
                0 <= i < paths@.len() ==> (#[trigger] paths@[i])@ == field_path(
                    naming,
                    tensors@[i].name@,
                ),
            model_has_tensors(before),
            model.layers@.len() == before.layers@.len(),
            model.config == before.config,
            model.norm == before.norm,
            model.embed_tokens.weight@ == field_after(
                stored,
                naming,
                prefix@ + "embed_tokens.weight"@,
                false,
                before.embed_tokens.weight@,
            ),
            model.embed_tokens.weight@.wf(),
            model.embed_tokens.weight@.dims == before.embed_tokens.weight@.dims,
            forall|i: int|
                0 <= i < l ==> layer_after(
                    stored,
                    naming,
                    layer_prefix(prefix@, i),
                    before.layers@[i],
                    #[trigger] model.layers@[i],
                ) && layer_has_tensors(model.layers@[i]) && (before.layers@[i].wf()
                    ==> model.layers@[i].wf() && model.layers@[i].hidden_size()
                    == before.layers@[i].hidden_size()),
            forall|i: int|
                l <= i < model.layers@.len() ==> #[trigger] model.layers@[i] == before.layers@[i],
            complete == (forall|i: int|
                0 <= i < l ==> has_layer(
                    stored,
                    naming,
                    layer_prefix(prefix@, i),
                    #[trigger] before.layers@[i],
                )),
        decreases model.layers@.len() - l,
    {
        assert(model.layers@[l as int] == before.layers@[l as int]);
        let layer_path = layer_prefix_of(prefix, l);
        let whole = load_layer(naming, tensors, paths, &layer_path, &mut model.layers[l]);
        complete = complete && whole;
        l += 1;
    }
    let norm = load_field(
        naming,
        tensors,
        paths,
        &joined(prefix, "norm.gamma"),
        false,
        &mut model.norm.gamma,
    );
    proof {
        if before.wf() {
            assert forall|i: int| 0 <= i < model.layers@.len() implies (
            #[trigger] model.layers@[i]).wf() && model.layers@[i].hidden_size()
                == model.config.hidden_size by {
                assert(before.layers@[i].wf());
            }
        }
    }
    embeddings && complete && norm
}

/// The names that a weight file uses for a base model.
pub open spec fn base_naming(format: WeightFormat) -> Naming {
    match format {
        WeightFormat::Safetensors => Naming::PyTorchBase,
        WeightFormat::Burnpack => Naming::Fields,
    }
}

/// The names that a weight file uses for a causal language model.
pub open spec fn causal_lm_naming(format: WeightFormat) -> Naming {
    match format {
        WeightFormat::Safetensors => Naming::PyTorchCausalLM,
        WeightFormat::Burnpack => Naming::Fields,
    }
}

impl Qwen3Model {
    /// Loads the weights of a file: every weight that the file has a fitting tensor for is
    /// replaced, and if there is none for one of them, an error is returned.
    ///
    /// # Arguments
    /// * `format` - The format of the file, from [`weight_format`]
    /// * `tensors` - The tensors of the file
    pub fn load_weights(&mut self, format: WeightFormat, tensors: &Vec<StoredTensor>) -> (r: Result<
        (),
        ModelLoadError,
    >)
        requires
            model_has_tensors(*old(self)),
        ensures
            r == (if has_model(
                stored_views(tensors@),
                base_naming(format),
                Seq::empty(),
                *old(self),
            ) {
                Ok::<(), ModelLoadError>(())
            } else {
                Err(ModelLoadError::LoadError)
            }),
            model_after(
                stored_views(tensors@),
                base_naming(format),
                Seq::empty(),
                *old(self),
                *final(self),
            ),
            model_has_tensors(*final(self)),
            old(self).wf() ==> final(self).wf(),
    {
        let naming = match format {
            WeightFormat::Safetensors => Naming::PyTorchBase,
            WeightFormat::Burnpack => Naming::Fields,
        };
        let paths = field_paths(naming, tensors);
        let prefix: Vec<char> = Vec::new();
        assert(prefix@ =~= Seq::<char>::empty());
        if load_model(naming, tensors, &paths, &prefix, self) {
            Ok(())
        } else {
            Err(ModelLoadError::LoadError)
        }
    }

    /// Loads the weights of a file and returns the model.
    pub fn with_weights(self, format: WeightFormat, tensors: &Vec<StoredTensor>) -> (r: Result<
        Qwen3Model,
        ModelLoadError,
    >)
        requires
            model_has_tensors(self),
        ensures
            r matches Err(e) ==> e == ModelLoadError::LoadError,
            r is Ok <==> has_model(
                stored_views(tensors@),
                base_naming(format),
                Seq::empty(),
                self,
            ),
            r matches Ok(model) ==> model_after(
                stored_views(tensors@),
                base_naming(format),
                Seq::empty(),
                self,
                model,
            ) && model_has_tensors(model) && (self.wf() ==> model.wf()),
    {
        let mut model = self;
        match model.load_weights(format, tensors) {
            Ok(_) => Ok(model),
            Err(e) => Err(e),
        }
    }
}

/// The file has a fitting tensor for every weight of the causal language model.
pub open spec fn has_causal_lm(
    tensors: Seq<StoredView>,
    naming: Naming,
    lm: Qwen3ForCausalLM,
) -> bool {
    &&& has_model(tensors, naming, "model."@, lm.model)
    &&& has_field(
        tensors,
        naming,
        "lm_head.weight"@,
        stores_transposed(naming),
        lm.lm_head.weight@,
    )
}

/// `after` is the causal language model `before` with the weights of the file.
pub open spec fn causal_lm_after(
    tensors: Seq<StoredView>,
    naming: Naming,
    before: Qwen3ForCausalLM,
    after: Qwen3ForCausalLM,
) -> bool {
    &&& model_after(tensors, naming, "model."@, before.model, after.model)
    &&& after.lm_head.weight@ == field_after(
        tensors,
        naming,
        "lm_head.weight"@,
        stores_transposed(naming),
        before.lm_head.weight@,
    )
}

/// Every weight of the causal language model is a tensor.
pub open spec fn causal_lm_has_tensors(lm: Qwen3ForCausalLM) -> bool {
    model_has_tensors(lm.model) && lm.lm_head.weight@.wf()
}

impl Qwen3ForCausalLM {
    /// Loads the weights of a file: every weight that the file has a fitting tensor for is
    /// replaced, and if there is none for one of them, an error is returned.
    ///
    /// # Arguments
    /// * `format` - The format of the file, from [`weight_format`]
    /// * `tensors` - The tensors of the file
    pub fn load_weights(&mut self, format: WeightFormat, tensors: &Vec<StoredTensor>) -> (r: Result<
        (),
        ModelLoadError,
    >)
        requires
            causal_lm_has_tensors(*old(self)),
        ensures
            r == (if has_causal_lm(
                stored_views(tensors@),
                causal_lm_naming(format),
                *old(self),
            ) {
                Ok::<(), ModelLoadError>(())
            } else {
                Err(ModelLoadError::LoadError)
            }),
            causal_lm_after(
                stored_views(tensors@),
                causal_lm_naming(format),
                *old(self),
                *final(self),
            ),
            causal_lm_has_tensors(*final(self)),
            old(self).wf() ==> final(self).wf(),
    {
        let naming = match format {
            WeightFormat::Safetensors => Naming::PyTorchCausalLM,
            WeightFormat::Burnpack => Naming::Fields,
        };
        let transposed = match format {
            WeightFormat::Safetensors => true,
            WeightFormat::Burnpack => false,
        };
        let paths = field_paths(naming, tensors);
        let prefix = chars_of("model.");
        let base = load_model(naming, tensors, &paths, &prefix, &mut self.model);
        let head_path = chars_of("lm_head.weight");
        let head = load_field(
            naming,
            tensors,
            &paths,
            &head_path,
            transposed,
            &mut self.lm_head.weight,
        );
        if base && head {
            Ok(())
        } else {
            Err(ModelLoadError::LoadError)
        }
    }

    /// Loads the weights of a file and returns the model.
    pub fn with_weights(self, format: WeightFormat, tensors: &Vec<StoredTensor>) -> (r: Result<
        Qwen3ForCausalLM,
        ModelLoadError,
    >)
        requires
            causal_lm_has_tensors(self),
        ensures
            r matches Err(e) ==> e == ModelLoadError::LoadError,
            r is Ok <==> has_causal_lm(stored_views(tensors@), causal_lm_naming(format), self),
            r matches Ok(lm) ==> causal_lm_after(
                stored_views(tensors@),
                causal_lm_naming(format),
                self,
                lm,
            ) && causal_lm_has_tensors(lm) && (self.wf() ==> lm.wf()),
    {
        let mut lm = self;
        match lm.load_weights(format, tensors) {
            Ok(_) => Ok(lm),
            Err(e) => Err(e),
        }
    }
}

/// Another end takes the place of the one that is there.
proof fn lemma_with_end(stem: Seq<char>, from: Seq<char>, to: Seq<char>)
    ensures
        with_end(stem + from, from, to) == stem + to,
{
    let s = stem + from;
    assert(s.subrange(s.len() - from.len(), s.len() as int) =~= from);
    assert(s.take(s.len() - from.len()) =~= stem);
}

/// A string with another last character does not end so.
proof fn lemma_other_end(s: Seq<char>, from: Seq<char>, to: Seq<char>)
    requires
        s.len() > 0,
        from.len() > 0,
        s.last() != from.last(),
    ensures
        with_end(s, from, to) == s,
{
    if ends_in(s, from) {
        let tail = s.subrange(s.len() - from.len(), s.len() as int);
        assert(tail.last() == s.last());
    }
}

/// The weights of projections keep their names.
pub proof fn lemma_projections_keep_their_names(stem: Seq<char>)
    ensures
        norms_renamed(stem + "_proj.weight"@) == stem + "_proj.weight"@,
        field_path(Naming::PyTorchCausalLM, stem + "_proj.weight"@) == stem + "_proj.weight"@,
        field_path(Naming::PyTorchBase, "model."@ + stem + "_proj.weight"@) == stem
            + "_proj.weight"@,
{
    reveal_strlit("_proj.weight");
    reveal_strlit("_proj.gamma");
    reveal_strlit("_proj");
    reveal_strlit(".weight");
    reveal_strlit(".gamma");
    reveal_strlit("embed_tokens.gamma");
    reveal_strlit("embed_tokens.weight");
    reveal_strlit("lm_head.gamma");
    reveal_strlit("lm_head.weight");
    reveal_strlit("model.");
    let name = stem + "_proj.weight"@;
    assert(name =~= (stem + "_proj"@) + ".weight"@);
    lemma_with_end(stem + "_proj"@, ".weight"@, ".gamma"@);
    assert((stem + "_proj"@) + ".gamma"@ =~= stem + "_proj.gamma"@);
    lemma_with_end(stem, "_proj.gamma"@, "_proj.weight"@);
    lemma_other_end(name, "embed_tokens.gamma"@, "embed_tokens.weight"@);
    lemma_other_end(name, "lm_head.gamma"@, "lm_head.weight"@);
    let full = "model."@ + stem + "_proj.weight"@;
    assert(full.take(6) =~= "model."@);
    assert(full.skip(6) =~= name);
}

/// The weights of normalizations are called gamma.
pub proof fn lemma_norms_become_gamma(stem: Seq<char>)
    ensures
        norms_renamed(stem + "norm.weight"@) == stem + "norm.gamma"@,
        field_path(Naming::PyTorchCausalLM, stem + "norm.weight"@) == stem + "norm.gamma"@,
        field_path(Naming::PyTorchBase, "model."@ + stem + "norm.weight"@) == stem + "norm.gamma"@,
{
    reveal_strlit("norm.weight");
    reveal_strlit("norm.gamma");
    reveal_strlit("norm");
    reveal_strlit(".weight");
    reveal_strlit(".gamma");
    reveal_strlit("_proj.gamma");
    reveal_strlit("_proj.weight");
    reveal_strlit("embed_tokens.gamma");
    reveal_strlit("embed_tokens.weight");
    reveal_strlit("lm_head.gamma");
    reveal_strlit("lm_head.weight");
    reveal_strlit("model.");
    let name = stem + "norm.weight"@;
    let renamed = stem + "norm.gamma"@;
    assert(name =~= (stem + "norm"@) + ".weight"@);
    lemma_with_end(stem + "norm"@, ".weight"@, ".gamma"@);
    assert((stem + "norm"@) + ".gamma"@ =~= renamed);
    assert(renamed[renamed.len() - 7] == 'm');
    assert(!ends_in(renamed, "_proj.gamma"@)) by {
        if ends_in(renamed, "_proj.gamma"@) {
            let tail = renamed.subrange(renamed.len() - 11, renamed.len() as int);
            assert(tail[4] == 'j');
            assert(tail[4] == renamed[renamed.len() - 7]);
        }
    }
    assert(!ends_in(renamed, "embed_tokens.gamma"@)) by {
        if ends_in(renamed, "embed_tokens.gamma"@) {
            let tail = renamed.subrange(renamed.len() - 18, renamed.len() as int);
            assert(tail[11] == 's');
            assert(tail[11] == renamed[renamed.len() - 7]);
        }
    }
    assert(!ends_in(renamed, "lm_head.gamma"@)) by {
        if ends_in(renamed, "lm_head.gamma"@) {
            let tail = renamed.subrange(renamed.len() - 13, renamed.len() as int);
            assert(tail[6] == 'd');
            assert(tail[6] == renamed[renamed.len() - 7]);
        }
    }
    let full = "model."@ + stem + "norm.weight"@;
    assert(full.take(6) =~= "model."@);
    assert(full.skip(6) =~= name);
}

/// The embeddings and the language modeling head keep their names, but for the prefix of the base
/// model.
pub proof fn lemma_embeddings_keep_their_names()
    ensures
        field_path(Naming::PyTorchBase, "model.embed_tokens.weight"@) == "embed_tokens.weight"@,
        field_path(Naming::PyTorchCausalLM, "model.embed_tokens.weight"@)
            == "model.embed_tokens.weight"@,
        field_path(Naming::PyTorchCausalLM, "lm_head.weight"@) == "lm_head.weight"@,
{
    reveal_strlit("model.embed_tokens.weight");
    reveal_strlit("embed_tokens.weight");
    reveal_strlit("embed_tokens.gamma");
    reveal_strlit("embed_tokens");
    reveal_strlit("lm_head.weight");
    reveal_strlit("lm_head.gamma");
    reveal_strlit("lm_head");
    reveal_strlit("model.");
    reveal_strlit(".weight");
    reveal_strlit(".gamma");
    reveal_strlit("_proj.gamma");
    reveal_strlit("_proj.weight");
    let full = "model.embed_tokens.weight"@;
    let name = "embed_tokens.weight"@;
    assert(full.take(6) =~= "model."@);
    assert(full.skip(6) =~= name);
    assert(name =~= "embed_tokens"@ + ".weight"@);
    lemma_with_end("embed_tokens"@, ".weight"@, ".gamma"@);
    assert("embed_tokens"@ + ".gamma"@ =~= "embed_tokens.gamma"@);
    assert("embed_tokens.gamma"@.subrange(7, 18)[4] == 's');
    assert("_proj.gamma"@[4] == 'j');
    assert(!ends_in("embed_tokens.gamma"@, "_proj.gamma"@));
    lemma_with_end(Seq::empty(), "embed_tokens.gamma"@, "embed_tokens.weight"@);
    assert(Seq::<char>::empty() + "embed_tokens.gamma"@ =~= "embed_tokens.gamma"@);
    assert(Seq::<char>::empty() + name =~= name);
    let stem = "model."@;
    assert(full =~= (stem + "embed_tokens"@) + ".weight"@);
    lemma_with_end(stem + "embed_tokens"@, ".weight"@, ".gamma"@);
    let middle = stem + "embed_tokens.gamma"@;
    assert((stem + "embed_tokens"@) + ".gamma"@ =~= middle);
    assert(middle.subrange(13, 24)[4] == 's');
    assert(!ends_in(middle, "_proj.gamma"@));
    lemma_with_end(stem, "embed_tokens.gamma"@, "embed_tokens.weight"@);
    assert(stem + name =~= full);
    lemma_other_end(full, "lm_head.gamma"@, "lm_head.weight"@);
    let head = "lm_head.weight"@;
    assert(head =~= "lm_head"@ + ".weight"@);
    lemma_with_end("lm_head"@, ".weight"@, ".gamma"@);
    assert("lm_head"@ + ".gamma"@ =~= "lm_head.gamma"@);
    assert("lm_head.gamma"@.subrange(2, 13)[4] == 'd');
    assert(!ends_in("lm_head.gamma"@, "_proj.gamma"@));
    assert(!ends_in("lm_head.gamma"@, "embed_tokens.gamma"@));
    lemma_with_end(Seq::empty(), "lm_head.gamma"@, "lm_head.weight"@);
    assert(Seq::<char>::empty() + "lm_head.gamma"@ =~= "lm_head.gamma"@);
    assert(Seq::<char>::empty() + head =~= head);
}

/// Exchanging rows and columns twice changes nothing.
pub proof fn lemma_flipped_twice(t: TensorView)
    requires
        t.wf(),
        t.dims.len() == 2,
    ensures
        flipped(flipped(t)) == t,
{
    let (rows, cols) = (t.dims[0] as int, t.dims[1] as int);
    let f = flipped(t);
    let g = flipped(f);
    lemma_offset2(t.dims, 0, 0);
    assert(rows * cols == cols * rows) by (nonlinear_arith);
    assert(g.dims =~= t.dims);
    assert forall|p: int| 0 <= p < t.data.len() implies g.data[p] == t.data[p] by {
        let i = p / cols;
        let j = p % cols;
        assert(0 <= i < rows && 0 <= j < cols && p == i * cols + j) by (nonlinear_arith)
            requires
                0 <= p < rows * cols,
                cols > 0,
                i == p / cols,
                j == p % cols,
        ;
        let q = j * rows + i;
        assert(0 <= q < rows * cols) by (nonlinear_arith)
            requires
                q == j * rows + i,
                0 <= i < rows,
                0 <= j < cols,
        ;
        assert(q % rows == i && q / rows == j) by {
            vstd::arithmetic::div_mod::lemma_fundamental_div_mod_converse(q, rows, j, i);
        }
        assert(g.data[p] == f.data[q]);
        assert(f.data[q] == t.data[i * cols + j]);
    }
    assert(g.data =~= t.data);
}

/// Exchanging rows and columns puts the element at row `i` and column `j` at row `j` and column
/// `i`.
pub proof fn lemma_flipped_element(t: TensorView, i: int, j: int)
    requires
        t.wf(),
        t.dims.len() == 2,
        0 <= i < t.dims[0],
        0 <= j < t.dims[1],
    ensures
        flipped(t).dims == seq![t.dims[1], t.dims[0]],
        flipped(t).data.len() == t.data.len(),
        flipped(t).at(seq![j, i]) == t.at(seq![i, j]),
{
    let (rows, cols) = (t.dims[0] as int, t.dims[1] as int);
    let f = flipped(t);
    lemma_offset2(t.dims, i, j);
    lemma_offset2(f.dims, j, i);
    let q = j * rows + i;
    assert(0 <= q < rows * cols) by (nonlinear_arith)
        requires
            q == j * rows + i,
            0 <= i < rows,
            0 <= j < cols,
    ;
    assert(q % rows == i && q / rows == j) by {
        vstd::arithmetic::div_mod::lemma_fundamental_div_mod_converse(q, rows, j, i);
    }
}

/// The number that decimal digits stand for.
pub open spec fn number_of(digits: Seq<char>) -> int
    decreases digits.len(),
{
    if digits.len() == 0 {
        0
    } else {
        10 * number_of(digits.drop_last()) + (digits.last() as int - '0' as int)
    }
}

/// The number of a layer is written in decimal digits: they stand for the number, and do not start
/// with a zero unless the number is zero. So no two layers share a name.
pub proof fn lemma_decimal_stands_for_the_number(n: nat)
    ensures
        number_of(decimal(n)) == n,
        decimal(n).len() > 0,
        forall|i: int|
            0 <= i < decimal(n).len() ==> '0' as int <= #[trigger] decimal(n)[i] as int
                <= '9' as int,
        n > 0 ==> decimal(n)[0] != '0',
    decreases n,
{
    let d = decimal(n);
    if n < 10 {
        reveal_with_fuel(number_of, 2);
        assert(d.drop_last() =~= Seq::<char>::empty());
        assert(d.last() == digit(n as int));
    } else {
        lemma_decimal_stands_for_the_number(n / 10);
        let head = decimal(n / 10);
        assert(d.drop_last() =~= head);
        assert(d.last() == digit((n % 10) as int));
        assert(d[0] == head[0]);
        assert forall|i: int| 0 <= i < d.len() implies '0' as int <= #[trigger] d[i] as int
            <= '9' as int by {
            if i < head.len() {
                assert(d[i] == head[i]);
            }
        }
    }
}

/// The paths of the fields of layer `l` start with `layers.`, the number of the layer and a dot,
/// behind the prefix of the model.
pub proof fn lemma_layer_paths(prefix: Seq<char>, l: int, digits: Seq<char>)
    requires
        l >= 0,
        digits == decimal(l as nat),
    ensures
        layer_prefix(prefix, l) == prefix + "layers."@ + digits + "."@,
        number_of(digits) == l,
{
    lemma_decimal_stands_for_the_number(l as nat);
}

/// Of the tensors that are for a field, the last is taken; none if there is none.
pub proof fn lemma_last_tensor_is_taken(
    tensors: Seq<StoredView>,
    naming: Naming,
    path: Seq<char>,
    p: int,
)
    requires
        -1 <= p < tensors.len(),
        p >= 0 ==> field_path(naming, tensors[p].name) == path,
        forall|i: int|
            p < i < tensors.len() ==> field_path(naming, (#[trigger] tensors[i]).name) != path,
    ensures
        p >= 0 ==> stored_at(tensors, naming, path) == Some(tensors[p].tensor),
        p < 0 ==> stored_at(tensors, naming, path) is None,
    decreases tensors.len(),
{
    if tensors.len() > 0 {
        let n = tensors.len() - 1;
        if p < n {
            assert(field_path(naming, tensors[n].name) != path);
            let rest = tensors.drop_last();
            assert forall|i: int| p < i < rest.len() implies field_path(
                naming,
                (#[trigger] rest[i]).name,
            ) != path by {
                assert(tensors[i].name == rest[i].name);
            }
            lemma_last_tensor_is_taken(rest, naming, path, p);
        }
    }
}

/// What loading makes of a field: a stored tensor of the field's shape is taken as it is; where
/// rows and columns are stored exchanged, one of the exchanged shape is taken, and its element at
/// row `i` and column `j` goes to row `j` and column `i`; and without a fitting tensor the field
/// stays.
pub proof fn lemma_what_loading_does(
    tensors: Seq<StoredView>,
    naming: Naming,
    path: Seq<char>,
    transposed: bool,
    before: TensorView,
    stored: TensorView,
    i: int,
    j: int,
)
    requires
        stored_at(tensors, naming, path) == Some(stored),
    ensures
        !transposed ==> has_field(tensors, naming, path, transposed, before) == (stored.dims
            == before.dims && stored.data.len() == volume(stored.dims)),
        transposed && stored.dims.len() == 2 ==> has_field(
            tensors,
            naming,
            path,
            transposed,
            before,
        ) == (before.dims == seq![stored.dims[1], stored.dims[0]] && stored.data.len() == volume(
            stored.dims,
        )),
        !transposed && stored.dims == before.dims && stored.data.len() == volume(stored.dims)
            ==> field_after(tensors, naming, path, transposed, before) == stored,
        transposed && stored.wf() && stored.dims.len() == 2 && before.dims == seq![
            stored.dims[1],
            stored.dims[0],
        ] && 0 <= i < stored.dims[0] && 0 <= j < stored.dims[1] ==> field_after(
            tensors,
            naming,
            path,
            transposed,
            before,
        ).at(seq![j, i]) == stored.at(seq![i, j]),
        stored.data.len() != volume(stored.dims) ==> field_after(
            tensors,
            naming,
            path,
            transposed,
            before,
        ) == before,
        !transposed && stored.dims != before.dims ==> field_after(
            tensors,
            naming,
            path,
            transposed,
            before,
        ) == before,
        transposed && stored.dims.len() == 2 && before.dims != seq![
            stored.dims[1],
            stored.dims[0],
        ] ==> field_after(tensors, naming, path, transposed, before) == before,
        transposed && stored.dims.len() != 2 && before.dims.len() == 2 ==> field_after(
            tensors,
            naming,
            path,
            transposed,
            before,
        ) == before && !has_field(tensors, naming, path, transposed, before),
{
    if stored.wf() && stored.dims.len() == 2 && 0 <= i < stored.dims[0] && 0 <= j
        < stored.dims[1] {
        lemma_flipped_element(stored, i, j);
    }
}

/// Without a tensor for it a field stays.
pub proof fn lemma_field_without_tensor_stays(
    tensors: Seq<StoredView>,
    naming: Naming,
    path: Seq<char>,
    transposed: bool,
    before: TensorView,
)
    requires
        stored_at(tensors, naming, path) is None,
    ensures
        field_after(tensors, naming, path, transposed, before) == before,
        !has_field(tensors, naming, path, transposed, before),
{
}

/// Every weight of a layer is loaded from the tensor of its own name, and only the projections are
/// stored with rows and columns exchanged, in files of PyTorch.
pub proof fn lemma_layer_loads_by_name(
    tensors: Seq<StoredView>,
    naming: Naming,
    prefix: Seq<char>,
    before: Qwen3DecoderLayer,
    after: Qwen3DecoderLayer,
)
    requires
        layer_after(tensors, naming, prefix, before, after),
    ensures
        ({
            let t = naming != Naming::Fields;
            let (a, b) = (after.self_attn, before.self_attn);
            let q = prefix + "self_attn.q_proj.weight"@;
            let k = prefix + "self_attn.k_proj.weight"@;
            let v = prefix + "self_attn.v_proj.weight"@;
            let o = prefix + "self_attn.o_proj.weight"@;
            let qn = prefix + "self_attn.q_norm.gamma"@;
            let kn = prefix + "self_attn.k_norm.gamma"@;
            let gate = prefix + "mlp.gate_proj.weight"@;
            let up = prefix + "mlp.up_proj.weight"@;
            let down = prefix + "mlp.down_proj.weight"@;
            let first = prefix + "input_layernorm.gamma"@;
            let second = prefix + "post_attention_layernorm.gamma"@;
            &&& a.q_proj.weight@ == field_after(tensors, naming, q, t, b.q_proj.weight@)
            &&& a.k_proj.weight@ == field_after(tensors, naming, k, t, b.k_proj.weight@)
            &&& a.v_proj.weight@ == field_after(tensors, naming, v, t, b.v_proj.weight@)
            &&& a.o_proj.weight@ == field_after(tensors, naming, o, t, b.o_proj.weight@)
            &&& a.q_norm.gamma@ == field_after(tensors, naming, qn, false, b.q_norm.gamma@)
            &&& a.k_norm.gamma@ == field_after(tensors, naming, kn, false, b.k_norm.gamma@)
            &&& after.mlp.gate_proj.weight@ == field_after(
                tensors,
                naming,
                gate,
                t,
                before.mlp.gate_proj.weight@,
            )
            &&& after.mlp.up_proj.weight@ == field_after(
                tensors,
                naming,
                up,
                t,
                before.mlp.up_proj.weight@,
            )
            &&& after.mlp.down_proj.weight@ == field_after(
                tensors,
                naming,
                down,
                t,
                before.mlp.down_proj.weight@,
            )
            &&& after.input_layernorm.gamma@ == field_after(
                tensors,
                naming,
                first,
                false,
                before.input_layernorm.gamma@,
            )
            &&& after.post_attention_layernorm.gamma@ == field_after(
                tensors,
                naming,
                second,
                false,
                before.post_attention_layernorm.gamma@,
            )
            &&& a.num_heads == b.num_heads
            &&& a.num_kv_heads == b.num_kv_heads
            &&& a.head_dim == b.head_dim
            &&& a.rope_theta == b.rope_theta
            &&& a.q_norm.epsilon == b.q_norm.epsilon
            &&& a.k_norm.epsilon == b.k_norm.epsilon
            &&& after.input_layernorm.epsilon == before.input_layernorm.epsilon
            &&& after.post_attention_layernorm.epsilon == before.post_attention_layernorm.epsilon
        }),
{
}

/// A file has all of a layer if and only if it has a fitting tensor for each of its eleven weights.
pub proof fn lemma_whole_layer(
    tensors: Seq<StoredView>,
    naming: Naming,
    prefix: Seq<char>,
    layer: Qwen3DecoderLayer,
)
    ensures
        has_layer(tensors, naming, prefix, layer) <==> ({
            let t = naming != Naming::Fields;
            let (a, mlp) = (layer.self_attn, layer.mlp);
            let (first, second) = (layer.input_layernorm, layer.post_attention_layernorm);
            let q = prefix + "self_attn.q_proj.weight"@;
            let k = prefix + "self_attn.k_proj.weight"@;
            let v = prefix + "self_attn.v_proj.weight"@;
            let o = prefix + "self_attn.o_proj.weight"@;
            let qn = prefix + "self_attn.q_norm.gamma"@;
            let kn = prefix + "self_attn.k_norm.gamma"@;
            let gate = prefix + "mlp.gate_proj.weight"@;
            let up = prefix + "mlp.up_proj.weight"@;
            let down = prefix + "mlp.down_proj.weight"@;
            let before = prefix + "input_layernorm.gamma"@;
            let between = prefix + "post_attention_layernorm.gamma"@;
            &&& has_field(tensors, naming, q, t, a.q_proj.weight@)
            &&& has_field(tensors, naming, k, t, a.k_proj.weight@)
            &&& has_field(tensors, naming, v, t, a.v_proj.weight@)
            &&& has_field(tensors, naming, o, t, a.o_proj.weight@)
            &&& has_field(tensors, naming, qn, false, a.q_norm.gamma@)
            &&& has_field(tensors, naming, kn, false, a.k_norm.gamma@)
            &&& has_field(tensors, naming, gate, t, mlp.gate_proj.weight@)
            &&& has_field(tensors, naming, up, t, mlp.up_proj.weight@)
            &&& has_field(tensors, naming, down, t, mlp.down_proj.weight@)
            &&& has_field(tensors, naming, before, false, first.gamma@)
            &&& has_field(tensors, naming, between, false, second.gamma@)
        }),
{
}

/// A file has all of a base model if and only if it has the embeddings, every layer by its number,
/// and the last normalization; and all of a causal language model if and only if it has those under
/// `model.` and the head.
pub proof fn lemma_whole_model(
    tensors: Seq<StoredView>,
    naming: Naming,
    prefix: Seq<char>,
    lm: Qwen3ForCausalLM,
)
    ensures
        has_model(tensors, naming, prefix, lm.model) <==> {
            let (embed, norm) = (lm.model.embed_tokens.weight@, lm.model.norm.gamma@);
            &&& has_field(tensors, naming, prefix + "embed_tokens.weight"@, false, embed)
            &&& forall|l: int|
                0 <= l < lm.model.layers@.len() ==> has_layer(
                    tensors,
                    naming,
                    prefix + "layers."@ + decimal(l as nat) + "."@,
                    #[trigger] lm.model.layers@[l],
                )
            &&& has_field(tensors, naming, prefix + "norm.gamma"@, false, norm)
        },
        has_causal_lm(tensors, naming, lm) <==> {
            let (head, t) = (lm.lm_head.weight@, naming != Naming::Fields);
            &&& has_model(tensors, naming, "model."@, lm.model)
            &&& has_field(tensors, naming, "lm_head.weight"@, t, head)
        },
{
}

/// Every layer of a base model is loaded by its own number, and the embeddings and the last
/// normalization by their names.
pub proof fn lemma_model_loads_by_name(
    tensors: Seq<StoredView>,
    naming: Naming,
    prefix: Seq<char>,
    before: Qwen3Model,
    after: Qwen3Model,
    l: int,
)
    requires
        model_after(tensors, naming, prefix, before, after),
        0 <= l < before.layers@.len(),
    ensures
        after.layers@.len() == before.layers@.len(),
        layer_after(
            tensors,
            naming,
            prefix + "layers."@ + decimal(l as nat) + "."@,
            before.layers@[l],
            after.layers@[l],
        ),
        after.embed_tokens.weight@ == field_after(
            tensors,
            naming,
            prefix + "embed_tokens.weight"@,
            false,
            before.embed_tokens.weight@,
        ),
        after.norm.gamma@ == field_after(
            tensors,
            naming,
            prefix + "norm.gamma"@,
            false,
            before.norm.gamma@,
        ),
        after.norm.epsilon == before.norm.epsilon,
        after.config == before.config,
{
    assert(layer_after(
        tensors,
        naming,
        layer_prefix(prefix, l),
        before.layers@[l],
        after.layers@[l],
    ));
}

/// Loading a base model succeeds only if no weight of any layer is missing or misshapen: where one
/// has no tensor, it fails.
pub proof fn lemma_missing_weight_fails(
    tensors: Seq<StoredView>,
    naming: Naming,
    prefix: Seq<char>,
    model: Qwen3Model,
    l: int,
    name: Seq<char>,
)
    requires
        0 <= l < model.layers@.len(),
        stored_at(
            tensors,
            naming,
            prefix + "layers."@ + decimal(l as nat) + "."@ + name,
        ) is None,
        name == "self_attn.q_proj.weight"@ || name == "self_attn.k_proj.weight"@ || name
            == "self_attn.v_proj.weight"@ || name == "self_attn.o_proj.weight"@ || name
            == "self_attn.q_norm.gamma"@ || name == "self_attn.k_norm.gamma"@ || name
            == "mlp.gate_proj.weight"@ || name == "mlp.up_proj.weight"@ || name
            == "mlp.down_proj.weight"@ || name == "input_layernorm.gamma"@ || name
            == "post_attention_layernorm.gamma"@,
    ensures
        !has_model(tensors, naming, prefix, model),
{
    if has_model(tensors, naming, prefix, model) {
        assert(has_layer(tensors, naming, layer_prefix(prefix, l), model.layers@[l]));
    }
}

/// Names that end otherwise than in `.weight` or `.gamma` stay, but for the prefix of the base
/// model, which is taken off once.
pub proof fn lemma_other_names_stay(name: Seq<char>)
    requires
        !ends_in(name, ".weight"@),
        !ends_in(name, ".gamma"@),
    ensures
        field_path(Naming::PyTorchCausalLM, name) == name,
        field_path(Naming::PyTorchBase, "model."@ + name) == name,
        field_path(Naming::Fields, name) == name,
{
    reveal_strlit(".gamma");
    reveal_strlit("_proj.gamma");
    reveal_strlit("embed_tokens.gamma");
    reveal_strlit("lm_head.gamma");
    assert("_proj.gamma"@.subrange(5, 11) =~= ".gamma"@);
    assert("embed_tokens.gamma"@.subrange(12, 18) =~= ".gamma"@);
    assert("lm_head.gamma"@.subrange(7, 13) =~= ".gamma"@);
    lemma_longer_end(name, "_proj.gamma"@);
    lemma_longer_end(name, "embed_tokens.gamma"@);
    lemma_longer_end(name, "lm_head.gamma"@);
    let full = "model."@ + name;
    let n = "model."@.len() as int;
    assert(full.take(n) =~= "model."@);
    assert(full.skip(n) =~= name);
}

/// What does not end in `.gamma` does not end in anything longer that does.
proof fn lemma_longer_end(name: Seq<char>, end: Seq<char>)
    requires
        !ends_in(name, ".gamma"@),
        ends_in(end, ".gamma"@),
    ensures
        !ends_in(name, end),
{
    if ends_in(name, end) {
        let g = ".gamma"@;
        let tail = name.subrange(name.len() - end.len(), name.len() as int);
        let (a, b) = (
            name.subrange(name.len() - g.len(), name.len() as int),
            end.subrange(end.len() - g.len(), end.len() as int),
        );
        assert forall|i: int| 0 <= i < g.len() implies #[trigger] a[i] == b[i] by {
            assert(tail[end.len() - g.len() + i] == a[i]);
        }
        assert(a =~= b);
    }
}

/// Which files are which: only the extension of HuggingFace's format means it, that of burn's
/// format or none means burn's, and any other is an error.
pub proof fn lemma_formats(extension: Option<Seq<char>>)
    ensures
        format_of(extension) == Ok::<WeightFormat, ModelLoadError>(WeightFormat::Safetensors)
            <==> extension == Some("safetensors"@),
        format_of(extension) == Ok::<WeightFormat, ModelLoadError>(WeightFormat::Burnpack)
            <==> extension is None || (extension == Some("bpk"@)),
        format_of(extension) is Err ==> format_of(extension) == Err::<
            WeightFormat,
            ModelLoadError,
        >(ModelLoadError::UnknownExtension),
        base_naming(WeightFormat::Safetensors) == Naming::PyTorchBase,
        causal_lm_naming(WeightFormat::Safetensors) == Naming::PyTorchCausalLM,
        base_naming(WeightFormat::Burnpack) == Naming::Fields,
        causal_lm_naming(WeightFormat::Burnpack) == Naming::Fields,
{
    reveal_strlit("safetensors");
    reveal_strlit("bpk");
    assert("safetensors"@.len() != "bpk"@.len());
}

/// A causal language model loads its base model under the prefix `model.`, and its head by its
/// name.
pub proof fn lemma_causal_lm_loads_by_name(
    tensors: Seq<StoredView>,
    naming: Naming,
    before: Qwen3ForCausalLM,
    after: Qwen3ForCausalLM,
)
    requires
        causal_lm_after(tensors, naming, before, after),
    ensures
        model_after(tensors, naming, "model."@, before.model, after.model),
        after.lm_head.weight@ == field_after(
            tensors,
            naming,
            "lm_head.weight"@,
            naming != Naming::Fields,
            before.lm_head.weight@,
        ),
        has_causal_lm(tensors, naming, before) ==> has_model(
            tensors,
            naming,
            "model."@,
            before.model,
        ) && stored_at(tensors, naming, "lm_head.weight"@) is Some,
{
}

} // verus!
