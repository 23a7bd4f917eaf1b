//! Storing weights: the tensors of a model under the names of its fields, as a file of burn holds
//! them.
use vstd::prelude::*;

use crate::causal_lm::Qwen3ForCausalLM;
use crate::decoder::Qwen3DecoderLayer;
use crate::load::{
    causal_lm_after, causal_lm_has_tensors, decimal, digit, has_causal_lm, has_layer, has_model,
    layer_after, layer_has_tensors, layer_prefix, model_after, model_has_tensors, stored_at,
    stored_views, Naming, StoredTensor, StoredView,
};
use crate::model::Qwen3Model;
use crate::tensor::{FloatTensor, TensorView};

verus! {

/// The weights of a layer whose fields start with `prefix`.
pub open spec fn layer_fields(prefix: Seq<char>, layer: Qwen3DecoderLayer) -> Seq<StoredView> {
    seq![
        StoredView {
            name: prefix + "self_attn.q_proj.weight"@,
            tensor: layer.self_attn.q_proj.weight@,
        },
        StoredView {
            name: prefix + "self_attn.k_proj.weight"@,
            tensor: layer.self_attn.k_proj.weight@,
        },
        StoredView {
            name: prefix + "self_attn.v_proj.weight"@,
            tensor: layer.self_attn.v_proj.weight@,
        },
        StoredView {
            name: prefix + "self_attn.o_proj.weight"@,
            tensor: layer.self_attn.o_proj.weight@,
        },
        StoredView {
            name: prefix + "self_attn.q_norm.gamma"@,
            tensor: layer.self_attn.q_norm.gamma@,
        },
        StoredView {
            name: prefix + "self_attn.k_norm.gamma"@,
            tensor: layer.self_attn.k_norm.gamma@,
        },
        StoredView {
            name: prefix + "mlp.gate_proj.weight"@,
            tensor: layer.mlp.gate_proj.weight@,
        },
        StoredView {
            name: prefix + "mlp.up_proj.weight"@,
            tensor: layer.mlp.up_proj.weight@,
        },
        StoredView {
            name: prefix + "mlp.down_proj.weight"@,
            tensor: layer.mlp.down_proj.weight@,
        },
        StoredView {
            name: prefix + "input_layernorm.gamma"@,
            tensor: layer.input_layernorm.gamma@,
        },
        StoredView {
            name: prefix + "post_attention_layernorm.gamma"@,
            tensor: layer.post_attention_layernorm.gamma@,
        },
    ]
}

/// The weights of the first `n` layers of a base model whose fields start with `prefix`.
pub open spec fn layers_fields(
    prefix: Seq<char>,
    layers: Seq<Qwen3DecoderLayer>,
    n: int,
) -> Seq<StoredView>
    decreases n,
{
    if n <= 0 {
        seq![]
    } else {
        layers_fields(prefix, layers, n - 1) + layer_fields(
            layer_prefix(prefix, n - 1),
            layers[n - 1],
        )
    }
}

/// The weights of a base model whose fields start with `prefix`.
pub open spec fn model_fields(prefix: Seq<char>, model: Qwen3Model) -> Seq<StoredView> {
    seq![
        StoredView {
            name: prefix + "embed_tokens.weight"@,
            tensor: model.embed_tokens.weight@,
        },
    ] + layers_fields(prefix, model.layers@, model.layers@.len() as int) + seq![
        StoredView { name: prefix + "norm.gamma"@, tensor: model.norm.gamma@ },
    ]
}

/// The weights of a causal language model.
pub open spec fn causal_lm_fields(lm: Qwen3ForCausalLM) -> Seq<StoredView> {
    model_fields("model."@, lm.model) + seq![
        StoredView { name: "lm_head.weight"@, tensor: lm.lm_head.weight@ },
    ]
}

/// A weight under its name.
fn stored(prefix: &String, name: &str, weight: &FloatTensor) -> (r: StoredTensor)
    requires
        weight@.wf(),
    ensures
        r@ == (StoredView { name: prefix@ + name@, tensor: weight@ }),
{
    let mut full = prefix.clone();
    full.append(name);
    let r = StoredTensor { name: full, dims: weight.dims(), bits: weight.to_bits() };
    assert(r@.tensor == weight@);
    r
}

/// A decimal digit.
fn digit_text(d: usize) -> (r: &'static str)
    requires
        d < 10,
    ensures
        r@ == seq![digit(d as int)],
{
    proof {
        reveal_strlit("0");
        reveal_strlit("1");
        reveal_strlit("2");
        reveal_strlit("3");
        reveal_strlit("4");
        reveal_strlit("5");
        reveal_strlit("6");
        reveal_strlit("7");
        reveal_strlit("8");
        reveal_strlit("9");
    }
    let r: &'static str = match d {
        0 => "0",
        1 => "1",
        2 => "2",
        3 => "3",
        4 => "4",
        5 => "5",
        6 => "6",
        7 => "7",
        8 => "8",
        _ => "9",
    };
    assert(r@ =~= seq![digit(d as int)]);
    r
}

/// Appends a number in decimal notation.
fn append_decimal(text: &mut String, n: usize)
    ensures
        final(text)@ == old(text)@ + decimal(n as nat),
    decreases n,
{
    if n < 10 {
        text.append(digit_text(n));
    } else {
        append_decimal(text, n / 10);
        text.append(digit_text(n % 10));
        proof {
            let head = decimal((n / 10) as nat);
            let d = digit((n % 10) as int);
            assert(old(text)@ + head + seq![d] =~= old(text)@ + head.push(d));
        }
    }
}

/// The weights of a layer.
fn store_layer(prefix: &String, layer: &Qwen3DecoderLayer) -> (r: Vec<StoredTensor>)
    requires
        layer_has_tensors(*layer),
    ensures
        stored_views(r@) == layer_fields(prefix@, *layer),
{
    let mut r: Vec<StoredTensor> = Vec::new();
    r.push(stored(prefix, "self_attn.q_proj.weight", &layer.self_attn.q_proj.weight));
    r.push(stored(prefix, "self_attn.k_proj.weight", &layer.self_attn.k_proj.weight));
    r.push(stored(prefix, "self_attn.v_proj.weight", &layer.self_attn.v_proj.weight));
    r.push(stored(prefix, "self_attn.o_proj.weight", &layer.self_attn.o_proj.weight));
    r.push(stored(prefix, "self_attn.q_norm.gamma", &layer.self_attn.q_norm.gamma));
    r.push(stored(prefix, "self_attn.k_norm.gamma", &layer.self_attn.k_norm.gamma));
    r.push(stored(prefix, "mlp.gate_proj.weight", &layer.mlp.gate_proj.weight));
    r.push(stored(prefix, "mlp.up_proj.weight", &layer.mlp.up_proj.weight));
    r.push(stored(prefix, "mlp.down_proj.weight", &layer.mlp.down_proj.weight));
    r.push(stored(prefix, "input_layernorm.gamma", &layer.input_layernorm.gamma));
    r.push(stored(prefix, "post_attention_layernorm.gamma", &layer.post_attention_layernorm.gamma));
    assert(stored_views(r@) =~= layer_fields(prefix@, *layer));
    r
}

/// The weights of a base model.
fn store_model(prefix: &String, model: &Qwen3Model) -> (r: Vec<StoredTensor>)
    requires
        model_has_tensors(*model),
    ensures
        stored_views(r@) == model_fields(prefix@, *model),
{
    let mut r: Vec<StoredTensor> = Vec::new();
    r.push(stored(prefix, "embed_tokens.weight", &model.embed_tokens.weight));
    let ghost first = stored_views(r@);
    let mut l: usize = 0;
    assert(stored_views(r@) =~= first + layers_fields(prefix@, model.layers@, 0));
    while l < model.layers.len()
        invariant
            0 <= l <= model.layers@.len(),
            model_has_tensors(*model),
            stored_views(r@) == first + layers_fields(prefix@, model.layers@, l as int),
        decreases model.layers@.len() - l,
    {
        let mut layer_path = prefix.clone();
        layer_path.append("layers.");
        append_decimal(&mut layer_path, l);
        layer_path.append(".");
        let ghost before = stored_views(r@);
        let mut more = store_layer(&layer_path, &model.layers[l]);
        let ghost added = stored_views(more@);
        r.append(&mut more);
        proof {
            assert(stored_views(r@) =~= before + added);
            assert(before + added =~= first + (layers_fields(prefix@, model.layers@, l as int)
                + added));
        }
        l += 1;
    }
    let ghost before = stored_views(r@);
    let last = stored(prefix, "norm.gamma", &model.norm.gamma);
    let ghost view = last@;
    r.push(last);
    proof {
        assert(stored_views(r@) =~= before.push(view));
        assert(stored_views(r@) =~= model_fields(prefix@, *model));
    }
    r
}

impl Qwen3Model {
    /// The weights of the model under the names of its fields, for a file of burn.
    pub fn stored_weights(&self) -> (r: Vec<StoredTensor>)
        requires
            model_has_tensors(*self),
        ensures
            stored_views(r@) == model_fields(Seq::empty(), *self),
    {
        let prefix = String::new();
        assert(prefix@ =~= Seq::<char>::empty());
        store_model(&prefix, self)
    }
}

impl Qwen3ForCausalLM {
    /// The weights of the model under the names of its fields, for a file of burn.
    pub fn stored_weights(&self) -> (r: Vec<StoredTensor>)
        requires
            causal_lm_has_tensors(*self),
        ensures
            stored_views(r@) == causal_lm_fields(*self),
    {
        let prefix = "model.".to_owned();
        let mut r = store_model(&prefix, &self.model);
        let ghost before = stored_views(r@);
        let none = String::new();
        let head = stored(&none, "lm_head.weight", &self.lm_head.weight);
        let ghost view = head@;
        r.push(head);
        proof {
            assert(none@ + "lm_head.weight"@ =~= "lm_head.weight"@);
            assert(stored_views(r@) =~= before.push(view));
            assert(stored_views(r@) =~= causal_lm_fields(*self));
        }
        r
    }
}

/// The names of the weights of a layer, in the order in which they are stored.
pub open spec fn layer_suffix(j: int) -> Seq<char> {
    if j == 0 {
        "self_attn.q_proj.weight"@
    } else if j == 1 {
        "self_attn.k_proj.weight"@
    } else if j == 2 {
        "self_attn.v_proj.weight"@
    } else if j == 3 {
        "self_attn.o_proj.weight"@
    } else if j == 4 {
        "self_attn.q_norm.gamma"@
    } else if j == 5 {
        "self_attn.k_norm.gamma"@
    } else if j == 6 {
        "mlp.gate_proj.weight"@
    } else if j == 7 {
        "mlp.up_proj.weight"@
    } else if j == 8 {
        "mlp.down_proj.weight"@
    } else if j == 9 {
        "input_layernorm.gamma"@
    } else {
        "post_attention_layernorm.gamma"@
    }
}

/// The weights of a layer, in the order in which they are stored.
pub open spec fn layer_weight(layer: Qwen3DecoderLayer, j: int) -> TensorView {
    if j == 0 {
        layer.self_attn.q_proj.weight@
    } else if j == 1 {
        layer.self_attn.k_proj.weight@
    } else if j == 2 {
        layer.self_attn.v_proj.weight@
    } else if j == 3 {
        layer.self_attn.o_proj.weight@
    } else if j == 4 {
        layer.self_attn.q_norm.gamma@
    } else if j == 5 {
        layer.self_attn.k_norm.gamma@
    } else if j == 6 {
        layer.mlp.gate_proj.weight@
    } else if j == 7 {
        layer.mlp.up_proj.weight@
    } else if j == 8 {
        layer.mlp.down_proj.weight@
    } else if j == 9 {
        layer.input_layernorm.gamma@
    } else {
        layer.post_attention_layernorm.gamma@
    }
}

/// The names of the weights of a layer differ.
proof fn lemma_suffixes_differ(i: int, j: int)
    requires
        0 <= i < 11,
        0 <= j < 11,
        i != j,
    ensures
        layer_suffix(i) != layer_suffix(j),
{
    reveal_strlit("self_attn.q_proj.weight");
    reveal_strlit("self_attn.k_proj.weight");
    reveal_strlit("self_attn.v_proj.weight");
    reveal_strlit("self_attn.o_proj.weight");
    reveal_strlit("self_attn.q_norm.gamma");
    reveal_strlit("self_attn.k_norm.gamma");
    reveal_strlit("mlp.gate_proj.weight");
    reveal_strlit("mlp.up_proj.weight");
    reveal_strlit("mlp.down_proj.weight");
    reveal_strlit("input_layernorm.gamma");
    reveal_strlit("post_attention_layernorm.gamma");
    assert(layer_suffix(0).len() == 23);
    assert(layer_suffix(0)[4] == '_');
    assert(layer_suffix(0)[10] == 'q');
    assert(layer_suffix(1).len() == 23);
    assert(layer_suffix(1)[4] == '_');
    assert(layer_suffix(1)[10] == 'k');
    assert(layer_suffix(2).len() == 23);
    assert(layer_suffix(2)[4] == '_');
    assert(layer_suffix(2)[10] == 'v');
    assert(layer_suffix(3).len() == 23);
    assert(layer_suffix(3)[4] == '_');
    assert(layer_suffix(3)[10] == 'o');
    assert(layer_suffix(4).len() == 22);
    assert(layer_suffix(4)[4] == '_');
    assert(layer_suffix(4)[10] == 'q');
    assert(layer_suffix(5).len() == 22);
    assert(layer_suffix(5)[4] == '_');
    assert(layer_suffix(5)[10] == 'k');
    assert(layer_suffix(6).len() == 20);
    assert(layer_suffix(6)[4] == 'g');
    assert(layer_suffix(6)[10] == 'r');
    assert(layer_suffix(7).len() == 18);
    assert(layer_suffix(7)[4] == 'u');
    assert(layer_suffix(7)[10] == 'j');
    assert(layer_suffix(8).len() == 20);
    assert(layer_suffix(8)[4] == 'd');
    assert(layer_suffix(8)[10] == 'r');
    assert(layer_suffix(9).len() == 21);
    assert(layer_suffix(9)[4] == 't');
    assert(layer_suffix(9)[10] == 'r');
    assert(layer_suffix(10).len() == 30);
    assert(layer_suffix(10)[4] == '_');
    assert(layer_suffix(10)[10] == 't');
}

/// A number has digits and no point in it.
proof fn lemma_decimal_has_no_point(n: nat)
    ensures
        decimal(n).len() > 0,
        forall|i: int| 0 <= i < decimal(n).len() ==> #[trigger] decimal(n)[i] != '.',
        n >= 10 ==> decimal(n).len() >= 2,
    decreases n,
{
    if n >= 10 {
        lemma_decimal_has_no_point(n / 10);
    }
}

/// Different numbers are written differently.
proof fn lemma_decimal_is_injective(n: nat, m: nat)
    requires
        decimal(n) == decimal(m),
    ensures
        n == m,
    decreases n,
{
    lemma_decimal_has_no_point(n);
    lemma_decimal_has_no_point(m);
    if n < 10 {
        assert(m < 10);
        assert(decimal(n)[0] == digit(n as int));
        assert(decimal(m)[0] == digit(m as int));
    } else {
        assert(m >= 10);
        let (a, b) = (decimal(n / 10), decimal(m / 10));
        let (x, y) = (digit((n % 10) as int), digit((m % 10) as int));
        assert(decimal(n).drop_last() =~= a);
        assert(decimal(m).drop_last() =~= b);
        assert(decimal(n).last() == x && decimal(m).last() == y);
        lemma_decimal_is_injective(n / 10, m / 10);
    }
}

/// The names in different layers differ.
proof fn lemma_layer_names_differ(
    prefix: Seq<char>,
    l: int,
    m: int,
    s: Seq<char>,
    t: Seq<char>,
)
    requires
        0 <= l,
        0 <= m,
        l != m,
    ensures
        layer_prefix(prefix, l) + s != layer_prefix(prefix, m) + t,
{
    reveal_strlit("layers.");
    reveal_strlit(".");
    let (a, b) = (decimal(l as nat), decimal(m as nat));
    lemma_decimal_has_no_point(l as nat);
    lemma_decimal_has_no_point(m as nat);
    let x = layer_prefix(prefix, l) + s;
    let y = layer_prefix(prefix, m) + t;
    let n = prefix.len() as int + 7;
    if x == y {
        assert forall|i: int| 0 <= i < a.len() implies #[trigger] a[i] == x[n + i] by {}
        assert forall|i: int| 0 <= i < b.len() implies #[trigger] b[i] == y[n + i] by {}
        assert(x[n + a.len()] == '.');
        assert(y[n + b.len()] == '.');
        if a.len() < b.len() {
            assert(b[a.len() as int] == y[n + a.len()]);
        } else if b.len() < a.len() {
            assert(a[b.len() as int] == x[n + b.len()]);
        } else {
            assert(a =~= b);
            lemma_decimal_is_injective(l as nat, m as nat);
        }
    }
}

/// What comes last is found first.
proof fn lemma_found_at(list: Seq<StoredView>, i: int)
    requires
        0 <= i < list.len(),
        forall|j: int| i < j < list.len() ==> (#[trigger] list[j]).name != list[i].name,
    ensures
        stored_at(list, Naming::Fields, list[i].name) == Some(list[i].tensor),
    decreases list.len(),
{
    if i < list.len() - 1 {
        assert(list.last().name != list[i].name);
        lemma_found_at(list.drop_last(), i);
    }
}

/// What the second part of a list has is found there, and otherwise in the first part.
proof fn lemma_found_in_parts(a: Seq<StoredView>, b: Seq<StoredView>, path: Seq<char>)
    ensures
        stored_at(a + b, Naming::Fields, path) == (match stored_at(b, Naming::Fields, path) {
            Some(t) => Some(t),
            None => stored_at(a, Naming::Fields, path),
        }),
    decreases b.len(),
{
    if b.len() == 0 {
        assert(a + b =~= a);
    } else {
        assert((a + b).drop_last() =~= a + b.drop_last());
        assert((a + b).last() == b.last());
        lemma_found_in_parts(a, b.drop_last(), path);
    }
}

/// What has no such name is not found.
proof fn lemma_not_found(list: Seq<StoredView>, path: Seq<char>)
    requires
        forall|i: int| 0 <= i < list.len() ==> (#[trigger] list[i]).name != path,
    ensures
        stored_at(list, Naming::Fields, path) is None,
    decreases list.len(),
{
    if list.len() > 0 {
        assert(list.last().name != path);
        assert forall|i: int| 0 <= i < list.drop_last().len() implies (
        #[trigger] list.drop_last()[i]).name != path by {
            assert(list[i].name != path);
        }
        lemma_not_found(list.drop_last(), path);
    }
}

/// The weights of a layer are found under their names.
proof fn lemma_layer_found(
    prefix: Seq<char>,
    layers: Seq<Qwen3DecoderLayer>,
    n: int,
    l: int,
    j: int,
)
    requires
        0 <= l < n <= layers.len(),
        0 <= j < 11,
    ensures
        stored_at(
            layers_fields(prefix, layers, n),
            Naming::Fields,
            layer_prefix(prefix, l) + layer_suffix(j),
        ) == Some(layer_weight(layers[l], j)),
    decreases n,
{
    let path = layer_prefix(prefix, l) + layer_suffix(j);
    let start = layer_prefix(prefix, n - 1);
    let a = layers_fields(prefix, layers, n - 1);
    let b = layer_fields(start, layers[n - 1]);
    lemma_found_in_parts(a, b, path);
    assert forall|i: int| 0 <= i < 11 implies (#[trigger] b[i]).name == start + layer_suffix(i)
        && b[i].tensor == layer_weight(layers[n - 1], i) by {}
    if l == n - 1 {
        assert forall|i: int| j < i < b.len() implies (#[trigger] b[i]).name != b[j].name by {
            lemma_suffixes_differ(i, j);
            if b[i].name == b[j].name {
                assert(b[i].name.skip(start.len() as int) =~= layer_suffix(i));
                assert(b[j].name.skip(start.len() as int) =~= layer_suffix(j));
            }
        }
        lemma_found_at(b, j);
    } else {
        assert forall|i: int| 0 <= i < b.len() implies (#[trigger] b[i]).name != path by {
            lemma_layer_names_differ(prefix, n - 1, l, layer_suffix(i), layer_suffix(j));
        }
        lemma_not_found(b, path);
        lemma_layer_found(prefix, layers, n - 1, l, j);
    }
}

/// The names of the weights of all layers start alike.
proof fn lemma_layers_names(
    prefix: Seq<char>,
    layers: Seq<Qwen3DecoderLayer>,
    n: int,
    i: int,
)
    requires
        0 <= n <= layers.len(),
        0 <= i < layers_fields(prefix, layers, n).len(),
    ensures
        layers_fields(prefix, layers, n)[i].name.len() > prefix.len(),
        layers_fields(prefix, layers, n)[i].name.take(prefix.len() as int) == prefix,
        layers_fields(prefix, layers, n)[i].name[prefix.len() as int] == 'l',
    decreases n,
{
    reveal_strlit("layers.");
    if n > 0 {
        let a = layers_fields(prefix, layers, n - 1);
        let start = layer_prefix(prefix, n - 1);
        let b = layer_fields(start, layers[n - 1]);
        if i < a.len() {
            lemma_layers_names(prefix, layers, n - 1, i);
        } else {
            let k = i - a.len();
            assert(b[k].name == start + layer_suffix(k));
            assert(b[k].name.take(prefix.len() as int) =~= prefix);
            assert(b[k].name[prefix.len() as int] == start[prefix.len() as int]);
        }
    }
}

/// Field `j` of layer `l` is found among the weights of the model.
proof fn lemma_layer_field_found(prefix: Seq<char>, model: Qwen3Model, l: int, j: int)
    requires
        0 <= l < model.layers@.len(),
        0 <= j < 11,
    ensures
        stored_at(
            model_fields(prefix, model),
            Naming::Fields,
            layer_prefix(prefix, l) + layer_suffix(j),
        ) == Some(layer_weight(model.layers@[l], j)),
{
    reveal_strlit("norm.gamma");
    reveal_strlit("layers.");
    let path = layer_prefix(prefix, l) + layer_suffix(j);
    let n = model.layers@.len() as int;
    let first = seq![
        StoredView {
            name: prefix + "embed_tokens.weight"@,
            tensor: model.embed_tokens.weight@,
        },
    ];
    let middle = layers_fields(prefix, model.layers@, n);
    let last = seq![StoredView { name: prefix + "norm.gamma"@, tensor: model.norm.gamma@ }];
    lemma_layer_found(prefix, model.layers@, n, l, j);
    lemma_found_in_parts(first, middle, path);
    lemma_found_in_parts(first + middle, last, path);
    assert(path[prefix.len() as int] == 'l');
    assert(last[0].name[prefix.len() as int] == 'n');
    lemma_not_found(last, path);
}

/// The embeddings and the final normalization are found among the weights of the model.
proof fn lemma_other_fields_found(prefix: Seq<char>, model: Qwen3Model)
    ensures
        stored_at(model_fields(prefix, model), Naming::Fields, prefix + "embed_tokens.weight"@)
            == Some(model.embed_tokens.weight@),
        stored_at(model_fields(prefix, model), Naming::Fields, prefix + "norm.gamma"@) == Some(
            model.norm.gamma@,
        ),
{
    reveal_strlit("norm.gamma");
    reveal_strlit("embed_tokens.weight");
    let n = model.layers@.len() as int;
    let embed = prefix + "embed_tokens.weight"@;
    let norm = prefix + "norm.gamma"@;
    let first = seq![StoredView { name: embed, tensor: model.embed_tokens.weight@ }];
    let middle = layers_fields(prefix, model.layers@, n);
    let last = seq![StoredView { name: norm, tensor: model.norm.gamma@ }];
    assert(embed[prefix.len() as int] == 'e');
    assert(norm[prefix.len() as int] == 'n');
    assert forall|i: int| 0 <= i < middle.len() implies (#[trigger] middle[i]).name != embed by {
        lemma_layers_names(prefix, model.layers@, n, i);
    }
    lemma_not_found(middle, embed);
    lemma_found_at(first, 0);
    lemma_found_in_parts(first, middle, embed);
    assert(last[0].name != embed);
    lemma_not_found(last, embed);
    lemma_found_in_parts(first + middle, last, embed);
    lemma_found_at(last, 0);
    lemma_found_in_parts(first + middle, last, norm);
}

/// Two layers have weights of the same shapes.
pub open spec fn layers_alike(a: Qwen3DecoderLayer, b: Qwen3DecoderLayer) -> bool {
    &&& a.self_attn.q_proj.weight@.dims == b.self_attn.q_proj.weight@.dims
    &&& a.self_attn.k_proj.weight@.dims == b.self_attn.k_proj.weight@.dims
    &&& a.self_attn.v_proj.weight@.dims == b.self_attn.v_proj.weight@.dims
    &&& a.self_attn.o_proj.weight@.dims == b.self_attn.o_proj.weight@.dims
    &&& a.self_attn.q_norm.gamma@.dims == b.self_attn.q_norm.gamma@.dims
    &&& a.self_attn.k_norm.gamma@.dims == b.self_attn.k_norm.gamma@.dims
    &&& a.mlp.gate_proj.weight@.dims == b.mlp.gate_proj.weight@.dims
    &&& a.mlp.up_proj.weight@.dims == b.mlp.up_proj.weight@.dims
    &&& a.mlp.down_proj.weight@.dims == b.mlp.down_proj.weight@.dims
    &&& a.input_layernorm.gamma@.dims == b.input_layernorm.gamma@.dims
    &&& a.post_attention_layernorm.gamma@.dims == b.post_attention_layernorm.gamma@.dims
}

/// Two layers have the same weights.
pub open spec fn same_layer_weights(a: Qwen3DecoderLayer, b: Qwen3DecoderLayer) -> bool {
    &&& a.self_attn.q_proj.weight@ == b.self_attn.q_proj.weight@
    &&& a.self_attn.k_proj.weight@ == b.self_attn.k_proj.weight@
    &&& a.self_attn.v_proj.weight@ == b.self_attn.v_proj.weight@
    &&& a.self_attn.o_proj.weight@ == b.self_attn.o_proj.weight@
    &&& a.self_attn.q_norm.gamma@ == b.self_attn.q_norm.gamma@
    &&& a.self_attn.k_norm.gamma@ == b.self_attn.k_norm.gamma@
    &&& a.mlp.gate_proj.weight@ == b.mlp.gate_proj.weight@
    &&& a.mlp.up_proj.weight@ == b.mlp.up_proj.weight@
    &&& a.mlp.down_proj.weight@ == b.mlp.down_proj.weight@
    &&& a.input_layernorm.gamma@ == b.input_layernorm.gamma@
    &&& a.post_attention_layernorm.gamma@ == b.post_attention_layernorm.gamma@
}

/// Two base models have weights of the same shapes.
pub open spec fn models_alike(a: Qwen3Model, b: Qwen3Model) -> bool {
    &&& a.embed_tokens.weight@.dims == b.embed_tokens.weight@.dims
    &&& a.norm.gamma@.dims == b.norm.gamma@.dims
    &&& a.layers@.len() == b.layers@.len()
    &&& forall|l: int|
        0 <= l < a.layers@.len() ==> layers_alike(#[trigger] a.layers@[l], b.layers@[l])
}

/// Two base models have the same weights.
pub open spec fn same_model_weights(a: Qwen3Model, b: Qwen3Model) -> bool {
    &&& a.embed_tokens.weight@ == b.embed_tokens.weight@
    &&& a.norm.gamma@ == b.norm.gamma@
    &&& a.layers@.len() == b.layers@.len()
    &&& forall|l: int|
        0 <= l < a.layers@.len() ==> same_layer_weights(#[trigger] a.layers@[l], b.layers@[l])
}

/// A list that has the weights of a base model gives them to any model of the same shapes.
proof fn lemma_model_loads_back(
    tensors: Seq<StoredView>,
    prefix: Seq<char>,
    model: Qwen3Model,
    other: Qwen3Model,
    after: Qwen3Model,
)
    requires
        model_has_tensors(model),
        models_alike(model, other),
        forall|path: Seq<char>|
            stored_at(model_fields(prefix, model), Naming::Fields, path) is Some
                ==> #[trigger] stored_at(tensors, Naming::Fields, path) == stored_at(
                model_fields(prefix, model),
                Naming::Fields,
                path,
            ),
        model_after(tensors, Naming::Fields, prefix, other, after),
    ensures
        has_model(tensors, Naming::Fields, prefix, other),
        same_model_weights(model, after),
{
    lemma_other_fields_found(prefix, model);
    assert forall|l: int| 0 <= l < other.layers@.len() implies has_layer(
        tensors,
        Naming::Fields,
        layer_prefix(prefix, l),
        #[trigger] other.layers@[l],
    ) by {
        assert(layers_alike(model.layers@[l], other.layers@[l]));
        assert(layer_has_tensors(model.layers@[l]));
        lemma_layer_field_found(prefix, model, l, 0);
        lemma_layer_field_found(prefix, model, l, 1);
        lemma_layer_field_found(prefix, model, l, 2);
        lemma_layer_field_found(prefix, model, l, 3);
        lemma_layer_field_found(prefix, model, l, 4);
        lemma_layer_field_found(prefix, model, l, 5);
        lemma_layer_field_found(prefix, model, l, 6);
        lemma_layer_field_found(prefix, model, l, 7);
        lemma_layer_field_found(prefix, model, l, 8);
        lemma_layer_field_found(prefix, model, l, 9);
        lemma_layer_field_found(prefix, model, l, 10);
    }
    assert forall|l: int| 0 <= l < model.layers@.len() implies same_layer_weights(
        #[trigger] model.layers@[l],
        after.layers@[l],
    ) by {
        assert(layers_alike(model.layers@[l], other.layers@[l]));
        assert(layer_has_tensors(model.layers@[l]));
        assert(layer_after(
            tensors,
            Naming::Fields,
            layer_prefix(prefix, l),
            other.layers@[l],
            after.layers@[l],
        ));
        lemma_layer_field_found(prefix, model, l, 0);
        lemma_layer_field_found(prefix, model, l, 1);
        lemma_layer_field_found(prefix, model, l, 2);
        lemma_layer_field_found(prefix, model, l, 3);
        lemma_layer_field_found(prefix, model, l, 4);
        lemma_layer_field_found(prefix, model, l, 5);
        lemma_layer_field_found(prefix, model, l, 6);
        lemma_layer_field_found(prefix, model, l, 7);
        lemma_layer_field_found(prefix, model, l, 8);
        lemma_layer_field_found(prefix, model, l, 9);
        lemma_layer_field_found(prefix, model, l, 10);
    }
}

/// What a base model has stored, a model of the same shapes loads in full.
pub proof fn lemma_stored_model_loads_back(model: Qwen3Model, other: Qwen3Model, after: Qwen3Model)
    requires
        model_has_tensors(model),
        models_alike(model, other),
        model_after(
            model_fields(Seq::empty(), model),
            Naming::Fields,
            Seq::empty(),
            other,
            after,
        ),
    ensures
        has_model(model_fields(Seq::empty(), model), Naming::Fields, Seq::empty(), other),
        same_model_weights(model, after),
{
    lemma_model_loads_back(
        model_fields(Seq::empty(), model),
        Seq::empty(),
        model,
        other,
        after,
    );
}

/// What a causal language model has stored, a model of the same shapes loads in full.
pub proof fn lemma_stored_weights_load_back(
    lm: Qwen3ForCausalLM,
    other: Qwen3ForCausalLM,
    after: Qwen3ForCausalLM,
)
    requires
        causal_lm_has_tensors(lm),
        models_alike(lm.model, other.model),
        lm.lm_head.weight@.dims == other.lm_head.weight@.dims,
        causal_lm_after(causal_lm_fields(lm), Naming::Fields, other, after),
    ensures
        has_causal_lm(causal_lm_fields(lm), Naming::Fields, other),
        same_model_weights(lm.model, after.model),
        lm.lm_head.weight@ == after.lm_head.weight@,
{
    reveal_strlit("model.");
    reveal_strlit("lm_head.weight");
    let tensors = causal_lm_fields(lm);
    let base = model_fields("model."@, lm.model);
    let head = seq![StoredView { name: "lm_head.weight"@, tensor: lm.lm_head.weight@ }];
    lemma_found_at(head, 0);
    lemma_found_in_parts(base, head, "lm_head.weight"@);
    assert forall|path: Seq<char>|
        stored_at(base, Naming::Fields, path) is Some implies #[trigger] stored_at(
        tensors,
        Naming::Fields,
        path,
    ) == stored_at(base, Naming::Fields, path) by {
        lemma_found_in_parts(base, head, path);
        if path == "lm_head.weight"@ {
            assert forall|i: int| 0 <= i < base.len() implies (#[trigger] base[i]).name != path by {
                lemma_model_names("model."@, lm.model, i);
                assert(base[i].name.take(6)[0] == 'm');
            }
            lemma_not_found(base, path);
        } else {
            lemma_not_found(head, path);
        }
    }
    lemma_model_loads_back(tensors, "model."@, lm.model, other.model, after.model);
}

/// The names of the weights of a base model start alike.
proof fn lemma_model_names(prefix: Seq<char>, model: Qwen3Model, i: int)
    requires
        0 <= i < model_fields(prefix, model).len(),
    ensures
        model_fields(prefix, model)[i].name.len() >= prefix.len(),
        model_fields(prefix, model)[i].name.take(prefix.len() as int) == prefix,
{
    let n = model.layers@.len() as int;
    let middle = layers_fields(prefix, model.layers@, n);
    let name = model_fields(prefix, model)[i].name;
    if i == 0 {
        assert(name.take(prefix.len() as int) =~= prefix);
    } else if i <= middle.len() {
        assert(name == middle[i - 1].name);
        lemma_layers_names(prefix, model.layers@, n, i - 1);
    } else {
        assert(name.take(prefix.len() as int) =~= prefix);
    }
}

} // verus!
