use qwen3_burn::load::{
    field_path_of, format_of_lowercase, weight_format, ModelLoadError, Naming, StoredTensor,
    WeightFormat,
};
use qwen3_burn::{Qwen3Config, Qwen3ForCausalLM, Qwen3Model};

fn ext(s: &str) -> Option<String> {
    Some(s.to_string())
}

fn path(naming: Naming, name: &str) -> String {
    field_path_of(naming, &name.to_string()).into_iter().collect()
}

#[test]
fn extensions_tell_the_format() {
    assert_eq!(weight_format(&ext("safetensors")), Ok(WeightFormat::Safetensors));
    assert_eq!(weight_format(&ext("SafeTensors")), Ok(WeightFormat::Safetensors));
    assert_eq!(weight_format(&ext("bpk")), Ok(WeightFormat::Burnpack));
    assert_eq!(weight_format(&ext("BPK")), Ok(WeightFormat::Burnpack));
    assert_eq!(weight_format(&None), Ok(WeightFormat::Burnpack));
    for other in ["bin", "pt", "", "safetensor", "bpk "] {
        assert_eq!(weight_format(&ext(other)), Err(ModelLoadError::UnknownExtension));
    }
    // The Kelvin sign is a capital k.
    assert_eq!(weight_format(&ext("bp\u{212a}")), Ok(WeightFormat::Burnpack));
    assert_eq!(format_of_lowercase(&ext("BPK")), Err(ModelLoadError::UnknownExtension));
}

#[test]
fn errors_have_messages() {
    assert_eq!(ModelLoadError::LoadError.message(), "Error while loading weights");
    assert_eq!(ModelLoadError::UnknownExtension.message(), "Unrecognised file extension");
}

#[test]
fn names_of_the_base_model_lose_their_prefix() {
    let n = Naming::PyTorchBase;
    assert_eq!(path(n, "model.embed_tokens.weight"), "embed_tokens.weight");
    assert_eq!(path(n, "model.norm.weight"), "norm.gamma");
    assert_eq!(
        path(n, "model.layers.12.self_attn.q_proj.weight"),
        "layers.12.self_attn.q_proj.weight"
    );
    assert_eq!(
        path(n, "model.layers.0.self_attn.k_norm.weight"),
        "layers.0.self_attn.k_norm.gamma"
    );
    assert_eq!(
        path(n, "layers.3.post_attention_layernorm.weight"),
        "layers.3.post_attention_layernorm.gamma"
    );
    assert_eq!(path(n, "lm_head.weight"), "lm_head.gamma");
    assert_eq!(path(n, "model.model.x"), "model.x");
    assert_eq!(path(n, "model"), "model");
    assert_eq!(path(n, "weight"), "weight");
    assert_eq!(path(n, ".weight"), ".gamma");
}

#[test]
fn names_of_the_causal_lm_keep_their_prefix() {
    let n = Naming::PyTorchCausalLM;
    assert_eq!(path(n, "model.embed_tokens.weight"), "model.embed_tokens.weight");
    assert_eq!(path(n, "model.norm.weight"), "model.norm.gamma");
    assert_eq!(path(n, "lm_head.weight"), "lm_head.weight");
    assert_eq!(
        path(n, "model.layers.1.mlp.down_proj.weight"),
        "model.layers.1.mlp.down_proj.weight"
    );
    assert_eq!(
        path(n, "model.layers.1.input_layernorm.weight"),
        "model.layers.1.input_layernorm.gamma"
    );
    assert_eq!(path(n, "q_proj.bias"), "q_proj.bias");
    assert_eq!(path(n, "x_proj.gamma"), "x_proj.weight");
}

#[test]
fn names_of_fields_stay() {
    for name in ["model.norm.weight", "model.norm.gamma", ""] {
        assert_eq!(path(Naming::Fields, name), name);
    }
}

fn config() -> Qwen3Config {
    Qwen3Config::new()
        .with_vocab_size(5)
        .with_hidden_size(4)
        .with_intermediate_size(3)
        .with_num_hidden_layers(11)
        .with_num_attention_heads(2)
        .with_num_key_value_heads(1)
        .with_head_dim(Some(2))
}

/// Name, axes and whether a linear layer, for every weight of the base model.
fn fields(prefix: &str) -> Vec<(String, Vec<usize>, bool)> {
    let mut all = vec![(format!("{prefix}embed_tokens"), vec![5, 4], false)];
    for l in 0..11 {
        let p = format!("{prefix}layers.{l}.");
        for (name, dims, linear) in [
            ("self_attn.q_proj", vec![4, 4], true),
            ("self_attn.k_proj", vec![4, 2], true),
            ("self_attn.v_proj", vec![4, 2], true),
            ("self_attn.o_proj", vec![4, 4], true),
            ("self_attn.q_norm", vec![2], false),
            ("self_attn.k_norm", vec![2], false),
            ("mlp.gate_proj", vec![4, 3], true),
            ("mlp.up_proj", vec![4, 3], true),
            ("mlp.down_proj", vec![3, 4], true),
            ("input_layernorm", vec![4], false),
            ("post_attention_layernorm", vec![4], false),
        ] {
            all.push((format!("{p}{name}"), dims, linear));
        }
    }
    all.push((format!("{prefix}norm"), vec![4], false));
    all
}

/// Tensors as PyTorch stores them; the elements of weight `i` start at `1000 * i`.
fn pytorch(prefix: &str) -> Vec<StoredTensor> {
    let mut n = 0;
    fields(prefix)
        .into_iter()
        .map(|(name, mut dims, linear)| {
            if linear {
                dims.reverse();
            }
            n += 1000;
            let count = dims.iter().product::<usize>() as u32;
            StoredTensor { name: format!("{name}.weight"), dims, bits: (n..n + count).collect() }
        })
        .collect()
}

fn flipped(first: u32, rows: u32, cols: u32) -> Vec<u32> {
    // Stored as `cols` rows of `rows` elements.
    let mut r = vec![];
    for i in 0..rows {
        for j in 0..cols {
            r.push(first + j * rows + i);
        }
    }
    r
}

fn check_base(m: &Qwen3Model) {
    assert_eq!(m.embed_tokens_weight().to_bits(), (1000..1020).collect::<Vec<u32>>());
    for l in 0..11u32 {
        let first = 1000 * (2 + 11 * l);
        let layer = &m.layers[l as usize];
        assert_eq!(layer.self_attn.q_proj.weight.to_bits(), flipped(first, 4, 4));
        assert_eq!(layer.self_attn.k_proj.weight.to_bits(), flipped(first + 1000, 4, 2));
        assert_eq!(layer.self_attn.v_proj.weight.to_bits(), flipped(first + 2000, 4, 2));
        assert_eq!(layer.self_attn.o_proj.weight.to_bits(), flipped(first + 3000, 4, 4));
        assert_eq!(layer.self_attn.q_norm.gamma.to_bits(), vec![first + 4000, first + 4001]);
        assert_eq!(layer.self_attn.k_norm.gamma.to_bits(), vec![first + 5000, first + 5001]);
        assert_eq!(layer.mlp.gate_proj.weight.to_bits(), flipped(first + 6000, 4, 3));
        assert_eq!(layer.mlp.up_proj.weight.to_bits(), flipped(first + 7000, 4, 3));
        assert_eq!(layer.mlp.down_proj.weight.to_bits(), flipped(first + 8000, 3, 4));
        assert_eq!(layer.input_layernorm.gamma.to_bits()[0], first + 9000);
        assert_eq!(layer.post_attention_layernorm.gamma.to_bits()[3], first + 10003);
        assert_eq!(layer.mlp.down_proj.weight.dims(), vec![3, 4]);
    }
    assert_eq!(m.norm.gamma.to_bits()[0], 123_000);
}

#[test]
fn a_base_model_takes_the_weights_of_pytorch() {
    let mut m = config().init();
    let tensors = pytorch("model.");
    assert_eq!(m.load_weights(WeightFormat::Safetensors, &tensors), Ok(()));
    check_base(&m);
    // Without the prefix they are known too.
    let m = config().init().with_weights(WeightFormat::Safetensors, &pytorch("")).unwrap();
    check_base(&m);
}

#[test]
fn a_causal_lm_takes_the_weights_of_pytorch() {
    let mut tensors = pytorch("model.");
    let mut lm: Qwen3ForCausalLM = config().init_causal_lm();
    let head = lm.lm_head.weight.to_bits();
    assert_eq!(
        lm.load_weights(WeightFormat::Safetensors, &tensors),
        Err(ModelLoadError::LoadError)
    );
    // What was there has been taken, and the head has stayed.
    check_base(&lm.model);
    assert_eq!(lm.lm_head.weight.to_bits(), head);
    tensors.push(StoredTensor {
        name: "lm_head.weight".to_string(),
        dims: vec![5, 4],
        bits: (70..90).collect(),
    });
    let lm = config().init_causal_lm();
    let lm = lm.with_weights(WeightFormat::Safetensors, &tensors).unwrap();
    check_base(&lm.model);
    assert_eq!(lm.lm_head.weight.dims(), vec![4, 5]);
    assert_eq!(lm.lm_head.weight.to_bits(), flipped(70, 4, 5));
}

#[test]
fn burnpack_files_use_the_names_and_layout_of_the_fields() {
    let tensors: Vec<StoredTensor> = fields("")
        .into_iter()
        .enumerate()
        .map(|(i, (name, dims, linear))| {
            let weight = linear || name == "embed_tokens";
            let end = if weight { "weight" } else { "gamma" };
            let count = dims.iter().product::<usize>() as u32;
            let first = 1000 * i as u32;
            StoredTensor {
                name: format!("{name}.{end}"),
                dims,
                bits: (first..first + count).collect(),
            }
        })
        .collect();
    let mut m = config().init();
    assert_eq!(m.load_weights(WeightFormat::Burnpack, &tensors), Ok(()));
    assert_eq!(m.layers[0].self_attn.q_proj.weight.to_bits(), (1000..1016).collect::<Vec<u32>>());
    assert_eq!(m.layers[10].mlp.down_proj.weight.to_bits()[0], 1000 * (1 + 110 + 8));
    assert_eq!(m.norm.gamma.to_bits()[3], 122_003);
    // The names of PyTorch are not the fields' names.
    let mut m = config().init();
    let r = m.load_weights(WeightFormat::Burnpack, &pytorch("model."));
    assert_eq!(r, Err(ModelLoadError::LoadError));
}

#[test]
fn a_missing_or_misshapen_tensor_is_an_error() {
    for i in [0, 3, 60, 122] {
        let mut tensors = pytorch("model.");
        tensors.remove(i);
        let r = config().init().with_weights(WeightFormat::Safetensors, &tensors);
        assert!(matches!(r, Err(ModelLoadError::LoadError)));
    }
    let mut tensors = pytorch("model.");
    tensors[2].dims = vec![4, 2];
    let mut m = config().init();
    let before = m.layers[0].self_attn.k_proj.weight.to_bits();
    assert_eq!(
        m.load_weights(WeightFormat::Safetensors, &tensors),
        Err(ModelLoadError::LoadError)
    );
    assert_eq!(m.layers[0].self_attn.k_proj.weight.to_bits(), before);
    assert_eq!(m.layers[0].self_attn.v_proj.weight.to_bits(), flipped(4000, 4, 2));
    let mut tensors = pytorch("model.");
    tensors[0].bits.pop();
    let r = config().init().with_weights(WeightFormat::Safetensors, &tensors);
    assert!(r.is_err());
}

#[test]
fn tensors_for_nothing_are_no_error() {
    let mut tensors = pytorch("model.");
    tensors.push(StoredTensor { name: "extra".to_string(), dims: vec![1], bits: vec![1] });
    assert!(config().init().with_weights(WeightFormat::Safetensors, &tensors).is_ok());
}

#[test]
fn of_two_tensors_for_a_field_the_last_is_taken() {
    let mut tensors = pytorch("model.");
    tensors.push(StoredTensor {
        name: "norm.weight".to_string(),
        dims: vec![4],
        bits: vec![1, 2, 3, 4],
    });
    let m = config().init().with_weights(WeightFormat::Safetensors, &tensors).unwrap();
    assert_eq!(m.norm.gamma.to_bits(), vec![1, 2, 3, 4]);
}

#[test]
fn stored_weights_load_back() {
    let lm = config().init_causal_lm();
    let stored = lm.stored_weights();
    assert_eq!(stored.len(), 1 + 11 * 11 + 1 + 1);
    assert_eq!(stored[0].name, "model.embed_tokens.weight");
    assert_eq!(stored[11 * 10 + 1].name, "model.layers.10.self_attn.q_proj.weight");
    assert_eq!(stored[122].name, "model.norm.gamma");
    assert_eq!(stored[123].name, "lm_head.weight");
    assert_eq!(stored[123].dims, vec![4, 5]);
    let other = config().init_causal_lm();
    let back = other.with_weights(WeightFormat::Burnpack, &stored).unwrap();
    for (a, b) in stored.iter().zip(back.stored_weights()) {
        assert_eq!(a.name, b.name);
        assert_eq!(a.dims, b.dims);
        assert_eq!(a.bits, b.bits);
    }
    let model = config().init();
    let stored = model.stored_weights();
    assert_eq!(stored[0].name, "embed_tokens.weight");
    let back = config().init().with_weights(WeightFormat::Burnpack, &stored).unwrap();
    assert_eq!(back.norm.gamma.to_bits(), model.norm.gamma.to_bits());
    assert_eq!(
        back.layers[10].mlp.up_proj.weight.to_bits(),
        model.layers[10].mlp.up_proj.weight.to_bits()
    );
}
