use qwen3_burn::config::config_for_file;
use qwen3_burn::num::Double;
use qwen3_burn::{Qwen3AttentionConfig, Qwen3Config};

fn sizes(c: &Qwen3Config) -> (usize, usize, usize, usize, usize, usize) {
    (
        c.num_hidden_layers,
        c.hidden_size,
        c.intermediate_size,
        c.num_attention_heads,
        c.num_key_value_heads,
        c.get_head_dim(),
    )
}

#[test]
fn the_default_is_the_four_billion_model() {
    for c in [Qwen3Config::new(), Qwen3Config::default(), Qwen3Config::qwen3_4b()] {
        assert_eq!(sizes(&c), (36, 2560, 9728, 32, 8, 80));
        assert_eq!(c.head_dim, None);
        assert_eq!(c.vocab_size, 151936);
        assert_eq!(c.max_position_embeddings, 40960);
        assert_eq!(c.rms_norm_eps.bits, 1e-6f64.to_bits());
        assert_eq!(c.rope_theta.bits, 1_000_000.0f64.to_bits());
    }
}

#[test]
fn presets_have_the_published_sizes() {
    assert_eq!(sizes(&Qwen3Config::qwen3_0_6b()), (28, 1024, 3072, 16, 8, 128));
    assert_eq!(sizes(&Qwen3Config::qwen3_1_7b()), (28, 2048, 6144, 16, 8, 128));
    assert_eq!(sizes(&Qwen3Config::qwen3_8b()), (36, 4096, 12288, 32, 8, 128));
    assert_eq!(sizes(&Qwen3Config::z_image_text_encoder()), (36, 2560, 9728, 32, 8, 128));
}

#[test]
fn builders_change_one_field_each() {
    let eps = Double { bits: 0.5f64.to_bits() };
    let theta = Double { bits: 2.0f64.to_bits() };
    let c = Qwen3Config::new()
        .with_vocab_size(1)
        .with_hidden_size(2)
        .with_intermediate_size(3)
        .with_num_hidden_layers(4)
        .with_num_attention_heads(5)
        .with_num_key_value_heads(6)
        .with_head_dim(Some(7))
        .with_rms_norm_eps(eps)
        .with_rope_theta(theta)
        .with_max_position_embeddings(8);
    assert_eq!(sizes(&c), (4, 2, 3, 5, 6, 7));
    assert_eq!((c.vocab_size, c.max_position_embeddings), (1, 8));
    assert_eq!((c.rms_norm_eps, c.rope_theta), (eps, theta));
    assert_eq!(c.with_hidden_size(23).with_head_dim(None).get_head_dim(), 4);
}

#[test]
fn attention_layers_are_made_to_size() {
    let eps = Double { bits: 0.25f64.to_bits() };
    let theta = Double { bits: 100.0f64.to_bits() };
    let config = Qwen3AttentionConfig::new(6, 4, 2)
        .with_head_dim(Some(8))
        .with_rms_norm_eps(eps)
        .with_rope_theta(theta);
    let attn = config.init();
    assert_eq!((attn.num_heads, attn.num_kv_heads, attn.head_dim), (4, 2, 8));
    assert_eq!(attn.rope_theta, theta);
    assert_eq!(attn.q_proj.weight.dims(), vec![6, 32]);
    assert_eq!(attn.k_proj.weight.dims(), vec![6, 16]);
    assert_eq!(attn.v_proj.weight.dims(), vec![6, 16]);
    assert_eq!(attn.o_proj.weight.dims(), vec![32, 6]);
    assert_eq!(attn.q_norm.gamma.to_bits(), vec![1.0f32.to_bits(); 8]);
    assert_eq!(attn.k_norm.gamma.to_bits(), vec![1.0f32.to_bits(); 8]);
    assert_eq!(attn.q_norm.epsilon, eps);
    let plain = Qwen3AttentionConfig::new(6, 3, 1);
    assert_eq!(plain.rms_norm_eps.bits, 1e-6f64.to_bits());
    assert_eq!(plain.rope_theta.bits, 1_000_000.0f64.to_bits());
    assert_eq!(plain.init().head_dim, 2);
}

#[test]
fn models_are_made_to_size() {
    let config = Qwen3Config::new()
        .with_vocab_size(11)
        .with_hidden_size(6)
        .with_intermediate_size(5)
        .with_num_hidden_layers(3)
        .with_num_attention_heads(2)
        .with_num_key_value_heads(1)
        .with_head_dim(Some(4));
    let lm = config.init_causal_lm();
    assert_eq!(lm.vocab_size(), 11);
    assert_eq!(lm.hidden_size(), 6);
    assert_eq!(lm.model.num_layers(), 3);
    assert_eq!(lm.lm_head.weight.dims(), vec![6, 11]);
    assert_eq!(lm.model.embed_tokens_weight().dims(), vec![11, 6]);
    assert_eq!(lm.model.norm.gamma.to_bits(), vec![1.0f32.to_bits(); 6]);
    for layer in &lm.model.layers {
        assert_eq!(layer.self_attn.q_proj.weight.dims(), vec![6, 8]);
        assert_eq!(layer.self_attn.k_proj.weight.dims(), vec![6, 4]);
        assert_eq!(layer.mlp.gate_proj.weight.dims(), vec![6, 5]);
        assert_eq!(layer.mlp.up_proj.weight.dims(), vec![6, 5]);
        assert_eq!(layer.mlp.down_proj.weight.dims(), vec![5, 6]);
        assert_eq!(layer.input_layernorm.gamma.dims(), vec![6]);
        assert_eq!(layer.post_attention_layernorm.gamma.dims(), vec![6]);
    }
    assert_eq!(lm.new_cache().layers.len(), 3);
    assert_eq!(lm.model.new_cache().layers.len(), 3);
    // Weights are drawn at random: two layers do not share them.
    let first = lm.model.layers[0].self_attn.q_proj.weight.to_bits();
    assert_ne!(first, lm.model.layers[1].self_attn.q_proj.weight.to_bits());
}

#[test]
fn a_model_without_layers_can_be_made() {
    let model = Qwen3Config::new()
        .with_vocab_size(3)
        .with_hidden_size(2)
        .with_intermediate_size(1)
        .with_num_hidden_layers(0)
        .with_num_attention_heads(1)
        .with_num_key_value_heads(1)
        .init();
    assert_eq!(model.num_layers(), 0);
    assert_eq!(model.new_cache().layers.len(), 0);
}

#[test]
fn file_names_tell_the_configuration() {
    let layers = |name: &str| {
        let c = config_for_file(&name.to_string());
        (c.num_hidden_layers, c.hidden_size)
    };
    assert_eq!(layers("models/Qwen3-0.6B/model.safetensors"), (28, 1024));
    assert_eq!(layers("qwen3-1.7b.safetensors"), (28, 2048));
    assert_eq!(layers("qwen3-4b.safetensors"), (36, 2560));
    assert_eq!(layers("Qwen3-4B"), (36, 2560));
    assert_eq!(layers("Qwen3-8B"), (36, 4096));
    assert_eq!(layers("x8b"), (36, 4096));
    assert_eq!(layers("model.safetensors"), (28, 1024));
    assert_eq!(layers(""), (28, 1024));
    assert_eq!(layers("4b-0.6"), (28, 1024));
}
