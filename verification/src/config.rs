//! Configurations of the model and its parts.
use vstd::prelude::*;

use crate::attention::Qwen3Attention;
use crate::decoder::{Qwen3DecoderLayer, Qwen3MLP};
use crate::model::Qwen3Model;
use crate::nn::{Linear, RmsNorm};
use crate::num::Double;
use crate::text::{chars_of, contains, holds_text, lemma_text_is_found};

verus! {

/// The default epsilon, 1e-6, as the bit pattern of a 64-bit float.
pub const DEFAULT_RMS_NORM_EPS: u64 = 0x3eb0_c6f7_a0b5_ed8d;

/// The default base of the rotary position embeddings, 1000000, as the bit pattern of a 64-bit
/// float.
pub const DEFAULT_ROPE_THETA: u64 = 0x412e_8480_0000_0000;

/// Configuration of a model.
#[derive(Clone, Copy, Debug)]
pub struct Qwen3Config {
    /// Vocabulary size.
    pub vocab_size: usize,
    /// Hidden dimension.
    pub hidden_size: usize,
    /// Intermediate dimension of the feed-forward layers.
    pub intermediate_size: usize,
    /// Number of decoder layers.
    pub num_hidden_layers: usize,
    /// Number of attention heads.
    pub num_attention_heads: usize,
    /// Number of key-value heads.
    pub num_key_value_heads: usize,
    /// Dimension per attention head. If not set, `hidden_size / num_attention_heads`.
    pub head_dim: Option<usize>,
    /// Epsilon of the normalizations.
    pub rms_norm_eps: Double,
    /// Base of the rotary position embeddings.
    pub rope_theta: Double,
    /// Maximum sequence length.
    pub max_position_embeddings: usize,
}

/// Configuration of an attention layer.
#[derive(Clone, Copy, Debug)]
pub struct Qwen3AttentionConfig {
    /// Hidden dimension.
    pub hidden_size: usize,
    /// Number of attention heads.
    pub num_attention_heads: usize,
    /// Number of key-value heads.
    pub num_key_value_heads: usize,
    /// Dimension per attention head. If not set, `hidden_size / num_attention_heads`.
    pub head_dim: Option<usize>,
    /// Base of the rotary position embeddings.
    pub rope_theta: Double,
    /// Epsilon of the normalizations.
    pub rms_norm_eps: Double,
}

/// Configuration of a decoder layer.
#[derive(Clone, Copy, Debug)]
pub struct Qwen3DecoderLayerConfig {
    pub hidden_size: usize,
    pub intermediate_size: usize,
    pub num_attention_heads: usize,
    pub num_key_value_heads: usize,
    pub head_dim: usize,
    pub rms_norm_eps: Double,
    pub rope_theta: Double,
}

/// The dimension per head: the explicit one, or an equal share of the hidden dimension.
pub open spec fn effective_head_dim(head_dim: Option<usize>, hidden: usize, heads: usize) -> usize {
    match head_dim {
        Some(d) => d,
        None => hidden / heads,
    }
}

/// Whether weights for these heads can be made: nothing is empty and the sizes fit the machine.
pub open spec fn heads_can_be_made(hidden: nat, heads: nat, kv_heads: nat, head_dim: nat) -> bool {
    &&& hidden > 0
    &&& heads > 0
    &&& kv_heads > 0
    &&& head_dim > 0
    &&& heads * head_dim <= usize::MAX
    &&& kv_heads * head_dim <= usize::MAX
    &&& hidden * (heads * head_dim) <= usize::MAX
    &&& hidden * (kv_heads * head_dim) <= usize::MAX
}

/// Whether a forward pass can work with these heads: they come in whole groups, and each can be
/// cut in halves.
pub open spec fn heads_can_run(heads: nat, kv_heads: nat, head_dim: nat) -> bool {
    &&& heads % kv_heads == 0
    &&& head_dim % 2 == 0
    &&& head_dim <= i64::MAX
}

impl Qwen3AttentionConfig {
    /// The dimension per head.
    pub open spec fn spec_head_dim(self) -> usize {
        effective_head_dim(self.head_dim, self.hidden_size, self.num_attention_heads)
    }

    /// The default configuration for given sizes.
    pub fn new(
        hidden_size: usize,
        num_attention_heads: usize,
        num_key_value_heads: usize,
    ) -> (r: Qwen3AttentionConfig)
        ensures
            r == (Qwen3AttentionConfig {
                hidden_size,
                num_attention_heads,
                num_key_value_heads,
                head_dim: None,
                rope_theta: Double { bits: DEFAULT_ROPE_THETA },
                rms_norm_eps: Double { bits: DEFAULT_RMS_NORM_EPS },
            }),
    {
        Qwen3AttentionConfig {
            hidden_size,
            num_attention_heads,
            num_key_value_heads,
            head_dim: None,
            rope_theta: Double { bits: DEFAULT_ROPE_THETA },
            rms_norm_eps: Double { bits: DEFAULT_RMS_NORM_EPS },
        }
    }

    /// The configuration with another dimension per head.
    pub fn with_head_dim(self, head_dim: Option<usize>) -> (r: Qwen3AttentionConfig)
        ensures
            r == (Qwen3AttentionConfig { head_dim, ..self }),
    {
        Qwen3AttentionConfig { head_dim, ..self }
    }

    /// The configuration with another base of the rotary position embeddings.
    pub fn with_rope_theta(self, rope_theta: Double) -> (r: Qwen3AttentionConfig)
        ensures
            r == (Qwen3AttentionConfig { rope_theta, ..self }),
    {
        Qwen3AttentionConfig { rope_theta, ..self }
    }

    /// The configuration with another epsilon.
    pub fn with_rms_norm_eps(self, rms_norm_eps: Double) -> (r: Qwen3AttentionConfig)
        ensures
            r == (Qwen3AttentionConfig { rms_norm_eps, ..self }),
    {
        Qwen3AttentionConfig { rms_norm_eps, ..self }
    }

    /// Whether `attn` is a layer of this configuration as it is first made: projections of the
    /// right sizes, and normalizations that scale by one.
    pub open spec fn made(self, attn: Qwen3Attention) -> bool {
        let hidden = self.hidden_size as nat;
        let q_size = (self.num_attention_heads * self.spec_head_dim()) as nat;
        let kv_size = (self.num_key_value_heads * self.spec_head_dim()) as nat;
        &&& attn.num_heads == self.num_attention_heads
        &&& attn.num_kv_heads == self.num_key_value_heads
        &&& attn.head_dim == self.spec_head_dim()
        &&& attn.rope_theta == self.rope_theta
        &&& attn.q_proj.wf(hidden, q_size)
        &&& attn.k_proj.wf(hidden, kv_size)
        &&& attn.v_proj.wf(hidden, kv_size)
        &&& attn.o_proj.wf(q_size, hidden)
        &&& attn.q_norm.unscaled(self.spec_head_dim() as nat, self.rms_norm_eps)
        &&& attn.k_norm.unscaled(self.spec_head_dim() as nat, self.rms_norm_eps)
    }

    /// Initializes an attention layer.
    pub fn init(&self) -> (r: Qwen3Attention)
        requires
            heads_can_be_made(
                self.hidden_size as nat,
                self.num_attention_heads as nat,
                self.num_key_value_heads as nat,
                self.spec_head_dim() as nat,
            ),
            self.rms_norm_eps.positive(),
        ensures
            self.made(r),
            r.wf() <==> heads_can_run(
                self.num_attention_heads as nat,
                self.num_key_value_heads as nat,
                self.spec_head_dim() as nat,
            ),
    {
        let head_dim: usize = match self.head_dim {
            Some(d) => d,
            None => self.hidden_size / self.num_attention_heads,
        };
        let q_size: usize = self.num_attention_heads * head_dim;
        let kv_size: usize = self.num_key_value_heads * head_dim;
        proof {
            assert(q_size > 0 && kv_size > 0) by (nonlinear_arith)
                requires
                    q_size == self.num_attention_heads * head_dim,
                    kv_size == self.num_key_value_heads * head_dim,
                    self.num_attention_heads > 0,
                    self.num_key_value_heads > 0,
                    head_dim > 0,
            ;
            assert(q_size * self.hidden_size == self.hidden_size * q_size) by (nonlinear_arith);
        }
        Qwen3Attention {
            num_heads: self.num_attention_heads,
            num_kv_heads: self.num_key_value_heads,
            head_dim,
            rope_theta: self.rope_theta,
            q_proj: Linear::init(self.hidden_size, q_size),
            k_proj: Linear::init(self.hidden_size, kv_size),
            v_proj: Linear::init(self.hidden_size, kv_size),
            o_proj: Linear::init(q_size, self.hidden_size),
            q_norm: RmsNorm::init(head_dim, self.rms_norm_eps),
            k_norm: RmsNorm::init(head_dim, self.rms_norm_eps),
        }
    }
}

impl Qwen3DecoderLayerConfig {
    /// The configuration of the attention layer.
    pub open spec fn attention(self) -> Qwen3AttentionConfig {
        Qwen3AttentionConfig {
            hidden_size: self.hidden_size,
            num_attention_heads: self.num_attention_heads,
            num_key_value_heads: self.num_key_value_heads,
            head_dim: Some(self.head_dim),
            rope_theta: self.rope_theta,
            rms_norm_eps: self.rms_norm_eps,
        }
    }

    /// Whether `layer` is a layer of this configuration as it is first made.
    pub open spec fn made(self, layer: Qwen3DecoderLayer) -> bool {
        let hidden = self.hidden_size as nat;
        let inner = self.intermediate_size as nat;
        &&& self.attention().made(layer.self_attn)
        &&& layer.mlp.gate_proj.wf(hidden, inner)
        &&& layer.mlp.up_proj.wf(hidden, inner)
        &&& layer.mlp.down_proj.wf(inner, hidden)
        &&& layer.input_layernorm.unscaled(hidden, self.rms_norm_eps)
        &&& layer.post_attention_layernorm.unscaled(hidden, self.rms_norm_eps)
    }

    /// The configuration of the layers of a model.
    pub fn from_model_config(config: &Qwen3Config) -> (r: Qwen3DecoderLayerConfig)
        requires
            config.num_attention_heads > 0,
        ensures
            r == config.layer(),
    {
        Qwen3DecoderLayerConfig {
            hidden_size: config.hidden_size,
            intermediate_size: config.intermediate_size,
            num_attention_heads: config.num_attention_heads,
            num_key_value_heads: config.num_key_value_heads,
            head_dim: config.get_head_dim(),
            rms_norm_eps: config.rms_norm_eps,
            rope_theta: config.rope_theta,
        }
    }

    /// Initializes a decoder layer.
    pub fn init(&self) -> (r: Qwen3DecoderLayer)
        requires
            heads_can_be_made(
                self.hidden_size as nat,
                self.num_attention_heads as nat,
                self.num_key_value_heads as nat,
                self.head_dim as nat,
            ),
            self.intermediate_size > 0,
            self.hidden_size * self.intermediate_size <= usize::MAX,
            self.rms_norm_eps.positive(),
        ensures
            self.made(r),
            r.wf() <==> heads_can_run(
                self.num_attention_heads as nat,
                self.num_key_value_heads as nat,
                self.head_dim as nat,
            ),
    {
        Qwen3DecoderLayer {
            self_attn: Qwen3AttentionConfig::new(
                self.hidden_size,
                self.num_attention_heads,
                self.num_key_value_heads,
            ).with_head_dim(Some(self.head_dim)).with_rope_theta(self.rope_theta).with_rms_norm_eps(
                self.rms_norm_eps,
            ).init(),
            mlp: Qwen3MLP::new(self.hidden_size, self.intermediate_size),
            input_layernorm: RmsNorm::init(self.hidden_size, self.rms_norm_eps),
            post_attention_layernorm: RmsNorm::init(self.hidden_size, self.rms_norm_eps),
        }
    }
}

impl Qwen3Config {
    /// The default configuration.
    pub open spec fn spec_default() -> Qwen3Config {
        Qwen3Config {
            vocab_size: 151936,
            hidden_size: 2560,
            intermediate_size: 9728,
            num_hidden_layers: 36,
            num_attention_heads: 32,
            num_key_value_heads: 8,
            head_dim: None,
            rms_norm_eps: Double { bits: DEFAULT_RMS_NORM_EPS },
            rope_theta: Double { bits: DEFAULT_ROPE_THETA },
            max_position_embeddings: 40960,
        }
    }

    /// The default configuration for other sizes.
    pub open spec fn sized(
        hidden_size: usize,
        intermediate_size: usize,
        num_hidden_layers: usize,
        num_attention_heads: usize,
        num_key_value_heads: usize,
        head_dim: Option<usize>,
    ) -> Qwen3Config {
        Qwen3Config {
            hidden_size,
            intermediate_size,
            num_hidden_layers,
            num_attention_heads,
            num_key_value_heads,
            head_dim,
            ..Qwen3Config::spec_default()
        }
    }

    /// The dimension per head.
    pub open spec fn spec_head_dim(self) -> usize {
        effective_head_dim(self.head_dim, self.hidden_size, self.num_attention_heads)
    }

    /// The configuration of the layers.
    pub open spec fn layer(self) -> Qwen3DecoderLayerConfig {
        Qwen3DecoderLayerConfig {
            hidden_size: self.hidden_size,
            intermediate_size: self.intermediate_size,
            num_attention_heads: self.num_attention_heads,
            num_key_value_heads: self.num_key_value_heads,
            head_dim: self.spec_head_dim(),
            rms_norm_eps: self.rms_norm_eps,
            rope_theta: self.rope_theta,
        }
    }

    /// Whether a model of this configuration can be made.
    pub open spec fn can_be_made(self) -> bool {
        &&& self.vocab_size > 0
        &&& self.intermediate_size > 0
        &&& self.vocab_size * self.hidden_size <= usize::MAX
        &&& self.hidden_size * self.intermediate_size <= usize::MAX
        &&& heads_can_be_made(
            self.hidden_size as nat,
            self.num_attention_heads as nat,
            self.num_key_value_heads as nat,
            self.spec_head_dim() as nat,
        )
        &&& self.rms_norm_eps.positive()
    }

    /// Whether a forward pass can work in a model of this configuration.
    pub open spec fn can_run(self) -> bool {
        heads_can_run(
            self.num_attention_heads as nat,
            self.num_key_value_heads as nat,
            self.spec_head_dim() as nat,
        )
    }

    /// The default configuration.
    pub fn new() -> (r: Qwen3Config)
        ensures
            r == Qwen3Config::spec_default(),
    {
        Qwen3Config {
            vocab_size: 151936,
            hidden_size: 2560,
            intermediate_size: 9728,
            num_hidden_layers: 36,
            num_attention_heads: 32,
            num_key_value_heads: 8,
            head_dim: None,
            rms_norm_eps: Double { bits: DEFAULT_RMS_NORM_EPS },
            rope_theta: Double { bits: DEFAULT_ROPE_THETA },
            max_position_embeddings: 40960,
        }
    }

    /// The effective dimension per head.
    pub fn get_head_dim(&self) -> (r: usize)
        requires
            self.num_attention_heads > 0,
        ensures
            r == self.spec_head_dim(),
    {
        match self.head_dim {
            Some(d) => d,
            None => self.hidden_size / self.num_attention_heads,
        }
    }

    /// Configuration of Qwen3-0.6B. Its heads have 128 entries, not
    /// `hidden_size / num_attention_heads = 64`.
    pub fn qwen3_0_6b() -> (r: Qwen3Config)
        ensures
            r == Qwen3Config::sized(1024, 3072, 28, 16, 8, Some(128)),
            r.spec_head_dim() == 128,
            r.can_be_made() && r.can_run(),
    {
        Qwen3Config::new().with_hidden_size(1024).with_intermediate_size(
            3072,
        ).with_num_hidden_layers(28).with_num_attention_heads(16).with_num_key_value_heads(
            8,
        ).with_head_dim(Some(128))
    }

    /// Configuration of Qwen3-1.7B.
    pub fn qwen3_1_7b() -> (r: Qwen3Config)
        ensures
            r == Qwen3Config::sized(2048, 6144, 28, 16, 8, Some(128)),
            r.spec_head_dim() == 128,
            r.can_be_made() && r.can_run(),
    {
        Qwen3Config::new().with_hidden_size(2048).with_intermediate_size(
            6144,
        ).with_num_hidden_layers(28).with_num_attention_heads(16).with_num_key_value_heads(
            8,
        ).with_head_dim(Some(128))
    }

    /// Configuration of Qwen3-4B, the default: heads of 2560 / 32 = 80 entries.
    pub fn qwen3_4b() -> (r: Qwen3Config)
        ensures
            r == Qwen3Config::sized(2560, 9728, 36, 32, 8, None),
            r == Qwen3Config::spec_default(),
            r.spec_head_dim() == 80,
            r.can_be_made() && r.can_run(),
    {
        Qwen3Config::new()
    }

    /// Configuration of the Z-Image text encoder: Qwen3-4B with heads of 128 entries in place of
    /// 80.
    pub fn z_image_text_encoder() -> (r: Qwen3Config)
        ensures
            r == Qwen3Config::sized(2560, 9728, 36, 32, 8, Some(128)),
            r.spec_head_dim() == 128,
            r.can_be_made() && r.can_run(),
    {
        Qwen3Config::new().with_hidden_size(2560).with_intermediate_size(
            9728,
        ).with_num_hidden_layers(36).with_num_attention_heads(32).with_num_key_value_heads(
            8,
        ).with_head_dim(Some(128))
    }

    /// Configuration of Qwen3-8B.
    pub fn qwen3_8b() -> (r: Qwen3Config)
        ensures
            r == Qwen3Config::sized(4096, 12288, 36, 32, 8, Some(128)),
            r.spec_head_dim() == 128,
            r.can_be_made() && r.can_run(),
    {
        Qwen3Config::new().with_hidden_size(4096).with_intermediate_size(
            12288,
        ).with_num_hidden_layers(36).with_num_attention_heads(32).with_num_key_value_heads(
            8,
        ).with_head_dim(Some(128))
    }

    /// The configuration with another vocabulary size.
    pub fn with_vocab_size(self, vocab_size: usize) -> (r: Qwen3Config)
        ensures
            r == (Qwen3Config { vocab_size, ..self }),
    {
        Qwen3Config { vocab_size, ..self }
    }

    /// The configuration with another hidden dimension.
    pub fn with_hidden_size(self, hidden_size: usize) -> (r: Qwen3Config)
        ensures
            r == (Qwen3Config { hidden_size, ..self }),
    {
        Qwen3Config { hidden_size, ..self }
    }

    /// The configuration with another intermediate dimension.
    pub fn with_intermediate_size(self, intermediate_size: usize) -> (r: Qwen3Config)
        ensures
            r == (Qwen3Config { intermediate_size, ..self }),
    {
        Qwen3Config { intermediate_size, ..self }
    }

    /// The configuration with another number of layers.
    pub fn with_num_hidden_layers(self, num_hidden_layers: usize) -> (r: Qwen3Config)
        ensures
            r == (Qwen3Config { num_hidden_layers, ..self }),
    {
        Qwen3Config { num_hidden_layers, ..self }
    }

    /// The configuration with another number of attention heads.
    pub fn with_num_attention_heads(self, num_attention_heads: usize) -> (r: Qwen3Config)
        ensures
            r == (Qwen3Config { num_attention_heads, ..self }),
    {
        Qwen3Config { num_attention_heads, ..self }
    }

    /// The configuration with another number of key-value heads.
    pub fn with_num_key_value_heads(self, num_key_value_heads: usize) -> (r: Qwen3Config)
        ensures
            r == (Qwen3Config { num_key_value_heads, ..self }),
    {
        Qwen3Config { num_key_value_heads, ..self }
    }

    /// The configuration with another dimension per head.
    pub fn with_head_dim(self, head_dim: Option<usize>) -> (r: Qwen3Config)
        ensures
            r == (Qwen3Config { head_dim, ..self }),
    {
        Qwen3Config { head_dim, ..self }
    }

    /// The configuration with another epsilon.
    pub fn with_rms_norm_eps(self, rms_norm_eps: Double) -> (r: Qwen3Config)
        ensures
            r == (Qwen3Config { rms_norm_eps, ..self }),
    {
        Qwen3Config { rms_norm_eps, ..self }
    }

    /// The configuration with another base of the rotary position embeddings.
    pub fn with_rope_theta(self, rope_theta: Double) -> (r: Qwen3Config)
        ensures
            r == (Qwen3Config { rope_theta, ..self }),
    {
        Qwen3Config { rope_theta, ..self }
    }

    /// The configuration with another maximum sequence length.
    pub fn with_max_position_embeddings(self, max_position_embeddings: usize) -> (r: Qwen3Config)
        ensures
            r == (Qwen3Config { max_position_embeddings, ..self }),
    {
        Qwen3Config { max_position_embeddings, ..self }
    }
}

/// The configuration that the name of a weight file tells, and that of the smallest model if it
/// tells none.
pub open spec fn config_by_name(name: Seq<char>) -> Qwen3Config {
    if holds_text(name, "0.6"@) {
        Qwen3Config::sized(1024, 3072, 28, 16, 8, Some(128))
    } else if holds_text(name, "1.7"@) {
        Qwen3Config::sized(2048, 6144, 28, 16, 8, Some(128))
    } else if holds_text(name, "4b"@) || holds_text(name, "4B"@) {
        Qwen3Config::spec_default()
    } else if holds_text(name, "8b"@) || holds_text(name, "8B"@) {
        Qwen3Config::sized(4096, 12288, 36, 32, 8, Some(128))
    } else {
        Qwen3Config::sized(1024, 3072, 28, 16, 8, Some(128))
    }
}

/// Chooses the configuration by the name of a weight file.
pub fn config_for_file(name: &String) -> (r: Qwen3Config)
    ensures
        r == config_by_name(name@),
{
    let chars = chars_of(name.as_str());
    if contains(&chars, "0.6") {
        Qwen3Config::qwen3_0_6b()
    } else if contains(&chars, "1.7") {
        Qwen3Config::qwen3_1_7b()
    } else if contains(&chars, "4b") || contains(&chars, "4B") {
        Qwen3Config::qwen3_4b()
    } else if contains(&chars, "8b") || contains(&chars, "8B") {
        Qwen3Config::qwen3_8b()
    } else {
        Qwen3Config::qwen3_0_6b()
    }
}

impl Default for Qwen3Config {
    fn default() -> (r: Qwen3Config)
        ensures
            r == Qwen3Config::spec_default(),
    {
        Qwen3Config::new()
    }
}

/// Without an explicit dimension the heads share the hidden dimension equally, as far as it goes.
pub proof fn lemma_heads_share_the_hidden_dimension(config: Qwen3Config)
    requires
        config.num_attention_heads > 0,
    ensures
        config.head_dim matches Some(d) ==> config.spec_head_dim() == d,
        config.head_dim is None ==> config.num_attention_heads * config.spec_head_dim()
            <= config.hidden_size < config.num_attention_heads * (config.spec_head_dim() + 1),
{
    let (h, n) = (config.hidden_size as int, config.num_attention_heads as int);
    assert(n * (h / n) <= h < n * (h / n + 1)) by (nonlinear_arith)
        requires
            n > 0,
            h >= 0,
    ;
}

/// The shapes of a new attention layer: queries of all heads and keys and values of their own heads
/// from the hidden state, and back from all heads; scales of one, as long as a head.
pub proof fn lemma_new_attention(config: Qwen3AttentionConfig, attn: Qwen3Attention, d: nat)
    requires
        config.made(attn),
        config.num_attention_heads > 0,
        config.head_dim matches Some(e) ==> d == e,
        config.head_dim is None ==> d == config.hidden_size / config.num_attention_heads,
    ensures
        ({
            let (h, n, m) = (
                config.hidden_size as nat,
                config.num_attention_heads as nat,
                config.num_key_value_heads as nat,
            );
            &&& attn.num_heads == n
            &&& attn.num_kv_heads == m
            &&& attn.head_dim == d
            &&& attn.rope_theta == config.rope_theta
            &&& attn.q_proj.weight@.dims == seq![h, n * d]
            &&& attn.k_proj.weight@.dims == seq![h, m * d]
            &&& attn.v_proj.weight@.dims == seq![h, m * d]
            &&& attn.o_proj.weight@.dims == seq![n * d, h]
            &&& attn.q_norm.epsilon == config.rms_norm_eps
            &&& attn.k_norm.epsilon == config.rms_norm_eps
            &&& attn.q_norm.gamma@.dims == seq![d]
            &&& attn.k_norm.gamma@.dims == seq![d]
            &&& forall|i: int| 0 <= i < d ==> #[trigger] attn.q_norm.gamma@.data[i] == 0x3f80_0000
            &&& forall|i: int| 0 <= i < d ==> #[trigger] attn.k_norm.gamma@.data[i] == 0x3f80_0000
        }),
{
}

/// The shapes of a new layer: an attention layer, a feed-forward layer that widens the hidden state
/// twice and narrows it again, and two normalizations with scales of one.
pub proof fn lemma_new_layer(config: Qwen3Config, layer: Qwen3DecoderLayer, i: int)
    requires
        config.layer().made(layer),
        config.num_attention_heads > 0,
        0 <= i < config.hidden_size,
    ensures
        ({
            let (h, w) = (config.hidden_size as nat, config.intermediate_size as nat);
            let attention = Qwen3AttentionConfig {
                hidden_size: config.hidden_size,
                num_attention_heads: config.num_attention_heads,
                num_key_value_heads: config.num_key_value_heads,
                head_dim: config.head_dim,
                rope_theta: config.rope_theta,
                rms_norm_eps: config.rms_norm_eps,
            };
            &&& attention.made(layer.self_attn)
            &&& layer.mlp.gate_proj.weight@.dims == seq![h, w]
            &&& layer.mlp.up_proj.weight@.dims == seq![h, w]
            &&& layer.mlp.down_proj.weight@.dims == seq![w, h]
            &&& layer.input_layernorm.epsilon == config.rms_norm_eps
            &&& layer.post_attention_layernorm.epsilon == config.rms_norm_eps
            &&& layer.input_layernorm.gamma@.dims == seq![h]
            &&& layer.post_attention_layernorm.gamma@.dims == seq![h]
            &&& layer.input_layernorm.gamma@.data[i] == 0x3f80_0000
            &&& layer.post_attention_layernorm.gamma@.data[i] == 0x3f80_0000
        }),
{
}

/// The shapes of a new model: the embeddings of the vocabulary, as many layers as the configuration
/// says, each of them new, and a normalization with scales of one.
pub proof fn lemma_new_model(config: Qwen3Config, model: Qwen3Model, l: int, i: int)
    requires
        config.made(model),
        0 <= l < config.num_hidden_layers,
        0 <= i < config.hidden_size,
    ensures
        model.config == config,
        model.layers@.len() == config.num_hidden_layers,
        config.layer().made(model.layers@[l]),
        model.embed_tokens.weight@.dims == seq![
            config.vocab_size as nat,
            config.hidden_size as nat,
        ],
        model.norm.epsilon == config.rms_norm_eps,
        model.norm.gamma@.dims == seq![config.hidden_size as nat],
        model.norm.gamma@.data[i] == 0x3f80_0000,
{
}

/// A number anywhere in the name of a weight file tells the model, and the smaller number tells it
/// before the greater ones.
pub proof fn lemma_names_tell_the_model(before: Seq<char>, behind: Seq<char>)
    ensures
        config_by_name(before + "0.6"@ + behind).hidden_size == 1024,
        holds_text(before + "1.7"@ + behind, "0.6"@) || config_by_name(
            before + "1.7"@ + behind,
        ).hidden_size == 2048,
        holds_text(before + "4b"@ + behind, "0.6"@) || holds_text(before + "4b"@ + behind, "1.7"@)
            || config_by_name(before + "4b"@ + behind).hidden_size == 2560,
        holds_text(before + "4B"@ + behind, "0.6"@) || holds_text(before + "4B"@ + behind, "1.7"@)
            || config_by_name(before + "4B"@ + behind).hidden_size == 2560,
        ({
            let name = before + "8b"@ + behind;
            holds_text(name, "0.6"@) || holds_text(name, "1.7"@) || holds_text(name, "4b"@)
                || holds_text(name, "4B"@) || config_by_name(name).hidden_size == 4096
        }),
        ({
            let name = before + "8B"@ + behind;
            holds_text(name, "0.6"@) || holds_text(name, "1.7"@) || holds_text(name, "4b"@)
                || holds_text(name, "4B"@) || config_by_name(name).hidden_size == 4096
        }),
{
    lemma_text_is_found(before, "8b"@, behind);
    lemma_text_is_found(before, "8B"@, behind);
    lemma_text_is_found(before, "0.6"@, behind);
    lemma_text_is_found(before, "1.7"@, behind);
    lemma_text_is_found(before, "4b"@, behind);
    lemma_text_is_found(before, "4B"@, behind);
}

} // verus!
