# qwen3-burn

The Qwen3 language model on the [Burn](https://burn.dev/) deep learning framework, verified with
Verus.

- Decoder-only transformer: grouped query attention, rotary position embeddings, RMS normalization,
  gated feed-forward layers, normalized queries and keys
- Text generation, greedy or with temperature, top-k and top-p sampling
- Key-value cache
- Text embeddings from the second-to-last layer
- Weights in HuggingFace's safetensors format and in Burn's `.bpk` format

## What is proved

Tensor arithmetic is left to Burn's CPU backend. Its results are known up to rounding, so the
contracts relate every element of a result to the elements it is computed from. On top of that the
library states and proves

- how the layers are wired: which projections, normalizations, rotations and masks lead from tokens
  to hidden states and logits;
- that computing with a cache, token by token or in any portions, may give what a forward pass over
  all tokens gives, and that later tokens have no influence on earlier ones, with or without a
  padding mask, both for finite value vectors (`src/incremental.rs`);
- that passes with a cache are together a forward pass, and whatever generation with a cache returns
  generation without one may return, again for finite value vectors (`src/joined.rs`);
- that a padded position has no influence on the others in attention, for finite value vectors too
  (`src/padding.rs`);
- which token a draw stands for, under top-k and top-p, with sums and quotients of 32-bit floats
  rounded to the nearest one (`src/sampling.rs`, `src/float.rs`);
- what generation returns and when it ends (`src/causal_lm.rs`);
- where every tensor of a weight file goes, when loading fails, and that stored weights load back
  (`src/load.rs`, `src/store.rs`).

What is trusted is marked `external_body`, with a comment that names the function behind it: the
tensor operations in `src/ops.rs` and `src/tensor.rs`, the layers in `src/nn.rs`, sorting and random
numbers in `src/sampling.rs`, and lower case in `src/load.rs`.

## Layout

- `src/` - the library: configurations (`config`), tensors (`tensor`, `ops`, `nn`), floats
  (`num`, `float`), `rope`, `mask`, `cache`, `attention`, `decoder`, `model`, `causal_lm`,
  `sampling`, `load`, `store`, `text`, and the laws of the cache (`incremental`, `joined`) and of
  padding (`padding`)
- `tests/` - its tests
- `app/` - weight files, conversion from and to Burn tensors, and conversion between file formats

Floats cross the library's boundary as bit patterns (`Single`, `Double`), tokens and masks as nested
vectors.
