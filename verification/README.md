# candle_lm

Verified parts of two language models on top of the `candle` tensor crates: the weight
formats and loaders of DeepSeek-V4, and the token selection, routing and caches of
GLM-5.3-Flash.

- `src/` is the library. Its functions are proved against the contracts they state.
  - `float`, `formats`: f32, fp8 E4M3, fp4 E2M1 and E8M0 values as bit patterns.
  - `blocks`, `dequant`, `plan`: block-scaled weights and how stored tensors are read.
  - `cache`: a byte-bounded cache that drops the least recently used entries.
  - `deepseek_v4`, `quantized_deepseek_v4`: configuration, checkpoint names, loaders and
    the preparation of fp8 matrix products.
  - `schema`, `streaming`: what holds of all checkpoint names, and of passes that load
    their weights through the caches.
  - `glm5_next`: schedules, the k-pool indexer, sparse attention masks, expert routing,
    the convolution and state caches of linear attention, layer dispatch, when
    generation stops and how it samples; `glm5_next::pass` relates a prefill and later
    calls to one call over the whole sequence.
  - `flash_attn`: attention masks, skipped blocks and paged layouts.
  - `topk`, `indices`, `text`: ranking, positions and names.
- `tests/` runs the library on concrete values.
- `app/` holds what computes with tensors, files and devices: `candle` modules, memory
  mapped checkpoints, configuration files and cuBLASLt.

Numbers of the models are carried as bit patterns (`F32`, `F64`), so that contracts speak
of their exact values; `app/` converts them.
