# SLHA v2 — verified tile codec, CCOS cache and rank metrics

`src/` is a Verus library (crate `lib`):

- `attention::slha_v2` — the integer side of the 128-byte SLHA v2 tile: the
  signed INT4 nibble codec (pack / unpack, zero-point 8), group indices, the
  Hamming distance of the 256-bit sign residual and the binary term
  `d_s - 2·hamming` (proved equal to the ±1 sign dot product), and the WARM
  rule that drops the binary term.
- `ccos` — the elastic KV-cache (HOT / WARM / COLD Soft-Paging): insertion with
  slot recycling, `page_out`, `evict`, `enforce_budget` (proved to bound the
  footprint by the budget, paging and evicting in policy order and no more than
  needed), `score_all` over live slots.
- `metrics` — stable argsort in the `f32` total order (scores given as bit
  patterns), ranks and top-k overlap.
- `slha_c` — the C handle type and the status decision of `slha_process_tile`.

`app/` holds what stays outside the verified library: all `f32` arithmetic
(dequantisation, the fused score and its AVX2 / NEON paths, quantisers,
Pearson / Spearman / softmax), float scoring over the cache, and the
`extern "C"` entry points. `tests/` exercises the library.
