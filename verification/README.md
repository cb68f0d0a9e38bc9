# libzstd_bitexact

Zstandard compression and decompression, verified with
[Verus](https://github.com/verus-lang/verus). The frames are meant to be byte
for byte those of libzstd 1.5.7. That is tested against libzstd on sample inputs,
not proved.

## What is proved

* **Decoding.** `decompress`, `DecodeOptions` and `StreamDecoder` are proved
  against a mathematical model of the format (`spec_decompress`, `reading`):
  which bytes come out, and which error on which input. A session with a
  stream hands out the same bytes and ends the same way however its input is
  cut up, and never yields anything that decoding at once does not. Where its
  window holds all of the history, it yields all that decoding at once does.
* **Round trips.** Whatever `compress`, `compress_mt`, `compress_with_dict` and
  `compress_with_cdict` return decompresses to what was compressed; without a
  dictionary it does so as a stream too.
* **Bytes.** What these functions and `FrameCompressor` write is pinned down by
  pure models of each stage: parameters, match finders, block splitting, entropy
  coding, frames. The history that a match finder searches may lie in two parts
  of the caller's buffer, as after a ring buffer has wrapped around.
* **No panics.** Indexing and arithmetic are proved safe for all inputs.

There are no trusted items: no `assume`, no external bodies.

## Layout

| Modules | Subject |
|---|---|
| `decompress`, `block`, `huffman`, `fse`, `frame`, `dictionary`, `stream` | decoding |
| `decompress_laws`, `limit_laws`, `stream_laws`, `session_laws`, `window_laws`, `dictionary_laws` | what holds of decoding as a whole |
| `compress`, `compress_dict`, `compress_mt`, `frame_compress` | making frames |
| `fast`, `dfast`, `lazy`, `lazy_search`, `lazy_tree`, `tree`, `opt`, `opt_matches`, `opt_prices`, `ldm` | match finders and parsers |
| `parser`, `recent`, `window`, `layout`, `seq_store` | what the match finders share |
| `pre_split`, `post_split` | block splitting |
| `literals_encode`, `sequences_encode`, `seq_tables`, `seq_codes`, `huffman_*`, `fse_encode`, `fse_counts`, `blocks_encode` | entropy coding |
| `normalize_laws`, `huffman_sort_laws`, `huffman_shape_laws`, `huffman_made_laws`, `huffman_depth_laws`, `huffman_height_laws`, `huffman_code_laws` | that histograms scale, and that code lengths fill the code space |
| `compress_laws` | what holds of compressing as a whole |
| `*_model` | the model of the stage that it is named after |

`app/` holds what needs the standard library's I/O and error traits: a
`Read` over `StreamDecoder`, and a displayable error. `tests/` compares with
libzstd itself.
