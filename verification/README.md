# pulsar

The decision logic of the pulsar inference engine, verified with Verus.

- `src/` is the library: the byte-level BPE tokenizer (`pretokenize`,
  `byte_map`, `bpe`, `tokenizer`, with its laws in `roundtrip`) and the chat
  markers found in its vocabulary (`chat`), the expert
  cache policy (`hybrid_miss`), the integer side of the iq2_xxs x q8_K dot
  (`cpu_dot`), and the quantizer: command line (`options`), recipe
  (`quantize`), file layout (`layout`), header (`gguf`, `gguf_write`,
  `header`, with its laws in `read_back`) and streaming (`stream`). `order`
  and `text` hold what they share.
- `app/` is what stands around it: the environment, floats, files, threads,
  the GPU. The parser of the file format and the row encoders are handed to
  `quant::run` through a trait.
- `tests/` runs the library.

Floats cross the border as their bits. Everything under `src/` is proved.
Besides vstd, two things are taken on trust: what `String::push` and
`char::from_u32` of the standard library do.
