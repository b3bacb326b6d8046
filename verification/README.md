# zipvoice-rs

Text-to-speech with ZipVoice and Vocos GGUF models. The crate in `src/` is
the verified part: the phoneme tokenizer, the text-condition layout, silence
removal, the noise generator, the `VOCOSRS1` tensor file reader, GGUF tensor
record arithmetic and the attention view layout, each with a contract that
Verus proves. `app/` holds the rest: GGML graph execution through the
`llama-rs-sys` bindings, floating-point signal processing (STFT, resampling,
RMS), WAV I/O and the C interface; it calls the verified library wherever a
decision or an index computation is made.

Modules of `src/`:

- `text`: lines, whitespace trimming and `i64` parsing over `Seq<char>`.
- `tokenizer`: `tokens.txt` reading and character encoding, with its laws.
- `text_condition`: text plans, token sequences, frame-to-token layout,
  masks and embedding rows.
- `silence`: active intervals, merges, kept segments and edge trims.
- `rng`: the xorshift generator, whose state never becomes zero.
- `vbin`: the `VOCOSRS1` tensor file format.
- `gguf_layout`, `le_bytes`: tensor ranges, dimensions, element counts and
  little-endian words.
- `attention_layout`: strides and offsets of the attention head views.
- `model_config`: `model.json` and the tensor name map.
- `signal`: reflection padding.
