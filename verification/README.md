# stable_audio

Stable Audio 3 inference on ggml, with its bookkeeping and data layouts
verified in Verus.

- `src/` is the verified library: GGUF tensor lookups, byte ranges, shapes
  and raw tensor values; the token layouts of the SAME encoder and decoder
  (interleaving, shift padding, cropping, selection, transposition, the
  sliding-window mask and the chunked decode plan); prompt padding; the
  encoder patch layout and its inverse; the inpainting masks, local
  conditioning and paste-back; the waveform restore around an inpainted
  region; the continuation splice; and the checks and messages of each.
  Laws that span functions are public proof functions next to them.
- `app/` holds what stays outside the proofs: the ggml graphs, the diffusion
  sampler and the float math, WAV reading and writing, and the C API.
- `tests/` runs the library on concrete values.
