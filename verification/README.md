# tlg

A verified codec for the TLG5 and TLG6 image formats of the Kirikiri engine,
written in Verus.

- `src/slide.rs`: the LZSS coder with its 4096-byte sliding window.
- `src/tlg5/`: TLG5 streams (per-channel differences, LZSS-coded planes).
- `src/tlg6/`: TLG6 streams (median or average prediction, colour filters,
  adaptive Golomb-Rice coding of residuals with gamma-coded runs).
- `src/tags.rs`, `src/container.rs`: the tag dictionary and the container
  that holds a stream together with its tags.
- `src/reader.rs`, `src/writer.rs`: reading a plain stream or a container,
  and writing one.
- `app/`: file and stream I/O and conversion to and from `image` types.

The main properties proved: each decoder's result is stated exactly, on every
input; what the encoders write decodes back to the image they were given;
reading what the writer wrote gives back the image and its tags (each key
once, with the value given last for it).
