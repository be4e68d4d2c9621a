# smartimg

Perceptual rate-distortion image optimization, with the decisions proved in Verus.

The library searches the quality axis of codecs for the smallest encoding that passes every
quality gate, or encodes at a fixed quality under a hard byte budget: first by lowering the
quality, then, as a last resort, by downscaling.

## Layout

- `src/engine.rs`, `src/search.rs`: the search, from a request to the smallest acceptable encoding.
- `src/budget.rs`: fixed quality under a byte budget.
- `src/web/`: web-ready images: names, sizes, the steps for one input, markup and totals.
- `src/bench.rs`, `src/sweep.rs`: benchmark corpora and resumable sweeps.
- `src/pipeline/`, `src/metrics/`, `src/codecs/`: the boundaries to decoding and resizing, to
  perceptual metrics, and to native encoders.
- `src/binary64.rs`: double precision on integers, so that dimensions and sizes come out as
  floating-point arithmetic has them.
- `app/`: the command-line program. It reads and writes files, calls libavif and libwebp, and
  computes SSIM.

Scores and thresholds are doubles, held by their bits in `Binary64`.

## What is trusted

Calls into the `image`, `ssimulacra2`, `butteraugli` and `sha2` crates and to the clock stand in
small functions marked `external_body`, each with a comment that says what is claimed of the call.
The specification of `String::push` is assumed as well, in `src/text.rs`. Everything else in
`src/` is verified.
