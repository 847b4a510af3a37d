# asv_tools

Operations on astronomical videos (SER files): quality analysis of a stabilized video and
splitting a video into chunks. The computational core is a library whose functions carry
machine-checked contracts and proofs; a thin program around it reads and writes the videos.

## Layout

- `src/` — the verified library:
  - `powers.rs` — powers of two used as search steps;
  - `image.rs` — 8-bit grayscale images and integer rectangles (containment, intersection);
  - `blur.rs` — iterated box blur, proved equal to its mathematical definition, free of
    overflow, range- and order-preserving, and composable across iterations;
  - `blk_matching.rs` — sum of absolute differences and the coarse-to-fine block-matching
    search, as a caller-driven search state, as a whole-pixel search on images, and as a
    search whose sub-pixel sums come from the caller;
  - `alignment.rs` — bookkeeping of frame shifts during stabilization;
  - `quality.rs` — common part of shifted frames, quality-estimation areas, anchor candidates;
  - `histogram.rs` — area histograms and histogram stretching;
  - `chunks.rs` — the plan of frame chunks;
  - `progress.rs` — progress reports.
- `tests/` — tests of the library on concrete values.
- `app/` — the command-line program: argument parsing, video I/O, threads, and the
  floating-point estimates (quality, contrast, sub-pixel interpolation).
