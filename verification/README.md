# rs_face

Face detection, tracking and recognition tools. The integer and text logic
lives in the library under `src/`, written in Verus: every function there
carries a contract that Verus proves.

- `src/` — the verified library: PGM/PPM/PNG codecs, RGB and gray images,
  integral images, cumulative histograms, grouping of overlapping
  detections, key-frame selection, frame naming, tracks files, an XML
  reader, HTTP response parsing, argument parsing for `train`, benchmark
  folds and pairs, base64 and the label font.
- `tests/` — tests of the library on concrete values.
- `app/` — the `rs-face` command: file and network I/O, threads, the
  `ffmpeg` frame extraction, and the floating-point parts (Haar cascades,
  HOG/SVM, PCA/LDA, LBPH, resampling, distances).

Laws the library proves (public proof functions): mirroring an image twice
gives it back, an encoded PGM parses back to the same image, CRC-32 composes
over concatenation, k-fold splits partition the samples with balanced
classes, shuffling permutes, verification pairs are balanced, base64 output
has the expected length, saved frame names read back their index, a
track's key face makes its frame a key frame when it is the track's first
face there, and overlap groups never share a detection.
