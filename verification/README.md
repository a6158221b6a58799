# BSnoBS

Microbubble sizing from optical microscopy: a small detection model finds bubbles on
images, and the program counts, measures, corrects, plots and exports them.

- `src/` is the library, verified with Verus: fitting images to the model, decoding its
  output, the static dirt filter, counts, statistics and histograms, what is drawn on
  pictures, the workspace of folders, runs, corrections and their undo, exports, settings
  and updates.
- `tests/` runs the library on examples.
- `app/` is the desktop program around it: windows, files, threads, the model's runtime,
  and all arithmetic in floating point. The library holds such numbers by their bits,
  compares them itself, and takes what is computed with them through functions that its
  callers hand in.
- The font, the logos and the weights of the model lie in a directory `assets` beside the
  executable.
