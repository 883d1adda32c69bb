# gliphoread

Tools for annotating handwritten recipe pages: `annotate` runs Tesseract on a
page image and writes the detected words and their boxes as JSON; `label` is a
desktop tool for drawing word boxes and giving each word a semantic role.

- `src/` is the library, verified with Verus: the annotation model (`model`),
  reading Tesseract's TSV output (`tsv`), naming the annotation output
  (`annotate`), the labeling tool's state and decisions (`labeler`), and the
  few std calls it takes on trust (`stdlib`).
- `app/` holds the programs: command line handling, image and file I/O,
  running Tesseract, JSON serialization and the user interface.
- `tests/` runs the library on concrete inputs.
