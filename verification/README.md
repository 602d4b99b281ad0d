# picpatcher

Batch image overlay: stamp one overlay image (for example a date watermark) at a
fixed pixel position on every matching image of a directory.

- `src/` is the verified library (Verus):
  - `compose` — RGBA pixel buffers and alpha compositing (Porter–Duff `over`),
    with clipping at the base image's edges;
  - `batch` — extension lists, which walked files are processed, where each
    result is written, and the run summary;
  - `config` — the v1 configuration and how its overlay path is resolved;
  - `format` — the output encoding chosen from the output path's extension;
  - `path` — paths as text (both `/` and `\` separate components; a path is
    absolute when it starts with a separator or with `X:` and a separator);
  - `editor`, `fonts` — decisions of the desktop editor: overlay placement and
    clamping, the Run button's guard, when saving asks for a file, and CJK font
    candidates;
  - `text` — character helpers (Unicode white space, ASCII case).
- `app/` is the `picpatcher` command line: argument parsing, directory walking,
  JSON, image decoding/encoding, threads and the progress bar.

The desktop editor (the `picpatcher-gui` program, drawn with egui) is not part
of this crate: there is no GUI binary here. What it decides stands in the
library (`editor`, `config::overlay_path_to_save`), and `app/` holds the
configuration file's reading and writing (`load_config`, `save_config`).
