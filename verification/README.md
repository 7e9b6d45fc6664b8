# rust_examples

A handful of small desktop utilities whose decisions live in a library
verified with Verus:

- an Inkscape layer splitter: picks the newest `всё_вNрM.svg` among the
  drawings found, and turns every top-level layer into an SVG file of its
  own (`src/versions.rs`, `src/layers.rs`, `src/open_tag.rs`, `src/style.rs`,
  `src/layer_names.rs`, `src/svg.rs`, `src/references.rs`);
- a line counter for the files next to the executable (`src/lines.rs`,
  `src/paths.rs`);
- the path finder of a 1C backup tool, with its settings (`src/backup.rs`);
- a temperature converter menu (`src/temperature.rs`);
- the counter state of two small GUI windows (`src/counters.rs`);
- the register decoding of a Modbus TCP uptime reader (`src/modbus.rs`);
- console helpers for colours and the final Esc key (`src/console.rs`).

`src/text.rs` holds the string helpers and their specifications.

`app/` is the command-line front end: file system, console, network and
floating-point work, calling the library for every decision. Run it with one
of `temperature`, `backup`, `count-lines`, `split-svg` or `modbus-uptime`.
