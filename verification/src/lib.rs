//! Verified core of a collection of small utilities: a layer splitter for
//! Inkscape SVG files, a line counter, a backup-path chooser, a temperature
//! menu, GUI counters and a Modbus uptime reader.

pub mod text;
pub mod svg;
pub mod layer_names;
pub mod style;
pub mod open_tag;
pub mod layers;
pub mod versions;
pub mod paths;
pub mod lines;
pub mod backup;
pub mod temperature;
pub mod counters;
pub mod modbus;
pub mod console;
pub mod references;
