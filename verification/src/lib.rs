//! Side-by-side viewing of git-format diffs.

pub mod bytes;
pub mod copying;
pub mod counting;
pub mod diff;
pub mod drawing;
pub mod events;
pub mod intraline;
pub mod keys;
pub mod numbering;
pub mod pairing;
pub mod pointing;
pub mod reading;
pub mod render;
pub mod running;
pub mod screen;
pub mod sections;
pub mod segments;
pub mod selection;
pub mod state;
pub mod style;
pub mod telling;
pub mod text;
pub mod titles;
pub mod ui;
pub mod viewing;
pub mod wrap;
