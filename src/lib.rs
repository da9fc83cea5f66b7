//! Core of a pull-based audio rendering graph: MIDI messages and voice
//! tracking, timeline arithmetic, the node graph's topology and render
//! scheduling, and the binary and textual encodings of a project.

pub mod block;
pub mod chain;
pub mod document;
pub mod graph;
pub mod midi;
pub mod nodes;
pub mod param;
pub mod payload;
pub mod project;
pub mod timeline;
