//! Core engine of a binary-inspection workbench: a shared byte buffer is
//! analyzed by several independent analyzers (string extraction, entropy
//! chunking, byte-pair frequency mapping, windowed hex rendering, and a
//! structured binary-header decoder), each recomputing its cached state when
//! the buffer is replaced.
use vstd::prelude::*;

pub mod ascii;
pub mod entropy_plot;
pub mod format_explorer;
pub mod frequency_image;
pub mod hex_viewer;
pub mod string_finder;
pub mod tally;
pub mod workbench;

verus! {

/// The single event broadcast to every registered analyzer after the shared
/// buffer has been replaced.
#[derive(Clone, Copy)]
pub enum Event {
    FileChanged,
}

} // verus!
