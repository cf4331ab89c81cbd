//! Layout engine for annotation labels anchored to ranges of a pangenome axis.
//!
//! Annotation ranges are indexed once per slot; every frame a layout job clips
//! the visible ranges to the view, maps them to screen space, picks an anchor
//! target per annotation and packs label footprints without overlap.

pub mod geometry;
pub mod anchor;
pub mod range_index;
pub mod placement;
pub mod dynamics;
pub mod slot;
pub mod registry;
