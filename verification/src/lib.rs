//! Extraction of per-player tick sequences from DDNet teehistorian replays.
//!
//! The verified core of the extractor: region bookkeeping for players,
//! AFK removal, gap detection and region splitting, feature selection,
//! and the per-tick / per-region tables that the exporters write.
use vstd::prelude::*;

pub mod features;
pub mod float_bits;
pub mod sequence;
pub mod text;
pub mod coverage;
pub mod export;
pub mod world;
pub mod extractor;
pub mod tracking;

pub use sequence::{ActiveRegion, FinishInfo, PlayerSequence, RegionEndReason, TickData};

verus! {

} // verus!
