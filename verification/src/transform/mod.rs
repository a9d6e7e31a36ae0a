//! The transform algebra: pure operations that each produce a new layout
//! from an existing one and leave their input untouched.

use vstd::prelude::*;

pub mod broadcast;
pub mod index;
pub mod merge;
pub mod slice;
pub mod split;
pub mod tile;
pub mod transpose;

pub use broadcast::BroadcastArg;
pub use index::IndexArg;
pub use slice::SliceArg;
pub use split::Split;
pub use tile::TileArg;
pub use tile::TileOrder;

verus! {

/// Multi-axis transforms take their per-axis arguments in strictly ascending
/// axis order.
pub open spec fn ascending(axes: Seq<usize>) -> bool {
    forall|j: int, k: int| 0 <= j < k < axes.len() ==> axes[j] < axes[k]
}

} // verus!
