//! A maze library: square cell grids with geometric adjacency and a mutable
//! link relation, maze-generation algorithms that carve a spanning tree of
//! links, and breadth-first distance and path analysis over the link graph.

pub mod algo;
pub mod capacity;
pub mod cell;
pub mod cardinal;
pub mod coord;
pub mod dist;
pub mod error;
pub mod graph;
pub mod grid;
pub mod index;
pub mod mask;
pub mod numerical;
pub mod path;
pub mod point;
pub mod ordinal;
pub mod rng;
pub mod row_size;
pub mod trans;
pub mod traverse;
pub mod visit;

pub use crate::capacity::Capacity;
pub use crate::cell::SqCell;
pub use crate::grid::SqGrid;
pub use crate::graph::{connected, entry_count, is_link_path, spans};
pub use crate::cardinal::{Cardinal, CardinalIter, CardinalRev, Horizontal, Vertical};
pub use crate::coord::Coord;
pub use crate::dist::Distances;
pub use crate::error::{CellLinkError, NotNeighborsError, OutOfBoundsCoordError, OutOfBoundsError};
pub use crate::ordinal::{Ordinal, OrdinalIter};
pub use crate::index::Index;
pub use crate::mask::{DistMapOpts, DistMask, DistText, HeatMapOpts, HeatMask, HeatText, RgbChannel, RgbaChannel};
pub use crate::numerical::Numerical;
pub use crate::row_size::{ColSize, RowSize};
pub use crate::path::Path;
pub use crate::point::Point;
pub use crate::rng::{RandSource, SeededRand};
pub use crate::trans::{ColMajor, Ident, Major, Rev, RowMajor};
pub use crate::traverse::{id_from_list, Iter};
pub use crate::visit::Visit;
