//! A Conway-style cellular automaton on the H3 hexagonal grid that covers the
//! sphere.  The universe keeps a sparse map from cell index to cell state,
//! advances it one generation at a time with a hexagonal birth/survival rule,
//! and renders the living cells as polygon features in GeoJSON text, shifting
//! rings that straddle the antimeridian into one contiguous band.

pub mod cellmap;
pub mod geometry;
pub mod grid;
pub mod jsontext;
pub mod numtext;
pub mod sampler;
pub mod universe;

pub use cellmap::{entries_map, keys_of, wf_entries};
pub use geometry::project_ring;
pub use numtext::{format_micro, parse_fixed};
pub use sampler::{create_rng, GeoCoord, GeoSampler, UniformSampler};
pub use universe::{CellState, Universe, UniverseError};
