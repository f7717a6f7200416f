//! Selection sort over machine integers, with a deterministic sequence
//! generator and a sortedness checker around it.

pub mod harness;
pub mod parse;
pub mod rng;
pub mod sort;

pub use rng::generate;
pub use rng::init_array;
pub use rng::UniformSource;
pub use sort::is_sorted;
pub use sort::selection_sort;
