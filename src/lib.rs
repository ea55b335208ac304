//! Fixed-width unsigned integers with a verified floor `n`-th root.
pub mod power;
pub mod floor_root;
pub mod uint;

pub use uint::Uint;
