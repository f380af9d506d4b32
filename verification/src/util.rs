//! Common tools used throughout the kernel.

pub mod logarithm;
pub mod set_bits;
pub mod static_map;
pub mod weak_rng;

pub use self::logarithm::lg;
pub use self::static_map::StaticMap;
pub use self::set_bits::set_bits;
pub use self::weak_rng::WeakRng;
