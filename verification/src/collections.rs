//! Collections used throughout the kernel. They are fixed-capacity so
//! that the kernel can bootstrap them without a working heap.

pub mod static_interval;
pub mod static_list;
pub mod static_stack;

pub use self::static_interval::Interval;
pub use self::static_interval::IntervalList;
pub use self::static_interval::Iter;
pub use self::static_list::StaticList;
pub use self::static_list::StaticListRef;
pub use self::static_stack::StaticStack;
