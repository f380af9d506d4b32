//! Memory: the older textual interval form, where an interval is kept
//! as its start and its exclusive end.

pub mod interval;

pub use self::interval::Interval;
pub use self::interval::IntervalList;
