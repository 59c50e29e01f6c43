//! A hashed timing wheel: payloads kept until a due time, in a fixed ring of
//! buckets that covers a sliding window of time.
//!
//! Times are `u64` counts of ticks of a monotonic clock since an origin of
//! the caller's choosing (nanoseconds, say); durations are counted in the
//! same unit.

pub mod item;
mod ring;
pub mod slots;
pub mod timer;
pub mod wheel;

pub use item::TimerItem;
pub use timer::Timer;
pub use wheel::Wheel;
