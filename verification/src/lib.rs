//! A hierarchical timing wheel: fixed-size circular rings of slots at
//! increasing time resolution, with cascading re-insertion of timers as
//! their residual delay shrinks.

pub mod model;
mod ring;
mod wheel;
pub mod laws;

pub use wheel::hierarchical;
pub use wheel::HierarchicalTimingWheel;
pub use wheel::ScheduleError;
