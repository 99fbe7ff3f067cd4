//! Tiered retention: decide which timestamped entries a grandfather-father-son
//! style policy allows to be deleted.

pub mod name;
pub mod retention;
pub mod time;

pub use name::{date_field, entry_timestamp, DateError};
pub use retention::police;
pub use time::{Duration, Span, Timestamp};
