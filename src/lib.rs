//! A time-indexed buffer of coordinate-frame transforms: a directed graph of named
//! frames whose edges carry stamped sample histories with bounded retention, and
//! lookups that chain through any number of intermediate frames.
//!
//! The buffer never computes with the rigid transforms themselves. It stores the
//! payload it is given and answers each lookup with the stored transforms to chain,
//! each either used as it is or blended with its neighbour by an exact integer
//! time weight, so that the caller's own arithmetic does the rest.
pub mod buffer;
pub mod error;
pub mod history;
pub mod stamped;
pub mod time;

pub use buffer::{TfBuffer, TimeTravel};
pub use error::TfError;
pub use history::TfIndividualTransformChain;
pub use stamped::{Oriented, Segment, StampedTransform};
pub use time::{
    add_time_and_duration, duration_as_ns_i64, is_time_in_range_eq, is_time_later,
    sub_duration_from_time, sub_time_and_time, time_as_ns_i64, time_from_nanosec, Duration, Time,
};
