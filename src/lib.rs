//! An unbounded first-in-first-out queue laid out as a chain of fixed-capacity
//! segments, each with a producer reservation counter and a consumer
//! reservation counter kept on separate cache lines.
//!
//! Every step of the enqueue and dequeue protocols (reserving an index,
//! publishing into a slot, claiming a slot, skipping a slot whose producer has
//! not published, advancing past an exhausted segment) is an operation with
//! an exact contract, and the queue built from those steps is proved to
//! behave as a sequence: values come out in the order of their reservations,
//! none is lost and none is seen twice.
mod padded;
pub mod segment;
pub mod leitio;
pub mod laws;

pub use crate::leitio::{Leitio, Ticket};
pub use crate::segment::{Segment, CAPACITY};
