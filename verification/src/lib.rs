//! A sliding-window maximum tracker: values arrive one at a time, and after
//! each arrival the tracker reports the maximum of the most recent arrivals,
//! in amortised constant time per arrival.
//!
//! [`MaxDetector`] is the tracker. Its contracts are stated over the history
//! of arrivals and the window cut from it ([`window`]), with the order taken
//! from the element type's own comparisons ([`order`]).

pub mod detector;
pub mod order;
mod queue;
mod ring;
pub mod window;

pub use detector::MaxDetector;
