//! Health reporting for groups of redundant upstream servers, and the
//! decisions of the worker that probes them.
//!
//! A report is built in three steps, each a function of plain values: the
//! counters of one link group are copied out of the routing state
//! ([`stats`]), the metrics of each server and the state of the group are
//! derived from the copy ([`links`]), and the sections that the caller
//! chose are put together ([`report`], [`proxy_api`]).
//!
//! Metric values are binary64 bit patterns, each of which stands for an
//! exact fraction ([`reading`]). Decimal text is read into the nearest
//! binary64 value ([`decimal`], [`nearest`]), percentages are computed as
//! binary64 arithmetic computes them ([`arith64`]), and values go out as
//! plain decimal text ([`machine`]) or in fixed-width columns
//! ([`display`]), all by integer arithmetic alone. What holds of the
//! renderings and of the report for every input is proved in [`laws`].
//!
//! The worker that probes the servers is a small state machine
//! ([`request_worker`]): its caller receives, sends and waits, and asks the
//! machine what to do next.

pub mod arith64;
pub mod bigdec;
pub mod decimal;
pub mod display;
pub mod laws;
pub mod links;
pub mod machine;
pub mod nearest;
pub mod proxy_api;
pub mod reading;
pub mod report;
pub mod request_worker;
pub mod rounding;
pub mod sample;
pub mod stats;
pub mod text;
