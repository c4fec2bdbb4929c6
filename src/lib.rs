//! Synchronous, in-process data-flow pipelines.
//!
//! A [`Flow`] is a tree of processing nodes kept in an arena and addressed by
//! integer handles. Values sent into the root run through each node's capability
//! and are forwarded to the node's children in attachment order. Observer nodes
//! record the values that reach them; `send` hands those records back.
pub mod flow;
pub mod samples;

pub use flow::{
    new_flow, segregate, send_many, Capability, Classify, Flow, Label, Link, Node, Predicate, Transform,
};
pub use samples::{
    filter_gt300, fizzbuzz_flow, fizzbuzzer, range_filter_flow, FizzBuzzer, GreaterThan300, BUZZ, FIZZ,
    FIZZBUZZ, NUMBER,
};
