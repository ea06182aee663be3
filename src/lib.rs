//! A fixed-capacity single-producer / single-consumer ring of owned byte
//! packets, with the decisions of the producer and consumer loops that
//! surround it.

pub mod ring;
pub mod pipeline;
pub mod laws;
