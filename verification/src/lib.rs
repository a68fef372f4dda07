//! A pull-based generator runtime and the schema nodes built on it.
//!
//! A generator is a resumable computation: every resumption hands back either one
//! fragment of output or the final payload of the drive ([`generator`]). The
//! combinators in [`try_generator`] compose generators whose final payload is a
//! success or a failure. [`array`] and [`date_time_node`] are the nodes that
//! repeat an element and that sample a date or a time from a range;
//! [`date_time_content`] is the schema that the latter is compiled from. The
//! dates and times themselves are plain numbers ([`calendar`],
//! [`chrono_value`]) that `chrono` reads, writes and adds up
//! ([`chrono_bridge`]).

pub mod generator;
pub mod random;
pub mod try_generator;
pub mod calendar;
pub mod chrono_bridge;
pub mod chrono_value;
pub mod date_time_node;
pub mod date_time_content;
pub mod array;
