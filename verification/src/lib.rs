//! Dispatcher core for composite applications: one descriptor driven by
//! several trigger types is split into one scoped descriptor, argument
//! slice and launch plan per type.

pub mod descriptor;
pub mod partition;
pub mod router;
pub mod strutil;
pub mod supervisor;
pub mod writer;
