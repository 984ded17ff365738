//! Live map backend for amateur-radio contact records.
//!
//! Contact records arrive as datagrams from logging software, are enriched
//! with geographic coordinates resolved from a remote callsign directory,
//! and are fanned out, in publish order, to every attached map subscriber.
//!
//! This crate holds the verified core of that pipeline: the datagram record
//! format, the coordinate arithmetic, the enrichment decision logic, and the
//! broadcast hub with its ordering and overflow policy. Socket, HTTP and
//! task plumbing live outside the library and hand it plain values.

pub mod coords;
pub mod receiver;
pub mod qrzcom;
pub mod enricher;
pub mod hub;
