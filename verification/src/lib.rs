//! Enumeration of a DNSSEC-signed zone's owner names by walking its NSEC
//! chain.
//!
//! NSEC records form an authenticated linked list over every name in a zone,
//! in canonical order. Starting from any name, repeatedly querying for the
//! NSEC record at the current name and following its "next owner name" field
//! visits the whole zone, until the chain wraps back to the starting name.
//!
//! This crate holds the verified core: the domain-name model with its
//! canonical (case-insensitive) comparison, and the walker state machine that
//! decides, from each query outcome, whether to emit a name, stop cleanly at
//! chain closure, or fail. Performing the actual DNS queries is left to the
//! caller, who feeds each response back into the walker.

pub mod name;
pub mod walker;
