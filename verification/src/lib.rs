//! Verified core of a live process-memory viewer.
//!
//! The crate enumerates the mapped regions of another process, captures
//! their bytes into an atomically replaceable snapshot, runs a per-session
//! navigation state machine over the captured regions, and encodes the
//! commands and memory dumps of the viewer protocol as wire messages.
//! All logic is verified; the few places that must talk to the operating
//! system go through small trusted wrappers around the `nix` crate.

pub mod cache;
pub mod console;
pub mod dump;
pub mod maps;
pub mod nav;
pub mod protocol;
pub mod range;
pub mod reader;
pub mod session;
pub mod stack_pointer;
pub mod sys;
pub mod text;

pub use range::AddressRange;
