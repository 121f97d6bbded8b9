//! CryptoContent: a local-first synchronization core for structured personal
//! data. Each device holds a private copy of its calendars and encrypts them
//! before they leave the device, so shared storage never sees plaintext. A
//! compact change log records per-object lifecycle events and coalesces them,
//! so that devices can reconcile an object's most recent true state without
//! a central server.

pub mod codec;
pub mod crypto;
pub mod domain;
pub mod storage;
