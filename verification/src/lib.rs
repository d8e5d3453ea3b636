//! An on-device agent's core: a durable key-value store and a scheduler of delayed
//! notifications whose waiting list the store mirrors.
//!
//! The library does no input or output. Every operation that changes durable state comes
//! in two parts: a function that gives the image the medium has to hold afterwards, and
//! the operation itself, which takes what the medium answered to that image and commits
//! or leaves everything as it was. Time is handed in as milliseconds on the wall clock,
//! and deliveries are handed out by `poll` and answered by `report`.

pub mod agent;
pub mod bytes;
pub mod checksum;
pub mod clock;
pub mod facade;
pub mod laws;
pub mod notification;
pub mod pending;
pub mod records;
pub mod scheduler;
pub mod store;
pub mod wire;
