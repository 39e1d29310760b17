//! Limn: an event driven, component based GUI library.
//!
//! This crate holds the logic of the library: identifiers, the event bus and
//! event queues, focus and mouse-hover state machines, linear layout
//! bookkeeping, style selection, widget tree traversal and pixel processing.

pub mod property;

pub mod input;

pub mod layout;
pub mod eventbus;
pub mod event;
pub mod app;
pub mod resources;
pub mod ui;
pub mod color;
pub mod text;
pub mod style;
