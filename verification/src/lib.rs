//! A tiling window manager core: a recursive layout tree of framed client
//! windows, together with the pure computations that turn tree changes into
//! X protocol request descriptions. All I/O (the X connection, the control
//! socket, configuration files) lives outside this crate; the library only
//! decides, and says what it decided as plain data.

pub mod action;
pub mod config;
pub mod errors;
pub mod events;
pub mod frame;
pub mod geometry;
pub mod tree;
