//! A window-grid cycling library.
//!
//! The library decides, for the currently focused desktop window, which cell
//! of a rows-by-columns grid the window should move to next.  A small
//! line-oriented state store remembers, across invocations, where each window
//! was last placed, so that repeated invocations walk the window through the
//! grid in row-major order.  Any externally observable change to the window
//! (moved, resized, or a different grid requested) resets the cycle.

pub mod engine;
pub mod grid;
pub mod numtext;
pub mod windows_map;
pub mod yabai;
