//! Retained-mode form widgets: a keyed list reconciler, a clamped scroll
//! viewport, a pointer interaction state machine and palette resolution.
pub mod interaction;
pub mod list;
pub mod scroll;
pub mod theme;
