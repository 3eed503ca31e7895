//! A verified screen-stack manager for a windowed application.
//!
//! Application code pushes, pops, or replaces UI screens at any time; once
//! per frame a commit pass reconciles the pending stack into the committed
//! (render-visible) stack and dispatches lifecycle events in a fixed order.
//! The manager itself never runs a screen's code: every hook invocation it
//! decides on is emitted as an [`screen::Action`] value, and the surrounding
//! application performs the real calls in exactly that order.

pub mod microsoft;
pub mod screen;
pub mod system;
