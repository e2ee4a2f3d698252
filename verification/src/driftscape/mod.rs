//! Driftscape — terminal screensavers drawn onto a half-block truecolor canvas.

pub mod canvas;
pub mod input;
