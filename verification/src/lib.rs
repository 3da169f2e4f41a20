//! What a click-to-photon latency emitter decides and computes.
//!
//! The emitter shows a white flash on every click of the left mouse button and,
//! in every frame, a barcode that tells which frame it is. It logs when clicks
//! came and when frames were presented, so that a camera in front of the screen
//! can tell how long it took from the one to the other.
//!
//! This library holds everything about that which is not a call into the
//! operating system: which presses are clicks ([`clicks`]), what each frame shows
//! ([`frames`], [`barcode`], [`scene`]) and how it is presented ([`present`]), what
//! is logged ([`log`], [`clock`]), what the window does ([`window`], [`options`])
//! and how the renderer is tested ([`selftest`], [`expectations`]). What follows
//! for a run from its first frame to its last stands in [`run`].
//!
//! Proof functions whose names begin with `law` state what holds of the library
//! as a whole.
pub mod barcode;
pub mod clicks;
pub mod clock;
pub mod expectations;
pub mod frames;
pub mod log;
pub mod options;
pub mod present;
pub mod rounding;
pub mod run;
pub mod scene;
pub mod selftest;
pub mod text;
pub mod window;
