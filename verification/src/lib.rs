//! The core of a terminal user interface that draws by difference.
//!
//! A frame is a [`buffer::Buffer`] of cells. [`diff`] finds the commands that lead from one frame
//! to the next, and [`draw`] writes them as escape sequences; [`dense`] writes whole rows without
//! looking at the frame before. [`terminal`] keeps the two frames and what is known of the cursor
//! and the screen, and says step by step what is to be done to the terminal device.
//!
//! [`screen`], [`pen`], [`repaint`], [`display`], [`device`] and [`session`] hold a model of what a
//! terminal shows, and the proofs that a drawn frame shows on it.

pub mod ansi;
pub mod buffer;
pub mod dense;
pub mod device;
pub mod diff;
pub mod display;
pub mod draw;
pub mod geometry;
pub mod modifier_diff;
pub mod ops;
pub mod pen;
pub mod repaint;
pub mod screen;
pub mod session;
pub mod style;
pub mod terminal;
pub mod width;
