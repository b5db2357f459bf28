//! Fixed-width unsigned integers whose primitive operations can be served
//! either by portable limb arithmetic or, for 256-bit integers, by the
//! routines of an accelerator.
//!
//! [`Uint`] is the integer with its portable operations. [`Accelerator`]
//! is the contract that a set of accelerated routines must honour, and
//! [`Shim`] dispatches each operation to one path or the other. Every
//! path is specified with the functions of [`model`], over the numbers
//! that [`limbs::value`] reads out of the limbs.

pub mod accel;
pub mod arith;
pub mod bitwise;
pub mod compare;
pub mod laws;
pub mod limbs;
pub mod model;
pub mod shift;
pub mod shim;
pub mod uint;

pub use accel::{Accelerator, Portable, Words, ACCELERATED_BITS};
pub use shim::{is_accelerated, Shim};
pub use uint::Uint;
