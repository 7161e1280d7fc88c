//! Two small numeric kernels with machine-checked contracts: a counter of the
//! steps that the `3n + 1` sequence takes to come down to 1, and an in-place
//! bubble sort of 32-bit integers.

pub mod collatz;
pub mod sorting;

pub use collatz::collatz_steps;
pub use sorting::bubble_sort;
