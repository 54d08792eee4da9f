//! A managed heap for a dynamically typed virtual machine: a region-growing
//! bump allocator, a typed object codec and a bitmap-based mark-compact
//! collector.

pub mod bits;
pub mod codec;
pub mod collector;
pub mod compact;
pub mod errors;
pub mod gc;
pub mod heap;
pub mod laws;
pub mod object;
pub mod relocate;
pub mod type_info;
pub mod type_sig;
