//! The memory core of a small AArch64 kernel, with its proofs: a per-CPU,
//! slab-cached heap over a frame allocator, and the rules of a few devices
//! around it.
//!
//! The heap is in `heap`, over `cache` (per-CPU magazines), `slab` (one
//! slab allocator per size class), `frames` (the frame allocator) and
//! `page`; `theorems` states what holds of it in every state it can reach.

pub mod address;
pub mod align;
pub mod error;
pub mod layout;
pub mod params;

pub mod cache;
pub mod frames;
pub mod heap;
mod heap_steps;
pub mod page;
pub mod slab;
pub mod theorems;

pub mod fat32;
pub mod flush;
pub mod iov;
pub mod kimage;
pub mod probe;
pub mod psci;
pub mod ramdisk;
pub mod uart;
