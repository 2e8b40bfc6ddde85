//! Reading, writing and profiling of MediaTek `logo.bin` images.
//!
//! A `logo.bin` image is a 512-byte MTK header followed by a logo table
//! (slot count, block size, one offset per slot) and the compressed slots.
//! This crate parses and serialises that format over byte buffers, keeps
//! the configuration profiles that describe a device's slots, and infers a
//! profile from the inflated sizes of the slots.

pub mod codec;
pub mod color;
pub mod config;
pub mod error;
pub mod header;
pub mod infer;
pub mod inspect;
pub mod logo;
pub mod order;
pub mod repack;
pub mod slot_file;
