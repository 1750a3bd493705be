//! The logic of a read-only file system that serves CHD disc images as plain
//! ISO, raw or VCD files.

pub mod attr;
pub mod bcd;
pub mod cache;
pub mod contents;
pub mod flags;
pub mod fs;
pub mod history;
pub mod index;
pub mod read;
pub mod scan;
pub mod sector;
pub mod sort;
pub mod text;
pub mod track;
pub mod vcd;
pub mod walk;

pub use crate::bcd::{msf_bcd_from_sectors, to_bcd};
