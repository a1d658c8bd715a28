//! A flashing toolkit for Sony Xperia devices in flash mode: the fastboot
//! reply protocol, the trim-area (`.ta`) text format, the boot and partition
//! delivery descriptions, and the decisions taken while flashing `.sin`
//! archives.

pub mod number;
pub mod types;
pub mod text;
pub mod ta;
pub mod xml_parser;
pub mod sins;
pub mod utils;
