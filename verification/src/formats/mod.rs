//! The files of Stratum 2000: code page, binary fields, projects, images.

pub mod cp1251;
pub mod reader;

pub use reader::{FormatError, Result};
pub mod writer;
pub mod project;
pub mod state_typed;
pub mod vdr;
pub mod vdr_round_trip;
pub mod cls;
pub mod cls_round_trip;
pub mod json;
pub mod json_read;
pub mod json_round_trip;
pub mod native;
pub mod native_save;
pub mod native_round_trip;
pub mod native_load;
pub mod native_load_law;
