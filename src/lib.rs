//! A byte store that keeps a CRC-32 checksum after every fixed-size segment
//! of an inner store, and presents the segment bodies as one contiguous
//! stream that can be read, written and sought.

mod config;
mod crc;
mod error;
mod inner;
pub mod layout;
pub mod laws;
pub mod model;
pub mod rewrite;
mod store;
mod utility;

pub use config::{is_power_of_two, Config, MAX_BUF_LEN, MAX_SEG_LEN, MIN_BUF_LEN, MIN_SEG_LEN};
pub use crc::crc32;
pub use error::{ConfigError, Error, LenError, ValidateError};
pub use inner::{ByteStore, MemStore, SeekFrom};
pub use store::{CrcStore, MAX_SEEK};
pub use utility::min3;
