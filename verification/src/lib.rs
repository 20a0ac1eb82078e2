//! Encoding and decoding of the TLG5 and TLG6 image formats used by the
//! Kirikiri visual-novel engine.

pub mod tlg_type;
pub mod bytes;
pub mod slide;
pub mod tlg5;
pub mod tlg6;
pub mod tags;
pub mod container;
pub mod writer;
pub mod reader;

pub use tlg_type::{ImageInfo, PixelLayout, TlgError, TlgType};
pub use reader::TlgReader;
pub use writer::TlgWrite;
