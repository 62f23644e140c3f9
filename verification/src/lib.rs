//! Copy in/out (cpio) file archives: the portable ASCII (`newc`) and old
//! character (`odc`) formats, read from and written to byte buffers.

pub mod archive;
pub mod ascii;
pub mod bytes;
pub mod error;
pub mod header;
pub mod image;
pub mod newc;
pub mod numeric;
pub mod octal;
pub mod odc;
pub mod pad;
pub mod round_trip;
pub mod text;
