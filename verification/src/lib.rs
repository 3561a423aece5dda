//! An encoder for uncompressed PNG images.
//!
//! The library turns a flat RGBA8 pixel buffer into the bytes of a valid PNG
//! file.  The image data is wrapped in a zlib stream that uses only DEFLATE
//! "stored" (non-compressed) blocks, so any standards-compliant decoder can
//! read the file even though nothing is actually compressed.  The two
//! checksums the formats require — CRC-32 over each chunk's tag and data,
//! Adler-32 over the scanline stream — are computed by verified engines.

pub mod adler32;
pub mod bytes;
pub mod crc32;
pub mod png;
pub mod zlib;
