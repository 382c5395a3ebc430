//! Library for a small image-acceleration peripheral: a byte-oriented
//! run-length codec with a compact one-byte block header, the pixel-level
//! channel-inversion transform, and the device- and host-side protocol
//! state machines that frame image transfers over two bulk endpoints.

pub mod bitmap;
pub mod codec;
pub mod connection;
pub mod device;
pub mod err;
pub mod host;
pub mod transform;
