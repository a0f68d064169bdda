//! A minimal binary transcoding layer: fixed-width integers, fixed-size
//! composites and dynamic containers are written to and read back from a
//! flat little-endian byte stream.

pub mod composite;
pub mod containers;
pub mod hashes;
pub mod laws;
pub mod stream;
pub mod transcode;
pub mod wire;

pub use stream::ByteSource;
pub use stream::TranscodeError;
pub use transcode::Transcode;
