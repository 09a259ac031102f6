//! A layered, zero-copy byte-stream abstraction: buffered readers that
//! can be peeked into without consuming, stacked filters that limit or
//! de-chunk the stream below them, and the OpenPGP length framing that
//! the de-chunking filter reads.

pub mod reader;
pub mod memory;
pub mod limitor;
pub mod body_length;
pub mod partial_body;
pub mod generic;
pub mod ctb;
pub mod unknown;

pub use body_length::BodyLength;
pub use generic::{BufferedReaderGeneric, ByteSource};
pub use limitor::BufferedReaderLimitor;
pub use memory::BufferedReaderMemory;
pub use partial_body::BufferedReaderPartialBodyFilter;
pub use reader::{BufferedReader, ReadError};
