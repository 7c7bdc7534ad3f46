//! A binary, deferred-formatting logging engine: a double-buffered producer
//! that appends compact binary records, a 16-bit relative timestamp
//! compressor, a deduplicating format-string registry, and a decoder that
//! turns a captured byte stream back into records.

pub mod clock;
pub mod codec;
pub mod registry;
pub mod reader;
pub mod record;
pub mod producer;
pub mod format;
pub mod roundtrip;
pub mod loggable;

pub use producer::{BufferHandler, Logger};
pub use reader::{LogEntry, LogReader, LogValue};
pub use registry::{get_string, register_string, StringRegistry};
