//! Merging, filtering, templating and chunked output of JSON log streams.
//!
//! The library decides; its caller reads inputs and writes outputs. A source stream is
//! told what each line of its input held, the merge says which stream to read next, and
//! the chunk writer says when to start a new output file.

pub mod chunk;
pub mod filter;
pub mod json;
pub mod log;
pub mod matcher;
pub mod pretty;
pub mod stages;
pub mod text;
pub mod time;
pub mod translate;

pub use chunk::{ChunkError, ChunkInfo, ChunkUnit, ChunkedWriter};
pub use filter::{Filter, FilterError, FilterSet};
pub use json::JsonValue;
pub use log::{Advance, Aggregator, FileSource, Line, LineEvent, LogFile, Skip};
pub use matcher::CompiledRegex;
pub use pretty::{PatternError, PrettyDescriptor};
pub use stages::{is_gzip, Stages};
pub use time::{TimeRange, Timestamp};
pub use translate::{translate_all, Translation};
