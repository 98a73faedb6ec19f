//! Parallel aggregation of chat-viewing records read from a JSON file.
//!
//! The library holds the verified core: planning byte ranges of the input
//! and the safe split points between them, framing object texts out of a
//! byte range, accumulating grouped counts, and ranking them. Reading the
//! file, decoding each framed object and running the workers in parallel is
//! left to the caller.
pub mod channel_message_count;
pub mod chat_message;
pub mod chunk_info;
pub mod count_table;
pub mod custom_error;
pub mod error;
pub mod errors;
pub mod language_message_count;
pub mod models;
pub mod parser;
pub mod scanner;
pub mod streaming_aggregators;
pub mod top_channels_result;
pub mod top_languages_result;
pub mod transformations;
