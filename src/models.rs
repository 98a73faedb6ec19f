pub use crate::chat_message::ChatMessage;
use vstd::prelude::*;

verus! {

/// A language and a number of records.
pub struct LanguajeResult {
    pub language: String,
    pub count: i32,
}

} // verus!
