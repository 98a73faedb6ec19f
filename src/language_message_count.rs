use vstd::prelude::*;

verus! {

/// A language and how many records counted it.
pub struct LanguageMessageCount {
    /// The language code, such as "en".
    pub language: String,
    /// How many records of the viewer range were in this language.
    pub message_count: u64,
}

} // verus!
