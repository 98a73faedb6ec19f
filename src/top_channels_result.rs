use crate::channel_message_count::ChannelMessageCount;
use vstd::prelude::*;

verus! {

/// The channels with the most records in one language, most first.
pub struct TopChannelsByLanguageResult {
    /// The language code, such as "en".
    pub language: String,
    /// At most three channels, ordered by count, highest first.
    pub top_channels: Vec<ChannelMessageCount>,
}

} // verus!
