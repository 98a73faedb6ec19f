use vstd::prelude::*;

verus! {

/// One chat-viewing record: the channel, its language and how many viewers
/// were watching.
pub struct ChatMessage {
    /// The channel's name.
    pub channel_name: String,
    /// The channel's language code, such as "en".
    pub language: String,
    /// How many viewers were watching the channel.
    pub viewer_count: u64,
}

} // verus!
