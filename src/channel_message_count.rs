use vstd::prelude::*;

verus! {

/// A channel and how many records counted it.
pub struct ChannelMessageCount {
    /// The channel's name.
    pub channel_name: String,
    /// How many records of the channel's language named the channel.
    pub message_count: u64,
}

} // verus!
