use crate::language_message_count::LanguageMessageCount;
use vstd::prelude::*;

verus! {

/// The languages with the most records in one viewer range, most first.
pub struct TopLanguagesByViewerRangeResult {
    /// The viewer range's label: "0-100", "101-500", "501-1000" or "1000+".
    pub viewer_range: String,
    /// At most five languages, ordered by count, highest first.
    pub top_languages: Vec<LanguageMessageCount>,
}

} // verus!
