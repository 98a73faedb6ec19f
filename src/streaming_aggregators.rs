use crate::chat_message::ChatMessage;
use crate::count_table::GroupedCounts;
use crate::scanner::{at_rest, lemma_scan_concat, scan};
use vstd::prelude::*;
use vstd::string::StringExecFns;

verus! {

/// The viewer range that a viewer count falls in: "0-100", "101-500",
/// "501-1000", or "1000+" above one thousand. The bounds are inclusive.
pub open spec fn bucket_label(viewer_count: int) -> Seq<char> {
    if viewer_count <= 100 {
        "0-100"@
    } else if viewer_count <= 500 {
        "101-500"@
    } else if viewer_count <= 1000 {
        "501-1000"@
    } else {
        "1000+"@
    }
}

/// The viewer range of `viewer_count`.
pub fn viewer_bucket(viewer_count: u64) -> (r: String)
    ensures
        r@ == bucket_label(viewer_count as int),
{
    if viewer_count <= 100 {
        String::from_str("0-100")
    } else if viewer_count <= 500 {
        String::from_str("101-500")
    } else if viewer_count <= 1000 {
        String::from_str("501-1000")
    } else {
        String::from_str("1000+")
    }
}

/// How many records of `msgs` are in language `g` and name channel `m`.
pub open spec fn channel_tally(msgs: Seq<ChatMessage>, g: Seq<char>, m: Seq<char>) -> nat
    decreases msgs.len(),
{
    if msgs.len() == 0 {
        0
    } else {
        channel_tally(msgs.drop_last(), g, m) + if msgs.last().language@ == g
            && msgs.last().channel_name@ == m {
            1nat
        } else {
            0nat
        }
    }
}

/// How many records of `msgs` fall in viewer range `b` and are in language
/// `l`.
pub open spec fn bucket_tally(msgs: Seq<ChatMessage>, b: Seq<char>, l: Seq<char>) -> nat
    decreases msgs.len(),
{
    if msgs.len() == 0 {
        0
    } else {
        bucket_tally(msgs.drop_last(), b, l) + if bucket_label(msgs.last().viewer_count as int)
            == b && msgs.last().language@ == l {
            1nat
        } else {
            0nat
        }
    }
}

/// The records that were decoded, in order; the candidates that failed to
/// decode are left out.
pub open spec fn decoded(cands: Seq<Option<ChatMessage>>) -> Seq<ChatMessage>
    decreases cands.len(),
{
    if cands.len() == 0 {
        Seq::empty()
    } else {
        match cands.last() {
            Some(m) => decoded(cands.drop_last()).push(m),
            None => decoded(cands.drop_last()),
        }
    }
}

impl Default for StreamingAggregators {
    /// Nothing counted yet.
    fn default() -> (r: StreamingAggregators)
        ensures
            r.wf(),
            r.total_messages == 0,
            forall|g: Seq<char>, m: Seq<char>| #[trigger]
                r.language_channel_counts.count(g, m) == 0,
            forall|b: Seq<char>, l: Seq<char>| #[trigger]
                r.range_language_counts.count(b, l) == 0,
    {
        StreamingAggregators::new()
    }
}

/// Counts of the records seen so far: by language and channel, by viewer
/// range and language, and in all.
pub struct StreamingAggregators {
    /// Language, then channel.
    pub language_channel_counts: GroupedCounts,
    /// Viewer range, then language.
    pub range_language_counts: GroupedCounts,
    /// How many records were counted.
    pub total_messages: u64,
}

impl StreamingAggregators {
    /// Both tables are well formed, and no count exceeds the total.
    pub open spec fn wf(&self) -> bool {
        &&& self.language_channel_counts.wf()
        &&& self.range_language_counts.wf()
        &&& forall|g: Seq<char>, m: Seq<char>|
            #[trigger] self.language_channel_counts.count(g, m) <= self.total_messages
        &&& forall|b: Seq<char>, l: Seq<char>|
            #[trigger] self.range_language_counts.count(b, l) <= self.total_messages
    }

    /// Nothing counted yet.
    pub fn new() -> (r: StreamingAggregators)
        ensures
            r.wf(),
            r.total_messages == 0,
            forall|g: Seq<char>, m: Seq<char>| #[trigger]
                r.language_channel_counts.count(g, m) == 0,
            forall|b: Seq<char>, l: Seq<char>| #[trigger]
                r.range_language_counts.count(b, l) == 0,
    {
        StreamingAggregators {
            language_channel_counts: GroupedCounts::new(),
            range_language_counts: GroupedCounts::new(),
            total_messages: 0,
        }
    }

    /// Counts one record: once under its language and channel, once under
    /// its viewer range and language, and once in the total.
    pub fn process_message(&mut self, message: ChatMessage)
        requires
            old(self).wf(),
            old(self).total_messages < u64::MAX,
        ensures
            final(self).wf(),
            final(self).total_messages == old(self).total_messages + 1,
            forall|g: Seq<char>, m: Seq<char>|
                #[trigger] final(self).language_channel_counts.count(g, m)
                    == old(self).language_channel_counts.count(g, m) + if g == message.language@
                    && m == message.channel_name@ {
                    1nat
                } else {
                    0nat
                },
            forall|b: Seq<char>, l: Seq<char>|
                #[trigger] final(self).range_language_counts.count(b, l)
                    == old(self).range_language_counts.count(b, l) + if b == bucket_label(
                    message.viewer_count as int,
                ) && l == message.language@ {
                    1nat
                } else {
                    0nat
                },
    {
        assert(self.language_channel_counts.count(message.language@, message.channel_name@)
            <= self.total_messages);
        self.language_channel_counts.add(&message.language, &message.channel_name, 1);
        let bucket = viewer_bucket(message.viewer_count);
        assert(self.range_language_counts.count(bucket@, message.language@) <= self.total_messages);
        self.range_language_counts.add(&bucket, &message.language, 1);
        self.total_messages = self.total_messages + 1;
    }

    /// Counts each decoded record of `candidates`, in order, and skips those
    /// that failed to decode. Returns how many were counted.
    pub fn process_candidates(&mut self, candidates: Vec<Option<ChatMessage>>) -> (r: u64)
        requires
            old(self).wf(),
            old(self).total_messages + candidates@.len() <= u64::MAX,
        ensures
            final(self).wf(),
            r == decoded(candidates@).len(),
            final(self).total_messages == old(self).total_messages + r,
            forall|g: Seq<char>, m: Seq<char>|
                #[trigger] final(self).language_channel_counts.count(g, m)
                    == old(self).language_channel_counts.count(g, m) + channel_tally(
                    decoded(candidates@),
                    g,
                    m,
                ),
            forall|b: Seq<char>, l: Seq<char>|
                #[trigger] final(self).range_language_counts.count(b, l)
                    == old(self).range_language_counts.count(b, l) + bucket_tally(
                    decoded(candidates@),
                    b,
                    l,
                ),
    {
        let ghost cs = candidates@;
        let mut delivered: u64 = 0;
        let mut rest = candidates;
        let ghost mut seen: Seq<Option<ChatMessage>> = Seq::empty();
        // Walk the candidates in order by reversing them once.
        let mut pending: Vec<Option<ChatMessage>> = Vec::new();
        while rest.len() > 0
            invariant
                rest@ + pending@.reverse() == cs,
            decreases rest@.len(),
        {
            let c = rest.pop().unwrap();
            proof {
                assert(pending@.push(c).reverse() =~= seq![c] + pending@.reverse());
            }
            pending.push(c);
            assert(rest@ + pending@.reverse() =~= cs);
        }
        assert(pending@.reverse() =~= cs);
        let ghost old_self = *self;
        while pending.len() > 0
            invariant
                seen + pending@.reverse() == cs,
                self.wf(),
                delivered == decoded(seen).len(),
                self.total_messages == old_self.total_messages + delivered,
                old_self.total_messages + cs.len() <= u64::MAX,
                decoded(seen).len() <= seen.len(),
                forall|g: Seq<char>, m: Seq<char>|
                    #[trigger] self.language_channel_counts.count(g, m)
                        == old_self.language_channel_counts.count(g, m) + channel_tally(
                        decoded(seen),
                        g,
                        m,
                    ),
                forall|b: Seq<char>, l: Seq<char>|
                    #[trigger] self.range_language_counts.count(b, l)
                        == old_self.range_language_counts.count(b, l) + bucket_tally(
                        decoded(seen),
                        b,
                        l,
                    ),
            decreases pending@.len(),
        {
            let ghost before = seen;
            let c = pending.pop().unwrap();
            proof {
                assert(seen.push(c) + pending@.reverse() =~= cs) by {
                    assert(pending@.push(c).reverse() =~= seq![c] + pending@.reverse());
                }
            }
            match c {
                Some(message) => {
                    proof {
                        assert(before.push(Some(message)).drop_last() =~= before);
                    }
                    proof {
                        seen = seen.push(Some(message));
                    }
                    let ghost d0 = decoded(before);
                    self.process_message(message);
                    delivered = delivered + 1;
                    proof {
                        assert(decoded(seen) == d0.push(message));
                        assert(d0.push(message).drop_last() =~= d0);
                    }
                },
                None => {
                    proof {
                        assert(before.push(None).drop_last() =~= before);
                    }
                    proof {
                        seen = seen.push(None);
                    }
                },
            }
        }
        assert(seen =~= cs);
        delivered
    }

    /// Adds every count of `other`, the counts of another share of the
    /// records, to this one.
    pub fn merge(&mut self, other: &StreamingAggregators)
        requires
            old(self).wf(),
            other.wf(),
            old(self).total_messages + other.total_messages <= u64::MAX,
        ensures
            final(self).wf(),
            final(self).total_messages == old(self).total_messages + other.total_messages,
            forall|g: Seq<char>, m: Seq<char>|
                #[trigger] final(self).language_channel_counts.count(g, m)
                    == old(self).language_channel_counts.count(g, m)
                    + other.language_channel_counts.count(g, m),
            forall|b: Seq<char>, l: Seq<char>|
                #[trigger] final(self).range_language_counts.count(b, l)
                    == old(self).range_language_counts.count(b, l)
                    + other.range_language_counts.count(b, l),
    {
        self.language_channel_counts.merge_from(&other.language_channel_counts);
        self.range_language_counts.merge_from(&other.range_language_counts);
        self.total_messages = self.total_messages + other.total_messages;
    }
}

/// The candidates of an input split in two, decoded and counted share by
/// share, give the counts of the whole: the decoded records of the whole are
/// those of the first share followed by those of the second, and every count
/// of the whole is the sum of the shares' counts. With `merge`, this makes the
/// counts independent of how the input is divided among workers.
pub proof fn lemma_counts_split(a: Seq<Option<ChatMessage>>, b: Seq<Option<ChatMessage>>)
    ensures
        decoded(a + b) == decoded(a) + decoded(b),
        forall|g: Seq<char>, m: Seq<char>|
            #[trigger] channel_tally(decoded(a + b), g, m) == channel_tally(decoded(a), g, m)
                + channel_tally(decoded(b), g, m),
        forall|g: Seq<char>, m: Seq<char>|
            #[trigger] bucket_tally(decoded(a + b), g, m) == bucket_tally(decoded(a), g, m)
                + bucket_tally(decoded(b), g, m),
{
    lemma_decoded_concat(a, b);
    assert forall|g: Seq<char>, m: Seq<char>|
        #[trigger] channel_tally(decoded(a + b), g, m) == channel_tally(decoded(a), g, m)
            + channel_tally(decoded(b), g, m) by {
        lemma_tally_concat(decoded(a), decoded(b), g, m);
    }
    assert forall|g: Seq<char>, m: Seq<char>|
        #[trigger] bucket_tally(decoded(a + b), g, m) == bucket_tally(decoded(a), g, m)
            + bucket_tally(decoded(b), g, m) by {
        lemma_tally_concat(decoded(a), decoded(b), g, m);
    }
}

proof fn lemma_decoded_concat(a: Seq<Option<ChatMessage>>, b: Seq<Option<ChatMessage>>)
    ensures
        decoded(a + b) == decoded(a) + decoded(b),
    decreases b.len(),
{
    if b.len() == 0 {
        assert(a + b =~= a);
        assert(decoded(b) =~= Seq::<ChatMessage>::empty());
        assert(decoded(a) + decoded(b) =~= decoded(a));
    } else {
        assert((a + b).drop_last() =~= a + b.drop_last());
        assert((a + b).last() == b.last());
        lemma_decoded_concat(a, b.drop_last());
        match b.last() {
            Some(m) => {
                assert(decoded(a) + decoded(b.drop_last()).push(m) =~= (decoded(a) + decoded(
                    b.drop_last(),
                )).push(m));
            },
            None => {},
        }
    }
}

proof fn lemma_tally_concat(a: Seq<ChatMessage>, b: Seq<ChatMessage>, g: Seq<char>, m: Seq<char>)
    ensures
        channel_tally(a + b, g, m) == channel_tally(a, g, m) + channel_tally(b, g, m),
        bucket_tally(a + b, g, m) == bucket_tally(a, g, m) + bucket_tally(b, g, m),
    decreases b.len(),
{
    if b.len() == 0 {
        assert(a + b =~= a);
    } else {
        assert((a + b).drop_last() =~= a + b.drop_last());
        assert((a + b).last() == b.last());
        lemma_tally_concat(a, b.drop_last(), g, m);
    }
}

/// Input cut in two where the scanner is at rest, framed and counted chunk
/// by chunk, gives the counts of the input framed and counted whole, for any
/// way `dec` of decoding an object text that depends on the text alone.
/// Every count of the whole is the sum of the two chunks' counts, which
/// `merge` adds up; so the counts do not depend on the number of workers as
/// long as each cut falls between top-level objects.
pub proof fn lemma_chunks_count_as_whole(
    a: Seq<u8>,
    b: Seq<u8>,
    dec: spec_fn(Seq<u8>) -> Option<ChatMessage>,
)
    requires
        scan(at_rest(), a).0 == at_rest(),
    ensures
        ({
            let whole = decoded(scan(at_rest(), a + b).1.map_values(dec));
            let first = decoded(scan(at_rest(), a).1.map_values(dec));
            let second = decoded(scan(at_rest(), b).1.map_values(dec));
            &&& whole == first + second
            &&& forall|g: Seq<char>, m: Seq<char>|
                #[trigger] channel_tally(whole, g, m) == channel_tally(first, g, m)
                    + channel_tally(second, g, m)
            &&& forall|g: Seq<char>, m: Seq<char>|
                #[trigger] bucket_tally(whole, g, m) == bucket_tally(first, g, m) + bucket_tally(
                    second,
                    g,
                    m,
                )
        }),
{
    lemma_scan_concat(at_rest(), a, b);
    let oa = scan(at_rest(), a).1;
    let ob = scan(at_rest(), b).1;
    assert((oa + ob).map_values(dec) =~= oa.map_values(dec) + ob.map_values(dec));
    lemma_counts_split(oa.map_values(dec), ob.map_values(dec));
}

} // verus!
