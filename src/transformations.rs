use crate::channel_message_count::ChannelMessageCount;
use crate::count_table::{
    lemma_group_total_absent,
    lemma_group_total_at,
    lemma_member_total_at,
    member_total,
    ranks_top,
    top_members,
    GroupedCounts,
    MemberCount,
};
use crate::language_message_count::LanguageMessageCount;
use crate::streaming_aggregators::StreamingAggregators;
use crate::top_channels_result::TopChannelsByLanguageResult;
use crate::top_languages_result::TopLanguagesByViewerRangeResult;
use vstd::prelude::*;
use vstd::string::StringExecFns;

verus! {

/// How many channels each language's ranking keeps.
pub const TOP_CHANNELS: usize = 3;

/// How many languages each viewer range's ranking keeps.
pub const TOP_LANGUAGES: usize = 5;

/// A channel ranking read as member counts.
pub open spec fn channel_entries(v: Seq<ChannelMessageCount>) -> Seq<MemberCount> {
    v.map_values(|c: ChannelMessageCount| MemberCount { name: c.channel_name, count: c.message_count })
}

/// A language ranking read as member counts.
pub open spec fn language_entries(v: Seq<LanguageMessageCount>) -> Seq<MemberCount> {
    v.map_values(|c: LanguageMessageCount| MemberCount { name: c.language, count: c.message_count })
}

/// Where a viewer range's report goes: the four ranges in increasing order,
/// then any other label.
pub open spec fn bucket_rank(label: Seq<char>) -> nat {
    if label == "0-100"@ {
        0
    } else if label == "101-500"@ {
        1
    } else if label == "501-1000"@ {
        2
    } else if label == "1000+"@ {
        3
    } else {
        4
    }
}

fn range_rank(label: &String) -> (r: u64)
    ensures
        r == bucket_rank(label@),
{
    if *label == String::from_str("0-100") {
        0
    } else if *label == String::from_str("101-500") {
        1
    } else if *label == String::from_str("501-1000") {
        2
    } else if *label == String::from_str("1000+") {
        3
    } else {
        4
    }
}

/// The top `k` members of group `gs[i]`, ranked by the counts of `t`.
fn rank_group(t: &GroupedCounts, i: usize, k: usize) -> (r: Vec<MemberCount>)
    requires
        t.wf(),
        i < t.groups@.len(),
    ensures
        ranks_top(r@, |m: Seq<char>| t.count(t.groups@[i as int].key@, m), k as nat),
        k > 0 ==> r@.len() > 0,
{
    let grp = &t.groups[i];
    let r = top_members(&grp.members, k);
    proof {
        let f = |m: Seq<char>| member_total(grp.members@, m);
        let h = |m: Seq<char>| t.count(t.groups@[i as int].key@, m);
        assert forall|m: Seq<char>| #[trigger] f(m) == h(m) by {
            lemma_group_total_at(t.groups@, i as int, m);
        }
        assert(f =~= h);
        if k > 0 {
            let m0 = grp.members@[0].name@;
            lemma_member_total_at(grp.members@, 0);
            if r@.len() == 0 {
                assert(h(m0) > 0);
                assert(forall|j: int| 0 <= j < r@.len() ==> r@[j].name@ != m0);
            }
        }
    }
    r
}

fn to_channel_counts(v: &Vec<MemberCount>) -> (r: Vec<ChannelMessageCount>)
    ensures
        channel_entries(r@) == v@,
{
    let mut r: Vec<ChannelMessageCount> = Vec::new();
    let mut j: usize = 0;
    while j < v.len()
        invariant
            0 <= j <= v@.len(),
            r@.len() == j,
            channel_entries(r@) == v@.take(j as int),
        decreases v@.len() - j,
    {
        let ghost old_r = r@;
        r.push(ChannelMessageCount { channel_name: v[j].name.clone(), message_count: v[j].count });
        assert forall|k: int| 0 <= k < j + 1 implies #[trigger] channel_entries(r@)[k] == v@.take(j + 1)[k] by {
            if k < j {
                assert(r@[k] == old_r[k]);
                assert(channel_entries(old_r)[k] == v@.take(j as int)[k]);
            }
        }
        assert(channel_entries(r@) =~= v@.take(j + 1));
        j = j + 1;
    }
    assert(v@.take(j as int) =~= v@);
    r
}

fn to_language_counts(v: &Vec<MemberCount>) -> (r: Vec<LanguageMessageCount>)
    ensures
        language_entries(r@) == v@,
{
    let mut r: Vec<LanguageMessageCount> = Vec::new();
    let mut j: usize = 0;
    while j < v.len()
        invariant
            0 <= j <= v@.len(),
            r@.len() == j,
            language_entries(r@) == v@.take(j as int),
        decreases v@.len() - j,
    {
        let ghost old_r = r@;
        r.push(LanguageMessageCount { language: v[j].name.clone(), message_count: v[j].count });
        assert forall|k: int| 0 <= k < j + 1 implies #[trigger] language_entries(r@)[k] == v@.take(j + 1)[k] by {
            if k < j {
                assert(r@[k] == old_r[k]);
                assert(language_entries(old_r)[k] == v@.take(j as int)[k]);
            }
        }
        assert(language_entries(r@) =~= v@.take(j + 1));
        j = j + 1;
    }
    assert(v@.take(j as int) =~= v@);
    r
}

proof fn lemma_group_key_present(t: GroupedCounts, g: Seq<char>, m: Seq<char>) -> (i: int)
    requires
        t.count(g, m) > 0,
    ensures
        0 <= i < t.groups@.len(),
        t.groups@[i].key@ == g,
{
    if forall|i: int| 0 <= i < t.groups@.len() ==> (#[trigger] t.groups@[i]).key@ != g {
        lemma_group_total_absent(t.groups@, g, m);
    }
    choose|i: int| 0 <= i < t.groups@.len() && (#[trigger] t.groups@[i]).key@ == g
}

/// For each language, its three channels with the most records, most first.
///
/// There is one entry per language that has a record, and none for another;
/// the order of the languages is left open, as is the order of two channels
/// with equal counts.
pub fn generate_top_channels_results(aggregators: &StreamingAggregators) -> (r: Vec<
    TopChannelsByLanguageResult,
>)
    requires
        aggregators.wf(),
    ensures
        ({
            let t = aggregators.language_channel_counts;
            &&& forall|i: int|
                0 <= i < r@.len() ==> {
                    &&& ranks_top(
                        channel_entries((#[trigger] r@[i]).top_channels@),
                        |m: Seq<char>| t.count(r@[i].language@, m),
                        TOP_CHANNELS as nat,
                    )
                    &&& r@[i].top_channels@.len() > 0
                }
            &&& forall|i: int, j: int|
                0 <= i < r@.len() && 0 <= j < r@.len() && i != j ==> #[trigger] r@[i].language@
                    != #[trigger] r@[j].language@
            &&& forall|g: Seq<char>, m: Seq<char>|
                #[trigger] t.count(g, m) > 0 ==> exists|i: int|
                    0 <= i < r@.len() && (#[trigger] r@[i]).language@ == g
        }),
{
    let t = &aggregators.language_channel_counts;
    let mut r: Vec<TopChannelsByLanguageResult> = Vec::new();
    let mut i: usize = 0;
    while i < t.groups.len()
        invariant
            t.wf(),
            0 <= i <= t.groups@.len(),
            r@.len() == i,
            forall|j: int|
                0 <= j < i ==> {
                    &&& (#[trigger] r@[j]).language@ == t.groups@[j].key@
                    &&& ranks_top(
                        channel_entries(r@[j].top_channels@),
                        |m: Seq<char>| t.count(r@[j].language@, m),
                        TOP_CHANNELS as nat,
                    )
                    &&& r@[j].top_channels@.len() > 0
                },
        decreases t.groups@.len() - i,
    {
        let top = rank_group(t, i, TOP_CHANNELS);
        let channels = to_channel_counts(&top);
        r.push(TopChannelsByLanguageResult { language: t.groups[i].key.clone(), top_channels: channels });
        proof {
            assert(r@[i as int].top_channels@ == channels@);
        }
        i = i + 1;
    }
    proof {
        assert forall|a: int, b: int|
            0 <= a < r@.len() && 0 <= b < r@.len() && a != b implies #[trigger] r@[a].language@
            != #[trigger] r@[b].language@ by {
            assert(r@[a].language@ == t.groups@[a].key@);
            assert(r@[b].language@ == t.groups@[b].key@);
        }
        assert forall|g: Seq<char>, m: Seq<char>| #[trigger] t.count(g, m) > 0 implies exists|a: int|
            0 <= a < r@.len() && (#[trigger] r@[a]).language@ == g by {
            let a = lemma_group_key_present(*t, g, m);
            assert(r@[a].language@ == g);
        }
    }
    r
}

/// The report of one viewer range ranks its languages by the counts of `t`.
pub open spec fn ranks_range(t: GroupedCounts, e: TopLanguagesByViewerRangeResult) -> bool {
    &&& ranks_top(
        language_entries(e.top_languages@),
        |l: Seq<char>| t.count(e.viewer_range@, l),
        TOP_LANGUAGES as nat,
    )
    &&& e.top_languages@.len() > 0
}

/// For each viewer range, its five languages with the most records, most
/// first; the ranges come in the order "0-100", "101-500", "501-1000",
/// "1000+", then any other label.
///
/// There is one entry per range that has a record, and none for another;
/// the order of two languages with equal counts is left open.
pub fn generate_top_languages_results(aggregators: &StreamingAggregators) -> (r: Vec<
    TopLanguagesByViewerRangeResult,
>)
    requires
        aggregators.wf(),
    ensures
        ({
            let t = aggregators.range_language_counts;
            &&& forall|i: int| 0 <= i < r@.len() ==> ranks_range(t, #[trigger] r@[i])
            &&& forall|i: int, j: int|
                0 <= i < r@.len() && 0 <= j < r@.len() && i != j ==> #[trigger] r@[i].viewer_range@
                    != #[trigger] r@[j].viewer_range@
            &&& forall|b: Seq<char>, l: Seq<char>|
                #[trigger] t.count(b, l) > 0 ==> exists|i: int|
                    0 <= i < r@.len() && (#[trigger] r@[i]).viewer_range@ == b
            &&& forall|i: int, j: int|
                0 <= i <= j < r@.len() ==> bucket_rank((#[trigger] r@[i]).viewer_range@)
                    <= bucket_rank((#[trigger] r@[j]).viewer_range@)
        }),
{
    let t = &aggregators.range_language_counts;
    let ghost gs = t.groups@;
    let mut r: Vec<TopLanguagesByViewerRangeResult> = Vec::new();
    let ghost mut src: Seq<int> = Seq::empty();
    let mut pass: u64 = 0;
    while pass < 5
        invariant
            t.wf(),
            gs == t.groups@,
            0 <= pass <= 5,
            r@.len() == src.len(),
            forall|j: int|
                #![trigger r@[j]]
                #![trigger src[j]]
                0 <= j < r@.len() ==> {
                    &&& 0 <= src[j] < gs.len()
                    &&& r@[j].viewer_range@ == gs[src[j]].key@
                    &&& bucket_rank(gs[src[j]].key@) < pass
                    &&& ranks_range(*t, r@[j])
                },
            forall|a: int, b: int|
                0 <= a < src.len() && 0 <= b < src.len() && a != b ==> #[trigger] src[a]
                    != #[trigger] src[b],
            forall|a: int, b: int|
                0 <= a <= b < r@.len() ==> bucket_rank((#[trigger] r@[a]).viewer_range@)
                    <= bucket_rank((#[trigger] r@[b]).viewer_range@),
            forall|g: int|
                0 <= g < gs.len() && bucket_rank(#[trigger] gs[g].key@) < pass ==> src.contains(g),
        decreases 5 - pass,
    {
        let mut i: usize = 0;
        assert(r@.len() == src.len());
        assert(forall|j: int| #![trigger r@[j]] 0 <= j < r@.len() ==> 0 <= src[j] < gs.len());
        while i < t.groups.len()
            invariant
                t.wf(),
                gs == t.groups@,
                0 <= pass < 5,
                0 <= i <= gs.len(),
                r@.len() == src.len(),
                forall|j: int|
                    #![trigger r@[j]]
                    #![trigger src[j]]
                    0 <= j < r@.len() ==> {
                        &&& 0 <= src[j] < gs.len()
                        &&& r@[j].viewer_range@ == gs[src[j]].key@
                        &&& (bucket_rank(gs[src[j]].key@) < pass || (bucket_rank(gs[src[j]].key@)
                            == pass && src[j] < i))
                        &&& ranks_range(*t, r@[j])
                    },
                forall|a: int, b: int|
                    0 <= a < src.len() && 0 <= b < src.len() && a != b ==> #[trigger] src[a]
                        != #[trigger] src[b],
                forall|a: int, b: int|
                    0 <= a <= b < r@.len() ==> bucket_rank((#[trigger] r@[a]).viewer_range@)
                        <= bucket_rank((#[trigger] r@[b]).viewer_range@),
                forall|g: int|
                    0 <= g < gs.len() && (bucket_rank(#[trigger] gs[g].key@) < pass || (
                    bucket_rank(gs[g].key@) == pass && g < i)) ==> src.contains(g),
            decreases gs.len() - i,
        {
            if range_rank(&t.groups[i].key) == pass {
                let top = rank_group(t, i, TOP_LANGUAGES);
                let languages = to_language_counts(&top);
                let ghost old_src = src;
                let ghost old_r = r@;
                let e = TopLanguagesByViewerRangeResult {
                    viewer_range: t.groups[i].key.clone(),
                    top_languages: languages,
                };
                assert(ranks_range(*t, e));
                r.push(e);
                proof {
                    src = src.push(i as int);
                    assert forall|j: int| 0 <= j < r@.len() implies {
                        &&& 0 <= src[j] < gs.len()
                        &&& (#[trigger] r@[j]).viewer_range@ == gs[src[j]].key@
                        &&& (bucket_rank(gs[src[j]].key@) < pass || (bucket_rank(gs[src[j]].key@)
                            == pass && src[j] < i + 1))
                        &&& ranks_range(*t, r@[j])
                    } by {
                        if j < old_r.len() {
                            assert(r@[j] == old_r[j]);
                            assert(src[j] == old_src[j]);
                        } else {
                            assert(r@[j] == e);
                            assert(src[j] == i);
                        }
                    }
                    assert forall|a: int, b: int|
                        0 <= a < src.len() && 0 <= b < src.len() && a != b implies #[trigger] src[a]
                        != #[trigger] src[b] by {
                        if a < old_src.len() {
                            assert(r@[a] == old_r[a]);
                            assert(src[a] == old_src[a]);
                        }
                        if b < old_src.len() {
                            assert(r@[b] == old_r[b]);
                            assert(src[b] == old_src[b]);
                        }
                    }
                    assert forall|a: int, b: int|
                        0 <= a <= b < r@.len() implies bucket_rank((#[trigger] r@[a]).viewer_range@)
                        <= bucket_rank((#[trigger] r@[b]).viewer_range@) by {
                        if b == r@.len() - 1 {
                            if a < old_r.len() {
                                assert(r@[a] == old_r[a]);
                            }
                        } else {
                            assert(r@[a] == old_r[a] && r@[b] == old_r[b]);
                        }
                    }
                    assert forall|g: int|
                        0 <= g < gs.len() && (bucket_rank(#[trigger] gs[g].key@) < pass || (
                        bucket_rank(gs[g].key@) == pass && g < i + 1)) implies src.contains(g) by {
                        if g == i {
                            assert(src[src.len() - 1] == g);
                        } else {
                            assert(old_src.contains(g));
                            let a = choose|a: int| 0 <= a < old_src.len() && old_src[a] == g;
                            assert(src[a] == g);
                        }
                    }
                }
            }
            i = i + 1;
        }
        pass = pass + 1;
    }
    proof {
        assert forall|a: int, b: int|
            0 <= a < r@.len() && 0 <= b < r@.len() && a != b implies #[trigger] r@[a].viewer_range@
            != #[trigger] r@[b].viewer_range@ by {
            assert(src[a] != src[b]);
        }
        assert forall|b: Seq<char>, l: Seq<char>| #[trigger] t.count(b, l) > 0 implies exists|a: int|
            0 <= a < r@.len() && (#[trigger] r@[a]).viewer_range@ == b by {
            let g = lemma_group_key_present(*t, b, l);
            assert(bucket_rank(gs[g].key@) < 5);
            assert(src.contains(g));
            let a = choose|a: int| 0 <= a < src.len() && src[a] == g;
            assert(r@[a].viewer_range@ == b);
        }
    }
    r
}

} // verus!
