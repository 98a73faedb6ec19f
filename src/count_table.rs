use vstd::prelude::*;

verus! {

/// One member of a group and how many records counted it.
pub struct MemberCount {
    pub name: String,
    pub count: u64,
}

/// What the entries of a member list count for member `m`, summed.
pub open spec fn member_total(ms: Seq<MemberCount>, m: Seq<char>) -> nat
    decreases ms.len(),
{
    if ms.len() == 0 {
        0
    } else {
        member_total(ms.drop_last(), m) + if ms.last().name@ == m {
            ms.last().count as nat
        } else {
            0
        }
    }
}

/// No two entries of a member list name the same member, and every entry
/// counts at least once.
pub open spec fn members_wf(ms: Seq<MemberCount>) -> bool {
    &&& forall|i: int, j: int|
        0 <= i < ms.len() && 0 <= j < ms.len() && i != j ==> #[trigger] ms[i].name@
            != #[trigger] ms[j].name@
    &&& forall|i: int| 0 <= i < ms.len() ==> (#[trigger] ms[i]).count >= 1
}

proof fn lemma_member_total_absent(ms: Seq<MemberCount>, m: Seq<char>)
    requires
        forall|i: int| 0 <= i < ms.len() ==> (#[trigger] ms[i]).name@ != m,
    ensures
        member_total(ms, m) == 0,
    decreases ms.len(),
{
    if ms.len() > 0 {
        let init = ms.drop_last();
        assert forall|i: int| 0 <= i < init.len() implies (#[trigger] init[i]).name@ != m by {
            assert(init[i] == ms[i]);
        }
        lemma_member_total_absent(init, m);
        assert(ms.last() == ms[ms.len() - 1]);
    }
}

pub(crate) proof fn lemma_member_total_at(ms: Seq<MemberCount>, j: int)
    requires
        members_wf(ms),
        0 <= j < ms.len(),
    ensures
        member_total(ms, ms[j].name@) == ms[j].count,
    decreases ms.len(),
{
    let init = ms.drop_last();
    assert(members_wf(init)) by {
        assert forall|a: int, b: int|
            0 <= a < init.len() && 0 <= b < init.len() && a != b implies #[trigger] init[a].name@
            != #[trigger] init[b].name@ by {
            assert(init[a] == ms[a] && init[b] == ms[b]);
        }
        assert forall|a: int| 0 <= a < init.len() implies (#[trigger] init[a]).count >= 1 by {
            assert(init[a] == ms[a]);
        }
    }
    if j == ms.len() - 1 {
        assert forall|i: int| 0 <= i < init.len() implies (#[trigger] init[i]).name@ != ms[j].name@ by {
            assert(init[i] == ms[i]);
        }
        lemma_member_total_absent(init, ms[j].name@);
    } else {
        assert(init[j] == ms[j]);
        lemma_member_total_at(init, j);
        assert(ms.last().name@ != ms[j].name@);
    }
}

proof fn lemma_member_total_update(ms: Seq<MemberCount>, j: int, e: MemberCount, m: Seq<char>)
    requires
        0 <= j < ms.len(),
        e.name@ == ms[j].name@,
    ensures
        member_total(ms.update(j, e), m) + (if ms[j].name@ == m {
            ms[j].count as nat
        } else {
            0
        }) == member_total(ms, m) + (if ms[j].name@ == m {
            e.count as nat
        } else {
            0
        }),
    decreases ms.len(),
{
    let u = ms.update(j, e);
    if j == ms.len() - 1 {
        assert(u.drop_last() =~= ms.drop_last());
    } else {
        assert(u.drop_last() =~= ms.drop_last().update(j, e));
        lemma_member_total_update(ms.drop_last(), j, e, m);
    }
}

proof fn lemma_member_total_prefix(ms: Seq<MemberCount>, i: int, m: Seq<char>)
    requires
        0 <= i <= ms.len(),
    ensures
        member_total(ms.take(i), m) <= member_total(ms, m),
    decreases ms.len() - i,
{
    if i < ms.len() {
        lemma_member_total_prefix(ms, i + 1, m);
        assert(ms.take(i + 1).drop_last() =~= ms.take(i));
    } else {
        assert(ms.take(i) =~= ms);
    }
}

/// Adds `amount` to the count of member `name`, adding an entry for it when
/// it has none.
fn add_to_members(ms: &mut Vec<MemberCount>, name: &String, amount: u64)
    requires
        members_wf(old(ms)@),
        amount >= 1,
        member_total(old(ms)@, name@) + amount <= u64::MAX,
    ensures
        members_wf(final(ms)@),
        forall|m: Seq<char>|
            #[trigger] member_total(final(ms)@, m) == member_total(old(ms)@, m) + if m == name@ {
                amount as nat
            } else {
                0
            },
{
    let mut j: usize = 0;
    while j < ms.len()
        invariant
            ms@ == old(ms)@,
            members_wf(ms@),
            member_total(ms@, name@) + amount <= u64::MAX,
            0 <= j <= ms@.len(),
            forall|i: int| 0 <= i < j ==> (#[trigger] ms@[i]).name@ != name@,
        decreases ms@.len() - j,
    {
        if ms[j].name == *name {
            proof {
                lemma_member_total_at(ms@, j as int);
            }
            let c = ms[j].count;
            let ghost old_ms = ms@;
            let e = MemberCount { name: ms[j].name.clone(), count: c + amount };
            ms.set(j, e);
            proof {
                assert(ms@ == old_ms.update(j as int, e));
                assert forall|m: Seq<char>|
                    #[trigger] member_total(ms@, m) == member_total(old_ms, m) + if m == name@ {
                        amount as nat
                    } else {
                        0
                    } by {
                    lemma_member_total_update(old_ms, j as int, e, m);
                }
                assert forall|a: int, b: int|
                    0 <= a < ms@.len() && 0 <= b < ms@.len() && a != b implies #[trigger] ms@[a].name@
                    != #[trigger] ms@[b].name@ by {
                    assert(old_ms[a].name@ == ms@[a].name@);
                    assert(old_ms[b].name@ == ms@[b].name@);
                    assert(old_ms[a].name@ != old_ms[b].name@);
                }
                assert forall|a: int| 0 <= a < ms@.len() implies (#[trigger] ms@[a]).count >= 1 by {
                    assert(old_ms[a].count <= ms@[a].count);
                }
            }
            return;
        }
        j = j + 1;
    }
    let ghost old_ms = ms@;
    proof {
        lemma_member_total_absent(old_ms, name@);
    }
    ms.push(MemberCount { name: name.clone(), count: amount });
    proof {
        assert(ms@.drop_last() =~= old_ms);
        assert forall|m: Seq<char>|
            #[trigger] member_total(ms@, m) == member_total(old_ms, m) + if m == name@ {
                amount as nat
            } else {
                0
            } by {
            assert(ms@.last().name@ == name@);
        }
        assert forall|a: int, b: int|
            0 <= a < ms@.len() && 0 <= b < ms@.len() && a != b implies #[trigger] ms@[a].name@
            != #[trigger] ms@[b].name@ by {
            if a < old_ms.len() {
                assert(ms@[a] == old_ms[a]);
            }
            if b < old_ms.len() {
                assert(ms@[b] == old_ms[b]);
            }
        }
        assert forall|a: int| 0 <= a < ms@.len() implies (#[trigger] ms@[a]).count >= 1 by {
            if a < old_ms.len() {
                assert(ms@[a] == old_ms[a]);
            }
        }
    }
}

/// The members counted under one group key.
pub struct GroupCounts {
    pub key: String,
    pub members: Vec<MemberCount>,
}

/// What the groups of a list count for member `m` of group `g`, summed.
pub open spec fn group_total(gs: Seq<GroupCounts>, g: Seq<char>, m: Seq<char>) -> nat
    decreases gs.len(),
{
    if gs.len() == 0 {
        0
    } else {
        group_total(gs.drop_last(), g, m) + if gs.last().key@ == g {
            member_total(gs.last().members@, m)
        } else {
            0
        }
    }
}

/// No two groups share a key, and each group has well-formed members, at
/// least one.
pub open spec fn groups_wf(gs: Seq<GroupCounts>) -> bool {
    &&& forall|i: int, j: int|
        0 <= i < gs.len() && 0 <= j < gs.len() && i != j ==> #[trigger] gs[i].key@
            != #[trigger] gs[j].key@
    &&& forall|i: int|
        0 <= i < gs.len() ==> members_wf((#[trigger] gs[i]).members@) && gs[i].members@.len() > 0
}

pub(crate) proof fn lemma_group_total_absent(gs: Seq<GroupCounts>, g: Seq<char>, m: Seq<char>)
    requires
        forall|i: int| 0 <= i < gs.len() ==> (#[trigger] gs[i]).key@ != g,
    ensures
        group_total(gs, g, m) == 0,
    decreases gs.len(),
{
    if gs.len() > 0 {
        let init = gs.drop_last();
        assert forall|i: int| 0 <= i < init.len() implies (#[trigger] init[i]).key@ != g by {
            assert(init[i] == gs[i]);
        }
        lemma_group_total_absent(init, g, m);
        assert(gs.last() == gs[gs.len() - 1]);
    }
}

pub(crate) proof fn lemma_group_total_at(gs: Seq<GroupCounts>, i: int, m: Seq<char>)
    requires
        groups_wf(gs),
        0 <= i < gs.len(),
    ensures
        group_total(gs, gs[i].key@, m) == member_total(gs[i].members@, m),
    decreases gs.len(),
{
    let init = gs.drop_last();
    assert(groups_wf(init)) by {
        assert forall|a: int, b: int|
            0 <= a < init.len() && 0 <= b < init.len() && a != b implies #[trigger] init[a].key@
            != #[trigger] init[b].key@ by {
            assert(init[a] == gs[a] && init[b] == gs[b]);
        }
        assert forall|a: int| 0 <= a < init.len() implies members_wf((#[trigger] init[a]).members@)
            && init[a].members@.len() > 0 by {
            assert(init[a] == gs[a]);
        }
    }
    if i == gs.len() - 1 {
        assert forall|a: int| 0 <= a < init.len() implies (#[trigger] init[a]).key@ != gs[i].key@ by {
            assert(init[a] == gs[a]);
        }
        lemma_group_total_absent(init, gs[i].key@, m);
    } else {
        assert(init[i] == gs[i]);
        lemma_group_total_at(init, i, m);
        assert(gs.last().key@ != gs[i].key@);
    }
}

proof fn lemma_group_total_update(
    gs: Seq<GroupCounts>,
    i: int,
    e: GroupCounts,
    g: Seq<char>,
    m: Seq<char>,
)
    requires
        0 <= i < gs.len(),
        e.key@ == gs[i].key@,
    ensures
        group_total(gs.update(i, e), g, m) + (if gs[i].key@ == g {
            member_total(gs[i].members@, m)
        } else {
            0
        }) == group_total(gs, g, m) + (if gs[i].key@ == g {
            member_total(e.members@, m)
        } else {
            0
        }),
    decreases gs.len(),
{
    let u = gs.update(i, e);
    if i == gs.len() - 1 {
        assert(u.drop_last() =~= gs.drop_last());
    } else {
        assert(u.drop_last() =~= gs.drop_last().update(i, e));
        lemma_group_total_update(gs.drop_last(), i, e, g, m);
    }
}

proof fn lemma_group_total_prefix(gs: Seq<GroupCounts>, i: int, g: Seq<char>, m: Seq<char>)
    requires
        0 <= i <= gs.len(),
    ensures
        group_total(gs.take(i), g, m) <= group_total(gs, g, m),
    decreases gs.len() - i,
{
    if i < gs.len() {
        lemma_group_total_prefix(gs, i + 1, g, m);
        assert(gs.take(i + 1).drop_last() =~= gs.take(i));
    } else {
        assert(gs.take(i) =~= gs);
    }
}

/// Counts keyed by group, then by member: how many records fell under each
/// (group, member) pair.
///
/// Groups and members are kept in lists in the order they were first seen,
/// and found by comparing names.
pub struct GroupedCounts {
    pub groups: Vec<GroupCounts>,
}

impl GroupedCounts {
    /// How many records counted member `m` of group `g`.
    pub open spec fn count(&self, g: Seq<char>, m: Seq<char>) -> nat {
        group_total(self.groups@, g, m)
    }

    pub open spec fn wf(&self) -> bool {
        groups_wf(self.groups@)
    }

    /// No counts at all.
    pub fn new() -> (r: GroupedCounts)
        ensures
            r.wf(),
            forall|g: Seq<char>, m: Seq<char>| #[trigger] r.count(g, m) == 0,
    {
        GroupedCounts { groups: Vec::new() }
    }

    /// Counts member `m` of group `g` `amount` more times.
    pub fn add(&mut self, g: &String, m: &String, amount: u64)
        requires
            old(self).wf(),
            amount >= 1,
            old(self).count(g@, m@) + amount <= u64::MAX,
        ensures
            final(self).wf(),
            forall|g2: Seq<char>, m2: Seq<char>|
                #[trigger] final(self).count(g2, m2) == old(self).count(g2, m2) + if g2 == g@ && m2
                    == m@ {
                    amount as nat
                } else {
                    0
                },
    {
        let mut i: usize = 0;
        while i < self.groups.len()
            invariant
                self.groups@ == old(self).groups@,
                groups_wf(self.groups@),
                group_total(self.groups@, g@, m@) + amount <= u64::MAX,
                amount >= 1,
                0 <= i <= self.groups@.len(),
                forall|a: int| 0 <= a < i ==> (#[trigger] self.groups@[a]).key@ != g@,
            decreases self.groups@.len() - i,
        {
            if self.groups[i].key == *g {
                let ghost old_gs = self.groups@;
                proof {
                    lemma_group_total_at(old_gs, i as int, m@);
                }
                let mut members: Vec<MemberCount> = Vec::new();
                let key = self.groups[i].key.clone();
                std::mem::swap(&mut members, &mut self.groups[i].members);
                let ghost old_members = members@;
                assert(old_members == old_gs[i as int].members@);
                add_to_members(&mut members, m, amount);
                let e = GroupCounts { key, members };
                self.groups.set(i, e);
                proof {
                    let gs = self.groups@;
                    assert(gs == old_gs.update(i as int, e));
                    assert forall|g2: Seq<char>, m2: Seq<char>|
                        #[trigger] group_total(gs, g2, m2) == group_total(old_gs, g2, m2) + if g2
                            == g@ && m2 == m@ {
                            amount as nat
                        } else {
                            0
                        } by {
                        lemma_group_total_update(old_gs, i as int, e, g2, m2);
                    }
                    assert forall|a: int, b: int|
                        0 <= a < gs.len() && 0 <= b < gs.len() && a != b implies #[trigger] gs[a].key@
                        != #[trigger] gs[b].key@ by {
                        assert(old_gs[a].key@ == gs[a].key@);
                        assert(old_gs[b].key@ == gs[b].key@);
                    }
                    assert forall|a: int| 0 <= a < gs.len() implies members_wf(
                        (#[trigger] gs[a]).members@,
                    ) && gs[a].members@.len() > 0 by {
                        if a == i {
                            assert(member_total(e.members@, m@) > 0);
                            if e.members@.len() == 0 {
                                assert(member_total(e.members@, m@) == 0);
                            }
                        } else {
                            assert(gs[a] == old_gs[a]);
                        }
                    }
                }
                return;
            }
            i = i + 1;
        }
        let ghost old_gs = self.groups@;
        proof {
            lemma_group_total_absent(old_gs, g@, m@);
        }
        let mut members: Vec<MemberCount> = Vec::new();
        add_to_members(&mut members, m, amount);
        proof {
            assert(member_total(members@, m@) > 0);
            if members@.len() == 0 {
                assert(member_total(members@, m@) == 0);
            }
        }
        self.groups.push(GroupCounts { key: g.clone(), members });
        proof {
            let gs = self.groups@;
            assert(gs.drop_last() =~= old_gs);
            assert forall|g2: Seq<char>, m2: Seq<char>|
                #[trigger] group_total(gs, g2, m2) == group_total(old_gs, g2, m2) + if g2 == g@ && m2
                    == m@ {
                    amount as nat
                } else {
                    0
                } by {
                assert(gs.last().key@ == g@);
                if g2 == g@ {
                    assert(member_total(Seq::<MemberCount>::empty(), m2) == 0);
                }
            }
            assert forall|a: int, b: int|
                0 <= a < gs.len() && 0 <= b < gs.len() && a != b implies #[trigger] gs[a].key@
                != #[trigger] gs[b].key@ by {
                if a < old_gs.len() {
                    assert(gs[a] == old_gs[a]);
                }
                if b < old_gs.len() {
                    assert(gs[b] == old_gs[b]);
                }
            }
            assert forall|a: int| 0 <= a < gs.len() implies members_wf((#[trigger] gs[a]).members@)
                && gs[a].members@.len() > 0 by {
                if a < old_gs.len() {
                    assert(gs[a] == old_gs[a]);
                }
            }
        }
    }

    /// Adds every count of `other` to this one.
    pub fn merge_from(&mut self, other: &GroupedCounts)
        requires
            old(self).wf(),
            other.wf(),
            forall|g: Seq<char>, m: Seq<char>|
                #[trigger] old(self).count(g, m) + other.count(g, m) <= u64::MAX,
        ensures
            final(self).wf(),
            forall|g: Seq<char>, m: Seq<char>|
                #[trigger] final(self).count(g, m) == old(self).count(g, m) + other.count(g, m),
    {
        let ghost og = other.groups@;
        let mut i: usize = 0;
        assert(og.take(0) =~= Seq::<GroupCounts>::empty());
        while i < other.groups.len()
            invariant
                og == other.groups@,
                groups_wf(og),
                self.wf(),
                0 <= i <= og.len(),
                forall|g: Seq<char>, m: Seq<char>|
                    #[trigger] old(self).count(g, m) + other.count(g, m) <= u64::MAX,
                forall|g: Seq<char>, m: Seq<char>|
                    #[trigger] self.count(g, m) == old(self).count(g, m) + group_total(
                        og.take(i as int),
                        g,
                        m,
                    ),
            decreases og.len() - i,
        {
            let grp = &other.groups[i];
            let ghost ms = grp.members@;
            assert(members_wf(ms));
            let mut j: usize = 0;
            assert(ms.take(0) =~= Seq::<MemberCount>::empty());
            while j < grp.members.len()
                invariant
                    og == other.groups@,
                    groups_wf(og),
                    0 <= i < og.len(),
                    *grp == og[i as int],
                    ms == grp.members@,
                    members_wf(ms),
                    self.wf(),
                    0 <= j <= ms.len(),
                    forall|g: Seq<char>, m: Seq<char>|
                        #[trigger] old(self).count(g, m) + other.count(g, m) <= u64::MAX,
                    forall|g: Seq<char>, m: Seq<char>|
                        #[trigger] self.count(g, m) == old(self).count(g, m) + group_total(
                            og.take(i as int),
                            g,
                            m,
                        ) + if g == grp.key@ {
                            member_total(ms.take(j as int), m)
                        } else {
                            0
                        },
                decreases ms.len() - j,
            {
                let mc = &grp.members[j];
                proof {
                    let key = grp.key@;
                    let name = mc.name@;
                    assert(ms.take(j + 1).drop_last() =~= ms.take(j as int));
                    assert(ms.take(j + 1).last() == ms[j as int]);
                    lemma_member_total_prefix(ms, j + 1, name);
                    assert(og.take(i + 1).drop_last() =~= og.take(i as int));
                    assert(og.take(i + 1).last() == og[i as int]);
                    lemma_group_total_prefix(og, i + 1, key, name);
                    assert(self.count(key, name) + mc.count <= old(self).count(key, name)
                        + other.count(key, name));
                }
                self.add(&grp.key, &mc.name, mc.count);
                proof {
                    assert forall|g: Seq<char>, m: Seq<char>|
                        #[trigger] self.count(g, m) == old(self).count(g, m) + group_total(
                            og.take(i as int),
                            g,
                            m,
                        ) + if g == grp.key@ {
                            member_total(ms.take(j + 1), m)
                        } else {
                            0
                        } by {
                        assert(ms.take(j + 1).drop_last() =~= ms.take(j as int));
                    }
                }
                j = j + 1;
            }
            proof {
                assert(ms.take(j as int) =~= ms);
                assert(og.take(i + 1).drop_last() =~= og.take(i as int));
                assert(og.take(i + 1).last() == og[i as int]);
            }
            i = i + 1;
        }
        proof {
            assert(og.take(i as int) =~= og);
        }
    }

    /// How many records counted member `m` of group `g`.
    pub fn count_of(&self, g: &String, m: &String) -> (r: u64)
        requires
            self.wf(),
        ensures
            r == self.count(g@, m@),
    {
        let mut i: usize = 0;
        while i < self.groups.len()
            invariant
                groups_wf(self.groups@),
                0 <= i <= self.groups@.len(),
                forall|a: int| 0 <= a < i ==> (#[trigger] self.groups@[a]).key@ != g@,
            decreases self.groups@.len() - i,
        {
            if self.groups[i].key == *g {
                proof {
                    lemma_group_total_at(self.groups@, i as int, m@);
                }
                let ms = &self.groups[i].members;
                let mut j: usize = 0;
                while j < ms.len()
                    invariant
                        members_wf(ms@),
                        group_total(self.groups@, g@, m@) == member_total(ms@, m@),
                        0 <= j <= ms@.len(),
                        forall|b: int| 0 <= b < j ==> (#[trigger] ms@[b]).name@ != m@,
                    decreases ms@.len() - j,
                {
                    if ms[j].name == *m {
                        proof {
                            lemma_member_total_at(ms@, j as int);
                        }
                        return ms[j].count;
                    }
                    j = j + 1;
                }
                proof {
                    lemma_member_total_absent(ms@, m@);
                }
                return 0;
            }
            i = i + 1;
        }
        proof {
            lemma_group_total_absent(self.groups@, g@, m@);
        }
        0
    }
}

/// `r` ranks the top `k` members under `count`: each entry carries its
/// member's positive count, no member comes twice, counts never rise along
/// the list, and a member left out counts no more than the last entry, and is
/// left out only because the list is full.
pub open spec fn ranks_top(r: Seq<MemberCount>, count: spec_fn(Seq<char>) -> nat, k: nat) -> bool {
    &&& r.len() <= k
    &&& forall|i: int|
        0 <= i < r.len() ==> (#[trigger] r[i]).count as nat == count(r[i].name@) && r[i].count > 0
    &&& forall|i: int, j: int|
        0 <= i < r.len() && 0 <= j < r.len() && i != j ==> #[trigger] r[i].name@
            != #[trigger] r[j].name@
    &&& forall|i: int, j: int| 0 <= i <= j < r.len() ==> #[trigger] r[i].count >= #[trigger] r[j].count
    &&& forall|m: Seq<char>|
        #![trigger count(m)]
        count(m) > 0 && (forall|i: int| 0 <= i < r.len() ==> r[i].name@ != m) ==> {
            &&& r.len() == k
            &&& r.len() > 0 ==> count(m) <= r[r.len() - 1].count
        }
}

pub(crate) proof fn lemma_member_present(ms: Seq<MemberCount>, m: Seq<char>) -> (a: int)
    requires
        member_total(ms, m) > 0,
    ensures
        0 <= a < ms.len(),
        ms[a].name@ == m,
{
    if forall|i: int| 0 <= i < ms.len() ==> (#[trigger] ms[i]).name@ != m {
        lemma_member_total_absent(ms, m);
    }
    choose|i: int| 0 <= i < ms.len() && (#[trigger] ms[i]).name@ == m
}

/// The `k` members of `ms` with the highest counts, highest first; which of
/// two equal counts comes first is left open.
pub fn top_members(ms: &Vec<MemberCount>, k: usize) -> (r: Vec<MemberCount>)
    requires
        members_wf(ms@),
    ensures
        ranks_top(r@, |m: Seq<char>| member_total(ms@, m), k as nat),
{
    let n = ms.len();
    let mut taken: Vec<bool> = Vec::new();
    while taken.len() < n
        invariant
            taken@.len() <= n,
            forall|a: int| 0 <= a < taken@.len() ==> !(#[trigger] taken@[a]),
        decreases n - taken@.len(),
    {
        taken.push(false);
    }
    let mut r: Vec<MemberCount> = Vec::new();
    let ghost mut idx: Seq<int> = Seq::empty();
    let mut exhausted = false;
    while r.len() < k && !exhausted
        invariant
            exhausted ==> forall|a: int| 0 <= a < n ==> #[trigger] taken@[a],
            n == ms@.len(),
            members_wf(ms@),
            taken@.len() == n,
            r@.len() == idx.len(),
            r@.len() <= k,
            forall|t: int|
                0 <= t < idx.len() ==> {
                    &&& 0 <= #[trigger] idx[t] < n
                    &&& r@[t].name@ == ms@[idx[t]].name@
                    &&& r@[t].count == ms@[idx[t]].count
                    &&& taken@[idx[t]]
                },
            forall|a: int|
                0 <= a < n && #[trigger] taken@[a] ==> exists|t: int| 0 <= t < idx.len() && idx[t] == a,
            forall|t: int, u: int|
                0 <= t < idx.len() && 0 <= u < idx.len() && t != u ==> #[trigger] idx[t]
                    != #[trigger] idx[u],
            forall|i: int, j: int|
                0 <= i <= j < r@.len() ==> #[trigger] r@[i].count >= #[trigger] r@[j].count,
            r@.len() > 0 ==> forall|a: int|
                0 <= a < n && !(#[trigger] taken@[a]) ==> ms@[a].count <= r@[r@.len() - 1].count,
        decreases k - r@.len() + if exhausted {
            0int
        } else {
            1int
        },
    {
        let mut best: usize = n;
        let mut j: usize = 0;
        while j < n
            invariant
                n == ms@.len(),
                taken@.len() == n,
                0 <= j <= n,
                best == n || (best < j && !taken@[best as int]),
                best == n ==> forall|a: int| 0 <= a < j ==> #[trigger] taken@[a],
                best < n ==> forall|a: int|
                    0 <= a < j && !(#[trigger] taken@[a]) ==> ms@[a].count <= ms@[best as int].count,
            decreases n - j,
        {
            if !taken[j] && (best == n || ms[j].count > ms[best].count) {
                best = j;
            }
            j = j + 1;
        }
        if best == n {
            exhausted = true;
        } else {
            let ghost old_idx = idx;
            let ghost old_taken = taken@;
            let e = MemberCount { name: ms[best].name.clone(), count: ms[best].count };
        proof {
            assert forall|t: int| 0 <= t < idx.len() implies idx[t] != best as int by {
                assert(taken@[idx[t]]);
            }
        }
        r.push(e);
        taken.set(best, true);
        proof {
            idx = idx.push(best as int);
            assert forall|a: int|
                0 <= a < n && #[trigger] taken@[a] implies exists|t: int|
                0 <= t < idx.len() && idx[t] == a by {
                if a == best as int {
                    assert(idx[idx.len() - 1] == a);
                } else {
                    assert(old_taken[a]);
                    let t = choose|t: int| 0 <= t < old_idx.len() && old_idx[t] == a;
                    assert(idx[t] == a);
                }
            }
            assert forall|t: int|
                0 <= t < idx.len() implies #[trigger] taken@[idx[t]] by {
                if t < old_idx.len() {
                    assert(idx[t] == old_idx[t]);
                    assert(old_taken[old_idx[t]]);
                }
            }
            assert forall|i: int, j: int|
                0 <= i <= j < r@.len() implies #[trigger] r@[i].count >= #[trigger] r@[j].count by {
                if j == r@.len() - 1 && i < j {
                    assert(r@[i].count >= r@[r@.len() - 2].count);
                }
            }
        }
        }
    }
    proof {
        let count = |m: Seq<char>| member_total(ms@, m);
        assert forall|i: int| 0 <= i < r@.len() implies (#[trigger] r@[i]).count as nat == count(
            r@[i].name@,
        ) && r@[i].count > 0 by {
            lemma_member_total_at(ms@, idx[i]);
        }
        assert forall|i: int, j: int|
            0 <= i < r@.len() && 0 <= j < r@.len() && i != j implies #[trigger] r@[i].name@
            != #[trigger] r@[j].name@ by {
            assert(idx[i] != idx[j]);
        }
        assert forall|m: Seq<char>|
            #![trigger count(m)]
            count(m) > 0 && (forall|i: int| 0 <= i < r@.len() ==> r@[i].name@ != m) implies {
            &&& r@.len() == k
            &&& r@.len() > 0 ==> count(m) <= r@[r@.len() - 1].count
        } by {
            let a = lemma_member_present(ms@, m);
            lemma_member_total_at(ms@, a);
            if taken@[a] {
                let t = choose|t: int| 0 <= t < idx.len() && idx[t] == a;
                assert(r@[t].name@ == m);
            }
            if r@.len() < k {
                assert(exhausted);
                assert(taken@[a]);
            }
        }
    }
    r
}

/// A ranking of the top `k` under `count`, where at least `k` distinct
/// members have a positive count, holds exactly `k` entries: a group with ten
/// channels ranks exactly as many as the ranking keeps.
pub proof fn lemma_top_is_full(
    r: Seq<MemberCount>,
    count: spec_fn(Seq<char>) -> nat,
    k: nat,
    names: Seq<Seq<char>>,
)
    requires
        ranks_top(r, count, k),
        names.no_duplicates(),
        names.len() >= k,
        forall|i: int| 0 <= i < names.len() ==> count(#[trigger] names[i]) > 0,
    ensures
        r.len() == k,
{
    if r.len() < k {
        let rn = r.map_values(|e: MemberCount| e.name@);
        assert forall|x: Seq<char>| names.to_set().contains(x) implies rn.to_set().contains(x) by {
            let i = choose|i: int| 0 <= i < names.len() && names[i] == x;
            assert(count(names[i]) > 0);
            if forall|j: int| 0 <= j < r.len() ==> r[j].name@ != x {
                assert(r.len() == k);
            }
            let j = choose|j: int| 0 <= j < r.len() && r[j].name@ == x;
            assert(rn[j] == x);
        }
        names.unique_seq_to_set();
        rn.lemma_cardinality_of_set();
        vstd::set_lib::lemma_len_subset(names.to_set(), rn.to_set());
    }
}

} // verus!
