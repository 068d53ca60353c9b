//! Batching and chunking: identification results are folded into an
//! accumulator keyed by content identifier, and split into bounded units of
//! work for dispatch, never splitting one identifier's group across units.

use vstd::prelude::*;
use vstd::multiset::Multiset;

use crate::records::{ContentId, ObjectKind};

verus! {

/// One path record waiting to be linked to the content object of its group's
/// identifier.
#[derive(Clone, Copy, Debug, PartialEq, Eq, Structural)]
pub struct FilePathToCreateOrLinkObject {
    /// Id of the path record to link.
    pub file_path_id: u64,
    /// The record's resolved content kind, for object creation.
    pub kind: ObjectKind,
    /// Creation time of the entry, seconds since the epoch.
    pub created_at: u64,
}

/// All pending links that resolved to one content identifier.
pub struct CasGroup {
    pub cas_id: ContentId,
    pub file_paths: Vec<FilePathToCreateOrLinkObject>,
}

/// Mathematical value of a `CasGroup`.
pub struct GroupView {
    pub cas_id: Seq<u8>,
    pub file_paths: Seq<FilePathToCreateOrLinkObject>,
}

impl View for CasGroup {
    type V = GroupView;

    open spec fn view(&self) -> GroupView {
        GroupView { cas_id: self.cas_id@, file_paths: self.file_paths@ }
    }
}

/// The views of a sequence of groups, element by element.
pub open spec fn group_views(s: Seq<CasGroup>) -> Seq<GroupView> {
    s.map_values(|g: CasGroup| g@)
}

/// No two groups carry the same content identifier.
pub open spec fn unique_cas(s: Seq<GroupView>) -> bool {
    forall|i: int, j: int| 0 <= i < j < s.len() ==> s[i].cas_id != s[j].cas_id
}

/// Whether some group carries the identifier.
pub open spec fn contains_cas(s: Seq<GroupView>, cas: Seq<u8>) -> bool {
    exists|i: int| 0 <= i < s.len() && s[i].cas_id == cas
}

/// The pending links of the last group carrying the identifier, or empty if
/// none does; under `unique_cas` this is the identifier's one group.
pub open spec fn paths_of(s: Seq<GroupView>, cas: Seq<u8>) -> Seq<FilePathToCreateOrLinkObject>
    decreases s.len(),
{
    if s.len() == 0 {
        Seq::empty()
    } else if s.last().cas_id == cas {
        s.last().file_paths
    } else {
        paths_of(s.drop_last(), cas)
    }
}

/// Some group carries this pending path under this identifier.
pub open spec fn has_pending(gs: Seq<GroupView>, id: u64, cas: Seq<u8>) -> bool {
    exists|k: int, j: int|
        0 <= k < gs.len() && 0 <= j < gs[k].file_paths.len() && gs[k].cas_id == cas
            && gs[k].file_paths[j].file_path_id == id
}

/// Total number of pending links across the groups.
pub open spec fn total_count(s: Seq<GroupView>) -> int
    decreases s.len(),
{
    if s.len() == 0 {
        0
    } else {
        total_count(s.drop_last()) + s.last().file_paths.len()
    }
}

/// A link total is never negative.
pub proof fn lemma_total_count_nonneg(s: Seq<GroupView>)
    ensures
        total_count(s) >= 0,
    decreases s.len(),
{
    if s.len() > 0 {
        lemma_total_count_nonneg(s.drop_last());
    }
}

/// Under unique identifiers, `paths_of` at a group's identifier is exactly
/// that group's list.
pub proof fn lemma_paths_of_index(s: Seq<GroupView>, i: int)
    requires
        unique_cas(s),
        0 <= i < s.len(),
    ensures
        paths_of(s, s[i].cas_id) == s[i].file_paths,
    decreases s.len(),
{
    if i == s.len() - 1 {
    } else {
        assert(s.last().cas_id != s[i].cas_id);
        assert(s.drop_last()[i] == s[i]);
        lemma_paths_of_index(s.drop_last(), i);
    }
}

/// An identifier no group carries has no pending links.
pub proof fn lemma_paths_of_absent(s: Seq<GroupView>, cas: Seq<u8>)
    requires
        !contains_cas(s, cas),
    ensures
        paths_of(s, cas) == Seq::<FilePathToCreateOrLinkObject>::empty(),
    decreases s.len(),
{
    if s.len() > 0 {
        assert(s.last() == s[s.len() - 1]);
        assert(forall|i: int| 0 <= i < s.drop_last().len() ==> s.drop_last()[i] == s[i]);
        lemma_paths_of_absent(s.drop_last(), cas);
    }
}

/// Every pending link of `paths_of` is carried by a group with that
/// identifier.
pub proof fn lemma_paths_of_elem(s: Seq<GroupView>, cas: Seq<u8>, j: int)
    requires
        0 <= j < paths_of(s, cas).len(),
    ensures
        has_pending(s, paths_of(s, cas)[j].file_path_id, cas),
    decreases s.len(),
{
    if s.len() > 0 {
        if s.last().cas_id == cas {
            assert(s[s.len() - 1].file_paths[j] == paths_of(s, cas)[j]);
        } else {
            lemma_paths_of_elem(s.drop_last(), cas, j);
            let (k, i2) = choose|k: int, i2: int|
                0 <= k < s.drop_last().len() && 0 <= i2 < s.drop_last()[k].file_paths.len()
                    && s.drop_last()[k].cas_id == cas && s.drop_last()[k].file_paths[i2].file_path_id
                    == paths_of(s, cas)[j].file_path_id;
            assert(s[k] == s.drop_last()[k]);
            assert(s[k].file_paths[i2].file_path_id == paths_of(s, cas)[j].file_path_id);
        }
    }
}

/// Every group inside some unit counts at least once in the units'
/// multiset.
pub proof fn lemma_units_multiset_elem(s: Seq<Seq<GroupView>>, k: int, j: int)
    requires
        0 <= k < s.len(),
        0 <= j < s[k].len(),
    ensures
        units_groups_multiset(s).count(s[k][j]) >= 1,
    decreases s.len(),
{
    broadcast use vstd::seq_lib::group_to_multiset_ensures;

    if k == s.len() - 1 {
        assert(s.last()[j] == s[k][j]);
        assert(s.last().contains(s[k][j]));
        assert(s.last().to_multiset().count(s[k][j]) > 0);
    } else {
        assert(s.drop_last()[k] == s[k]);
        lemma_units_multiset_elem(s.drop_last(), k, j);
    }
}

/// Inserting a group adds its links to the total.
pub proof fn lemma_total_count_insert(s: Seq<GroupView>, k: int, g: GroupView)
    requires
        0 <= k <= s.len(),
    ensures
        total_count(s.insert(k, g)) == total_count(s) + g.file_paths.len(),
    decreases s.len(),
{
    if k == s.len() {
        assert(s.insert(k, g).drop_last() =~= s);
        assert(s.insert(k, g).last() == g);
    } else {
        assert(s.insert(k, g).drop_last() =~= s.drop_last().insert(k, g));
        assert(s.insert(k, g).last() == s.last());
        lemma_total_count_insert(s.drop_last(), k, g);
    }
}

/// Removing a group takes its links out of the total.
pub proof fn lemma_total_count_remove(s: Seq<GroupView>, k: int)
    requires
        0 <= k < s.len(),
    ensures
        total_count(s.remove(k)) == total_count(s) - s[k].file_paths.len(),
    decreases s.len(),
{
    if k == s.len() - 1 {
        assert(s.remove(k) =~= s.drop_last());
    } else {
        assert(s.remove(k).drop_last() =~= s.drop_last().remove(k));
        assert(s.remove(k).last() == s.last());
        lemma_total_count_remove(s.drop_last(), k);
    }
}

/// Appending a group makes exactly its identifier newly present.
pub proof fn lemma_contains_cas_push(s: Seq<GroupView>, g: GroupView)
    ensures
        forall|cas: Seq<u8>|
            #[trigger] contains_cas(s.push(g), cas) <==> (contains_cas(s, cas) || g.cas_id
                == cas),
{
    assert forall|cas: Seq<u8>| #[trigger]
        contains_cas(s.push(g), cas) <==> (contains_cas(s, cas) || g.cas_id == cas) by {
        if contains_cas(s, cas) {
            let j = choose|j: int| 0 <= j < s.len() && s[j].cas_id == cas;
            assert(s.push(g)[j].cas_id == cas);
        }
        if g.cas_id == cas {
            assert(s.push(g)[s.len() as int].cas_id == cas);
        }
        if contains_cas(s.push(g), cas) {
            let j = choose|j: int| 0 <= j < s.push(g).len() && s.push(g)[j].cas_id == cas;
            if j < s.len() {
                assert(s[j].cas_id == cas);
            } else {
                assert(g.cas_id == cas);
            }
        }
    }
}

/// Replacing a group by one with the same identifier leaves membership
/// untouched.
pub proof fn lemma_contains_cas_update(s: Seq<GroupView>, k: int, g: GroupView)
    requires
        0 <= k < s.len(),
        g.cas_id == s[k].cas_id,
    ensures
        forall|cas: Seq<u8>|
            #[trigger] contains_cas(s.update(k, g), cas) <==> contains_cas(s, cas),
{
    assert forall|cas: Seq<u8>| #[trigger]
        contains_cas(s.update(k, g), cas) <==> contains_cas(s, cas) by {
        if contains_cas(s.update(k, g), cas) {
            let j = choose|j: int|
                0 <= j < s.update(k, g).len() && s.update(k, g)[j].cas_id == cas;
            assert(s[j].cas_id == cas);
        }
        if contains_cas(s, cas) {
            let j = choose|j: int| 0 <= j < s.len() && s[j].cas_id == cas;
            assert(s.update(k, g)[j].cas_id == cas);
        }
    }
}

/// Decides whether the groups' identifiers are pairwise distinct, as a
/// restored accumulator must be before it is used.
#[verifier::loop_isolation(false)]
pub fn groups_unique(groups: &Vec<CasGroup>) -> (b: bool)
    ensures
        b == unique_cas(group_views(groups@)),
{
    let gv = groups;
    let mut i: usize = 0;
    while i < gv.len()
        invariant
            i <= gv.len(),
            forall|a: int, b0: int|
                0 <= a < b0 < gv@.len() && a < i ==> group_views(gv@)[a].cas_id != group_views(
                    gv@,
                )[b0].cas_id,
        decreases gv.len() - i,
    {
        let mut j: usize = i + 1;
        while j < gv.len()
            invariant
                i < j <= gv.len(),
                forall|b0: int|
                    i < b0 < j ==> group_views(gv@)[i as int].cas_id != group_views(
                        gv@,
                    )[b0].cas_id,
            decreases gv.len() - j,
        {
            if gv[i].cas_id.same_as(&gv[j].cas_id) {
                proof {
                    assert(group_views(gv@)[i as int].cas_id == group_views(
                        gv@,
                    )[j as int].cas_id);
                    assert(!unique_cas(group_views(gv@)));
                }
                return false;
            }
            j = j + 1;
        }
        i = i + 1;
    }
    true
}

/// Copies a list of pending links.
pub fn copy_items(v: &Vec<FilePathToCreateOrLinkObject>) -> (r: Vec<FilePathToCreateOrLinkObject>)
    ensures
        r@ == v@,
{
    let mut out: Vec<FilePathToCreateOrLinkObject> = Vec::new();
    let mut i: usize = 0;
    while i < v.len()
        invariant
            i <= v.len(),
            out@ == v@.take(i as int),
        decreases v.len() - i,
    {
        out.push(v[i]);
        i = i + 1;
        assert(v@.take(i as int).drop_last() == v@.take(i - 1));
    }
    assert(v@.take(v@.len() as int) == v@);
    out
}

/// Appends all of `src` to `dst`.
pub fn extend_items(dst: &mut Vec<FilePathToCreateOrLinkObject>, src: &Vec<
    FilePathToCreateOrLinkObject,
>)
    ensures
        final(dst)@ == old(dst)@ + src@,
{
    let mut i: usize = 0;
    while i < src.len()
        invariant
            i <= src.len(),
            dst@ == old(dst)@ + src@.take(i as int),
        decreases src.len() - i,
    {
        dst.push(src[i]);
        i = i + 1;
        assert(old(dst)@ + src@.take(i as int) =~= (old(dst)@ + src@.take(i - 1)).push(
            src@[i - 1],
        ));
    }
    assert(old(dst)@ + src@.take(src@.len() as int) =~= old(dst)@ + src@);
}

impl CasGroup {
    /// Copies this group.
    pub fn duplicate(&self) -> (r: CasGroup)
        ensures
            r@ == self@,
    {
        CasGroup { cas_id: self.cas_id.duplicate(), file_paths: copy_items(&self.file_paths) }
    }
}

/// Finds the group carrying the identifier, if any.
pub fn find_group(groups: &Vec<CasGroup>, cas: &ContentId) -> (r: Option<usize>)
    ensures
        match r {
            Some(k) => k < groups@.len() && group_views(groups@)[k as int].cas_id == cas@,
            None => !contains_cas(group_views(groups@), cas@),
        },
{
    let mut i: usize = 0;
    while i < groups.len()
        invariant
            i <= groups.len(),
            forall|j: int| 0 <= j < i ==> group_views(groups@)[j].cas_id != cas@,
        decreases groups.len() - i,
    {
        if groups[i].cas_id.same_as(cas) {
            return Some(i);
        }
        i = i + 1;
    }
    None
}

/// Merges freshly extracted groups into a running accumulator: paths of a
/// known identifier are appended to its group, unknown identifiers get a new
/// group at the end. Used both while batching one step and when resuming a
/// step whose leftover accumulator was restored.
#[verifier::loop_isolation(false)]
pub fn accumulate_file_paths_by_cas_id(input: &Vec<CasGroup>, accumulator: &mut Vec<CasGroup>)
    requires
        unique_cas(group_views(old(accumulator)@)),
        unique_cas(group_views(input@)),
    ensures
        unique_cas(group_views(final(accumulator)@)),
        final(accumulator)@.len() <= old(accumulator)@.len() + input@.len(),
        total_count(group_views(final(accumulator)@)) == total_count(
            group_views(old(accumulator)@),
        ) + total_count(group_views(input@)),
        forall|cas: Seq<u8>|
            #[trigger] contains_cas(group_views(final(accumulator)@), cas) <==> (contains_cas(
                group_views(old(accumulator)@),
                cas,
            ) || contains_cas(group_views(input@), cas)),
        forall|k: int|
            0 <= k < group_views(final(accumulator)@).len() ==> group_views(final(accumulator)@)[k].file_paths
                == paths_of(
                group_views(old(accumulator)@),
                group_views(final(accumulator)@)[k].cas_id,
            ) + paths_of(group_views(input@), group_views(final(accumulator)@)[k].cas_id),
{
    let ghost acc0 = group_views(old(accumulator)@);
    let ghost inv = group_views(input@);
    let mut i: usize = 0;
    proof {
        assert(inv.take(0int) =~= Seq::<GroupView>::empty());
        assert(forall|k: int|
            0 <= k < acc0.len() ==> #[trigger] acc0[k].file_paths == paths_of(
                acc0,
                acc0[k].cas_id,
            ) + paths_of(inv.take(0int), acc0[k].cas_id)) by {
            assert forall|k: int| 0 <= k < acc0.len() implies #[trigger] acc0[k].file_paths
                == paths_of(acc0, acc0[k].cas_id) + paths_of(inv.take(0int), acc0[k].cas_id) by {
                lemma_paths_of_index(acc0, k);
                assert(paths_of(inv.take(0int), acc0[k].cas_id) =~= Seq::<
                    FilePathToCreateOrLinkObject,
                >::empty());
            }
        }
    }
    while i < input.len()
        invariant
            i <= input.len(),
            unique_cas(group_views(accumulator@)),
            accumulator@.len() <= old(accumulator)@.len() + i,
            total_count(group_views(accumulator@)) == total_count(acc0) + total_count(
                inv.take(i as int),
            ),
            forall|cas: Seq<u8>|
                #[trigger] contains_cas(group_views(accumulator@), cas) <==> (contains_cas(
                    acc0,
                    cas,
                ) || contains_cas(inv.take(i as int), cas)),
            forall|k: int|
                0 <= k < group_views(accumulator@).len()
                    ==> #[trigger] group_views(accumulator@)[k].file_paths == paths_of(
                    acc0,
                    group_views(accumulator@)[k].cas_id,
                ) + paths_of(inv.take(i as int), group_views(accumulator@)[k].cas_id),
        decreases input.len() - i,
    {
        let ghost acc_pre = group_views(accumulator@);
        let g = &input[i];
        proof {
            assert(inv[i as int] == g@);
            assert(inv.take(i + 1) =~= inv.take(i as int).push(g@));
            assert(inv.take(i + 1).drop_last() =~= inv.take(i as int));
        }
        match find_group(accumulator, &g.cas_id) {
            Some(k) => {
                let mut merged = accumulator.remove(k);
                extend_items(&mut merged.file_paths, &g.file_paths);
                accumulator.insert(k, merged);
                proof {
                    let acc_now = group_views(accumulator@);
                    let gk = GroupView {
                        cas_id: acc_pre[k as int].cas_id,
                        file_paths: acc_pre[k as int].file_paths + g@.file_paths,
                    };
                    assert(acc_now =~= acc_pre.update(k as int, gk));
                    assert(unique_cas(acc_now));
                    // totals
                    assert(total_count(acc_now) == total_count(acc_pre) + g@.file_paths.len())
                        by {
                        lemma_total_count_remove(acc_pre, k as int);
                        lemma_total_count_insert(acc_pre.remove(k as int), k as int, gk);
                        assert(acc_now =~= acc_pre.remove(k as int).insert(k as int, gk));
                    }
                    assert(total_count(inv.take(i + 1)) == total_count(inv.take(i as int))
                        + g@.file_paths.len());
                    // membership is unchanged
                    lemma_contains_cas_update(acc_pre, k as int, gk);
                    assert(contains_cas(acc_pre, g@.cas_id));
                    lemma_contains_cas_push(inv.take(i as int), g@);
                    assert forall|cas: Seq<u8>|
                        contains_cas(acc_now, cas) <==> (contains_cas(acc0, cas) || contains_cas(
                            inv.take(i + 1),
                            cas,
                        )) by {
                        assert(contains_cas(acc_pre, cas) <==> (contains_cas(acc0, cas)
                            || contains_cas(inv.take(i as int), cas)));
                        assert(contains_cas(acc_now, cas) <==> contains_cas(acc_pre, cas));
                        assert(contains_cas(inv.take(i + 1), cas) <==> (contains_cas(
                            inv.take(i as int),
                            cas,
                        ) || g@.cas_id == cas));
                        if g@.cas_id == cas {
                            assert(contains_cas(acc_pre, cas));
                        }
                    }
                    // per-group contents
                    assert forall|k2: int| 0 <= k2 < acc_now.len() implies #[trigger] acc_now[k2].file_paths
                        == paths_of(acc0, acc_now[k2].cas_id) + paths_of(
                        inv.take(i + 1),
                        acc_now[k2].cas_id,
                    ) by {
                        if k2 == k as int {
                            assert(acc_now[k2] == gk);
                            assert(paths_of(inv.take(i + 1), gk.cas_id) == paths_of(
                                inv.take(i as int),
                                gk.cas_id,
                            ) + g@.file_paths) by {
                                lemma_paths_of_last_absent_or(inv, i as int, gk.cas_id);
                            }
                        } else {
                            assert(acc_now[k2] == acc_pre[k2]);
                            assert(acc_now[k2].cas_id != g@.cas_id);
                            assert(paths_of(inv.take(i + 1), acc_now[k2].cas_id) == paths_of(
                                inv.take(i as int),
                                acc_now[k2].cas_id,
                            ));
                        }
                    }
                }
            },
            None => {
                accumulator.push(g.duplicate());
                proof {
                    let acc_now = group_views(accumulator@);
                    assert(acc_now =~= acc_pre.push(g@));
                    assert(acc_now.drop_last() =~= acc_pre);
                    // new identifier was in neither side, so uniqueness holds
                    assert(forall|j: int|
                        0 <= j < acc_pre.len() ==> acc_pre[j] == #[trigger] acc_now[j]);
                    assert(unique_cas(acc_now));
                    assert(total_count(acc_now) == total_count(acc_pre) + g@.file_paths.len());
                    assert(total_count(inv.take(i + 1)) == total_count(inv.take(i as int))
                        + g@.file_paths.len());
                    lemma_contains_cas_push(acc_pre, g@);
                    lemma_contains_cas_push(inv.take(i as int), g@);
                    assert forall|cas: Seq<u8>|
                        contains_cas(acc_now, cas) <==> (contains_cas(acc0, cas) || contains_cas(
                            inv.take(i + 1),
                            cas,
                        )) by {
                        assert(contains_cas(acc_now, cas) <==> (contains_cas(acc_pre, cas)
                            || g@.cas_id == cas));
                        assert(contains_cas(inv.take(i + 1), cas) <==> (contains_cas(
                            inv.take(i as int),
                            cas,
                        ) || g@.cas_id == cas));
                    }
                    assert forall|k2: int| 0 <= k2 < acc_now.len() implies #[trigger] acc_now[k2].file_paths
                        == paths_of(acc0, acc_now[k2].cas_id) + paths_of(
                        inv.take(i + 1),
                        acc_now[k2].cas_id,
                    ) by {
                        if k2 == acc_now.len() - 1 {
                            assert(acc_now[k2] == g@);
                            assert(!contains_cas(acc0, g@.cas_id));
                            lemma_paths_of_absent(acc0, g@.cas_id);
                            assert(paths_of(inv.take(i + 1), g@.cas_id) == g@.file_paths);
                            assert(Seq::<FilePathToCreateOrLinkObject>::empty() + g@.file_paths
                                =~= g@.file_paths);
                        } else {
                            assert(acc_now[k2] == acc_pre[k2]);
                            assert(acc_now[k2].cas_id != g@.cas_id);
                            assert(paths_of(inv.take(i + 1), acc_now[k2].cas_id) == paths_of(
                                inv.take(i as int),
                                acc_now[k2].cas_id,
                            ));
                        }
                    }
                }
            },
        }
        i = i + 1;
    }
    proof {
        assert(inv.take(input@.len() as int) =~= inv);
    }
}

/// A bounded batch of identifier groups, dispatched as one concurrent unit
/// of work to the external task framework.
pub struct WorkUnit {
    pub groups: Vec<CasGroup>,
}

impl View for WorkUnit {
    type V = Seq<GroupView>;

    open spec fn view(&self) -> Seq<GroupView> {
        group_views(self.groups@)
    }
}

/// The views of a sequence of work units, element by element.
pub open spec fn unit_views(s: Seq<WorkUnit>) -> Seq<Seq<GroupView>> {
    s.map_values(|u: WorkUnit| u@)
}

/// All groups carried by the units, as a multiset: dispatch order is
/// irrelevant, but nothing may be dropped, duplicated, or split.
pub open spec fn units_groups_multiset(s: Seq<Seq<GroupView>>) -> Multiset<GroupView>
    decreases s.len(),
{
    if s.len() == 0 {
        Multiset::empty()
    } else {
        units_groups_multiset(s.drop_last()).add(s.last().to_multiset())
    }
}

/// Total number of pending links across all units.
pub open spec fn units_total(s: Seq<Seq<GroupView>>) -> int
    decreases s.len(),
{
    if s.len() == 0 {
        0
    } else {
        units_total(s.drop_last()) + total_count(s.last())
    }
}

/// Number of groups across all units.
pub open spec fn units_group_count(s: Seq<Seq<GroupView>>) -> int
    decreases s.len(),
{
    if s.len() == 0 {
        0
    } else {
        units_group_count(s.drop_last()) + s.last().len()
    }
}

/// The group count of a prefix never exceeds the whole.
pub proof fn lemma_units_group_count_take_le(s: Seq<Seq<GroupView>>, j: int)
    requires
        0 <= j <= s.len(),
    ensures
        units_group_count(s.take(j)) <= units_group_count(s),
    decreases s.len(),
{
    if j == s.len() {
        assert(s.take(j) =~= s);
    } else {
        assert(s.take(j) =~= s.drop_last().take(j));
        lemma_units_group_count_take_le(s.drop_last(), j);
    }
}

/// Splits the accumulated identifier groups into units of work for the
/// external dispatcher.
///
/// A group that alone reaches the chunk threshold becomes a standalone unit;
/// smaller groups are batched in order until the batch reaches the
/// threshold; a final partial batch is flushed as the last unit.
///
/// The contract states the chunking guarantees: the units carry exactly the
/// input groups (none dropped, duplicated, or split), the link count is
/// conserved, no unit is empty, every non-final unit reaches the threshold,
/// a group at or above the threshold stands alone in its unit, and each
/// unit's identifiers are distinct.
#[verifier::loop_isolation(false)]
pub fn dispatch_object_processor_tasks(
    file_paths_by_cas_id: &Vec<CasGroup>,
    chunk_size: usize,
) -> (units: Vec<WorkUnit>)
    requires
        chunk_size >= 1,
        chunk_size <= usize::MAX / 2,
        unique_cas(group_views(file_paths_by_cas_id@)),
    ensures
        units_groups_multiset(unit_views(units@)) == group_views(
            file_paths_by_cas_id@,
        ).to_multiset(),
        units_total(unit_views(units@)) == total_count(group_views(file_paths_by_cas_id@)),
        units_group_count(unit_views(units@)) == file_paths_by_cas_id@.len(),
        forall|k: int| 0 <= k < units@.len() ==> #[trigger] unit_views(units@)[k].len() > 0,
        forall|k: int|
            0 <= k && k + 1 < units@.len() ==> total_count(#[trigger] unit_views(units@)[k])
                >= chunk_size,
        forall|k: int, j: int|
            0 <= k < units@.len() && 0 <= j < unit_views(units@)[k].len() && (#[trigger] unit_views(
                units@,
            )[k][j]).file_paths.len() >= chunk_size ==> unit_views(units@)[k].len() == 1,
        forall|k: int|
            0 <= k < units@.len() && unit_views(units@)[k].len() > 1 ==> total_count(
                #[trigger] unit_views(units@)[k],
            ) < 2 * chunk_size,
        forall|k: int| 0 <= k < units@.len() ==> unique_cas(#[trigger] unit_views(units@)[k]),
{
    broadcast use vstd::seq_lib::group_to_multiset_ensures;

    let ghost gv = group_views(file_paths_by_cas_id@);
    let mut units: Vec<WorkUnit> = Vec::new();
    let mut current_batch: Vec<CasGroup> = Vec::new();
    let mut current_batch_size: usize = 0;
    let mut i: usize = 0;
    proof {
        assert(gv.take(0int) =~= Seq::<GroupView>::empty());
        assert(unit_views(units@) =~= Seq::<Seq<GroupView>>::empty());
        assert(group_views(current_batch@) =~= Seq::<GroupView>::empty());
        assert(Seq::<GroupView>::empty().to_multiset() =~= Multiset::<GroupView>::empty());
        assert(units_groups_multiset(unit_views(units@)).add(
            group_views(current_batch@).to_multiset(),
        ) =~= gv.take(0int).to_multiset());
    }
    while i < file_paths_by_cas_id.len()
        invariant
            i <= file_paths_by_cas_id.len(),
            current_batch_size == total_count(group_views(current_batch@)),
            current_batch_size < chunk_size,
            unique_cas(group_views(current_batch@)),
            forall|j: int|
                0 <= j < group_views(current_batch@).len() ==> (#[trigger] group_views(
                    current_batch@,
                )[j]).file_paths.len() < chunk_size,
            forall|j: int|
                0 <= j < group_views(current_batch@).len() ==> contains_cas(
                    gv.take(i as int),
                    (#[trigger] group_views(current_batch@)[j]).cas_id,
                ),
            units_groups_multiset(unit_views(units@)).add(
                group_views(current_batch@).to_multiset(),
            ) == gv.take(i as int).to_multiset(),
            units_total(unit_views(units@)) + current_batch_size == total_count(
                gv.take(i as int),
            ),
            units_group_count(unit_views(units@)) + current_batch@.len() == i,
            forall|k: int| 0 <= k < units@.len() ==> #[trigger] unit_views(units@)[k].len() > 0,
            forall|k: int|
                0 <= k < units@.len() ==> total_count(#[trigger] unit_views(units@)[k])
                    >= chunk_size,
            forall|k: int, j: int|
                0 <= k < units@.len() && 0 <= j < unit_views(units@)[k].len() && (
                #[trigger] unit_views(units@)[k][j]).file_paths.len() >= chunk_size
                    ==> unit_views(units@)[k].len() == 1,
            forall|k: int|
                0 <= k < units@.len() && unit_views(units@)[k].len() > 1 ==> total_count(
                    #[trigger] unit_views(units@)[k],
                ) < 2 * chunk_size,
            forall|k: int| 0 <= k < units@.len() ==> unique_cas(#[trigger] unit_views(units@)[k]),
        decreases file_paths_by_cas_id.len() - i,
    {
        let g = &file_paths_by_cas_id[i];
        let glen = g.file_paths.len();
        proof {
            assert(gv[i as int] == g@);
            assert(gv.take(i + 1) =~= gv.take(i as int).push(g@));
            assert(gv.take(i + 1).drop_last() =~= gv.take(i as int));
            assert(gv.take(i + 1).last() == g@);
            assert(total_count(gv.take(i + 1)) == total_count(gv.take(i as int))
                + g@.file_paths.len());
        }
        if glen >= chunk_size {
            let ghost units_pre = unit_views(units@);
            let standalone = WorkUnit { groups: vec![g.duplicate()] };
            proof {
                assert(standalone@ =~= Seq::<GroupView>::empty().push(g@));
                assert(total_count(standalone@) == g@.file_paths.len()) by {
                    assert(standalone@.drop_last() =~= Seq::<GroupView>::empty());
                    assert(total_count(Seq::<GroupView>::empty()) == 0);
                }
                assert(standalone@.to_multiset() =~= Multiset::<GroupView>::empty().insert(g@));
            }
            units.push(standalone);
            proof {
                let uv = unit_views(units@);
                assert(uv =~= units_pre.push(standalone@));
                assert(uv.drop_last() =~= units_pre);
                assert(units_groups_multiset(uv) =~= units_groups_multiset(units_pre).insert(
                    g@,
                ));
                assert(units_groups_multiset(uv).add(group_views(current_batch@).to_multiset())
                    =~= gv.take(i + 1).to_multiset());
                assert(units_total(uv) == units_total(units_pre) + g@.file_paths.len());
            }
        } else {
            let ghost batch_pre = group_views(current_batch@);
            proof {
                // the incoming identifier is new to the batch: the batch's
                // identifiers lie in the strict prefix, and all input
                // identifiers are distinct
                assert forall|j: int| 0 <= j < batch_pre.len() implies (#[trigger] batch_pre[j]).cas_id
                    != g@.cas_id by {
                    let l = choose|l: int|
                        0 <= l < gv.take(i as int).len() && gv.take(i as int)[l].cas_id
                            == batch_pre[j].cas_id;
                    assert(gv[l] == gv.take(i as int)[l]);
                }
            }
            current_batch_size = current_batch_size + glen;
            current_batch.push(g.duplicate());
            proof {
                let bv = group_views(current_batch@);
                assert(bv =~= batch_pre.push(g@));
                assert(bv.drop_last() =~= batch_pre);
                assert(total_count(bv) == total_count(batch_pre) + g@.file_paths.len());
                assert(bv.to_multiset() =~= batch_pre.to_multiset().insert(g@));
                assert(units_groups_multiset(unit_views(units@)).add(bv.to_multiset()) =~= gv.take(
                    i + 1,
                ).to_multiset());
                lemma_contains_cas_push(gv.take(i as int), g@);
                assert(forall|j: int|
                    0 <= j < bv.len() ==> contains_cas(
                        gv.take(i + 1),
                        (#[trigger] bv[j]).cas_id,
                    ));
            }
            if current_batch_size >= chunk_size {
                let ghost units_pre = unit_views(units@);
                let ghost batch_now = group_views(current_batch@);
                let flushed = WorkUnit { groups: current_batch };
                current_batch = Vec::new();
                current_batch_size = 0;
                units.push(flushed);
                proof {
                    let uv = unit_views(units@);
                    assert(flushed@ == batch_now);
                    assert(uv =~= units_pre.push(batch_now));
                    assert(uv.drop_last() =~= units_pre);
                    assert(group_views(current_batch@) =~= Seq::<GroupView>::empty());
                    assert(Seq::<GroupView>::empty().to_multiset() =~= Multiset::<
                        GroupView,
                    >::empty());
                    assert(units_groups_multiset(uv) =~= units_groups_multiset(units_pre).add(
                        batch_now.to_multiset(),
                    ));
                    assert(units_groups_multiset(uv).add(
                        group_views(current_batch@).to_multiset(),
                    ) =~= gv.take(i + 1).to_multiset());
                    assert(units_total(uv) == units_total(units_pre) + total_count(batch_now));
                }
            }
        }
        i = i + 1;
    }
    proof {
        assert(gv.take(file_paths_by_cas_id@.len() as int) =~= gv);
    }
    if current_batch.len() > 0 {
        let ghost units_pre = unit_views(units@);
        let ghost batch_now = group_views(current_batch@);
        let leftover = WorkUnit { groups: current_batch };
        units.push(leftover);
        proof {
            let uv = unit_views(units@);
            assert(leftover@ == batch_now);
            assert(uv =~= units_pre.push(batch_now));
            assert(uv.drop_last() =~= units_pre);
            assert(units_groups_multiset(uv) =~= units_groups_multiset(units_pre).add(
                batch_now.to_multiset(),
            ));
            assert(units_groups_multiset(uv) == gv.to_multiset());
            assert(units_total(uv) == units_total(units_pre) + total_count(batch_now));
            assert(batch_now.len() > 0);
        }
    } else {
        proof {
            assert(group_views(current_batch@) =~= Seq::<GroupView>::empty());
            assert(Seq::<GroupView>::empty().to_multiset() =~= Multiset::<GroupView>::empty());
            assert(units_groups_multiset(unit_views(units@)).add(Multiset::<GroupView>::empty())
                =~= units_groups_multiset(unit_views(units@)));
        }
    }
    units
}

/// A units total is never negative.
pub proof fn lemma_units_total_nonneg(s: Seq<Seq<GroupView>>)
    ensures
        units_total(s) >= 0,
    decreases s.len(),
{
    if s.len() > 0 {
        lemma_units_total_nonneg(s.drop_last());
        lemma_total_count_nonneg(s.last());
    }
}

/// With no unit empty, there are at most as many units as groups.
pub proof fn lemma_unit_count_le_groups(s: Seq<Seq<GroupView>>)
    requires
        forall|k: int| 0 <= k < s.len() ==> (#[trigger] s[k]).len() > 0,
    ensures
        s.len() <= units_group_count(s),
    decreases s.len(),
{
    if s.len() > 0 {
        assert(forall|k: int| 0 <= k < s.drop_last().len() ==> s.drop_last()[k] == s[k]);
        lemma_unit_count_le_groups(s.drop_last());
        assert(s.last() == s[s.len() - 1]);
    }
}

/// Splits the accumulated groups into the units that are ready for
/// dispatch mid-run, and the leftover accumulator that stays below the
/// threshold and is carried into the next step (or into the resumable
/// state).
///
/// Same flush rule as `dispatch_object_processor_tasks`, except that the
/// final partial batch is returned instead of flushed: every returned unit
/// reaches the threshold.
#[verifier::loop_isolation(false)]
pub fn chunk_ready_units(file_paths_by_cas_id: &Vec<CasGroup>, chunk_size: usize) -> (r: (
    Vec<WorkUnit>,
    Vec<CasGroup>,
))
    requires
        chunk_size >= 1,
        chunk_size <= usize::MAX / 2,
        unique_cas(group_views(file_paths_by_cas_id@)),
    ensures
        units_groups_multiset(unit_views(r.0@)).add(group_views(r.1@).to_multiset())
            == group_views(file_paths_by_cas_id@).to_multiset(),
        units_total(unit_views(r.0@)) + total_count(group_views(r.1@)) == total_count(
            group_views(file_paths_by_cas_id@),
        ),
        units_group_count(unit_views(r.0@)) + r.1@.len() == file_paths_by_cas_id@.len(),
        forall|k: int| 0 <= k < r.0@.len() ==> #[trigger] unit_views(r.0@)[k].len() > 0,
        forall|k: int|
            0 <= k < r.0@.len() ==> total_count(#[trigger] unit_views(r.0@)[k]) >= chunk_size,
        forall|k: int, j: int|
            0 <= k < r.0@.len() && 0 <= j < unit_views(r.0@)[k].len() && (#[trigger] unit_views(
                r.0@,
            )[k][j]).file_paths.len() >= chunk_size ==> unit_views(r.0@)[k].len() == 1,
        forall|k: int|
            0 <= k < r.0@.len() && unit_views(r.0@)[k].len() > 1 ==> total_count(
                #[trigger] unit_views(r.0@)[k],
            ) < 2 * chunk_size,
        forall|k: int| 0 <= k < r.0@.len() ==> unique_cas(#[trigger] unit_views(r.0@)[k]),
        unique_cas(group_views(r.1@)),
        total_count(group_views(r.1@)) < chunk_size,
        forall|j: int|
            0 <= j < group_views(r.1@).len() ==> (#[trigger] group_views(r.1@)[j]).file_paths.len()
                < chunk_size,
{
    broadcast use vstd::seq_lib::group_to_multiset_ensures;

    let ghost gv = group_views(file_paths_by_cas_id@);
    let mut units: Vec<WorkUnit> = Vec::new();
    let mut current_batch: Vec<CasGroup> = Vec::new();
    let mut current_batch_size: usize = 0;
    let mut i: usize = 0;
    proof {
        assert(gv.take(0int) =~= Seq::<GroupView>::empty());
        assert(unit_views(units@) =~= Seq::<Seq<GroupView>>::empty());
        assert(group_views(current_batch@) =~= Seq::<GroupView>::empty());
        assert(Seq::<GroupView>::empty().to_multiset() =~= Multiset::<GroupView>::empty());
        assert(units_groups_multiset(unit_views(units@)).add(
            group_views(current_batch@).to_multiset(),
        ) =~= gv.take(0int).to_multiset());
    }
    while i < file_paths_by_cas_id.len()
        invariant
            i <= file_paths_by_cas_id.len(),
            current_batch_size == total_count(group_views(current_batch@)),
            current_batch_size < chunk_size,
            unique_cas(group_views(current_batch@)),
            forall|j: int|
                0 <= j < group_views(current_batch@).len() ==> (#[trigger] group_views(
                    current_batch@,
                )[j]).file_paths.len() < chunk_size,
            forall|j: int|
                0 <= j < group_views(current_batch@).len() ==> contains_cas(
                    gv.take(i as int),
                    (#[trigger] group_views(current_batch@)[j]).cas_id,
                ),
            units_groups_multiset(unit_views(units@)).add(
                group_views(current_batch@).to_multiset(),
            ) == gv.take(i as int).to_multiset(),
            units_total(unit_views(units@)) + current_batch_size == total_count(
                gv.take(i as int),
            ),
            units_group_count(unit_views(units@)) + current_batch@.len() == i,
            forall|k: int| 0 <= k < units@.len() ==> #[trigger] unit_views(units@)[k].len() > 0,
            forall|k: int|
                0 <= k < units@.len() ==> total_count(#[trigger] unit_views(units@)[k])
                    >= chunk_size,
            forall|k: int, j: int|
                0 <= k < units@.len() && 0 <= j < unit_views(units@)[k].len() && (
                #[trigger] unit_views(units@)[k][j]).file_paths.len() >= chunk_size
                    ==> unit_views(units@)[k].len() == 1,
            forall|k: int|
                0 <= k < units@.len() && unit_views(units@)[k].len() > 1 ==> total_count(
                    #[trigger] unit_views(units@)[k],
                ) < 2 * chunk_size,
            forall|k: int| 0 <= k < units@.len() ==> unique_cas(#[trigger] unit_views(units@)[k]),
        decreases file_paths_by_cas_id.len() - i,
    {
        let g = &file_paths_by_cas_id[i];
        let glen = g.file_paths.len();
        proof {
            assert(gv[i as int] == g@);
            assert(gv.take(i + 1) =~= gv.take(i as int).push(g@));
            assert(gv.take(i + 1).drop_last() =~= gv.take(i as int));
            assert(gv.take(i + 1).last() == g@);
            assert(total_count(gv.take(i + 1)) == total_count(gv.take(i as int))
                + g@.file_paths.len());
        }
        if glen >= chunk_size {
            let ghost units_pre = unit_views(units@);
            let standalone = WorkUnit { groups: vec![g.duplicate()] };
            proof {
                assert(standalone@ =~= Seq::<GroupView>::empty().push(g@));
                assert(total_count(standalone@) == g@.file_paths.len()) by {
                    assert(standalone@.drop_last() =~= Seq::<GroupView>::empty());
                    assert(total_count(Seq::<GroupView>::empty()) == 0);
                }
                assert(standalone@.to_multiset() =~= Multiset::<GroupView>::empty().insert(g@));
            }
            units.push(standalone);
            proof {
                let uv = unit_views(units@);
                assert(uv =~= units_pre.push(standalone@));
                assert(uv.drop_last() =~= units_pre);
                assert(units_groups_multiset(uv) =~= units_groups_multiset(units_pre).insert(
                    g@,
                ));
                assert(units_groups_multiset(uv).add(group_views(current_batch@).to_multiset())
                    =~= gv.take(i + 1).to_multiset());
                assert(units_total(uv) == units_total(units_pre) + g@.file_paths.len());
            }
        } else {
            let ghost batch_pre = group_views(current_batch@);
            proof {
                // the incoming identifier is new to the batch: the batch's
                // identifiers lie in the strict prefix, and all input
                // identifiers are distinct
                assert forall|j: int| 0 <= j < batch_pre.len() implies (#[trigger] batch_pre[j]).cas_id
                    != g@.cas_id by {
                    let l = choose|l: int|
                        0 <= l < gv.take(i as int).len() && gv.take(i as int)[l].cas_id
                            == batch_pre[j].cas_id;
                    assert(gv[l] == gv.take(i as int)[l]);
                }
            }
            current_batch_size = current_batch_size + glen;
            current_batch.push(g.duplicate());
            proof {
                let bv = group_views(current_batch@);
                assert(bv =~= batch_pre.push(g@));
                assert(bv.drop_last() =~= batch_pre);
                assert(total_count(bv) == total_count(batch_pre) + g@.file_paths.len());
                assert(bv.to_multiset() =~= batch_pre.to_multiset().insert(g@));
                assert(units_groups_multiset(unit_views(units@)).add(bv.to_multiset()) =~= gv.take(
                    i + 1,
                ).to_multiset());
                lemma_contains_cas_push(gv.take(i as int), g@);
                assert(forall|j: int|
                    0 <= j < bv.len() ==> contains_cas(
                        gv.take(i + 1),
                        (#[trigger] bv[j]).cas_id,
                    ));
            }
            if current_batch_size >= chunk_size {
                let ghost units_pre = unit_views(units@);
                let ghost batch_now = group_views(current_batch@);
                let flushed = WorkUnit { groups: current_batch };
                current_batch = Vec::new();
                current_batch_size = 0;
                units.push(flushed);
                proof {
                    let uv = unit_views(units@);
                    assert(flushed@ == batch_now);
                    assert(uv =~= units_pre.push(batch_now));
                    assert(uv.drop_last() =~= units_pre);
                    assert(group_views(current_batch@) =~= Seq::<GroupView>::empty());
                    assert(Seq::<GroupView>::empty().to_multiset() =~= Multiset::<
                        GroupView,
                    >::empty());
                    assert(units_groups_multiset(uv) =~= units_groups_multiset(units_pre).add(
                        batch_now.to_multiset(),
                    ));
                    assert(units_groups_multiset(uv).add(
                        group_views(current_batch@).to_multiset(),
                    ) =~= gv.take(i + 1).to_multiset());
                    assert(units_total(uv) == units_total(units_pre) + total_count(batch_now));
                }
            }
        }
        i = i + 1;
    }
    proof {
        assert(gv.take(file_paths_by_cas_id@.len() as int) =~= gv);
    }
    (units, current_batch)
}

/// Appending one more group to the scanned prefix extends `paths_of` at that
/// group's identifier and leaves every other identifier unchanged.
proof fn lemma_paths_of_last_absent_or(s: Seq<GroupView>, i: int, cas: Seq<u8>)
    requires
        0 <= i < s.len(),
        unique_cas(s.take(i + 1)),
        s[i].cas_id == cas,
    ensures
        paths_of(s.take(i + 1), cas) == paths_of(s.take(i), cas) + s[i].file_paths,
{
    assert(s.take(i + 1).last() == s[i]);
    assert(paths_of(s.take(i + 1), cas) == s[i].file_paths);
    assert(forall|j: int| 0 <= j < i ==> s.take(i + 1)[j] == s.take(i)[j]);
    assert(!contains_cas(s.take(i), cas)) by {
        assert(forall|j: int| 0 <= j < i ==> #[trigger] s.take(i)[j] == s.take(i + 1)[j]);
    }
    lemma_paths_of_absent(s.take(i), cas);
}

} // verus!
