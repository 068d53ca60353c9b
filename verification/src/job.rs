//! Job driver: owns the scan, extract, batch, dispatch, process loop over an
//! id-ordered snapshot of the index, carrying a resumable state between
//! steps and collecting non-critical errors.
//!
//! Filesystem identification is external I/O; its per-record results enter
//! the driver as a table of `RecordOutcome` values, so the whole decision
//! logic is verified for every possible identification outcome.

use vstd::prelude::*;

use crate::chunker::{
    accumulate_file_paths_by_cas_id, chunk_ready_units, dispatch_object_processor_tasks,
    group_views, has_pending, lemma_paths_of_elem, lemma_total_count_nonneg,
    lemma_unit_count_le_groups, lemma_units_group_count_take_le, lemma_units_multiset_elem,
    lemma_units_total_nonneg, paths_of, total_count, unique_cas, unit_views, units_group_count,
    units_groups_multiset, units_total, CasGroup, FilePathToCreateOrLinkObject, GroupView,
    WorkUnit,
};
use crate::error::{ErrView, NonCriticalFileIdentifierError};
use crate::orphan::{matches_orphan, orphan_matches, FilterView, OrphanFilter, ScanScope};
use crate::records::{bytes_clone, ContentId, ObjectKind, PathRecord, RecordView, record_views};
use crate::state::{JobStats, ResumableJobState};
use crate::store::{
    lemma_map_extends_trans, link_views, map_extends, process_unit, valid_link, LinkOp, LinkView,
    ObjectStore,
};

verus! {

/// The result of identifying one path record, as the external identifier
/// delivered it.
pub enum IdentifyOutcome {
    /// Identification succeeded: the content identifier (absent exactly for
    /// empty content), the resolved kind, and the entry's creation time.
    Identified { cas_id: Option<ContentId>, kind: ObjectKind, created_at: u64 },
    /// Identification failed with a non-critical, per-record error.
    Failed { error: NonCriticalFileIdentifierError },
}

/// One row of the identification table: the outcome for one record id.
pub struct RecordOutcome {
    pub file_path_id: u64,
    pub outcome: IdentifyOutcome,
}

/// Mathematical value of an `IdentifyOutcome`.
pub enum OutcomeView {
    Identified { cas_id: Option<Seq<u8>>, kind: ObjectKind, created_at: u64 },
    Failed { error: ErrView },
}

/// Mathematical value of a `RecordOutcome`.
pub struct RecordOutcomeView {
    pub file_path_id: u64,
    pub outcome: OutcomeView,
}

impl View for IdentifyOutcome {
    type V = OutcomeView;

    open spec fn view(&self) -> OutcomeView {
        match self {
            IdentifyOutcome::Identified { cas_id, kind, created_at } => OutcomeView::Identified {
                cas_id: match cas_id {
                    Some(c) => Some(c@),
                    None => None,
                },
                kind: *kind,
                created_at: *created_at,
            },
            IdentifyOutcome::Failed { error } => OutcomeView::Failed { error: error@ },
        }
    }
}

impl View for RecordOutcome {
    type V = RecordOutcomeView;

    open spec fn view(&self) -> RecordOutcomeView {
        RecordOutcomeView { file_path_id: self.file_path_id, outcome: self.outcome@ }
    }
}

/// The views of an identification table.
pub open spec fn outcome_views(s: Seq<RecordOutcome>) -> Seq<RecordOutcomeView> {
    s.map_values(|o: RecordOutcome| o@)
}

/// The first outcome recorded for a record id, if any.
pub open spec fn spec_find_outcome(t: Seq<RecordOutcomeView>, id: u64) -> Option<OutcomeView>
    decreases t.len(),
{
    if t.len() == 0 {
        None
    } else if t[0].file_path_id == id {
        Some(t[0].outcome)
    } else {
        spec_find_outcome(t.drop_first(), id)
    }
}

/// The content identifier the table assigns to a record id, if
/// identification succeeded with non-empty content.
pub open spec fn outcome_cas(t: Seq<RecordOutcomeView>, id: u64) -> Option<Seq<u8>> {
    match spec_find_outcome(t, id) {
        Some(OutcomeView::Identified { cas_id, .. }) => cas_id,
        _ => None,
    }
}

/// Whether identification failed for a record id: an explicit failure, no
/// recorded outcome at all (the metadata read never completed), or a
/// success without an identifier — a scanned orphan has non-empty content,
/// so an absent identifier means identification did not do its work.
pub open spec fn outcome_failed(t: Seq<RecordOutcomeView>, id: u64) -> bool {
    match spec_find_outcome(t, id) {
        None => true,
        Some(OutcomeView::Failed { .. }) => true,
        Some(OutcomeView::Identified { cas_id, .. }) => cas_id is None,
    }
}

/// A scanned orphan that identified with a content identifier: it will be
/// linked.
pub open spec fn linkable(f: FilterView, t: Seq<RecordOutcomeView>, r: RecordView) -> bool {
    orphan_matches(f, r) && outcome_cas(t, r.id) is Some
}

/// A scanned orphan whose identification failed: it yields an error and
/// stays orphan.
pub open spec fn failed_record(f: FilterView, t: Seq<RecordOutcomeView>, r: RecordView) -> bool {
    orphan_matches(f, r) && outcome_failed(t, r.id)
}

/// How many records of the snapshot the scanner hands out.
pub open spec fn count_matched(rs: Seq<RecordView>, f: FilterView) -> int
    decreases rs.len(),
{
    if rs.len() == 0 {
        0
    } else {
        count_matched(rs.drop_last(), f) + if orphan_matches(f, rs.last()) {
            1int
        } else {
            0int
        }
    }
}

/// How many scanned records identify with a content identifier.
pub open spec fn count_linkable(rs: Seq<RecordView>, f: FilterView, t: Seq<RecordOutcomeView>) -> int
    decreases rs.len(),
{
    if rs.len() == 0 {
        0
    } else {
        count_linkable(rs.drop_last(), f, t) + if linkable(f, t, rs.last()) {
            1int
        } else {
            0int
        }
    }
}

/// How many scanned records fail identification.
pub open spec fn count_failed(rs: Seq<RecordView>, f: FilterView, t: Seq<RecordOutcomeView>) -> int
    decreases rs.len(),
{
    if rs.len() == 0 {
        0
    } else {
        count_failed(rs.drop_last(), f, t) + if failed_record(f, t, rs.last()) {
            1int
        } else {
            0int
        }
    }
}

/// A match at position `j`, with no earlier match, is what
/// `spec_find_outcome` returns.
proof fn lemma_find_outcome_at(t: Seq<RecordOutcomeView>, id: u64, j: int)
    requires
        0 <= j < t.len(),
        forall|l: int| 0 <= l < j ==> (#[trigger] t[l]).file_path_id != id,
        t[j].file_path_id == id,
    ensures
        spec_find_outcome(t, id) == Some(t[j].outcome),
    decreases j,
{
    if j == 0 {
    } else {
        assert(t[0].file_path_id != id);
        assert(forall|l: int| 0 <= l < t.drop_first().len() ==> t.drop_first()[l] == t[l + 1]);
        lemma_find_outcome_at(t.drop_first(), id, j - 1);
    }
}

/// With no match anywhere, `spec_find_outcome` finds nothing.
proof fn lemma_find_outcome_none(t: Seq<RecordOutcomeView>, id: u64)
    requires
        forall|l: int| 0 <= l < t.len() ==> (#[trigger] t[l]).file_path_id != id,
    ensures
        spec_find_outcome(t, id) is None,
    decreases t.len(),
{
    if t.len() > 0 {
        assert(forall|l: int| 0 <= l < t.drop_first().len() ==> t.drop_first()[l] == t[l + 1]);
        lemma_find_outcome_none(t.drop_first(), id);
    }
}

/// Finds the first outcome recorded for a record id.
#[verifier::loop_isolation(false)]
pub fn find_outcome(t: &Vec<RecordOutcome>, id: u64) -> (r: Option<usize>)
    ensures
        match r {
            Some(k) => k < t@.len() && spec_find_outcome(outcome_views(t@), id) == Some(
                outcome_views(t@)[k as int].outcome,
            ),
            None => spec_find_outcome(outcome_views(t@), id) is None,
        },
{
    let ghost tv = outcome_views(t@);
    let mut k: usize = 0;
    while k < t.len()
        invariant
            k <= t@.len(),
            forall|l: int| 0 <= l < k ==> (#[trigger] tv[l]).file_path_id != id,
        decreases t@.len() - k,
    {
        if t[k].file_path_id == id {
            proof {
                lemma_find_outcome_at(tv, id, k as int);
            }
            return Some(k);
        }
        k = k + 1;
    }
    proof {
        lemma_find_outcome_none(tv, id);
    }
    None
}

/// The link stems from a pending path of one of the units' groups.
pub open spec fn link_from_units(us: Seq<Seq<GroupView>>, l: LinkView) -> bool {
    exists|k: int| 0 <= k < us.len() && has_pending(#[trigger] us[k], l.file_path_id, l.cas_id)
}

/// Every pending path of the group is to be linked under its record's own
/// identified identifier, or was carried in by the resumed accumulator.
pub open spec fn good_group(
    t: Seq<RecordOutcomeView>,
    acc0: Seq<GroupView>,
    g: GroupView,
) -> bool {
    forall|j: int|
        0 <= j < g.file_paths.len() ==> (outcome_cas(
            t,
            (#[trigger] g.file_paths[j]).file_path_id,
        ) == Some(g.cas_id) || has_pending(acc0, g.file_paths[j].file_path_id, g.cas_id))
}

/// The link binds a record to its own identified identifier, or to the
/// identifier its resumed accumulator entry carried.
pub open spec fn good_link(t: Seq<RecordOutcomeView>, acc0: Seq<GroupView>, l: LinkView) -> bool {
    outcome_cas(t, l.file_path_id) == Some(l.cas_id) || has_pending(
        acc0,
        l.file_path_id,
        l.cas_id,
    )
}

/// Chunking moves groups without altering them: links drawn from the units
/// are good whenever the chunked accumulator's groups were, and so is the
/// leftover.
proof fn lemma_chunk_preserves_good(
    t: Seq<RecordOutcomeView>,
    acc0: Seq<GroupView>,
    accv: Seq<GroupView>,
    uv: Seq<Seq<GroupView>>,
    leftv: Seq<GroupView>,
)
    requires
        units_groups_multiset(uv).add(leftv.to_multiset()) == accv.to_multiset(),
        forall|k: int| 0 <= k < accv.len() ==> good_group(t, acc0, #[trigger] accv[k]),
    ensures
        forall|l: LinkView| #[trigger] link_from_units(uv, l) ==> good_link(t, acc0, l),
        forall|k: int| 0 <= k < leftv.len() ==> good_group(t, acc0, #[trigger] leftv[k]),
{
    broadcast use vstd::seq_lib::group_to_multiset_ensures;

    assert forall|l: LinkView| #[trigger] link_from_units(uv, l) implies good_link(
        t,
        acc0,
        l,
    ) by {
        let k = choose|k: int|
            0 <= k < uv.len() && has_pending(uv[k], l.file_path_id, l.cas_id);
        let (gk, ji) = choose|gk: int, ji: int|
            0 <= gk < uv[k].len() && 0 <= ji < uv[k][gk].file_paths.len() && uv[k][gk].cas_id
                == l.cas_id && uv[k][gk].file_paths[ji].file_path_id == l.file_path_id;
        lemma_units_multiset_elem(uv, k, gk);
        let g = uv[k][gk];
        assert(accv.to_multiset().count(g) >= 1);
        assert(accv.contains(g));
        let ai = choose|ai: int| 0 <= ai < accv.len() && accv[ai] == g;
        assert(good_group(t, acc0, accv[ai]));
        assert(outcome_cas(t, g.file_paths[ji].file_path_id) == Some(g.cas_id) || has_pending(
            acc0,
            g.file_paths[ji].file_path_id,
            g.cas_id,
        ));
    }
    assert forall|k: int| 0 <= k < leftv.len() implies good_group(
        t,
        acc0,
        #[trigger] leftv[k],
    ) by {
        assert(leftv.to_multiset().count(leftv[k]) > 0) by {
            assert(leftv.contains(leftv[k]));
        }
        assert(accv.to_multiset().count(leftv[k]) > 0);
        assert(accv.contains(leftv[k]));
        let ai = choose|ai: int| 0 <= ai < accv.len() && accv[ai] == leftv[k];
        assert(good_group(t, acc0, accv[ai]));
    }
}

/// Merging good groups gives good groups: the accumulator only ever
/// concatenates pending paths under their own identifiers.
proof fn lemma_accumulate_preserves_good(
    t: Seq<RecordOutcomeView>,
    acc0: Seq<GroupView>,
    pre: Seq<GroupView>,
    input: Seq<GroupView>,
    post: Seq<GroupView>,
)
    requires
        forall|k: int| 0 <= k < pre.len() ==> good_group(t, acc0, #[trigger] pre[k]),
        forall|k: int| 0 <= k < input.len() ==> good_group(t, acc0, #[trigger] input[k]),
        forall|k: int|
            0 <= k < post.len() ==> (#[trigger] post[k]).file_paths == paths_of(
                pre,
                post[k].cas_id,
            ) + paths_of(input, post[k].cas_id),
    ensures
        forall|k: int| 0 <= k < post.len() ==> good_group(t, acc0, #[trigger] post[k]),
{
    assert forall|k: int| 0 <= k < post.len() implies good_group(t, acc0, #[trigger] post[k]) by {
        let g = post[k];
        let p1 = paths_of(pre, g.cas_id);
        let p2 = paths_of(input, g.cas_id);
        assert forall|j: int| 0 <= j < g.file_paths.len() implies (outcome_cas(
            t,
            (#[trigger] g.file_paths[j]).file_path_id,
        ) == Some(g.cas_id) || has_pending(acc0, g.file_paths[j].file_path_id, g.cas_id)) by {
            if j < p1.len() {
                assert(g.file_paths[j] == p1[j]);
                lemma_paths_of_elem(pre, g.cas_id, j);
                let (k2, i2) = choose|k2: int, i2: int|
                    0 <= k2 < pre.len() && 0 <= i2 < pre[k2].file_paths.len() && pre[k2].cas_id
                        == g.cas_id && pre[k2].file_paths[i2].file_path_id
                        == p1[j].file_path_id;
                assert(good_group(t, acc0, pre[k2]));
                assert(outcome_cas(t, pre[k2].file_paths[i2].file_path_id) == Some(
                    pre[k2].cas_id,
                ) || has_pending(acc0, pre[k2].file_paths[i2].file_path_id, pre[k2].cas_id));
            } else {
                assert(g.file_paths[j] == p2[j - p1.len()]);
                lemma_paths_of_elem(input, g.cas_id, j - p1.len());
                let (k2, i2) = choose|k2: int, i2: int|
                    0 <= k2 < input.len() && 0 <= i2 < input[k2].file_paths.len()
                        && input[k2].cas_id == g.cas_id && input[k2].file_paths[i2].file_path_id
                        == p2[j - p1.len()].file_path_id;
                assert(good_group(t, acc0, input[k2]));
                assert(outcome_cas(t, input[k2].file_paths[i2].file_path_id) == Some(
                    input[k2].cas_id,
                ) || has_pending(
                    acc0,
                    input[k2].file_paths[i2].file_path_id,
                    input[k2].cas_id,
                ));
            }
        }
    }
}

/// Copies the links of `src` onto the end of `dst`.
#[verifier::loop_isolation(false)]
pub fn append_links(dst: &mut Vec<LinkOp>, src: &Vec<LinkOp>)
    ensures
        link_views(final(dst)@) == link_views(old(dst)@) + link_views(src@),
{
    let mut i: usize = 0;
    proof {
        assert(link_views(src@).take(0int) =~= Seq::<LinkView>::empty());
        assert(link_views(dst@) =~= link_views(old(dst)@) + link_views(src@).take(0int));
    }
    while i < src.len()
        invariant
            i <= src@.len(),
            link_views(dst@) == link_views(old(dst)@) + link_views(src@).take(i as int),
        decreases src@.len() - i,
    {
        dst.push(src[i].duplicate());
        proof {
            assert(link_views(src@)[i as int] == src@[i as int]@);
            assert(link_views(src@).take(i + 1) =~= link_views(src@).take(i as int).push(
                src@[i as int]@,
            ));
            assert(link_views(dst@) =~= (link_views(old(dst)@) + link_views(src@).take(
                i as int,
            )).push(src@[i as int]@));
            assert(link_views(dst@) =~= link_views(old(dst)@) + link_views(src@).take(i + 1));
        }
        i = i + 1;
    }
    proof {
        assert(link_views(src@).take(src@.len() as int) =~= link_views(src@));
    }
}

/// Processes a batch of dispatched units against the store: the in-memory
/// equivalent of awaiting all of a step's dispatched tasks.
#[verifier::loop_isolation(false)]
pub fn process_units(
    units: &Vec<WorkUnit>,
    store: &mut ObjectStore,
    sync_log: &mut Vec<LinkOp>,
    links: &mut Vec<LinkOp>,
) -> (ok: bool)
    requires
        old(store).wf(),
        forall|k: int| 0 <= k < units@.len() ==> unique_cas(#[trigger] unit_views(units@)[k]),
        old(store).next_object_id + units_group_count(unit_views(units@)) <= u64::MAX,
        forall|l: int|
            0 <= l < old(links)@.len() ==> valid_link(
                old(store).as_map(),
                #[trigger] link_views(old(links)@)[l],
            ),
    ensures
        ok,
        final(store).wf(),
        map_extends(old(store).as_map(), final(store).as_map()),
        old(store).next_object_id <= final(store).next_object_id <= old(store).next_object_id
            + units_group_count(unit_views(units@)),
        final(store).objects@.len() - old(store).objects@.len() == final(store).next_object_id
            - old(store).next_object_id,
        units@.len() == 0 ==> *final(store) == *old(store) && final(sync_log)@ == old(
            sync_log,
        )@ && final(links)@ == old(links)@,
        final(links)@.len() == old(links)@.len() + units_total(unit_views(units@)),
        link_views(final(links)@).take(old(links)@.len() as int) == link_views(old(links)@),
        link_views(final(sync_log)@) == link_views(old(sync_log)@) + link_views(
            final(links)@,
        ).skip(old(links)@.len() as int),
        forall|j: int|
            0 <= j < final(links)@.len() ==> valid_link(
                final(store).as_map(),
                #[trigger] link_views(final(links)@)[j],
            ),
        forall|j: int|
            old(links)@.len() <= j < final(links)@.len() ==> link_from_units(
                unit_views(units@),
                #[trigger] link_views(final(links)@)[j],
            ),
{
    let ghost uv = unit_views(units@);
    let ghost links0 = link_views(old(links)@);
    let ghost log0 = link_views(old(sync_log)@);
    let mut j: usize = 0;
    proof {
        assert(uv.take(0int) =~= Seq::<Seq<crate::chunker::GroupView>>::empty());
        assert(link_views(links@).take(links0.len() as int) =~= links0);
        assert(link_views(links@).skip(links0.len() as int) =~= Seq::<LinkView>::empty());
        assert(link_views(sync_log@) =~= log0 + link_views(links@).skip(links0.len() as int));
    }
    while j < units.len()
        invariant
            j <= units@.len(),
            store.wf(),
            map_extends(old(store).as_map(), store.as_map()),
            old(store).next_object_id <= store.next_object_id <= old(store).next_object_id
                + units_group_count(uv.take(j as int)),
            store.objects@.len() - old(store).objects@.len() == store.next_object_id - old(
                store,
            ).next_object_id,
            units@.len() == 0 ==> *store == *old(store) && sync_log@ == old(sync_log)@ && links@
                == old(links)@,
            links@.len() == links0.len() + units_total(uv.take(j as int)),
            link_views(links@).take(links0.len() as int) == links0,
            link_views(sync_log@) == log0 + link_views(links@).skip(links0.len() as int),
            forall|l: int|
                0 <= l < links@.len() ==> valid_link(
                    store.as_map(),
                    #[trigger] link_views(links@)[l],
                ),
            forall|l: int|
                links0.len() <= l < links@.len() ==> link_from_units(
                    uv,
                    #[trigger] link_views(links@)[l],
                ),
        decreases units@.len() - j,
    {
        proof {
            assert(uv[j as int] == units@[j as int]@);
            assert(uv.take(j + 1) =~= uv.take(j as int).push(uv[j as int]));
            assert(uv.take(j + 1).drop_last() =~= uv.take(j as int));
            assert(uv.take(j + 1).last() == uv[j as int]);
            lemma_units_group_count_take_le(uv, j + 1);
            lemma_units_total_nonneg(uv.take(j as int));
            lemma_total_count_nonneg(uv[j as int]);
        }
        let ghost store_pre = *store;
        let ghost links_pre = link_views(links@);
        let unit_links = process_unit(store, &units[j], sync_log);
        append_links(links, &unit_links);
        proof {
            lemma_map_extends_trans(
                old(store).as_map(),
                store_pre.as_map(),
                store.as_map(),
            );
            assert(links_pre.len() >= links0.len());
            assert(link_views(links@) =~= links_pre + link_views(unit_links@));
            assert(unit_links@.len() == total_count(uv[j as int]));
            assert(links@.len() == links0.len() + units_total(uv.take(j + 1)));
            assert(link_views(links@).take(links0.len() as int) =~= links0);
            assert(link_views(links@).skip(links0.len() as int) =~= links_pre.skip(
                links0.len() as int,
            ) + link_views(unit_links@));
            assert(link_views(sync_log@) =~= log0 + link_views(links@).skip(
                links0.len() as int,
            ));
            // old links stay valid under the extended map, new links are
            // valid by the processor's contract
            assert forall|l: int| links_pre.len() <= l < links@.len() implies link_from_units(
                uv,
                #[trigger] link_views(links@)[l],
            ) by {
                assert(link_views(links@)[l] == link_views(unit_links@)[l - links_pre.len()]);
                crate::store::lemma_unit_links_elem(
                    uv[j as int],
                    store.as_map(),
                    l - links_pre.len(),
                );
                assert(has_pending(
                    uv[j as int],
                    link_views(links@)[l].file_path_id,
                    link_views(links@)[l].cas_id,
                ));
            }
            assert forall|l: int| 0 <= l < links@.len() implies valid_link(
                store.as_map(),
                #[trigger] link_views(links@)[l],
            ) by {
                if l < links_pre.len() {
                    assert(link_views(links@)[l] == links_pre[l]);
                    assert(valid_link(store_pre.as_map(), links_pre[l]));
                    crate::store::lemma_valid_link_extends(
                        store_pre.as_map(),
                        store.as_map(),
                        links_pre[l],
                    );
                } else {
                    assert(link_views(links@)[l] == link_views(unit_links@)[l
                        - links_pre.len()]);
                }
            }
        }
        j = j + 1;
    }
    proof {
        assert(uv.take(units@.len() as int) =~= uv);
    }
    true
}

/// The first committed link for a record id, if any.
pub open spec fn spec_find_link(ls: Seq<LinkView>, id: u64) -> Option<LinkView>
    decreases ls.len(),
{
    if ls.len() == 0 {
        None
    } else if ls[0].file_path_id == id {
        Some(ls[0])
    } else {
        spec_find_link(ls.drop_first(), id)
    }
}

/// What a committed link does to its record: both identity fields are set
/// together; a record without a link is untouched.
pub open spec fn spec_apply_link(r: RecordView, l: Option<LinkView>) -> RecordView {
    match l {
        None => r,
        Some(l) => RecordView {
            content_id: Some(l.cas_id),
            object_id: Some(l.object_id),
            ..r
        },
    }
}

/// A match at position `j`, with no earlier match, is what `spec_find_link`
/// returns.
proof fn lemma_find_link_at(ls: Seq<LinkView>, id: u64, j: int)
    requires
        0 <= j < ls.len(),
        forall|l: int| 0 <= l < j ==> (#[trigger] ls[l]).file_path_id != id,
        ls[j].file_path_id == id,
    ensures
        spec_find_link(ls, id) == Some(ls[j]),
    decreases j,
{
    if j == 0 {
    } else {
        assert(ls[0].file_path_id != id);
        assert(forall|l: int| 0 <= l < ls.drop_first().len() ==> ls.drop_first()[l] == ls[l + 1]);
        lemma_find_link_at(ls.drop_first(), id, j - 1);
    }
}

/// With no match anywhere, `spec_find_link` finds nothing.
proof fn lemma_find_link_none(ls: Seq<LinkView>, id: u64)
    requires
        forall|l: int| 0 <= l < ls.len() ==> (#[trigger] ls[l]).file_path_id != id,
    ensures
        spec_find_link(ls, id) is None,
    decreases ls.len(),
{
    if ls.len() > 0 {
        assert(forall|l: int| 0 <= l < ls.drop_first().len() ==> ls.drop_first()[l] == ls[l + 1]);
        lemma_find_link_none(ls.drop_first(), id);
    }
}

/// Finds the first committed link for a record id.
#[verifier::loop_isolation(false)]
pub fn find_link(links: &Vec<LinkOp>, id: u64) -> (r: Option<usize>)
    ensures
        match r {
            Some(k) => k < links@.len() && spec_find_link(link_views(links@), id) == Some(
                link_views(links@)[k as int],
            ),
            None => spec_find_link(link_views(links@), id) is None,
        },
{
    let ghost lv = link_views(links@);
    let mut k: usize = 0;
    while k < links.len()
        invariant
            k <= links@.len(),
            forall|l: int| 0 <= l < k ==> (#[trigger] lv[l]).file_path_id != id,
        decreases links@.len() - k,
    {
        if links[k].file_path_id == id {
            proof {
                lemma_find_link_at(lv, id, k as int);
            }
            return Some(k);
        }
        k = k + 1;
    }
    proof {
        lemma_find_link_none(lv, id);
    }
    None
}

/// Writes the committed links back into the index snapshot: a record with a
/// link gets its content and object identity set together; every other
/// record is untouched, so a record either carries both identity fields or
/// neither.
#[verifier::loop_isolation(false)]
pub fn apply_links(records: &mut Vec<PathRecord>, links: &Vec<LinkOp>)
    ensures
        final(records)@.len() == old(records)@.len(),
        forall|i: int|
            0 <= i < old(records)@.len() ==> record_views(final(records)@)[i] == spec_apply_link(
                #[trigger] record_views(old(records)@)[i],
                spec_find_link(link_views(links@), record_views(old(records)@)[i].id),
            ),
{
    let ghost rs0 = record_views(old(records)@);
    let ghost lv = link_views(links@);
    let mut out: Vec<PathRecord> = Vec::new();
    let mut i: usize = 0;
    while i < records.len()
        invariant
            i <= records@.len(),
            out@.len() == i,
            forall|j: int|
                0 <= j < i ==> record_views(out@)[j] == spec_apply_link(
                    #[trigger] rs0[j],
                    spec_find_link(lv, rs0[j].id),
                ),
        decreases records@.len() - i,
    {
        let r = &records[i];
        let ghost out_pre = record_views(out@);
        match find_link(links, r.id) {
            Some(k) => {
                let l = &links[k];
                let mut updated = r.duplicate();
                updated.content_id = Some(l.cas_id.duplicate());
                updated.object_id = Some(l.object_id);
                proof {
                    assert(lv[k as int] == l@);
                    assert(updated@ == spec_apply_link(rs0[i as int], spec_find_link(
                        lv,
                        rs0[i as int].id,
                    )));
                }
                out.push(updated);
            },
            None => {
                out.push(r.duplicate());
            },
        }
        proof {
            assert(record_views(out@) =~= out_pre.push(out@[i as int]@));
        }
        i = i + 1;
    }
    *records = out;
}

/// What `spec_find_link` returns is one of the links, for the asked id.
proof fn lemma_find_link_mem(ls: Seq<LinkView>, id: u64)
    ensures
        spec_find_link(ls, id) matches Some(l) ==> (exists|j: int|
            0 <= j < ls.len() && ls[j] == l) && l.file_path_id == id,
    decreases ls.len(),
{
    if ls.len() > 0 {
        if ls[0].file_path_id == id {
            assert(ls[0] == spec_find_link(ls, id).unwrap());
        } else {
            lemma_find_link_mem(ls.drop_first(), id);
            if spec_find_link(ls, id) is Some {
                let l = spec_find_link(ls, id).unwrap();
                let j = choose|j: int| 0 <= j < ls.drop_first().len() && ls.drop_first()[j] == l;
                assert(ls[j + 1] == l);
            }
        }
    }
}

/// Dedup invariant at the record level: after a run's committed links are
/// written back, two records that were both linked carry equal content
/// identifiers exactly when they carry equal object ids — byte-identical
/// content shares one object, distinct content gets distinct objects.
pub proof fn lemma_dedup_applied_records(
    store: &ObjectStore,
    links: Seq<LinkView>,
    r1: RecordView,
    r2: RecordView,
)
    requires
        store.wf(),
        forall|j: int| 0 <= j < links.len() ==> valid_link(store.as_map(), #[trigger] links[j]),
        spec_find_link(links, r1.id) is Some,
        spec_find_link(links, r2.id) is Some,
    ensures
        ({
            let a1 = spec_apply_link(r1, spec_find_link(links, r1.id));
            let a2 = spec_apply_link(r2, spec_find_link(links, r2.id));
            a1.content_id == a2.content_id <==> a1.object_id == a2.object_id
        }),
{
    let l1 = spec_find_link(links, r1.id).unwrap();
    let l2 = spec_find_link(links, r2.id).unwrap();
    lemma_find_link_mem(links, r1.id);
    lemma_find_link_mem(links, r2.id);
    let j1 = choose|j: int| 0 <= j < links.len() && links[j] == l1;
    let j2 = choose|j: int| 0 <= j < links.len() && links[j] == l2;
    assert(valid_link(store.as_map(), l1));
    assert(valid_link(store.as_map(), l2));
    crate::store::lemma_dedup_links(store, l1, l2);
}

/// Empty-content exclusion: a zero-length record never matches the orphan
/// filter, so it is never identified and no content object is ever created
/// for it.
pub proof fn lemma_empty_record_excluded(f: FilterView, r: RecordView)
    requires
        r.size_in_bytes == 0,
    ensures
        !orphan_matches(f, r),
{
}

/// Idempotence: a record that carries both identity fields never matches
/// the orphan filter, so a second run over an unchanged, fully linked
/// snapshot scans nothing and performs no work.
pub proof fn lemma_linked_record_not_rescanned(f: FilterView, r: RecordView)
    requires
        r.content_id is Some,
        r.object_id is Some,
    ensures
        !orphan_matches(f, r),
{
}

/// Idempotence over a whole snapshot: with every record fully linked, the
/// scanner hands out nothing, nothing is linkable, and nothing fails.
pub proof fn lemma_second_run_no_work(
    rs: Seq<RecordView>,
    f: FilterView,
    t: Seq<RecordOutcomeView>,
)
    requires
        forall|i: int|
            0 <= i < rs.len() ==> (#[trigger] rs[i]).content_id is Some && rs[i].object_id
                is Some,
    ensures
        count_matched(rs, f) == 0,
        count_linkable(rs, f, t) == 0,
        count_failed(rs, f, t) == 0,
    decreases rs.len(),
{
    if rs.len() > 0 {
        assert(rs.last() == rs[rs.len() - 1]);
        lemma_linked_record_not_rescanned(f, rs.last());
        assert(forall|i: int| 0 <= i < rs.drop_last().len() ==> rs.drop_last()[i] == rs[i]);
        lemma_second_run_no_work(rs.drop_last(), f, t);
    }
}

/// The outcome report of a completed run.
pub struct Report {
    /// Every link committed by the run, in dispatch order.
    pub links: Vec<LinkOp>,
    /// The non-critical errors carried in from the resumed state plus those
    /// collected by this run; the run itself succeeded.
    pub errors: Vec<NonCriticalFileIdentifierError>,
    /// How many units of work were dispatched.
    pub units_dispatched: usize,
    /// Cumulative statistics, continuing the resumed state's.
    pub stats: JobStats,
}

/// The filter a run scans with.
pub open spec fn spec_run_filter(location_id: u64, cursor: Option<u64>, scope: ScanScope) -> FilterView {
    FilterView { location_id, cursor, scope: scope@ }
}

/// Runs one full identification job over an id-ordered snapshot of the
/// index: scans orphans page by page, folds identification outcomes into
/// the accumulator (on top of a resumed state's leftover), dispatches ready
/// units at step boundaries, flushes the final partial unit on exhaustion,
/// and processes every unit against the store.
///
/// Conservation: the run commits exactly one link for the resumed
/// accumulator's every pending path and for every scanned orphan that
/// identified with a content identifier; every scanned orphan whose
/// identification failed contributes exactly one error; and every committed
/// link agrees with the final store, which binds identifiers to objects
/// injectively.
#[verifier::loop_isolation(false)]
pub fn run_identifier_job(
    db_records: &Vec<PathRecord>,
    outcomes: &Vec<RecordOutcome>,
    store: &mut ObjectStore,
    sync_log: &mut Vec<LinkOp>,
    location_id: u64,
    scope: &ScanScope,
    chunk_size: usize,
    page_size: usize,
    state: ResumableJobState,
) -> (report: Report)
    requires
        1 <= chunk_size,
        chunk_size <= usize::MAX / 2,
        page_size >= 1,
        old(store).wf(),
        state.wf(),
        crate::orphan::sorted_by_id(record_views(db_records@)),
        old(store).next_object_id + state.accumulator@.len() + db_records@.len() <= u64::MAX,
        state.accumulator@.len() + db_records@.len() <= usize::MAX,
        state.stats.scanned + db_records@.len() <= u64::MAX,
        state.stats.linked + total_count(state@.accumulator) + db_records@.len() <= u64::MAX,
        state.stats.created + state.accumulator@.len() + db_records@.len() <= u64::MAX,
    ensures
        final(store).wf(),
        map_extends(old(store).as_map(), final(store).as_map()),
        forall|j: int|
            0 <= j < link_views(report.links@).len() ==> valid_link(
                final(store).as_map(),
                #[trigger] link_views(report.links@)[j],
            ),
        report.links@.len() == total_count(state@.accumulator) + count_linkable(
            record_views(db_records@),
            spec_run_filter(location_id, state.cursor, *scope),
            outcome_views(outcomes@),
        ),
        report.errors@.len() == state.errors@.len() + count_failed(
            record_views(db_records@),
            spec_run_filter(location_id, state.cursor, *scope),
            outcome_views(outcomes@),
        ),
        link_views(final(sync_log)@) == link_views(old(sync_log)@) + link_views(report.links@),
        report.stats.scanned == state.stats.scanned + count_matched(
            record_views(db_records@),
            spec_run_filter(location_id, state.cursor, *scope),
        ),
        report.stats.linked == state.stats.linked + report.links@.len(),
        report.stats.created == state.stats.created + (final(store).next_object_id - old(
            store,
        ).next_object_id),
        final(store).objects@.len() - old(store).objects@.len() == final(store).next_object_id
            - old(store).next_object_id,
        forall|j: int|
            0 <= j < link_views(report.links@).len() ==> good_link(
                outcome_views(outcomes@),
                state@.accumulator,
                #[trigger] link_views(report.links@)[j],
            ),
{
    let filter = OrphanFilter {
        location_id,
        cursor: state.cursor,
        scope: scope.duplicate(),
    };
    let ghost f = spec_run_filter(location_id, state.cursor, *scope);
    let ghost t = outcome_views(outcomes@);
    let ghost rs = record_views(db_records@);
    let ghost acc0_total = total_count(state@.accumulator);
    let ghost acc0v = state@.accumulator;
    let next_start: u64 = store.next_object_id;
    let ghost next0 = old(store).next_object_id;
    let ghost log0 = link_views(old(sync_log)@);
    let mut acc = state.accumulator;
    let mut errors = state.errors;
    let mut links: Vec<LinkOp> = Vec::new();
    let mut units_dispatched: usize = 0;
    let mut scanned: u64 = state.stats.scanned;
    let mut page_fill: usize = 0;
    let mut i: usize = 0;
    proof {
        assert(filter@ == f);
        assert(rs.take(0int) =~= Seq::<RecordView>::empty());
        assert(link_views(links@) =~= Seq::<LinkView>::empty());
        assert(link_views(sync_log@) =~= log0 + link_views(links@));
        lemma_total_count_nonneg(state@.accumulator);
        assert(count_linkable(rs.take(0int), f, t) == 0);
        assert(count_failed(rs.take(0int), f, t) == 0);
        assert(count_matched(rs.take(0int), f) == 0);
        assert(group_views(state.accumulator@) == state@.accumulator);
        assert forall|k: int| 0 <= k < acc0v.len() implies good_group(
            t,
            acc0v,
            #[trigger] acc0v[k],
        ) by {
            assert forall|j: int| 0 <= j < acc0v[k].file_paths.len() implies (outcome_cas(
                t,
                (#[trigger] acc0v[k].file_paths[j]).file_path_id,
            ) == Some(acc0v[k].cas_id) || has_pending(
                acc0v,
                acc0v[k].file_paths[j].file_path_id,
                acc0v[k].cas_id,
            )) by {
                assert(has_pending(
                    acc0v,
                    acc0v[k].file_paths[j].file_path_id,
                    acc0v[k].cas_id,
                ));
            }
        }
    }
    while i < db_records.len()
        invariant
            i <= db_records@.len(),
            store.wf(),
            unique_cas(group_views(acc@)),
            page_fill < page_size,
            map_extends(old(store).as_map(), store.as_map()),
            store.next_object_id + acc@.len() + (db_records@.len() - i) <= u64::MAX,
            acc@.len() + (db_records@.len() - i) <= usize::MAX,
            units_dispatched + acc@.len() <= state.accumulator@.len() + i,
            store.next_object_id + acc@.len() <= next0 + state.accumulator@.len() + i,
            store.objects@.len() - old(store).objects@.len() == store.next_object_id - next0,
            forall|j: int|
                0 <= j < link_views(links@).len() ==> valid_link(
                    store.as_map(),
                    #[trigger] link_views(links@)[j],
                ),
            forall|k: int|
                0 <= k < group_views(acc@).len() ==> good_group(
                    t,
                    acc0v,
                    #[trigger] group_views(acc@)[k],
                ),
            forall|j: int|
                0 <= j < link_views(links@).len() ==> good_link(
                    t,
                    acc0v,
                    #[trigger] link_views(links@)[j],
                ),
            links@.len() + total_count(group_views(acc@)) == acc0_total + count_linkable(
                rs.take(i as int),
                f,
                t,
            ),
            total_count(group_views(acc@)) >= 0,
            0 <= count_linkable(rs.take(i as int), f, t) <= i,
            0 <= count_failed(rs.take(i as int), f, t) <= i,
            0 <= count_matched(rs.take(i as int), f) <= i,
            errors@.len() == state.errors@.len() + count_failed(rs.take(i as int), f, t),
            link_views(sync_log@) == log0 + link_views(links@),
            scanned == state.stats.scanned + count_matched(rs.take(i as int), f),
            next0 <= store.next_object_id,
        decreases db_records@.len() - i,
    {
        let r = &db_records[i];
        proof {
            assert(rs[i as int] == r@);
            assert(rs.take(i + 1) =~= rs.take(i as int).push(r@));
            assert(rs.take(i + 1).drop_last() =~= rs.take(i as int));
            assert(rs.take(i + 1).last() == r@);
        }
        if matches_orphan(&filter, r) {
            scanned = scanned + 1;
            page_fill = page_fill + 1;
            match find_outcome(outcomes, r.id) {
                Some(k) => {
                    let oc = &outcomes[k];
                    proof {
                        assert(t[k as int] == oc@);
                        assert(spec_find_outcome(t, r@.id) == Some(oc@.outcome));
                    }
                    match &oc.outcome {
                        IdentifyOutcome::Identified { cas_id, kind, created_at } => {
                            match cas_id {
                                Some(c) => {
                                    proof {
                                        assert(outcome_cas(t, r@.id) == Some(c@));
                                        assert(linkable(f, t, r@));
                                        assert(!failed_record(f, t, r@));
                                    }
                                    let item = FilePathToCreateOrLinkObject {
                                        file_path_id: r.id,
                                        kind: *kind,
                                        created_at: *created_at,
                                    };
                                    let mut fp: Vec<FilePathToCreateOrLinkObject> = Vec::new();
                                    fp.push(item);
                                    let single = CasGroup {
                                        cas_id: c.duplicate(),
                                        file_paths: fp,
                                    };
                                    let mut singles: Vec<CasGroup> = Vec::new();
                                    singles.push(single);
                                    proof {
                                        assert(group_views(singles@) =~= Seq::<
                                            crate::chunker::GroupView,
                                        >::empty().push(singles@[0int]@));
                                        assert(unique_cas(group_views(singles@)));
                                        assert(total_count(group_views(singles@)) == 1) by {
                                            assert(group_views(singles@).drop_last() =~= Seq::<
                                                crate::chunker::GroupView,
                                            >::empty());
                                            assert(total_count(Seq::<
                                                crate::chunker::GroupView,
                                            >::empty()) == 0);
                                        }
                                    }
                                    let ghost acc_pre_views = group_views(acc@);
                                    accumulate_file_paths_by_cas_id(&singles, &mut acc);
                                    proof {
                                        assert(group_views(singles@)[0int] == singles@[0int]@);
                                        assert forall|k2: int|
                                            0 <= k2 < group_views(singles@).len() implies good_group(
                                            t,
                                            acc0v,
                                            #[trigger] group_views(singles@)[k2],
                                        ) by {
                                            assert(group_views(singles@)[k2].cas_id == c@);
                                            assert(group_views(
                                                singles@,
                                            )[k2].file_paths[0int].file_path_id == r@.id);
                                            assert(outcome_cas(t, r@.id) == Some(c@));
                                        }
                                        lemma_accumulate_preserves_good(
                                            t,
                                            acc0v,
                                            acc_pre_views,
                                            group_views(singles@),
                                            group_views(acc@),
                                        );
                                    }
                                },
                                None => {
                                    // a matched record has non-empty content,
                                    // so a missing identifier is a failure
                                    proof {
                                        assert(outcome_cas(t, r@.id) is None);
                                        assert(!linkable(f, t, r@));
                                        assert(failed_record(f, t, r@));
                                    }
                                    errors.push(
                                        NonCriticalFileIdentifierError::FailedToExtractFileMetadata(
                                            bytes_clone(&r.materialized_path),
                                        ),
                                    );
                                },
                            }
                        },
                        IdentifyOutcome::Failed { error } => {
                            proof {
                                assert(outcome_failed(t, r@.id));
                                assert(!linkable(f, t, r@));
                                assert(failed_record(f, t, r@));
                            }
                            errors.push(error.duplicate());
                        },
                    }
                },
                None => {
                    proof {
                        assert(outcome_failed(t, r@.id));
                        assert(!linkable(f, t, r@));
                        assert(failed_record(f, t, r@));
                    }
                    errors.push(
                        NonCriticalFileIdentifierError::FailedToExtractFileMetadata(
                            bytes_clone(&r.materialized_path),
                        ),
                    );
                },
            }
            if page_fill >= page_size {
                // step boundary: dispatch the ready units, keep the leftover
                page_fill = 0;
                let ghost acc_pre_len = acc@.len();
                let ghost acc_chunk = group_views(acc@);
                let (units, leftover) = chunk_ready_units(&acc, chunk_size);
                acc = leftover;
                proof {
                    lemma_chunk_preserves_good(
                        t,
                        acc0v,
                        acc_chunk,
                        unit_views(units@),
                        group_views(acc@),
                    );
                    lemma_total_count_nonneg(group_views(acc@));
                    assert(forall|k: int|
                        0 <= k < unit_views(units@).len() ==> (#[trigger] unit_views(
                            units@,
                        )[k]).len() > 0);
                    lemma_unit_count_le_groups(unit_views(units@));
                    assert(units@.len() + acc@.len() <= acc_pre_len);
                }
                units_dispatched = units_dispatched + units.len();
                let ghost links_pre_len = links@.len();
                let ghost links_pre_views = link_views(links@);
                let ghost store_mid = *store;
                process_units(&units, store, sync_log, &mut links);
                proof {
                    lemma_units_total_nonneg(unit_views(units@));
                    assert forall|j2: int| 0 <= j2 < link_views(links@).len() implies good_link(
                        t,
                        acc0v,
                        #[trigger] link_views(links@)[j2],
                    ) by {
                        if j2 < links_pre_len {
                            assert(link_views(links@).take(links_pre_len as int)[j2]
                                == link_views(links@)[j2]);
                            assert(link_views(links@)[j2] == links_pre_views[j2]);
                        } else {
                            assert(link_from_units(
                                unit_views(units@),
                                link_views(links@)[j2],
                            ));
                        }
                    }
                    lemma_units_total_nonneg(unit_views(units@));
                    lemma_map_extends_trans(
                        old(store).as_map(),
                        store_mid.as_map(),
                        store.as_map(),
                    );
                    let lv = link_views(links@);
                    assert(lv =~= lv.take(links_pre_len as int) + lv.skip(
                        links_pre_len as int,
                    ));
                    assert(link_views(sync_log@) =~= log0 + lv);
                }
            }
        } else {
            proof {
                assert(!linkable(f, t, r@));
                assert(!failed_record(f, t, r@));
            }
        }
        i = i + 1;
    }
    proof {
        assert(rs.take(db_records@.len() as int) =~= rs);
    }
    // scan exhausted: flush any leftover accumulation as the final units
    let ghost acc_chunk = group_views(acc@);
    let units = dispatch_object_processor_tasks(&acc, chunk_size);
    proof {
        assert(forall|k: int|
            0 <= k < unit_views(units@).len() ==> (#[trigger] unit_views(units@)[k]).len() > 0);
        lemma_unit_count_le_groups(unit_views(units@));
        broadcast use vstd::seq_lib::group_to_multiset_ensures;

        assert(Seq::<GroupView>::empty().to_multiset() =~= vstd::multiset::Multiset::<
            GroupView,
        >::empty());
        assert(units_groups_multiset(unit_views(units@)).add(
            Seq::<GroupView>::empty().to_multiset(),
        ) =~= acc_chunk.to_multiset());
        lemma_chunk_preserves_good(
            t,
            acc0v,
            acc_chunk,
            unit_views(units@),
            Seq::<GroupView>::empty(),
        );
    }
    units_dispatched = units_dispatched + units.len();
    let ghost links_pre_len = links@.len();
    let ghost links_pre_views = link_views(links@);
    let ghost store_mid = *store;
    process_units(&units, store, sync_log, &mut links);
    proof {
        lemma_units_total_nonneg(unit_views(units@));
        assert forall|j2: int| 0 <= j2 < link_views(links@).len() implies good_link(
            t,
            acc0v,
            #[trigger] link_views(links@)[j2],
        ) by {
            if j2 < links_pre_len {
                assert(link_views(links@).take(links_pre_len as int)[j2] == link_views(
                    links@,
                )[j2]);
                assert(link_views(links@)[j2] == links_pre_views[j2]);
            } else {
                assert(link_from_units(unit_views(units@), link_views(links@)[j2]));
            }
        }
        lemma_units_total_nonneg(unit_views(units@));
        lemma_map_extends_trans(old(store).as_map(), store_mid.as_map(), store.as_map());
        let lv = link_views(links@);
        assert(lv =~= lv.take(links_pre_len as int) + lv.skip(links_pre_len as int));
        assert(link_views(sync_log@) =~= log0 + lv);
    }
    let linked_now = links.len();
    let stats = JobStats {
        scanned,
        linked: state.stats.linked + (linked_now as u64),
        created: state.stats.created + (store.next_object_id - next_start),
    };
    Report { links, errors, units_dispatched, stats }
}

} // verus!
