//! Orphan scanner: a pure filter predicate over path records, the filter
//! constructors for the two scan modes, and cursor-based pagination over an
//! id-ordered snapshot of the index.
//!
//! The persistent store is external; it is modelled here as an id-sorted
//! vector of records, and `scan_page` is the specification (and in-memory
//! implementation) of the repository query `list_orphans`.

use vstd::prelude::*;

use crate::records::{bytes_clone, bytes_eq, bytes_is_prefix, PathRecord, RecordView, record_views};

verus! {

/// Which part of a location a scan covers.
pub enum ScanScope {
    /// Direct children of one directory: records whose materialized path is
    /// exactly the directory's children path.
    Shallow { parent_path: Vec<u8> },
    /// A recursive subtree: records whose materialized path starts with the
    /// children path of the optional sub-path; the whole location if none.
    Deep { sub_path: Option<Vec<u8>> },
}

/// Mathematical value of a `ScanScope`.
pub enum ScopeView {
    Shallow { parent_path: Seq<u8> },
    Deep { sub_path: Option<Seq<u8>> },
}

impl View for ScanScope {
    type V = ScopeView;

    open spec fn view(&self) -> ScopeView {
        match self {
            ScanScope::Shallow { parent_path } => ScopeView::Shallow {
                parent_path: parent_path@,
            },
            ScanScope::Deep { sub_path } => ScopeView::Deep {
                sub_path: match sub_path {
                    Some(p) => Some(p@),
                    None => None,
                },
            },
        }
    }
}

impl ScanScope {
    /// Copies this scope.
    pub fn duplicate(&self) -> (r: ScanScope)
        ensures
            r@ == self@,
    {
        match self {
            ScanScope::Shallow { parent_path } => ScanScope::Shallow {
                parent_path: bytes_clone(parent_path),
            },
            ScanScope::Deep { sub_path } => ScanScope::Deep {
                sub_path: match sub_path {
                    Some(p) => Some(bytes_clone(p)),
                    None => None,
                },
            },
        }
    }
}

/// The full orphan filter: location, resume cursor, and scope.
pub struct OrphanFilter {
    pub location_id: u64,
    /// Id of the last record already processed; only records with a greater
    /// id are returned. `None` starts from the beginning.
    pub cursor: Option<u64>,
    pub scope: ScanScope,
}

/// Mathematical value of an `OrphanFilter`.
pub struct FilterView {
    pub location_id: u64,
    pub cursor: Option<u64>,
    pub scope: ScopeView,
}

impl View for OrphanFilter {
    type V = FilterView;

    open spec fn view(&self) -> FilterView {
        FilterView {
            location_id: self.location_id,
            cursor: self.cursor,
            scope: self.scope@,
        }
    }
}

/// Whether a record's materialized path falls inside a scope.
pub open spec fn scope_matches(scope: ScopeView, path: Seq<u8>) -> bool {
    match scope {
        ScopeView::Shallow { parent_path } => path == parent_path,
        ScopeView::Deep { sub_path } => match sub_path {
            Some(p) => p.is_prefix_of(path),
            None => true,
        },
    }
}

/// The orphan predicate: a record needs identification exactly when it is
/// not a directory, misses its object or its content identifier, belongs to
/// the filter's location, has non-empty content, lies past the cursor, and
/// falls inside the scope.
pub open spec fn orphan_matches(f: FilterView, r: RecordView) -> bool {
    &&& r.object_id is None || r.content_id is None
    &&& !r.is_dir
    &&& r.location_id == f.location_id
    &&& r.size_in_bytes > 0
    &&& match f.cursor {
        Some(c) => r.id > c,
        None => true,
    }
    &&& scope_matches(f.scope, r.materialized_path)
}

/// Builds the orphan filter for a shallow scan: only direct children of the
/// directory whose materialized-children path is `sub_path_children`.
pub fn orphan_path_filters_shallow(
    location_id: u64,
    file_path_id: Option<u64>,
    sub_path_children: Vec<u8>,
) -> (f: OrphanFilter)
    ensures
        f@ == (FilterView {
            location_id,
            cursor: file_path_id,
            scope: ScopeView::Shallow { parent_path: sub_path_children@ },
        }),
{
    OrphanFilter {
        location_id,
        cursor: file_path_id,
        scope: ScanScope::Shallow { parent_path: sub_path_children },
    }
}

/// Builds the orphan filter for a deep scan: the subtree under the optional
/// sub-path's materialized-children path, or the whole location.
pub fn orphan_path_filters_deep(
    location_id: u64,
    file_path_id: Option<u64>,
    maybe_sub_path_children: Option<Vec<u8>>,
) -> (f: OrphanFilter)
    ensures
        f@ == (FilterView {
            location_id,
            cursor: file_path_id,
            scope: ScopeView::Deep {
                sub_path: match maybe_sub_path_children {
                    Some(p) => Some(p@),
                    None => None,
                },
            },
        }),
{
    OrphanFilter {
        location_id,
        cursor: file_path_id,
        scope: ScanScope::Deep { sub_path: maybe_sub_path_children },
    }
}

/// Decides the orphan predicate for one record.
pub fn matches_orphan(f: &OrphanFilter, r: &PathRecord) -> (b: bool)
    ensures
        b == orphan_matches(f@, r@),
{
    let missing_identity = match (&r.object_id, &r.content_id) {
        (None, _) => true,
        (_, None) => true,
        _ => false,
    };
    if !missing_identity {
        return false;
    }
    if r.is_dir {
        return false;
    }
    if r.location_id != f.location_id {
        return false;
    }
    if r.size_in_bytes == 0 {
        return false;
    }
    match &f.cursor {
        Some(c) => {
            if r.id <= *c {
                return false;
            }
        },
        None => {},
    }
    match &f.scope {
        ScanScope::Shallow { parent_path } => bytes_eq(&r.materialized_path, parent_path),
        ScanScope::Deep { sub_path } => match sub_path {
            Some(p) => bytes_is_prefix(p, &r.materialized_path),
            None => true,
        },
    }
}

/// Records strictly ascending by id: the store's primary-key order.
pub open spec fn sorted_by_id(s: Seq<RecordView>) -> bool {
    forall|i: int, j: int| 0 <= i < j < s.len() ==> s[i].id < s[j].id
}

/// The page a scan returns: the matching records in order, cut to the page
/// size.
pub open spec fn spec_orphan_page(
    records: Seq<RecordView>,
    f: FilterView,
    page_size: int,
) -> Seq<RecordView> {
    let m = records.filter(|r: RecordView| orphan_matches(f, r));
    if m.len() <= page_size {
        m
    } else {
        m.take(page_size)
    }
}

/// One page of the paginated orphan query: the first `page_size` (or fewer)
/// records matching the filter, in ascending id order. A page shorter than
/// `page_size` carries every remaining match and so signals completion.
#[verifier::loop_isolation(false)]
pub fn scan_page(records: &Vec<PathRecord>, f: &OrphanFilter, page_size: usize) -> (page: Vec<
    PathRecord,
>)
    requires
        page_size >= 1,
    ensures
        record_views(page@) == spec_orphan_page(record_views(records@), f@, page_size as int),
        sorted_by_id(record_views(records@)) ==> sorted_by_id(record_views(page@)),
{
    let ghost pred = |r: RecordView| orphan_matches(f@, r);
    let ghost all = record_views(records@);
    let mut page: Vec<PathRecord> = Vec::new();
    let mut i: usize = 0;
    proof {
        assert(all.take(0int).filter(pred) =~= Seq::<RecordView>::empty());
        assert(record_views(page@) =~= Seq::<RecordView>::empty());
    }
    while i < records.len() && page.len() < page_size
        invariant
            i <= records.len(),
            page@.len() <= page_size,
            all == record_views(records@),
            record_views(page@) == all.take(i as int).filter(pred),
            sorted_by_id(all) ==> sorted_by_id(record_views(page@)),
            sorted_by_id(all) ==> (forall|j: int, l: int|
                0 <= j < page@.len() && i <= l < all.len()
                    ==> (#[trigger] record_views(page@)[j]).id < (#[trigger] all[l]).id),
            page@.len() == page_size ==> record_views(page@) == spec_orphan_page(
                all,
                f@,
                page_size as int,
            ),
        decreases records.len() - i,
    {
        let r = &records[i];
        let ghost old_page = page@;
        proof {
            assert(all[i as int] == r@);
            assert(all.take(i + 1) =~= all.take(i as int).push(r@));
            Seq::lemma_filter_push(all.take(i as int), r@, pred);
        }
        if matches_orphan(f, r) {
            page.push(r.duplicate());
            proof {
                assert(record_views(page@) =~= record_views(old_page).push(r@));
                assert(pred(r@));
                assert(all.take(i + 1).filter(pred) == all.take(i as int).filter(pred).push(r@));
                assert(record_views(page@) == all.take(i + 1).filter(pred));
                if page@.len() == page_size {
                    lemma_filter_split(all, pred, i + 1);
                    let pv = record_views(page@);
                    let m = all.filter(pred);
                    let rest = all.skip(i + 1).filter(pred);
                    assert(m == pv + rest);
                    assert(m.take(page_size as int) =~= pv);
                    assert(record_views(page@) == spec_orphan_page(all, f@, page_size as int));
                }
            }
        }
        i = i + 1;
    }
    proof {
        if page@.len() < page_size {
            assert(i == records.len());
            assert(all.take(i as int) =~= all);
        }
    }
    page
}

/// The matches of a sequence are the matches of a prefix followed by the
/// matches of the rest: `filter` splits at any index.
pub proof fn lemma_filter_split<A>(s: Seq<A>, pred: spec_fn(A) -> bool, i: int)
    requires
        0 <= i <= s.len(),
    ensures
        s.filter(pred) == s.take(i).filter(pred) + s.skip(i).filter(pred),
{
    assert(s =~= s.take(i) + s.skip(i));
    Seq::filter_distributes_over_add(s.take(i), s.skip(i), pred);
}

} // verus!
