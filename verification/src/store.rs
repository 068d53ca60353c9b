//! Object processor: an in-memory model of the content-object store and the
//! create-or-link protocol that one dispatched unit of work executes.
//!
//! The real store is external; its uniqueness constraint on the content
//! identifier is modelled by `create_or_get`, which never creates a second
//! object for an identifier already present (the re-fetch that a real
//! processor performs after a creation conflict lands in the same place).

use vstd::prelude::*;

use crate::chunker::{contains_cas, total_count, unique_cas, GroupView, WorkUnit};
use crate::records::{bytes_clone, ContentId, ObjectKind};

verus! {

/// A persisted record for one distinct piece of content.
pub struct ContentObject {
    pub cas_id: ContentId,
    pub object_id: u64,
    pub kind: ObjectKind,
}

/// Mathematical value of a `ContentObject`.
pub struct ObjectView {
    pub cas_id: Seq<u8>,
    pub object_id: u64,
    pub kind: ObjectKind,
}

impl View for ContentObject {
    type V = ObjectView;

    open spec fn view(&self) -> ObjectView {
        ObjectView { cas_id: self.cas_id@, object_id: self.object_id, kind: self.kind }
    }
}

/// The views of a sequence of content objects.
pub open spec fn object_views(s: Seq<ContentObject>) -> Seq<ObjectView> {
    s.map_values(|o: ContentObject| o@)
}

/// The identifier-to-object-id map a sequence of objects stands for.
pub open spec fn objects_map(s: Seq<ObjectView>) -> Map<Seq<u8>, u64>
    decreases s.len(),
{
    if s.len() == 0 {
        Map::empty()
    } else {
        objects_map(s.drop_last()).insert(s.last().cas_id, s.last().object_id)
    }
}

/// A key of the map is always witnessed by an object.
proof fn lemma_objects_map_witness(s: Seq<ObjectView>, cas: Seq<u8>)
    requires
        objects_map(s).contains_key(cas),
    ensures
        exists|i: int| 0 <= i < s.len() && s[i].cas_id == cas,
    decreases s.len(),
{
    if s.len() > 0 {
        if s.last().cas_id == cas {
            assert(s[s.len() - 1].cas_id == cas);
        } else {
            lemma_objects_map_witness(s.drop_last(), cas);
            let i = choose|i: int|
                0 <= i < s.drop_last().len() && s.drop_last()[i].cas_id == cas;
            assert(s[i].cas_id == cas);
        }
    }
}

/// With distinct identifiers, the map binds each object's identifier to that
/// object's id.
proof fn lemma_objects_map_index(s: Seq<ObjectView>, i: int)
    requires
        forall|a: int, b: int| 0 <= a < b < s.len() ==> s[a].cas_id != s[b].cas_id,
        0 <= i < s.len(),
    ensures
        objects_map(s).contains_key(s[i].cas_id),
        objects_map(s)[s[i].cas_id] == s[i].object_id,
    decreases s.len(),
{
    if i == s.len() - 1 {
    } else {
        assert(s.last().cas_id != s[i].cas_id);
        assert(s.drop_last()[i] == s[i]);
        lemma_objects_map_index(s.drop_last(), i);
    }
}

/// An identifier no object carries is not in the map.
proof fn lemma_objects_map_absent(s: Seq<ObjectView>, cas: Seq<u8>)
    requires
        forall|i: int| 0 <= i < s.len() ==> s[i].cas_id != cas,
    ensures
        !objects_map(s).contains_key(cas),
    decreases s.len(),
{
    if s.len() > 0 {
        assert(forall|i: int| 0 <= i < s.drop_last().len() ==> s.drop_last()[i].cas_id != cas);
        lemma_objects_map_absent(s.drop_last(), cas);
    }
}

/// In-memory model of the content-object table: one row per distinct
/// identifier, with a monotonically growing id supply.
pub struct ObjectStore {
    pub objects: Vec<ContentObject>,
    pub next_object_id: u64,
}

impl ObjectStore {
    /// The identifier-to-object-id map this store holds.
    pub open spec fn as_map(&self) -> Map<Seq<u8>, u64> {
        objects_map(object_views(self.objects@))
    }

    /// Well-formedness: identifiers are unique (the store's uniqueness
    /// constraint), object ids are unique, and all ids lie below the supply.
    pub open spec fn wf(&self) -> bool {
        let s = object_views(self.objects@);
        &&& forall|a: int, b: int| 0 <= a < b < s.len() ==> s[a].cas_id != s[b].cas_id
        &&& forall|a: int, b: int| 0 <= a < b < s.len() ==> s[a].object_id != s[b].object_id
        &&& forall|a: int| 0 <= a < s.len() ==> s[a].object_id < self.next_object_id
    }

    /// An empty store.
    pub fn new() -> (r: ObjectStore)
        ensures
            r.wf(),
            r.as_map() == Map::<Seq<u8>, u64>::empty(),
            r.next_object_id == 0,
    {
        let r = ObjectStore { objects: Vec::new(), next_object_id: 0 };
        proof {
            assert(object_views(r.objects@) =~= Seq::<ObjectView>::empty());
        }
        r
    }

    /// A well-formed store maps distinct identifiers to distinct objects.
    pub proof fn lemma_map_injective(&self)
        requires
            self.wf(),
        ensures
            forall|k1: Seq<u8>, k2: Seq<u8>|
                self.as_map().contains_key(k1) && self.as_map().contains_key(k2) && k1 != k2
                    ==> (#[trigger] self.as_map()[k1]) != (#[trigger] self.as_map()[k2]),
    {
        let s = object_views(self.objects@);
        assert forall|k1: Seq<u8>, k2: Seq<u8>|
            self.as_map().contains_key(k1) && self.as_map().contains_key(k2) && k1
                != k2 implies (#[trigger] self.as_map()[k1]) != (#[trigger] self.as_map()[k2]) by {
            lemma_objects_map_witness(s, k1);
            lemma_objects_map_witness(s, k2);
            let i1 = choose|i: int| 0 <= i < s.len() && s[i].cas_id == k1;
            let i2 = choose|i: int| 0 <= i < s.len() && s[i].cas_id == k2;
            lemma_objects_map_index(s, i1);
            lemma_objects_map_index(s, i2);
        }
    }

    /// Looks up the object for an identifier.
    #[verifier::loop_isolation(false)]
    pub fn lookup_object(&self, cas: &ContentId) -> (r: Option<u64>)
        requires
            self.wf(),
        ensures
            match r {
                Some(oid) => self.as_map().contains_key(cas@) && self.as_map()[cas@] == oid,
                None => !self.as_map().contains_key(cas@),
            },
    {
        let ghost s = object_views(self.objects@);
        let mut i: usize = 0;
        while i < self.objects.len()
            invariant
                i <= self.objects@.len(),
                forall|j: int| 0 <= j < i ==> object_views(self.objects@)[j].cas_id != cas@,
            decreases self.objects@.len() - i,
        {
            if self.objects[i].cas_id.same_as(cas) {
                proof {
                    lemma_objects_map_index(s, i as int);
                }
                return Some(self.objects[i].object_id);
            }
            i = i + 1;
        }
        proof {
            lemma_objects_map_absent(s, cas@);
        }
        None
    }

    /// Creates the content object for an identifier, or yields the existing
    /// one: the store's uniqueness constraint makes creation race-tolerant,
    /// so a processor that loses a creation race lands here on the same
    /// object id that the winner created. Returns the object id and whether
    /// a new object was created.
    pub fn create_or_get(&mut self, cas: &ContentId, kind: ObjectKind) -> (r: (u64, bool))
        requires
            old(self).wf(),
            old(self).next_object_id < u64::MAX,
        ensures
            final(self).wf(),
            final(self).as_map() == old(self).as_map().insert(cas@, r.0),
            old(self).next_object_id <= final(self).next_object_id <= old(self).next_object_id
                + 1,
            final(self).objects@.len() - old(self).objects@.len() == final(self).next_object_id
                - old(self).next_object_id,
            r.1 == !old(self).as_map().contains_key(cas@),
            old(self).as_map().contains_key(cas@) ==> r.0 == old(self).as_map()[cas@],
            map_extends(old(self).as_map(), final(self).as_map()),
    {
        let ghost s0 = object_views(old(self).objects@);
        match self.lookup_object(cas) {
            Some(oid) => {
                proof {
                    assert(final(self).as_map() =~= old(self).as_map().insert(cas@, oid));
                }
                (oid, false)
            },
            None => {
                let oid = self.next_object_id;
                let obj = ContentObject { cas_id: cas.duplicate(), object_id: oid, kind };
                self.objects.push(obj);
                self.next_object_id = self.next_object_id + 1;
                proof {
                    let s1 = object_views(self.objects@);
                    assert(s1 =~= s0.push(
                        ObjectView { cas_id: cas@, object_id: oid, kind },
                    ));
                    assert(s1.drop_last() =~= s0);
                    assert(forall|j: int| 0 <= j < s0.len() ==> s0[j] == s1[j]);
                    assert forall|j: int| 0 <= j < s0.len() implies (#[trigger] s0[j]).cas_id
                        != cas@ by {
                        if s0[j].cas_id == cas@ {
                            lemma_objects_map_index(s0, j);
                        }
                    }
                    assert(self.as_map() == objects_map(s0).insert(cas@, oid));
                    assert(self.wf());
                }
                (oid, true)
            },
        }
    }
}

/// One committed link mutation: a path record attached to the content object
/// of its identifier. The sync/replication log keeps exactly these records.
pub struct LinkOp {
    pub file_path_id: u64,
    pub cas_id: ContentId,
    pub object_id: u64,
}

/// Mathematical value of a `LinkOp`.
pub struct LinkView {
    pub file_path_id: u64,
    pub cas_id: Seq<u8>,
    pub object_id: u64,
}

impl View for LinkOp {
    type V = LinkView;

    open spec fn view(&self) -> LinkView {
        LinkView {
            file_path_id: self.file_path_id,
            cas_id: self.cas_id@,
            object_id: self.object_id,
        }
    }
}

impl LinkOp {
    /// Copies this link operation.
    pub fn duplicate(&self) -> (r: LinkOp)
        ensures
            r@ == self@,
    {
        LinkOp {
            file_path_id: self.file_path_id,
            cas_id: self.cas_id.duplicate(),
            object_id: self.object_id,
        }
    }
}

/// The views of a sequence of link operations.
pub open spec fn link_views(s: Seq<LinkOp>) -> Seq<LinkView> {
    s.map_values(|l: LinkOp| l@)
}

/// `m2` keeps every binding of `m1`: once an identifier is bound to an
/// object, the binding never changes.
pub open spec fn map_extends(m1: Map<Seq<u8>, u64>, m2: Map<Seq<u8>, u64>) -> bool {
    forall|k: Seq<u8>| #[trigger] m1.contains_key(k) ==> m2.contains_key(k) && m2[k] == m1[k]
}

/// Binding preservation is transitive.
pub proof fn lemma_map_extends_trans(
    m1: Map<Seq<u8>, u64>,
    m2: Map<Seq<u8>, u64>,
    m3: Map<Seq<u8>, u64>,
)
    requires
        map_extends(m1, m2),
        map_extends(m2, m3),
    ensures
        map_extends(m1, m3),
{
    assert forall|k: Seq<u8>| #[trigger] m1.contains_key(k) implies m3.contains_key(k) && m3[k]
        == m1[k] by {
        assert(m2.contains_key(k) && m2[k] == m1[k]);
        assert(m3.contains_key(k) && m3[k] == m2[k]);
    }
}

/// A link stays valid under every extension of the map it was valid for.
pub proof fn lemma_valid_link_extends(m1: Map<Seq<u8>, u64>, m2: Map<Seq<u8>, u64>, l: LinkView)
    requires
        map_extends(m1, m2),
        valid_link(m1, l),
    ensures
        valid_link(m2, l),
{
    assert(m1.contains_key(l.cas_id));
}

/// A link agrees with the store: its identifier is bound to its object id.
pub open spec fn valid_link(m: Map<Seq<u8>, u64>, l: LinkView) -> bool {
    m.contains_key(l.cas_id) && m[l.cas_id] == l.object_id
}

/// The links one group produces: one per pending path, all to the group's
/// object.
pub open spec fn group_links(g: GroupView, oid: u64) -> Seq<LinkView> {
    g.file_paths.map_values(
        |it: crate::chunker::FilePathToCreateOrLinkObject| LinkView {
            file_path_id: it.file_path_id,
            cas_id: g.cas_id,
            object_id: oid,
        },
    )
}

/// The links a whole unit produces under an identifier-to-object map.
pub open spec fn spec_unit_links(groups: Seq<GroupView>, m: Map<Seq<u8>, u64>) -> Seq<LinkView>
    decreases groups.len(),
{
    if groups.len() == 0 {
        Seq::empty()
    } else {
        spec_unit_links(groups.drop_last(), m) + group_links(
            groups.last(),
            m[groups.last().cas_id],
        )
    }
}

/// `spec_unit_links` only reads the map at the groups' identifiers.
proof fn lemma_unit_links_congruent(
    groups: Seq<GroupView>,
    m1: Map<Seq<u8>, u64>,
    m2: Map<Seq<u8>, u64>,
)
    requires
        forall|j: int|
            0 <= j < groups.len() ==> m1.contains_key(#[trigger] groups[j].cas_id)
                && m2.contains_key(groups[j].cas_id) && m1[groups[j].cas_id]
                == m2[groups[j].cas_id],
    ensures
        spec_unit_links(groups, m1) == spec_unit_links(groups, m2),
    decreases groups.len(),
{
    if groups.len() > 0 {
        assert(forall|j: int|
            0 <= j < groups.drop_last().len() ==> #[trigger] groups.drop_last()[j]
                == groups[j]);
        lemma_unit_links_congruent(groups.drop_last(), m1, m2);
        assert(groups.last() == groups[groups.len() - 1]);
    }
}

/// Executes one unit of work: for each identifier group, creates or fetches
/// the content object and links every pending path record to it, recording
/// each link in the sync/replication log.
///
/// The contract pins the result exactly: the store afterwards binds the old
/// identifiers plus exactly the unit's, bindings never change once made, and
/// the emitted links are one per pending path, each agreeing with the final
/// store; the log is extended by exactly the emitted links.
#[verifier::loop_isolation(false)]
pub fn process_unit(store: &mut ObjectStore, unit: &WorkUnit, sync_log: &mut Vec<LinkOp>) -> (links:
    Vec<LinkOp>)
    requires
        old(store).wf(),
        unique_cas(unit@),
        old(store).next_object_id + unit@.len() <= u64::MAX,
    ensures
        final(store).wf(),
        map_extends(old(store).as_map(), final(store).as_map()),
        forall|k: Seq<u8>|
            #[trigger] final(store).as_map().contains_key(k) <==> (old(
                store,
            ).as_map().contains_key(k) || contains_cas(unit@, k)),
        final(store).next_object_id <= old(store).next_object_id + unit@.len(),
        old(store).next_object_id <= final(store).next_object_id,
        final(store).objects@.len() - old(store).objects@.len() == final(store).next_object_id
            - old(store).next_object_id,
        link_views(links@) == spec_unit_links(unit@, final(store).as_map()),
        links@.len() == total_count(unit@),
        forall|j: int|
            0 <= j < links@.len() ==> valid_link(
                final(store).as_map(),
                #[trigger] link_views(links@)[j],
            ),
        link_views(final(sync_log)@) == link_views(old(sync_log)@) + link_views(links@),
{
    let ghost uv = unit@;
    let ghost log0 = link_views(old(sync_log)@);
    let mut links: Vec<LinkOp> = Vec::new();
    let mut gi: usize = 0;
    proof {
        assert(uv.take(0int) =~= Seq::<GroupView>::empty());
        assert(link_views(links@) =~= Seq::<LinkView>::empty());
        assert(link_views(sync_log@) =~= log0 + link_views(links@));
    }
    while gi < unit.groups.len()
        invariant
            gi <= unit.groups@.len(),
            store.wf(),
            old(store).next_object_id <= store.next_object_id <= old(store).next_object_id
                + gi,
            store.objects@.len() - old(store).objects@.len() == store.next_object_id - old(
                store,
            ).next_object_id,
            map_extends(old(store).as_map(), store.as_map()),
            forall|k: Seq<u8>|
                #[trigger] store.as_map().contains_key(k) <==> (old(
                    store,
                ).as_map().contains_key(k) || contains_cas(uv.take(gi as int), k)),
            forall|j: int|
                0 <= j < gi ==> store.as_map().contains_key(#[trigger] uv[j].cas_id),
            link_views(links@) == spec_unit_links(uv.take(gi as int), store.as_map()),
            links@.len() == total_count(uv.take(gi as int)),
            link_views(sync_log@) == log0 + link_views(links@),
        decreases unit.groups@.len() - gi,
    {
        let g = &unit.groups[gi];
        let ghost map_pre = store.as_map();
        let ghost links_pre = link_views(links@);
        proof {
            assert(uv[gi as int] == g@);
            assert(uv.take(gi + 1) =~= uv.take(gi as int).push(g@));
            assert(uv.take(gi + 1).drop_last() =~= uv.take(gi as int));
            assert(uv.take(gi + 1).last() == g@);
            assert(total_count(uv.take(gi + 1)) == total_count(uv.take(gi as int))
                + g@.file_paths.len());
        }
        let kind = if g.file_paths.len() > 0 {
            g.file_paths[0].kind
        } else {
            ObjectKind::Unknown
        };
        let (oid, _created) = store.create_or_get(&g.cas_id, kind);
        proof {
            assert(store.as_map() == map_pre.insert(g@.cas_id, oid));
            lemma_contains_cas_push_local(uv, gi as int);
            // earlier groups' identifiers keep their bindings, so the links
            // already emitted still agree with the new map
            assert forall|j: int|
                0 <= j < uv.take(gi as int).len() implies map_pre.contains_key(
                #[trigger] uv.take(gi as int)[j].cas_id,
            ) && store.as_map().contains_key(uv.take(gi as int)[j].cas_id) && map_pre[uv.take(
                gi as int,
            )[j].cas_id] == store.as_map()[uv.take(gi as int)[j].cas_id] by {
                assert(uv.take(gi as int)[j] == uv[j]);
                assert(uv[j].cas_id != g@.cas_id);
            }
            lemma_unit_links_congruent(uv.take(gi as int), map_pre, store.as_map());
            assert(link_views(links@) == spec_unit_links(uv.take(gi as int), store.as_map()));
        }
        // link every pending path of the group to the object
        let mut ii: usize = 0;
        while ii < g.file_paths.len()
            invariant
                ii <= g.file_paths@.len(),
                link_views(links@) == links_pre + group_links(g@, oid).take(ii as int),
                links@.len() == links_pre.len() + ii,
                link_views(sync_log@) == log0 + link_views(links@),
            decreases g.file_paths@.len() - ii,
        {
            let it = g.file_paths[ii];
            let op = LinkOp { file_path_id: it.file_path_id, cas_id: g.cas_id.duplicate(), object_id: oid };
            let ghost lv = LinkView { file_path_id: it.file_path_id, cas_id: g@.cas_id, object_id: oid };
            let op_log = LinkOp { file_path_id: it.file_path_id, cas_id: g.cas_id.duplicate(), object_id: oid };
            let ghost links_inner = link_views(links@);
            let ghost log_inner = link_views(sync_log@);
            links.push(op);
            sync_log.push(op_log);
            proof {
                assert(group_links(g@, oid)[ii as int] == lv);
                assert(group_links(g@, oid).take(ii + 1) =~= group_links(g@, oid).take(
                    ii as int,
                ).push(lv));
                assert(link_views(links@) =~= links_inner.push(lv));
                assert(link_views(sync_log@) =~= log_inner.push(lv));
                assert(links_inner.push(lv) =~= links_pre + group_links(g@, oid).take(ii + 1));
                assert(log_inner.push(lv) =~= log0 + links_inner.push(lv));
            }
            ii = ii + 1;
        }
        proof {
            assert(group_links(g@, oid).take(g@.file_paths.len() as int) =~= group_links(
                g@,
                oid,
            ));
            assert(store.as_map()[g@.cas_id] == oid);
            assert(link_views(links@) == spec_unit_links(uv.take(gi as int), store.as_map())
                + group_links(g@, store.as_map()[g@.cas_id]));
            assert(link_views(links@) == spec_unit_links(uv.take(gi + 1), store.as_map()));
        }
        gi = gi + 1;
    }
    proof {
        assert(uv.take(unit.groups@.len() as int) =~= uv);
        assert forall|j: int| 0 <= j < links@.len() implies valid_link(
            store.as_map(),
            #[trigger] link_views(links@)[j],
        ) by {
            lemma_unit_links_valid(uv, store.as_map(), j);
        }
    }
    links
}

/// Two links that agree with one well-formed store share their content
/// identifier exactly when they share their object: byte-identical content
/// maps to one object, distinct content to distinct objects.
pub proof fn lemma_dedup_links(store: &ObjectStore, l1: LinkView, l2: LinkView)
    requires
        store.wf(),
        valid_link(store.as_map(), l1),
        valid_link(store.as_map(), l2),
    ensures
        l1.cas_id == l2.cas_id <==> l1.object_id == l2.object_id,
{
    store.lemma_map_injective();
}

/// Every link of `spec_unit_links` agrees with the map, provided the map
/// holds every group identifier.
proof fn lemma_unit_links_valid(groups: Seq<GroupView>, m: Map<Seq<u8>, u64>, j: int)
    requires
        forall|i: int| 0 <= i < groups.len() ==> m.contains_key(#[trigger] groups[i].cas_id),
        0 <= j < spec_unit_links(groups, m).len(),
    ensures
        valid_link(m, spec_unit_links(groups, m)[j]),
    decreases groups.len(),
{
    if groups.len() > 0 {
        let pre = spec_unit_links(groups.drop_last(), m);
        assert(forall|i: int|
            0 <= i < groups.drop_last().len() ==> #[trigger] groups.drop_last()[i] == groups[i]);
        assert(groups.last() == groups[groups.len() - 1]);
        if j < pre.len() {
            lemma_unit_links_valid(groups.drop_last(), m, j);
            assert(spec_unit_links(groups, m)[j] == pre[j]);
        } else {
            let tail = group_links(groups.last(), m[groups.last().cas_id]);
            assert(spec_unit_links(groups, m)[j] == tail[j - pre.len()]);
        }
    }
}

/// Every link a unit produces is a pending path of one of its groups,
/// linked under that group's identifier.
pub proof fn lemma_unit_links_elem(groups: Seq<GroupView>, m: Map<Seq<u8>, u64>, j: int)
    requires
        0 <= j < spec_unit_links(groups, m).len(),
    ensures
        crate::chunker::has_pending(
            groups,
            spec_unit_links(groups, m)[j].file_path_id,
            spec_unit_links(groups, m)[j].cas_id,
        ),
    decreases groups.len(),
{
    if groups.len() > 0 {
        let pre = spec_unit_links(groups.drop_last(), m);
        assert(forall|i: int|
            0 <= i < groups.drop_last().len() ==> #[trigger] groups.drop_last()[i] == groups[i]);
        assert(groups.last() == groups[groups.len() - 1]);
        if j < pre.len() {
            lemma_unit_links_elem(groups.drop_last(), m, j);
            assert(spec_unit_links(groups, m)[j] == pre[j]);
            let (k, i2) = choose|k: int, i2: int|
                0 <= k < groups.drop_last().len() && 0 <= i2
                    < groups.drop_last()[k].file_paths.len() && groups.drop_last()[k].cas_id
                    == pre[j].cas_id && groups.drop_last()[k].file_paths[i2].file_path_id
                    == pre[j].file_path_id;
            assert(groups[k].cas_id == pre[j].cas_id);
            assert(groups[k].file_paths[i2].file_path_id == pre[j].file_path_id);
        } else {
            let g = groups.last();
            let tail = group_links(g, m[g.cas_id]);
            assert(spec_unit_links(groups, m)[j] == tail[j - pre.len()]);
            let i2 = j - pre.len();
            assert(tail[i2].file_path_id == g.file_paths[i2].file_path_id);
            assert(tail[i2].cas_id == g.cas_id);
            assert(groups[groups.len() - 1].file_paths[i2].file_path_id
                == tail[i2].file_path_id);
        }
    }
}

/// A prefix's identifiers never collide with the next group's under unique
/// identifiers.
proof fn lemma_contains_cas_push_local(s: Seq<GroupView>, i: int)
    requires
        unique_cas(s),
        0 <= i < s.len(),
    ensures
        forall|j: int| 0 <= j < i ==> (#[trigger] s[j].cas_id) != s[i].cas_id,
        forall|k: Seq<u8>|
            #[trigger] contains_cas(s.take(i + 1), k) <==> (contains_cas(s.take(i), k) || k
                == s[i].cas_id),
{
    assert forall|k: Seq<u8>|
        #[trigger] contains_cas(s.take(i + 1), k) <==> (contains_cas(s.take(i), k) || k
            == s[i].cas_id) by {
        if contains_cas(s.take(i + 1), k) {
            let j = choose|j: int|
                0 <= j < s.take(i + 1).len() && (#[trigger] s.take(i + 1)[j]).cas_id == k;
            if j < i {
                assert(s.take(i)[j].cas_id == k);
            } else {
                assert(s[i].cas_id == k);
            }
        }
        if contains_cas(s.take(i), k) {
            let j = choose|j: int| 0 <= j < s.take(i).len() && (#[trigger] s.take(i)[j]).cas_id == k;
            assert(s.take(i + 1)[j].cas_id == k);
        }
        if k == s[i].cas_id {
            assert(s.take(i + 1)[i].cas_id == k);
        }
    }
}

} // verus!
