//! Resumable job state: the exact continuation point of an interrupted run,
//! and its versioned binary codec.

use vstd::prelude::*;

use crate::chunker::{group_views, unique_cas, CasGroup, GroupView};
use crate::records::ContentId;
use crate::error::{DecodeError, ErrView, NonCriticalFileIdentifierError};

verus! {

/// Running statistics of a job.
#[derive(Clone, Copy, Debug, PartialEq, Eq, Structural)]
pub struct JobStats {
    /// Orphan records the scanner has handed out so far.
    pub scanned: u64,
    /// Path records linked to a content object so far.
    pub linked: u64,
    /// Content objects newly created so far.
    pub created: u64,
}

/// Mathematical value of a `ResumableJobState`.
pub struct StateView {
    pub cursor: Option<u64>,
    pub accumulator: Seq<GroupView>,
    pub stats: JobStats,
    pub errors: Seq<ErrView>,
}

/// The exact continuation point of a run between two steps: the scan
/// cursor, the accumulated-but-undispatched groups, the running statistics,
/// and the non-critical errors collected so far.
pub struct ResumableJobState {
    /// Id of the last record already processed, if any.
    pub cursor: Option<u64>,
    /// Leftover identifier groups below the chunk threshold.
    pub accumulator: Vec<CasGroup>,
    pub stats: JobStats,
    pub errors: Vec<NonCriticalFileIdentifierError>,
}

/// The views of a sequence of non-critical errors.
pub open spec fn error_views(s: Seq<NonCriticalFileIdentifierError>) -> Seq<ErrView> {
    s.map_values(|e: NonCriticalFileIdentifierError| e@)
}

impl View for ResumableJobState {
    type V = StateView;

    open spec fn view(&self) -> StateView {
        StateView {
            cursor: self.cursor,
            accumulator: group_views(self.accumulator@),
            stats: self.stats,
            errors: error_views(self.errors@),
        }
    }
}

impl ResumableJobState {
    /// A state's accumulator must keep identifiers unique.
    pub open spec fn wf(&self) -> bool {
        unique_cas(self@.accumulator)
    }

    /// The fresh state of a run that starts from the beginning.
    pub fn new() -> (r: ResumableJobState)
        ensures
            r@.cursor is None,
            r@.accumulator == Seq::<GroupView>::empty(),
            r@.stats == (JobStats { scanned: 0, linked: 0, created: 0 }),
            r@.errors == Seq::<ErrView>::empty(),
            r.wf(),
    {
        let r = ResumableJobState {
            cursor: None,
            accumulator: Vec::new(),
            stats: JobStats { scanned: 0, linked: 0, created: 0 },
            errors: Vec::new(),
        };
        proof {
            assert(group_views(r.accumulator@) =~= Seq::<GroupView>::empty());
            assert(error_views(r.errors@) =~= Seq::<ErrView>::empty());
        }
        r
    }
}


/// The eight little-endian bytes of a `u64`.
pub open spec fn spec_u64_le(x: u64) -> Seq<u8> {
    seq![
        (x & 0xff) as u8,
        ((x >> 8) & 0xff) as u8,
        ((x >> 16) & 0xff) as u8,
        ((x >> 24) & 0xff) as u8,
        ((x >> 32) & 0xff) as u8,
        ((x >> 40) & 0xff) as u8,
        ((x >> 48) & 0xff) as u8,
        ((x >> 56) & 0xff) as u8,
    ]
}

/// The `u64` eight little-endian bytes stand for.
pub open spec fn spec_u64_of(b: Seq<u8>) -> u64 {
    (b[0] as u64) | ((b[1] as u64) << 8) | ((b[2] as u64) << 16) | ((b[3] as u64) << 24) | ((
    b[4] as u64) << 32) | ((b[5] as u64) << 40) | ((b[6] as u64) << 48) | ((b[7] as u64) << 56)
}

/// Reassembling the eight bytes of a value gives the value back.
pub proof fn lemma_u64_le_roundtrip(x: u64)
    ensures
        spec_u64_of(spec_u64_le(x)) == x,
{
    let s = spec_u64_le(x);
    assert(s[0] == (x & 0xff) as u8);
    assert(s[1] == ((x >> 8) & 0xff) as u8);
    assert(s[2] == ((x >> 16) & 0xff) as u8);
    assert(s[3] == ((x >> 24) & 0xff) as u8);
    assert(s[4] == ((x >> 32) & 0xff) as u8);
    assert(s[5] == ((x >> 40) & 0xff) as u8);
    assert(s[6] == ((x >> 48) & 0xff) as u8);
    assert(s[7] == ((x >> 56) & 0xff) as u8);
    assert((((x & 0xff) as u8) as u64) | (((((x >> 8) & 0xff) as u8) as u64) << 8) | (((((x
        >> 16) & 0xff) as u8) as u64) << 16) | (((((x >> 24) & 0xff) as u8) as u64) << 24) | (((((
    x >> 32) & 0xff) as u8) as u64) << 32) | (((((x >> 40) & 0xff) as u8) as u64) << 40) | (((((x
        >> 48) & 0xff) as u8) as u64) << 48) | (((((x >> 56) & 0xff) as u8) as u64) << 56) == x)
        by (bit_vector);
}

/// The bytes of the value eight bytes stand for are those eight bytes.
pub proof fn lemma_u64_bytes_recover(
    b0: u8,
    b1: u8,
    b2: u8,
    b3: u8,
    b4: u8,
    b5: u8,
    b6: u8,
    b7: u8,
)
    ensures
        spec_u64_le(spec_u64_of(seq![b0, b1, b2, b3, b4, b5, b6, b7])) == seq![
            b0,
            b1,
            b2,
            b3,
            b4,
            b5,
            b6,
            b7,
        ],
{
    let s = seq![b0, b1, b2, b3, b4, b5, b6, b7];
    assert(s[0] == b0 && s[1] == b1 && s[2] == b2 && s[3] == b3 && s[4] == b4 && s[5] == b5
        && s[6] == b6 && s[7] == b7);
    let x = spec_u64_of(s);
    assert(x == (b0 as u64) | ((b1 as u64) << 8) | ((b2 as u64) << 16) | ((b3 as u64) << 24) | ((
    b4 as u64) << 32) | ((b5 as u64) << 40) | ((b6 as u64) << 48) | ((b7 as u64) << 56));
    assert(((((b0 as u64) | ((b1 as u64) << 8) | ((b2 as u64) << 16) | ((b3 as u64) << 24) | ((b4 as u64) << 32) | ((b5 as u64) << 40) | ((b6 as u64) << 48) | ((b7 as u64) << 56))) & 0xff) as u8 == b0 && ((((b0 as u64) | ((b1 as u64) << 8) | ((b2 as u64) << 16) | ((b3 as u64) << 24) | ((b4 as u64) << 32) | ((b5 as u64) << 40) | ((b6 as u64) << 48) | ((b7 as u64) << 56)) >> 8) & 0xff) as u8 == b1 && ((((b0 as u64) | ((b1 as u64) << 8) | ((b2 as u64) << 16) | ((b3 as u64) << 24) | ((b4 as u64) << 32) | ((b5 as u64) << 40) | ((b6 as u64) << 48) | ((b7 as u64) << 56)) >> 16) & 0xff) as u8 == b2 && ((((b0 as u64) | ((b1 as u64) << 8) | ((b2 as u64) << 16) | ((b3 as u64) << 24) | ((b4 as u64) << 32) | ((b5 as u64) << 40) | ((b6 as u64) << 48) | ((b7 as u64) << 56)) >> 24) & 0xff) as u8 == b3 && ((((b0 as u64) | ((b1 as u64) << 8) | ((b2 as u64) << 16) | ((b3 as u64) << 24) | ((b4 as u64) << 32) | ((b5 as u64) << 40) | ((b6 as u64) << 48) | ((b7 as u64) << 56)) >> 32) & 0xff) as u8 == b4 && ((((b0 as u64) | ((b1 as u64) << 8) | ((b2 as u64) << 16) | ((b3 as u64) << 24) | ((b4 as u64) << 32) | ((b5 as u64) << 40) | ((b6 as u64) << 48) | ((b7 as u64) << 56)) >> 40) & 0xff) as u8 == b5 && ((((b0 as u64) | ((b1 as u64) << 8) | ((b2 as u64) << 16) | ((b3 as u64) << 24) | ((b4 as u64) << 32) | ((b5 as u64) << 40) | ((b6 as u64) << 48) | ((b7 as u64) << 56)) >> 48) & 0xff) as u8 == b6 && ((((b0 as u64) | ((b1 as u64) << 8) | ((b2 as u64) << 16) | ((b3 as u64) << 24) | ((b4 as u64) << 32) | ((b5 as u64) << 40) | ((b6 as u64) << 48) | ((b7 as u64) << 56)) >> 56) & 0xff) as u8 == b7) by (bit_vector);
    assert(spec_u64_le(x) =~= s);
}

/// Appends the eight little-endian bytes of `x`.
pub fn push_u64(out: &mut Vec<u8>, x: u64)
    ensures
        final(out)@ == old(out)@ + spec_u64_le(x),
{
    proof {
        assert(x & 0xff < 256 && (x >> 8) & 0xff < 256 && (x >> 16) & 0xff < 256 && (x >> 24)
            & 0xff < 256 && (x >> 32) & 0xff < 256 && (x >> 40) & 0xff < 256 && (x >> 48) & 0xff
            < 256 && (x >> 56) & 0xff < 256) by (bit_vector);
    }
    out.push((x & 0xff) as u8);
    out.push(((x >> 8) & 0xff) as u8);
    out.push(((x >> 16) & 0xff) as u8);
    out.push(((x >> 24) & 0xff) as u8);
    out.push(((x >> 32) & 0xff) as u8);
    out.push(((x >> 40) & 0xff) as u8);
    out.push(((x >> 48) & 0xff) as u8);
    out.push(((x >> 56) & 0xff) as u8);
    proof {
        assert(out@ =~= old(out)@ + spec_u64_le(x));
    }
}

/// Reads eight little-endian bytes at `pos`.
pub fn read_u64(b: &Vec<u8>, pos: usize) -> (r: Option<(u64, usize)>)
    ensures
        match r {
            Some(xp) => pos + 8 <= b@.len() && xp.1 == pos + 8 && b@.subrange(
                pos as int,
                pos as int + 8,
            ) == spec_u64_le(xp.0),
            None => pos + 8 > b@.len(),
        },
{
    if b.len() < 8 || pos > b.len() - 8 {
        return None;
    }
    let x = (b[pos] as u64) | ((b[pos + 1] as u64) << 8) | ((b[pos + 2] as u64) << 16) | ((b[pos
        + 3] as u64) << 24) | ((b[pos + 4] as u64) << 32) | ((b[pos + 5] as u64) << 40) | ((b[pos
        + 6] as u64) << 48) | ((b[pos + 7] as u64) << 56);
    proof {
        let s = b@.subrange(pos as int, pos as int + 8);
        assert(s =~= seq![
            b@[pos as int],
            b@[pos as int + 1],
            b@[pos as int + 2],
            b@[pos as int + 3],
            b@[pos as int + 4],
            b@[pos as int + 5],
            b@[pos as int + 6],
            b@[pos as int + 7],
        ]);
        lemma_u64_bytes_recover(
            b@[pos as int],
            b@[pos as int + 1],
            b@[pos as int + 2],
            b@[pos as int + 3],
            b@[pos as int + 4],
            b@[pos as int + 5],
            b@[pos as int + 6],
            b@[pos as int + 7],
        );
        assert(x == spec_u64_of(s));
        assert(s == spec_u64_le(x));
    }
    Some((x, pos + 8))
}

/// Reads one byte at `pos`.
pub fn read_u8(b: &Vec<u8>, pos: usize) -> (r: Option<(u8, usize)>)
    ensures
        match r {
            Some(xp) => pos < b@.len() && xp.1 == pos + 1 && xp.0 == b@[pos as int],
            None => pos >= b@.len(),
        },
{
    if pos >= b.len() {
        return None;
    }
    Some((b[pos], pos + 1))
}

/// Reads `n` bytes at `pos`.
#[verifier::loop_isolation(false)]
pub fn read_bytes(b: &Vec<u8>, pos: usize, n: usize) -> (r: Option<(Vec<u8>, usize)>)
    ensures
        match r {
            Some(vp) => pos + n <= b@.len() && vp.1 == pos + n && vp.0@ == b@.subrange(
                pos as int,
                pos as int + n,
            ),
            None => pos + n > b@.len(),
        },
{
    if pos > b.len() || n > b.len() - pos {
        return None;
    }
    let mut out: Vec<u8> = Vec::new();
    let mut i: usize = 0;
    while i < n
        invariant
            i <= n,
            pos + n <= b@.len(),
            out@ == b@.subrange(pos as int, pos as int + i),
        decreases n - i,
    {
        out.push(b[pos + i]);
        i = i + 1;
        proof {
            assert(b@.subrange(pos as int, pos as int + i) =~= b@.subrange(
                pos as int,
                pos as int + i - 1,
            ).push(b@[pos as int + i - 1]));
        }
    }
    Some((out, pos + n))
}

/// Encoding of one pending link: record id, kind tag, creation time.
pub open spec fn spec_encode_item(it: crate::chunker::FilePathToCreateOrLinkObject) -> Seq<u8> {
    spec_u64_le(it.file_path_id) + seq![crate::records::ObjectKind::spec_tag(it.kind)]
        + spec_u64_le(it.created_at)
}

/// Encoding of a list of pending links.
pub open spec fn spec_encode_items(its: Seq<crate::chunker::FilePathToCreateOrLinkObject>) -> Seq<
    u8,
>
    decreases its.len(),
{
    if its.len() == 0 {
        Seq::empty()
    } else {
        spec_encode_items(its.drop_last()) + spec_encode_item(its.last())
    }
}

/// Encoding of one identifier group: identifier length and bytes, then the
/// pending links, length-prefixed.
pub open spec fn spec_encode_group(g: GroupView) -> Seq<u8> {
    spec_u64_le(g.cas_id.len() as u64) + g.cas_id + spec_u64_le(g.file_paths.len() as u64)
        + spec_encode_items(g.file_paths)
}

/// Encoding of the accumulator's groups.
pub open spec fn spec_encode_groups(gs: Seq<GroupView>) -> Seq<u8>
    decreases gs.len(),
{
    if gs.len() == 0 {
        Seq::empty()
    } else {
        spec_encode_groups(gs.drop_last()) + spec_encode_group(gs.last())
    }
}

/// The stable tag of a non-critical error variant.
pub open spec fn spec_err_tag(e: ErrView) -> u8 {
    match e {
        ErrView::FailedToExtractFileMetadata(_) => 0,
        ErrView::FailedToExtractMetadataFromOnDemandFile(_) => 1,
        ErrView::FailedToExtractIsolatedFilePathData(_) => 2,
    }
}

/// The payload bytes of a non-critical error.
pub open spec fn spec_err_payload(e: ErrView) -> Seq<u8> {
    match e {
        ErrView::FailedToExtractFileMetadata(p) => p,
        ErrView::FailedToExtractMetadataFromOnDemandFile(p) => p,
        ErrView::FailedToExtractIsolatedFilePathData(p) => p,
    }
}

/// Encoding of one collected error: tag, payload length, payload.
pub open spec fn spec_encode_err(e: ErrView) -> Seq<u8> {
    seq![spec_err_tag(e)] + spec_u64_le(spec_err_payload(e).len() as u64) + spec_err_payload(e)
}

/// Encoding of the collected errors.
pub open spec fn spec_encode_errs(es: Seq<ErrView>) -> Seq<u8>
    decreases es.len(),
{
    if es.len() == 0 {
        Seq::empty()
    } else {
        spec_encode_errs(es.drop_last()) + spec_encode_err(es.last())
    }
}

/// Group lengths that the 64-bit length prefixes of the format can carry
/// faithfully; every accumulator built from actual vectors satisfies this.
pub open spec fn bounded_groups(gs: Seq<GroupView>) -> bool {
    &&& gs.len() < 0x10000000000000000
    &&& forall|k: int|
        0 <= k < gs.len() ==> (#[trigger] gs[k]).cas_id.len() < 0x10000000000000000
            && gs[k].file_paths.len() < 0x10000000000000000
}

/// Error-list lengths that the format's length prefixes carry faithfully.
pub open spec fn bounded_errs(es: Seq<ErrView>) -> bool {
    &&& es.len() < 0x10000000000000000
    &&& forall|k: int|
        0 <= k < es.len() ==> spec_err_payload(#[trigger] es[k]).len() < 0x10000000000000000
}

/// State whose every length fits the format's 64-bit length prefixes.
pub open spec fn bounded_state(sv: StateView) -> bool {
    bounded_groups(sv.accumulator) && bounded_errs(sv.errors)
}

/// The item encoding splits at any index.
proof fn lemma_encode_items_split(
    its: Seq<crate::chunker::FilePathToCreateOrLinkObject>,
    m: int,
)
    requires
        0 <= m <= its.len(),
    ensures
        spec_encode_items(its) == spec_encode_items(its.take(m)) + spec_encode_items(
            its.skip(m),
        ),
    decreases its.len(),
{
    if m == its.len() {
        assert(its.take(m) =~= its);
        assert(its.skip(m) =~= Seq::<crate::chunker::FilePathToCreateOrLinkObject>::empty());
        assert(spec_encode_items(its) + spec_encode_items(its.skip(m)) =~= spec_encode_items(
            its,
        ));
    } else {
        lemma_encode_items_split(its.drop_last(), m);
        assert(its.drop_last().take(m) =~= its.take(m));
        assert(its.skip(m).drop_last() =~= its.drop_last().skip(m));
        assert(its.skip(m).last() == its.last());
        assert(its.skip(m).len() > 0);
        assert(spec_encode_items(its.take(m)) + (spec_encode_items(its.drop_last().skip(m))
            + spec_encode_item(its.last())) =~= (spec_encode_items(its.take(m))
            + spec_encode_items(its.drop_last().skip(m))) + spec_encode_item(its.last()));
    }
}

/// The group encoding splits at any index.
proof fn lemma_encode_groups_split(gs: Seq<GroupView>, m: int)
    requires
        0 <= m <= gs.len(),
    ensures
        spec_encode_groups(gs) == spec_encode_groups(gs.take(m)) + spec_encode_groups(
            gs.skip(m),
        ),
    decreases gs.len(),
{
    if m == gs.len() {
        assert(gs.take(m) =~= gs);
        assert(gs.skip(m) =~= Seq::<GroupView>::empty());
        assert(spec_encode_groups(gs) + spec_encode_groups(gs.skip(m)) =~= spec_encode_groups(
            gs,
        ));
    } else {
        lemma_encode_groups_split(gs.drop_last(), m);
        assert(gs.drop_last().take(m) =~= gs.take(m));
        assert(gs.skip(m).drop_last() =~= gs.drop_last().skip(m));
        assert(gs.skip(m).last() == gs.last());
        assert(gs.skip(m).len() > 0);
        assert(spec_encode_groups(gs.take(m)) + (spec_encode_groups(gs.drop_last().skip(m))
            + spec_encode_group(gs.last())) =~= (spec_encode_groups(gs.take(m))
            + spec_encode_groups(gs.drop_last().skip(m))) + spec_encode_group(gs.last()));
    }
}

/// The error encoding splits at any index.
proof fn lemma_encode_errs_split(es: Seq<ErrView>, m: int)
    requires
        0 <= m <= es.len(),
    ensures
        spec_encode_errs(es) == spec_encode_errs(es.take(m)) + spec_encode_errs(es.skip(m)),
    decreases es.len(),
{
    if m == es.len() {
        assert(es.take(m) =~= es);
        assert(es.skip(m) =~= Seq::<ErrView>::empty());
        assert(spec_encode_errs(es) + spec_encode_errs(es.skip(m)) =~= spec_encode_errs(es));
    } else {
        lemma_encode_errs_split(es.drop_last(), m);
        assert(es.drop_last().take(m) =~= es.take(m));
        assert(es.skip(m).drop_last() =~= es.drop_last().skip(m));
        assert(es.skip(m).last() == es.last());
        assert(es.skip(m).len() > 0);
        assert(spec_encode_errs(es.take(m)) + (spec_encode_errs(es.drop_last().skip(m))
            + spec_encode_err(es.last())) =~= (spec_encode_errs(es.take(m))
            + spec_encode_errs(es.drop_last().skip(m))) + spec_encode_err(es.last()));
    }
}

/// A one-element encoding is the element's encoding.
proof fn lemma_encode_single_group(gs: Seq<GroupView>)
    requires
        gs.len() == 1,
    ensures
        spec_encode_groups(gs) == spec_encode_group(gs[0]),
{
    assert(gs.drop_last() =~= Seq::<GroupView>::empty());
    assert(spec_encode_groups(Seq::<GroupView>::empty()) == Seq::<u8>::empty());
    assert(gs.last() == gs[0]);
    assert(Seq::<u8>::empty() + spec_encode_group(gs[0]) =~= spec_encode_group(gs[0]));
}

/// A one-element encoding is the element's encoding.
proof fn lemma_encode_single_item(its: Seq<crate::chunker::FilePathToCreateOrLinkObject>)
    requires
        its.len() == 1,
    ensures
        spec_encode_items(its) == spec_encode_item(its[0]),
{
    assert(its.drop_last() =~= Seq::<crate::chunker::FilePathToCreateOrLinkObject>::empty());
    assert(spec_encode_items(Seq::<crate::chunker::FilePathToCreateOrLinkObject>::empty())
        == Seq::<u8>::empty());
    assert(its.last() == its[0]);
    assert(Seq::<u8>::empty() + spec_encode_item(its[0]) =~= spec_encode_item(its[0]));
}

/// A one-element encoding is the element's encoding.
proof fn lemma_encode_single_err(es: Seq<ErrView>)
    requires
        es.len() == 1,
    ensures
        spec_encode_errs(es) == spec_encode_err(es[0]),
{
    assert(es.drop_last() =~= Seq::<ErrView>::empty());
    assert(spec_encode_errs(Seq::<ErrView>::empty()) == Seq::<u8>::empty());
    assert(es.last() == es[0]);
    assert(Seq::<u8>::empty() + spec_encode_err(es[0]) =~= spec_encode_err(es[0]));
}

/// Peels the first piece off a known concatenation of bytes.
proof fn lemma_peel(b: Seq<u8>, off: int, a: Seq<u8>, rest: Seq<u8>)
    requires
        0 <= off,
        off + a.len() + rest.len() <= b.len(),
        b.subrange(off, off + a.len() + rest.len()) == a + rest,
    ensures
        b.subrange(off, off + a.len()) == a,
        b.subrange(off + a.len(), off + a.len() + rest.len()) == rest,
{
    let whole = b.subrange(off, off + a.len() + rest.len());
    assert((a + rest).subrange(0, a.len() as int) =~= a);
    assert((a + rest).subrange(a.len() as int, (a.len() + rest.len()) as int) =~= rest);
    assert(b.subrange(off, off + a.len()) =~= whole.subrange(0, a.len() as int));
    assert(b.subrange(off + a.len(), off + a.len() + rest.len()) =~= whole.subrange(
        a.len() as int,
        (a.len() + rest.len()) as int,
    ));
}

/// The format version this library writes.
pub const STATE_FORMAT_VERSION: u8 = 1;

/// The full encoding of a resumable state: a version byte, the optional
/// cursor, the statistics, then the accumulator groups and the collected
/// errors, each length-prefixed.
pub open spec fn spec_encode_state(st: StateView) -> Seq<u8> {
    seq![1u8] + (match st.cursor {
        None => seq![0u8],
        Some(c) => seq![1u8] + spec_u64_le(c),
    }) + spec_u64_le(st.stats.scanned) + spec_u64_le(st.stats.linked) + spec_u64_le(
        st.stats.created,
    ) + spec_u64_le(st.accumulator.len() as u64) + spec_encode_groups(st.accumulator)
        + spec_u64_le(st.errors.len() as u64) + spec_encode_errs(st.errors)
}


/// Appends all of `src`.
pub fn append_bytes(dst: &mut Vec<u8>, src: &Vec<u8>)
    ensures
        final(dst)@ == old(dst)@ + src@,
{
    let mut i: usize = 0;
    while i < src.len()
        invariant
            i <= src.len(),
            dst@ == old(dst)@ + src@.take(i as int),
        decreases src.len() - i,
    {
        dst.push(src[i]);
        i = i + 1;
        assert(old(dst)@ + src@.take(i as int) =~= (old(dst)@ + src@.take(i - 1)).push(
            src@[i - 1],
        ));
    }
    assert(old(dst)@ + src@.take(src@.len() as int) =~= old(dst)@ + src@);
}

/// Serializes a resumable state into its versioned binary form.
#[verifier::loop_isolation(false)]
#[verifier::rlimit(100)]
pub fn encode_state(st: &ResumableJobState) -> (b: Vec<u8>)
    ensures
        b@ == spec_encode_state(st@),
        bounded_state(st@),
{
    let mut out: Vec<u8> = Vec::new();
    out.push(STATE_FORMAT_VERSION);
    match &st.cursor {
        None => {
            out.push(0u8);
        },
        Some(c) => {
            out.push(1u8);
            push_u64(&mut out, *c);
        },
    }
    push_u64(&mut out, st.stats.scanned);
    push_u64(&mut out, st.stats.linked);
    push_u64(&mut out, st.stats.created);
    push_u64(&mut out, st.accumulator.len() as u64);
    let ghost header = out@;
    let ghost gvs = group_views(st.accumulator@);
    proof {
        assert(gvs.take(0int) =~= Seq::<GroupView>::empty());
        assert(out@ =~= header + spec_encode_groups(gvs.take(0int)));
    }
    let mut gi: usize = 0;
    while gi < st.accumulator.len()
        invariant
            gi <= st.accumulator@.len(),
            out@ == header + spec_encode_groups(gvs.take(gi as int)),
            forall|k: int|
                0 <= k < gi ==> (#[trigger] gvs[k]).cas_id.len() < 0x10000000000000000
                    && gvs[k].file_paths.len() < 0x10000000000000000,
        decreases st.accumulator@.len() - gi,
    {
        let g = &st.accumulator[gi];
        let ghost gstart = out@;
        push_u64(&mut out, g.cas_id.bytes.len() as u64);
        append_bytes(&mut out, &g.cas_id.bytes);
        push_u64(&mut out, g.file_paths.len() as u64);
        let ghost istart = out@;
        let mut ii: usize = 0;
        proof {
            assert(g@.file_paths.take(0int) =~= Seq::<
                crate::chunker::FilePathToCreateOrLinkObject,
            >::empty());
            assert(out@ =~= istart + spec_encode_items(g@.file_paths.take(0int)));
        }
        while ii < g.file_paths.len()
            invariant
                ii <= g.file_paths@.len(),
                out@ == istart + spec_encode_items(g@.file_paths.take(ii as int)),
            decreases g.file_paths@.len() - ii,
        {
            let it = g.file_paths[ii];
            push_u64(&mut out, it.file_path_id);
            out.push(it.kind.to_tag());
            push_u64(&mut out, it.created_at);
            proof {
                assert(g@.file_paths.take(ii + 1) =~= g@.file_paths.take(ii as int).push(it));
                assert(g@.file_paths.take(ii + 1).drop_last() =~= g@.file_paths.take(
                    ii as int,
                ));
                assert(spec_encode_item(it) =~= spec_u64_le(it.file_path_id) + seq![
                    crate::records::ObjectKind::spec_tag(it.kind),
                ] + spec_u64_le(it.created_at));
                assert(out@ =~= istart + spec_encode_items(g@.file_paths.take(ii + 1)));
            }
            ii = ii + 1;
        }
        proof {
            assert(g@.file_paths.take(g.file_paths@.len() as int) =~= g@.file_paths);
            assert(gvs[gi as int] == g@);
            assert(gvs.take(gi + 1) =~= gvs.take(gi as int).push(g@));
            assert(gvs.take(gi + 1).drop_last() =~= gvs.take(gi as int));
            assert(out@ =~= gstart + spec_encode_group(g@));
            assert(out@ =~= header + spec_encode_groups(gvs.take(gi + 1)));
        }
        gi = gi + 1;
    }
    proof {
        assert(gvs.take(st.accumulator@.len() as int) =~= gvs);
    }
    push_u64(&mut out, st.errors.len() as u64);
    let ghost estart = out@;
    let ghost evs = error_views(st.errors@);
    proof {
        assert(evs.take(0int) =~= Seq::<ErrView>::empty());
        assert(out@ =~= estart + spec_encode_errs(evs.take(0int)));
    }
    let mut ei: usize = 0;
    while ei < st.errors.len()
        invariant
            ei <= st.errors@.len(),
            out@ == estart + spec_encode_errs(evs.take(ei as int)),
            forall|k: int|
                0 <= k < ei ==> spec_err_payload(#[trigger] evs[k]).len()
                    < 0x10000000000000000,
        decreases st.errors@.len() - ei,
    {
        let e = &st.errors[ei];
        let tag: u8 = match e {
            NonCriticalFileIdentifierError::FailedToExtractFileMetadata(_) => 0,
            NonCriticalFileIdentifierError::FailedToExtractMetadataFromOnDemandFile(_) => 1,
            NonCriticalFileIdentifierError::FailedToExtractIsolatedFilePathData(_) => 2,
        };
        out.push(tag);
        let payload = e.payload();
        push_u64(&mut out, payload.len() as u64);
        append_bytes(&mut out, payload);
        proof {
            assert(evs[ei as int] == e@);
            assert(tag == spec_err_tag(e@));
            assert(payload@ == spec_err_payload(e@));
            assert(evs.take(ei + 1) =~= evs.take(ei as int).push(e@));
            assert(evs.take(ei + 1).drop_last() =~= evs.take(ei as int));
            assert(out@ =~= estart + spec_encode_errs(evs.take(ei + 1)));
        }
        ei = ei + 1;
    }
    proof {
        assert(evs.take(st.errors@.len() as int) =~= evs);
        assert(out@ =~= spec_encode_state(st@));
        assert(bounded_state(st@));
    }
    out
}


/// The bytes at `pos0` hold exactly the encoding of these `n` pending
/// links.
spec fn items_encoded_at(
    bs: Seq<u8>,
    pos0: int,
    n: u64,
    xs: Seq<crate::chunker::FilePathToCreateOrLinkObject>,
) -> bool {
    &&& xs.len() == n
    &&& pos0 + spec_encode_items(xs).len() <= bs.len()
    &&& bs.subrange(pos0, pos0 + spec_encode_items(xs).len()) == spec_encode_items(xs)
}

/// The bytes at `pos0` hold exactly the encoding of these `n` groups.
spec fn groups_encoded_at(bs: Seq<u8>, pos0: int, n: u64, gs: Seq<GroupView>) -> bool {
    &&& gs.len() == n
    &&& bounded_groups(gs)
    &&& pos0 + spec_encode_groups(gs).len() <= bs.len()
    &&& bs.subrange(pos0, pos0 + spec_encode_groups(gs).len()) == spec_encode_groups(gs)
}

/// The bytes at `pos0` hold exactly the encoding of these `n` errors.
spec fn errs_encoded_at(bs: Seq<u8>, pos0: int, n: u64, es: Seq<ErrView>) -> bool {
    &&& es.len() == n
    &&& bounded_errs(es)
    &&& pos0 + spec_encode_errs(es).len() <= bs.len()
    &&& bs.subrange(pos0, pos0 + spec_encode_errs(es).len()) == spec_encode_errs(es)
}

/// A tag maps back to the kind it was made from.
proof fn lemma_kind_tag_inverse(tag: u8, k: crate::records::ObjectKind)
    requires
        crate::records::ObjectKind::spec_from_tag(tag) == Some(k),
    ensures
        crate::records::ObjectKind::spec_tag(k) == tag,
{
}

/// Parses `n` pending links at `pos`. When the bytes there are exactly the
/// encoding of the witnessed links, parsing succeeds with them.
#[verifier::loop_isolation(false)]
#[verifier::rlimit(100)]
fn decode_items(
    b: &Vec<u8>,
    pos0: usize,
    n_items: u64,
    Ghost(wit): Ghost<Seq<crate::chunker::FilePathToCreateOrLinkObject>>,
) -> (r: Result<(Vec<crate::chunker::FilePathToCreateOrLinkObject>, usize), DecodeError>)
    requires
        pos0 <= b@.len(),
    ensures
        r matches Ok(ip) ==> pos0 <= ip.1 <= b@.len() && ip.0@.len() == n_items && b@.subrange(
            pos0 as int,
            ip.1 as int,
        ) == spec_encode_items(ip.0@),
        items_encoded_at(b@, pos0 as int, n_items, wit) ==> (r matches Ok(ip) && ip.0@ == wit
            && ip.1 == pos0 + spec_encode_items(wit).len()),
{
    let ghost hyp = items_encoded_at(b@, pos0 as int, n_items, wit);
    let mut items: Vec<crate::chunker::FilePathToCreateOrLinkObject> = Vec::new();
    let mut ipos = pos0;
    let mut ii: u64 = 0;
    proof {
        assert(b@.subrange(pos0 as int, ipos as int) =~= spec_encode_items(items@));
        if hyp {
            assert(spec_encode_items(wit.take(0int)) =~= Seq::<u8>::empty()) by {
                assert(wit.take(0int) =~= Seq::<
                    crate::chunker::FilePathToCreateOrLinkObject,
                >::empty());
            }
        }
    }
    while ii < n_items
        invariant
            ii <= n_items,
            pos0 <= ipos <= b@.len(),
            items@.len() == ii,
            b@.subrange(pos0 as int, ipos as int) == spec_encode_items(items@),
            hyp == items_encoded_at(b@, pos0 as int, n_items, wit),
            hyp ==> (ii <= wit.len() && items@ == wit.take(ii as int) && ipos == pos0
                + spec_encode_items(wit.take(ii as int)).len()),
        decreases n_items - ii,
    {
        proof {
            if hyp {
                let itw = wit[ii as int];
                lemma_encode_items_split(wit, ii as int);
                lemma_peel(
                    b@,
                    pos0 as int,
                    spec_encode_items(wit.take(ii as int)),
                    spec_encode_items(wit.skip(ii as int)),
                );
                lemma_encode_items_split(wit.skip(ii as int), 1);
                assert(wit.skip(ii as int).take(1) =~= seq![itw]);
                lemma_encode_single_item(seq![itw]);
                assert(wit.skip(ii as int).skip(1) =~= wit.skip(ii + 1));
                assert(spec_encode_items(wit.skip(ii as int)) == spec_encode_item(itw)
                    + spec_encode_items(wit.skip(ii + 1)));
                lemma_peel(
                    b@,
                    ipos as int,
                    spec_encode_item(itw),
                    spec_encode_items(wit.skip(ii + 1)),
                );
                assert(spec_encode_item(itw) =~= spec_u64_le(itw.file_path_id) + (seq![
                    crate::records::ObjectKind::spec_tag(itw.kind),
                ] + spec_u64_le(itw.created_at)));
                lemma_peel(
                    b@,
                    ipos as int,
                    spec_u64_le(itw.file_path_id),
                    seq![crate::records::ObjectKind::spec_tag(itw.kind)] + spec_u64_le(
                        itw.created_at,
                    ),
                );
                lemma_peel(
                    b@,
                    ipos + 8,
                    seq![crate::records::ObjectKind::spec_tag(itw.kind)],
                    spec_u64_le(itw.created_at),
                );
                assert(b@.subrange(ipos as int, ipos + 8) == spec_u64_le(itw.file_path_id));
                assert(b@[ipos + 8] == crate::records::ObjectKind::spec_tag(itw.kind)) by {
                    assert(b@.subrange(ipos + 8, ipos + 9)[0] == b@[ipos + 8]);
                }
                assert(b@.subrange(ipos + 9, ipos + 17) == spec_u64_le(itw.created_at));
                assert(ipos + 17 <= b@.len());
            }
        }
        let (fid, w1) = match read_u64(b, ipos) {
            Some(x) => x,
            None => {
                proof {
                    if hyp {
                        assert(false);
                    }
                }
                return Err(DecodeError::Corrupt);
            },
        };
        let (ktag, w2) = match read_u8(b, w1) {
            Some(x) => x,
            None => {
                proof {
                    if hyp {
                        assert(false);
                    }
                }
                return Err(DecodeError::Corrupt);
            },
        };
        let kind = match crate::records::ObjectKind::from_tag(ktag) {
            Some(kd) => kd,
            None => {
                proof {
                    if hyp {
                        let itw = wit[ii as int];
                        assert(ktag == crate::records::ObjectKind::spec_tag(itw.kind));
                        assert(crate::records::ObjectKind::spec_from_tag(ktag) == Some(
                            itw.kind,
                        ));
                        assert(false);
                    }
                }
                return Err(DecodeError::Corrupt);
            },
        };
        let (cat, w3) = match read_u64(b, w2) {
            Some(x) => x,
            None => {
                proof {
                    if hyp {
                        assert(false);
                    }
                }
                return Err(DecodeError::Corrupt);
            },
        };
        let it = crate::chunker::FilePathToCreateOrLinkObject {
            file_path_id: fid,
            kind,
            created_at: cat,
        };
        let ghost items_pre = items@;
        items.push(it);
        proof {
            lemma_kind_tag_inverse(ktag, kind);
            assert(b@.subrange(ipos as int, w3 as int) =~= spec_u64_le(fid) + seq![ktag]
                + spec_u64_le(cat));
            assert(b@.subrange(ipos as int, w3 as int) == spec_encode_item(it));
            assert(items@ =~= items_pre.push(it));
            assert(items@.drop_last() =~= items_pre);
            assert(b@.subrange(pos0 as int, w3 as int) =~= b@.subrange(pos0 as int, ipos as int)
                + b@.subrange(ipos as int, w3 as int));
            assert(b@.subrange(pos0 as int, w3 as int) == spec_encode_items(items@));
            if hyp {
                let itw = wit[ii as int];
                assert(fid == itw.file_path_id) by {
                    lemma_u64_le_roundtrip(fid);
                    lemma_u64_le_roundtrip(itw.file_path_id);
                }
                assert(ktag == crate::records::ObjectKind::spec_tag(itw.kind));
                assert(crate::records::ObjectKind::spec_from_tag(ktag) == Some(itw.kind));
                assert(kind == itw.kind);
                assert(cat == itw.created_at) by {
                    lemma_u64_le_roundtrip(cat);
                    lemma_u64_le_roundtrip(itw.created_at);
                }
                assert(it == itw);
                assert(items@ =~= wit.take(ii + 1));
                assert(spec_encode_items(wit.take(ii + 1)) == spec_encode_items(
                    wit.take(ii as int),
                ) + spec_encode_item(itw)) by {
                    lemma_encode_items_split(wit.take(ii + 1), ii as int);
                    assert(wit.take(ii + 1).take(ii as int) =~= wit.take(ii as int));
                    assert(wit.take(ii + 1).skip(ii as int) =~= seq![itw]);
                    lemma_encode_single_item(seq![itw]);
                }
            }
        }
        ipos = w3;
        ii = ii + 1;
    }
    proof {
        if hyp {
            assert(wit.take(wit.len() as int) =~= wit);
        }
    }
    Ok((items, ipos))
}

/// Parses `n` identifier groups at `pos`. When the bytes there are exactly
/// the encoding of the witnessed groups, parsing succeeds with them.
#[verifier::loop_isolation(false)]
#[verifier::rlimit(100)]
fn decode_groups(
    b: &Vec<u8>,
    pos0: usize,
    n_groups: u64,
    Ghost(wit): Ghost<Seq<GroupView>>,
) -> (r: Result<(Vec<CasGroup>, usize), DecodeError>)
    requires
        pos0 <= b@.len(),
    ensures
        r matches Ok(gp) ==> pos0 <= gp.1 <= b@.len() && gp.0@.len() == n_groups && b@.subrange(
            pos0 as int,
            gp.1 as int,
        ) == spec_encode_groups(group_views(gp.0@)),
        groups_encoded_at(b@, pos0 as int, n_groups, wit) ==> (r matches Ok(gp) && group_views(
            gp.0@,
        ) == wit && gp.1 == pos0 + spec_encode_groups(wit).len()),
{
    let ghost hyp = groups_encoded_at(b@, pos0 as int, n_groups, wit);
    let mut acc: Vec<CasGroup> = Vec::new();
    let mut pos = pos0;
    let mut k: u64 = 0;
    proof {
        assert(group_views(acc@) =~= Seq::<GroupView>::empty());
        assert(b@.subrange(pos0 as int, pos as int) =~= spec_encode_groups(group_views(acc@)));
        if hyp {
            assert(spec_encode_groups(wit.take(0int)) =~= Seq::<u8>::empty()) by {
                assert(wit.take(0int) =~= Seq::<GroupView>::empty());
            }
        }
    }
    while k < n_groups
        invariant
            k <= n_groups,
            pos0 <= pos <= b@.len(),
            acc@.len() == k,
            b@.subrange(pos0 as int, pos as int) == spec_encode_groups(group_views(acc@)),
            hyp == groups_encoded_at(b@, pos0 as int, n_groups, wit),
            hyp ==> (k <= wit.len() && group_views(acc@) == wit.take(k as int) && pos == pos0
                + spec_encode_groups(wit.take(k as int)).len()),
        decreases n_groups - k,
    {
        let gpos0 = pos;
        proof {
            if hyp {
                let gw = wit[k as int];
                lemma_encode_groups_split(wit, k as int);
                lemma_peel(
                    b@,
                    pos0 as int,
                    spec_encode_groups(wit.take(k as int)),
                    spec_encode_groups(wit.skip(k as int)),
                );
                lemma_encode_groups_split(wit.skip(k as int), 1);
                assert(wit.skip(k as int).take(1) =~= seq![gw]);
                lemma_encode_single_group(seq![gw]);
                assert(wit.skip(k as int).skip(1) =~= wit.skip(k + 1));
                assert(spec_encode_groups(wit.skip(k as int)) == spec_encode_group(gw)
                    + spec_encode_groups(wit.skip(k + 1)));
                lemma_peel(
                    b@,
                    pos as int,
                    spec_encode_group(gw),
                    spec_encode_groups(wit.skip(k + 1)),
                );
                assert(spec_encode_group(gw) =~= spec_u64_le(gw.cas_id.len() as u64) + (
                gw.cas_id + (spec_u64_le(gw.file_paths.len() as u64) + spec_encode_items(
                    gw.file_paths,
                ))));
                lemma_peel(
                    b@,
                    pos as int,
                    spec_u64_le(gw.cas_id.len() as u64),
                    gw.cas_id + (spec_u64_le(gw.file_paths.len() as u64) + spec_encode_items(
                        gw.file_paths,
                    )),
                );
                lemma_peel(
                    b@,
                    pos + 8,
                    gw.cas_id,
                    spec_u64_le(gw.file_paths.len() as u64) + spec_encode_items(gw.file_paths),
                );
                lemma_peel(
                    b@,
                    pos + 8 + gw.cas_id.len(),
                    spec_u64_le(gw.file_paths.len() as u64),
                    spec_encode_items(gw.file_paths),
                );
            }
        }
        let (cas_len, q1) = match read_u64(b, pos) {
            Some(x) => x,
            None => {
                proof {
                    if hyp {
                        assert(false);
                    }
                }
                return Err(DecodeError::Corrupt);
            },
        };
        proof {
            if hyp {
                let gw = wit[k as int];
                assert(cas_len == gw.cas_id.len() as u64) by {
                    lemma_u64_le_roundtrip(cas_len);
                    lemma_u64_le_roundtrip(gw.cas_id.len() as u64);
                }
                assert(cas_len as int == gw.cas_id.len() as int);
                assert(cas_len <= b.len() as u64);
            }
        }
        if cas_len > (b.len() as u64) {
            proof {
                if hyp {
                    assert(false);
                }
            }
            return Err(DecodeError::Corrupt);
        }
        let (cas_bytes, q2) = match read_bytes(b, q1, cas_len as usize) {
            Some(x) => x,
            None => {
                proof {
                    if hyp {
                        assert(false);
                    }
                }
                return Err(DecodeError::Corrupt);
            },
        };
        let (n_items, q3) = match read_u64(b, q2) {
            Some(x) => x,
            None => {
                proof {
                    if hyp {
                        assert(false);
                    }
                }
                return Err(DecodeError::Corrupt);
            },
        };
        let ghost items_wit: Seq<crate::chunker::FilePathToCreateOrLinkObject> = if hyp {
            wit[k as int].file_paths
        } else {
            Seq::empty()
        };
        proof {
            if hyp {
                let gw = wit[k as int];
                assert(cas_bytes@ == gw.cas_id);
                assert(n_items == gw.file_paths.len() as u64) by {
                    lemma_u64_le_roundtrip(n_items);
                    lemma_u64_le_roundtrip(gw.file_paths.len() as u64);
                }
                assert(items_encoded_at(b@, q3 as int, n_items, items_wit));
            }
        }
        let (items, ipos) = match decode_items(b, q3, n_items, Ghost(items_wit)) {
            Ok(x) => x,
            Err(e) => {
                proof {
                    if hyp {
                        assert(false);
                    }
                }
                return Err(e);
            },
        };
        let g = CasGroup { cas_id: ContentId::new(cas_bytes), file_paths: items };
        let ghost acc_pre = group_views(acc@);
        acc.push(g);
        proof {
            let gv = group_views(acc@);
            assert(gv =~= acc_pre.push(gv[k as int]));
            assert(gv.drop_last() =~= acc_pre);
            let glast = gv.last();
            assert(glast.cas_id.len() == cas_len as usize);
            assert((glast.cas_id.len() as u64) == cas_len);
            assert((glast.file_paths.len() as u64) == n_items);
            assert(b@.subrange(gpos0 as int, ipos as int) =~= spec_u64_le(cas_len)
                + glast.cas_id + spec_u64_le(n_items) + spec_encode_items(glast.file_paths));
            assert(b@.subrange(gpos0 as int, ipos as int) == spec_encode_group(glast));
            assert(b@.subrange(pos0 as int, ipos as int) =~= b@.subrange(
                pos0 as int,
                gpos0 as int,
            ) + b@.subrange(gpos0 as int, ipos as int));
            assert(b@.subrange(pos0 as int, ipos as int) == spec_encode_groups(gv));
            if hyp {
                let gw = wit[k as int];
                assert(glast == gw);
                assert(gv =~= wit.take(k + 1));
                assert(spec_encode_groups(wit.take(k + 1)) == spec_encode_groups(
                    wit.take(k as int),
                ) + spec_encode_group(gw)) by {
                    lemma_encode_groups_split(wit.take(k + 1), k as int);
                    assert(wit.take(k + 1).take(k as int) =~= wit.take(k as int));
                    assert(wit.take(k + 1).skip(k as int) =~= seq![gw]);
                    lemma_encode_single_group(seq![gw]);
                }
            }
        }
        pos = ipos;
        k = k + 1;
    }
    proof {
        if hyp {
            assert(wit.take(wit.len() as int) =~= wit);
        }
    }
    Ok((acc, pos))
}

/// Parses `n` collected errors at `pos`. When the bytes there are exactly
/// the encoding of the witnessed errors, parsing succeeds with them.
#[verifier::loop_isolation(false)]
#[verifier::rlimit(100)]
fn decode_errors(
    b: &Vec<u8>,
    pos0: usize,
    n_errors: u64,
    Ghost(wit): Ghost<Seq<ErrView>>,
) -> (r: Result<(Vec<NonCriticalFileIdentifierError>, usize), DecodeError>)
    requires
        pos0 <= b@.len(),
    ensures
        r matches Ok(ep) ==> pos0 <= ep.1 <= b@.len() && ep.0@.len() == n_errors && b@.subrange(
            pos0 as int,
            ep.1 as int,
        ) == spec_encode_errs(error_views(ep.0@)),
        errs_encoded_at(b@, pos0 as int, n_errors, wit) ==> (r matches Ok(ep) && error_views(
            ep.0@,
        ) == wit && ep.1 == pos0 + spec_encode_errs(wit).len()),
{
    let ghost hyp = errs_encoded_at(b@, pos0 as int, n_errors, wit);
    let mut errors: Vec<NonCriticalFileIdentifierError> = Vec::new();
    let mut epos = pos0;
    let mut ei: u64 = 0;
    proof {
        assert(error_views(errors@) =~= Seq::<ErrView>::empty());
        assert(b@.subrange(pos0 as int, epos as int) =~= spec_encode_errs(error_views(errors@)));
        if hyp {
            assert(spec_encode_errs(wit.take(0int)) =~= Seq::<u8>::empty()) by {
                assert(wit.take(0int) =~= Seq::<ErrView>::empty());
            }
        }
    }
    while ei < n_errors
        invariant
            ei <= n_errors,
            pos0 <= epos <= b@.len(),
            errors@.len() == ei,
            b@.subrange(pos0 as int, epos as int) == spec_encode_errs(error_views(errors@)),
            hyp == errs_encoded_at(b@, pos0 as int, n_errors, wit),
            hyp ==> (ei <= wit.len() && error_views(errors@) == wit.take(ei as int) && epos
                == pos0 + spec_encode_errs(wit.take(ei as int)).len()),
        decreases n_errors - ei,
    {
        proof {
            if hyp {
                let ew = wit[ei as int];
                lemma_encode_errs_split(wit, ei as int);
                lemma_peel(
                    b@,
                    pos0 as int,
                    spec_encode_errs(wit.take(ei as int)),
                    spec_encode_errs(wit.skip(ei as int)),
                );
                lemma_encode_errs_split(wit.skip(ei as int), 1);
                assert(wit.skip(ei as int).take(1) =~= seq![ew]);
                lemma_encode_single_err(seq![ew]);
                assert(wit.skip(ei as int).skip(1) =~= wit.skip(ei + 1));
                assert(spec_encode_errs(wit.skip(ei as int)) == spec_encode_err(ew)
                    + spec_encode_errs(wit.skip(ei + 1)));
                lemma_peel(
                    b@,
                    epos as int,
                    spec_encode_err(ew),
                    spec_encode_errs(wit.skip(ei + 1)),
                );
                assert(spec_encode_err(ew) =~= seq![spec_err_tag(ew)] + (spec_u64_le(
                    spec_err_payload(ew).len() as u64,
                ) + spec_err_payload(ew)));
                lemma_peel(
                    b@,
                    epos as int,
                    seq![spec_err_tag(ew)],
                    spec_u64_le(spec_err_payload(ew).len() as u64) + spec_err_payload(ew),
                );
                lemma_peel(
                    b@,
                    epos + 1,
                    spec_u64_le(spec_err_payload(ew).len() as u64),
                    spec_err_payload(ew),
                );
                assert(b@[epos as int] == spec_err_tag(ew)) by {
                    assert(b@.subrange(epos as int, epos + 1)[0] == b@[epos as int]);
                }
            }
        }
        let (etag, y1) = match read_u8(b, epos) {
            Some(x) => x,
            None => {
                proof {
                    if hyp {
                        assert(false);
                    }
                }
                return Err(DecodeError::Corrupt);
            },
        };
        let (plen, y2) = match read_u64(b, y1) {
            Some(x) => x,
            None => {
                proof {
                    if hyp {
                        assert(false);
                    }
                }
                return Err(DecodeError::Corrupt);
            },
        };
        proof {
            if hyp {
                let ew = wit[ei as int];
                assert(plen == spec_err_payload(ew).len() as u64) by {
                    lemma_u64_le_roundtrip(plen);
                    lemma_u64_le_roundtrip(spec_err_payload(ew).len() as u64);
                }
            }
        }
        if plen > (b.len() as u64) {
            proof {
                if hyp {
                    assert(false);
                }
            }
            return Err(DecodeError::Corrupt);
        }
        let (payload, y3) = match read_bytes(b, y2, plen as usize) {
            Some(x) => x,
            None => {
                proof {
                    if hyp {
                        assert(false);
                    }
                }
                return Err(DecodeError::Corrupt);
            },
        };
        let e = if etag == 0 {
            NonCriticalFileIdentifierError::FailedToExtractFileMetadata(payload)
        } else if etag == 1 {
            NonCriticalFileIdentifierError::FailedToExtractMetadataFromOnDemandFile(payload)
        } else if etag == 2 {
            NonCriticalFileIdentifierError::FailedToExtractIsolatedFilePathData(payload)
        } else {
            proof {
                if hyp {
                    assert(false);
                }
            }
            return Err(DecodeError::Corrupt);
        };
        let ghost errs_pre = error_views(errors@);
        errors.push(e);
        proof {
            let evs = error_views(errors@);
            assert(evs =~= errs_pre.push(evs[ei as int]));
            assert(evs.drop_last() =~= errs_pre);
            let elast = evs.last();
            assert(spec_err_tag(elast) == etag);
            assert(spec_err_payload(elast).len() as u64 == plen);
            assert(b@.subrange(epos as int, y3 as int) =~= seq![etag] + spec_u64_le(plen)
                + spec_err_payload(elast));
            assert(b@.subrange(epos as int, y3 as int) == spec_encode_err(elast));
            assert(b@.subrange(pos0 as int, y3 as int) =~= b@.subrange(pos0 as int, epos as int)
                + b@.subrange(epos as int, y3 as int));
            assert(b@.subrange(pos0 as int, y3 as int) == spec_encode_errs(evs));
            if hyp {
                let ew = wit[ei as int];
                assert(payload@ == spec_err_payload(ew));
                assert(elast == ew);
                assert(evs =~= wit.take(ei + 1));
                assert(spec_encode_errs(wit.take(ei + 1)) == spec_encode_errs(
                    wit.take(ei as int),
                ) + spec_encode_err(ew)) by {
                    lemma_encode_errs_split(wit.take(ei + 1), ei as int);
                    assert(wit.take(ei + 1).take(ei as int) =~= wit.take(ei as int));
                    assert(wit.take(ei + 1).skip(ei as int) =~= seq![ew]);
                    lemma_encode_single_err(seq![ew]);
                }
            }
        }
        epos = y3;
        ei = ei + 1;
    }
    proof {
        if hyp {
            assert(wit.take(wit.len() as int) =~= wit);
        }
    }
    Ok((errors, epos))
}

/// Width of the encoded cursor section.
spec fn cursor_width(sv: StateView) -> int {
    match sv.cursor {
        None => 1,
        Some(_) => 9,
    }
}

/// Where each section of an encoded state sits.
#[verifier::rlimit(100)]
#[verifier::spinoff_prover]
proof fn lemma_state_layout(bs: Seq<u8>, sv: StateView)
    requires
        bs == spec_encode_state(sv),
        bounded_state(sv),
    ensures
        ({
            let h = 1 + cursor_width(sv);
            let glen = spec_encode_groups(sv.accumulator).len() as int;
            let elen = spec_encode_errs(sv.errors).len() as int;
            &&& bs.len() == h + 40 + glen + elen
            &&& bs[0] == 1u8
            &&& bs[1] == (match sv.cursor {
                None => 0u8,
                Some(_) => 1u8,
            })
            &&& (sv.cursor matches Some(c) ==> bs.subrange(2, 10) == spec_u64_le(c))
            &&& bs.subrange(h, h + 8) == spec_u64_le(sv.stats.scanned)
            &&& bs.subrange(h + 8, h + 16) == spec_u64_le(sv.stats.linked)
            &&& bs.subrange(h + 16, h + 24) == spec_u64_le(sv.stats.created)
            &&& bs.subrange(h + 24, h + 32) == spec_u64_le(sv.accumulator.len() as u64)
            &&& groups_encoded_at(bs, h + 32, sv.accumulator.len() as u64, sv.accumulator)
            &&& bs.subrange(h + 32 + glen, h + 40 + glen) == spec_u64_le(
                sv.errors.len() as u64,
            )
            &&& errs_encoded_at(bs, h + 40 + glen, sv.errors.len() as u64, sv.errors)
        }),
{
    let cbytes: Seq<u8> = match sv.cursor {
        None => seq![0u8],
        Some(c) => seq![1u8] + spec_u64_le(c),
    };
    let tail_g = spec_encode_groups(sv.accumulator) + (spec_u64_le(sv.errors.len() as u64)
        + spec_encode_errs(sv.errors));
    let tail_n = spec_u64_le(sv.accumulator.len() as u64) + tail_g;
    let tail_s = spec_u64_le(sv.stats.scanned) + (spec_u64_le(sv.stats.linked) + (spec_u64_le(
        sv.stats.created,
    ) + tail_n));
    let h = 1 + cursor_width(sv);
    assert(bs =~= seq![1u8] + (cbytes + tail_s));
    assert(bs.subrange(0, bs.len() as int) =~= bs);
    lemma_peel(bs, 0, seq![1u8], cbytes + tail_s);
    assert(bs[0] == 1u8) by {
        assert(bs.subrange(0, 1int)[0] == bs[0]);
    }
    match sv.cursor {
        None => {
            lemma_peel(bs, 1, seq![0u8], tail_s);
            assert(bs[1] == 0u8) by {
                assert(bs.subrange(1, 2int)[0] == bs[1]);
            }
        },
        Some(c) => {
            assert(cbytes + tail_s =~= seq![1u8] + (spec_u64_le(c) + tail_s));
            lemma_peel(bs, 1, seq![1u8], spec_u64_le(c) + tail_s);
            assert(bs[1] == 1u8) by {
                assert(bs.subrange(1, 2int)[0] == bs[1]);
            }
            lemma_peel(bs, 2, spec_u64_le(c), tail_s);
        },
    }
    lemma_peel(bs, h, spec_u64_le(sv.stats.scanned), spec_u64_le(sv.stats.linked) + (
    spec_u64_le(sv.stats.created) + tail_n));
    lemma_peel(bs, h + 8, spec_u64_le(sv.stats.linked), spec_u64_le(sv.stats.created) + tail_n);
    lemma_peel(bs, h + 16, spec_u64_le(sv.stats.created), tail_n);
    lemma_peel(bs, h + 24, spec_u64_le(sv.accumulator.len() as u64), tail_g);
    lemma_peel(bs, h + 32, spec_encode_groups(sv.accumulator), spec_u64_le(
        sv.errors.len() as u64,
    ) + spec_encode_errs(sv.errors));
    lemma_peel(bs, h + 32 + spec_encode_groups(sv.accumulator).len(), spec_u64_le(
        sv.errors.len() as u64,
    ), spec_encode_errs(sv.errors));
}

/// Deserializes a resumable state.
///
/// Sound: whenever it returns a state, the input is exactly that state's
/// encoding, so a successful decode can never invent or alter a
/// continuation point. Complete: whenever the input is the encoding of some
/// state (every state actually built from vectors is `bounded_state`),
/// decoding succeeds. A blob of another format version is rejected as
/// `UnknownVersion`; a truncated or ill-formed one as `Corrupt`.
#[verifier::loop_isolation(false)]
#[verifier::rlimit(100)]
#[verifier::spinoff_prover]
pub fn decode_state(b: &Vec<u8>) -> (r: Result<ResumableJobState, DecodeError>)
    ensures
        r matches Ok(st) ==> b@ == spec_encode_state(st@),
        (b@.len() == 0 || b@[0] != 1) ==> r == Err::<ResumableJobState, DecodeError>(
            DecodeError::UnknownVersion,
        ),
        (exists|sv: StateView| b@ == spec_encode_state(sv) && bounded_state(sv)) ==> r is Ok,
{
    let ghost can = exists|sv: StateView| b@ == spec_encode_state(sv) && bounded_state(sv);
    let ghost sv: StateView = if can {
        choose|sv: StateView| b@ == spec_encode_state(sv) && bounded_state(sv)
    } else {
        StateView {
            cursor: None,
            accumulator: Seq::empty(),
            stats: JobStats { scanned: 0, linked: 0, created: 0 },
            errors: Seq::empty(),
        }
    };
    proof {
        if can {
            lemma_state_layout(b@, sv);
        }
    }
    let (version, mut pos): (u8, usize) = match read_u8(b, 0) {
        Some(x) => x,
        None => {
            proof {
                if can {
                    assert(false);
                }
            }
            return Err(DecodeError::UnknownVersion);
        },
    };
    if version != 1 {
        proof {
            if can {
                assert(false);
            }
        }
        return Err(DecodeError::UnknownVersion);
    }
    let (ctag, p1) = match read_u8(b, pos) {
        Some(x) => x,
        None => {
            proof {
                if can {
                    assert(false);
                }
            }
            return Err(DecodeError::Corrupt);
        },
    };
    pos = p1;
    let cursor: Option<u64>;
    if ctag == 0 {
        cursor = None;
    } else if ctag == 1 {
        match read_u64(b, pos) {
            Some((c, p)) => {
                cursor = Some(c);
                pos = p;
            },
            None => {
                proof {
                    if can {
                        assert(false);
                    }
                }
                return Err(DecodeError::Corrupt);
            },
        }
    } else {
        proof {
            if can {
                assert(false);
            }
        }
        return Err(DecodeError::Corrupt);
    }
    let ghost enc_cursor: Seq<u8> = match cursor {
        None => seq![0u8],
        Some(c) => seq![1u8] + spec_u64_le(c),
    };
    proof {
        assert(b@.subrange(0, pos as int) =~= seq![1u8] + enc_cursor);
        if can {
            // the cursor section has the witness's width, so the stats
            // section and everything after it sit at known offsets
            assert(pos == 1 + cursor_width(sv));
        }
    }
    let (scanned, p2) = match read_u64(b, pos) {
        Some(x) => x,
        None => {
            proof {
                if can {
                    assert(false);
                }
            }
            return Err(DecodeError::Corrupt);
        },
    };
    let (linked, p3) = match read_u64(b, p2) {
        Some(x) => x,
        None => {
            proof {
                if can {
                    assert(false);
                }
            }
            return Err(DecodeError::Corrupt);
        },
    };
    let (created, p4) = match read_u64(b, p3) {
        Some(x) => x,
        None => {
            proof {
                if can {
                    assert(false);
                }
            }
            return Err(DecodeError::Corrupt);
        },
    };
    let (n_groups, p5) = match read_u64(b, p4) {
        Some(x) => x,
        None => {
            proof {
                if can {
                    assert(false);
                }
            }
            return Err(DecodeError::Corrupt);
        },
    };
    let ghost hdr: Seq<u8> = seq![1u8] + enc_cursor + spec_u64_le(scanned) + spec_u64_le(linked)
        + spec_u64_le(created) + spec_u64_le(n_groups);
    proof {
        assert(b@.subrange(0, p5 as int) =~= hdr);
        if can {
            assert(n_groups == sv.accumulator.len() as u64) by {
                lemma_u64_le_roundtrip(n_groups);
                lemma_u64_le_roundtrip(sv.accumulator.len() as u64);
            }
            assert(groups_encoded_at(b@, p5 as int, n_groups, sv.accumulator));
        }
    }
    let ghost groups_wit: Seq<GroupView> = if can {
        sv.accumulator
    } else {
        Seq::empty()
    };
    let (acc, gend) = match decode_groups(b, p5, n_groups, Ghost(groups_wit)) {
        Ok(x) => x,
        Err(e) => {
            proof {
                if can {
                    assert(false);
                }
            }
            return Err(e);
        },
    };
    proof {
        if can {
            assert(gend == p5 + spec_encode_groups(sv.accumulator).len());
        }
    }
    let (n_errors, e0) = match read_u64(b, gend) {
        Some(x) => x,
        None => {
            proof {
                if can {
                    assert(false);
                }
            }
            return Err(DecodeError::Corrupt);
        },
    };
    proof {
        if can {
            assert(n_errors == sv.errors.len() as u64) by {
                lemma_u64_le_roundtrip(n_errors);
                lemma_u64_le_roundtrip(sv.errors.len() as u64);
            }
            assert(errs_encoded_at(b@, e0 as int, n_errors, sv.errors));
        }
    }
    let ghost errs_wit: Seq<ErrView> = if can {
        sv.errors
    } else {
        Seq::empty()
    };
    let (errors, epos) = match decode_errors(b, e0, n_errors, Ghost(errs_wit)) {
        Ok(x) => x,
        Err(e) => {
            proof {
                if can {
                    assert(false);
                }
            }
            return Err(e);
        },
    };
    if epos != b.len() {
        proof {
            if can {
                assert(epos == e0 + spec_encode_errs(sv.errors).len());
                assert(epos == b@.len());
                assert(false);
            }
        }
        return Err(DecodeError::Corrupt);
    }
    let st = ResumableJobState {
        cursor,
        accumulator: acc,
        stats: JobStats { scanned, linked, created },
        errors,
    };
    proof {
        assert(st@.accumulator == group_views(st.accumulator@));
        assert(b@.subrange(gend as int, e0 as int) =~= spec_u64_le(n_errors));
        assert((st.accumulator@.len() as u64) == n_groups);
        assert((st.errors@.len() as u64) == n_errors);
        assert(b@ =~= b@.subrange(0, p5 as int) + b@.subrange(p5 as int, gend as int)
            + b@.subrange(gend as int, e0 as int) + b@.subrange(e0 as int, epos as int));
        assert(b@ =~= spec_encode_state(st@));
    }
    Ok(st)
}

} // verus!
