//! Core data model: path records, content identifiers, content kinds, and
//! the result of identifying one file.

use vstd::prelude::*;

verus! {

/// Copies a byte vector element by element.
pub fn bytes_clone(src: &Vec<u8>) -> (r: Vec<u8>)
    ensures
        r@ == src@,
{
    let mut out: Vec<u8> = Vec::new();
    let mut i: usize = 0;
    while i < src.len()
        invariant
            i <= src.len(),
            out@ == src@.take(i as int),
        decreases src.len() - i,
    {
        out.push(src[i]);
        i = i + 1;
        assert(src@.take(i as int).drop_last() == src@.take(i - 1));
    }
    assert(src@.take(src@.len() as int) == src@);
    out
}

/// Compares two byte vectors for equality of contents.
pub fn bytes_eq(a: &Vec<u8>, b: &Vec<u8>) -> (r: bool)
    ensures
        r == (a@ == b@),
{
    if a.len() != b.len() {
        assert(a@ != b@) by {
            assert(a@.len() != b@.len());
        }
        return false;
    }
    let mut i: usize = 0;
    while i < a.len()
        invariant
            i <= a.len(),
            a@.len() == b@.len(),
            forall|j: int| 0 <= j < i ==> a@[j] == b@[j],
        decreases a.len() - i,
    {
        if a[i] != b[i] {
            return false;
        }
        i = i + 1;
    }
    assert(a@ =~= b@);
    true
}

/// Tests whether `p` is a prefix of `s`.
pub fn bytes_is_prefix(p: &Vec<u8>, s: &Vec<u8>) -> (r: bool)
    ensures
        r == p@.is_prefix_of(s@),
{
    if p.len() > s.len() {
        return false;
    }
    let mut i: usize = 0;
    while i < p.len()
        invariant
            i <= p.len(),
            p@.len() <= s@.len(),
            forall|j: int| 0 <= j < i ==> p@[j] == s@[j],
        decreases p.len() - i,
    {
        if p[i] != s[i] {
            assert(!p@.is_prefix_of(s@)) by {
                assert(s@.subrange(0, p@.len() as int)[i as int] == s@[i as int]);
            }
            return false;
        }
        i = i + 1;
    }
    assert(p@ =~= s@.subrange(0, p@.len() as int));
    true
}

/// A content identifier: a collision-resistant value derived from a file's
/// bytes and length, so that byte-identical files carry equal identifiers.
/// Absent by convention for zero-length files.
pub struct ContentId {
    pub bytes: Vec<u8>,
}

impl View for ContentId {
    type V = Seq<u8>;

    open spec fn view(&self) -> Seq<u8> {
        self.bytes@
    }
}

impl ContentId {
    /// Wraps identifier bytes.
    pub fn new(bytes: Vec<u8>) -> (r: ContentId)
        ensures
            r@ == bytes@,
    {
        ContentId { bytes }
    }

    /// Copies this identifier.
    pub fn duplicate(&self) -> (r: ContentId)
        ensures
            r@ == self@,
    {
        ContentId { bytes: bytes_clone(&self.bytes) }
    }

    /// Compares two identifiers by their bytes.
    pub fn same_as(&self, other: &ContentId) -> (r: bool)
        ensures
            r == (self@ == other@),
    {
        bytes_eq(&self.bytes, &other.bytes)
    }
}

/// Coarse classification of a file's content, resolved from its extension
/// and magic bytes by an external table; `Unknown` is the default whenever
/// resolution fails.
#[derive(Clone, Copy, Debug, PartialEq, Eq, Structural)]
pub enum ObjectKind {
    Unknown,
    Document,
    Text,
    Image,
    Audio,
    Video,
    Archive,
    Executable,
}

impl ObjectKind {
    /// The stable one-byte tag of a kind.
    pub open spec fn spec_tag(k: ObjectKind) -> u8 {
        match k {
            ObjectKind::Unknown => 0,
            ObjectKind::Document => 1,
            ObjectKind::Text => 2,
            ObjectKind::Image => 3,
            ObjectKind::Audio => 4,
            ObjectKind::Video => 5,
            ObjectKind::Archive => 6,
            ObjectKind::Executable => 7,
        }
    }

    /// A stable one-byte tag for this kind, used by the state codec.
    pub fn to_tag(&self) -> (r: u8)
        ensures
            r == ObjectKind::spec_tag(*self),
            ObjectKind::spec_from_tag(r) == Some(*self),
    {
        match self {
            ObjectKind::Unknown => 0,
            ObjectKind::Document => 1,
            ObjectKind::Text => 2,
            ObjectKind::Image => 3,
            ObjectKind::Audio => 4,
            ObjectKind::Video => 5,
            ObjectKind::Archive => 6,
            ObjectKind::Executable => 7,
        }
    }

    /// The kind a stable tag stands for, if any.
    pub open spec fn spec_from_tag(tag: u8) -> Option<ObjectKind> {
        if tag == 0 {
            Some(ObjectKind::Unknown)
        } else if tag == 1 {
            Some(ObjectKind::Document)
        } else if tag == 2 {
            Some(ObjectKind::Text)
        } else if tag == 3 {
            Some(ObjectKind::Image)
        } else if tag == 4 {
            Some(ObjectKind::Audio)
        } else if tag == 5 {
            Some(ObjectKind::Video)
        } else if tag == 6 {
            Some(ObjectKind::Archive)
        } else if tag == 7 {
            Some(ObjectKind::Executable)
        } else {
            None
        }
    }

    /// Decodes a stable tag back into a kind.
    pub fn from_tag(tag: u8) -> (r: Option<ObjectKind>)
        ensures
            r == ObjectKind::spec_from_tag(tag),
    {
        if tag == 0 {
            Some(ObjectKind::Unknown)
        } else if tag == 1 {
            Some(ObjectKind::Document)
        } else if tag == 2 {
            Some(ObjectKind::Text)
        } else if tag == 3 {
            Some(ObjectKind::Image)
        } else if tag == 4 {
            Some(ObjectKind::Audio)
        } else if tag == 5 {
            Some(ObjectKind::Video)
        } else if tag == 6 {
            Some(ObjectKind::Archive)
        } else if tag == 7 {
            Some(ObjectKind::Executable)
        } else {
            None
        }
    }
}

/// A previously indexed filesystem entry, owned by the external index; this
/// core reads it and, for matched records, fills `content_id` / `object_id`.
pub struct PathRecord {
    /// Primary key; scanning paginates in strictly ascending order of it.
    pub id: u64,
    /// The location this record belongs to.
    pub location_id: u64,
    /// Hierarchical path of the entry's parent chain, as plain bytes.
    pub materialized_path: Vec<u8>,
    /// Whether the entry is a directory; directories are never identified.
    pub is_dir: bool,
    /// Size of the entry's content in bytes.
    pub size_in_bytes: u64,
    /// The record's content identifier, once identified.
    pub content_id: Option<ContentId>,
    /// The content object the record is linked to, once identified.
    pub object_id: Option<u64>,
}

/// The mathematical value of a `PathRecord`: the same fields over sequences.
pub struct RecordView {
    pub id: u64,
    pub location_id: u64,
    pub materialized_path: Seq<u8>,
    pub is_dir: bool,
    pub size_in_bytes: u64,
    pub content_id: Option<Seq<u8>>,
    pub object_id: Option<u64>,
}

impl View for PathRecord {
    type V = RecordView;

    open spec fn view(&self) -> RecordView {
        RecordView {
            id: self.id,
            location_id: self.location_id,
            materialized_path: self.materialized_path@,
            is_dir: self.is_dir,
            size_in_bytes: self.size_in_bytes,
            content_id: match self.content_id {
                Some(c) => Some(c@),
                None => None,
            },
            object_id: self.object_id,
        }
    }
}

/// The views of a sequence of records, element by element.
pub open spec fn record_views(s: Seq<PathRecord>) -> Seq<RecordView> {
    s.map_values(|r: PathRecord| r@)
}

impl PathRecord {
    /// Copies this record.
    pub fn duplicate(&self) -> (r: PathRecord)
        ensures
            r@ == self@,
    {
        PathRecord {
            id: self.id,
            location_id: self.location_id,
            materialized_path: bytes_clone(&self.materialized_path),
            is_dir: self.is_dir,
            size_in_bytes: self.size_in_bytes,
            content_id: match &self.content_id {
                Some(c) => Some(c.duplicate()),
                None => None,
            },
            object_id: self.object_id,
        }
    }
}

/// Raw filesystem metadata snapshot for one entry, as plain values.
#[derive(Clone, Copy, Debug, PartialEq, Eq, Structural)]
pub struct FsMetadata {
    /// Content length in bytes.
    pub size_in_bytes: u64,
    /// Whether the entry is a directory.
    pub is_dir: bool,
    /// Creation time, seconds since the epoch.
    pub created_at: i64,
    /// Last modification time, seconds since the epoch.
    pub modified_at: i64,
}

/// The transient result of identifying one file: an optional content
/// identifier (present exactly when the content is non-empty), a content
/// kind, and the metadata snapshot. Consumed immediately by batching.
pub struct FileMetadata {
    /// Content identifier; `Some` exactly when `fs_metadata.size_in_bytes > 0`.
    pub cas_id: Option<ContentId>,
    /// Resolved content kind, `Unknown` when resolution failed.
    pub kind: ObjectKind,
    /// The raw metadata snapshot the identification was computed from.
    pub fs_metadata: FsMetadata,
}

impl FileMetadata {
    /// Builds the identification result for one non-directory entry from its
    /// metadata snapshot, the externally resolved content kind (if any), and
    /// the externally computed content hash (required for non-empty content).
    ///
    /// Empty content gets no identifier by convention; a failed kind
    /// resolution falls back to `Unknown`.
    pub fn new(
        fs_metadata: FsMetadata,
        resolved_kind: Option<ObjectKind>,
        content_hash: Option<ContentId>,
    ) -> (r: FileMetadata)
        requires
            !fs_metadata.is_dir,
            fs_metadata.size_in_bytes > 0 ==> content_hash matches Some(_),
        ensures
            r.fs_metadata == fs_metadata,
            r.kind == (match resolved_kind {
                Some(k) => k,
                None => ObjectKind::Unknown,
            }),
            fs_metadata.size_in_bytes > 0 ==> r.cas_id == content_hash,
            fs_metadata.size_in_bytes == 0 ==> r.cas_id is None,
    {
        let cas_id = if fs_metadata.size_in_bytes > 0 {
            content_hash
        } else {
            None
        };
        let kind = match resolved_kind {
            Some(k) => k,
            None => ObjectKind::Unknown,
        };
        FileMetadata { cas_id, kind, fs_metadata }
    }
}

} // verus!
