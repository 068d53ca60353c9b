use file_identifier::orphan::{
    matches_orphan, orphan_path_filters_deep, orphan_path_filters_shallow, scan_page, ScanScope,
};
use file_identifier::records::{ContentId, FileMetadata, FsMetadata, ObjectKind, PathRecord};

fn record(id: u64, path: &[u8], size: u64) -> PathRecord {
    PathRecord {
        id,
        location_id: 7,
        materialized_path: path.to_vec(),
        is_dir: false,
        size_in_bytes: size,
        content_id: None,
        object_id: None,
    }
}

#[test]
fn shallow_filter_matches_exact_children_path() {
    let f = orphan_path_filters_shallow(7, None, b"/photos/".to_vec());
    assert!(matches_orphan(&f, &record(1, b"/photos/", 10)));
    assert!(!matches_orphan(&f, &record(2, b"/photos/trips/", 10)));
    assert!(!matches_orphan(&f, &record(3, b"/", 10)));
}

#[test]
fn deep_filter_matches_subtree() {
    let f = orphan_path_filters_deep(7, None, Some(b"/photos/".to_vec()));
    assert!(matches_orphan(&f, &record(1, b"/photos/", 10)));
    assert!(matches_orphan(&f, &record(2, b"/photos/trips/", 10)));
    assert!(!matches_orphan(&f, &record(3, b"/music/", 10)));
    let whole = orphan_path_filters_deep(7, None, None);
    assert!(matches_orphan(&whole, &record(3, b"/music/", 10)));
}

#[test]
fn empty_content_is_never_scanned() {
    // zero-length records are excluded from the orphan query entirely
    let f = orphan_path_filters_deep(7, None, None);
    assert!(!matches_orphan(&f, &record(1, b"/", 0)));
}

#[test]
fn directories_and_foreign_locations_are_excluded() {
    let f = orphan_path_filters_deep(7, None, None);
    let mut dir = record(1, b"/", 10);
    dir.is_dir = true;
    assert!(!matches_orphan(&f, &dir));
    let mut foreign = record(2, b"/", 10);
    foreign.location_id = 8;
    assert!(!matches_orphan(&f, &foreign));
}

#[test]
fn identified_records_are_excluded() {
    // a record carrying both identity fields is no orphan any more
    let f = orphan_path_filters_deep(7, None, None);
    let mut done = record(1, b"/", 10);
    done.content_id = Some(ContentId::new(b"h".to_vec()));
    done.object_id = Some(3);
    assert!(!matches_orphan(&f, &done));
    // with only one of the two set, the record is still reprocessed
    let mut half = record(2, b"/", 10);
    half.content_id = Some(ContentId::new(b"h".to_vec()));
    assert!(matches_orphan(&f, &half));
}

#[test]
fn cursor_skips_already_processed_ids() {
    let f = orphan_path_filters_deep(7, Some(2), None);
    assert!(!matches_orphan(&f, &record(1, b"/", 10)));
    assert!(!matches_orphan(&f, &record(2, b"/", 10)));
    assert!(matches_orphan(&f, &record(3, b"/", 10)));
}

#[test]
fn scan_page_pages_in_id_order_and_signals_completion() {
    let records = vec![
        record(1, b"/", 10),
        record(2, b"/", 0),  // empty: skipped
        record(3, b"/", 10),
        record(4, b"/", 10),
    ];
    let f = orphan_path_filters_deep(7, None, None);
    let page1 = scan_page(&records, &f, 2);
    assert_eq!(page1.iter().map(|r| r.id).collect::<Vec<_>>(), vec![1, 3]);
    // a full page does not signal completion; resume past its last id
    let f2 = orphan_path_filters_deep(7, Some(3), None);
    let page2 = scan_page(&records, &f2, 2);
    assert_eq!(page2.iter().map(|r| r.id).collect::<Vec<_>>(), vec![4]);
    // shorter than the page size: the scan is complete
    assert!(page2.len() < 2);
}

#[test]
fn file_metadata_has_identifier_exactly_for_nonempty_content() {
    let meta = FsMetadata { size_in_bytes: 42, is_dir: false, created_at: 5, modified_at: 6 };
    let m = FileMetadata::new(meta, Some(ObjectKind::Image), Some(ContentId::new(b"h1".to_vec())));
    assert_eq!(m.cas_id.as_ref().map(|c| c.bytes.clone()), Some(b"h1".to_vec()));
    assert_eq!(m.kind, ObjectKind::Image);
    assert_eq!(m.fs_metadata, meta);

    let empty = FsMetadata { size_in_bytes: 0, is_dir: false, created_at: 5, modified_at: 6 };
    let m0 = FileMetadata::new(empty, None, None);
    assert!(m0.cas_id.is_none());
    assert_eq!(m0.kind, ObjectKind::Unknown);
}

#[test]
fn scope_duplicate_preserves_value() {
    let s = ScanScope::Shallow { parent_path: b"/photos/".to_vec() };
    match s.duplicate() {
        ScanScope::Shallow { parent_path } => assert_eq!(parent_path, b"/photos/".to_vec()),
        _ => panic!("wrong scope variant"),
    }
}
