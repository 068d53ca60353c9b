use file_identifier::chunker::{chunk_ready_units, CasGroup, FilePathToCreateOrLinkObject};
use file_identifier::error::NonCriticalFileIdentifierError;
use file_identifier::job::{
    apply_links, process_units, run_identifier_job, IdentifyOutcome, RecordOutcome,
};
use file_identifier::orphan::{orphan_path_filters_deep, scan_page, ScanScope};
use file_identifier::records::{ContentId, ObjectKind, PathRecord};
use file_identifier::state::{encode_state, JobStats, ResumableJobState};
use file_identifier::store::{LinkOp, ObjectStore};

fn record(id: u64, size: u64) -> PathRecord {
    PathRecord {
        id,
        location_id: 7,
        materialized_path: b"/".to_vec(),
        is_dir: false,
        size_in_bytes: size,
        content_id: None,
        object_id: None,
    }
}

fn identified(id: u64, cas: &[u8]) -> RecordOutcome {
    RecordOutcome {
        file_path_id: id,
        outcome: IdentifyOutcome::Identified {
            cas_id: Some(ContentId::new(cas.to_vec())),
            kind: ObjectKind::Image,
            created_at: 100,
        },
    }
}

fn failed(id: u64) -> RecordOutcome {
    RecordOutcome {
        file_path_id: id,
        outcome: IdentifyOutcome::Failed {
            error: NonCriticalFileIdentifierError::FailedToExtractFileMetadata(b"/a".to_vec()),
        },
    }
}

fn object_of(records: &[PathRecord], id: u64) -> u64 {
    records.iter().find(|r| r.id == id).unwrap().object_id.unwrap()
}

/// Location with files A, B, C holding identical bytes (identifier h1) and D
/// with distinct bytes (identifier h2), threshold 2: h1's group is a
/// standalone unit, h2's single record is flushed as the leftover; exactly
/// two units run; A, B, C share one object and D gets another.
#[test]
fn scenario_three_identical_one_distinct() {
    let db = vec![record(1, 10), record(2, 10), record(3, 10), record(4, 10)];
    let outcomes = vec![
        identified(1, b"h1"),
        identified(2, b"h1"),
        identified(3, b"h1"),
        identified(4, b"h2"),
    ];
    let mut store = ObjectStore::new();
    let mut sync_log: Vec<LinkOp> = Vec::new();
    let scope = ScanScope::Deep { sub_path: None };
    let report = run_identifier_job(
        &db,
        &outcomes,
        &mut store,
        &mut sync_log,
        7,
        &scope,
        2,
        10,
        ResumableJobState::new(),
    );
    assert_eq!(report.units_dispatched, 2);
    assert_eq!(report.links.len(), 4);
    assert_eq!(report.errors.len(), 0);
    assert_eq!(report.stats.scanned, 4);
    assert_eq!(report.stats.linked, 4);
    assert_eq!(report.stats.created, 2);

    let mut records = db;
    apply_links(&mut records, &report.links);
    let a = object_of(&records, 1);
    let b = object_of(&records, 2);
    let c = object_of(&records, 3);
    let d = object_of(&records, 4);
    assert_eq!(a, b);
    assert_eq!(b, c);
    assert_ne!(a, d);
    for r in &records {
        assert!(r.content_id.is_some() && r.object_id.is_some());
    }
    // the sync log carries exactly the committed links
    assert_eq!(sync_log.len(), 4);
}

/// Conservation: every scanned orphan yields exactly one link or one error;
/// the sum of record counts across dispatched units equals the number the
/// scanner handed out minus the failures.
#[test]
fn conservation_links_plus_errors_cover_the_scan() {
    let db = vec![record(1, 10), record(2, 10), record(3, 10), record(4, 10)];
    let outcomes = vec![identified(1, b"h1"), failed(2), identified(3, b"h2")];
    // record 4 has no recorded outcome: counted as an extraction failure
    let mut store = ObjectStore::new();
    let mut sync_log: Vec<LinkOp> = Vec::new();
    let scope = ScanScope::Deep { sub_path: None };
    let report = run_identifier_job(
        &db,
        &outcomes,
        &mut store,
        &mut sync_log,
        7,
        &scope,
        100,
        10,
        ResumableJobState::new(),
    );
    assert_eq!(report.stats.scanned, 4);
    assert_eq!(report.links.len(), 2);
    assert_eq!(report.errors.len(), 2);
}

/// Idempotence: a second run over the linked snapshot finds no orphans and
/// performs zero work.
#[test]
fn second_run_does_no_work() {
    let db = vec![record(1, 10), record(2, 10)];
    let outcomes = vec![identified(1, b"h1"), identified(2, b"h2")];
    let mut store = ObjectStore::new();
    let mut sync_log: Vec<LinkOp> = Vec::new();
    let scope = ScanScope::Deep { sub_path: None };
    let report = run_identifier_job(
        &db,
        &outcomes,
        &mut store,
        &mut sync_log,
        7,
        &scope,
        100,
        10,
        ResumableJobState::new(),
    );
    let mut records = db;
    apply_links(&mut records, &report.links);

    let objects_before = store.objects.len();
    let report2 = run_identifier_job(
        &records,
        &outcomes,
        &mut store,
        &mut sync_log,
        7,
        &scope,
        100,
        10,
        ResumableJobState::new(),
    );
    assert_eq!(report2.stats.scanned, 0);
    assert_eq!(report2.links.len(), 0);
    assert_eq!(report2.errors.len(), 0);
    assert_eq!(report2.units_dispatched, 0);
    assert_eq!(store.objects.len(), objects_before);
}

/// Empty-content exclusion: zero-length records stay untouched across runs
/// and no content object is ever created for them.
#[test]
fn empty_records_stay_untouched() {
    let db = vec![record(1, 0), record(2, 10)];
    let outcomes = vec![identified(2, b"h1")];
    let mut store = ObjectStore::new();
    let mut sync_log: Vec<LinkOp> = Vec::new();
    let scope = ScanScope::Deep { sub_path: None };
    let report = run_identifier_job(
        &db,
        &outcomes,
        &mut store,
        &mut sync_log,
        7,
        &scope,
        100,
        10,
        ResumableJobState::new(),
    );
    assert_eq!(report.stats.scanned, 1);
    let mut records = db;
    apply_links(&mut records, &report.links);
    assert!(records[0].content_id.is_none());
    assert!(records[0].object_id.is_none());
    assert_eq!(store.objects.len(), 1);
}

/// Resumability: one continuous run and a run split into two steps with an
/// encode/decode snapshot between them give the same final object
/// assignments.
#[test]
fn split_run_matches_continuous_run() {
    let db = vec![record(1, 10), record(2, 10), record(3, 10), record(4, 10)];
    let outcomes = vec![
        identified(1, b"h1"),
        identified(2, b"h2"),
        identified(3, b"h1"),
        identified(4, b"h3"),
    ];
    let scope = ScanScope::Deep { sub_path: None };

    // continuous run
    let mut store_a = ObjectStore::new();
    let mut log_a: Vec<LinkOp> = Vec::new();
    let report_a = run_identifier_job(
        &db,
        &outcomes,
        &mut store_a,
        &mut log_a,
        7,
        &scope,
        2,
        10,
        ResumableJobState::new(),
    );
    let mut final_a = clone_records(&db);
    apply_links(&mut final_a, &report_a.links);

    // split run: one page of two records, snapshot, restore, then the rest
    let mut store_b = ObjectStore::new();
    let mut log_b: Vec<LinkOp> = Vec::new();
    let mut links_b: Vec<LinkOp> = Vec::new();
    let f = orphan_path_filters_deep(7, None, None);
    let page = scan_page(&db, &f, 2);
    assert_eq!(page.len(), 2);
    let mut acc: Vec<CasGroup> = Vec::new();
    for r in &page {
        let cas = match &outcomes.iter().find(|o| o.file_path_id == r.id).unwrap().outcome {
            IdentifyOutcome::Identified { cas_id: Some(c), .. } => c.duplicate(),
            _ => panic!("outcome missing"),
        };
        let single = vec![CasGroup {
            cas_id: cas,
            file_paths: vec![FilePathToCreateOrLinkObject {
                file_path_id: r.id,
                kind: ObjectKind::Image,
                created_at: 100,
            }],
        }];
        file_identifier::chunker::accumulate_file_paths_by_cas_id(&single, &mut acc);
    }
    let (units, leftover) = chunk_ready_units(&acc, 2);
    process_units(&units, &mut store_b, &mut log_b, &mut links_b);
    let snapshot = ResumableJobState {
        cursor: Some(page[page.len() - 1].id),
        accumulator: leftover,
        stats: JobStats { scanned: 2, linked: links_b.len() as u64, created: 0 },
        errors: Vec::new(),
    };
    let blob = encode_state(&snapshot);
    let restored = file_identifier::state::decode_state(&blob).expect("snapshot must decode");
    assert_eq!(restored.cursor, Some(2));

    let report_b = run_identifier_job(
        &db,
        &outcomes,
        &mut store_b,
        &mut log_b,
        7,
        &scope,
        2,
        10,
        restored,
    );
    let mut final_b = clone_records(&db);
    let mut all_links_b = links_b;
    all_links_b.extend(report_b.links);
    apply_links(&mut final_b, &all_links_b);

    // same partition into objects: records share an object in the split run
    // exactly when they do in the continuous one
    for x in 1..=4u64 {
        for y in 1..=4u64 {
            let same_a = object_of(&final_a, x) == object_of(&final_a, y);
            let same_b = object_of(&final_b, x) == object_of(&final_b, y);
            assert_eq!(same_a, same_b);
        }
    }
}

fn clone_records(v: &Vec<PathRecord>) -> Vec<PathRecord> {
    v.iter().map(|r| r.duplicate()).collect()
}
