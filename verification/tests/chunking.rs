use file_identifier::chunker::{
    accumulate_file_paths_by_cas_id, chunk_ready_units, dispatch_object_processor_tasks,
    groups_unique, CasGroup, FilePathToCreateOrLinkObject,
};
use file_identifier::records::{ContentId, ObjectKind};

fn item(id: u64) -> FilePathToCreateOrLinkObject {
    FilePathToCreateOrLinkObject { file_path_id: id, kind: ObjectKind::Unknown, created_at: 0 }
}

fn group(cas: &[u8], ids: &[u64]) -> CasGroup {
    CasGroup {
        cas_id: ContentId::new(cas.to_vec()),
        file_paths: ids.iter().map(|&i| item(i)).collect(),
    }
}

fn unit_count(u: &file_identifier::chunker::WorkUnit) -> usize {
    u.groups.iter().map(|g| g.file_paths.len()).sum()
}

#[test]
fn empty_input_yields_no_units() {
    let units = dispatch_object_processor_tasks(&Vec::new(), 100);
    assert_eq!(units.len(), 0);
}

#[test]
fn oversized_group_is_standalone() {
    // a group at or above the threshold is dispatched alone, never merged
    let groups = vec![group(b"h1", &[1, 2, 3]), group(b"h2", &[4])];
    let units = dispatch_object_processor_tasks(&groups, 2);
    assert_eq!(units.len(), 2);
    assert_eq!(units[0].groups.len(), 1);
    assert_eq!(units[0].groups[0].cas_id.bytes, b"h1".to_vec());
    assert_eq!(unit_count(&units[0]), 3);
    assert_eq!(units[1].groups.len(), 1);
    assert_eq!(units[1].groups[0].cas_id.bytes, b"h2".to_vec());
    assert_eq!(unit_count(&units[1]), 1);
}

#[test]
fn small_groups_are_batched_until_threshold() {
    let groups = vec![
        group(b"a", &[1]),
        group(b"b", &[2]),
        group(b"c", &[3]),
        group(b"d", &[4]),
        group(b"e", &[5]),
    ];
    let units = dispatch_object_processor_tasks(&groups, 2);
    // batches of two, plus the final leftover of one
    assert_eq!(units.len(), 3);
    assert_eq!(unit_count(&units[0]), 2);
    assert_eq!(unit_count(&units[1]), 2);
    assert_eq!(unit_count(&units[2]), 1);
    // every non-final unit reaches the threshold
    for u in &units[..units.len() - 1] {
        assert!(unit_count(u) >= 2);
    }
}

#[test]
fn conservation_no_record_dropped_or_duplicated() {
    let groups = vec![
        group(b"a", &[1, 2]),
        group(b"b", &[3, 4, 5, 6, 7]),
        group(b"c", &[8]),
        group(b"d", &[9, 10, 11]),
    ];
    let units = dispatch_object_processor_tasks(&groups, 4);
    let mut seen: Vec<u64> = units
        .iter()
        .flat_map(|u| u.groups.iter())
        .flat_map(|g| g.file_paths.iter())
        .map(|it| it.file_path_id)
        .collect();
    seen.sort();
    assert_eq!(seen, (1..=11).collect::<Vec<u64>>());
}

#[test]
fn chunk_ready_keeps_partial_leftover() {
    let groups = vec![group(b"a", &[1]), group(b"b", &[2, 3, 4]), group(b"c", &[5])];
    let (units, leftover) = chunk_ready_units(&groups, 3);
    // "b" is standalone (3 >= 3); "a" and "c" together stay under the
    // threshold and are carried forward
    assert_eq!(units.len(), 1);
    assert_eq!(units[0].groups[0].cas_id.bytes, b"b".to_vec());
    let leftover_ids: Vec<u64> = leftover
        .iter()
        .flat_map(|g| g.file_paths.iter().map(|it| it.file_path_id))
        .collect();
    assert_eq!(leftover_ids, vec![1, 5]);
}

#[test]
fn accumulate_merges_per_identifier_in_order() {
    let mut acc = vec![group(b"a", &[1]), group(b"b", &[2])];
    let input = vec![group(b"b", &[7]), group(b"c", &[8])];
    accumulate_file_paths_by_cas_id(&input, &mut acc);
    assert_eq!(acc.len(), 3);
    assert_eq!(acc[0].cas_id.bytes, b"a".to_vec());
    assert_eq!(
        acc[1].file_paths.iter().map(|i| i.file_path_id).collect::<Vec<_>>(),
        vec![2, 7]
    );
    assert_eq!(acc[2].cas_id.bytes, b"c".to_vec());
    assert_eq!(acc[2].file_paths[0].file_path_id, 8);
    assert!(groups_unique(&acc));
}

#[test]
fn groups_unique_detects_duplicates() {
    let dup = vec![group(b"a", &[1]), group(b"a", &[2])];
    assert!(!groups_unique(&dup));
    let ok = vec![group(b"a", &[1]), group(b"b", &[2])];
    assert!(groups_unique(&ok));
}
