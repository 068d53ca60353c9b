use file_identifier::chunker::{CasGroup, FilePathToCreateOrLinkObject};
use file_identifier::error::{DecodeError, NonCriticalFileIdentifierError};
use file_identifier::records::{ContentId, ObjectKind};
use file_identifier::state::{decode_state, encode_state, JobStats, ResumableJobState};
use file_identifier::store::ObjectStore;

fn sample_state() -> ResumableJobState {
    ResumableJobState {
        cursor: Some(42),
        accumulator: vec![
            CasGroup {
                cas_id: ContentId::new(b"h1".to_vec()),
                file_paths: vec![
                    FilePathToCreateOrLinkObject {
                        file_path_id: 3,
                        kind: ObjectKind::Image,
                        created_at: 1000,
                    },
                    FilePathToCreateOrLinkObject {
                        file_path_id: 5,
                        kind: ObjectKind::Image,
                        created_at: 1001,
                    },
                ],
            },
            CasGroup { cas_id: ContentId::new(b"h2".to_vec()), file_paths: Vec::new() },
        ],
        stats: JobStats { scanned: 9, linked: 4, created: 2 },
        errors: vec![NonCriticalFileIdentifierError::FailedToExtractIsolatedFilePathData(
            b"/odd".to_vec(),
        )],
    }
}

#[test]
fn state_roundtrips_through_the_codec() {
    let st = sample_state();
    let blob = encode_state(&st);
    let out = decode_state(&blob).expect("own encoding must decode");
    assert_eq!(out.cursor, Some(42));
    assert_eq!(out.stats, JobStats { scanned: 9, linked: 4, created: 2 });
    assert_eq!(out.accumulator.len(), 2);
    assert_eq!(out.accumulator[0].cas_id.bytes, b"h1".to_vec());
    assert_eq!(out.accumulator[0].file_paths.len(), 2);
    assert_eq!(out.accumulator[0].file_paths[0].file_path_id, 3);
    assert_eq!(out.accumulator[0].file_paths[0].kind, ObjectKind::Image);
    assert_eq!(out.accumulator[0].file_paths[1].created_at, 1001);
    assert_eq!(out.accumulator[1].cas_id.bytes, b"h2".to_vec());
    assert_eq!(out.accumulator[1].file_paths.len(), 0);
    assert_eq!(out.errors.len(), 1);
    match &out.errors[0] {
        NonCriticalFileIdentifierError::FailedToExtractIsolatedFilePathData(p) => {
            assert_eq!(p, &b"/odd".to_vec());
        },
        _ => panic!("wrong error variant"),
    }
    // decoding is deterministic: re-encoding gives the same blob
    assert_eq!(encode_state(&out), blob);
}

#[test]
fn fresh_state_roundtrips() {
    let st = ResumableJobState::new();
    let out = decode_state(&encode_state(&st)).expect("fresh state must decode");
    assert_eq!(out.cursor, None);
    assert_eq!(out.accumulator.len(), 0);
    assert_eq!(out.errors.len(), 0);
}

#[test]
fn empty_blob_is_unknown_version() {
    assert_eq!(decode_state(&Vec::new()).err(), Some(DecodeError::UnknownVersion));
}

#[test]
fn foreign_version_is_rejected() {
    let mut blob = encode_state(&ResumableJobState::new());
    blob[0] = 2;
    assert_eq!(decode_state(&blob).err(), Some(DecodeError::UnknownVersion));
}

#[test]
fn truncated_blob_is_corrupt() {
    let blob = encode_state(&sample_state());
    let cut = blob[..blob.len() - 1].to_vec();
    assert_eq!(decode_state(&cut).err(), Some(DecodeError::Corrupt));
}

#[test]
fn trailing_garbage_is_corrupt() {
    let mut blob = encode_state(&sample_state());
    blob.push(0);
    assert_eq!(decode_state(&blob).err(), Some(DecodeError::Corrupt));
}

#[test]
fn store_creates_each_identifier_once() {
    let mut store = ObjectStore::new();
    let h = ContentId::new(b"h1".to_vec());
    let (first, created_first) = store.create_or_get(&h, ObjectKind::Image);
    let (second, created_second) = store.create_or_get(&h, ObjectKind::Video);
    assert!(created_first);
    assert!(!created_second);
    assert_eq!(first, second);
    assert_eq!(store.objects.len(), 1);
    let other = ContentId::new(b"h2".to_vec());
    let (third, created_third) = store.create_or_get(&other, ObjectKind::Image);
    assert!(created_third);
    assert_ne!(first, third);
}
