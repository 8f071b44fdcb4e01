use std::cell::{Cell, RefCell};
use std::collections::HashMap;

use archiver::manifest::UploadDescriptor;
use archiver::reporting::UploadStatus;
use archiver::staging::{DeviceFile, StagingArea, stage_file};
use archiver::storage::{manifest_path_for, upload_from_staged, StorageAdaptor, StorageStatus};

/// Fails the first `succeed_on - 1` attempts for each entry and succeeds
/// on attempt `succeed_on`, counting attempts per fingerprint.
struct PerEntryFlakyAdaptor {
    attempts: RefCell<HashMap<Vec<u8>, usize>>,
    succeed_on: usize,
}

impl PerEntryFlakyAdaptor {
    fn new(succeed_on: usize) -> Self {
        PerEntryFlakyAdaptor { attempts: RefCell::new(HashMap::new()), succeed_on }
    }
}

impl StorageAdaptor for PerEntryFlakyAdaptor {
    fn upload(&self, _: &Vec<u8>, manifest: &UploadDescriptor) -> Result<StorageStatus, String> {
        let mut attempts = self.attempts.borrow_mut();
        let count = attempts.entry(manifest.content_fingerprint.clone()).or_insert(0);
        *count += 1;
        if *count >= self.succeed_on {
            Ok(StorageStatus::Success)
        } else {
            Err(format!("attempt {} refused", count))
        }
    }

    fn already_uploaded(&self, _: &UploadDescriptor) -> bool {
        false
    }

    fn name(&self) -> String {
        "flaky".to_string()
    }
}

/// Pretends everything is already present, and counts upload calls.
struct DedupOnlyAdaptor {
    uploads: Cell<usize>,
    checks: Cell<usize>,
}

impl StorageAdaptor for DedupOnlyAdaptor {
    fn upload(&self, _: &Vec<u8>, _: &UploadDescriptor) -> Result<StorageStatus, String> {
        self.uploads.set(self.uploads.get() + 1);
        Ok(StorageStatus::Success)
    }

    fn already_uploaded(&self, _: &UploadDescriptor) -> bool {
        self.checks.set(self.checks.get() + 1);
        true
    }

    fn name(&self) -> String {
        "dedup".to_string()
    }
}

/// Never succeeds.
struct BrokenAdaptor;

impl StorageAdaptor for BrokenAdaptor {
    fn upload(&self, _: &Vec<u8>, _: &UploadDescriptor) -> Result<StorageStatus, String> {
        Err("backend outage".to_string())
    }

    fn already_uploaded(&self, _: &UploadDescriptor) -> bool {
        false
    }

    fn name(&self) -> String {
        "broken".to_string()
    }
}

/// A mixed backend pair for the all-or-nothing test.
enum MixedAdaptor {
    Working,
    Broken,
}

impl StorageAdaptor for MixedAdaptor {
    fn upload(&self, _: &Vec<u8>, _: &UploadDescriptor) -> Result<StorageStatus, String> {
        match self {
            MixedAdaptor::Working => Ok(StorageStatus::Success),
            MixedAdaptor::Broken => Err("backend outage".to_string()),
        }
    }

    fn already_uploaded(&self, _: &UploadDescriptor) -> bool {
        false
    }

    fn name(&self) -> String {
        match self {
            MixedAdaptor::Working => "working".to_string(),
            MixedAdaptor::Broken => "broken".to_string(),
        }
    }
}

fn staged_data(pairs: usize) -> (StagingArea, Vec<UploadDescriptor>) {
    let mut staged = StagingArea::new();
    let device_name = "camera".to_string();
    let mut descriptors = Vec::new();
    for i in 0..pairs {
        let file = DeviceFile {
            name: format!("clip-{}.mp4", i),
            content: format!("footage {}", i).into_bytes(),
        };
        descriptors.push(stage_file(file, &device_name, 100 + i as u64, &mut staged));
    }
    (staged, descriptors)
}

fn pair_exists(staged: &StagingArea, d: &UploadDescriptor) -> (bool, bool) {
    let content_name = hex::encode(&d.content_fingerprint);
    let manifest_name = manifest_path_for(&content_name);
    (
        staged.read(&content_name).is_some(),
        staged.read(&manifest_name).is_some(),
    )
}

#[test]
fn test_retry_success_within_ceiling_deletes_files() {
    let (mut staged, descriptors) = staged_data(1);
    let adaptors = vec![PerEntryFlakyAdaptor::new(3)];
    let report = upload_from_staged(&mut staged, &adaptors);
    assert_eq!(report.entries.len(), 1);
    assert!(matches!(report.entries[0].results[0].1, UploadStatus::Succeeded));
    assert!(report.entries[0].is_success());
    assert_eq!(pair_exists(&staged, &descriptors[0]), (false, false));
    assert_eq!(staged.len(), 0);
}

#[test]
fn test_retry_exhaustion_preserves_files() {
    let (mut staged, descriptors) = staged_data(1);
    let adaptors = vec![PerEntryFlakyAdaptor::new(4)];
    let report = upload_from_staged(&mut staged, &adaptors);
    assert_eq!(report.entries.len(), 1);
    match &report.entries[0].results[0].1 {
        UploadStatus::Errored(msg) => assert_eq!(msg, "attempt 3 refused"),
        other => panic!("expected an error, got {:?}", other),
    }
    assert_eq!(pair_exists(&staged, &descriptors[0]), (true, true));
    assert_eq!(staged.len(), 2);
}

#[test]
fn test_dedup_fast_path_never_uploads() {
    let (mut staged, _) = staged_data(3);
    let adaptors = vec![DedupOnlyAdaptor { uploads: Cell::new(0), checks: Cell::new(0) }];
    let report = upload_from_staged(&mut staged, &adaptors);
    assert_eq!(adaptors[0].uploads.get(), 0);
    assert_eq!(adaptors[0].checks.get(), 3);
    assert_eq!(report.entries.len(), 3);
    for entry in &report.entries {
        assert!(matches!(entry.results[0].1, UploadStatus::AlreadyUploaded));
        assert!(entry.is_success());
    }
    assert_eq!(staged.len(), 0);
}

#[test]
fn test_partial_failure_keeps_both_files() {
    let (mut staged, descriptors) = staged_data(2);
    let adaptors = vec![MixedAdaptor::Working, MixedAdaptor::Broken];
    let report = upload_from_staged(&mut staged, &adaptors);
    assert_eq!(report.entries.len(), 2);
    for entry in &report.entries {
        assert!(matches!(entry.results[0].1, UploadStatus::Succeeded));
        assert!(matches!(entry.results[1].1, UploadStatus::Errored(_)));
        assert!(!entry.is_success());
    }
    for d in &descriptors {
        assert_eq!(pair_exists(&staged, d), (true, true));
    }
    assert_eq!(staged.len(), 4);
}

#[test]
fn test_corrupt_manifest_is_skipped_not_fatal() {
    let (mut staged, descriptors) = staged_data(1);
    staged.insert("junk.manifest".to_string(), b"not a manifest".to_vec());
    staged.insert("junk".to_string(), b"orphan bytes".to_vec());
    staged.insert("widow.manifest".to_string(), b"also not a manifest".to_vec());
    let adaptors = vec![PerEntryFlakyAdaptor::new(1)];
    let report = upload_from_staged(&mut staged, &adaptors);
    // the one healthy entry was processed and deleted; corruption stayed
    assert_eq!(report.entries.len(), 1);
    assert!(report.entries[0].is_success());
    assert_eq!(pair_exists(&staged, &descriptors[0]), (false, false));
    assert!(staged.read(&"junk.manifest".to_string()).is_some());
    assert!(staged.read(&"junk".to_string()).is_some());
    assert!(staged.read(&"widow.manifest".to_string()).is_some());
    assert_eq!(staged.len(), 3);
}

#[test]
fn test_end_to_end_ceiling_then_success() {
    // every entry fails attempts 1-3; the would-be success on attempt 4
    // is beyond the ceiling, so everything is retained
    let (mut staged, _) = staged_data(5);
    assert_eq!(staged.len(), 10);
    let adaptors = vec![PerEntryFlakyAdaptor::new(4)];
    let report = upload_from_staged(&mut staged, &adaptors);
    assert_eq!(report.entries.len(), 5);
    for entry in &report.entries {
        assert!(!entry.is_success());
    }
    assert_eq!(staged.len(), 10);

    // a second run against a healthier backend drains everything
    let adaptors = vec![PerEntryFlakyAdaptor::new(2)];
    let report = upload_from_staged(&mut staged, &adaptors);
    assert_eq!(report.entries.len(), 5);
    for entry in &report.entries {
        assert!(matches!(entry.results[0].1, UploadStatus::Succeeded));
        assert!(entry.is_success());
    }
    assert_eq!(staged.len(), 0);
}

#[test]
fn test_restaging_identical_content_does_not_duplicate() {
    let mut staged = StagingArea::new();
    let device_name = "camera".to_string();
    for _ in 0..2 {
        let file = DeviceFile { name: "same.mp4".to_string(), content: b"same bytes".to_vec() };
        stage_file(file, &device_name, 9, &mut staged);
    }
    assert_eq!(staged.len(), 2);
}

#[test]
fn test_report_entries_follow_listing_order() {
    let (mut staged, descriptors) = staged_data(4);
    let adaptors = vec![BrokenAdaptor];
    let report = upload_from_staged(&mut staged, &adaptors);
    assert_eq!(report.entries.len(), 4);
    for (entry, d) in report.entries.iter().zip(descriptors.iter()) {
        assert_eq!(entry.content_name, hex::encode(&d.content_fingerprint));
    }
}
