use std::cell::Cell;

use archiver::manifest::UploadDescriptor;
use archiver::staging::{DeviceFile, StagingArea, stage_file};
use archiver::storage::{upload_from_staged, StorageAdaptor, StorageStatus};

/// A storage adaptor that will succeed on the nth attempt
struct TemporarilyBrokenStorageAdaptor {
    attempts: Cell<usize>,
    successful_attempt: usize,
}

impl TemporarilyBrokenStorageAdaptor {
    fn new(tries: usize) -> TemporarilyBrokenStorageAdaptor {
        TemporarilyBrokenStorageAdaptor {
            attempts: Cell::new(0),
            successful_attempt: tries,
        }
    }
}

impl StorageAdaptor for TemporarilyBrokenStorageAdaptor {
    fn upload(
        &self,
        _: &Vec<u8>,
        _: &UploadDescriptor,
    ) -> Result<StorageStatus, String> {
        let this_attempt = self.attempts.get() + 1;
        self.attempts.set(this_attempt);

        if this_attempt == self.successful_attempt {
            return Ok(StorageStatus::Success);
        } else {
            Err("Spurious error".to_string())
        }
    }

    fn already_uploaded(&self, _: &UploadDescriptor) -> bool {
        false
    }

    fn name(&self) -> String {
        "TemporarilyBrokenStorageAdaptor".to_string()
    }
}

fn test_descriptor() -> UploadDescriptor {
    UploadDescriptor::new(
        "test-device".to_string(),
        "test-file.mp4".to_string(),
        vec![0x66; 32],
        1_500_000_000,
    )
}

/// Builds a staging area holding the given number of content/manifest
/// pairs.
fn staged_data(pairs: usize) -> StagingArea {
    let mut staged = StagingArea::new();
    let device_name = "test-device".to_string();
    for i in 0..pairs {
        let file = DeviceFile {
            name: format!("clip-{}.mp4", i),
            content: format!("payload number {}", i).into_bytes(),
        };
        stage_file(file, &device_name, 1_500_000_000, &mut staged);
    }
    staged
}

#[test]
fn test_temporarily_broken_uploader_actually_works() {
    let manifest = test_descriptor();
    let uploader = TemporarilyBrokenStorageAdaptor::new(3);
    let buf = vec![0u8; 16];
    assert!(uploader.upload(&buf, &manifest).is_err());
    assert!(uploader.upload(&buf, &manifest).is_err());
    assert!(uploader.upload(&buf, &manifest).is_ok());
}

#[test]
fn test_three_failures_leaves_staged_files() {
    let mut data = staged_data(5);
    let files = data.len();
    assert_eq!(10, files);

    let uploader = TemporarilyBrokenStorageAdaptor::new(4);

    upload_from_staged(&mut data, &vec![uploader]);
    assert_eq!(10, files);
}

#[test]
fn test_two_failures_and_then_success_erases_staged_files() {
    let mut data = staged_data(5);
    let files = data.len();
    assert_eq!(10, files);

    let uploader = TemporarilyBrokenStorageAdaptor::new(2);

    let report = upload_from_staged(&mut data, &vec![uploader]);
    println!("{}", report.to_plaintext());
}
