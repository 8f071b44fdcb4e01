use archiver::manifest::UploadDescriptor;
use archiver::reporting::{ReportEntry, UploadReport, UploadStatus};

fn descriptor() -> UploadDescriptor {
    UploadDescriptor::new("cam".to_string(), "clip.mp4".to_string(), vec![0xAA; 32], 5)
}

fn entry(results: Vec<(String, UploadStatus)>) -> ReportEntry {
    ReportEntry::new(descriptor(), "aa55".to_string(), results)
}

#[test]
fn test_entry_success_requires_every_adaptor() {
    let ok = entry(vec![
        ("one".to_string(), UploadStatus::Succeeded),
        ("two".to_string(), UploadStatus::AlreadyUploaded),
    ]);
    assert!(ok.is_success());
    let bad = entry(vec![
        ("one".to_string(), UploadStatus::Succeeded),
        ("two".to_string(), UploadStatus::Errored("boom".to_string())),
    ]);
    assert!(!bad.is_success());
    let empty = entry(vec![]);
    assert!(empty.is_success());
}

#[test]
fn test_render_is_pure() {
    let mut report = UploadReport::new();
    report.record_activity(entry(vec![
        ("backend".to_string(), UploadStatus::Errored("no route".to_string())),
    ]));
    let first = report.to_plaintext();
    let second = report.to_plaintext();
    assert_eq!(first, second);
}

#[test]
fn test_render_exact_text() {
    let mut report = UploadReport::new();
    report.record_activity(entry(vec![
        ("dropbox".to_string(), UploadStatus::Succeeded),
        ("vimeo".to_string(), UploadStatus::AlreadyUploaded),
    ]));
    report.record_activity(entry(vec![
        ("dropbox".to_string(), UploadStatus::Errored("timeout".to_string())),
    ]));
    let expected = "Upload report:\n\
        cam/clip.mp4\n\
        \x20 dropbox: succeeded\n\
        \x20 vimeo: already uploaded\n\
        cam/clip.mp4\n\
        \x20 dropbox: errored: timeout\n\
        entries: 2, fully successful: 1\n";
    assert_eq!(report.to_plaintext(), expected);
}

#[test]
fn test_empty_report_renders_summary_only() {
    let report = UploadReport::new();
    assert_eq!(
        report.to_plaintext(),
        "Upload report:\nentries: 0, fully successful: 0\n"
    );
}
