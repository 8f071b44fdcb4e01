use archiver::manifest::{encode_manifest, parse_manifest, UploadDescriptor};

fn descriptor(device: &str, path: &str, fp_byte: u8, ts: u64) -> UploadDescriptor {
    UploadDescriptor::new(
        device.to_string(),
        path.to_string(),
        vec![fp_byte; 32],
        ts,
    )
}

#[test]
fn test_manifest_round_trip_plain_names() {
    let d = descriptor("gopro-one", "DCIM/100GOPRO/GOPR0001.MP4", 0x42, 1_700_000_000);
    let bytes = encode_manifest(&d);
    let back = parse_manifest(&bytes).expect("round trip failed");
    assert_eq!(back.device_name, d.device_name);
    assert_eq!(back.relative_path, d.relative_path);
    assert_eq!(back.content_fingerprint, d.content_fingerprint);
    assert_eq!(back.captured_at, d.captured_at);
}

#[test]
fn test_manifest_round_trip_hostile_names() {
    let d = descriptor("dev\nwith%newline", "päth/ünicode ☂", 0x00, u64::MAX);
    let bytes = encode_manifest(&d);
    let back = parse_manifest(&bytes).expect("round trip failed");
    assert_eq!(back.device_name, d.device_name);
    assert_eq!(back.relative_path, d.relative_path);
    assert_eq!(back.captured_at, u64::MAX);
}

#[test]
fn test_manifest_is_line_structured() {
    let d = descriptor("cam", "file.bin", 0x11, 7);
    let bytes = encode_manifest(&d);
    let text = String::from_utf8(bytes).expect("manifest should be ASCII");
    let lines: Vec<&str> = text.split_terminator('\n').collect();
    assert_eq!(lines.len(), 4);
    assert_eq!(lines[0], "cam");
    assert_eq!(lines[1], "file.bin");
    assert_eq!(lines[2], "11".repeat(32));
}

#[test]
fn test_parse_rejects_garbage() {
    assert!(parse_manifest(b"not a manifest").is_none());
    assert!(parse_manifest(b"").is_none());
    assert!(parse_manifest(b"a\nb\nzz\n10\n").is_none());
}

#[test]
fn test_parse_rejects_truncation() {
    let d = descriptor("cam", "file.bin", 0x11, 7);
    let bytes = encode_manifest(&d);
    assert!(parse_manifest(&bytes[..bytes.len() - 1]).is_none());
    let mut extended = bytes.clone();
    extended.push(b'x');
    assert!(parse_manifest(&extended).is_none());
}

#[test]
fn test_parse_rejects_short_fingerprint() {
    // 16 fingerprint bytes instead of 32
    let line = format!("cam\nfile\n{}\n{}\n", "ab".repeat(16), "00".repeat(8));
    assert!(parse_manifest(line.as_bytes()).is_none());
}
