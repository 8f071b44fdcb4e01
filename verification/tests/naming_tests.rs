use archiver::storage::{content_path_from_manifest, is_manifest, manifest_path_for};

#[test]
fn test_absolute_manifest_conversion() {
    let manifest = "/tmp/foo/bar/butts.manifest";
    let content = content_path_from_manifest(manifest);
    assert_eq!("/tmp/foo/bar/butts".to_string(), content);
}

#[test]
fn test_relative_manifest_conversion() {
    let manifest = "bar/butts.manifest";
    let content = content_path_from_manifest(manifest);
    assert_eq!("bar/butts".to_string(), content);
}

#[test]
fn test_bare_manifest_conversion() {
    let manifest = "butts.manifest";
    let content = content_path_from_manifest(manifest);
    assert_eq!("butts".to_string(), content);
}

#[test]
fn test_absolute_manifest_detection() {
    assert_eq!(true, is_manifest("/tmp/foo/bar/butts.manifest"));
    assert_eq!(false, is_manifest("/tmp/foo/bar/buttsmanifest"));
    assert_eq!(false, is_manifest("/tmp/foo/bar/butts.manifes"));
}

#[test]
fn test_relative_manifest_detection() {
    assert_eq!(true, is_manifest("bar/butts.manifest"));
    assert_eq!(false, is_manifest("bar/buttsmanifest"));
    assert_eq!(false, is_manifest("bar/butts.manifes"));
}

#[test]
fn test_bare_manifest_detection() {
    assert_eq!(true, is_manifest("butts.manifest"));
    assert_eq!(false, is_manifest("buttsmanifest"));
    assert_eq!(false, is_manifest("butts.manifes"));
}

#[test]
fn test_naming_round_trip_on_assorted_paths() {
    for path in ["a", "some/dir/file.mp4", "/abs/path/x", "weird name with spaces"] {
        let manifest = manifest_path_for(path);
        assert!(is_manifest(&manifest));
        assert_eq!(path, content_path_from_manifest(&manifest));
    }
}
