use archiver::device::{
    attached_devices, locate_flysights, locate_mass_storages, Config, Device, FlysightConfig,
    Gopro, GoproConfig, MassStorageConfig,
};
use archiver::staging::{DeviceFile, StagingArea};

fn test_config() -> Config {
    Config::new(
        vec![GoproConfig {
            name: "gopro5".to_string(),
            serial: "C3131127500000".to_string(),
        }],
        vec![FlysightConfig {
            name: "data".to_string(),
            location: "/mnt/archiver/flysight".to_string(),
        }],
        vec![MassStorageConfig {
            name: "sdcard".to_string(),
            location: "/mnt/archiver/mass_storage".to_string(),
        }],
    )
}

fn everything_mounted() -> Vec<String> {
    vec![
        "/mnt/archiver/flysight".to_string(),
        "/mnt/archiver/mass_storage".to_string(),
    ]
}

#[test]
fn test_locates_flysights() {
    let cfg = test_config();
    let flysights: Vec<_> = locate_flysights(&cfg, &everything_mounted());
    assert_eq!(flysights.len(), 1);
    if let Device::Flysight(ref _desc, ref flysight) = flysights[0] {
        assert_eq!(&flysight.name()[..], "data");
    } else {
        panic!("Unsure what we ended up with: {:?}", flysights);
    }
}

#[test]
fn test_locates_mass_storages() {
    let cfg = test_config();
    let flysights: Vec<_> = locate_flysights(&cfg, &everything_mounted());
    assert_eq!(flysights.len(), 1);
    if let Device::Flysight(ref _desc, ref flysight) = flysights[0] {
        assert_eq!(&flysight.name()[..], "data");
    } else {
        panic!("Unsure what we ended up with: {:?}", flysights);
    }
}

#[test]
fn test_locates_mass_storages_by_location() {
    let cfg = test_config();
    let storages = locate_mass_storages(&cfg, &everything_mounted());
    assert_eq!(storages.len(), 1);
    if let Device::MassStorage(ref desc, ref ms) = storages[0] {
        assert_eq!(desc.name, "sdcard");
        assert_eq!(&ms.name()[..], "sdcard");
    } else {
        panic!("Unsure what we ended up with: {:?}", storages);
    }
}

#[test]
fn test_absent_devices_are_not_located() {
    let cfg = test_config();
    let nothing_mounted: Vec<String> = vec![];
    assert_eq!(locate_flysights(&cfg, &nothing_mounted).len(), 0);
    assert_eq!(locate_mass_storages(&cfg, &nothing_mounted).len(), 0);
}

#[test]
fn test_attached_devices_concatenates_sources() {
    let cfg = test_config();
    let connected = vec![
        Gopro { serial: "C3131127500000".to_string() },
        Gopro { serial: "UNKNOWN".to_string() },
    ];
    let devices = attached_devices(&cfg, connected, &everything_mounted());
    assert_eq!(devices.len(), 3);
    assert_eq!(&devices[0].name()[..], "gopro5");
    assert_eq!(&devices[1].name()[..], "data");
    assert_eq!(&devices[2].name()[..], "sdcard");
}

#[test]
fn test_stage_files_tags_descriptors_with_device_name() {
    let cfg = test_config();
    let devices = locate_flysights(&cfg, &everything_mounted());
    let mut staged = StagingArea::new();
    let device = devices.into_iter().next().expect("expected one flysight");
    let files = vec![
        DeviceFile { name: "17-01-01/a.csv".to_string(), content: b"track one".to_vec() },
        DeviceFile { name: "17-01-01/b.csv".to_string(), content: b"track two".to_vec() },
    ];
    let descriptors = device.stage_files(files, 42, &mut staged);
    assert_eq!(descriptors.len(), 2);
    assert_eq!(staged.len(), 4);
    for d in &descriptors {
        assert_eq!(d.device_name, "data");
        assert_eq!(d.captured_at, 42);
        assert_eq!(d.content_fingerprint.len(), 32);
    }
}

#[test]
fn test_staged_manifest_bytes_encode_the_descriptor() {
    let cfg = test_config();
    let devices = locate_flysights(&cfg, &everything_mounted());
    let mut staged = StagingArea::new();
    let device = devices.into_iter().next().expect("expected one flysight");
    let files = vec![DeviceFile {
        name: "17-01-01/a.csv".to_string(),
        content: b"track one".to_vec(),
    }];
    let descriptors = device.stage_files(files, 42, &mut staged);
    let manifest_name = archiver::storage::manifest_path_for(&hex::encode(
        &descriptors[0].content_fingerprint,
    ));
    let bytes = staged.read(&manifest_name).expect("manifest missing").clone();
    let parsed = archiver::manifest::parse_manifest(&bytes).expect("manifest unparsable");
    assert_eq!(parsed.device_name, descriptors[0].device_name);
    assert_eq!(parsed.relative_path, descriptors[0].relative_path);
    assert_eq!(parsed.content_fingerprint, descriptors[0].content_fingerprint);
    assert_eq!(parsed.captured_at, 42);
}
