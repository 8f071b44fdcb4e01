//! The device abstraction: the kinds of capture devices that can be
//! attached, and discovery logic that matches what the hardware reports
//! against the configuration. The bus enumeration and mount probing
//! themselves are driver work outside the library; discovery takes their
//! plain results and decides which configured devices are present.

use vstd::prelude::*;
use crate::fingerprint::fingerprint_spec;
use crate::hexstr::hex_of;
use crate::manifest::UploadDescriptor;
use crate::staging::{DeviceFile, StagingArea, stage_file, staged_pair_present};
use crate::storage::manifest_name_for;

verus! {

/// Configuration of one camera: its logical name and USB serial number.
#[derive(Debug, Clone)]
pub struct GoproConfig {
    pub name: String,
    pub serial: String,
}

/// Configuration of one logger device, matched by the label or
/// mountpoint it appears under.
#[derive(Debug, Clone)]
pub struct FlysightConfig {
    pub name: String,
    pub location: String,
}

/// Configuration of one mountable mass-storage device.
#[derive(Debug, Clone)]
pub struct MassStorageConfig {
    pub name: String,
    pub location: String,
}

/// The parts of the configuration that device discovery reads.
#[derive(Debug)]
pub struct Config {
    pub gopros: Vec<GoproConfig>,
    pub flysights: Vec<FlysightConfig>,
    pub mass_storages: Vec<MassStorageConfig>,
}

impl Config {
    pub fn new(
        gopros: Vec<GoproConfig>,
        flysights: Vec<FlysightConfig>,
        mass_storages: Vec<MassStorageConfig>,
    ) -> (r: Self)
        ensures
            r.gopros == gopros,
            r.flysights == flysights,
            r.mass_storages == mass_storages,
    {
        Config { gopros, flysights, mass_storages }
    }

    pub fn gopros(&self) -> (r: &Vec<GoproConfig>)
        ensures
            r == &self.gopros,
    {
        &self.gopros
    }

    pub fn flysights(&self) -> (r: &Vec<FlysightConfig>)
        ensures
            r == &self.flysights,
    {
        &self.flysights
    }

    pub fn mass_storages(&self) -> (r: &Vec<MassStorageConfig>)
        ensures
            r == &self.mass_storages,
    {
        &self.mass_storages
    }
}

/// A camera the hardware-bus enumeration reported, identified by serial.
#[derive(Debug, Clone)]
pub struct Gopro {
    pub serial: String,
}

/// A logger device present at its configured location.
#[derive(Debug, Clone)]
pub struct Flysight {
    pub name: String,
    pub location: String,
}

impl Flysight {
    pub fn name(&self) -> (r: &String)
        ensures
            r == &self.name,
    {
        &self.name
    }
}

/// A mountable device present at its configured location.
#[derive(Debug, Clone)]
pub struct MassStorage {
    pub name: String,
    pub location: String,
}

impl MassStorage {
    pub fn name(&self) -> (r: &String)
        ensures
            r == &self.name,
    {
        &self.name
    }
}

/// The logical name a device was configured under.
#[derive(Debug, Clone)]
pub struct DeviceDescription {
    pub name: String,
}

/// An attached device: its description plus a variant-specific handle.
#[derive(Debug)]
pub enum Device {
    Gopro(DeviceDescription, Gopro),
    MassStorage(DeviceDescription, MassStorage),
    Flysight(DeviceDescription, Flysight),
}

/// The mathematical model of an attached device.
pub enum DeviceModel {
    Gopro { name: Seq<char>, serial: Seq<char> },
    MassStorage { name: Seq<char>, location: Seq<char> },
    Flysight { name: Seq<char>, location: Seq<char> },
}

impl View for Device {
    type V = DeviceModel;

    open spec fn view(&self) -> DeviceModel {
        match self {
            Device::Gopro(d, g) => DeviceModel::Gopro { name: d.name@, serial: g.serial@ },
            Device::MassStorage(d, m) => DeviceModel::MassStorage {
                name: d.name@,
                location: m.location@,
            },
            Device::Flysight(d, f) => DeviceModel::Flysight {
                name: d.name@,
                location: f.location@,
            },
        }
    }
}

/// The name of a device, whatever its variant.
pub open spec fn model_name(m: DeviceModel) -> Seq<char> {
    match m {
        DeviceModel::Gopro { name, .. } => name,
        DeviceModel::MassStorage { name, .. } => name,
        DeviceModel::Flysight { name, .. } => name,
    }
}

/// Whether no later file of a batch carries the same fingerprint, so
/// that, under overwrite semantics, this file's pair is the one left in
/// the staging area.
pub open spec fn last_with_fingerprint(files: Seq<DeviceFile>, i: int, upto: int) -> bool {
    forall|j: int|
        i < j < upto ==> fingerprint_spec(#[trigger] files[j].content@) != fingerprint_spec(
            files[i].content@,
        )
}

impl Device {
    /// The logical name of the device.
    pub fn name(&self) -> (r: &String)
        ensures
            r@ == model_name(self@),
    {
        match self {
            Device::Gopro(d, _) => &d.name,
            Device::MassStorage(d, _) => &d.name,
            Device::Flysight(d, _) => &d.name,
        }
    }

    /// Stages every file the device's driver handed over: each is copied
    /// into the staging area with a manifest beside it, tagged with this
    /// device's name, and its descriptor is returned. Files whose
    /// content is already staged are overwritten in place, never
    /// duplicated.
    pub fn stage_files(
        self,
        files: Vec<DeviceFile>,
        captured_at: u64,
        destination: &mut StagingArea,
    ) -> (r: Vec<UploadDescriptor>)
        requires
            old(destination).wf(),
        ensures
            final(destination).wf(),
            r@.len() == files@.len(),
            forall|i: int|
                0 <= i < r@.len() ==> {
                    let d = (#[trigger] r@[i])@;
                    &&& d.device_name == model_name(self@)
                    &&& d.relative_path == files@[i].name@
                    &&& d.content_fingerprint == fingerprint_spec(files@[i].content@)
                    &&& d.captured_at == captured_at
                },
            forall|i: int|
                0 <= i < files@.len() ==> final(destination).contains_name(
                    hex_of(fingerprint_spec((#[trigger] files@[i]).content@)),
                ) && final(destination).contains_name(
                    manifest_name_for(hex_of(fingerprint_spec(files@[i].content@))),
                ),
            forall|i: int|
                0 <= i < files@.len() && last_with_fingerprint(files@, i, files@.len() as int)
                    ==> staged_pair_present(
                    *final(destination),
                    (#[trigger] files@[i]).content@,
                    r@[i]@,
                ),
    {
        let device_name = self.name().clone();
        let mut r: Vec<UploadDescriptor> = Vec::new();
        let mut files = files;
        let ghost all = files@;
        let mut i: usize = 0;
        while i < files.len()
            invariant
                destination.wf(),
                files@ == all,
                i <= all.len(),
                r@.len() == i,
                device_name@ == model_name(self@),
                forall|j: int|
                    0 <= j < i ==> {
                        let d = (#[trigger] r@[j])@;
                        &&& d.device_name == model_name(self@)
                        &&& d.relative_path == all[j].name@
                        &&& d.content_fingerprint == fingerprint_spec(all[j].content@)
                        &&& d.captured_at == captured_at
                        &&& d.wf()
                    },
                forall|j: int|
                    0 <= j < i ==> destination.contains_name(
                        hex_of(fingerprint_spec((#[trigger] all[j]).content@)),
                    ) && destination.contains_name(
                        manifest_name_for(hex_of(fingerprint_spec(all[j].content@))),
                    ),
                forall|j: int|
                    0 <= j < i && last_with_fingerprint(all, j, i as int) ==> staged_pair_present(
                        *destination,
                        (#[trigger] all[j]).content@,
                        r@[j]@,
                    ),
            decreases all.len() - i,
        {
            let file = DeviceFile {
                name: files[i].name.clone(),
                content: files[i].content.clone(),
            };
            proof {
                assert(file.name@ == all[i as int].name@);
                assert(file.content@ == all[i as int].content@);
            }
            let ghost pre_dest = *destination;
            let d = stage_file(file, &device_name, captured_at, destination);
            r.push(d);
            proof {
                let fpi = fingerprint_spec(all[i as int].content@);
                let cni = hex_of(fpi);
                let mni = manifest_name_for(cni);
                crate::hexstr::lemma_hex_bytes_are_digits(fpi);
                crate::storage::lemma_manifest_naming_round_trip(cni);
                assert forall|j: int|
                    0 <= j < i + 1 && last_with_fingerprint(all, j, i + 1)
                    implies staged_pair_present(
                    *destination,
                    (#[trigger] all[j]).content@,
                    r@[j]@,
                ) by {
                    if j < i {
                        // the new pair cannot collide with this one: the
                        // fingerprints differ, hex naming is injective,
                        // and content and manifest names have different
                        // lengths
                        let fpj = fingerprint_spec(all[j].content@);
                        let cnj = hex_of(fpj);
                        let mnj = manifest_name_for(cnj);
                        assert(fpj != fpi);
                        assert(fpj.len() == 32 && fpi.len() == 32);
                        crate::hexstr::lemma_hex_bytes_are_digits(fpj);
                        crate::storage::lemma_manifest_naming_round_trip(cnj);
                        assert(cnj.len() == 64 && cni.len() == 64);
                        assert(mnj.len() == 73 && mni.len() == 73);
                        if cnj == cni {
                            crate::hexstr::lemma_hex_of_injective(fpj, fpi);
                        }
                        assert(cnj != cni);
                        if mnj == mni {
                            assert(cnj == cni);
                        }
                        assert(mnj != mni && cnj != mni && mnj != cni);
                        assert(last_with_fingerprint(all, j, i as int));
                        assert(staged_pair_present(pre_dest, all[j].content@, r@[j]@));
                    }
                }
            }
            i += 1;
        }
        r
    }
}

/// The configured name for a camera serial; when the configuration
/// lists a serial twice, the later entry wins.
pub open spec fn name_for_serial(cfgs: Seq<GoproConfig>, serial: Seq<char>) -> Option<Seq<char>>
    decreases cfgs.len(),
{
    if cfgs.len() == 0 {
        None
    } else if cfgs.last().serial@ == serial {
        Some(cfgs.last().name@)
    } else {
        name_for_serial(cfgs.drop_last(), serial)
    }
}

/// The cameras of the enumeration that are configured, in enumeration
/// order, each under its configured name.
pub open spec fn located_gopros_spec(cfgs: Seq<GoproConfig>, connected: Seq<Gopro>) -> Seq<
    DeviceModel,
>
    decreases connected.len(),
{
    if connected.len() == 0 {
        Seq::empty()
    } else {
        (match name_for_serial(cfgs, connected[0].serial@) {
            Some(n) => seq![
                DeviceModel::Gopro { name: n, serial: connected[0].serial@ },
            ],
            None => Seq::empty(),
        }) + located_gopros_spec(cfgs, connected.skip(1))
    }
}

/// The logger devices of the configuration whose location is mounted,
/// in configuration order.
pub open spec fn located_flysights_spec(
    cfgs: Seq<FlysightConfig>,
    mounted: Seq<Seq<char>>,
) -> Seq<DeviceModel>
    decreases cfgs.len(),
{
    if cfgs.len() == 0 {
        Seq::empty()
    } else {
        (if mounted.contains(cfgs[0].location@) {
            seq![
                DeviceModel::Flysight { name: cfgs[0].name@, location: cfgs[0].location@ },
            ]
        } else {
            Seq::empty()
        }) + located_flysights_spec(cfgs.skip(1), mounted)
    }
}

/// The mass-storage devices of the configuration whose location is
/// mounted, in configuration order.
pub open spec fn located_mass_storages_spec(
    cfgs: Seq<MassStorageConfig>,
    mounted: Seq<Seq<char>>,
) -> Seq<DeviceModel>
    decreases cfgs.len(),
{
    if cfgs.len() == 0 {
        Seq::empty()
    } else {
        (if mounted.contains(cfgs[0].location@) {
            seq![
                DeviceModel::MassStorage { name: cfgs[0].name@, location: cfgs[0].location@ },
            ]
        } else {
            Seq::empty()
        }) + located_mass_storages_spec(cfgs.skip(1), mounted)
    }
}

/// Whether a listing of present locations holds one location.
fn location_present(mounted: &Vec<String>, location: &String) -> (r: bool)
    ensures
        r == mounted@.map(|i: int, s: String| s@).contains(location@),
{
    let ghost mview = mounted@.map(|i: int, s: String| s@);
    let mut i: usize = 0;
    while i < mounted.len()
        invariant
            0 <= i <= mounted@.len(),
            mview == mounted@.map(|k: int, s: String| s@),
            forall|j: int| 0 <= j < i ==> mview[j] != location@,
        decreases mounted@.len() - i,
    {
        if mounted[i] == *location {
            proof {
                assert(mview[i as int] == location@);
            }
            return true;
        }
        i += 1;
    }
    proof {
        if mview.contains(location@) {
            let j = choose|j: int| 0 <= j < mview.len() && mview[j] == location@;
        }
    }
    false
}

/// Looks up the configured name for a serial; the later of two entries
/// with the same serial wins.
fn gopro_name_for(cfgs: &Vec<GoproConfig>, serial: &String) -> (r: Option<String>)
    ensures
        match r {
            Some(n) => name_for_serial(cfgs@, serial@) == Some(n@),
            None => name_for_serial(cfgs@, serial@) is None,
        },
{
    let mut found: Option<String> = None;
    let mut i: usize = 0;
    proof {
        assert(cfgs@.take(0) =~= Seq::<GoproConfig>::empty());
    }
    while i < cfgs.len()
        invariant
            0 <= i <= cfgs@.len(),
            match found {
                Some(n) => name_for_serial(cfgs@.take(i as int), serial@) == Some(n@),
                None => name_for_serial(cfgs@.take(i as int), serial@) is None,
            },
        decreases cfgs@.len() - i,
    {
        proof {
            assert(cfgs@.take(i + 1).last() == cfgs@[i as int]);
            assert(cfgs@.take(i + 1).drop_last() =~= cfgs@.take(i as int));
        }
        if cfgs[i].serial == *serial {
            found = Some(cfgs[i].name.clone());
        }
        i += 1;
    }
    proof {
        assert(cfgs@.take(cfgs@.len() as int) =~= cfgs@);
    }
    found
}

/// Matches the cameras the hardware bus reported against the
/// configuration.
pub fn locate_gopros(cfg: &Config, connected: Vec<Gopro>) -> (r: Vec<Device>)
    ensures
        r@.map(|i: int, d: Device| d@) == located_gopros_spec(cfg.gopros@, connected@),
{
    let mut r: Vec<Device> = Vec::new();
    let mut remaining = connected;
    let ghost all = remaining@;
    proof {
        assert(r@.map(|i: int, d: Device| d@) + located_gopros_spec(cfg.gopros@, all)
            =~= located_gopros_spec(cfg.gopros@, all));
    }
    while remaining.len() > 0
        invariant
            r@.map(|i: int, d: Device| d@) + located_gopros_spec(cfg.gopros@, remaining@)
                == located_gopros_spec(cfg.gopros@, all),
        decreases remaining@.len(),
    {
        let gopro = remaining.remove(0);
        let ghost pre = r@;
        match gopro_name_for(cfg.gopros(), &gopro.serial) {
            Some(name) => {
                let ghost gv = gopro;
                r.push(Device::Gopro(DeviceDescription { name }, gopro));
                proof {
                    assert(r@.map(|i: int, d: Device| d@) =~= pre.map(|i: int, d: Device| d@)
                        + seq![
                        DeviceModel::Gopro { name: name@, serial: gv.serial@ },
                    ]);
                    assert(pre.map(|i: int, d: Device| d@) + (seq![
                        DeviceModel::Gopro { name: name@, serial: gv.serial@ },
                    ] + located_gopros_spec(cfg.gopros@, remaining@)) =~= (pre.map(
                        |i: int, d: Device| d@,
                    ) + seq![
                        DeviceModel::Gopro { name: name@, serial: gv.serial@ },
                    ]) + located_gopros_spec(cfg.gopros@, remaining@));
                }
            },
            None => {
                proof {
                    assert(Seq::<DeviceModel>::empty() + located_gopros_spec(
                        cfg.gopros@,
                        remaining@,
                    ) =~= located_gopros_spec(cfg.gopros@, remaining@));
                }
            },
        }
    }
    proof {
        assert(located_gopros_spec(cfg.gopros@, remaining@) =~= Seq::<DeviceModel>::empty());
        assert(r@.map(|i: int, d: Device| d@) + Seq::<DeviceModel>::empty() =~= r@.map(
            |i: int, d: Device| d@,
        ));
    }
    r
}

/// Matches the configured logger devices against the mounted locations.
pub fn locate_flysights(cfg: &Config, mounted: &Vec<String>) -> (r: Vec<Device>)
    ensures
        r@.map(|i: int, d: Device| d@) == located_flysights_spec(
            cfg.flysights@,
            mounted@.map(|i: int, s: String| s@),
        ),
{
    let ghost mview = mounted@.map(|i: int, s: String| s@);
    let mut r: Vec<Device> = Vec::new();
    let cfgs = cfg.flysights();
    let mut i: usize = 0;
    proof {
        assert(cfgs@.skip(0) =~= cfgs@);
        assert(r@.map(|k: int, d: Device| d@) + located_flysights_spec(cfgs@.skip(0), mview)
            =~= located_flysights_spec(cfgs@, mview));
    }
    while i < cfgs.len()
        invariant
            0 <= i <= cfgs@.len(),
            cfgs == cfg.flysights,
            mview == mounted@.map(|k: int, s: String| s@),
            r@.map(|k: int, d: Device| d@) + located_flysights_spec(cfgs@.skip(i as int), mview)
                == located_flysights_spec(cfgs@, mview),
        decreases cfgs@.len() - i,
    {
        let ghost pre = r@;
        proof {
            assert(cfgs@.skip(i as int)[0] == cfgs@[i as int]);
            assert(cfgs@.skip(i as int).skip(1) =~= cfgs@.skip(i + 1));
        }
        if location_present(mounted, &cfgs[i].location) {
            r.push(
                Device::Flysight(
                    DeviceDescription { name: cfgs[i].name.clone() },
                    Flysight { name: cfgs[i].name.clone(), location: cfgs[i].location.clone() },
                ),
            );
            proof {
                assert(r@.map(|k: int, d: Device| d@) =~= pre.map(|k: int, d: Device| d@) + seq![
                    DeviceModel::Flysight {
                        name: cfgs@[i as int].name@,
                        location: cfgs@[i as int].location@,
                    },
                ]);
                assert(pre.map(|k: int, d: Device| d@) + (seq![
                    DeviceModel::Flysight {
                        name: cfgs@[i as int].name@,
                        location: cfgs@[i as int].location@,
                    },
                ] + located_flysights_spec(cfgs@.skip(i + 1), mview)) =~= (pre.map(
                    |k: int, d: Device| d@,
                ) + seq![
                    DeviceModel::Flysight {
                        name: cfgs@[i as int].name@,
                        location: cfgs@[i as int].location@,
                    },
                ]) + located_flysights_spec(cfgs@.skip(i + 1), mview));
            }
        } else {
            proof {
                assert(Seq::<DeviceModel>::empty() + located_flysights_spec(
                    cfgs@.skip(i + 1),
                    mview,
                ) =~= located_flysights_spec(cfgs@.skip(i + 1), mview));
            }
        }
        i += 1;
    }
    proof {
        assert(cfgs@.skip(cfgs@.len() as int) =~= Seq::<FlysightConfig>::empty());
        assert(r@.map(|k: int, d: Device| d@) + Seq::<DeviceModel>::empty() =~= r@.map(
            |k: int, d: Device| d@,
        ));
    }
    r
}

/// Matches the configured mass-storage devices against the mounted
/// locations.
pub fn locate_mass_storages(cfg: &Config, mounted: &Vec<String>) -> (r: Vec<Device>)
    ensures
        r@.map(|i: int, d: Device| d@) == located_mass_storages_spec(
            cfg.mass_storages@,
            mounted@.map(|i: int, s: String| s@),
        ),
{
    let ghost mview = mounted@.map(|i: int, s: String| s@);
    let mut r: Vec<Device> = Vec::new();
    let cfgs = cfg.mass_storages();
    let mut i: usize = 0;
    proof {
        assert(cfgs@.skip(0) =~= cfgs@);
        assert(r@.map(|k: int, d: Device| d@) + located_mass_storages_spec(cfgs@.skip(0), mview)
            =~= located_mass_storages_spec(cfgs@, mview));
    }
    while i < cfgs.len()
        invariant
            0 <= i <= cfgs@.len(),
            cfgs == cfg.mass_storages,
            mview == mounted@.map(|k: int, s: String| s@),
            r@.map(|k: int, d: Device| d@) + located_mass_storages_spec(
                cfgs@.skip(i as int),
                mview,
            ) == located_mass_storages_spec(cfgs@, mview),
        decreases cfgs@.len() - i,
    {
        let ghost pre = r@;
        proof {
            assert(cfgs@.skip(i as int)[0] == cfgs@[i as int]);
            assert(cfgs@.skip(i as int).skip(1) =~= cfgs@.skip(i + 1));
        }
        if location_present(mounted, &cfgs[i].location) {
            r.push(
                Device::MassStorage(
                    DeviceDescription { name: cfgs[i].name.clone() },
                    MassStorage { name: cfgs[i].name.clone(), location: cfgs[i].location.clone() },
                ),
            );
            proof {
                assert(r@.map(|k: int, d: Device| d@) =~= pre.map(|k: int, d: Device| d@) + seq![
                    DeviceModel::MassStorage {
                        name: cfgs@[i as int].name@,
                        location: cfgs@[i as int].location@,
                    },
                ]);
                assert(pre.map(|k: int, d: Device| d@) + (seq![
                    DeviceModel::MassStorage {
                        name: cfgs@[i as int].name@,
                        location: cfgs@[i as int].location@,
                    },
                ] + located_mass_storages_spec(cfgs@.skip(i + 1), mview)) =~= (pre.map(
                    |k: int, d: Device| d@,
                ) + seq![
                    DeviceModel::MassStorage {
                        name: cfgs@[i as int].name@,
                        location: cfgs@[i as int].location@,
                    },
                ]) + located_mass_storages_spec(cfgs@.skip(i + 1), mview));
            }
        } else {
            proof {
                assert(Seq::<DeviceModel>::empty() + located_mass_storages_spec(
                    cfgs@.skip(i + 1),
                    mview,
                ) =~= located_mass_storages_spec(cfgs@.skip(i + 1), mview));
            }
        }
        i += 1;
    }
    proof {
        assert(cfgs@.skip(cfgs@.len() as int) =~= Seq::<MassStorageConfig>::empty());
        assert(r@.map(|k: int, d: Device| d@) + Seq::<DeviceModel>::empty() =~= r@.map(
            |k: int, d: Device| d@,
        ));
    }
    r
}

/// Discovers every attached device: the configured cameras among those
/// the hardware bus reported, then the configured logger and
/// mass-storage devices among the mounted locations, concatenated in
/// that order.
pub fn attached_devices(cfg: &Config, connected: Vec<Gopro>, mounted: &Vec<String>) -> (r: Vec<
    Device,
>)
    ensures
        r@.map(|i: int, d: Device| d@) == located_gopros_spec(cfg.gopros@, connected@)
            + located_flysights_spec(cfg.flysights@, mounted@.map(|i: int, s: String| s@))
            + located_mass_storages_spec(
            cfg.mass_storages@,
            mounted@.map(|i: int, s: String| s@),
        ),
{
    let mut r = locate_gopros(cfg, connected);
    let ghost g = r@.map(|i: int, d: Device| d@);
    let mut f = locate_flysights(cfg, mounted);
    let ghost fv = f@.map(|i: int, d: Device| d@);
    r.append(&mut f);
    proof {
        assert(r@.map(|i: int, d: Device| d@) =~= g + fv);
    }
    let ghost gf = r@.map(|i: int, d: Device| d@);
    let mut m = locate_mass_storages(cfg, mounted);
    let ghost mv = m@.map(|i: int, d: Device| d@);
    r.append(&mut m);
    proof {
        assert(r@.map(|i: int, d: Device| d@) =~= gf + mv);
        assert((g + fv) + mv =~= g + fv + mv);
    }
    r
}

} // verus!
