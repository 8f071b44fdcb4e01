//! The staging area: a local directory acting as a durable queue. Each
//! pending upload is a content file plus a sidecar manifest whose name is
//! the content name with a fixed suffix. This module models the
//! directory as a listing of named files; the surrounding process mirrors
//! it to disk.

use vstd::prelude::*;
use crate::fingerprint::{fingerprint_spec, fingerprint_bytes};
use crate::hexstr::{hex_of, hex_string};
use crate::manifest::{UploadDescriptor, UploadDescriptorModel, encode_manifest, encode_manifest_spec};
use crate::storage::{manifest_path_for, manifest_name_for};

verus! {

/// One file of the staging area.
pub struct StagedFile {
    pub name: String,
    pub data: Vec<u8>,
}

/// The staging directory: a listing of uniquely named files, in the
/// order they would be discovered.
pub struct StagingArea {
    files: Vec<StagedFile>,
}

impl StagingArea {
    /// The listing as (name, data) pairs, in listing order.
    pub closed spec fn entries(self) -> Seq<(Seq<char>, Seq<u8>)> {
        self.files@.map(|i: int, f: StagedFile| (f.name@, f.data@))
    }

    /// The file names in listing order.
    pub open spec fn names(self) -> Seq<Seq<char>> {
        self.entries().map(|i: int, e: (Seq<char>, Seq<u8>)| e.0)
    }

    /// Names are unique, as in a directory.
    pub open spec fn wf(self) -> bool {
        forall|i: int, j: int|
            0 <= i < j < self.names().len() ==> self.names()[i] != self.names()[j]
    }

    /// Whether a file of this name exists.
    pub open spec fn contains_name(self, n: Seq<char>) -> bool {
        exists|i: int| 0 <= i < self.entries().len() && self.entries()[i].0 == n
    }

    /// The index of the file of this name.
    pub open spec fn index_of(self, n: Seq<char>) -> int {
        choose|i: int| 0 <= i < self.entries().len() && self.entries()[i].0 == n
    }

    /// The bytes of the file of this name.
    pub open spec fn data_of(self, n: Seq<char>) -> Seq<u8> {
        self.entries()[self.index_of(n)].1
    }

    /// Under well-formedness, any position holding a name determines the
    /// data of that name.
    pub proof fn lemma_data_at(self, i: int)
        requires
            self.wf(),
            0 <= i < self.entries().len(),
        ensures
            self.contains_name(self.entries()[i].0),
            self.index_of(self.entries()[i].0) == i,
            self.data_of(self.entries()[i].0) == self.entries()[i].1,
    {
        let n = self.entries()[i].0;
        assert(self.contains_name(n));
        let j = self.index_of(n);
        assert(self.names()[i] == n && self.names()[j] == n);
    }

    pub fn new() -> (r: Self)
        ensures
            r.wf(),
            r.entries().len() == 0,
    {
        let r = StagingArea { files: Vec::new() };
        proof {
            assert(r.entries() =~= Seq::<(Seq<char>, Seq<u8>)>::empty());
        }
        r
    }

    /// How many files the listing holds.
    pub fn len(&self) -> (r: usize)
        ensures
            r == self.entries().len(),
    {
        self.files.len()
    }

    /// The name of the file at a listing position.
    pub fn name_at(&self, i: usize) -> (r: &String)
        requires
            i < self.entries().len(),
        ensures
            r@ == self.entries()[i as int].0,
    {
        &self.files[i].name
    }

    /// Looks a name up in the listing.
    fn position_of(&self, name: &String) -> (r: Option<usize>)
        ensures
            match r {
                Some(i) => i < self.entries().len() && self.entries()[i as int].0 == name@,
                None => !self.contains_name(name@),
            },
    {
        let mut i: usize = 0;
        while i < self.files.len()
            invariant
                0 <= i <= self.entries().len(),
                forall|j: int| 0 <= j < i ==> self.entries()[j].0 != name@,
            decreases self.entries().len() - i,
        {
            if self.files[i].name == *name {
                return Some(i);
            }
            i += 1;
        }
        None
    }

    /// The bytes of a named file, if it exists.
    pub fn read(&self, name: &String) -> (r: Option<&Vec<u8>>)
        requires
            self.wf(),
        ensures
            match r {
                Some(d) => self.contains_name(name@) && d@ == self.data_of(name@),
                None => !self.contains_name(name@),
            },
    {
        match self.position_of(name) {
            Some(i) => {
                proof {
                    self.lemma_data_at(i as int);
                }
                Some(&self.files[i].data)
            },
            None => None,
        }
    }

    /// Writes a file: an existing file of the same name is overwritten,
    /// anything else is untouched, and a fresh name goes to the end of
    /// the listing.
    pub fn insert(&mut self, name: String, data: Vec<u8>)
        requires
            old(self).wf(),
        ensures
            final(self).wf(),
            final(self).contains_name(name@),
            final(self).data_of(name@) == data@,
            forall|n: Seq<char>|
                n != name@ ==> final(self).contains_name(n) == old(self).contains_name(n),
            forall|n: Seq<char>|
                n != name@ && old(self).contains_name(n) ==> final(self).data_of(n) == old(
                    self,
                ).data_of(n),
            old(self).contains_name(name@) ==> final(self).names() == old(self).names(),
            !old(self).contains_name(name@) ==> final(self).names() == old(self).names().push(
                name@,
            ),
    {
        let position = self.position_of(&name);
        let ghost pre = *self;
        match position {
            Some(i) => {
                let entry = &mut self.files[i];
                entry.data = data;
                proof {
                    assert(self.entries() =~= pre.entries().update(
                        i as int,
                        (name@, data@),
                    ));
                    assert(self.names() =~= pre.names());
                    self.lemma_data_at(i as int);
                    assert forall|n: Seq<char>| n != name@ implies final(self).contains_name(n)
                        == pre.contains_name(n) by {
                        if pre.contains_name(n) {
                            let j = pre.index_of(n);
                            assert(self.entries()[j].0 == n);
                        }
                        if self.contains_name(n) {
                            let j = self.index_of(n);
                            assert(pre.entries()[j].0 == n);
                        }
                    }
                    assert forall|n: Seq<char>|
                        n != name@ && pre.contains_name(n) implies final(self).data_of(n)
                        == pre.data_of(n) by {
                        let j = pre.index_of(n);
                        assert(self.entries()[j].0 == n);
                        self.lemma_data_at(j);
                        pre.lemma_data_at(j);
                    }
                }
            },
            None => {
                self.files.push(StagedFile { name, data });
                proof {
                    assert(self.entries() =~= pre.entries().push((name@, data@)));
                    assert(self.names() =~= pre.names().push(name@));
                    self.lemma_data_at(pre.entries().len() as int);
                    assert forall|n: Seq<char>| n != name@ implies final(self).contains_name(n)
                        == pre.contains_name(n) by {
                        if pre.contains_name(n) {
                            let j = pre.index_of(n);
                            assert(self.entries()[j].0 == n);
                        }
                        if self.contains_name(n) {
                            let j = self.index_of(n);
                            assert(j < pre.entries().len());
                            assert(pre.entries()[j].0 == n);
                        }
                    }
                    assert forall|n: Seq<char>|
                        n != name@ && pre.contains_name(n) implies final(self).data_of(n)
                        == pre.data_of(n) by {
                        let j = pre.index_of(n);
                        assert(self.entries()[j].0 == n);
                        self.lemma_data_at(j);
                        pre.lemma_data_at(j);
                    }
                }
            },
        }
    }

    /// Deletes a named file if it exists; nothing else changes.
    pub fn remove(&mut self, name: &String)
        requires
            old(self).wf(),
        ensures
            final(self).wf(),
            !final(self).contains_name(name@),
            forall|n: Seq<char>|
                n != name@ ==> final(self).contains_name(n) == old(self).contains_name(n),
            forall|n: Seq<char>|
                n != name@ && old(self).contains_name(n) ==> final(self).data_of(n) == old(
                    self,
                ).data_of(n),
    {
        let position = self.position_of(name);
        let ghost pre = *self;
        match position {
            Some(i) => {
                self.files.remove(i);
                proof {
                    assert(self.entries() =~= pre.entries().remove(i as int));
                    assert(self.names() =~= pre.names().remove(i as int));
                    assert forall|a: int, b: int|
                        0 <= a < b < self.names().len() implies self.names()[a]
                        != self.names()[b] by {
                        let pa = if a < i {
                            a
                        } else {
                            a + 1
                        };
                        let pb = if b < i {
                            b
                        } else {
                            b + 1
                        };
                        assert(self.names()[a] == pre.names()[pa]);
                        assert(self.names()[b] == pre.names()[pb]);
                    }
                    assert(!self.contains_name(name@)) by {
                        if self.contains_name(name@) {
                            let j = self.index_of(name@);
                            let pj = if j < i {
                                j
                            } else {
                                j + 1
                            };
                            assert(pre.entries()[pj].0 == name@);
                            assert(pre.names()[pj] == name@ && pre.names()[i as int] == name@);
                        }
                    }
                    assert forall|n: Seq<char>| n != name@ implies final(self).contains_name(n)
                        == pre.contains_name(n) by {
                        if pre.contains_name(n) {
                            let j = pre.index_of(n);
                            assert(pre.entries()[j].0 == n);
                            assert(j != i);
                            let sj = if j < i {
                                j
                            } else {
                                j - 1
                            };
                            assert(self.entries()[sj].0 == n);
                        }
                        if self.contains_name(n) {
                            let j = self.index_of(n);
                            let pj = if j < i {
                                j
                            } else {
                                j + 1
                            };
                            assert(pre.entries()[pj].0 == n);
                        }
                    }
                    assert forall|n: Seq<char>|
                        n != name@ && pre.contains_name(n) implies final(self).data_of(n)
                        == pre.data_of(n) by {
                        let j = pre.index_of(n);
                        pre.lemma_data_at(j);
                        assert(j != i);
                        let sj = if j < i {
                            j
                        } else {
                            j - 1
                        };
                        assert(self.entries()[sj].0 == n);
                        assert(self.entries()[sj].1 == pre.entries()[j].1);
                        self.lemma_data_at(sj);
                    }
                }
            },
            None => {},
        }
    }
}

/// One file as handed over by a device driver: its logical name within
/// the device, and its bytes.
pub struct DeviceFile {
    pub name: String,
    pub content: Vec<u8>,
}

/// What staging one file guarantees: the descriptor is fully determined
/// by the inputs, and the staging area gained exactly the pair of the
/// content file, named by its fingerprint, and its sidecar manifest.
pub open spec fn staged_pair_present(
    area: StagingArea,
    content: Seq<u8>,
    d: UploadDescriptorModel,
) -> bool {
    let cn = hex_of(fingerprint_spec(content));
    let mn = manifest_name_for(cn);
    &&& area.contains_name(cn)
    &&& area.data_of(cn) == content
    &&& area.contains_name(mn)
    &&& area.data_of(mn) == encode_manifest_spec(d)
}

/// Copies one device file into the staging area: the content goes in
/// under its fingerprint in hex (so re-staging identical content
/// overwrites rather than duplicates), and the serialized descriptor
/// goes in beside it under the derived manifest name.
pub fn stage_file(
    file: DeviceFile,
    device_name: &String,
    captured_at: u64,
    destination: &mut StagingArea,
) -> (d: UploadDescriptor)
    requires
        old(destination).wf(),
    ensures
        final(destination).wf(),
        d@ == (UploadDescriptorModel {
            device_name: device_name@,
            relative_path: file.name@,
            content_fingerprint: fingerprint_spec(file.content@),
            captured_at: captured_at,
        }),
        d.wf(),
        staged_pair_present(*final(destination), file.content@, d@),
        forall|n: Seq<char>|
            n != hex_of(fingerprint_spec(file.content@)) && n != manifest_name_for(
                hex_of(fingerprint_spec(file.content@)),
            ) ==> final(destination).contains_name(n) == old(destination).contains_name(n)
                && (old(destination).contains_name(n) ==> final(destination).data_of(n) == old(
                destination,
            ).data_of(n)),
{
    let fp = fingerprint_bytes(file.content.as_slice());
    let content_name = hex_string(fp.as_slice());
    let manifest_name = manifest_path_for(content_name.as_str());
    let d = UploadDescriptor::new(device_name.clone(), file.name, fp, captured_at);
    let manifest_bytes = encode_manifest(&d);
    let ghost cn = content_name@;
    let ghost mn = manifest_name@;
    destination.insert(content_name, file.content);
    destination.insert(manifest_name, manifest_bytes);
    proof {
        assert(mn != cn) by {
            crate::storage::lemma_manifest_naming_round_trip(cn);
            assert(mn.len() == cn.len() + 9);
        }
    }
    d
}

} // verus!
