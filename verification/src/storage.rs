//! The upload orchestrator: drains the staging area, fans each staged
//! entry out to every configured storage adaptor, retries failed uploads
//! up to a fixed ceiling, and deletes local copies only for entries that
//! every adaptor confirmed (all-or-nothing per entry).

use vstd::prelude::*;
use vstd::string::StrSliceExecFns;
use vstd::string::StringExecFns;
use crate::manifest::{UploadDescriptor, parse_manifest, parse_manifest_spec};
use crate::reporting::{UploadStatus, ReportEntry, UploadReport, entry_success};
use crate::staging::StagingArea;

verus! {

/// The filename suffix that marks a manifest file in the staging area.
pub open spec fn manifest_suffix() -> Seq<char> {
    ".manifest"@
}

/// A path names a manifest when it ends with the manifest suffix.
pub open spec fn is_manifest_name(s: Seq<char>) -> bool {
    s.len() >= 9 && s.subrange(s.len() - 9, s.len() as int) == manifest_suffix()
}

/// The manifest path derived from a content path: the fixed suffix is appended.
pub open spec fn manifest_name_for(s: Seq<char>) -> Seq<char> {
    s + manifest_suffix()
}

/// The content path recovered from a manifest path: the fixed suffix is stripped.
pub open spec fn content_name_of(s: Seq<char>) -> Seq<char> {
    s.subrange(0, s.len() - 9)
}

/// Derives the manifest path that sits beside a content path.
pub fn manifest_path_for(content: &str) -> (r: String)
    ensures
        r@ == manifest_name_for(content@),
{
    let mut s = content.to_owned();
    s.append(".manifest");
    s
}

/// Converts a manifest path back into the path of its content file.
pub fn content_path_from_manifest(manifest: &str) -> (r: String)
    requires
        manifest@.len() >= 9,
    ensures
        r@ == content_name_of(manifest@),
{
    let n = manifest.unicode_len();
    let s = manifest.substring_char(0, n - 9);
    s.to_owned()
}

/// Decides whether a path names a manifest file.
pub fn is_manifest(path: &str) -> (r: bool)
    ensures
        r == is_manifest_name(path@),
{
    let suffix = ".manifest";
    proof {
        reveal_strlit(".manifest");
    }
    let n = path.unicode_len();
    if n < 9 {
        return false;
    }
    let mut i: usize = 0;
    while i < 9
        invariant
            0 <= i <= 9,
            n == path@.len(),
            n >= 9,
            suffix@ == manifest_suffix(),
            manifest_suffix().len() == 9,
            forall|j: int| 0 <= j < i ==> path@[n - 9 + j] == manifest_suffix()[j],
        decreases 9 - i,
    {
        if path.get_char(n - 9 + i) != suffix.get_char(i) {
            assert(path@[n - 9 + i] != manifest_suffix()[i as int]);
            assert(path@.subrange(n - 9, n as int) != manifest_suffix()) by {
                assert(path@.subrange(n - 9, n as int)[i as int] != manifest_suffix()[i as int]);
            }
            return false;
        }
        i += 1;
    }
    assert(path@.subrange(n - 9, n as int) =~= manifest_suffix());
    true
}

/// Law: deriving a manifest path from any content path and converting it
/// back yields the original content path, and the derived path is always
/// recognised as a manifest.
pub proof fn lemma_manifest_naming_round_trip(p: Seq<char>)
    ensures
        content_name_of(manifest_name_for(p)) == p,
        is_manifest_name(manifest_name_for(p)),
        manifest_name_for(p).len() == p.len() + 9,
{
    reveal_strlit(".manifest");
    assert(manifest_suffix().len() == 9);
    assert(content_name_of(manifest_name_for(p)) =~= p);
    assert(manifest_name_for(p).subrange(p.len() as int, p.len() + 9 as int) =~= manifest_suffix());
}

/// Law: stripping the suffix is injective over manifest names, so two
/// distinct manifests never share a content file.
pub proof fn lemma_manifest_strip_injective(a: Seq<char>, b: Seq<char>)
    requires
        is_manifest_name(a),
        is_manifest_name(b),
        content_name_of(a) == content_name_of(b),
    ensures
        a == b,
{
    assert(a =~= content_name_of(a) + manifest_suffix());
    assert(b =~= content_name_of(b) + manifest_suffix());
}

/// How often an upload is attempted before the entry is recorded as
/// errored.
pub const MAX_RETRIES: usize = 3;

/// What a backend reports for a finished upload.
#[derive(Debug)]
pub enum StorageStatus {
    Success,
    Failure,
}

/// The capability a storage backend exposes: a side-effect-free
/// existence check keyed by the content fingerprint, a retry-safe upload,
/// and a stable name for reports. Backend-specific code implements this
/// outside the library; nothing can be promised about what the calls
/// return, so the orchestrator's contracts hold for every implementation.
pub trait StorageAdaptor {
    /// Checks whether the backend already holds content with this
    /// descriptor's fingerprint. Must not fail for "not found".
    fn already_uploaded(&self, manifest: &UploadDescriptor) -> bool;

    /// Transfers the bytes. Re-invocation after a failed attempt must be
    /// safe; the error text of a failed attempt is kept for the report.
    fn upload(&self, content: &Vec<u8>, manifest: &UploadDescriptor) -> Result<
        StorageStatus,
        String,
    >;

    /// The stable identifier used in reports.
    fn name(&self) -> String;
}

/// The retry policy: with one verdict per would-be attempt, in order, an
/// upload ends in success exactly when some attempt within the ceiling
/// succeeds (the orchestrator stops at the first success, so later
/// verdicts are never consulted).
pub open spec fn retry_succeeds(attempt_succeeds: Seq<bool>) -> bool {
    exists|i: int|
        0 <= i < attempt_succeeds.len() && i < MAX_RETRIES && attempt_succeeds[i]
}

/// Law (retry semantics, success half): an adaptor that fails its first
/// k-1 attempts and succeeds on attempt k, for k within the ceiling,
/// ends in success.
pub proof fn lemma_retry_eventual_success(attempt_succeeds: Seq<bool>, k: int)
    requires
        1 <= k <= MAX_RETRIES,
        k <= attempt_succeeds.len(),
        forall|i: int| 0 <= i < k - 1 ==> !attempt_succeeds[i],
        attempt_succeeds[k - 1],
    ensures
        retry_succeeds(attempt_succeeds),
{
    assert(0 <= k - 1 < attempt_succeeds.len() && k - 1 < MAX_RETRIES && attempt_succeeds[k - 1]);
}

/// Law (retry semantics, exhaustion half): an adaptor that fails every
/// attempt within the ceiling ends errored, however it would behave on
/// attempts beyond the ceiling.
pub proof fn lemma_retry_exhaustion(attempt_succeeds: Seq<bool>)
    requires
        forall|i: int|
            0 <= i < attempt_succeeds.len() && i < MAX_RETRIES ==> !attempt_succeeds[i],
    ensures
        !retry_succeeds(attempt_succeeds),
{
}

/// Queries the dedup fast path, then attempts the upload up to the retry
/// ceiling. The upload is not invoked at all when the backend already
/// holds the content; otherwise each attempt calls the adaptor afresh,
/// stops at the first success, and after exhausting the ceiling the last
/// error is recorded.
fn run_adaptor<A: StorageAdaptor>(
    adaptor: &A,
    content: &Vec<u8>,
    descriptor: &UploadDescriptor,
) -> (r: UploadStatus)
{
    if adaptor.already_uploaded(descriptor) {
        return UploadStatus::AlreadyUploaded;
    }
    let mut last_error: String = String::new();
    let mut attempt: usize = 0;
    while attempt < MAX_RETRIES
        decreases MAX_RETRIES - attempt,
    {
        match adaptor.upload(content, descriptor) {
            Ok(_) => {
                return UploadStatus::Succeeded;
            },
            Err(e) => {
                last_error = e;
            },
        }
        attempt += 1;
    }
    UploadStatus::Errored(last_error)
}

/// The names the orchestrator selects from a listing: they carry the
/// manifest suffix, and the content name they derive is not itself a
/// manifest name (a pair in which one file would be both content and
/// manifest is a corrupt state, skipped like other corruption).
pub open spec fn is_processable_name(n: Seq<char>) -> bool {
    is_manifest_name(n) && !is_manifest_name(content_name_of(n))
}

/// The processable names of a listing, in listing order.
pub open spec fn processable_names(names: Seq<Seq<char>>) -> Seq<Seq<char>>
    decreases names.len(),
{
    if names.len() == 0 {
        Seq::empty()
    } else {
        (if is_processable_name(names[0]) {
            seq![names[0]]
        } else {
            Seq::empty()
        }) + processable_names(names.skip(1))
    }
}

proof fn lemma_processable_push(names: Seq<Seq<char>>, n: Seq<char>)
    ensures
        processable_names(names.push(n)) == processable_names(names) + (
        if is_processable_name(n) {
            seq![n]
        } else {
            Seq::<Seq<char>>::empty()
        }),
    decreases names.len(),
{
    let tail: Seq<Seq<char>> = if is_processable_name(n) {
        seq![n]
    } else {
        Seq::empty()
    };
    if names.len() == 0 {
        assert(names.push(n)[0] == n);
        assert(names.push(n).skip(1) =~= Seq::<Seq<char>>::empty());
        assert(processable_names(names.push(n)) == (if is_processable_name(n) {
            seq![n]
        } else {
            Seq::<Seq<char>>::empty()
        }) + processable_names(Seq::<Seq<char>>::empty()));
        assert(processable_names(names.push(n)) =~= processable_names(names) + tail);
    } else {
        assert(names.push(n)[0] == names[0]);
        assert(names.push(n).skip(1) =~= names.skip(1).push(n));
        assert(processable_names(names.push(n)) == (if is_processable_name(names[0]) {
            seq![names[0]]
        } else {
            Seq::<Seq<char>>::empty()
        }) + processable_names(names.skip(1).push(n)));
        lemma_processable_push(names.skip(1), n);
        assert(processable_names(names.push(n)) =~= processable_names(names) + tail);
    }
}

/// Everything selected is a processable member of the listing, and every
/// processable member of the listing is selected.
proof fn lemma_processable_membership(names: Seq<Seq<char>>)
    ensures
        forall|x: Seq<char>|
            #[trigger] processable_names(names).contains(x) ==> names.contains(x)
                && is_processable_name(x),
        forall|x: Seq<char>|
            names.contains(x) && is_processable_name(x) ==> processable_names(names).contains(x),
    decreases names.len(),
{
    if names.len() > 0 {
        lemma_processable_membership(names.skip(1));
        assert forall|x: Seq<char>| #[trigger] processable_names(names).contains(x)
            implies names.contains(x) && is_processable_name(x) by {
            let p = processable_names(names);
            let i = choose|i: int| 0 <= i < p.len() && p[i] == x;
            if is_processable_name(names[0]) && i == 0 {
                assert(names[0] == x);
            } else {
                let head: int = if is_processable_name(names[0]) {
                    1
                } else {
                    0
                };
                assert(processable_names(names.skip(1))[i - head] == x);
                assert(processable_names(names.skip(1)).contains(x));
                let j = choose|j: int|
                    0 <= j < names.skip(1).len() && names.skip(1)[j] == x;
                assert(names[j + 1] == x);
            }
        }
        assert forall|x: Seq<char>| names.contains(x) && is_processable_name(x)
            implies processable_names(names).contains(x) by {
            let i = choose|i: int| 0 <= i < names.len() && names[i] == x;
            let head: int = if is_processable_name(names[0]) {
                1
            } else {
                0
            };
            if i == 0 {
                assert(processable_names(names)[0] == x);
            } else {
                assert(names.skip(1)[i - 1] == x);
                assert(names.skip(1).contains(x));
                let j = choose|j: int|
                    0 <= j < processable_names(names.skip(1)).len() && processable_names(
                        names.skip(1),
                    )[j] == x;
                assert(processable_names(names)[j + head] == x);
            }
        }
    }
}

/// A selection from a duplicate-free listing is duplicate-free.
proof fn lemma_processable_distinct(names: Seq<Seq<char>>)
    requires
        forall|i: int, j: int| 0 <= i < j < names.len() ==> names[i] != names[j],
    ensures
        forall|i: int, j: int|
            0 <= i < j < processable_names(names).len() ==> processable_names(names)[i]
                != processable_names(names)[j],
    decreases names.len(),
{
    if names.len() > 0 {
        assert(forall|i: int, j: int|
            0 <= i < j < names.skip(1).len() ==> names.skip(1)[i] != names.skip(1)[j]) by {
            assert(forall|i: int| 0 <= i < names.skip(1).len() ==> names.skip(1)[i] == names[i
                + 1]);
        }
        lemma_processable_distinct(names.skip(1));
        lemma_processable_membership(names.skip(1));
        let p = processable_names(names);
        let head: int = if is_processable_name(names[0]) {
            1
        } else {
            0
        };
        assert forall|i: int, j: int| 0 <= i < j < p.len() implies p[i] != p[j] by {
            if head == 1 && i == 0 {
                if p[0] == p[j] {
                    assert(processable_names(names.skip(1))[j - 1] == names[0]);
                    assert(processable_names(names.skip(1)).contains(names[0]));
                    assert(names.skip(1).contains(names[0]));
                    let k = choose|k: int|
                        0 <= k < names.skip(1).len() && names.skip(1)[k] == names[0];
                    assert(names[k + 1] == names[0]);
                }
            } else {
                assert(p[i] == processable_names(names.skip(1))[i - head]);
                assert(p[j] == processable_names(names.skip(1))[j - head]);
            }
        }
    }
}

/// Lists the manifests the orchestrator will process, in listing order.
fn select_manifest_names(staged: &StagingArea) -> (r: Vec<String>)
    ensures
        r@.map(|i: int, s: String| s@) == processable_names(staged.names()),
{
    let mut r: Vec<String> = Vec::new();
    let mut i: usize = 0;
    proof {
        assert(staged.names().take(0) =~= Seq::<Seq<char>>::empty());
        assert(r@.map(|k: int, s: String| s@) =~= processable_names(staged.names().take(0)));
    }
    let n = staged.len();
    while i < n
        invariant
            0 <= i <= n,
            n == staged.entries().len(),
            r@.map(|k: int, s: String| s@) == processable_names(staged.names().take(i as int)),
        decreases n - i,
    {
        let name = staged.name_at(i);
        let ghost pre = r@;
        if is_manifest(name.as_str()) {
            let content = content_path_from_manifest(name.as_str());
            if !is_manifest(content.as_str()) {
                r.push(name.clone());
                proof {
                    assert(r@.map(|k: int, s: String| s@) =~= pre.map(|k: int, s: String| s@).push(
                        name@,
                    ));
                }
            }
        }
        proof {
            lemma_processable_push(staged.names().take(i as int), staged.names()[i as int]);
            assert(staged.names().take(i + 1) =~= staged.names().take(i as int).push(
                staged.names()[i as int],
            ));
            if is_processable_name(staged.names()[i as int]) {
                assert(r@.map(|k: int, s: String| s@) =~= processable_names(
                    staged.names().take(i as int),
                ) + seq![staged.names()[i as int]]);
            } else {
                assert(processable_names(staged.names().take(i as int)) + Seq::<
                    Seq<char>,
                >::empty() =~= processable_names(staged.names().take(i as int)));
            }
        }
        i += 1;
    }
    proof {
        assert(staged.names().take(staged.names().len() as int) =~= staged.names());
    }
    r
}

/// Whether a manifest of this name, in this staging state, can be
/// processed: it is present, its bytes deserialize, and its content file
/// is present beside it.
pub open spec fn manifest_ready(area: StagingArea, mn: Seq<char>) -> bool {
    &&& area.contains_name(mn)
    &&& parse_manifest_spec(area.data_of(mn)) is Some
    &&& area.contains_name(content_name_of(mn))
}

/// Handles one manifest: deserializes it, fans out to every adaptor with
/// the dedup check and the retry loop, and deletes the pair exactly when
/// every adaptor confirmed. A manifest that is gone, unparsable, or
/// missing its content file is skipped and nothing is touched.
fn process_entry<A: StorageAdaptor>(
    staged: &mut StagingArea,
    manifest_name: &String,
    adaptors: &Vec<A>,
) -> (r: Option<ReportEntry>)
    requires
        old(staged).wf(),
        is_manifest_name(manifest_name@),
    ensures
        final(staged).wf(),
        match r {
            None => *final(staged) == *old(staged) && !manifest_ready(*old(staged), manifest_name@),
            Some(e) => {
                let mn = manifest_name@;
                let cn = content_name_of(mn);
                &&& manifest_ready(*old(staged), mn)
                &&& e.content_name@ == cn
                &&& e.results@.len() == adaptors@.len()
                &&& parse_manifest_spec(old(staged).data_of(mn)) == Some(e.descriptor@)
                &&& entry_success(e) ==> !final(staged).contains_name(mn) && !final(staged).contains_name(cn) && (forall|n: Seq<char>|
                    n != mn && n != cn ==> final(staged).contains_name(n) == old(staged).contains_name(n) && (old(staged).contains_name(n) ==> final(staged).data_of(n) == old(staged).data_of(n)))
                &&& !entry_success(e) ==> *final(staged) == *old(staged)
            },
        },
{
    let mdata = match staged.read(manifest_name) {
        None => {
            return None;
        },
        Some(d) => d.clone(),
    };
    proof {
        assert(mdata@ == old(staged).data_of(manifest_name@));
    }
    let descriptor = match parse_manifest(mdata.as_slice()) {
        None => {
            return None;
        },
        Some(d) => d,
    };
    let content_name = content_path_from_manifest(manifest_name.as_str());
    let content = match staged.read(&content_name) {
        None => {
            return None;
        },
        Some(c) => c.clone(),
    };
    let mut results: Vec<(String, UploadStatus)> = Vec::new();
    let mut i: usize = 0;
    while i < adaptors.len()
        invariant
            results@.len() == i,
            0 <= i <= adaptors@.len(),
        decreases adaptors@.len() - i,
    {
        let status = run_adaptor(&adaptors[i], &content, &descriptor);
        results.push((adaptors[i].name(), status));
        i += 1;
    }
    let entry = ReportEntry::new(descriptor, content_name, results);
    if entry.is_success() {
        staged.remove(manifest_name);
        staged.remove(&entry.content_name);
    }
    Some(entry)
}

/// Whether some fully successful entry of a report owns this staging
/// name, as its content file or as its manifest.
pub open spec fn removed_by(entries: Seq<ReportEntry>, n: Seq<char>) -> bool {
    exists|j: int|
        0 <= j < entries.len() && entry_success(#[trigger] entries[j]) && (n
            == entries[j].content_name@ || n == manifest_name_for(entries[j].content_name@))
}


/// The listing facts the orchestrator works from: the selected names are
/// pairwise distinct and all processable.
#[verifier::opaque]
pub open spec fn names_ok(names_view: Seq<Seq<char>>) -> bool {
    &&& forall|i: int, j: int|
        0 <= i < j < names_view.len() ==> names_view[i] != names_view[j]
    &&& forall|idx: int|
        0 <= idx < names_view.len() ==> is_processable_name(#[trigger] names_view[idx])
}

/// Every recorded entry's manifest is one of the first k selected names.
#[verifier::opaque]
pub open spec fn entries_link(
    entries: Seq<ReportEntry>,
    names_view: Seq<Seq<char>>,
    k: int,
) -> bool {
    forall|j: int|
        0 <= j < entries.len() ==> exists|idx: int|
            0 <= idx < k && names_view[idx] == manifest_name_for(
                (#[trigger] entries[j]).content_name@,
            )
}

/// Each entry stands for a manifest pair that was present and parsed in
/// the given state, and holds one result per adaptor.
#[verifier::opaque]
pub open spec fn entries_describe(
    entries: Seq<ReportEntry>,
    olds: StagingArea,
    n_adaptors: int,
) -> bool {
    forall|j: int|
        0 <= j < entries.len() ==> {
            let e = #[trigger] entries[j];
            let mn = manifest_name_for(e.content_name@);
            &&& e.results@.len() == n_adaptors
            &&& is_processable_name(mn)
            &&& manifest_ready(olds, mn)
            &&& parse_manifest_spec(olds.data_of(mn)) == Some(e.descriptor@)
        }
}

/// All-or-nothing deletion: in the current state, the pair of a fully
/// successful entry is gone, and the pair of any other entry is still
/// there byte for byte.
#[verifier::opaque]
pub open spec fn entries_deletion(
    entries: Seq<ReportEntry>,
    olds: StagingArea,
    cur: StagingArea,
) -> bool {
    forall|j: int|
        0 <= j < entries.len() ==> {
            let e = #[trigger] entries[j];
            let cn = e.content_name@;
            let mn = manifest_name_for(cn);
            &&& (entry_success(e) ==> !cur.contains_name(cn) && !cur.contains_name(mn))
            &&& (!entry_success(e) ==> cur.contains_name(cn) && cur.data_of(cn) == olds.data_of(cn)
                && cur.contains_name(mn) && cur.data_of(mn) == olds.data_of(mn))
        }
}

/// Deletion is the only mutation: any name not owned by a fully
/// successful entry keeps its existence and its bytes.
#[verifier::opaque]
pub open spec fn frame_holds(
    entries: Seq<ReportEntry>,
    olds: StagingArea,
    cur: StagingArea,
) -> bool {
    forall|n: Seq<char>|
        !removed_by(entries, n) ==> #[trigger] cur.contains_name(n) == olds.contains_name(n) && (
        olds.contains_name(n) ==> cur.data_of(n) == olds.data_of(n))
}

/// Every ready manifest among the first k selected names has its entry.
#[verifier::opaque]
pub open spec fn prefix_complete(
    entries: Seq<ReportEntry>,
    names_view: Seq<Seq<char>>,
    olds: StagingArea,
    k: int,
) -> bool {
    forall|idx: int|
        0 <= idx < k && manifest_ready(olds, #[trigger] names_view[idx]) ==> exists|j: int|
            0 <= j < entries.len() && (#[trigger] entries[j]).content_name@ == content_name_of(
                names_view[idx],
            )
}

/// The manifests of a listing that are ready in the given state, in
/// listing order.
pub open spec fn ready_names(names: Seq<Seq<char>>, area: StagingArea) -> Seq<Seq<char>>
    decreases names.len(),
{
    if names.len() == 0 {
        Seq::empty()
    } else {
        (if manifest_ready(area, names[0]) {
            seq![names[0]]
        } else {
            Seq::empty()
        }) + ready_names(names.skip(1), area)
    }
}

/// The processable, ready manifests of a staging area, in listing order:
/// exactly the entries one run's report will hold, one each.
pub open spec fn ready_manifests(area: StagingArea) -> Seq<Seq<char>> {
    ready_names(processable_names(area.names()), area)
}

proof fn lemma_ready_push(names: Seq<Seq<char>>, n: Seq<char>, area: StagingArea)
    ensures
        ready_names(names.push(n), area) == ready_names(names, area) + (
        if manifest_ready(area, n) {
            seq![n]
        } else {
            Seq::<Seq<char>>::empty()
        }),
    decreases names.len(),
{
    let tail: Seq<Seq<char>> = if manifest_ready(area, n) {
        seq![n]
    } else {
        Seq::empty()
    };
    if names.len() == 0 {
        assert(names.push(n)[0] == n);
        assert(names.push(n).skip(1) =~= Seq::<Seq<char>>::empty());
        assert(ready_names(names.push(n), area) == (if manifest_ready(area, n) {
            seq![n]
        } else {
            Seq::<Seq<char>>::empty()
        }) + ready_names(Seq::<Seq<char>>::empty(), area));
        assert(ready_names(names.push(n), area) =~= ready_names(names, area) + tail);
    } else {
        assert(names.push(n)[0] == names[0]);
        assert(names.push(n).skip(1) =~= names.skip(1).push(n));
        assert(ready_names(names.push(n), area) == (if manifest_ready(area, names[0]) {
            seq![names[0]]
        } else {
            Seq::<Seq<char>>::empty()
        }) + ready_names(names.skip(1).push(n), area));
        lemma_ready_push(names.skip(1), n, area);
        assert(ready_names(names.push(n), area) =~= ready_names(names, area) + tail);
    }
}

/// The report lists, in listing order, exactly the ready manifests of
/// the visited prefix, one entry each, under its content name.
#[verifier::opaque]
pub open spec fn entries_ordered(
    entries: Seq<ReportEntry>,
    names_view: Seq<Seq<char>>,
    olds: StagingArea,
    k: int,
) -> bool {
    entries.map(|j: int, e: ReportEntry| e.content_name@) == ready_names(
        names_view.take(k),
        olds,
    ).map(|j: int, mn: Seq<char>| content_name_of(mn))
}

/// The pair about to be processed is disjoint from every pair already
/// recorded, because each recorded manifest is an earlier, distinct
/// member of the duplicate-free listing and stripping the suffix is
/// injective.
proof fn lemma_current_pair_fresh(
    entries: Seq<ReportEntry>,
    names_view: Seq<Seq<char>>,
    k: int,
    mv: Seq<char>,
)
    requires
        names_ok(names_view),
        entries_link(entries, names_view, k),
        0 <= k < names_view.len(),
        mv == names_view[k],
    ensures
        !removed_by(entries, mv),
        !removed_by(entries, content_name_of(mv)),
        forall|j: int|
            0 <= j < entries.len() ==> {
                let cnj = (#[trigger] entries[j]).content_name@;
                &&& cnj != mv
                &&& cnj != content_name_of(mv)
                &&& manifest_name_for(cnj) != mv
                &&& manifest_name_for(cnj) != content_name_of(mv)
            },
{
    reveal(names_ok);
    reveal(entries_link);
    let cv = content_name_of(mv);
    assert(is_processable_name(mv));
    assert forall|j: int| 0 <= j < entries.len() implies {
        let cnj = (#[trigger] entries[j]).content_name@;
        &&& cnj != mv
        &&& cnj != cv
        &&& manifest_name_for(cnj) != mv
        &&& manifest_name_for(cnj) != cv
    } by {
        let cnj = entries[j].content_name@;
        let mnj = manifest_name_for(cnj);
        let idx = choose|idx: int| 0 <= idx < k && names_view[idx] == mnj;
        lemma_manifest_naming_round_trip(cnj);
        assert(is_processable_name(mnj));
        assert(mnj != mv);
        assert(!is_manifest_name(cnj));
        assert(cnj != mv);
        assert(!is_manifest_name(cv));
        assert(mnj != cv);
        if cnj == cv {
            lemma_manifest_strip_injective(mnj, mv);
            assert(false);
        }
    }
    if removed_by(entries, mv) {
        let j = choose|j: int|
            0 <= j < entries.len() && entry_success(entries[j]) && (mv == entries[j].content_name@
                || mv == manifest_name_for(entries[j].content_name@));
    }
    if removed_by(entries, cv) {
        let j = choose|j: int|
            0 <= j < entries.len() && entry_success(entries[j]) && (cv == entries[j].content_name@
                || cv == manifest_name_for(entries[j].content_name@));
    }
}

/// One orchestrator step on a manifest that could not be processed: the
/// staging state is untouched, and the manifest was not ready in the
/// original state either, so skipping it keeps the bookkeeping exact.
proof fn lemma_step_none(
    entries: Seq<ReportEntry>,
    names_view: Seq<Seq<char>>,
    olds: StagingArea,
    pre: StagingArea,
    k: int,
)
    requires
        names_ok(names_view),
        entries_link(entries, names_view, k),
        frame_holds(entries, olds, pre),
        prefix_complete(entries, names_view, olds, k),
        entries_ordered(entries, names_view, olds, k),
        0 <= k < names_view.len(),
        !manifest_ready(pre, names_view[k]),
    ensures
        entries_link(entries, names_view, k + 1),
        prefix_complete(entries, names_view, olds, k + 1),
        entries_ordered(entries, names_view, olds, k + 1),
        !manifest_ready(olds, names_view[k]),
{
    reveal(names_ok);
    reveal(entries_link);
    reveal(frame_holds);
    reveal(prefix_complete);
    let mv = names_view[k];
    let cv = content_name_of(mv);
    lemma_current_pair_fresh(entries, names_view, k, mv);
    assert(pre.contains_name(mv) == olds.contains_name(mv));
    assert(olds.contains_name(mv) ==> pre.data_of(mv) == olds.data_of(mv));
    assert(pre.contains_name(cv) == olds.contains_name(cv));
    assert forall|j: int| 0 <= j < entries.len() implies exists|idx: int|
        0 <= idx < k + 1 && names_view[idx] == manifest_name_for(
            (#[trigger] entries[j]).content_name@,
        ) by {
        let idx = choose|idx: int|
            0 <= idx < k && names_view[idx] == manifest_name_for(entries[j].content_name@);
        assert(0 <= idx < k + 1 && names_view[idx] == manifest_name_for(
            entries[j].content_name@,
        ));
    }
    assert(entries_ordered(entries, names_view, olds, k + 1)) by {
        reveal(entries_ordered);
        assert(names_view.take(k + 1) =~= names_view.take(k).push(mv));
        lemma_ready_push(names_view.take(k), mv, olds);
        assert(ready_names(names_view.take(k), olds) + Seq::<Seq<char>>::empty()
            =~= ready_names(names_view.take(k), olds));
    }
}

/// One orchestrator step on a processed manifest: the recorded entry
/// describes the original pair, the deletion it may have performed is
/// confined to its own pair, and every earlier entry's bookkeeping
/// carries over because the pairs are disjoint.
proof fn lemma_step_some(
    entries: Seq<ReportEntry>,
    names_view: Seq<Seq<char>>,
    olds: StagingArea,
    pre: StagingArea,
    cur: StagingArea,
    e: ReportEntry,
    k: int,
    n_adaptors: int,
)
    requires
        names_ok(names_view),
        entries_link(entries, names_view, k),
        entries_describe(entries, olds, n_adaptors),
        entries_deletion(entries, olds, pre),
        frame_holds(entries, olds, pre),
        prefix_complete(entries, names_view, olds, k),
        0 <= k < names_view.len(),
        manifest_ready(pre, names_view[k]),
        e.content_name@ == content_name_of(names_view[k]),
        e.results@.len() == n_adaptors,
        parse_manifest_spec(pre.data_of(names_view[k])) == Some(e.descriptor@),
        entry_success(e) ==> !cur.contains_name(names_view[k]) && !cur.contains_name(
            content_name_of(names_view[k]),
        ) && (forall|n: Seq<char>|
            n != names_view[k] && n != content_name_of(names_view[k])
                ==> cur.contains_name(n) == pre.contains_name(n) && (pre.contains_name(n)
                ==> cur.data_of(n) == pre.data_of(n))),
        !entry_success(e) ==> cur == pre,
    ensures
        entries_link(entries.push(e), names_view, k + 1),
        entries_describe(entries.push(e), olds, n_adaptors),
        entries_deletion(entries.push(e), olds, cur),
        frame_holds(entries.push(e), olds, cur),
        prefix_complete(entries.push(e), names_view, olds, k + 1),
        manifest_ready(olds, names_view[k]),
{
    reveal(names_ok);
    reveal(entries_link);
    reveal(entries_describe);
    reveal(entries_deletion);
    reveal(frame_holds);
    reveal(prefix_complete);
    let mv = names_view[k];
    let cv = content_name_of(mv);
    let pushed = entries.push(e);
    lemma_current_pair_fresh(entries, names_view, k, mv);
    lemma_manifest_naming_round_trip(cv);
    assert(manifest_name_for(e.content_name@) == mv);
    // the pair was untouched so far, so the original state agrees with
    // the state the entry was processed against
    assert(pre.contains_name(mv) == olds.contains_name(mv));
    assert(olds.contains_name(mv) ==> pre.data_of(mv) == olds.data_of(mv));
    assert(pre.contains_name(cv) == olds.contains_name(cv));
    assert(olds.contains_name(cv) ==> pre.data_of(cv) == olds.data_of(cv));
    assert(manifest_ready(olds, mv));
    assert(parse_manifest_spec(olds.data_of(mv)) == Some(e.descriptor@));
    assert(is_processable_name(mv));

    assert forall|j: int| 0 <= j < pushed.len() implies exists|idx: int|
        0 <= idx < k + 1 && names_view[idx] == manifest_name_for(
            (#[trigger] pushed[j]).content_name@,
        ) by {
        if j < entries.len() {
            assert(pushed[j] == entries[j]);
            let idx = choose|idx: int|
                0 <= idx < k && names_view[idx] == manifest_name_for(entries[j].content_name@);
            assert(0 <= idx < k + 1 && names_view[idx] == manifest_name_for(
                pushed[j].content_name@,
            ));
        } else {
            assert(pushed[j] == e);
            assert(names_view[k] == manifest_name_for(e.content_name@));
        }
    }

    assert forall|j: int| 0 <= j < pushed.len() implies {
        let ej = #[trigger] pushed[j];
        let mn = manifest_name_for(ej.content_name@);
        &&& ej.results@.len() == n_adaptors
        &&& is_processable_name(mn)
        &&& manifest_ready(olds, mn)
        &&& parse_manifest_spec(olds.data_of(mn)) == Some(ej.descriptor@)
    } by {
        if j < entries.len() {
            assert(pushed[j] == entries[j]);
            assert(entries_describe(entries, olds, n_adaptors));
        } else {
            assert(pushed[j] == e);
        }
    }

    assert forall|j: int| 0 <= j < pushed.len() implies {
        let ej = #[trigger] pushed[j];
        let cn = ej.content_name@;
        let mn = manifest_name_for(cn);
        &&& (entry_success(ej) ==> !cur.contains_name(cn) && !cur.contains_name(mn))
        &&& (!entry_success(ej) ==> cur.contains_name(cn) && cur.data_of(cn) == olds.data_of(cn)
            && cur.contains_name(mn) && cur.data_of(mn) == olds.data_of(mn))
    } by {
        if j < entries.len() {
            assert(pushed[j] == entries[j]);
            let ej = entries[j];
            let cn = ej.content_name@;
            let mn = manifest_name_for(cn);
            assert(cn != mv && cn != cv && mn != mv && mn != cv);
            if entry_success(e) {
                assert(cur.contains_name(cn) == pre.contains_name(cn));
                assert(cur.contains_name(mn) == pre.contains_name(mn));
                assert(pre.contains_name(cn) ==> cur.data_of(cn) == pre.data_of(cn));
                assert(pre.contains_name(mn) ==> cur.data_of(mn) == pre.data_of(mn));
            } else {
                assert(cur == pre);
            }
        } else {
            assert(pushed[j] == e);
            if !entry_success(e) {
                assert(cur == pre);
            }
        }
    }

    assert forall|n: Seq<char>| !removed_by(pushed, n) implies #[trigger] cur.contains_name(n)
        == olds.contains_name(n) && (olds.contains_name(n) ==> cur.data_of(n) == olds.data_of(
        n,
    )) by {
        assert(!removed_by(entries, n)) by {
            if removed_by(entries, n) {
                let j = choose|j: int|
                    0 <= j < entries.len() && entry_success(entries[j]) && (n
                        == entries[j].content_name@ || n == manifest_name_for(
                        entries[j].content_name@,
                    ));
                assert(pushed[j] == entries[j]);
                assert(removed_by(pushed, n));
            }
        }
        if entry_success(e) {
            assert(n != cv && n != mv) by {
                if n == cv || n == mv {
                    assert(pushed[pushed.len() - 1] == e);
                    assert(removed_by(pushed, n));
                }
            }
            assert(cur.contains_name(n) == pre.contains_name(n));
            assert(pre.contains_name(n) ==> cur.data_of(n) == pre.data_of(n));
        } else {
            assert(cur == pre);
        }
    }

    assert forall|idx: int|
        0 <= idx < k + 1 && manifest_ready(olds, #[trigger] names_view[idx]) implies exists|j: int|
        0 <= j < pushed.len() && (#[trigger] pushed[j]).content_name@ == content_name_of(
            names_view[idx],
        ) by {
        if idx < k {
            let j = choose|j: int|
                0 <= j < entries.len() && entries[j].content_name@ == content_name_of(
                    names_view[idx],
                );
            assert(pushed[j] == entries[j]);
            assert(0 <= j < pushed.len() && pushed[j].content_name@ == content_name_of(
                names_view[idx],
            ));
        } else {
            assert(pushed[pushed.len() - 1] == e);
            assert(pushed[pushed.len() - 1].content_name@ == content_name_of(names_view[k]));
        }
    }
}

/// One processed manifest extends the ordered listing of the report by
/// exactly its own entry.
proof fn lemma_step_some_ordered(
    entries: Seq<ReportEntry>,
    names_view: Seq<Seq<char>>,
    olds: StagingArea,
    e: ReportEntry,
    k: int,
)
    requires
        entries_ordered(entries, names_view, olds, k),
        0 <= k < names_view.len(),
        manifest_ready(olds, names_view[k]),
        e.content_name@ == content_name_of(names_view[k]),
    ensures
        entries_ordered(entries.push(e), names_view, olds, k + 1),
{
    reveal(entries_ordered);
    let mv = names_view[k];
    let pushed = entries.push(e);
    assert(names_view.take(k + 1) =~= names_view.take(k).push(mv));
    lemma_ready_push(names_view.take(k), mv, olds);
    let f = |j: int, en: ReportEntry| en.content_name@;
    let g = |j: int, mn: Seq<char>| content_name_of(mn);
    assert(pushed.map(f) =~= entries.map(f).push(e.content_name@));
    assert(ready_names(names_view.take(k + 1), olds) =~= ready_names(
        names_view.take(k),
        olds,
    ).push(mv));
    assert(ready_names(names_view.take(k + 1), olds).map(g) =~= ready_names(
        names_view.take(k),
        olds,
    ).map(g).push(content_name_of(mv)));
}

/// What the selected listing satisfies: distinct, processable names
/// that cover every processable name of the staging area.
proof fn lemma_selection_facts(olds: StagingArea, names_view: Seq<Seq<char>>)
    requires
        olds.wf(),
        names_view == processable_names(olds.names()),
    ensures
        names_ok(names_view),
        forall|mn: Seq<char>|
            is_processable_name(mn) && olds.contains_name(mn) ==> names_view.contains(mn),
{
    reveal(names_ok);
    lemma_processable_membership(olds.names());
    lemma_processable_distinct(olds.names());
    assert forall|idx: int| 0 <= idx < names_view.len() implies is_processable_name(
        #[trigger] names_view[idx],
    ) by {
        assert(processable_names(olds.names()).contains(names_view[idx]));
    }
    assert forall|mn: Seq<char>|
        is_processable_name(mn) && olds.contains_name(mn) implies names_view.contains(mn) by {
        let k = olds.index_of(mn);
        assert(olds.entries()[k].0 == mn);
        assert(olds.names()[k] == mn);
        assert(olds.names().contains(mn));
    }
}

/// Once the whole listing is visited, prefix completeness becomes
/// completeness over every processable manifest of the original state.
proof fn lemma_final_complete(
    entries: Seq<ReportEntry>,
    names_view: Seq<Seq<char>>,
    olds: StagingArea,
)
    requires
        prefix_complete(entries, names_view, olds, names_view.len() as int),
        forall|mn: Seq<char>|
            is_processable_name(mn) && olds.contains_name(mn) ==> names_view.contains(mn),
    ensures
        forall|mn: Seq<char>|
            is_processable_name(mn) && manifest_ready(olds, mn) ==> exists|j: int|
                0 <= j < entries.len() && (#[trigger] entries[j]).content_name@ == content_name_of(
                    mn,
                ),
{
    reveal(prefix_complete);
    assert forall|mn: Seq<char>|
        is_processable_name(mn) && manifest_ready(olds, mn) implies exists|j: int|
        0 <= j < entries.len() && (#[trigger] entries[j]).content_name@ == content_name_of(
            mn,
        ) by {
        assert(olds.contains_name(mn));
        assert(names_view.contains(mn));
        let idx = choose|idx: int| 0 <= idx < names_view.len() && names_view[idx] == mn;
        assert(manifest_ready(olds, names_view[idx]));
    }
}

/// The empty report satisfies the orchestrator's bookkeeping trivially.
proof fn lemma_initial_bookkeeping(olds: StagingArea, cur: StagingArea, n_adaptors: int)
    requires
        cur == olds,
    ensures
        entries_link(Seq::<ReportEntry>::empty(), processable_names(olds.names()), 0),
        entries_describe(Seq::<ReportEntry>::empty(), olds, n_adaptors),
        entries_deletion(Seq::<ReportEntry>::empty(), olds, cur),
        frame_holds(Seq::<ReportEntry>::empty(), olds, cur),
        prefix_complete(Seq::<ReportEntry>::empty(), processable_names(olds.names()), olds, 0),
        entries_ordered(Seq::<ReportEntry>::empty(), processable_names(olds.names()), olds, 0),
{
    reveal(entries_ordered);
    assert(processable_names(olds.names()).take(0) =~= Seq::<Seq<char>>::empty());
    assert(Seq::<ReportEntry>::empty().map(|j: int, e: ReportEntry| e.content_name@)
        =~= ready_names(Seq::<Seq<char>>::empty(), olds).map(
        |j: int, mn: Seq<char>| content_name_of(mn),
    ));
    reveal(entries_link);
    reveal(entries_describe);
    reveal(entries_deletion);
    reveal(frame_holds);
    reveal(prefix_complete);
    assert forall|n: Seq<char>|
        !removed_by(Seq::<ReportEntry>::empty(), n) implies #[trigger] cur.contains_name(n)
        == olds.contains_name(n) && (olds.contains_name(n) ==> cur.data_of(n) == olds.data_of(
        n,
    )) by {}
}

/// Drains the staging area against every configured adaptor.
///
/// Each manifest in the listing is deserialized and handed to every
/// adaptor independently (dedup check first, then uploads up to the
/// retry ceiling); its content and manifest files are deleted exactly
/// when every adaptor confirmed, so a half-uploaded entry is retained in
/// full for the next run; and one entry per processed manifest is
/// accumulated, in listing order. One file's corruption or failure never
/// aborts the run.
#[verifier::rlimit(100)]
#[verifier::spinoff_prover]
pub fn upload_from_staged<A: StorageAdaptor>(
    staged: &mut StagingArea,
    adaptors: &Vec<A>,
) -> (report: UploadReport)
    requires
        old(staged).wf(),
    ensures
        final(staged).wf(),
        entries_describe(report.entries@, *old(staged), adaptors@.len() as int),
        entries_deletion(report.entries@, *old(staged), *final(staged)),
        frame_holds(report.entries@, *old(staged), *final(staged)),
        forall|mn: Seq<char>|
            is_processable_name(mn) && manifest_ready(*old(staged), mn) ==> exists|j: int|
                0 <= j < report.entries@.len() && (#[trigger] report.entries@[j]).content_name@
                    == content_name_of(mn),
        report.entries@.map(|j: int, e: ReportEntry| e.content_name@) == ready_manifests(
            *old(staged),
        ).map(|j: int, mn: Seq<char>| content_name_of(mn)),
{
    let ghost olds = *old(staged);
    let names = select_manifest_names(staged);
    let ghost names_view = names@.map(|i: int, s: String| s@);
    proof {
        assert(names_view == processable_names(olds.names()));
        lemma_selection_facts(olds, names_view);
    }
    let mut report = UploadReport::new();
    let mut k: usize = 0;
    proof {
        lemma_initial_bookkeeping(olds, *staged, adaptors@.len() as int);
        assert(report.entries@ =~= Seq::<ReportEntry>::empty());
    }
    while k < names.len()
        invariant
            staged.wf(),
            0 <= k <= names@.len(),
            names_view == names@.map(|i: int, s: String| s@),
            names_ok(names_view),
            forall|mn: Seq<char>|
                is_processable_name(mn) && olds.contains_name(mn) ==> names_view.contains(mn),
            entries_link(report.entries@, names_view, k as int),
            entries_describe(report.entries@, olds, adaptors@.len() as int),
            entries_deletion(report.entries@, olds, *staged),
            frame_holds(report.entries@, olds, *staged),
            prefix_complete(report.entries@, names_view, olds, k as int),
            entries_ordered(report.entries@, names_view, olds, k as int),
        decreases names@.len() - k,
    {
        let manifest_name = &names[k];
        let ghost mv = names_view[k as int];
        let ghost pre = *staged;
        let ghost pre_entries = report.entries@;
        proof {
            assert(mv == manifest_name@);
            assert(is_manifest_name(mv)) by {
                reveal(names_ok);
            }
        }
        let outcome = process_entry(staged, manifest_name, adaptors);
        match outcome {
            None => {
                proof {
                    lemma_step_none(pre_entries, names_view, olds, pre, k as int);
                }
            },
            Some(e) => {
                let ghost ev = e;
                report.record_activity(e);
                proof {
                    lemma_step_some(
                        pre_entries,
                        names_view,
                        olds,
                        pre,
                        *staged,
                        ev,
                        k as int,
                        adaptors@.len() as int,
                    );
                    lemma_step_some_ordered(pre_entries, names_view, olds, ev, k as int);
                    assert(report.entries@ == pre_entries.push(ev));
                }
            },
        }
        k += 1;
    }
    proof {
        lemma_final_complete(report.entries@, names_view, olds);
        reveal(entries_ordered);
        assert(names_view.take(names_view.len() as int) =~= names_view);
    }
    report
}

} // verus!
