//! The upload report: per-file, per-backend outcomes accumulated in
//! arrival order, and a pure rendering to human-readable text, so the
//! same report value can be printed and mailed without re-running the
//! upload.

use vstd::prelude::*;
use vstd::string::StringExecFns;
use crate::manifest::UploadDescriptor;

verus! {

/// The outcome of one adaptor's work on one staged entry.
#[derive(Debug)]
pub enum UploadStatus {
    /// The backend already held content with this fingerprint; nothing
    /// was transferred.
    AlreadyUploaded,
    /// An upload attempt within the retry ceiling succeeded.
    Succeeded,
    /// Every attempt failed; the last error is kept.
    Errored(String),
}

/// A status that counts towards full success of an entry.
pub open spec fn status_ok(s: UploadStatus) -> bool {
    s is AlreadyUploaded || s is Succeeded
}

/// The outcomes of all adaptors for one staged entry.
#[derive(Debug)]
pub struct ReportEntry {
    /// The descriptor the manifest deserialized to.
    pub descriptor: UploadDescriptor,
    /// The staging-area name of the content file.
    pub content_name: String,
    /// One (adaptor name, outcome) pair per configured adaptor.
    pub results: Vec<(String, UploadStatus)>,
}

/// An entry is fully successful when every adaptor either already held
/// the content or uploaded it.
pub open spec fn entry_success(e: ReportEntry) -> bool {
    forall|i: int| 0 <= i < e.results@.len() ==> status_ok(#[trigger] e.results@[i].1)
}

impl ReportEntry {
    pub fn new(descriptor: UploadDescriptor, content_name: String, results: Vec<(String, UploadStatus)>) -> (r: Self)
        ensures
            r.descriptor == descriptor,
            r.content_name == content_name,
            r.results == results,
    {
        ReportEntry { descriptor, content_name, results }
    }

    /// Decides whether every adaptor confirmed this entry.
    pub fn is_success(&self) -> (r: bool)
        ensures
            r == entry_success(*self),
    {
        let mut i: usize = 0;
        while i < self.results.len()
            invariant
                0 <= i <= self.results@.len(),
                forall|j: int| 0 <= j < i ==> status_ok(#[trigger] self.results@[j].1),
            decreases self.results@.len() - i,
        {
            match &self.results[i].1 {
                UploadStatus::Errored(_) => {
                    return false;
                },
                _ => {},
            }
            i += 1;
        }
        true
    }
}

/// The decimal digit character of a value below ten.
pub open spec fn dec_digit(n: int) -> char
    recommends
        0 <= n < 10,
{
    (48 + n) as char
}

/// The decimal rendering of a number, most significant digit first.
pub open spec fn dec_chars(n: nat) -> Seq<char>
    decreases n,
{
    if n < 10 {
        seq![dec_digit(n as int)]
    } else {
        dec_chars(n / 10) + seq![dec_digit((n % 10) as int)]
    }
}

/// Renders a number in decimal.
pub fn u64_to_dec(n: u64) -> (r: String)
    ensures
        r@ == dec_chars(n as nat),
{
    let mut front: Vec<char> = Vec::new();
    let mut m: u64 = n;
    while m >= 10
        invariant
            dec_chars(n as nat) == dec_chars(m as nat) + front@,
        decreases m,
    {
        let d: char = (48 + (m % 10) as u8) as char;
        proof {
            assert(d == dec_digit((m as nat % 10) as int));
            assert(dec_chars(m as nat) == dec_chars(m as nat / 10) + seq![d]);
            assert(dec_chars(m as nat / 10) + (seq![d] + front@) =~= (dec_chars(m as nat / 10)
                + seq![d]) + front@);
            assert((m / 10) as nat == m as nat / 10);
        }
        front.insert(0, d);
        m = m / 10;
    }
    let d: char = (48 + m as u8) as char;
    proof {
        assert(d == dec_digit(m as int));
        assert(dec_chars(m as nat) == seq![d]);
        assert(seq![d] + front@ =~= dec_chars(m as nat) + front@);
    }
    front.insert(0, d);
    crate::manifest::string_from_chars(&front)
}

/// The text of one outcome.
pub open spec fn render_status(s: UploadStatus) -> Seq<char> {
    match s {
        UploadStatus::AlreadyUploaded => "already uploaded"@,
        UploadStatus::Succeeded => "succeeded"@,
        UploadStatus::Errored(e) => "errored: "@ + e@,
    }
}

/// The line for one adaptor's outcome.
pub open spec fn render_result(t: (String, UploadStatus)) -> Seq<char> {
    "  "@ + t.0@ + ": "@ + render_status(t.1) + "\n"@
}

/// The lines for all adaptor outcomes of one entry.
pub open spec fn render_results(rs: Seq<(String, UploadStatus)>) -> Seq<char>
    decreases rs.len(),
{
    if rs.len() == 0 {
        Seq::empty()
    } else {
        render_result(rs[0]) + render_results(rs.skip(1))
    }
}

/// The section for one entry: the source file, then each outcome.
pub open spec fn render_entry(e: ReportEntry) -> Seq<char> {
    e.descriptor.device_name@ + "/"@ + e.descriptor.relative_path@ + "\n"@ + render_results(
        e.results@,
    )
}

/// The sections for all entries, in arrival order.
pub open spec fn render_entries(es: Seq<ReportEntry>) -> Seq<char>
    decreases es.len(),
{
    if es.len() == 0 {
        Seq::empty()
    } else {
        render_entry(es[0]) + render_entries(es.skip(1))
    }
}

/// How many entries are fully successful.
pub open spec fn count_successes(es: Seq<ReportEntry>) -> nat
    decreases es.len(),
{
    if es.len() == 0 {
        0
    } else {
        count_successes(es.drop_last()) + if entry_success(es.last()) {
            1nat
        } else {
            0nat
        }
    }
}

/// The whole report: a heading, one section per entry, and a trailing
/// summary of how many entries were fully successful.
pub open spec fn render_report(r: UploadReport) -> Seq<char> {
    "Upload report:\n"@ + render_entries(r.entries@) + "entries: "@ + dec_chars(
        r.entries@.len(),
    ) + ", fully successful: "@ + dec_chars(count_successes(r.entries@)) + "\n"@
}

/// The outcomes of one run, one entry per staged manifest processed.
#[derive(Debug)]
pub struct UploadReport {
    pub entries: Vec<ReportEntry>,
}

impl Default for UploadReport {
    /// An empty report.
    fn default() -> (r: Self)
        ensures
            r.entries@.len() == 0,
    {
        UploadReport { entries: Vec::new() }
    }
}

impl UploadReport {
    pub fn new() -> (r: Self)
        ensures
            r.entries@.len() == 0,
    {
        UploadReport { entries: Vec::new() }
    }

    /// Appends one entry; arrival order is kept.
    pub fn record_activity(&mut self, e: ReportEntry)
        ensures
            final(self).entries@ == old(self).entries@.push(e),
    {
        self.entries.push(e);
    }

    /// Renders the report; the result is a function of the report value
    /// alone, so rendering does no I/O and can be repeated at will.
    pub fn to_plaintext(&self) -> (r: String)
        ensures
            r@ == render_report(*self),
    {
        let mut out = String::new();
        out.append("Upload report:\n");
        let mut i: usize = 0;
        proof {
            assert(self.entries@.take(0) =~= Seq::<ReportEntry>::empty());
            assert(out@ =~= "Upload report:\n"@ + render_entries(self.entries@.take(0)));
        }
        while i < self.entries.len()
            invariant
                0 <= i <= self.entries@.len(),
                out@ == "Upload report:\n"@ + render_entries(self.entries@.take(i as int)),
            decreases self.entries@.len() - i,
        {
            let e = &self.entries[i];
            out.append(e.descriptor.device_name.as_str());
            out.append("/");
            out.append(e.descriptor.relative_path.as_str());
            out.append("\n");
            let mut j: usize = 0;
            proof {
                assert(e.results@.take(0) =~= Seq::<(String, UploadStatus)>::empty());
                assert(out@ =~= "Upload report:\n"@ + render_entries(self.entries@.take(i as int))
                    + (e.descriptor.device_name@ + "/"@ + e.descriptor.relative_path@ + "\n"@
                    + render_results(e.results@.take(0))));
            }
            while j < e.results.len()
                invariant
                    0 <= j <= e.results@.len(),
                    e == &self.entries@[i as int],
                    0 <= i < self.entries@.len(),
                    out@ == "Upload report:\n"@ + render_entries(self.entries@.take(i as int)) + (
                    e.descriptor.device_name@ + "/"@ + e.descriptor.relative_path@ + "\n"@
                        + render_results(e.results@.take(j as int))),
                decreases e.results@.len() - j,
            {
                out.append("  ");
                out.append(e.results[j].0.as_str());
                out.append(": ");
                match &e.results[j].1 {
                    UploadStatus::AlreadyUploaded => {
                        out.append("already uploaded");
                    },
                    UploadStatus::Succeeded => {
                        out.append("succeeded");
                    },
                    UploadStatus::Errored(msg) => {
                        out.append("errored: ");
                        out.append(msg.as_str());
                    },
                }
                out.append("\n");
                proof {
                    lemma_render_results_push(e.results@.take(j as int), e.results@[j as int]);
                    assert(e.results@.take(j + 1) =~= e.results@.take(j as int).push(
                        e.results@[j as int],
                    ));
                    assert(out@ =~= "Upload report:\n"@ + render_entries(
                        self.entries@.take(i as int),
                    ) + (e.descriptor.device_name@ + "/"@ + e.descriptor.relative_path@ + "\n"@
                        + render_results(e.results@.take(j + 1))));
                }
                j += 1;
            }
            proof {
                assert(e.results@.take(e.results@.len() as int) =~= e.results@);
                lemma_render_entries_push(self.entries@.take(i as int), self.entries@[i as int]);
                assert(self.entries@.take(i + 1) =~= self.entries@.take(i as int).push(
                    self.entries@[i as int],
                ));
                assert(out@ =~= "Upload report:\n"@ + render_entries(self.entries@.take(i + 1)));
            }
            i += 1;
        }
        proof {
            assert(self.entries@.take(self.entries@.len() as int) =~= self.entries@);
        }
        let successes = self.count_successes_exec();
        out.append("entries: ");
        let total = u64_to_dec(self.entries.len() as u64);
        out.append(total.as_str());
        out.append(", fully successful: ");
        let succ = u64_to_dec(successes as u64);
        out.append(succ.as_str());
        out.append("\n");
        proof {
            assert(out@ =~= render_report(*self));
        }
        out
    }

    /// Counts the fully successful entries.
    fn count_successes_exec(&self) -> (r: usize)
        ensures
            r == count_successes(self.entries@),
    {
        let mut r: usize = 0;
        let mut i: usize = 0;
        proof {
            assert(self.entries@.take(0) =~= Seq::<ReportEntry>::empty());
        }
        while i < self.entries.len()
            invariant
                0 <= i <= self.entries@.len(),
                r == count_successes(self.entries@.take(i as int)),
                r <= i,
            decreases self.entries@.len() - i,
        {
            if self.entries[i].is_success() {
                r += 1;
            }
            proof {
                let pre = self.entries@.take(i as int);
                let post = self.entries@.take(i + 1);
                assert(post.drop_last() =~= pre);
                assert(post.last() == self.entries@[i as int]);
            }
            i += 1;
        }
        proof {
            assert(self.entries@.take(self.entries@.len() as int) =~= self.entries@);
        }
        r
    }
}

/// Appending one result extends the rendering by its line.
proof fn lemma_render_results_push(rs: Seq<(String, UploadStatus)>, t: (String, UploadStatus))
    ensures
        render_results(rs.push(t)) == render_results(rs) + render_result(t),
    decreases rs.len(),
{
    if rs.len() == 0 {
        assert(rs.push(t)[0] == t);
        assert(rs.push(t).skip(1) =~= Seq::<(String, UploadStatus)>::empty());
        assert(render_results(rs.push(t)) == render_result(t) + render_results(
            Seq::<(String, UploadStatus)>::empty(),
        ));
        assert(render_results(rs.push(t)) =~= render_results(rs) + render_result(t));
    } else {
        assert(rs.push(t)[0] == rs[0]);
        assert(rs.push(t).skip(1) =~= rs.skip(1).push(t));
        assert(render_results(rs.push(t)) == render_result(rs[0]) + render_results(
            rs.skip(1).push(t),
        ));
        lemma_render_results_push(rs.skip(1), t);
        assert(render_results(rs.push(t)) =~= render_results(rs) + render_result(t));
    }
}

/// Appending one entry extends the rendering by its section.
proof fn lemma_render_entries_push(es: Seq<ReportEntry>, e: ReportEntry)
    ensures
        render_entries(es.push(e)) == render_entries(es) + render_entry(e),
    decreases es.len(),
{
    if es.len() == 0 {
        assert(es.push(e)[0] == e);
        assert(es.push(e).skip(1) =~= Seq::<ReportEntry>::empty());
        assert(render_entries(es.push(e)) == render_entry(e) + render_entries(
            Seq::<ReportEntry>::empty(),
        ));
        assert(render_entries(es.push(e)) =~= render_entries(es) + render_entry(e));
    } else {
        assert(es.push(e)[0] == es[0]);
        assert(es.push(e).skip(1) =~= es.skip(1).push(e));
        assert(render_entries(es.push(e)) == render_entry(es[0]) + render_entries(
            es.skip(1).push(e),
        ));
        lemma_render_entries_push(es.skip(1), e);
        assert(render_entries(es.push(e)) =~= render_entries(es) + render_entry(e));
    }
}

/// Law: rendering is pure. The text is a function of the report value
/// alone, so rendering the same report twice yields identical text.
pub proof fn lemma_render_pure(a: UploadReport, b: UploadReport)
    requires
        a == b,
    ensures
        render_report(a) == render_report(b),
{
}

} // verus!
