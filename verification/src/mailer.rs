//! The MailReport capability: the mail collaborator that the rendered
//! upload report is handed to. The transport is implemented outside the
//! library; an unconfigured mailer trivially succeeds.

use vstd::prelude::*;

verus! {

/// What every report mailer implements.
pub trait MailReport {
    fn send_report(&self, report: &str) -> Result<String, String>;
}

/// An unconfigured mailer: doing nothing counts as success, with
/// nothing to say for itself.
impl<T: MailReport> MailReport for Option<T> {
    fn send_report(&self, report: &str) -> (r: Result<String, String>)
        ensures
            self is None ==> (r matches Ok(s) && s@ == Seq::<char>::empty()),
    {
        match self {
            Some(mailer) => mailer.send_report(report),
            None => Ok(String::new()),
        }
    }
}

} // verus!
