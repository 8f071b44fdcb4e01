//! The Notify capability: a push-notification collaborator the pipeline
//! talks to. The transport is implemented outside the library; an
//! unconfigured notifier trivially succeeds, so the pipeline runs
//! identically with or without one.

use vstd::prelude::*;

verus! {

/// Credentials for the push-notification service.
pub struct PushoverNotifier {
    pub token: String,
    pub recipient: String,
}

impl PushoverNotifier {
    pub fn new(token: String, recipient: String) -> (r: PushoverNotifier)
        ensures
            r.token == token,
            r.recipient == recipient,
    {
        PushoverNotifier { token, recipient }
    }
}

/// What every notifier implements.
pub trait Notify {
    fn notify(&self, msg: &str) -> Result<(), String>;
}

/// An unconfigured notifier: doing nothing counts as success, so the
/// pipeline never fails for want of a notification channel.
impl<T: Notify> Notify for Option<T> {
    fn notify(&self, msg: &str) -> (r: Result<(), String>)
        ensures
            self is None ==> r is Ok,
    {
        match self {
            Some(notifier) => notifier.notify(msg),
            None => Ok(()),
        }
    }
}

} // verus!
