//! The template context the web interface renders pages from: a plain
//! record built up with chained setters.

use vstd::prelude::*;

verus! {

/// A signed-in user, as the page sees them.
#[derive(Debug)]
pub struct WebUser {
    pub email: String,
}

/// A device row of the signed-in user.
#[derive(Debug)]
pub struct Device {
    pub id: i32,
    pub name: String,
}

/// An API key row of the signed-in user.
#[derive(Debug)]
pub struct Key {
    pub id: i32,
}

/// One storage integration the user could connect, and whether they
/// have.
#[derive(Debug)]
pub struct PossibleIntegration {
    pub id: Option<i32>,
    pub name: String,
    pub display_name: String,
    pub connected: bool,
}

/// Everything a page render needs.
#[derive(Debug)]
pub struct Context {
    pub user: Option<WebUser>,
    pub signin_error: Option<String>,
    pub integrations: Vec<PossibleIntegration>,
    pub devices: Vec<Device>,
    pub keys: Vec<Key>,
    pub integration_message: Option<(String, String)>,
}

impl Default for Context {
    /// The empty context: no user, no rows, no messages.
    fn default() -> (r: Self)
        ensures
            r.user is None,
            r.signin_error is None,
            r.integrations@.len() == 0,
            r.devices@.len() == 0,
            r.keys@.len() == 0,
            r.integration_message is None,
    {
        Context {
            user: None,
            signin_error: None,
            integrations: Vec::new(),
            devices: Vec::new(),
            keys: Vec::new(),
            integration_message: None,
        }
    }
}

impl Context {
    /// Replaces the sign-in error; everything else is kept.
    pub fn set_signin_error(self, signin_error: Option<String>) -> (r: Self)
        ensures
            r.signin_error == signin_error,
            r.user == self.user,
            r.integrations == self.integrations,
            r.devices == self.devices,
            r.keys == self.keys,
            r.integration_message == self.integration_message,
    {
        let mut c = self;
        c.signin_error = signin_error;
        c
    }

    /// Replaces the user; everything else is kept.
    pub fn set_user(self, user: Option<WebUser>) -> (r: Self)
        ensures
            r.user == user,
            r.signin_error == self.signin_error,
            r.integrations == self.integrations,
            r.devices == self.devices,
            r.keys == self.keys,
            r.integration_message == self.integration_message,
    {
        let mut c = self;
        c.user = user;
        c
    }

    /// Replaces the integrations; everything else is kept.
    pub fn set_integrations(self, integrations: Vec<PossibleIntegration>) -> (r: Self)
        ensures
            r.integrations == integrations,
            r.user == self.user,
            r.signin_error == self.signin_error,
            r.devices == self.devices,
            r.keys == self.keys,
            r.integration_message == self.integration_message,
    {
        let mut c = self;
        c.integrations = integrations;
        c
    }

    /// Replaces the devices; everything else is kept.
    pub fn set_devices(self, devices: Vec<Device>) -> (r: Self)
        ensures
            r.devices == devices,
            r.user == self.user,
            r.signin_error == self.signin_error,
            r.integrations == self.integrations,
            r.keys == self.keys,
            r.integration_message == self.integration_message,
    {
        let mut c = self;
        c.devices = devices;
        c
    }

    /// Replaces the keys; everything else is kept.
    pub fn set_keys(self, keys: Vec<Key>) -> (r: Self)
        ensures
            r.keys == keys,
            r.user == self.user,
            r.signin_error == self.signin_error,
            r.integrations == self.integrations,
            r.devices == self.devices,
            r.integration_message == self.integration_message,
    {
        let mut c = self;
        c.keys = keys;
        c
    }

    /// Replaces the flash message; everything else is kept.
    pub fn set_integration_message(self, integration_message: Option<(String, String)>) -> (r:
        Self)
        ensures
            r.integration_message == integration_message,
            r.user == self.user,
            r.signin_error == self.signin_error,
            r.integrations == self.integrations,
            r.devices == self.devices,
            r.keys == self.keys,
    {
        let mut c = self;
        c.integration_message = integration_message;
        c
    }
}

} // verus!
