use archiver::mailer::MailReport;
use archiver::messages::{JsonSignIn, JsonSignInResp};
use archiver::pushover_notifier::{Notify, PushoverNotifier};
use archiver::web_context::{Context, Device, Key, PossibleIntegration, WebUser};

struct RecordingNotifier(std::cell::RefCell<Vec<String>>);

impl Notify for RecordingNotifier {
    fn notify(&self, msg: &str) -> Result<(), String> {
        self.0.borrow_mut().push(msg.to_string());
        Ok(())
    }
}

struct RecordingMailer(std::cell::RefCell<Vec<String>>);

impl MailReport for RecordingMailer {
    fn send_report(&self, report: &str) -> Result<String, String> {
        self.0.borrow_mut().push(report.to_string());
        Ok("queued".to_string())
    }
}

#[test]
fn test_unconfigured_notifier_trivially_succeeds() {
    let none: Option<RecordingNotifier> = None;
    assert_eq!(none.notify("hello"), Ok(()));
}

#[test]
fn test_configured_notifier_is_used() {
    let some = Some(RecordingNotifier(std::cell::RefCell::new(Vec::new())));
    assert_eq!(some.notify("starting upload"), Ok(()));
    assert_eq!(some.unwrap().0.into_inner(), vec!["starting upload".to_string()]);
}

#[test]
fn test_unconfigured_mailer_trivially_succeeds() {
    let none: Option<RecordingMailer> = None;
    assert_eq!(none.send_report("report text"), Ok(String::new()));
}

#[test]
fn test_pushover_notifier_keeps_credentials() {
    let notifier = PushoverNotifier::new("tok".to_string(), "user".to_string());
    assert_eq!(notifier.token, "tok");
    assert_eq!(notifier.recipient, "user");
}

#[test]
fn test_context_setters_build_up_a_render_context() {
    let context = Context::default()
        .set_user(Some(WebUser { email: "pilot@example.org".to_string() }))
        .set_signin_error(None)
        .set_integrations(vec![PossibleIntegration {
            id: Some(1),
            name: "dropbox".to_string(),
            display_name: "Dropbox".to_string(),
            connected: true,
        }])
        .set_devices(vec![Device { id: 4, name: "gopro5".to_string() }])
        .set_keys(vec![Key { id: 9 }])
        .set_integration_message(Some(("success".to_string(), "linked".to_string())));
    assert_eq!(context.user.as_ref().unwrap().email, "pilot@example.org");
    assert!(context.signin_error.is_none());
    assert_eq!(context.integrations.len(), 1);
    assert!(context.integrations[0].connected);
    assert_eq!(context.devices[0].name, "gopro5");
    assert_eq!(context.keys[0].id, 9);
    assert_eq!(context.integration_message.as_ref().unwrap().1, "linked");
}

#[test]
fn test_sign_in_messages_hold_their_fields() {
    let req = JsonSignIn { email: "a@b.c".to_string(), password: "hunter2".to_string() };
    assert_eq!(req.email, "a@b.c");
    let resp = JsonSignInResp { token: Some("t".to_string()), error: None };
    assert_eq!(resp.token.as_deref(), Some("t"));
    assert!(resp.error.is_none());
}
