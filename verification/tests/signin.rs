use lc_client::signin::{
    machine_label, panel, Press, return_to, state_text, Broker, Effect, Form, Identity, Keep, Report, Request,
    Session, Shown, Signin,
};

fn broker() -> Broker {
    Broker { base: "https://accounts.example".to_string(), shard: "shard-1".to_string() }
}

fn ada() -> Identity {
    Identity { account_id: "a".to_string(), display_name: "Ada".to_string() }
}

fn with(session: Session) -> Signin {
    let mut signin = Signin::new(Some(broker()));
    signin.session = session;
    signin
}

#[test]
fn no_broker_means_no_sign_in_is_required() {
    let signin = Signin::new(None);
    assert!(signin.may_observe());
}

#[test]
fn a_configured_broker_means_signing_in_first() {
    assert!(!with(Session::SignedOut).may_observe());
    assert!(!with(Session::Working).may_observe());
    assert!(!with(Session::Failed("no".to_string())).may_observe());
    assert!(with(Session::SignedIn(ada())).may_observe());
}

#[test]
fn the_modal_is_rebuilt_only_when_its_contents_change() {
    let signed_out = Shown::of(&Session::SignedOut, false);
    assert_eq!(signed_out, Shown::of(&Session::SignedOut, false), "the same state differs");

    assert_ne!(signed_out, Shown::of(&Session::SignedOut, true));
    assert_ne!(signed_out, Shown::of(&Session::Working, false));
    assert_ne!(
        Shown::of(&Session::Failed("one".to_string()), false),
        Shown::of(&Session::Failed("another".to_string()), false),
        "a different message must redraw",
    );
    assert_ne!(
        Shown::of(&Session::SignedIn(ada()), false),
        Shown::of(
            &Session::SignedIn(Identity { account_id: "a".to_string(), display_name: "Grace".to_string() }),
            false,
        ),
    );
}

#[test]
fn the_form_owns_the_screen_whatever_the_session_says() {
    for session in [Session::SignedOut, Session::Working, Session::Failed("x".to_string())] {
        assert_eq!(Shown::of(&session, true), Shown::Backdrop);
    }
}

#[test]
fn the_modal_shows_what_the_session_holds() {
    assert_eq!(Shown::of(&Session::SignedOut, false), Shown::Choice);
    assert_eq!(Shown::of(&Session::Working, false), Shown::Working);
    assert_eq!(
        Shown::of(&Session::Waiting { url: "http://x".to_string() }, false),
        Shown::Waiting("http://x".to_string())
    );
    assert_eq!(Shown::of(&Session::SignedIn(ada()), false), Shown::SignedIn("Ada".to_string()));
}

#[test]
fn a_broker_needs_both_settings_and_an_address() {
    assert!(Broker::configured(Some("https://b".to_string()), Some("s".to_string())).is_some());
    assert!(Broker::configured(Some(String::new()), Some("s".to_string())).is_none());
    assert!(Broker::configured(None, Some("s".to_string())).is_none());
    assert!(Broker::configured(Some("https://b".to_string()), None).is_none());
}

#[test]
fn only_a_refusal_clears_the_vault() {
    let mut signin = with(Session::Working);
    signin.grant = Some("g".to_string());
    assert_eq!(signin.collect(Report::Failed("down".to_string())), Keep::Leave);
    assert_eq!(signin.grant.as_deref(), Some("g"));
    assert!(matches!(&signin.session, Session::Failed(why) if why == "down"));

    assert_eq!(signin.collect(Report::Rejected), Keep::Clear);
    assert!(signin.grant.is_none());
    assert!(matches!(signin.session, Session::SignedOut));

    let kept = signin.collect(Report::Granted { grant: "new".to_string(), identity: ada() });
    assert_eq!(kept, Keep::Write("new".to_string()));
    assert_eq!(signin.grant.as_deref(), Some("new"));
    assert!(signin.may_observe());
}

#[test]
fn a_stored_grant_is_traded_only_with_a_broker() {
    let mut offline = Signin::new(None);
    assert!(!offline.resume(Some("g".to_string())));
    assert!(offline.grant.is_none());

    let mut signin = with(Session::SignedOut);
    assert!(!signin.resume(None));
    assert!(signin.resume(Some("g".to_string())));
    assert!(matches!(signin.session, Session::Working));
    assert_eq!(signin.grant.as_deref(), Some("g"));
}

#[test]
fn each_request_does_what_the_modal_offers() {
    let mut signin = with(Session::Failed("x".to_string()));
    assert_eq!(signin.handle(Request::SignIn), Effect::Begin);
    assert_eq!(signin.handle(Request::CancelSignIn), Effect::MenuRoot);
    assert!(matches!(signin.session, Session::SignedOut));
    signin.grant = Some("g".to_string());
    assert_eq!(signin.handle(Request::SignOut), Effect::ClearVault);
    assert!(signin.grant.is_none());
    assert_eq!(signin.handle(Request::SignInWithPassword), Effect::Nothing);
    assert!(signin.form.is_some());
    signin.cancel_form();
    assert!(signin.form.is_none());
}

#[test]
fn a_browser_sign_in_waits_then_redeems() {
    let mut signin = with(Session::SignedOut);
    signin.begun(Err("port in use".to_string()));
    assert!(matches!(&signin.session, Session::Failed(m) if m == "could not listen for the answer: port in use"));
    signin.begun(Ok("https://accounts.example/go".to_string()));
    assert!(matches!(&signin.session, Session::Waiting { url } if url == "https://accounts.example/go"));
    assert_eq!(signin.answered(Ok("code".to_string())), Some("code".to_string()));
    assert!(matches!(signin.session, Session::Working));
    // Nothing is waiting any more, so a second answer changes nothing.
    assert_eq!(signin.answered(Ok("again".to_string())), None);
    assert!(matches!(signin.session, Session::Working));

    let mut bad = with(Session::Waiting { url: "u".to_string() });
    assert_eq!(bad.answered(Err("Closed".to_string())), None);
    assert!(matches!(&bad.session, Session::Failed(m) if m == "that sign-in did not come back right: Closed"));
}

#[test]
fn a_password_form_is_sent_once_and_names_a_new_account() {
    let mut form = Form::new();
    assert!(!form.ready());
    form.email = "  ".to_string();
    form.password = "p".to_string();
    assert!(!form.ready(), "white space is no address");
    form.email = " a@b ".to_string();
    assert!(form.ready());
    assert_eq!(form.register_as(), None);
    form.registering = true;
    assert_eq!(form.register_as().as_deref(), Some("Traveler"));
    form.display_name = "  Ada  ".to_string();
    assert_eq!(form.register_as().as_deref(), Some("Ada"));

    let mut signin = with(Session::SignedOut);
    assert!(signin.submit().is_none(), "no form is open");
    signin.form = Some(form);
    let ask = signin.submit().expect("a form and a broker");
    assert_eq!(ask.email, " a@b ");
    assert_eq!(ask.password, "p");
    assert_eq!(ask.register_as.as_deref(), Some("Ada"));
    assert!(signin.form.is_none());
    assert!(matches!(signin.session, Session::Working));
}

#[test]
fn the_machine_is_named_for_a_revocation_list() {
    assert_eq!(machine_label(Some("deck".to_string())), "deck");
    assert_eq!(machine_label(Some(String::new())), "a desktop");
    assert_eq!(machine_label(None), "a desktop");
}

#[test]
fn the_browser_returns_to_the_loopback() {
    assert_eq!(return_to(48213, "/done"), "http://127.0.0.1:48213/done");
}

#[test]
fn the_state_is_two_hashes_in_hexadecimal() {
    let s = state_text(0x0123_4567_89ab_cdef, 0xff);
    assert_eq!(s, format!("{:016x}{:016x}", 0x0123_4567_89ab_cdefu64, 0xffu64));
    assert_eq!(s, "0123456789abcdef00000000000000ff");
}

#[test]
fn the_panel_says_what_each_step_offers() {
    assert!(panel(&Shown::Backdrop).is_none());
    let choice = panel(&Shown::Choice).unwrap();
    assert_eq!(choice.messages, vec!["Observing needs an account."]);
    assert_eq!(
        choice.buttons,
        vec![("Sign in with a browser", Press::SignIn), ("Use a password", Press::UsePassword), ("Back", Press::Back)]
    );
    let signed_in = panel(&Shown::SignedIn("Ada".to_string())).unwrap();
    assert_eq!(signed_in.messages, vec!["Signed in as Ada."]);
    assert_eq!(signed_in.buttons, vec![("Observe", Press::Observe), ("Sign out", Press::SignOut)]);
    let waiting = panel(&Shown::Waiting("https://b/x".to_string())).unwrap();
    assert_eq!(waiting.messages, vec!["Finish signing in with your browser.", "https://b/x"]);
    assert_eq!(panel(&Shown::Working).unwrap().buttons, vec![]);
    let failed = panel(&Shown::Failed("down".to_string())).unwrap();
    assert_eq!(failed.buttons, vec![("Try again", Press::SignIn), ("Back", Press::Back)]);
}
