//! Signing in: what the client holds, what the modal shows of it, and what each report and
//! each request does to it.
//!
//! Sockets, the browser and the vault are the caller's: this module decides, the caller acts
//! and hands back what happened.

use vstd::prelude::*;
use vstd::string::*;
use crate::words::{blank, decimal, decimal_text, is_blank, trim, trimmed};

verus! {

/// Who a grant belongs to.
#[derive(Clone, Debug)]
pub struct Identity {
    pub account_id: String,
    pub display_name: String,
}

/// Where signing in stands.
#[derive(Clone, Debug)]
pub enum Session {
    SignedOut,
    /// The browser has been sent to `url` and the loopback is listening for it.
    Waiting { url: String },
    Working,
    Failed(String),
    SignedIn(Identity),
}

impl Session {
    /// Only an identity will do.
    pub fn is_ready(&self) -> (r: bool)
        ensures
            r == (*self is SignedIn),
    {
        match self {
            Session::SignedIn(_) => true,
            _ => false,
        }
    }
}

/// Where the broker is, and which server tickets are for.
#[derive(Clone, Debug)]
pub struct Broker {
    pub base: String,
    pub shard: String,
}

impl Broker {
    /// The broker the environment names: both settings present and the address not empty.
    pub fn configured(base: Option<String>, shard: Option<String>) -> (r: Option<Broker>)
        ensures
            r is Some <==> (base is Some && shard is Some && base->0@.len() > 0),
            r is Some ==> r->0.base@ == base->0@ && r->0.shard@ == shard->0@,
    {
        match (base, shard) {
            (Some(base), Some(shard)) => {
                if base.as_str().unicode_len() > 0 {
                    Some(Broker { base, shard })
                } else {
                    None
                }
            },
            _ => None,
        }
    }
}

/// What the player has typed into the password form.
#[derive(Clone, Debug)]
pub struct Form {
    pub email: String,
    pub password: String,
    pub display_name: String,
    /// Making an account rather than using one.
    pub registering: bool,
}

/// The name an account is made under: what was typed, trimmed, or `Traveler` for nothing.
pub open spec fn register_name(typed: Seq<char>) -> Seq<char> {
    if blank(typed) { "Traveler"@ } else { trimmed(typed) }
}

impl Form {
    /// An empty form.
    pub fn new() -> (r: Form)
        ensures
            r.email@.len() == 0,
            r.password@.len() == 0,
            r.display_name@.len() == 0,
            !r.registering,
    {
        Form { email: String::new(), password: String::new(), display_name: String::new(), registering: false }
    }

    /// Whether the form may be sent: an address that is more than white space, and a password.
    pub fn ready(&self) -> (r: bool)
        ensures
            r == (!blank(self.email@) && self.password@.len() > 0),
    {
        !is_blank(self.email.as_str()) && self.password.as_str().unicode_len() > 0
    }

    /// The name to register, when registering.
    pub fn register_as(&self) -> (r: Option<String>)
        ensures
            r is Some <==> self.registering,
            r is Some ==> r->0@ == register_name(self.display_name@),
    {
        if self.registering {
            let typed = trim(self.display_name.as_str());
            proof { reveal_strlit("Traveler"); }
            if typed.as_str().unicode_len() == 0 {
                assert(blank(self.display_name@)) by {
                    if !blank(self.display_name@) {
                        let i = choose|i: int| 0 <= i < self.display_name@.len() && !crate::words::white_space(#[trigger] self.display_name@[i]);
                        crate::words::lemma_trim_nonempty(self.display_name@, i);
                    }
                }
                Some(String::from_str("Traveler"))
            } else {
                assert(!blank(self.display_name@)) by {
                    if blank(self.display_name@) {
                        assert(trimmed(self.display_name@) =~= Seq::<char>::empty());
                    }
                }
                Some(typed)
            }
        } else {
            None
        }
    }
}

/// What a background task has to say.
#[derive(Clone, Debug)]
pub enum Report {
    Granted { grant: String, identity: Identity },
    Failed(String),
    /// The grant held is no good. Distinct from a failure, because only this clears the vault.
    Rejected,
}

/// What the vault is to do after a report or a request.
#[derive(Clone, Debug, PartialEq, Eq)]
pub enum Keep {
    /// Nothing changes in it.
    Leave,
    /// Write this grant.
    Write(String),
    /// Forget what it holds.
    Clear,
}

/// What a player asked of the sign-in modal.
#[derive(Clone, Copy, Debug, PartialEq, Eq)]
pub enum Request {
    SignIn,
    CancelSignIn,
    SignOut,
    SignInWithPassword,
}

/// What the caller is to do after a request.
#[derive(Clone, Copy, Debug, PartialEq, Eq)]
pub enum Effect {
    Nothing,
    /// Open a loopback and send the browser to the broker; report back with `begun`.
    Begin,
    /// Go back to the menu's first page.
    MenuRoot,
    /// Forget the grant the vault holds.
    ClearVault,
}

/// What to send the broker for a password sign-in.
#[derive(Clone, Debug)]
pub struct PasswordAsk {
    pub email: String,
    pub password: String,
    pub register_as: Option<String>,
}

/// Everything the client holds about signing in.
pub struct Signin {
    pub broker: Option<Broker>,
    pub session: Session,
    /// What the client holds between launches, once it has one.
    pub grant: Option<String>,
    /// The password form, when it is open.
    pub form: Option<Form>,
}

impl Signin {
    pub fn new(broker: Option<Broker>) -> (r: Signin)
        ensures
            r.broker == broker,
            r.session is SignedOut,
            r.grant is None,
            r.form is None,
    {
        Signin { broker, session: Session::SignedOut, grant: None, form: None }
    }

    /// Whether the player may start observing: always with no broker configured, and with one
    /// only once signed in.
    pub fn may_observe(&self) -> (r: bool)
        ensures
            r == (self.broker is None || self.session is SignedIn),
    {
        self.broker.is_none() || self.session.is_ready()
    }

    /// The grant the vault held at startup, being traded for an identity.
    pub fn resume(&mut self, stored: Option<String>) -> (asked: bool)
        ensures
            asked == (old(self).broker is Some && stored is Some),
            asked ==> final(self).grant == stored && final(self).session is Working,
            !asked ==> *final(self) == *old(self),
            final(self).broker == old(self).broker,
            final(self).form == old(self).form,
    {
        if self.broker.is_none() {
            return false;
        }
        match stored {
            Some(grant) => {
                self.grant = Some(grant);
                self.session = Session::Working;
                true
            },
            None => false,
        }
    }

    /// Take what a background task said, and say what the vault is to do about it.
    ///
    /// Only a refusal clears the vault: a broker that is down must not sign everyone out.
    pub fn collect(&mut self, report: Report) -> (keep: Keep)
        ensures
            final(self).broker == old(self).broker,
            final(self).form == old(self).form,
            match report {
                Report::Granted { grant, identity } => {
                    &&& keep == Keep::Write(grant)
                    &&& final(self).grant == Some(grant)
                    &&& final(self).session == Session::SignedIn(identity)
                },
                Report::Rejected => {
                    &&& keep == Keep::Clear
                    &&& final(self).grant is None
                    &&& final(self).session is SignedOut
                },
                Report::Failed(why) => {
                    &&& keep == Keep::Leave
                    &&& final(self).grant == old(self).grant
                    &&& final(self).session == Session::Failed(why)
                },
            },
    {
        match report {
            Report::Granted { grant, identity } => {
                let kept = grant.clone();
                self.grant = Some(grant);
                self.session = Session::SignedIn(identity);
                Keep::Write(kept)
            },
            Report::Rejected => {
                self.grant = None;
                self.session = Session::SignedOut;
                Keep::Clear
            },
            Report::Failed(why) => {
                self.session = Session::Failed(why);
                Keep::Leave
            },
        }
    }

    /// Act on a request from the modal.
    pub fn handle(&mut self, request: Request) -> (effect: Effect)
        ensures
            final(self).broker == old(self).broker,
            match request {
                Request::SignIn => effect == Effect::Begin && *final(self) == *old(self),
                Request::CancelSignIn => {
                    &&& effect == Effect::MenuRoot
                    &&& final(self).session is SignedOut
                    &&& final(self).grant == old(self).grant
                    &&& final(self).form == old(self).form
                },
                Request::SignOut => {
                    &&& effect == Effect::ClearVault
                    &&& final(self).session is SignedOut
                    &&& final(self).grant is None
                    &&& final(self).form == old(self).form
                },
                Request::SignInWithPassword => {
                    &&& effect == Effect::Nothing
                    &&& final(self).session == old(self).session
                    &&& final(self).grant == old(self).grant
                    &&& final(self).form is Some
                    &&& final(self).form->0.email@.len() == 0
                    &&& final(self).form->0.password@.len() == 0
                    &&& final(self).form->0.display_name@.len() == 0
                    &&& !final(self).form->0.registering
                },
            },
    {
        match request {
            Request::SignIn => Effect::Begin,
            Request::CancelSignIn => {
                self.session = Session::SignedOut;
                Effect::MenuRoot
            },
            Request::SignOut => {
                self.grant = None;
                self.session = Session::SignedOut;
                Effect::ClearVault
            },
            Request::SignInWithPassword => {
                self.form = Some(Form::new());
                Effect::Nothing
            },
        }
    }

    /// What came of opening a loopback and sending the browser off: the address it was sent
    /// to, or why the loopback could not be opened.
    pub fn begun(&mut self, opened: Result<String, String>)
        ensures
            old(self).broker is None ==> *final(self) == *old(self),
            old(self).broker is Some ==> match opened {
                Ok(url) => final(self).session == Session::Waiting { url },
                Err(why) => final(self).session matches Session::Failed(m)
                    && m@ == "could not listen for the answer: "@ + why@,
            },
            final(self).broker == old(self).broker,
            final(self).grant == old(self).grant,
            final(self).form == old(self).form,
    {
        if self.broker.is_none() {
            return;
        }
        match opened {
            Ok(url) => {
                self.session = Session::Waiting { url };
            },
            Err(why) => {
                let mut m = String::from_str("could not listen for the answer: ");
                m.append(why.as_str());
                self.session = Session::Failed(m);
            },
        }
    }

    /// The browser came back to the loopback, with a code or with what went wrong (as `{:?}`
    /// writes it). A code is to be redeemed, and is handed back; the session is then working.
    pub fn answered(&mut self, answer: Result<String, String>) -> (redeem: Option<String>)
        ensures
            final(self).broker == old(self).broker,
            final(self).grant == old(self).grant,
            final(self).form == old(self).form,
            !(old(self).session is Waiting && old(self).broker is Some) ==> {
                &&& redeem is None
                &&& *final(self) == *old(self)
            },
            (old(self).session is Waiting && old(self).broker is Some) ==> match answer {
                Ok(code) => redeem == Some(code) && final(self).session is Working,
                Err(why) => {
                    &&& redeem is None
                    &&& final(self).session matches Session::Failed(m)
                        && m@ == "that sign-in did not come back right: "@ + why@
                },
            },
    {
        let waiting = match &self.session {
            Session::Waiting { .. } => true,
            _ => false,
        };
        if !waiting || self.broker.is_none() {
            return None;
        }
        match answer {
            Ok(code) => {
                self.session = Session::Working;
                Some(code)
            },
            Err(why) => {
                let mut m = String::from_str("that sign-in did not come back right: ");
                m.append(why.as_str());
                self.session = Session::Failed(m);
                None
            },
        }
    }

    /// Send what was typed: the form closes, the session is working, and this is what to ask.
    pub fn submit(&mut self) -> (ask: Option<PasswordAsk>)
        ensures
            final(self).broker == old(self).broker,
            final(self).grant == old(self).grant,
            ask is Some <==> (old(self).broker is Some && old(self).form is Some),
            ask is None ==> *final(self) == *old(self),
            ask is Some ==> {
                let form = old(self).form->0;
                let a = ask->0;
                &&& final(self).form is None
                &&& final(self).session is Working
                &&& a.email == form.email
                &&& a.password == form.password
                &&& (a.register_as is Some <==> form.registering)
                &&& (a.register_as is Some ==> a.register_as->0@ == register_name(form.display_name@))
            },
    {
        if self.broker.is_none() || self.form.is_none() {
            return None;
        }
        let form = self.form.take().unwrap();
        let register_as = form.register_as();
        self.session = Session::Working;
        Some(PasswordAsk { email: form.email, password: form.password, register_as })
    }

    /// The form was cancelled.
    pub fn cancel_form(&mut self)
        ensures
            final(self).form is None,
            final(self).broker == old(self).broker,
            final(self).session == old(self).session,
            final(self).grant == old(self).grant,
    {
        self.form = None;
    }
}

/// What the modal is showing. Compared against what is drawn, so the modal is rebuilt when its
/// contents change and not otherwise.
#[derive(Clone, Debug, PartialEq, Eq)]
pub enum Shown {
    /// The form owns the screen; the modal is a backdrop and nothing else.
    Backdrop,
    Choice,
    Waiting(String),
    Working,
    Failed(String),
    SignedIn(String),
}

/// What the modal shows of `session`: a backdrop while the form is open, and otherwise the
/// session's own text.
pub open spec fn shown_of(session: Session, form_open: bool) -> Shown {
    if form_open {
        Shown::Backdrop
    } else {
        match session {
            Session::SignedOut => Shown::Choice,
            Session::Waiting { url } => Shown::Waiting(url),
            Session::Working => Shown::Working,
            Session::Failed(why) => Shown::Failed(why),
            Session::SignedIn(identity) => Shown::SignedIn(identity.display_name),
        }
    }
}

impl Shown {
    pub fn of(session: &Session, form_open: bool) -> (r: Shown)
        ensures
            r == shown_of(*session, form_open),
    {
        if form_open {
            return Shown::Backdrop;
        }
        match session {
            Session::SignedOut => Shown::Choice,
            Session::Waiting { url } => Shown::Waiting(url.clone()),
            Session::Working => Shown::Working,
            Session::Failed(why) => Shown::Failed(why.clone()),
            Session::SignedIn(identity) => Shown::SignedIn(identity.display_name.clone()),
        }
    }
}

/// What a button of the modal asks for.
#[derive(Clone, Copy, Debug, PartialEq, Eq, Structural)]
pub enum Press {
    /// Start observing.
    Observe,
    SignOut,
    CancelSignIn,
    SignIn,
    /// Open the password form.
    UsePassword,
    /// Back to the menu's first page.
    Back,
}

/// The modal's panel, under its title: its lines, then its buttons, each with what it asks for.
pub struct Panel {
    pub messages: Vec<String>,
    pub buttons: Vec<(&'static str, Press)>,
}

/// What the panel holds for `shown`: nothing for the backdrop, which has no panel.
pub open spec fn panel_of(shown: Shown) -> Option<(Seq<Seq<char>>, Seq<(Seq<char>, Press)>)> {
    match shown {
        Shown::Backdrop => None,
        Shown::SignedIn(name) => Some((
            seq!["Signed in as "@ + name@ + "."@],
            seq![("Observe"@, Press::Observe), ("Sign out"@, Press::SignOut)],
        )),
        Shown::Waiting(url) => Some((
            seq!["Finish signing in with your browser."@, url@],
            seq![("Cancel"@, Press::CancelSignIn)],
        )),
        Shown::Working => Some((seq!["One moment…"@], Seq::empty())),
        Shown::Failed(why) => Some((
            seq![why@],
            seq![("Try again"@, Press::SignIn), ("Back"@, Press::Back)],
        )),
        Shown::Choice => Some((
            seq!["Observing needs an account."@],
            seq![
                ("Sign in with a browser"@, Press::SignIn),
                ("Use a password"@, Press::UsePassword),
                ("Back"@, Press::Back),
            ],
        )),
    }
}

/// The buttons of a panel, as plain values.
pub open spec fn pressed(v: Seq<(&'static str, Press)>) -> Seq<(Seq<char>, Press)> {
    v.map_values(|b: (&'static str, Press)| (b.0@, b.1))
}

/// The title every panel of the modal carries.
pub const TITLE: &'static str = "SIGN IN";

/// The modal's panel for what it shows. The backdrop has none: the form owns the screen.
pub fn panel(shown: &Shown) -> (r: Option<Panel>)
    ensures
        match panel_of(*shown) {
            None => r is None,
            Some((messages, buttons)) => r is Some
                && crate::system_panel::texts(r->0.messages@) == messages
                && pressed(r->0.buttons@) == buttons,
        },
{
    proof {
        reveal_strlit("Signed in as ");
        reveal_strlit(".");
        reveal_strlit("Finish signing in with your browser.");
        reveal_strlit("One moment…");
        reveal_strlit("Observing needs an account.");
    }
    let mut messages: Vec<String> = Vec::new();
    let mut buttons: Vec<(&'static str, Press)> = Vec::new();
    match shown {
        Shown::Backdrop => return None,
        Shown::SignedIn(name) => {
            let mut m = String::from_str("Signed in as ");
            m.append(name.as_str());
            m.append(".");
            messages.push(m);
            buttons.push(("Observe", Press::Observe));
            buttons.push(("Sign out", Press::SignOut));
        },
        Shown::Waiting(url) => {
            messages.push(String::from_str("Finish signing in with your browser."));
            messages.push(url.clone());
            buttons.push(("Cancel", Press::CancelSignIn));
        },
        Shown::Working => {
            messages.push(String::from_str("One moment…"));
        },
        Shown::Failed(why) => {
            messages.push(why.clone());
            buttons.push(("Try again", Press::SignIn));
            buttons.push(("Back", Press::Back));
        },
        Shown::Choice => {
            messages.push(String::from_str("Observing needs an account."));
            buttons.push(("Sign in with a browser", Press::SignIn));
            buttons.push(("Use a password", Press::UsePassword));
            buttons.push(("Back", Press::Back));
        },
    }
    proof {
        let (ms, bs) = panel_of(*shown)->0;
        assert(crate::system_panel::texts(messages@) =~= ms);
        assert(pressed(buttons@) =~= bs);
    }
    Some(Panel { messages, buttons })
}

/// Two sessions draw the same modal, with the form closed, exactly when they are the same step
/// and carry the same text; with the form open every session draws the backdrop.
pub proof fn law_shown_follows_contents(a: Session, b: Session)
    ensures
        shown_of(a, true) == Shown::Backdrop,
        (shown_of(a, false) == shown_of(b, false)) <==> match (a, b) {
            (Session::SignedOut, Session::SignedOut) => true,
            (Session::Waiting { url: x }, Session::Waiting { url: y }) => x == y,
            (Session::Working, Session::Working) => true,
            (Session::Failed(x), Session::Failed(y)) => x == y,
            (Session::SignedIn(x), Session::SignedIn(y)) => x.display_name == y.display_name,
            _ => false,
        },
{
}

/// What a revocation list shows a person later: the machine's name, or `a desktop`.
pub open spec fn machine_label_of(hostname: Option<Seq<char>>) -> Seq<char> {
    match hostname {
        Some(name) => if name.len() > 0 { name } else { "a desktop"@ },
        None => "a desktop"@,
    }
}

pub fn machine_label(hostname: Option<String>) -> (r: String)
    ensures
        r@ == machine_label_of(match hostname { Some(h) => Some(h@), None => None }),
{
    proof { reveal_strlit("a desktop"); }
    match hostname {
        Some(name) => {
            if name.as_str().unicode_len() > 0 {
                name
            } else {
                String::from_str("a desktop")
            }
        },
        None => String::from_str("a desktop"),
    }
}

/// Where the browser is sent back to: the loopback on `port`, at `path`.
pub fn return_to(port: u16, path: &str) -> (r: String)
    ensures
        r@ == "http://127.0.0.1:"@ + decimal(port as nat) + path@,
{
    let mut r = String::from_str("http://127.0.0.1:");
    let digits = decimal_text(port as u64);
    r.append(digits.as_str());
    r.append(path);
    r
}

/// The hexadecimal digit for `d`, below sixteen, in lower case.
pub open spec fn hex_digit(d: nat) -> char {
    if d < 10 { crate::words::digit(d) }
    else if d == 10 { 'a' } else if d == 11 { 'b' } else if d == 12 { 'c' }
    else if d == 13 { 'd' } else if d == 14 { 'e' } else { 'f' }
}

/// `n` as `{:016x}` writes it: sixteen lower-case hexadecimal digits, the most significant
/// first, with leading zeros.
pub open spec fn hex16(n: u64) -> Seq<char> {
    Seq::new(16, |i: int| hex_digit(((n >> ((60 - 4 * i) as u64)) & 15u64) as nat))
}

/// The hexadecimal digit for `d`, as text.
fn hex_text(d: u64) -> (s: &'static str)
    requires
        d < 16,
    ensures
        s@ == seq![hex_digit(d as nat)],
{
    proof {
        reveal_strlit("0");
        reveal_strlit("1");
        reveal_strlit("2");
        reveal_strlit("3");
        reveal_strlit("4");
        reveal_strlit("5");
        reveal_strlit("6");
        reveal_strlit("7");
        reveal_strlit("8");
        reveal_strlit("9");
        reveal_strlit("a");
        reveal_strlit("b");
        reveal_strlit("c");
        reveal_strlit("d");
        reveal_strlit("e");
        reveal_strlit("f");
    }
    if d == 0 { "0" } else if d == 1 { "1" } else if d == 2 { "2" } else if d == 3 { "3" } else if d == 4 { "4" } else if d == 5 { "5" } else if d == 6 { "6" } else if d == 7 { "7" } else if d == 8 { "8" } else if d == 9 { "9" } else if d == 10 { "a" } else if d == 11 { "b" } else if d == 12 { "c" } else if d == 13 { "d" } else if d == 14 { "e" } else { "f" }
}

fn push_hex16(out: &mut String, n: u64)
    ensures
        final(out)@ == old(out)@ + hex16(n),
{
    let mut i: u64 = 0;
    while i < 16
        invariant
            i <= 16,
            out@ == old(out)@ + hex16(n).take(i as int),
        decreases 16 - i,
    {
        let shift: u64 = 60 - 4 * i;
        let d: u64 = (n >> shift) & 15;
        assert(d < 16) by (bit_vector)
            requires d == (n >> shift) & 15u64;
        let one = hex_text(d);
        out.append(one);
        proof {
            assert(hex16(n).take(i as int + 1) =~= hex16(n).take(i as int).push(hex_digit(d as nat)));
        }
        i += 1;
    }
    assert(hex16(n).take(16) =~= hex16(n));
}

/// The state a browser sign-in carries, from two hashed values: each as sixteen hexadecimal
/// digits, one after the other.
pub fn state_text(first: u64, second: u64) -> (r: String)
    ensures
        r@ == hex16(first) + hex16(second),
        r@.len() == 32,
{
    let mut r = String::new();
    push_hex16(&mut r, first);
    push_hex16(&mut r, second);
    r
}

} // verus!
