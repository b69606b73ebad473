//! The per-connection authentication state machine.
//!
//! It runs before a socket is admitted to the routing table: one step per
//! input line, answering with the system prompts to send back, and — on
//! the one step that registers a new user — the record to append to the
//! credential store. The reader task drives it to `Admitted` (or gives up
//! when the peer disconnects at a prompt) and only then emits the new-peer
//! event; a connection that never reaches `Admitted` never touches the
//! routing table.

use vstd::prelude::*;

use crate::creds::CredRecord;
use crate::creds::CredStore;
use crate::creds::first_match;
use crate::creds::known;
use crate::creds::lemma_first_match_key;
use crate::creds::lemma_first_match_push;
use crate::text::all_alnum;
use crate::text::check_all_alnum;
use crate::text::lower;
use crate::text::str_eq;
use crate::text::to_lower;
use crate::text::trim;
use crate::text::trimmed;

verus! {

/// The phases of one connection's authentication, as the contracts see
/// them. A login carries the stored password it must hear, captured at
/// username time — the store is append-only and lookups take the first
/// match, so the capture never goes stale — and the count of password
/// prompts still owed.
#[verifier::ext_equal]
pub enum AuthPhase {
    AwaitChoice,
    AwaitLoginUsername,
    AwaitPassword { name: Seq<char>, stored: Seq<char>, attempts: int },
    AwaitRegisterUsername,
    AwaitRegisterPassword { name: Seq<char> },
    Admitted { name: Seq<char> },
}

impl AuthPhase {
    /// The attempt counter stays within its prompt range.
    pub open spec fn wf(self) -> bool {
        match self {
            AuthPhase::AwaitPassword { attempts, .. } => 1 <= attempts <= 3,
            _ => true,
        }
    }
}

/// What one step answers: the next phase, the system prompts to send to
/// this connection, in order, and the record to append to the credential
/// store, if the step registered a new user.
#[verifier::ext_equal]
pub struct AuthStepView {
    pub phase: AuthPhase,
    pub prompts: Seq<Seq<char>>,
    pub append: Option<(Seq<char>, Seq<char>)>,
}

/// The password prompt, carrying how many attempts remain.
pub open spec fn password_prompt(attempts: int) -> Seq<char>
    recommends
        1 <= attempts <= 3,
{
    "Please enter your password\n\rAttempts remaining "@ + (if attempts == 1 {
        "1"@
    } else if attempts == 2 {
        "2"@
    } else {
        "3"@
    })
}

/// One step of the authentication state machine on one input line.
///
/// Every line is trimmed first; what is read as a name (and the account
/// choice) is lower-cased too, passwords are not. A failed choice, an
/// unknown or empty login name, a taken or ill-formed registration name
/// each re-prompt without advancing; three failed passwords return to the
/// username prompt, they do not close the connection. Only the final
/// registration step appends to the store.
pub open spec fn auth_next(
    p: AuthPhase,
    line: Seq<char>,
    store: Seq<(Seq<char>, Seq<char>)>,
) -> AuthStepView
    recommends
        p.wf(),
{
    match p {
        AuthPhase::AwaitChoice => {
            let choice = lower(trimmed(line));
            if choice.len() > 0 && choice[0] == 'y' {
                AuthStepView {
                    phase: AuthPhase::AwaitLoginUsername,
                    prompts: seq!["Please enter your username"@],
                    append: None,
                }
            } else if choice.len() > 0 && choice[0] == 'n' {
                AuthStepView {
                    phase: AuthPhase::AwaitRegisterUsername,
                    prompts: seq!["Please enter your username"@],
                    append: None,
                }
            } else {
                AuthStepView {
                    phase: AuthPhase::AwaitChoice,
                    prompts: seq!["Please select Y or N"@],
                    append: None,
                }
            }
        },
        AuthPhase::AwaitLoginUsername => {
            let name = lower(trimmed(line));
            if name.len() > 0 && first_match(store, name) is Some {
                let rec = first_match(store, name).unwrap();
                AuthStepView {
                    phase: AuthPhase::AwaitPassword { name, stored: rec.1, attempts: 3 },
                    prompts: seq![password_prompt(3)],
                    append: None,
                }
            } else {
                AuthStepView {
                    phase: AuthPhase::AwaitLoginUsername,
                    prompts: seq!["Incorrect username"@, "Please enter your username"@],
                    append: None,
                }
            }
        },
        AuthPhase::AwaitPassword { name, stored, attempts } => {
            let pwd = trimmed(line);
            if pwd == stored {
                AuthStepView {
                    phase: AuthPhase::Admitted { name },
                    prompts: Seq::empty(),
                    append: None,
                }
            } else if attempts > 1 {
                AuthStepView {
                    phase: AuthPhase::AwaitPassword { name, stored, attempts: attempts - 1 },
                    prompts: seq!["Incorrect password"@, password_prompt(attempts - 1)],
                    append: None,
                }
            } else {
                AuthStepView {
                    phase: AuthPhase::AwaitLoginUsername,
                    prompts: seq!["Incorrect password"@, "Please enter your username"@],
                    append: None,
                }
            }
        },
        AuthPhase::AwaitRegisterUsername => {
            let name = lower(trimmed(line));
            if known(store, name) {
                AuthStepView {
                    phase: AuthPhase::AwaitRegisterUsername,
                    prompts: seq!["username taken"@],
                    append: None,
                }
            } else if all_alnum(name) {
                AuthStepView {
                    phase: AuthPhase::AwaitRegisterPassword { name },
                    prompts: seq!["Please enter your password"@],
                    append: None,
                }
            } else {
                AuthStepView {
                    phase: AuthPhase::AwaitRegisterUsername,
                    prompts: seq!["Username must only contain alpha-numeric characters\n\r"@],
                    append: None,
                }
            }
        },
        AuthPhase::AwaitRegisterPassword { name } => {
            let pwd = trimmed(line);
            AuthStepView {
                phase: AuthPhase::Admitted { name },
                prompts: Seq::empty(),
                append: Some((name, pwd)),
            }
        },
        AuthPhase::Admitted { name } => {
            AuthStepView {
                phase: AuthPhase::Admitted { name },
                prompts: Seq::empty(),
                append: None,
            }
        },
    }
}

/// One connection's authentication state.
pub enum AuthState {
    AwaitChoice,
    AwaitLoginUsername,
    AwaitPassword { name: String, stored: String, attempts: u8 },
    AwaitRegisterUsername,
    AwaitRegisterPassword { name: String },
    Admitted { name: String },
}

impl View for AuthState {
    type V = AuthPhase;

    open spec fn view(&self) -> AuthPhase {
        match self {
            AuthState::AwaitChoice => AuthPhase::AwaitChoice,
            AuthState::AwaitLoginUsername => AuthPhase::AwaitLoginUsername,
            AuthState::AwaitPassword { name, stored, attempts } => AuthPhase::AwaitPassword {
                name: name@,
                stored: stored@,
                attempts: *attempts as int,
            },
            AuthState::AwaitRegisterUsername => AuthPhase::AwaitRegisterUsername,
            AuthState::AwaitRegisterPassword { name } => AuthPhase::AwaitRegisterPassword {
                name: name@,
            },
            AuthState::Admitted { name } => AuthPhase::Admitted { name: name@ },
        }
    }
}

/// What one step answers, executably.
pub struct AuthStep {
    pub state: AuthState,
    pub prompts: Vec<String>,
    pub append: Option<CredRecord>,
}

impl View for AuthStep {
    type V = AuthStepView;

    open spec fn view(&self) -> AuthStepView {
        AuthStepView {
            phase: self.state@,
            prompts: self.prompts.deep_view(),
            append: match self.append {
                Some(r) => Some((r.name@, r.pwd@)),
                None => None,
            },
        }
    }
}

/// The state a fresh connection starts in, and the question that greets
/// it.
pub fn auth_start() -> (r: (AuthState, String))
    ensures
        r.0@ == AuthPhase::AwaitChoice,
        r.1@ == "Do you have an account? Y/N"@,
{
    (AuthState::AwaitChoice, String::from_str("Do you have an account? Y/N"))
}

fn format_password_prompt(attempts: u8) -> (r: String)
    requires
        1 <= attempts <= 3,
    ensures
        r@ == password_prompt(attempts as int),
{
    let mut r = String::from_str("Please enter your password\n\rAttempts remaining ");
    if attempts == 1 {
        r.append("1");
    } else if attempts == 2 {
        r.append("2");
    } else {
        r.append("3");
    }
    r
}

/// Runs one step of the authentication state machine: reads one input
/// line against the current state and the credential store.
pub fn auth_step(state: AuthState, line: &str, store: &CredStore) -> (r: AuthStep)
    requires
        state@.wf(),
    ensures
        r@ == auth_next(state@, line@, store@),
        r.state@.wf(),
{
    match state {
        AuthState::AwaitChoice => {
            let choice = to_lower(trim(line));
            let len = choice.as_str().unicode_len();
            let c = if len > 0 {
                choice.as_str().get_char(0)
            } else {
                ' '
            };
            let mut prompts: Vec<String> = Vec::new();
            if len > 0 && c == 'y' {
                prompts.push(String::from_str("Please enter your username"));
                proof {
                    assert(prompts.deep_view() =~= seq!["Please enter your username"@]);
                }
                AuthStep { state: AuthState::AwaitLoginUsername, prompts, append: None }
            } else if len > 0 && c == 'n' {
                prompts.push(String::from_str("Please enter your username"));
                proof {
                    assert(prompts.deep_view() =~= seq!["Please enter your username"@]);
                }
                AuthStep { state: AuthState::AwaitRegisterUsername, prompts, append: None }
            } else {
                prompts.push(String::from_str("Please select Y or N"));
                proof {
                    assert(prompts.deep_view() =~= seq!["Please select Y or N"@]);
                }
                AuthStep { state: AuthState::AwaitChoice, prompts, append: None }
            }
        },
        AuthState::AwaitLoginUsername => {
            let name = to_lower(trim(line));
            let found = store.find_user_login(name.as_str());
            proof {
                lemma_first_match_key(store@, name@);
            }
            let mut prompts: Vec<String> = Vec::new();
            if !found.0.as_str().is_empty() {
                prompts.push(format_password_prompt(3));
                proof {
                    assert(prompts.deep_view() =~= seq![password_prompt(3)]);
                }
                AuthStep {
                    state: AuthState::AwaitPassword { name, stored: found.1, attempts: 3 },
                    prompts,
                    append: None,
                }
            } else {
                prompts.push(String::from_str("Incorrect username"));
                prompts.push(String::from_str("Please enter your username"));
                proof {
                    assert(prompts.deep_view() =~= seq![
                        "Incorrect username"@,
                        "Please enter your username"@,
                    ]);
                }
                AuthStep { state: AuthState::AwaitLoginUsername, prompts, append: None }
            }
        },
        AuthState::AwaitPassword { name, stored, attempts } => {
            let pwd = trim(line);
            let mut prompts: Vec<String> = Vec::new();
            if str_eq(pwd, stored.as_str()) {
                proof {
                    assert(prompts.deep_view() =~= Seq::<Seq<char>>::empty());
                }
                AuthStep { state: AuthState::Admitted { name }, prompts, append: None }
            } else if attempts > 1 {
                prompts.push(String::from_str("Incorrect password"));
                prompts.push(format_password_prompt(attempts - 1));
                proof {
                    assert(prompts.deep_view() =~= seq![
                        "Incorrect password"@,
                        password_prompt(attempts - 1),
                    ]);
                }
                AuthStep {
                    state: AuthState::AwaitPassword { name, stored, attempts: attempts - 1 },
                    prompts,
                    append: None,
                }
            } else {
                prompts.push(String::from_str("Incorrect password"));
                prompts.push(String::from_str("Please enter your username"));
                proof {
                    assert(prompts.deep_view() =~= seq![
                        "Incorrect password"@,
                        "Please enter your username"@,
                    ]);
                }
                AuthStep { state: AuthState::AwaitLoginUsername, prompts, append: None }
            }
        },
        AuthState::AwaitRegisterUsername => {
            let name = to_lower(trim(line));
            let found = store.find_user_login(name.as_str());
            proof {
                lemma_first_match_key(store@, name@);
            }
            let mut prompts: Vec<String> = Vec::new();
            if !found.0.as_str().is_empty() {
                prompts.push(String::from_str("username taken"));
                proof {
                    assert(prompts.deep_view() =~= seq!["username taken"@]);
                }
                AuthStep { state: AuthState::AwaitRegisterUsername, prompts, append: None }
            } else if check_all_alnum(name.as_str()) {
                prompts.push(String::from_str("Please enter your password"));
                proof {
                    assert(prompts.deep_view() =~= seq!["Please enter your password"@]);
                }
                AuthStep {
                    state: AuthState::AwaitRegisterPassword { name },
                    prompts,
                    append: None,
                }
            } else {
                prompts.push(
                    String::from_str("Username must only contain alpha-numeric characters\n\r"),
                );
                proof {
                    assert(prompts.deep_view() =~= seq![
                        "Username must only contain alpha-numeric characters\n\r"@,
                    ]);
                }
                AuthStep { state: AuthState::AwaitRegisterUsername, prompts, append: None }
            }
        },
        AuthState::AwaitRegisterPassword { name } => {
            let pwd = String::from_str(trim(line));
            let prompts: Vec<String> = Vec::new();
            let rec = CredRecord { name: name.clone(), pwd };
            proof {
                assert(prompts.deep_view() =~= Seq::<Seq<char>>::empty());
            }
            AuthStep { state: AuthState::Admitted { name }, prompts, append: Some(rec) }
        },
        AuthState::Admitted { name } => {
            let prompts: Vec<String> = Vec::new();
            proof {
                assert(prompts.deep_view() =~= Seq::<Seq<char>>::empty());
            }
            AuthStep { state: AuthState::Admitted { name }, prompts, append: None }
        },
    }
}

/// Three wrong passwords in a row hand control back to the username
/// prompt: the connection stays open and the state machine stays in the
/// login flow, it never reaches a terminal failure.
pub proof fn lemma_three_wrong_passwords(
    name: Seq<char>,
    stored: Seq<char>,
    l1: Seq<char>,
    l2: Seq<char>,
    l3: Seq<char>,
    store: Seq<(Seq<char>, Seq<char>)>,
)
    requires
        trimmed(l1) != stored,
        trimmed(l2) != stored,
        trimmed(l3) != stored,
    ensures
        ({
            let p0 = AuthPhase::AwaitPassword { name, stored, attempts: 3 };
            let s1 = auth_next(p0, l1, store);
            let s2 = auth_next(s1.phase, l2, store);
            let s3 = auth_next(s2.phase, l3, store);
            &&& s1.phase == AuthPhase::AwaitPassword { name, stored, attempts: 2 }
            &&& s2.phase == AuthPhase::AwaitPassword { name, stored, attempts: 1 }
            &&& s3.phase == AuthPhase::AwaitLoginUsername
            &&& s3.prompts == seq!["Incorrect password"@, "Please enter your username"@]
        }),
{
}

/// Two connections racing to register the same unused username: the store
/// serializes appends, so once the first registration's record is in, the
/// other connection's username step finds the name taken and re-prompts —
/// it neither advances nor appends a second record. At most one
/// registration wins.
pub proof fn lemma_register_race(
    store: Seq<(Seq<char>, Seq<char>)>,
    name: Seq<char>,
    pwd: Seq<char>,
    line2: Seq<char>,
)
    requires
        !known(store, name),
        name.len() > 0,
        lower(trimmed(line2)) == name,
    ensures
        ({
            let store1 = store.push((name, pwd));
            let s2 = auth_next(AuthPhase::AwaitRegisterUsername, line2, store1);
            &&& known(store1, name)
            &&& s2.phase == AuthPhase::AwaitRegisterUsername
            &&& s2.append is None
            &&& s2.prompts == seq!["username taken"@]
        }),
{
    lemma_first_match_push(store, (name, pwd), name);
}

} // verus!
