use chat_core::auth::AuthState;
use chat_core::auth::auth_start;
use chat_core::auth::auth_step;
use chat_core::creds::CredStore;

fn store_with_carol() -> CredStore {
    CredStore::parse("carol:secret123\n")
}

#[test]
fn a_connection_is_greeted_with_the_account_question() {
    let (state, greeting) = auth_start();
    assert!(matches!(state, AuthState::AwaitChoice));
    assert_eq!(greeting, "Do you have an account? Y/N");
}

#[test]
fn the_choice_accepts_y_and_n_and_reprompts_otherwise() {
    let store = CredStore::new();

    let step = auth_step(AuthState::AwaitChoice, " Yes ", &store);
    assert!(matches!(step.state, AuthState::AwaitLoginUsername));
    assert_eq!(step.prompts, vec!["Please enter your username"]);

    let step = auth_step(AuthState::AwaitChoice, "n", &store);
    assert!(matches!(step.state, AuthState::AwaitRegisterUsername));
    assert_eq!(step.prompts, vec!["Please enter your username"]);

    let step = auth_step(AuthState::AwaitChoice, "maybe", &store);
    assert!(matches!(step.state, AuthState::AwaitChoice));
    assert_eq!(step.prompts, vec!["Please select Y or N"]);

    let step = auth_step(AuthState::AwaitChoice, "", &store);
    assert!(matches!(step.state, AuthState::AwaitChoice));
    assert_eq!(step.prompts, vec!["Please select Y or N"]);
}

#[test]
fn an_unknown_username_reprompts_without_limit() {
    let store = store_with_carol();
    let step = auth_step(AuthState::AwaitLoginUsername, "mallory", &store);
    assert!(matches!(step.state, AuthState::AwaitLoginUsername));
    assert_eq!(step.prompts, vec!["Incorrect username", "Please enter your username"]);
}

#[test]
fn a_known_username_is_asked_for_the_password_three_times() {
    let store = store_with_carol();
    let step = auth_step(AuthState::AwaitLoginUsername, " CAROL ", &store);
    assert_eq!(
        step.prompts,
        vec!["Please enter your password\n\rAttempts remaining 3"]
    );
    match &step.state {
        AuthState::AwaitPassword { name, stored, attempts } => {
            assert_eq!(name, "carol");
            assert_eq!(stored, "secret123");
            assert_eq!(*attempts, 3u8);
        }
        _ => panic!("expected the password prompt state"),
    }
}

#[test]
fn the_right_password_admits() {
    let store = store_with_carol();
    let step = auth_step(AuthState::AwaitLoginUsername, "carol", &store);
    let step = auth_step(step.state, "secret123", &store);
    match &step.state {
        AuthState::Admitted { name } => assert_eq!(name, "carol"),
        _ => panic!("expected admission"),
    }
    assert!(step.prompts.is_empty());
    assert!(step.append.is_none());
}

#[test]
fn three_wrong_passwords_return_to_the_username_prompt() {
    let store = store_with_carol();
    let mut step = auth_step(AuthState::AwaitLoginUsername, "carol", &store);
    step = auth_step(step.state, "wrong", &store);
    assert_eq!(
        step.prompts,
        vec!["Incorrect password", "Please enter your password\n\rAttempts remaining 2"]
    );
    step = auth_step(step.state, "wrong", &store);
    assert_eq!(
        step.prompts,
        vec!["Incorrect password", "Please enter your password\n\rAttempts remaining 1"]
    );
    step = auth_step(step.state, "wrong", &store);
    assert!(matches!(step.state, AuthState::AwaitLoginUsername));
    assert_eq!(step.prompts, vec!["Incorrect password", "Please enter your username"]);
}

#[test]
fn registration_rejects_taken_and_ill_formed_names() {
    let store = store_with_carol();

    let step = auth_step(AuthState::AwaitRegisterUsername, "carol", &store);
    assert!(matches!(step.state, AuthState::AwaitRegisterUsername));
    assert_eq!(step.prompts, vec!["username taken"]);
    assert!(step.append.is_none());

    let step = auth_step(AuthState::AwaitRegisterUsername, "da ve", &store);
    assert!(matches!(step.state, AuthState::AwaitRegisterUsername));
    assert_eq!(
        step.prompts,
        vec!["Username must only contain alpha-numeric characters\n\r"]
    );
}

#[test]
fn registering_carol_appends_her_record_and_later_logs_her_in() {
    let mut store = CredStore::new();

    let step = auth_step(AuthState::AwaitChoice, "n", &store);
    assert_eq!(step.prompts, vec!["Please enter your username"]);
    let step = auth_step(step.state, "carol", &store);
    assert_eq!(step.prompts, vec!["Please enter your password"]);
    let step = auth_step(step.state, "secret123", &store);
    match &step.state {
        AuthState::Admitted { name } => assert_eq!(name, "carol"),
        _ => panic!("expected admission"),
    }
    let rec = step.append.expect("registration must append a record");
    let line = store.register(&rec.name, &rec.pwd);
    assert_eq!(line, "carol:secret123\n");

    let step = auth_step(AuthState::AwaitLoginUsername, "carol", &store);
    let step = auth_step(step.state, "secret123", &store);
    assert!(matches!(step.state, AuthState::Admitted { .. }));

    let mut step = auth_step(AuthState::AwaitLoginUsername, "carol", &store);
    for _ in 0..3 {
        step = auth_step(step.state, "wrong", &store);
    }
    assert!(matches!(step.state, AuthState::AwaitLoginUsername));
}

#[test]
fn a_second_registration_of_the_same_name_finds_it_taken() {
    let mut store = CredStore::new();

    let step = auth_step(AuthState::AwaitRegisterUsername, "dave", &store);
    assert!(matches!(step.state, AuthState::AwaitRegisterPassword { .. }));
    let step = auth_step(step.state, "pw1", &store);
    let rec = step.append.expect("first registration wins");
    store.register(&rec.name, &rec.pwd);

    let step = auth_step(AuthState::AwaitRegisterUsername, "dave", &store);
    assert!(matches!(step.state, AuthState::AwaitRegisterUsername));
    assert_eq!(step.prompts, vec!["username taken"]);
    assert!(step.append.is_none());
}

#[test]
fn an_empty_registration_name_passes_the_checks_it_is_given() {
    // The alphanumeric test holds of every character an empty name has,
    // and an empty name is never counted as taken.
    let store = store_with_carol();
    let step = auth_step(AuthState::AwaitRegisterUsername, "", &store);
    assert!(matches!(step.state, AuthState::AwaitRegisterPassword { .. }));
    assert_eq!(step.prompts, vec!["Please enter your password"]);
}

#[test]
fn names_are_trimmed_and_lower_cased_passwords_only_trimmed() {
    let store = CredStore::parse("carol:Secret\n");
    let step = auth_step(AuthState::AwaitLoginUsername, "  CaRoL ", &store);
    assert!(matches!(step.state, AuthState::AwaitPassword { .. }));
    let wrong = auth_step(
        auth_step(AuthState::AwaitLoginUsername, "carol", &store).state,
        "SECRET",
        &store,
    );
    assert!(matches!(wrong.state, AuthState::AwaitPassword { .. }));
    let right = auth_step(
        auth_step(AuthState::AwaitLoginUsername, "carol", &store).state,
        " Secret ",
        &store,
    );
    assert!(matches!(right.state, AuthState::Admitted { .. }));
}
