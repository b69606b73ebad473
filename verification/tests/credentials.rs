use chat_core::creds::CredStore;
use chat_core::creds::lines_of;

#[test]
fn lines_follow_the_newlines() {
    assert_eq!(lines_of("a\nb\n"), vec!["a", "b"]);
    assert_eq!(lines_of("a\r\nb"), vec!["a", "b"]);
    assert_eq!(lines_of(""), Vec::<String>::new());
    assert_eq!(lines_of("single"), vec!["single"]);
    assert_eq!(lines_of("a\nb\r"), vec!["a", "b\r"]);
}

#[test]
fn parsed_store_serves_lookups_in_file_order() {
    let store = CredStore::parse("carol:secret123\nbob:pw\n");
    assert_eq!(store.find_user_login("carol"), ("carol".to_string(), "secret123".to_string()));
    assert_eq!(store.find_user_login("bob"), ("bob".to_string(), "pw".to_string()));
    assert_eq!(store.find_user_login("mallory"), (String::new(), String::new()));
}

#[test]
fn the_first_record_of_a_name_wins() {
    let store = CredStore::parse("dup:first\ndup:second\n");
    assert_eq!(store.find_user_login("dup"), ("dup".to_string(), "first".to_string()));
}

#[test]
fn lines_without_a_colon_carry_no_record() {
    let store = CredStore::parse("noise\ncarol:secret123\n");
    assert_eq!(store.find_user_login("noise"), (String::new(), String::new()));
    assert_eq!(store.find_user_login("carol"), ("carol".to_string(), "secret123".to_string()));
}

#[test]
fn passwords_are_trimmed_when_parsed() {
    let store = CredStore::parse("carol: secret123 \n");
    assert_eq!(store.find_user_login("carol"), ("carol".to_string(), "secret123".to_string()));
}

#[test]
fn registration_appends_the_record_and_its_file_line() {
    let mut store = CredStore::new();
    let line = store.register("carol", "secret123");
    assert_eq!(line, "carol:secret123\n");
    assert_eq!(store.find_user_login("carol"), ("carol".to_string(), "secret123".to_string()));
}

#[test]
fn a_registered_line_reparses_to_the_same_record() {
    let mut store = CredStore::new();
    let mut text = String::from("bob:pw\n");
    let line = store.register("carol", "secret123");
    text.push_str(&line);
    let reread = CredStore::parse(&text);
    assert_eq!(reread.find_user_login("carol"), ("carol".to_string(), "secret123".to_string()));
    assert_eq!(reread.find_user_login("bob"), ("bob".to_string(), "pw".to_string()));
}

#[test]
fn empty_store_knows_nobody() {
    let store = CredStore::parse("");
    assert_eq!(store.find_user_login("anyone"), (String::new(), String::new()));
}
