use mensabot::conf::Config;
use mensabot::conf::ConfigAccess;
use mensabot::conf::ConfigGeneral;
use mensabot::conf::RetryAction;
use mensabot::tg::Chat;
use mensabot::tg::Message;
use mensabot::tg::User;

fn general(mensas: Vec<String>) -> ConfigGeneral {
    ConfigGeneral {
        token: String::from("SECRET-REDACTED"),
        tomorrow: ConfigGeneral::default_tomorrow(),
        retries: ConfigGeneral::default_retries(),
        retrywait: ConfigGeneral::default_retrywait(),
        mensas,
        patterns: Vec::new(),
    }
}

fn user(id: i64, username: Option<&str>) -> User {
    User { id, first_name: String::from("Ann"), last_name: None, username: username.map(String::from) }
}

fn message(chat: i64, from: Option<User>) -> Message {
    Message {
        message_id: 7,
        chat: Chat { id: chat, title: None, username: None, first_name: None, last_name: None },
        from,
        text: Some(String::from("/mensa")),
        entities: Vec::new(),
    }
}

#[test]
fn defaults() {
    assert_eq!(ConfigGeneral::default_tomorrow(), "20:00:00");
    assert_eq!(ConfigGeneral::default_retries(), 3);
    assert_eq!(ConfigGeneral::default_retrywait(), 30);
    assert_eq!(ConfigGeneral::default_mensas(), vec!["Alte Mensa", "Zeltschlösschen"]);
}

#[test]
fn retry_steps() {
    let mut g = general(Vec::new());
    assert_eq!(g.after_failure(0), (RetryAction::RetryAfter(30), 1));
    assert_eq!(g.after_failure(1), (RetryAction::RetryAfter(30), 2));
    assert_eq!(g.after_failure(2), (RetryAction::GiveUp, 3));
    g.retrywait = 0;
    assert_eq!(g.after_failure(0), (RetryAction::RetryNow, 0));
    assert_eq!(g.after_failure(2), (RetryAction::GiveUp, 3));
    g.retries = 0;
    assert_eq!(g.after_failure(5), (RetryAction::RetryNow, 5));
    g.retrywait = 4;
    assert_eq!(g.after_failure(100), (RetryAction::RetryAfter(4), 101));
}

#[test]
fn empty_lists_allow_everyone() {
    let c = Config::from_parts(general(Vec::new()), ConfigAccess::new(), ConfigAccess::new());
    assert!(c.allow.is_empty());
    assert!(c.is_allowed(&message(1, None)));
    assert_eq!(c.general.mensas, vec!["Alte Mensa", "Zeltschlösschen"]);
}

#[test]
fn unpack_sorts_ids_and_names() {
    let mut a = ConfigAccess::from_lists(Vec::new(), vec![String::from("42"), String::from("@bob"), String::from("carol"), String::from("-7")]);
    a.unpack();
    assert!(!a.is_empty());
    assert!(a.contains_user(Some(&user(42, None))));
    assert!(a.contains_user(Some(&user(-7, None))));
    assert!(a.contains_user(Some(&user(1, Some("bob")))));
    assert!(a.contains_user(Some(&user(1, Some("carol")))));
    assert!(!a.contains_user(Some(&user(1, Some("@bob")))));
    assert!(!a.contains_user(Some(&user(1, Some("42")))));
    assert!(!a.contains_user(None));
}

#[test]
fn access_rules_in_order() {
    let allow = ConfigAccess::from_lists(vec![100], vec![String::from("@alice")]);
    let deny = ConfigAccess::from_lists(vec![200], vec![String::from("5")]);
    let c = Config::from_parts(general(vec![String::from("Mensa Siedepunkt")]), allow, deny);
    assert_eq!(c.general.mensas, vec!["Mensa Siedepunkt"]);
    // a listed user decides before a chat
    assert!(c.is_allowed(&message(200, Some(user(1, Some("alice"))))));
    assert!(!c.is_allowed(&message(100, Some(user(5, None)))));
    // then the chat lists
    assert!(c.is_allowed(&message(100, Some(user(9, None)))));
    assert!(!c.is_allowed(&message(200, None)));
    // an allow list shuts out the rest
    assert!(!c.is_allowed(&message(300, Some(user(9, Some("eve"))))));
}

#[test]
fn deny_list_alone() {
    let deny = ConfigAccess::from_lists(vec![200], Vec::new());
    let c = Config::from_parts(general(Vec::new()), ConfigAccess::new(), deny);
    assert!(c.is_allowed(&message(300, None)));
    assert!(!c.is_allowed(&message(200, None)));
}
