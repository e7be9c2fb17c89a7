use mensabot::tg::Chat;
use mensabot::tg::Error;
use mensabot::tg::Message;
use mensabot::tg::MessageEntity;
use mensabot::tg::OutgoingText;
use mensabot::tg::User;

fn s(x: &str) -> String {
    String::from(x)
}

#[test]
fn names_from_parts() {
    assert_eq!(User::fmt_name(Some(&s("Ann")), Some(&s("ann1")), Some(&s("Lee"))), "Ann 'ann1' Lee");
    assert_eq!(User::fmt_name(Some(&s("Ann")), None, None), "Ann");
    assert_eq!(User::fmt_name(None, Some(&s("ann1")), None), "'ann1'");
    assert_eq!(User::fmt_name(None, None, Some(&s("Lee"))), "Lee");
    assert_eq!(User::fmt_name(None, None, None), "<unknown>");
}

#[test]
fn user_and_chat_names() {
    let u = User { id: 1, first_name: s("Ann"), last_name: Some(s("Lee")), username: None };
    assert_eq!(u.name(), "Ann Lee");
    let c = Chat { id: 2, title: None, username: Some(s("ann1")), first_name: None, last_name: None };
    assert_eq!(c.name(), "'ann1'");
    let c = Chat { id: 2, title: Some(s("Group")), username: Some(s("x")), first_name: None, last_name: None };
    assert_eq!(c.name(), "Group");
}

#[test]
fn entity_text_in_utf16_units() {
    let e = MessageEntity { entity_type: s("bot_command"), offset: 0, length: 6 };
    assert_eq!(e.extract("/mensa alte").unwrap(), "/mensa");
    let e = MessageEntity { entity_type: s(""), offset: 4, length: 4 };
    // the emoji takes two units
    assert_eq!(e.extract("\u{1F600}: zelt").unwrap(), "zelt");
    let e = MessageEntity { entity_type: s(""), offset: 40, length: 5 };
    assert_eq!(e.extract("short").unwrap(), "");
    let e = MessageEntity { entity_type: s(""), offset: 1, length: 1 };
    assert!(e.extract("\u{1F600}").is_err());
}

#[test]
fn replies_point_at_message() {
    let msg = Message {
        message_id: 3,
        chat: Chat { id: 9, title: None, username: None, first_name: None, last_name: None },
        from: None,
        text: None,
        entities: Vec::new(),
    };
    let r = msg.reply_text(s("hi"));
    assert_eq!(r.chat_id, 9);
    assert_eq!(r.text, "hi");
    assert_eq!(r.reply_to_message_id, Some(3));
    assert!(!r.disable_notification);
    assert!(r.parse_mode.is_none());
    assert!(OutgoingText::is_true(&true));
    assert!(!OutgoingText::is_true(&false));
}

#[test]
fn errors_keep_description() {
    let e = Error::new(s("unexpected JSON response"));
    assert_eq!(e.description(), "unexpected JSON response");
}
