use mensabot::command::clean_arg;
use mensabot::command::command_of;
use mensabot::command::narrow_arg_end;
use mensabot::command::Command;
use mensabot::tg::MessageEntity;

fn ent(offset: usize, length: usize) -> MessageEntity {
    MessageEntity { entity_type: String::from("bot_command"), offset, length }
}

#[test]
fn commands_by_name() {
    let bot = String::from("mensa_bot");
    assert_eq!(command_of("/mensa", None), Command::Mensa);
    assert_eq!(command_of("/about", None), Command::About);
    assert_eq!(command_of("/mensa@mensa_bot", Some(&bot)), Command::Mensa);
    assert_eq!(command_of("/about@mensa_bot", Some(&bot)), Command::About);
    assert_eq!(command_of("/mensa@other_bot", Some(&bot)), Command::Other);
    assert_eq!(command_of("/mensa@mensa_bot", None), Command::Other);
    assert_eq!(command_of("/start", Some(&bot)), Command::Other);
    assert_eq!(command_of("@mensa_bot", Some(&bot)), Command::Other);
}

#[test]
fn argument_ends_at_next_entity() {
    let es = vec![ent(0, 6), ent(20, 3), ent(12, 2)];
    assert_eq!(narrow_arg_end(&es, 6, 30), 12);
    assert_eq!(narrow_arg_end(&es, 6, 10), 10);
    assert_eq!(narrow_arg_end(&es, 0, 30), 0);
    assert_eq!(narrow_arg_end(&Vec::new(), 6, 30), 30);
}

#[test]
fn arguments_trimmed_and_lowered() {
    assert_eq!(clean_arg("  Alte Mensa \n"), Some(String::from("alte mensa")));
    assert_eq!(clean_arg(" \t "), None);
    assert_eq!(clean_arg(""), None);
    assert_eq!(clean_arg("ZELT"), Some(String::from("zelt")));
}
