use mensabot::conf::Config;
use mensabot::conf::ConfigAccess;
use mensabot::conf::ConfigGeneral;
use mensabot::menu::make_about_text;
use mensabot::menu::get_menu_url;
use mensabot::menu::make_menu_text;
use mensabot::menu::mensa_match;
use mensabot::menu::menu_url;
use mensabot::menu::parse_tomorrow;
use mensabot::menu::strip_white;
use mensabot::menu::time_cmp;
use mensabot::menu::MensaMatch;
use mensabot::menu::Menu;
use mensabot::tg::Chat;
use mensabot::tg::Message;
use std::cmp::Ordering;

fn message() -> Message {
    Message {
        message_id: 11,
        chat: Chat { id: -5, title: Some(String::from("Lunch")), username: None, first_name: None, last_name: None },
        from: None,
        text: Some(String::from("/mensa")),
        entities: Vec::new(),
    }
}

fn m(similarity: usize, name: &str) -> MensaMatch {
    MensaMatch { similarity, name: String::from(name) }
}

fn meals(xs: &[&str]) -> Vec<String> {
    xs.iter().map(|x| String::from(*x)).collect()
}

#[test]
fn time_comparison() {
    assert_eq!(time_cmp((20, 0, 0), (20, 0, 0)), 0);
    assert_eq!(time_cmp((21, 0, 0), (20, 30, 0)), 1);
    assert_eq!(time_cmp((20, 10, 0), (20, 30, 0)), -20);
    assert_eq!(time_cmp((20, 30, 5), (20, 30, 2)), 3);
    assert_eq!(time_cmp((24, 0, 0), (24, 0, 0)), 0);
}

#[test]
fn tomorrow_times() {
    assert_eq!(parse_tomorrow("20:00:00"), Ok((20, 0, 0)));
    assert_eq!(parse_tomorrow("18:30"), Ok((18, 30, 0)));
    assert_eq!(parse_tomorrow("24:00"), Ok((24, 0, 0)));
    assert_eq!(parse_tomorrow("23:59:60"), Ok((23, 59, 60)));
    assert_eq!(parse_tomorrow("+7:05"), Ok((7, 5, 0)));
}

#[test]
fn tomorrow_rejects() {
    assert_eq!(parse_tomorrow("24:01"), Err(String::from("invalid timestamp '24:01'")));
    assert_eq!(parse_tomorrow("25:00").is_err(), true);
    assert_eq!(parse_tomorrow("20").is_err(), true);
    assert_eq!(parse_tomorrow("1:2:3:4").is_err(), true);
    assert_eq!(parse_tomorrow("a:00").is_err(), true);
    assert_eq!(parse_tomorrow("20::").is_err(), true);
    assert_eq!(parse_tomorrow("256:00").is_err(), true);
    assert_eq!(parse_tomorrow("-1:00").is_err(), true);
    assert_eq!(parse_tomorrow(""), Err(String::from("invalid timestamp ''")));
}

#[test]
fn white_space_collapses() {
    assert_eq!(strip_white("  Alte \n\t Mensa  "), "Alte Mensa");
    assert_eq!(strip_white(""), "");
    assert_eq!(strip_white(" \u{a0} "), "");
    assert_eq!(strip_white("a(b) c"), "a(b) c");
}

#[test]
fn match_order() {
    assert_eq!(m(5, "B").cmp(&m(3, "A")), Ordering::Less);
    assert_eq!(m(3, "A").cmp(&m(3, "B")), Ordering::Less);
    assert_eq!(m(3, "B").cmp(&m(3, "A")), Ordering::Greater);
    assert_eq!(m(3, "A").cmp(&m(3, "A")), Ordering::Equal);
    assert_eq!(m(3, "Ab").cmp(&m(3, "A")), Ordering::Greater);
    assert_eq!(m(3, "Z").cmp(&m(3, "Ä")), Ordering::Less);
}

#[test]
fn menu_message_shows_best_group() {
    let mut menu = Menu::new();
    menu.insert(m(4, "Zelt"), meals(&["Suppe"]));
    menu.insert(m(9, "Mensa Reichenbach"), meals(&["Nudeln", "Salat"]));
    menu.insert(m(9, "Alte Mensa"), meals(&["Pizza"]));
    assert_eq!(menu.len(), 3);
    assert_eq!(menu.create_menu_message(), "Alte Mensa\n * Pizza\n\nMensa Reichenbach\n * Nudeln\n * Salat");
}

#[test]
fn menu_insert_replaces_equal_key() {
    let mut menu = Menu::new();
    menu.insert(m(0, "Alte Mensa"), meals(&["Pizza"]));
    menu.insert(m(0, "Alte Mensa"), meals(&["Reis"]));
    assert_eq!(menu.len(), 1);
    assert_eq!(menu.create_menu_message(), "Alte Mensa\n * Reis");
}

#[test]
fn menu_message_empty() {
    assert_eq!(Menu::new().create_menu_message(), "");
}

#[test]
fn menu_message_cut_at_limit() {
    let mut menu = Menu::new();
    let long = "x".repeat(3000);
    menu.insert(m(1, "A"), vec![long.clone()]);
    menu.insert(m(1, "B"), vec![long.clone()]);
    let text = menu.create_menu_message();
    assert_eq!(text, format!("A\n * {}\n\n...", long));
}

#[test]
fn menu_reply_texts() {
    let mut menu = Menu::new();
    menu.insert(m(0, "Alte Mensa"), meals(&["Pizza"]));
    let r = make_menu_text(&message(), Some(&menu), "https://example.org/");
    assert_eq!(r.text, "Alte Mensa\n * Pizza");
    assert!(r.disable_notification);
    assert_eq!(r.chat_id, -5);
    assert_eq!(r.reply_to_message_id, Some(11));
    let r = make_menu_text(&message(), None, "https://example.org/");
    assert_eq!(r.text, "Speiseplan konnte nicht abgerufen werden!\nhttps://example.org/");
}

#[test]
fn urls_by_time() {
    assert_eq!(menu_url((19, 59, 59), (20, 0, 0)), "https://www.studentenwerk-dresden.de/mensen/speiseplan/");
    assert_eq!(menu_url((20, 0, 0), (20, 0, 0)), "https://www.studentenwerk-dresden.de/mensen/speiseplan/morgen.html");
}

#[test]
fn matching_headings() {
    let defaults = ConfigGeneral::default_mensas();
    let a = mensa_match("Angebote Alte Mensa", None, &defaults).unwrap();
    assert_eq!(a.name, "Alte Mensa");
    assert_eq!(a.similarity, 0);
    assert!(mensa_match("Mensa Siedepunkt", None, &defaults).is_none());
    let b = mensa_match("Angebote Alte Mensa", Some("alte mensa"), &defaults).unwrap();
    assert_eq!(b.similarity, 9);
    assert_eq!(b.name, "Alte Mensa");
    let c = mensa_match("Zeltschlösschen", Some("zelt"), &defaults).unwrap();
    assert_eq!(c.similarity, 4);
    let e = mensa_match("ZELTSCHLÖSSCHEN", Some("zeltschlösschen"), &defaults).unwrap();
    assert_eq!(e.similarity, 15);
    let d = mensa_match("Angebot", Some("x"), &defaults).unwrap();
    assert_eq!(d.name, "Angebot");
}

#[test]
fn about_reply() {
    let general = ConfigGeneral {
        token: String::from("SECRET-REDACTED"),
        tomorrow: String::from("19:00"),
        retries: 3,
        retrywait: 30,
        mensas: vec![String::from("Alte Mensa"), String::from("A<B>&C")],
        patterns: vec![String::from("^essen?$")],
    };
    let deny = ConfigAccess::from_lists(vec![1], Vec::new());
    let conf = Config::from_parts(general, ConfigAccess::new(), deny);
    let r = make_about_text(&message(), &conf);
    assert_eq!(
        r.text,
        "<b>Copyright 2017-2018 Schnusch</b>\nhttps://www.github.com/schnusch/mensabot/\n\naccess: blacklist\ndefault: <code>Alte Mensa</code>, <code>A&lt;B&gt;&amp;C</code>\ntomorrow: <code>19:00</code>\npatterns:\n <code>^essen?$</code>"
    );
    assert_eq!(r.parse_mode, Some(String::from("html")));
    assert!(r.disable_notification);
}

#[test]
fn about_reply_public() {
    let general = ConfigGeneral {
        token: String::new(),
        tomorrow: String::from("20:00:00"),
        retries: 3,
        retrywait: 30,
        mensas: Vec::new(),
        patterns: Vec::new(),
    };
    let conf = Config::from_parts(general, ConfigAccess::new(), ConfigAccess::new());
    let r = make_about_text(&message(), &conf);
    assert!(r.text.ends_with("access: public\ndefault: <code>Alte Mensa</code>, <code>Zeltschlösschen</code>\ntomorrow: <code>20:00:00</code>"));
}

#[test]
fn url_for_now_is_one_of_two() {
    let u = get_menu_url((0, 0, 0));
    assert_eq!(u, "https://www.studentenwerk-dresden.de/mensen/speiseplan/morgen.html");
    let v = get_menu_url((24, 0, 0));
    assert!(v == "https://www.studentenwerk-dresden.de/mensen/speiseplan/" || v == "https://www.studentenwerk-dresden.de/mensen/speiseplan/morgen.html");
}
