use mensabot::levenshtein::levenshtein;
use mensabot::levenshtein::tokenize;
use mensabot::levenshtein::wordwise_levenshtein;
use mensabot::levenshtein::Distance;
use mensabot::levenshtein::Operation;

fn replay(d: &Distance, a: &str, b: &str) -> String {
    let mut ai = a.chars();
    let mut bi = b.chars();
    let mut out = String::new();
    for op in d.ops() {
        match op {
            Operation::Keep => {
                out.push(ai.next().unwrap());
                bi.next().unwrap();
            }
            Operation::Delete => {
                ai.next().unwrap();
            }
            Operation::Insert => out.push(bi.next().unwrap()),
            Operation::Subst => {
                ai.next().unwrap();
                out.push(bi.next().unwrap());
            }
        }
    }
    assert!(ai.next().is_none());
    assert!(bi.next().is_none());
    out
}

fn non_keep(d: &Distance) -> usize {
    d.ops().iter().filter(|o| !o.is_keep()).count()
}

#[test]
fn kitten_sitting_costs_three() {
    let d = levenshtein("kitten", "sitting");
    assert_eq!(d.distance, 3);
    assert_eq!(non_keep(&d), 3);
    assert_eq!(replay(&d, "kitten", "sitting"), "sitting");
}

#[test]
fn kitten_sitting_trace() {
    let d = levenshtein("kitten", "sitting");
    assert_eq!(d.trace(), "!===!=+");
    assert_eq!(d.len(), 7);
    assert!(matches!(d.get_last_operation(), Operation::Insert));
}

#[test]
fn empty_inputs() {
    let d = levenshtein("", "");
    assert_eq!(d.distance, 0);
    assert_eq!(d.len(), 0);
    assert_eq!(d.trace(), "");
    let d = levenshtein("", "abc");
    assert_eq!(d.distance, 3);
    assert_eq!(d.trace(), "+++");
    let d = levenshtein("abc", "");
    assert_eq!(d.distance, 3);
    assert_eq!(d.trace(), "---");
}

#[test]
fn distance_symmetric_and_zero_on_self() {
    let words = ["", "a", "mensa", "Mensa", "Zeltschlösschen", "zelt", "alte mensa", "kitten"];
    for a in words.iter() {
        assert_eq!(levenshtein(a, a).distance, 0);
        for b in words.iter() {
            assert_eq!(levenshtein(a, b).distance, levenshtein(b, a).distance);
        }
    }
}

#[test]
fn distance_triangle() {
    let words = ["", "ab", "ba", "abc", "kitten", "sitting", "mitten", "Siebeneichen", "Reichenbach"];
    for a in words.iter() {
        for b in words.iter() {
            for c in words.iter() {
                let ac = levenshtein(a, c).distance;
                let ab = levenshtein(a, b).distance;
                let bc = levenshtein(b, c).distance;
                assert!(ac <= ab + bc);
            }
        }
    }
}

#[test]
fn cost_counts_non_keep_and_replay_round_trips() {
    let pairs = [("flaw", "lawn"), ("Zeltschlösschen", "zeltschloesschen"), ("", "x"), ("abc", "abc"), ("intention", "execution")];
    for (a, b) in pairs.iter() {
        let d = levenshtein(a, b);
        assert_eq!(d.distance, non_keep(&d));
        assert_eq!(replay(&d, a, b), *b);
    }
    assert_eq!(levenshtein("intention", "execution").distance, 5);
    assert_eq!(levenshtein("flaw", "lawn").distance, 2);
}

#[test]
fn unicode_counts_code_points() {
    assert_eq!(levenshtein("ö", "o").distance, 1);
    assert_eq!(levenshtein("schlösschen", "schlosschen").distance, 1);
}

#[test]
fn repeated_calls_agree() {
    let a = levenshtein("Neue Mensa", "mensa neue");
    let b = levenshtein("Neue Mensa", "mensa neue");
    assert!(a == b);
    assert_eq!(a.trace(), b.trace());
    assert_eq!(wordwise_levenshtein("alte mensa", "mensa"), wordwise_levenshtein("alte mensa", "mensa"));
}

#[test]
fn long_scripts_span_several_words() {
    let a = "a".repeat(40);
    let b = "b".repeat(45);
    let d = levenshtein(&a, &b);
    assert_eq!(d.distance, 45);
    assert_eq!(d.len(), 45);
    assert_eq!(replay(&d, &a, &b), b);
}

#[test]
fn equality_differs_from_order() {
    let x = levenshtein("ab", "ba");
    let y = levenshtein("ab", "xb");
    assert_eq!(x.distance, 2);
    assert_eq!(y.distance, 1);
    assert_eq!(x.cmp(&y), std::cmp::Ordering::Greater);
    let p = levenshtein("ab", "ac");
    let q = levenshtein("ab", "cb");
    assert_eq!(p.cmp(&q), std::cmp::Ordering::Equal);
    assert!(!(p == q));
}

#[test]
fn iterator_walks_operations() {
    let d = levenshtein("ab", "abc");
    let mut it = d.iter();
    assert!(matches!(it.next(), Some(Operation::Keep)));
    assert!(matches!(it.next(), Some(Operation::Keep)));
    assert!(matches!(it.next(), Some(Operation::Insert)));
    assert!(it.next().is_none());
}

#[test]
fn next_extends_a_script() {
    let d = Distance::new().next(Operation::Keep).next(Operation::Subst);
    assert_eq!(d.distance, 1);
    assert_eq!(d.trace(), "=!");
}

#[test]
fn tokenize_splits_on_space_and_delimiters() {
    assert_eq!(tokenize("Angebote Alte Mensa:"), vec!["Angebote", "Alte", "Mensa"]);
    assert_eq!(tokenize("  Mensa (Reichenbach)\tSiedepunkt:x "), vec!["Mensa", "Reichenbach", "Siedepunkt", "x"]);
    assert_eq!(tokenize(""), Vec::<String>::new());
    assert_eq!(tokenize(" ():: "), Vec::<String>::new());
}

#[test]
fn alignment_of_lower_case_names() {
    assert_eq!(wordwise_levenshtein("alte mensa", "alte mensa"), 9);
    assert_eq!(wordwise_levenshtein("mensa alte", "alte mensa"), 9);
}

#[test]
fn alignment_does_not_fold_case() {
    // "Alte"/"alte" and "Mensa"/"mensa" each differ in one letter.
    assert_eq!(wordwise_levenshtein("Alte Mensa", "alte mensa"), 7);
}

#[test]
fn alignment_with_self_is_total_word_length() {
    for s in ["Alte Mensa", "Mensa Siedepunkt (Zelt)", "", "a b c", "Zeltschlösschen"].iter() {
        let total: usize = tokenize(s).iter().map(|t| t.chars().count()).sum();
        assert_eq!(wordwise_levenshtein(s, s), total);
    }
}

#[test]
fn alignment_with_padding() {
    assert_eq!(wordwise_levenshtein("", "alte mensa"), 0);
    assert_eq!(wordwise_levenshtein("alte", "alte mensa"), 4);
    assert_eq!(wordwise_levenshtein("alte mensa", "mensa"), 5);
    // "zelt" against "zeltschlösschen": 15 - 11 = 4.
    assert_eq!(wordwise_levenshtein("zelt", "zeltschlösschen"), 4);
}
