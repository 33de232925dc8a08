use rust_random_text_generation::parse_sentences::from_text;
use rust_random_text_generation::prefix_table::{Prefix, PrefixTable, WordDistribution};

const POEM: &str = "\
I'm nobody! Who are you?
Are you nobody, too?
Then there's a pair of us - don't tell!
They'd banish us, you know.

How dreary to be somebody!
How public, like a frog
To tell your name the livelong day
To an admiring bog!

Are you nobody, as well?";

fn words(ws: &[&str]) -> Vec<String> {
    ws.iter().map(|w| w.to_string()).collect()
}

#[test]
fn prefix_table() {
    let mut prefix_table = PrefixTable::new(3);
    for sentence in from_text(POEM) {
        prefix_table.add_sentence(sentence);
    }
    assert_eq!(prefix_table.prefix_length(), 3);
    assert_eq!(prefix_table.len(), 57);
    assert_eq!(prefix_table.count(&words(&["Are", "you", "nobody"]), ","), 2);
}

#[test]
fn prefix_test() {
    let mut prefix = Prefix::new(2);
    prefix.push("hi");
    prefix.push("ho");
    assert_eq!(*prefix.words(), vec!["hi", "ho"]);

    prefix.push("lets go");
    assert_eq!(*prefix.words(), vec!["ho", "lets go"]);
}

#[test]
fn new_distribution() {
    let words = vec!["hi", "ho", "hi"];
    let mut distribution = WordDistribution::new();
    for word in words {
        distribution.add(word);
    }
    assert_eq!(distribution.total(), 3, "Total should be 3");
    assert_eq!(distribution.count("hi"), 2, "hi should have frequency 2");
}

#[test]
fn total_is_the_number_of_adds() {
    let mut d = WordDistribution::new();
    assert_eq!(d.total(), 0);
    let ws = ["a", "b", "a", "c", "a", "b"];
    for (k, w) in ws.iter().enumerate() {
        d.add(w);
        assert_eq!(d.total() as usize, k + 1);
    }
    assert_eq!(d.count("a") + d.count("b") + d.count("c"), d.total());
    assert_eq!(d.count("a"), 3);
    assert_eq!(d.count("b"), 2);
    assert_eq!(d.count("c"), 1);
    assert_eq!(d.count("z"), 0);
}

#[test]
fn select_follows_the_count_ranges() {
    let mut d = WordDistribution::new();
    d.add("hi");
    d.add("ho");
    d.add("hi");
    assert_eq!(d.select(0), Some("hi".to_string()));
    assert_eq!(d.select(1), Some("hi".to_string()));
    assert_eq!(d.select(2), Some("ho".to_string()));
    assert_eq!(d.select(3), None);
}

#[test]
fn sampling_returns_only_added_tokens() {
    let empty = WordDistribution::new();
    assert_eq!(empty.get_random(), None);
    let mut d = WordDistribution::new();
    d.add("x");
    d.add("y");
    d.add("y");
    let mut seen_x = 0;
    let mut seen_y = 0;
    for _ in 0..3000 {
        match d.get_random().as_deref() {
            Some("x") => seen_x += 1,
            Some("y") => seen_y += 1,
            other => panic!("unexpected draw {:?}", other),
        }
    }
    assert!(seen_x > 700 && seen_x < 1300);
    assert!(seen_y > 1700 && seen_y < 2300);
}

#[test]
fn prefix_keeps_the_last_tokens() {
    let mut prefix = Prefix::new(3);
    let pushed = ["a", "b", "c", "d", "e"];
    for (k, w) in pushed.iter().enumerate() {
        prefix.push(w);
        let kept = (k + 1).min(3);
        assert_eq!(prefix.words().len(), kept);
        assert_eq!(*prefix.words(), pushed[k + 1 - kept..k + 1].to_vec());
    }
}

#[test]
fn prefix_of_length_zero_stays_empty() {
    let mut prefix = Prefix::new(0);
    prefix.push("a");
    assert!(prefix.words().is_empty());
}

#[test]
fn walk_uses_only_trained_tokens() {
    let mut table = PrefixTable::new(2);
    let sentences = from_text(POEM);
    for sentence in sentences.clone() {
        table.add_sentence(sentence);
    }
    for _ in 0..200 {
        for token in table.walk() {
            assert!(sentences.iter().any(|s| s.contains(&token)), "{}", token);
        }
    }
}

#[test]
fn walk_ends_on_a_self_loop() {
    let mut table = PrefixTable::new(1);
    table.add_sentence(words(&["a", "a", "a", "a", "."]));
    for _ in 0..100 {
        let out = table.walk();
        assert!(out.iter().all(|t| t == "a" || t == "."));
    }
}

#[test]
fn walk_of_a_single_sentence_repeats_it() {
    let mut table = PrefixTable::new(3);
    table.add_sentence(words(&["Hi", "there", "."]));
    assert_eq!(table.walk(), words(&["Hi", "there", "."]));
    assert_eq!(table.len(), 4);
    assert_eq!(table.count(&words(&["", "Hi", "there"]), "."), 1);
    assert_eq!(table.count(&words(&["Hi", "there", "."]), ""), 1);
}

#[test]
fn untrained_walk_is_empty() {
    let table = PrefixTable::new(3);
    assert!(table.walk().is_empty());
    assert_eq!(table.len(), 0);
}

#[test]
fn prefix_length_zero_is_one_state() {
    let mut table = PrefixTable::new(0);
    for sentence in from_text("a b. b c!") {
        table.add_sentence(sentence);
    }
    assert_eq!(table.len(), 1);
    assert_eq!(table.count(&Vec::new(), "b"), 2);
    assert_eq!(table.count(&Vec::new(), ""), 2);
    for token in table.walk() {
        assert!(["a", "b", "c", ".", "!"].contains(&token.as_str()));
    }
}
