use rust_random_text_generation::parse_sentences::{from_text, is_punctuation, is_sentence_terminator};

#[test]
fn parsing_sentences() {
    let tests = vec![
        (
            "Hi, how are you?",
            vec![vec!["Hi", ",", "how", "are", "you", "?"]],
        ),
        (
            "Hi, how are you? I am fine thanks!",
            vec![
                vec!["Hi", ",", "how", "are", "you", "?"],
                vec!["I", "am", "fine", "thanks", "!"],
            ],
        ),
        (
            "Hi, how are you? Fine",
            vec![vec!["Hi", ",", "how", "are", "you", "?"], vec!["Fine"]],
        ),
    ];
    for (t1, s1) in tests {
        assert_eq!(from_text(t1), s1);
    }
}

#[test]
fn tokenizing_twice_gives_the_same_sentences() {
    let text = "Who are you? I'm nobody!  Are you - nobody, too?";
    assert_eq!(from_text(text), from_text(text));
}

#[test]
fn two_sentences_with_terminators() {
    assert_eq!(
        from_text("Hi, how are you? I am fine thanks!"),
        vec![
            vec!["Hi", ",", "how", "are", "you", "?"],
            vec!["I", "am", "fine", "thanks", "!"],
        ]
    );
}

#[test]
fn open_sentence_at_the_end_is_kept() {
    assert_eq!(
        from_text("Hi, how are you? Fine"),
        vec![vec!["Hi", ",", "how", "are", "you", "?"], vec!["Fine"]]
    );
}

#[test]
fn empty_and_blank_text_have_no_sentences() {
    assert!(from_text("").is_empty());
    assert!(from_text("   \n\t ").is_empty());
}

#[test]
fn consecutive_terminators_make_no_empty_sentence() {
    assert_eq!(from_text("Wait!?"), vec![vec!["Wait", "!"], vec!["?"]]);
    assert_eq!(from_text("Go. . ."), vec![vec!["Go", "."], vec!["."], vec!["."]]);
}

#[test]
fn other_characters_are_dropped_and_apostrophes_kept() {
    assert_eq!(
        from_text("don't  st#op (now)."),
        vec![vec!["don't", "stop", "now", "."]]
    );
}

#[test]
fn every_mark_is_a_token() {
    assert_eq!(
        from_text("a;b,c:d-e\"f."),
        vec![vec!["a", ";", "b", ",", "c", ":", "d", "-", "e", "\"", "f", "."]]
    );
}

#[test]
fn marks_are_classified() {
    for c in [';', ',', ':', '-', '"', '?', '!', '.'] {
        assert!(is_punctuation(c));
    }
    assert!(!is_punctuation('\''));
    assert!(!is_punctuation('a'));
    assert!(is_sentence_terminator('?'));
    assert!(is_sentence_terminator('!'));
    assert!(is_sentence_terminator('.'));
    assert!(!is_sentence_terminator(','));
}
