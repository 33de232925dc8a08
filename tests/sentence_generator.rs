use rust_random_text_generation::sentence_generator::{join_tokens, SentenceGenerator};
use rust_random_text_generation::make_sentence_generator;

#[test]
fn untrained_generator_gives_empty_sentence() {
    let sg = SentenceGenerator::new(3);
    assert_eq!(sg.get_random_sentence(), "");
}

#[test]
fn single_sentence_is_given_back_with_spaces() {
    let mut sg = SentenceGenerator::new(3);
    sg.add_text("Hi, there!");
    assert_eq!(sg.get_random_sentence(), "Hi , there !");
}

#[test]
fn generator_from_several_texts() {
    let contents = vec!["One two.".to_string(), "Three four!".to_string()];
    let sg = make_sentence_generator(2, &contents);
    for _ in 0..50 {
        let s = sg.get_random_sentence();
        assert!(s == "One two ." || s == "Three four !", "{}", s);
    }
}

#[test]
fn tokens_are_joined_with_single_spaces() {
    assert_eq!(join_tokens(&Vec::new()), "");
    assert_eq!(join_tokens(&vec!["a".to_string()]), "a");
    assert_eq!(
        join_tokens(&vec!["a".to_string(), ",".to_string(), "b".to_string()]),
        "a , b"
    );
}
