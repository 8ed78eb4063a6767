use reco_forge::filter;
use reco_forge::text::{remove_article, remove_num, remove_punct};

#[test]
fn punctuation_removed() {
    assert_eq!(remove_punct("Hello, world! Is it - ok?".to_string()), "Hello world Is it  ok");
}

#[test]
fn digits_removed() {
    assert_eq!(remove_num("abc123 4x".to_string()), "abc x");
}

#[test]
fn stop_words_removed() {
    assert_eq!(remove_article("the cat and a dog".to_string()), "cat dog ");
    assert_eq!(remove_article("".to_string()), " ");
    assert_eq!(remove_article("a  b".to_string()), " b ");
    assert_eq!(remove_article("The games".to_string()), "The ");
}

#[test]
fn filter_combines_all_three() {
    assert_eq!(filter("The 3 games, and fun!".to_string()), "The  games fun ");
}
