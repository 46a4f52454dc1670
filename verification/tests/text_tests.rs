use prefix_trie::text::{chars_of, join, string_of};

#[test]
fn chars_of_gives_the_characters_in_order() {
    assert_eq!(chars_of("abc"), vec!['a', 'b', 'c']);
    assert_eq!(chars_of(""), Vec::<char>::new());
    assert_eq!(chars_of("é日a"), vec!['é', '日', 'a']);
}

#[test]
fn string_of_gives_the_part_between_the_bounds() {
    let chars = vec!['h', 'e', 'l', 'l', 'o'];
    assert_eq!(string_of(&chars, 0, 5), "hello");
    assert_eq!(string_of(&chars, 1, 3), "el");
    assert_eq!(string_of(&chars, 2, 2), "");
    assert_eq!(string_of(&chars, 5, 5), "");
    assert_eq!(string_of(&chars, 4, 5), "o");
}

#[test]
fn join_puts_a_comma_and_a_space_between_words() {
    let none: Vec<String> = Vec::new();
    assert_eq!(join(&none), "");
    assert_eq!(join(&vec!["one".to_string()]), "one");
    assert_eq!(join(&vec!["one".to_string(), "two".to_string()]), "one, two");
    assert_eq!(
        join(&vec!["a".to_string(), "".to_string(), "b".to_string()]),
        "a, , b"
    );
    assert_eq!(join(&vec!["".to_string()]), "");
    assert_eq!(join(&vec!["".to_string(), "".to_string()]), ", ");
}

#[test]
fn join_agrees_with_the_standard_library() {
    let words: Vec<String> = ["x", "yy", "", "zzz", "é"].iter().map(|w| w.to_string()).collect();
    assert_eq!(join(&words), words.join(", "));
}
