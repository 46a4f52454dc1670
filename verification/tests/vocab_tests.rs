use prefix_trie::Trie;
use prefix_trie::vocab::{field_end, is_separator_char, is_space_char, trim_bounds};

fn chars(s: &str) -> Vec<char> {
    s.chars().collect()
}

#[test]
fn separators_are_comma_and_line_feed() {
    assert!(is_separator_char(','));
    assert!(is_separator_char('\n'));
    assert!(!is_separator_char('\r'));
    assert!(!is_separator_char(' '));
    assert!(!is_separator_char(';'));
    assert!(!is_separator_char('a'));
}

#[test]
fn white_space_is_what_the_standard_library_trims() {
    let mut code: u32 = 0;
    while code <= 0x10FFFF {
        if let Some(c) = char::from_u32(code) {
            assert_eq!(is_space_char(c), c.is_whitespace(), "U+{:04X}", code);
        }
        code += 1;
    }
}

#[test]
fn white_space_examples() {
    for c in [' ', '\t', '\n', '\r', '\u{b}', '\u{c}', '\u{85}', '\u{a0}', '\u{2003}', '\u{3000}'] {
        assert!(is_space_char(c));
    }
    for c in ['a', ',', '0', '\u{8}', '\u{e}', '\u{200b}', '\u{180e}', '\u{feff}'] {
        assert!(!is_space_char(c));
    }
}

#[test]
fn field_ends_at_the_next_separator() {
    let text = chars("ab,cd\nef");
    assert_eq!(field_end(&text, 0), 2);
    assert_eq!(field_end(&text, 1), 2);
    assert_eq!(field_end(&text, 2), 2);
    assert_eq!(field_end(&text, 3), 5);
    assert_eq!(field_end(&text, 6), 8);
    assert_eq!(field_end(&text, 8), 8);
    assert_eq!(field_end(&chars(""), 0), 0);
}

#[test]
fn trimming_takes_white_space_off_both_ends() {
    let text = chars("  ab c \t");
    assert_eq!(trim_bounds(&text, 0, 8), (2, 6));
    assert_eq!(trim_bounds(&text, 2, 6), (2, 6));
    assert_eq!(trim_bounds(&text, 0, 2), (2, 2));
    assert_eq!(trim_bounds(&text, 0, 0), (0, 0));
    assert_eq!(trim_bounds(&text, 4, 8), (5, 6));
    let blank = chars(" \t \r");
    assert_eq!(trim_bounds(&blank, 0, 4), (4, 4));
}

#[test]
fn loads_words_between_commas_and_line_ends() {
    let mut t = Trie::new();
    t.load_from_txt("hello, test, testing\nworld,worldly\nhellokitty\nant, an\n");
    assert_eq!(
        t.get_string(),
        "an, ant, hello, hellokitty, test, testing, world, worldly"
    );
    assert!(t.search("hello", true));
    assert!(!t.search("hell", true));
    assert!(t.search("hell", false));
    assert!(!t.search("abc", true));
    assert_eq!(t.suggest("he"), "hello, hellokitty");
    assert_eq!(t.suggest("a"), "an, ant");
}

#[test]
fn loading_skips_fields_of_white_space() {
    let mut t = Trie::new();
    t.load_from_txt(",, a ,\n\n ,\t,b,,\n   \n");
    assert_eq!(t.get_string(), "a, b");
    assert!(!t.search("", true));
    assert!(!t.search(" ", false));
}

#[test]
fn loading_nothing_changes_nothing() {
    let mut t = Trie::new();
    t.load_from_txt("");
    assert_eq!(t.get_string(), "");
    assert!(!t.search("", true));
    t.insert("a");
    t.load_from_txt("\n\n");
    assert_eq!(t.get_string(), "a");
}

#[test]
fn loading_keeps_white_space_inside_a_word() {
    let mut t = Trie::new();
    t.load_from_txt("  new york ,  rio\tde janeiro\n");
    assert!(t.search("new york", true));
    assert!(t.search("rio\tde janeiro", true));
    assert!(!t.search("new", true));
    assert!(t.search("new", false));
    assert_eq!(t.get_string(), "new york, rio\tde janeiro");
}

#[test]
fn loading_takes_carriage_returns_off_line_ends() {
    let mut t = Trie::new();
    t.load_from_txt("one,two\r\nthree\r\n");
    assert_eq!(t.get_string(), "one, three, two");
    assert!(t.search("two", true));
    assert!(!t.search("two\r", false));
}

#[test]
fn loading_adds_to_what_is_there() {
    let mut t = Trie::new();
    t.insert("zebra");
    t.insert("ant");
    t.load_from_txt("ant, bee");
    assert_eq!(t.get_string(), "ant, bee, zebra");
}

#[test]
fn loading_agrees_with_splitting_by_hand() {
    let text = " alpha,beta ,\ngamma\r\n, delta  epsilon ,\u{a0}zeta\u{2003}\n\n,eta";
    let mut loaded = Trie::new();
    loaded.load_from_txt(text);
    let mut by_hand = Trie::new();
    for line in text.lines() {
        for w in line.split(",") {
            let d = w.trim();
            if d != "" {
                by_hand.insert(d);
            }
        }
    }
    assert_eq!(loaded.get_string(), by_hand.get_string());
    assert_eq!(
        loaded.get_string(),
        "alpha, beta, delta  epsilon, eta, gamma, zeta"
    );
}
