use prefix_trie::Trie;

fn vocabulary() -> Trie {
    let mut t = Trie::new();
    for w in ["hello", "test", "testing", "world", "worldly", "hellokitty", "ant", "an"] {
        t.insert(w);
    }
    t
}

#[test]
fn empty_trie_holds_no_word() {
    let t = Trie::new();
    assert!(!t.search("a", true));
    assert!(!t.search("a", false));
    assert!(!t.search("", true));
    assert_eq!(t.suggest("a"), "");
    assert_eq!(t.suggest(""), "");
    assert_eq!(t.get_string(), "");
}

#[test]
fn empty_path_is_always_a_path() {
    let t = Trie::new();
    assert!(t.search("", false));
    let t = vocabulary();
    assert!(t.search("", false));
    assert!(!t.search("", true));
}

#[test]
fn inserted_words_are_found() {
    let t = vocabulary();
    for w in ["hello", "test", "testing", "world", "worldly", "hellokitty", "ant", "an"] {
        assert!(t.search(w, true), "{}", w);
        assert!(t.search(w, false), "{}", w);
    }
}

#[test]
fn unknown_words_are_not_found() {
    let t = vocabulary();
    for w in ["abc", "b", "hellos", "tests", "worlds", "antler", "x", "Hello"] {
        assert!(!t.search(w, true), "{}", w);
        assert!(!t.search(w, false), "{}", w);
    }
}

#[test]
fn prefixes_are_paths_but_not_words() {
    let t = vocabulary();
    for p in ["h", "he", "hel", "hell", "hellok", "t", "tes", "testi", "w", "worldl", "a"] {
        assert!(t.search(p, false), "{}", p);
        assert!(!t.search(p, true), "{}", p);
    }
    assert!(t.search("test", true));
    assert!(t.search("an", true));
    assert!(t.search("world", true));
}

#[test]
fn longer_word_then_its_prefix() {
    let mut t = Trie::new();
    t.insert("ant");
    t.insert("an");
    assert!(t.search("ant", true));
    assert!(t.search("an", true));
    assert!(!t.search("a", true));
    assert_eq!(t.suggest("a"), "an, ant");
}

#[test]
fn prefix_then_longer_word() {
    let mut t = Trie::new();
    t.insert("an");
    t.insert("ant");
    assert!(t.search("ant", true));
    assert!(t.search("an", true));
    assert!(!t.search("a", true));
    assert_eq!(t.suggest("a"), "an, ant");
}

#[test]
fn insertion_order_does_not_matter() {
    let words = ["b", "abc", "ab", "a", "bcd", "abd"];
    let mut forward = Trie::new();
    for w in words {
        forward.insert(w);
    }
    let mut backward = Trie::new();
    for w in words.iter().rev() {
        backward.insert(w);
    }
    assert_eq!(forward.get_string(), "a, ab, abc, abd, b, bcd");
    assert_eq!(backward.get_string(), forward.get_string());
    for p in ["", "a", "ab", "abc", "b", "bc", "c"] {
        assert_eq!(forward.suggest(p), backward.suggest(p));
        assert_eq!(forward.search(p, true), backward.search(p, true));
        assert_eq!(forward.search(p, false), backward.search(p, false));
    }
}

#[test]
fn suggest_lists_the_words_with_the_prefix() {
    let t = vocabulary();
    assert_eq!(t.suggest("he"), "hello, hellokitty");
    assert_eq!(t.suggest("a"), "an, ant");
    assert_eq!(t.suggest("t"), "test, testing");
    assert_eq!(t.suggest("testi"), "testing");
    assert_eq!(t.suggest("world"), "world, worldly");
    assert_eq!(t.suggest("worldly"), "worldly");
}

#[test]
fn suggest_gives_each_word_once_and_in_order() {
    let t = vocabulary();
    let listed = t.suggest("");
    let got: Vec<&str> = listed.split(", ").collect();
    let mut want = vec!["hello", "test", "testing", "world", "worldly", "hellokitty", "ant", "an"];
    want.sort();
    assert_eq!(got, want);
    assert_eq!(t.suggest(""), listed);
}

#[test]
fn suggest_off_the_tree_is_empty() {
    let t = vocabulary();
    assert_eq!(t.suggest("abc"), "");
    assert_eq!(t.suggest("x"), "");
    assert_eq!(t.suggest("hellos"), "");
    assert_eq!(t.suggest("worldlyx"), "");
}

#[test]
fn inserting_twice_changes_nothing() {
    let mut once = Trie::new();
    let mut twice = Trie::new();
    for w in ["an", "ant", "bee"] {
        once.insert(w);
        twice.insert(w);
        twice.insert(w);
    }
    twice.insert("an");
    twice.insert("bee");
    assert_eq!(once.get_string(), "an, ant, bee");
    assert_eq!(twice.get_string(), "an, ant, bee");
    for p in ["", "a", "an", "ant", "b", "be", "bee", "c"] {
        assert_eq!(once.suggest(p), twice.suggest(p));
        assert_eq!(once.search(p, true), twice.search(p, true));
        assert_eq!(once.search(p, false), twice.search(p, false));
    }
}

#[test]
fn end_to_end() {
    let t = vocabulary();
    assert!(t.search("hello", true));
    assert!(!t.search("hell", true));
    assert!(t.search("hell", false));
    assert!(!t.search("abc", true));
    assert!(t.search("ant", true));
    assert!(t.search("an", true));
    assert_eq!(t.suggest("he"), "hello, hellokitty");
    assert_eq!(t.suggest("a"), "an, ant");
    assert_eq!(
        t.get_string(),
        "an, ant, hello, hellokitty, test, testing, world, worldly"
    );
}

#[test]
fn listing_is_in_ascending_order_of_characters() {
    let mut t = Trie::new();
    for w in ["b", "a", "B", "ab", "aa", "Z", "é", "z"] {
        t.insert(w);
    }
    assert_eq!(t.get_string(), "B, Z, a, aa, ab, b, z, é");
}

#[test]
fn a_word_comes_before_its_extensions() {
    let mut t = Trie::new();
    for w in ["abc", "a", "ab", "abcd"] {
        t.insert(w);
    }
    assert_eq!(t.suggest("a"), "a, ab, abc, abcd");
    assert_eq!(t.suggest("ab"), "ab, abc, abcd");
    assert_eq!(t.suggest("abcd"), "abcd");
}

#[test]
fn the_empty_word_ends_at_the_root() {
    let mut t = Trie::new();
    t.insert("");
    assert!(t.search("", true));
    assert!(t.search("", false));
    assert_eq!(t.suggest(""), "");
    assert_eq!(t.get_string(), "");
    t.insert("a");
    assert!(t.search("", true));
    assert!(t.search("a", true));
    assert_eq!(t.suggest(""), ", a");
    assert_eq!(t.suggest("a"), "a");
    assert_eq!(t.get_string(), "a");
}

#[test]
fn the_empty_prefix_suggests_every_word() {
    let t = vocabulary();
    assert_eq!(t.suggest(""), t.get_string());
}

#[test]
fn words_of_other_scripts() {
    let mut t = Trie::new();
    t.insert("über");
    t.insert("übel");
    t.insert("日本語");
    t.insert("日本");
    assert!(t.search("日本", true));
    assert!(t.search("日", false));
    assert!(!t.search("日", true));
    assert_eq!(t.suggest("üb"), "übel, über");
    assert_eq!(t.suggest("日"), "日本, 日本語");
    assert_eq!(t.get_string(), "übel, über, 日本, 日本語");
}

#[test]
fn many_children_stay_in_order() {
    let mut t = Trie::new();
    let letters = "qwertyuiopasdfghjklzxcvbnm";
    for c in letters.chars() {
        t.insert(&c.to_string());
    }
    let mut sorted: Vec<String> = letters.chars().map(|c| c.to_string()).collect();
    sorted.sort();
    assert_eq!(t.get_string(), sorted.join(", "));
    for c in letters.chars() {
        assert!(t.search(&c.to_string(), true));
    }
    assert!(!t.search("A", false));
}
