use vfinder::text::{
    copy_texts, is_blank_char, is_hidden_name, join_path, path_below, split_words,
};

fn list(words: &[&str]) -> Vec<String> {
    words.iter().map(|s| s.to_string()).collect()
}

#[test]
fn hidden_names_start_with_a_dot() {
    assert!(is_hidden_name(".hidden"));
    assert!(is_hidden_name("."));
    assert!(is_hidden_name(".."));
    assert!(is_hidden_name(".é"));
    assert!(!is_hidden_name(""));
    assert!(!is_hidden_name("a.txt"));
    assert!(!is_hidden_name("a."));
    assert!(!is_hidden_name(" .a"));
}

#[test]
fn blanks_are_space_tab_and_line_ends() {
    for c in [' ', '\t', '\n', '\r'] {
        assert!(is_blank_char(c));
    }
    for c in ['a', '-', '.', '\u{a0}', '\u{b}', '\0'] {
        assert!(!is_blank_char(c));
    }
}

#[test]
fn words_are_runs_without_blanks() {
    assert_eq!(split_words(""), list(&[]));
    assert_eq!(split_words("   "), list(&[]));
    assert_eq!(split_words("one"), list(&["one"]));
    assert_eq!(split_words(" one"), list(&["one"]));
    assert_eq!(split_words("one "), list(&["one"]));
    assert_eq!(split_words("one two"), list(&["one", "two"]));
    assert_eq!(split_words("\tone \r\n two\n"), list(&["one", "two"]));
    assert_eq!(split_words("a b c d"), list(&["a", "b", "c", "d"]));
    assert_eq!(split_words("naïve café"), list(&["naïve", "café"]));
}

#[test]
fn copy_keeps_every_string() {
    assert_eq!(copy_texts(&list(&[])), list(&[]));
    assert_eq!(copy_texts(&list(&["a", "", "b c"])), list(&["a", "", "b c"]));
}

#[test]
fn components_are_joined_with_slashes() {
    assert_eq!(join_path(&list(&[])), "");
    assert_eq!(join_path(&list(&["a.txt"])), "a.txt");
    assert_eq!(join_path(&list(&["sub", "b.txt"])), "sub/b.txt");
    assert_eq!(join_path(&list(&["a", "b", "c"])), "a/b/c");
    assert_eq!(join_path(&list(&["", "x"])), "/x");
}

#[test]
fn path_below_a_root() {
    assert_eq!(path_below("/tmp/t", &list(&[])), "/tmp/t");
    assert_eq!(path_below("/tmp/t", &list(&["a.txt"])), "/tmp/t/a.txt");
    assert_eq!(path_below("/tmp/t", &list(&["sub", "b.txt"])), "/tmp/t/sub/b.txt");
    assert_eq!(path_below("", &list(&["etc"])), "/etc");
}
