use summarizer::split::{chars_of, is_delimiter, is_terminator, Cut, Source};

fn literal(p: &str) -> Cut {
    Cut::Literal(p.chars().collect())
}

fn agrees_with_std(text: &str, pattern: &str) {
    let ours = Source::new(text).split(&literal(pattern));
    let theirs: Vec<&str> = text.split(pattern).collect();
    assert_eq!(ours, theirs, "text {:?}, pattern {:?}", text, pattern);
}

#[test]
fn delimiters_are_the_eighteen() {
    let all = ".!?,;)({}[]:\"'\r\n\t ";
    assert_eq!(all.chars().count(), 18);
    for c in all.chars() {
        assert!(is_delimiter(c), "{:?}", c);
    }
    for c in "aZ09-_/\\@#*+=<>|~`\u{a0}\u{2028}é".chars() {
        assert!(!is_delimiter(c), "{:?}", c);
    }
}

#[test]
fn terminators_are_the_three() {
    for c in ".?!".chars() {
        assert!(is_terminator(c));
    }
    for c in ",;: \n\ra".chars() {
        assert!(!is_terminator(c));
    }
}

#[test]
fn chars_of_keeps_every_character() {
    assert_eq!(chars_of("aé\n"), vec!['a', 'é', '\n']);
    assert_eq!(chars_of(""), Vec::<char>::new());
}

#[test]
fn source_slices_by_characters() {
    let plain = Source::new("hello world");
    assert_eq!(plain.len(), 11);
    assert_eq!(plain.char_at(4), 'o');
    assert_eq!(plain.slice(6, 11), "world");
    assert_eq!(plain.slice(3, 3), "");
    let wide = Source::new("héllo wörld");
    assert_eq!(wide.len(), 11);
    assert_eq!(wide.char_at(1), 'é');
    assert_eq!(wide.slice(6, 11), "wörld");
    assert_eq!(wide.slice(0, 2), "hé");
}

#[test]
fn source_finds_occurrences() {
    let src = Source::new("a, b.c");
    assert!(src.occurs_at(&Cut::Delimiters, 1));
    assert!(src.occurs_at(&Cut::Delimiters, 2));
    assert!(!src.occurs_at(&Cut::Delimiters, 3));
    assert!(src.occurs_at(&Cut::Terminators, 4));
    assert!(!src.occurs_at(&Cut::Terminators, 1));
    assert!(src.occurs_at(&literal(", b"), 1));
    assert!(!src.occurs_at(&literal(", c"), 1));
    assert!(!src.occurs_at(&literal(".cd"), 4));
    assert!(src.occurs_at(&literal(""), 5));
}

#[test]
fn words_include_the_empty_ones() {
    let words = Source::new("cat dog.\n\ncat cat bird.").split(&Cut::Delimiters);
    assert_eq!(words, vec!["cat", "dog", "", "", "cat", "cat", "bird", ""]);
    let theirs: Vec<&str> = "cat dog.\n\ncat cat bird.".split(is_delimiter).collect();
    assert_eq!(words, theirs);
    assert_eq!(Source::new("").split(&Cut::Delimiters), vec![""]);
    assert_eq!(Source::new(" ").split(&Cut::Delimiters), vec!["", ""]);
}

#[test]
fn sentences_end_at_each_terminator() {
    let units = Source::new("cat dog.\n\ncat cat bird.").split(&Cut::Terminators);
    assert_eq!(units, vec!["cat dog", "\n\ncat cat bird", ""]);
    let units = Source::new("What?! No...").split(&Cut::Terminators);
    assert_eq!(units, vec!["What", "", " No", "", "", ""]);
    assert_eq!(Source::new("no end").split(&Cut::Terminators), vec!["no end"]);
}

#[test]
fn literal_split_agrees_with_std() {
    let texts = ["", "a", "aa", "aaa", "aaaa", "abab", "a\n\nb\n\n\nc", "\n\n", "xaxbx", "ééaéé"];
    for text in texts {
        for pattern in ["a", "aa", "ab", "\n\n", "\r\n\r\n", "x", "é", "éa", "aaaaa", ""] {
            agrees_with_std(text, pattern);
        }
    }
}

#[test]
fn literal_split_takes_the_leftmost_and_does_not_overlap() {
    assert_eq!(Source::new("aaa").split(&literal("aa")), vec!["", "a"]);
    assert_eq!(Source::new("a\n\n\nb").split(&literal("\n\n")), vec!["a", "\nb"]);
    assert_eq!(Source::new("a\r\n\r\nb").split(&literal("\r\n\r\n")), vec!["a", "b"]);
    assert_eq!(Source::new("a\r\n\r\nb").split(&literal("\n\n")), vec!["a\r\n\r\nb"]);
}

#[test]
fn empty_literal_leaves_each_character() {
    assert_eq!(Source::new("rust").split(&literal("")), vec!["", "r", "u", "s", "t", ""]);
    assert_eq!(Source::new("").split(&literal("")), vec!["", ""]);
}
