use summarizer::split::is_delimiter;
use summarizer::summary::{is_short, split_into_units};
use summarizer::{analyze, run, summarize, Digest, Paragraph, Summary};

fn triples(ranked: &[Digest]) -> Vec<(String, usize, usize)> {
    ranked.iter().map(|d| (d.text.to_string(), d.score, d.index)).collect()
}

fn ok(s: &str) -> Result<String, std::io::Error> {
    Ok(s.to_string())
}

fn missing() -> Result<String, std::io::Error> {
    Err(std::io::Error::new(std::io::ErrorKind::NotFound, "no such file"))
}

#[test]
fn sentences_of_two_paragraphs_are_ranked() {
    let ranked = analyze("", "cat dog.\n\ncat cat bird.", Summary::Sentence);
    assert_eq!(
        triples(&ranked),
        vec![
            ("\n\ncat cat bird".to_string(), 7, 1),
            ("cat dog".to_string(), 4, 0),
            ("".to_string(), 0, 2),
        ]
    );
}

#[test]
fn best_two_sentences_come_back_in_text_order() {
    let out = summarize("", "cat dog.\n\ncat cat bird.", Summary::Sentence, 2);
    assert_eq!(out, "cat dog\n\n\n\ncat cat bird");
    let out = run(ok(""), ok("cat dog.\n\ncat cat bird."), Summary::Sentence, 2);
    assert_eq!(out.unwrap(), "cat dog\n\n\n\ncat cat bird");
}

#[test]
fn best_sentence_alone() {
    let out = summarize("", "cat dog.\n\ncat cat bird.", Summary::Sentence, 1);
    assert_eq!(out, "\n\ncat cat bird");
}

#[test]
fn analyze_returns_every_unit_once() {
    let text = "one two. two three! three three? four";
    let ranked = analyze("two", text, Summary::Sentence);
    let units: Vec<&str> = text.split(|c| c == '.' || c == '?' || c == '!').collect();
    assert_eq!(ranked.len(), units.len());
    let mut places: Vec<usize> = ranked.iter().map(|d| d.index).collect();
    places.sort();
    assert_eq!(places, (0..units.len()).collect::<Vec<usize>>());
    for d in ranked.iter() {
        assert_eq!(d.text, units[d.index]);
    }
}

#[test]
fn analyze_twice_gives_the_same() {
    let text = "a b a.\r\n\r\nb b c.\r\n\r\na";
    let first = analyze("c\n", text, Summary::Paragraph(Paragraph::Windows));
    let second = analyze("c\n", text, Summary::Paragraph(Paragraph::Windows));
    assert_eq!(triples(&first), triples(&second));
    assert_eq!(
        triples(&first),
        vec![
            ("a b a.".to_string(), 9, 0),
            ("b b c.".to_string(), 6, 1),
            ("a".to_string(), 3, 2),
        ]
    );
}

#[test]
fn scores_fall_and_ties_keep_text_order() {
    let ranked = analyze("", "x y;y x;z;x", Summary::Pattern(";".to_string()));
    assert_eq!(
        triples(&ranked),
        vec![
            ("x y".to_string(), 5, 0),
            ("y x".to_string(), 5, 1),
            ("x".to_string(), 3, 3),
            ("z".to_string(), 1, 2),
        ]
    );
}

#[test]
fn pattern_that_bounds_no_word_leaves_other_words_in_the_units() {
    let ranked = analyze("", "x y|y x|z|x", Summary::Pattern("|".to_string()));
    assert_eq!(
        triples(&ranked),
        vec![
            ("x y".to_string(), 1, 0),
            ("y x".to_string(), 1, 1),
            ("x".to_string(), 1, 3),
            ("z".to_string(), 0, 2),
        ]
    );
}

#[test]
fn summary_restores_text_order() {
    let text = "z;x y;q;y x;x";
    let pattern = || Summary::Pattern(";".to_string());
    assert_eq!(summarize("", text, pattern(), 1), "x y");
    assert_eq!(summarize("", text, pattern(), 2), "x y\n\ny x");
    assert_eq!(summarize("", text, pattern(), 3), "x y\n\ny x\n\nx");
    assert_eq!(summarize("", text, pattern(), 4), "z\n\nx y\n\ny x\n\nx");
    assert_eq!(summarize("", text, pattern(), 5), "z\n\nx y\n\nq\n\ny x\n\nx");
}

#[test]
fn taking_nothing_gives_the_empty_string() {
    assert_eq!(summarize("", "a.b.c", Summary::Sentence, 0), "");
    assert_eq!(run(ok(""), ok("a.b.c"), Summary::Sentence, 0).unwrap(), "");
}

#[test]
fn taking_more_than_there_is_gives_all_units() {
    let text = "b b\n\na\n\nc c c";
    let unix = || Summary::Paragraph(Paragraph::Unix);
    assert_eq!(summarize("", text, unix(), 3), text);
    assert_eq!(summarize("", text, unix(), 4), text);
    assert_eq!(summarize("", text, unix(), usize::MAX), text);
}

#[test]
fn excluded_word_adds_nothing_to_a_score() {
    let text = "the cat. the the dog. cat";
    let with = analyze("", text, Summary::Sentence);
    let without = analyze("the\n", text, Summary::Sentence);
    assert_eq!(
        triples(&with),
        vec![
            (" the the dog".to_string(), 7, 1),
            ("the cat".to_string(), 5, 0),
            (" cat".to_string(), 2, 2),
        ]
    );
    assert_eq!(
        triples(&without),
        vec![
            ("the cat".to_string(), 2, 0),
            (" cat".to_string(), 2, 2),
            (" the the dog".to_string(), 1, 1),
        ]
    );
}

#[test]
fn excluded_words_are_split_at_delimiters() {
    let ranked = analyze("cat,dog;bird", "cat dog bird fish", Summary::Sentence);
    assert_eq!(triples(&ranked), vec![("cat dog bird fish".to_string(), 1, 0)]);
}

#[test]
fn words_are_told_apart_by_case() {
    let ranked = analyze("cat", "Cat cat Cat", Summary::Sentence);
    assert_eq!(triples(&ranked), vec![("Cat cat Cat".to_string(), 4, 0)]);
}

#[test]
fn empty_words_count_unless_excluded() {
    let counted = analyze("x", "a  b", Summary::Sentence);
    assert_eq!(triples(&counted), vec![("a  b".to_string(), 3, 0)]);
    let excluded = analyze("", "a  b", Summary::Sentence);
    assert_eq!(triples(&excluded), vec![("a  b".to_string(), 2, 0)]);
}

#[test]
fn failed_read_of_exclusion_list_fails_the_run() {
    let out = run(missing(), ok("cat dog."), Summary::Sentence, 2);
    assert_eq!(out.unwrap_err().kind(), std::io::ErrorKind::NotFound);
    let other: Result<String, std::io::Error> =
        Err(std::io::Error::new(std::io::ErrorKind::PermissionDenied, "denied"));
    let out = run(missing(), other, Summary::Sentence, 2);
    assert_eq!(out.unwrap_err().kind(), std::io::ErrorKind::NotFound);
}

#[test]
fn failed_read_of_text_fails_the_run() {
    let out = run(ok("the"), missing(), Summary::Paragraph(Paragraph::Unix), 5);
    assert_eq!(out.unwrap_err().kind(), std::io::ErrorKind::NotFound);
}

#[test]
fn run_carries_any_error_type() {
    let out: Result<String, u8> = run(Err(3), Err(4), Summary::Sentence, 1);
    assert_eq!(out, Err(3));
    let out: Result<String, u8> = run(Ok(String::new()), Err(4), Summary::Sentence, 1);
    assert_eq!(out, Err(4));
}

#[test]
fn empty_text_is_one_empty_unit() {
    let modes: Vec<fn() -> Summary> = vec![
        || Summary::Paragraph(Paragraph::Unix),
        || Summary::Paragraph(Paragraph::Windows),
        || Summary::Sentence,
        || Summary::Pattern("--".to_string()),
    ];
    for mode in modes {
        let ranked = analyze("", "", mode());
        assert_eq!(triples(&ranked), vec![("".to_string(), 0, 0)]);
        assert_eq!(summarize("", "", mode(), 1), "");
        assert_eq!(run(ok(""), ok(""), mode(), 1).unwrap(), "");
        assert_eq!(summarize("a b", "", mode(), 7), "");
    }
}

#[test]
fn empty_text_scores_its_empty_word_unless_excluded() {
    let ranked = analyze("the", "", Summary::Sentence);
    assert_eq!(triples(&ranked), vec![("".to_string(), 1, 0)]);
    let ranked = analyze("the\n", "", Summary::Sentence);
    assert_eq!(triples(&ranked), vec![("".to_string(), 0, 0)]);
}

#[test]
fn empty_pattern_parts_every_character() {
    let ranked = analyze("", "ab", Summary::Pattern(String::new()));
    assert_eq!(
        triples(&ranked),
        vec![
            ("".to_string(), 0, 0),
            ("a".to_string(), 0, 1),
            ("b".to_string(), 0, 2),
            ("".to_string(), 0, 3),
        ]
    );
    let ranked = analyze("", "", Summary::Pattern(String::new()));
    assert_eq!(triples(&ranked), vec![("".to_string(), 0, 0), ("".to_string(), 0, 1)]);
    assert_eq!(summarize("", "", Summary::Pattern(String::new()), 1), "");
    assert_eq!(summarize("", "", Summary::Pattern(String::new()), 2), "\n\n");
}

#[test]
fn units_keep_their_white_space() {
    let text = "  first one \n\n\tsecond one\t\n\n";
    let ranked = analyze("", text, Summary::Paragraph(Paragraph::Unix));
    let mut by_place = triples(&ranked);
    by_place.sort_by_key(|t| t.2);
    let units: Vec<String> = by_place.into_iter().map(|t| t.0).collect();
    assert_eq!(units, vec!["  first one ", "\tsecond one\t", ""]);
}

#[test]
fn text_beyond_ascii_is_cut_by_characters() {
    let text = "žluťoučký kůň. kůň pěl! úpěl";
    let ranked = analyze("", text, Summary::Sentence);
    assert_eq!(
        triples(&ranked),
        vec![
            ("žluťoučký kůň".to_string(), 3, 0),
            (" kůň pěl".to_string(), 3, 1),
            (" úpěl".to_string(), 1, 2),
        ]
    );
    assert_eq!(summarize("", text, Summary::Sentence, 2), "žluťoučký kůň\n\n kůň pěl");
}

#[test]
fn summary_of_windows_paragraphs() {
    let text = "alpha beta\r\n\r\nbeta\r\n\r\ngamma beta alpha";
    let out = summarize("", text, Summary::Paragraph(Paragraph::Windows), 2);
    assert_eq!(out, "alpha beta\n\ngamma beta alpha");
}

#[test]
fn units_of_each_kind() {
    let text = "One. Two?\n\nThree!\r\n\r\nFour";
    assert_eq!(
        split_into_units(text, &Summary::Paragraph(Paragraph::Unix)),
        vec!["One. Two?", "Three!\r\n\r\nFour"]
    );
    assert_eq!(
        split_into_units(text, &Summary::Paragraph(Paragraph::Windows)),
        vec!["One. Two?\n\nThree!", "Four"]
    );
    assert_eq!(
        split_into_units(text, &Summary::Sentence),
        vec!["One", " Two", "\n\nThree", "\r\n\r\nFour"]
    );
    assert_eq!(
        split_into_units(text, &Summary::Pattern("T".to_string())),
        vec!["One. ", "wo?\n\n", "hree!\r\n\r\nFour"]
    );
    assert_eq!(split_into_units(text, &Summary::Pattern("none".to_string())), vec![text]);
}

#[test]
fn units_agree_with_std() {
    let text = "a.b\n\nc!\n\n\nd?e\r\n\r\n\r\nf";
    let unix: Vec<&str> = text.split("\n\n").collect();
    assert_eq!(split_into_units(text, &Summary::Paragraph(Paragraph::Unix)), unix);
    let windows: Vec<&str> = text.split("\r\n\r\n").collect();
    assert_eq!(split_into_units(text, &Summary::Paragraph(Paragraph::Windows)), windows);
    let sentences: Vec<&str> = text.split(|c| c == '.' || c == '?' || c == '!').collect();
    assert_eq!(split_into_units(text, &Summary::Sentence), sentences);
    let pattern: Vec<&str> = text.split("\n\r").collect();
    assert_eq!(split_into_units(text, &Summary::Pattern("\n\r".to_string())), pattern);
}

#[test]
fn texts_of_ordinary_length_are_short() {
    assert!(is_short(""));
    assert!(is_short("cat dog.\n\ncat cat bird."));
    assert!(is_short(&"word ".repeat(10_000)));
}

#[test]
fn summary_has_as_many_units_as_were_taken() {
    let text = "a b. b c. c d. d e. e f";
    for take in 0..8usize {
        let out = summarize("", text, Summary::Sentence, take);
        let expected = if take == 0 { 0 } else { take.min(5) };
        let found = if out.is_empty() { 0 } else { out.split("\n\n").count() };
        assert_eq!(found, expected);
    }
}

#[test]
fn long_text_is_ranked_like_the_plain_computation() {
    let mut text = String::new();
    for i in 0..300usize {
        for j in 0..(i % 7 + 1) {
            text.push_str(["cat", "dog", "bird", "fish", "the"][(i * 3 + j) % 5]);
            text.push(' ');
        }
        text.push_str(". ");
    }
    let exclude = "the\nfish";
    let mut counts = std::collections::HashMap::new();
    for w in text.split(is_delimiter) {
        *counts.entry(w).or_insert(0usize) += 1;
    }
    for w in exclude.split(is_delimiter) {
        counts.remove(w);
    }
    let mut expected: Vec<(String, usize, usize)> = text
        .split(|c| c == '.' || c == '?' || c == '!')
        .enumerate()
        .map(|(i, u)| {
            let score = u.split(is_delimiter).map(|w| counts.get(w).copied().unwrap_or(0)).sum();
            (u.to_string(), score, i)
        })
        .collect();
    expected.sort_by(|a, b| b.1.cmp(&a.1));
    let ranked = analyze(exclude, &text, Summary::Sentence);
    assert_eq!(triples(&ranked), expected);
    let mut top: Vec<(String, usize, usize)> = expected.into_iter().take(40).collect();
    top.sort_by(|a, b| a.2.cmp(&b.2));
    let joined: Vec<String> = top.into_iter().map(|t| t.0).collect();
    assert_eq!(summarize(exclude, &text, Summary::Sentence, 40), joined.join("\n\n"));
}
