use summarizer::frequency::{freq_analysis, remove_excluded, score};
use summarizer::rank::rank_order;

#[test]
fn words_are_counted() {
    let table = freq_analysis(&vec!["cat", "dog", "", "", "cat", "cat", "bird", ""]);
    assert_eq!(table.len(), 4);
    assert_eq!(table.get("cat"), Some(&3));
    assert_eq!(table.get("dog"), Some(&1));
    assert_eq!(table.get("bird"), Some(&1));
    assert_eq!(table.get(""), Some(&3));
    assert_eq!(table.get("fish"), None);
    assert_eq!(freq_analysis(&Vec::new()).len(), 0);
}

#[test]
fn excluded_words_leave_the_table() {
    let mut table = freq_analysis(&vec!["cat", "dog", "cat", "bird"]);
    remove_excluded(&mut table, "cat fish,cat");
    assert_eq!(table.len(), 2);
    assert_eq!(table.get("cat"), None);
    assert!(!table.contains_key("cat"));
    assert_eq!(table.get("dog"), Some(&1));
    assert_eq!(table.get("bird"), Some(&1));
    remove_excluded(&mut table, "");
    assert_eq!(table.len(), 2);
    remove_excluded(&mut table, "dog\n");
    assert_eq!(table.len(), 1);
    assert_eq!(table.get("bird"), Some(&1));
}

#[test]
fn score_adds_what_the_table_gives() {
    let mut table = freq_analysis(&vec!["cat", "dog", "", "", "cat", "cat", "bird", ""]);
    assert_eq!(score("cat dog", &table), 4);
    assert_eq!(score("\n\ncat cat bird", &table), 13);
    assert_eq!(score("", &table), 3);
    assert_eq!(score("fish", &table), 0);
    remove_excluded(&mut table, "");
    assert_eq!(score("\n\ncat cat bird", &table), 7);
    assert_eq!(score("", &table), 0);
}

#[test]
fn score_leaves_the_table_as_it_is() {
    let table = freq_analysis(&vec!["cat"]);
    assert_eq!(score("fish cat", &table), 1);
    assert_eq!(score("fish cat", &table), 1);
    assert_eq!(table.len(), 1);
    assert!(!table.contains_key("fish"));
}

#[test]
fn order_is_by_falling_score_then_by_place() {
    assert_eq!(rank_order(&vec![4, 7, 0]), vec![1, 0, 2]);
    assert_eq!(rank_order(&vec![1, 1, 1, 1]), vec![0, 1, 2, 3]);
    assert_eq!(rank_order(&vec![0, 5, 3, 5, 0, 3, 9]), vec![6, 1, 3, 2, 5, 0, 4]);
    assert_eq!(rank_order(&vec![2]), vec![0]);
    assert_eq!(rank_order(&Vec::new()), Vec::<usize>::new());
}

#[test]
fn order_of_many_scores_agrees_with_a_stable_sort() {
    let scores: Vec<usize> = (0..1000usize).map(|i| (i * 7919 + 13) % 97).collect();
    let mut expected: Vec<usize> = (0..scores.len()).collect();
    expected.sort_by(|a, b| scores[*b].cmp(&scores[*a]));
    assert_eq!(rank_order(&scores), expected);
}
