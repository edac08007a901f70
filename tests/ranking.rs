use wordle_hint::filter::letter_green;
use wordle_hint::rank::{entry_before, rank, top_n, word_lt};
use wordle_hint::scoring::{build_frequency_table, check_scores_fit, process_scores, score};

fn words(list: &[&str]) -> Vec<String> {
    list.iter().map(|w| w.to_string()).collect()
}

#[test]
fn frequency_table_counts_letters_by_position() {
    let w = words(&["abide", "abode", "arode"]);
    let t = build_frequency_table(&w);
    assert_eq!(t.total, 3);
    assert_eq!(t.frequency(0, 'a'), 3);
    assert_eq!(t.frequency(1, 'b'), 2);
    assert_eq!(t.frequency(1, 'r'), 1);
    assert_eq!(t.frequency(2, 'o'), 2);
    assert_eq!(t.frequency(2, 'i'), 1);
    assert_eq!(t.frequency(0, 'z'), 0);
    assert_eq!(t.frequency(7, 'a'), 0);
}

#[test]
fn scores_follow_the_current_table() {
    let mut w = words(&["abide", "abode", "arode"]);
    let t = build_frequency_table(&w);
    assert_eq!(score("abide", &t), 12);
    assert_eq!(score("abode", &t), 13);
    assert_eq!(score("arode", &t), 12);
    letter_green(&mut w, 'o', 2);
    let t2 = build_frequency_table(&w);
    assert_eq!(score("abode", &t2), 9);
    assert_ne!(score("abode", &t2), score("abode", &t));
}

#[test]
fn process_scores_keeps_order() {
    let w = words(&["abide", "abode", "arode"]);
    let s = process_scores(&w);
    assert_eq!(
        s,
        vec![(12, "abide".to_string()), (13, "abode".to_string()), (12, "arode".to_string())]
    );
}

#[test]
fn scores_ignore_earlier_results() {
    let w = words(&["abide", "abode", "arode"]);
    let first = process_scores(&w);
    let second = process_scores(&w);
    assert_eq!(first, second);
    assert_eq!(first.len(), 3);
}

#[test]
fn score_does_not_depend_on_candidate_order() {
    let a = build_frequency_table(&words(&["abide", "abode", "arode"]));
    let b = build_frequency_table(&words(&["arode", "abide", "abode"]));
    for w in ["abide", "abode", "arode", "zzzzz"] {
        assert_eq!(score(w, &a), score(w, &b));
    }
    assert_eq!(score("abode", &b), 13);
}

#[test]
fn empty_candidates_score_nothing() {
    let w: Vec<String> = vec![];
    assert!(process_scores(&w).is_empty());
    assert!(check_scores_fit(&w));
}

#[test]
fn scores_fit_for_ordinary_words() {
    assert!(check_scores_fit(&words(&["crane", "slate"])));
}

#[test]
fn rank_orders_by_score_then_word() {
    let w = words(&["arode", "abode", "abide"]);
    let r = rank(process_scores(&w));
    assert_eq!(
        r,
        vec![(13, "abode".to_string()), (12, "abide".to_string()), (12, "arode".to_string())]
    );
}

#[test]
fn lexicographic_order_of_words() {
    assert!(word_lt("abide", "abode"));
    assert!(!word_lt("abode", "abide"));
    assert!(!word_lt("crane", "crane"));
    assert!(word_lt("cran", "crane"));
    assert!(!word_lt("crane", "cran"));
    assert!(word_lt("", "a"));
    assert!(entry_before(&(5, "zzz".to_string()), &(4, "aaa".to_string())));
    assert!(entry_before(&(4, "aaa".to_string()), &(4, "aab".to_string())));
    assert!(!entry_before(&(4, "aab".to_string()), &(4, "aab".to_string())));
}

#[test]
fn top_n_boundaries() {
    let r = rank(process_scores(&words(&["abide", "abode", "arode"])));
    assert!(top_n(&r, 0).is_empty());
    assert_eq!(top_n(&r, 10), r);
    assert_eq!(top_n(&r, 3), r);
    assert_eq!(top_n(&r, 1), vec![(13, "abode".to_string())]);
    assert!(top_n(&vec![], 5).is_empty());
}
