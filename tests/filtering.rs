use wordle_hint::feedback::{interpret, parse_feedback, FeedbackError, Instruction, Symbol};
use wordle_hint::filter::{
    apply, filter_by_guess, keep_satisfying, letter_gray, letter_green, letter_yellow, process_input, reset,
    word_satisfies,
};

fn words(list: &[&str]) -> Vec<String> {
    list.iter().map(|w| w.to_string()).collect()
}

#[test]
fn unique_letter_green_and_others_excluded() {
    let ins = interpret("kazoo", "bbgbb").unwrap();
    assert_eq!(
        ins,
        vec![
            Instruction::Exclude('k'),
            Instruction::Exclude('a'),
            Instruction::RequireAt('z', 2),
            Instruction::Exclude('o'),
            Instruction::Exclude('o'),
        ]
    );
}

#[test]
fn gray_repeat_of_green_letter_only_excludes_position() {
    let ins = interpret("eerie", "bgbbb").unwrap();
    assert_eq!(ins[0], Instruction::ExcludeAt('e', 0));
    assert_eq!(ins[1], Instruction::RequireAt('e', 1));
    assert_eq!(ins[2], Instruction::Exclude('r'));
    assert_eq!(ins[3], Instruction::Exclude('i'));
    assert_eq!(ins[4], Instruction::ExcludeAt('e', 4));
}

#[test]
fn yellow_gives_exclude_at() {
    let ins = interpret("sheep", "bbgyb").unwrap();
    assert_eq!(ins[2], Instruction::RequireAt('e', 2));
    assert_eq!(ins[3], Instruction::ExcludeAt('e', 3));
    assert_eq!(ins[0], Instruction::Exclude('s'));
}

#[test]
fn length_mismatch_is_rejected() {
    assert_eq!(interpret("crane", "ggg"), Err(FeedbackError::LengthMismatch));
    assert_eq!(interpret("cr", "gxg"), Err(FeedbackError::LengthMismatch));
}

#[test]
fn invalid_symbol_is_rejected_with_first_bad_char() {
    assert_eq!(interpret("crane", "gxgzg"), Err(FeedbackError::InvalidSymbol('x')));
    assert_eq!(interpret("crane", "g,ggg"), Err(FeedbackError::InvalidSymbol(',')));
}

#[test]
fn empty_guess_gives_no_instructions() {
    assert_eq!(interpret("", ""), Ok(vec![]));
}

#[test]
fn feedback_symbols_are_read() {
    assert_eq!(
        parse_feedback("byg"),
        Ok(vec![Symbol::Gray, Symbol::Yellow, Symbol::Green])
    );
    assert_eq!(parse_feedback("bq"), Err(FeedbackError::InvalidSymbol('q')));
    assert_eq!(Symbol::from_char('g'), Some(Symbol::Green));
    assert_eq!(Symbol::from_char('G'), None);
}

#[test]
fn single_instructions_on_words() {
    assert!(word_satisfies("crane", Instruction::Exclude('z')));
    assert!(!word_satisfies("crane", Instruction::Exclude('a')));
    assert!(word_satisfies("crane", Instruction::ExcludeAt('a', 0)));
    assert!(!word_satisfies("crane", Instruction::ExcludeAt('a', 2)));
    assert!(!word_satisfies("crane", Instruction::ExcludeAt('z', 0)));
    assert!(word_satisfies("crane", Instruction::RequireAt('r', 1)));
    assert!(!word_satisfies("crane", Instruction::RequireAt('r', 2)));
    assert!(!word_satisfies("crane", Instruction::RequireAt('e', 9)));
}

#[test]
fn letter_filters_keep_consistent_words_in_order() {
    let mut w = words(&["crane", "slate", "irate", "crate", "pious"]);
    letter_gray(&mut w, 'c');
    assert_eq!(w, words(&["slate", "irate", "pious"]));
    letter_yellow(&mut w, 'i', 2);
    assert_eq!(w, words(&["irate", "pious"]));
    letter_green(&mut w, 'e', 4);
    assert_eq!(w, words(&["irate"]));
    letter_yellow(&mut w, 'i', 0);
    assert!(w.is_empty());
}

#[test]
fn keep_satisfying_can_empty_the_set() {
    let mut w = words(&["crane", "slate"]);
    keep_satisfying(&mut w, Instruction::RequireAt('q', 0));
    assert!(w.is_empty());
}

#[test]
fn end_to_end_all_green() {
    let mut w = words(&["crane", "slate", "irate", "crate"]);
    assert_eq!(process_input(&mut w, 5, "crate ggggg"), Ok(()));
    assert_eq!(w, words(&["crate"]));
}

#[test]
fn rejected_input_leaves_candidates_untouched() {
    let mut w = words(&["crane", "slate"]);
    assert_eq!(
        process_input(&mut w, 5, "crate gggg"),
        Err(FeedbackError::LengthMismatch)
    );
    assert_eq!(
        filter_by_guess(&mut w, 5, "crate", "ggxgg"),
        Err(FeedbackError::InvalidSymbol('x'))
    );
    assert_eq!(
        process_input(&mut w, 5, "crate"),
        Err(FeedbackError::WrongTokenCount)
    );
    assert_eq!(w, words(&["crane", "slate"]));
}

#[test]
fn process_input_wants_exactly_two_tokens() {
    let mut w = words(&["crane", "slate", "irate", "crate"]);
    assert_eq!(
        process_input(&mut w, 5, "crate bbggg extra"),
        Err(FeedbackError::WrongTokenCount)
    );
    assert_eq!(process_input(&mut w, 5, ""), Err(FeedbackError::WrongTokenCount));
    assert_eq!(
        process_input(&mut w, 5, "crate  bbggg"),
        Err(FeedbackError::WrongTokenCount)
    );
    assert_eq!(w, words(&["crane", "slate", "irate", "crate"]));
    assert_eq!(process_input(&mut w, 5, "crate bbggg"), Ok(()));
    assert_eq!(w, words(&["slate"]));
}

#[test]
fn guess_of_wrong_word_length_is_rejected() {
    let mut w = words(&["crane"]);
    assert_eq!(process_input(&mut w, 5, "cr gg"), Err(FeedbackError::LengthMismatch));
    assert_eq!(
        filter_by_guess(&mut w, 5, "cranes", "gggggg"),
        Err(FeedbackError::LengthMismatch)
    );
    assert_eq!(w, words(&["crane"]));
}

#[test]
fn apply_never_grows() {
    let mut w = words(&["crane", "slate", "irate", "crate"]);
    let before = w.len();
    apply(&mut w, &vec![Instruction::ExcludeAt('a', 0)]);
    assert!(w.len() <= before);
    assert_eq!(w.len(), 4);
    apply(&mut w, &vec![Instruction::Exclude('s')]);
    assert_eq!(w, words(&["crane", "irate", "crate"]));
}

#[test]
fn apply_twice_is_apply_once() {
    let ins = interpret("trace", "ybyby").unwrap();
    let mut once = words(&["crane", "slate", "irate", "crate", "react", "cater"]);
    apply(&mut once, &ins);
    let mut twice = once.clone();
    apply(&mut twice, &ins);
    assert_eq!(once, twice);
}

#[test]
fn apply_order_does_not_matter() {
    let dict = words(&["crane", "slate", "irate", "crate", "react", "cater", "trace"]);
    let ins = vec![
        Instruction::ExcludeAt('t', 0),
        Instruction::RequireAt('a', 2),
        Instruction::Exclude('s'),
    ];
    let mut rev = ins.clone();
    rev.reverse();
    let mut a = dict.clone();
    apply(&mut a, &ins);
    let mut b = dict.clone();
    apply(&mut b, &rev);
    assert_eq!(a, b);
    assert_eq!(a, words(&["irate", "crate", "react"]));
}

#[test]
fn empty_instruction_list_is_no_op() {
    let mut w = words(&["crane", "slate"]);
    apply(&mut w, &vec![]);
    assert_eq!(w, words(&["crane", "slate"]));
}

#[test]
fn reset_restores_dictionary() {
    let dict = words(&["crane", "slate", "irate", "crate"]);
    let mut w = dict.clone();
    letter_gray(&mut w, 'r');
    filter_by_guess(&mut w, 5, "slate", "ggggg").unwrap();
    assert_eq!(w, words(&["slate"]));
    letter_gray(&mut w, 's');
    assert!(w.is_empty());
    reset(&mut w, &dict);
    assert_eq!(w, dict);
}
