use wordle_hint::command::{guess_line, parse_command, parse_count, Command};
use wordle_hint::feedback::FeedbackError;
use wordle_hint::session::{Action, Session};

fn words(list: &[&str]) -> Vec<String> {
    list.iter().map(|w| w.to_string()).collect()
}

#[test]
fn guess_lines_are_recognised() {
    assert!(guess_line("crane bygbb", 5));
    assert!(!guess_line("crane bygb", 5));
    assert!(!guess_line("Crane bygbb", 5));
    assert!(!guess_line("crane by,bb", 5));
    assert!(!guess_line("crane  bygbb", 5));
    assert!(guess_line("ab gy", 2));
    assert_eq!(
        parse_command("crane bygbb", 5),
        Command::Guess("crane".to_string(), "bygbb".to_string())
    );
}

#[test]
fn commands_are_recognised() {
    assert_eq!(parse_command("", 5), Command::Empty);
    assert_eq!(parse_command("h", 5), Command::Help);
    assert_eq!(parse_command("?", 5), Command::Help);
    assert_eq!(parse_command("r", 5), Command::Reset);
    assert_eq!(parse_command("q", 5), Command::Quit);
    assert_eq!(parse_command("s", 5), Command::ShowAll);
    assert_eq!(parse_command("s 7", 5), Command::SetTopN(7));
    assert_eq!(parse_command("s 7 9", 5), Command::SetTopN(7));
    assert_eq!(parse_command("s x7", 5), Command::BadNumber("x7".to_string()));
    assert_eq!(parse_command("s ", 5), Command::BadNumber(String::new()));
    assert_eq!(parse_command("hello world", 5), Command::Unknown("hello".to_string()));
    assert_eq!(parse_command("crane bygb", 5), Command::Unknown("crane".to_string()));
}

#[test]
fn counts_are_decimal_and_bounded() {
    assert_eq!(parse_count("0"), Some(0));
    assert_eq!(parse_count("042"), Some(42));
    assert_eq!(parse_count(""), None);
    assert_eq!(parse_count("-1"), None);
    assert_eq!(parse_count("1a"), None);
    assert_eq!(parse_count(&usize::MAX.to_string()), Some(usize::MAX));
    assert_eq!(parse_count("99999999999999999999999999"), None);
}

#[test]
fn session_runs_a_round() {
    let dict = words(&["crane", "slate", "irate", "crate"]);
    let mut s = Session::new(dict.clone(), 5, 10);
    assert_eq!(s.words, dict);
    assert_eq!(s.handle(parse_command("crate ggggg", 5)), Action::Refresh);
    assert_eq!(s.words, words(&["crate"]));
    assert_eq!(s.handle(Command::SetTopN(3)), Action::ShowTop(3));
    assert_eq!(s.top_n, 3);
    assert_eq!(s.handle(Command::Reset), Action::Refresh);
    assert_eq!(s.words, dict);
    assert_eq!(s.handle(Command::Help), Action::ShowHelp);
    assert_eq!(s.handle(Command::ShowAll), Action::ShowEverything);
    assert_eq!(s.handle(Command::Empty), Action::Prompt);
    assert_eq!(s.handle(Command::Quit), Action::Quit);
}

#[test]
fn session_reports_bad_lines() {
    let mut s = Session::new(words(&["crane", "slate"]), 5, 10);
    assert_eq!(
        s.handle(Command::Guess("crane".to_string(), "ggg".to_string())),
        Action::Rejected(FeedbackError::LengthMismatch)
    );
    assert_eq!(
        s.handle(Command::Guess("cr".to_string(), "gg".to_string())),
        Action::Rejected(FeedbackError::LengthMismatch)
    );
    assert_eq!(
        s.handle(Command::Guess("crane".to_string(), "ggxgg".to_string())),
        Action::Rejected(FeedbackError::InvalidSymbol('x'))
    );
    assert_eq!(
        s.handle(Command::BadNumber("x".to_string())),
        Action::NotANumber("x".to_string())
    );
    assert_eq!(
        s.handle(Command::Unknown("zap".to_string())),
        Action::NotACommand("zap".to_string())
    );
    assert_eq!(s.words, words(&["crane", "slate"]));
}
