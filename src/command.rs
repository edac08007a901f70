//! Reading one line of user input into a command.
use vstd::prelude::*;

verus! {

/// What a line of input asks for.
#[derive(Debug, Clone, PartialEq, Eq)]
pub enum Command {
    /// A blank line.
    Empty,
    /// `h` or `?`: show the help text.
    Help,
    /// `r`: restore the full dictionary.
    Reset,
    /// `s` alone: show every ranked word once.
    ShowAll,
    /// `s n`: show the top `n` words every round.
    SetTopN(usize),
    /// `s x` where `x` is not a count.
    BadNumber(String),
    /// `q`: quit.
    Quit,
    /// A guess and its feedback pattern.
    Guess(String, String),
    /// Anything else; holds the first token.
    Unknown(String),
}

/// Whether `c` is a lowercase ASCII letter.
pub open spec fn is_lower(c: char) -> bool {
    'a' <= c && c <= 'z'
}

/// Whether `c` is a feedback character.
pub open spec fn is_feedback_char(c: char) -> bool {
    c == 'b' || c == 'y' || c == 'g'
}

/// Whether `s` is a guess line for words of length `n`: `n` lowercase letters,
/// one space, and `n` feedback characters.
pub open spec fn is_guess_line(s: Seq<char>, n: int) -> bool {
    &&& s.len() == 2 * n + 1
    &&& s[n] == ' '
    &&& forall|i: int| 0 <= i < n ==> is_lower(#[trigger] s[i])
    &&& forall|i: int| n < i < 2 * n + 1 ==> is_feedback_char(#[trigger] s[i])
}

/// Where the token of `s` that starts at `from` ends: the first space at or
/// after `from`, or the end of `s`.
pub open spec fn token_end(s: Seq<char>, from: int) -> int
    decreases s.len() - from,
{
    if from >= s.len() {
        s.len() as int
    } else if s[from] == ' ' {
        from
    } else {
        token_end(s, from + 1)
    }
}

/// The value of a sequence of decimal digits.
pub open spec fn decimal_value(s: Seq<char>) -> int
    decreases s.len(),
{
    if s.len() == 0 {
        0
    } else {
        decimal_value(s.drop_last()) * 10 + (s.last() as int - '0' as int)
    }
}

/// Whether `s` is a count: one or more decimal digits whose value fits in `usize`.
pub open spec fn is_count(s: Seq<char>) -> bool {
    &&& s.len() > 0
    &&& forall|i: int| 0 <= i < s.len() ==> '0' <= #[trigger] s[i] && s[i] <= '9'
    &&& decimal_value(s) <= usize::MAX
}

proof fn lemma_decimal_grows(s: Seq<char>, i: int)
    requires
        0 <= i <= s.len(),
        forall|k: int| 0 <= k < s.len() ==> '0' <= #[trigger] s[k] && s[k] <= '9',
    ensures
        decimal_value(s.take(i)) <= decimal_value(s),
    decreases s.len() - i,
{
    if i < s.len() {
        lemma_decimal_grows(s, i + 1);
        assert(s.take(i + 1).drop_last() =~= s.take(i));
        assert(s.take(i + 1).last() == s[i]);
        assert(decimal_value(s.take(i)) >= 0) by {
            lemma_decimal_nonneg(s.take(i));
        }
    } else {
        assert(s.take(i) =~= s);
    }
}

proof fn lemma_decimal_nonneg(s: Seq<char>)
    requires
        forall|k: int| 0 <= k < s.len() ==> '0' <= #[trigger] s[k] && s[k] <= '9',
    ensures
        decimal_value(s) >= 0,
    decreases s.len(),
{
    if s.len() > 0 {
        assert(s.last() == s[s.len() - 1]);
        lemma_decimal_nonneg(s.drop_last());
    }
}

/// Reads a count: decimal digits only, no sign, and no larger than `usize::MAX`.
pub fn parse_count(s: &str) -> (r: Option<usize>)
    ensures
        r is Some <==> is_count(s@),
        r matches Some(n) ==> n == decimal_value(s@),
{
    let len = s.unicode_len();
    if len == 0 {
        return None;
    }
    let mut v: usize = 0;
    let mut i: usize = 0;
    assert(s@.take(0) =~= Seq::<char>::empty());
    while i < len
        invariant
            len == s@.len(),
            i <= len,
            forall|k: int| 0 <= k < i ==> '0' <= #[trigger] s@[k] && s@[k] <= '9',
            v == decimal_value(s@.take(i as int)),
        decreases len - i,
    {
        let c = s.get_char(i);
        if !('0' <= c && c <= '9') {
            return None;
        }
        let d = (c as u32 - '0' as u32) as usize;
        assert(s@.take(i as int + 1).drop_last() =~= s@.take(i as int));
        assert(s@.take(i as int + 1).last() == c);
        if v > (usize::MAX - d) / 10 {
            proof {
                if forall|k: int| 0 <= k < len ==> '0' <= #[trigger] s@[k] && s@[k] <= '9' {
                    lemma_decimal_grows(s@, i as int + 1);
                }
            }
            return None;
        }
        v = v * 10 + d;
        i = i + 1;
    }
    assert(s@.take(len as int) =~= s@);
    Some(v)
}

/// Where the token of `s` that starts at `from` ends.
pub fn find_token_end(s: &str, from: usize) -> (r: usize)
    requires
        from <= s@.len(),
    ensures
        r == token_end(s@, from as int),
        from <= r <= s@.len(),
{
    let len = s.unicode_len();
    let mut i = from;
    while i < len
        invariant
            len == s@.len(),
            from <= i <= len,
            token_end(s@, from as int) == token_end(s@, i as int),
        decreases len - i,
    {
        if s.get_char(i) == ' ' {
            return i;
        }
        i = i + 1;
    }
    i
}

/// Whether `s` is a guess line for words of length `n`.
pub fn guess_line(s: &str, n: usize) -> (r: bool)
    ensures
        r == is_guess_line(s@, n as int),
{
    let len = s.unicode_len();
    if n > (usize::MAX - 1) / 2 || len != 2 * n + 1 {
        return false;
    }
    if s.get_char(n) != ' ' {
        return false;
    }
    let mut i: usize = 0;
    while i < n
        invariant
            len == s@.len(),
            len == 2 * n + 1,
            i <= n,
            forall|k: int| 0 <= k < i ==> is_lower(#[trigger] s@[k]),
        decreases n - i,
    {
        let c = s.get_char(i);
        if !('a' <= c && c <= 'z') {
            return false;
        }
        i = i + 1;
    }
    let mut j: usize = n + 1;
    while j < len
        invariant
            len == s@.len(),
            len == 2 * n + 1,
            n < j <= len,
            forall|k: int| n < k < j ==> is_feedback_char(#[trigger] s@[k]),
        decreases len - j,
    {
        let c = s.get_char(j);
        if !(c == 'b' || c == 'y' || c == 'g') {
            return false;
        }
        j = j + 1;
    }
    true
}

/// The first token of `s`: everything before its first space.
pub open spec fn first_token(s: Seq<char>) -> Seq<char> {
    s.subrange(0, token_end(s, 0))
}

/// The argument of a command: the token after the first space, empty when
/// there is no space.
pub open spec fn argument(s: Seq<char>) -> Seq<char> {
    let e = token_end(s, 0);
    if e < s.len() {
        s.subrange(e + 1, token_end(s, e + 1))
    } else {
        Seq::empty()
    }
}

/// Whether `s` is exactly two tokens separated by one space.
pub open spec fn is_two_tokens(s: Seq<char>) -> bool {
    let e = token_end(s, 0);
    e < s.len() && token_end(s, e + 1) == s.len()
}

/// Whether `c` is what the line `s` asks for, with guesses of length `n`.
pub open spec fn parses_to(s: Seq<char>, n: int, c: Command) -> bool {
    let t = first_token(s);
    if s.len() == 0 {
        c is Empty
    } else if is_guess_line(s, n) {
        c matches Command::Guess(g, f) && g@ == s.subrange(0, n) && f@ == s.subrange(n + 1, 2 * n + 1)
    } else if t == seq!['h'] || t == seq!['?'] {
        c is Help
    } else if t == seq!['r'] {
        c is Reset
    } else if t == seq!['q'] {
        c is Quit
    } else if t == seq!['s'] {
        if token_end(s, 0) == s.len() {
            c is ShowAll
        } else if is_count(argument(s)) {
            c matches Command::SetTopN(k) && k == decimal_value(argument(s))
        } else {
            c matches Command::BadNumber(a) && a@ == argument(s)
        }
    } else {
        c matches Command::Unknown(u) && u@ == t
    }
}

/// Whether `s` is the one-letter token `c`.
fn is_single(s: &str, c: char) -> (r: bool)
    ensures
        r == (s@ == seq![c]),
{
    let ok = s.unicode_len() == 1 && s.get_char(0) == c;
    assert(ok ==> s@ =~= seq![c]);
    ok
}

/// Reads a line of input, with surrounding whitespace already removed, into a
/// command; `word_len` is the length of a guess.
pub fn parse_command(line: &str, word_len: usize) -> (r: Command)
    ensures
        parses_to(line@, word_len as int, r),
{
    let len = line.unicode_len();
    if len == 0 {
        return Command::Empty;
    }
    if guess_line(line, word_len) {
        let g = line.substring_char(0, word_len).to_owned();
        let f = line.substring_char(word_len + 1, 2 * word_len + 1).to_owned();
        return Command::Guess(g, f);
    }
    let e = find_token_end(line, 0);
    let t = line.substring_char(0, e);
    if is_single(t, 'h') || is_single(t, '?') {
        Command::Help
    } else if is_single(t, 'r') {
        Command::Reset
    } else if is_single(t, 'q') {
        Command::Quit
    } else if is_single(t, 's') {
        if e == len {
            Command::ShowAll
        } else {
            let e2 = find_token_end(line, e + 1);
            let a = line.substring_char(e + 1, e2);
            match parse_count(a) {
                Some(k) => Command::SetTopN(k),
                None => Command::BadNumber(a.to_owned()),
            }
        }
    } else {
        Command::Unknown(t.to_owned())
    }
}

} // verus!
