//! Turning a guess and its colour feedback into filtering instructions.
use vstd::prelude::*;

verus! {

/// One colour of feedback for a single letter of a guess.
#[derive(Debug, Clone, Copy, PartialEq, Eq, Structural)]
pub enum Symbol {
    Gray,
    Yellow,
    Green,
}

/// A constraint on the hidden word, derived from one letter of a guess.
#[derive(Debug, Clone, Copy, PartialEq, Eq, Structural)]
pub enum Instruction {
    /// The letter does not occur in the word at all.
    Exclude(char),
    /// The letter occurs in the word, but not at this position.
    ExcludeAt(char, usize),
    /// The letter occurs in the word at exactly this position.
    RequireAt(char, usize),
}

/// Why a guess and its feedback could not be interpreted.
#[derive(Debug, Clone, Copy, PartialEq, Eq, Structural)]
pub enum FeedbackError {
    /// The guess and the feedback differ in length, or from the words' length.
    LengthMismatch,
    /// A feedback character other than `b`, `y` or `g`.
    InvalidSymbol(char),
    /// The input is not exactly a guess and a feedback pattern separated by one space.
    WrongTokenCount,
}

/// The symbol a feedback character stands for: `b` gray, `y` yellow, `g` green.
pub open spec fn symbol_of(c: char) -> Option<Symbol> {
    if c == 'b' {
        Some(Symbol::Gray)
    } else if c == 'y' {
        Some(Symbol::Yellow)
    } else if c == 'g' {
        Some(Symbol::Green)
    } else {
        None
    }
}

/// Whether the letter at position `i` of the guess is also at a position marked
/// yellow or green (so a gray mark there only says "not here").
pub open spec fn marked_elsewhere(g: Seq<char>, f: Seq<char>, i: int) -> bool {
    exists|j: int| 0 <= j < g.len() && g[j] == g[i] && #[trigger] symbol_of(f[j]) != Some(Symbol::Gray)
}

/// The instruction for position `i` of a guess `g` with feedback `f`.
pub open spec fn instruction_for(g: Seq<char>, f: Seq<char>, i: int) -> Instruction {
    if symbol_of(f[i]) == Some(Symbol::Green) {
        Instruction::RequireAt(g[i], i as usize)
    } else if symbol_of(f[i]) == Some(Symbol::Yellow) {
        Instruction::ExcludeAt(g[i], i as usize)
    } else if marked_elsewhere(g, f, i) {
        Instruction::ExcludeAt(g[i], i as usize)
    } else {
        Instruction::Exclude(g[i])
    }
}

/// All the instructions for a guess `g` with feedback `f`, by position.
pub open spec fn instructions_of(g: Seq<char>, f: Seq<char>) -> Seq<Instruction> {
    Seq::new(g.len(), |i: int| instruction_for(g, f, i))
}

/// Whether every feedback character before position `k` is a valid symbol.
pub open spec fn valid_prefix(f: Seq<char>, k: int) -> bool {
    forall|j: int| 0 <= j < k ==> #[trigger] symbol_of(f[j]) is Some
}

impl Symbol {
    /// Reads one feedback character.
    pub fn from_char(c: char) -> (r: Option<Symbol>)
        ensures
            r == symbol_of(c),
    {
        if c == 'b' {
            Some(Symbol::Gray)
        } else if c == 'y' {
            Some(Symbol::Yellow)
        } else if c == 'g' {
            Some(Symbol::Green)
        } else {
            None
        }
    }
}

/// Reads a feedback pattern into symbols, failing on the first character that is not one.
pub fn parse_feedback(feedback: &str) -> (r: Result<Vec<Symbol>, FeedbackError>)
    ensures
        match r {
            Ok(s) => valid_prefix(feedback@, feedback@.len() as int) && s@.len() == feedback@.len()
                && forall|j: int| 0 <= j < s@.len() ==> symbol_of(feedback@[j]) == Some(#[trigger] s@[j]),
            Err(e) => exists|k: int|
                0 <= k < feedback@.len() && valid_prefix(feedback@, k) && symbol_of(
                    #[trigger] feedback@[k],
                ) is None && e == FeedbackError::InvalidSymbol(feedback@[k]),
        },
{
    let n = feedback.unicode_len();
    let mut out: Vec<Symbol> = Vec::new();
    let mut k: usize = 0;
    while k < n
        invariant
            n == feedback@.len(),
            k <= n,
            out@.len() == k,
            valid_prefix(feedback@, k as int),
            forall|j: int| 0 <= j < k ==> symbol_of(feedback@[j]) == Some(#[trigger] out@[j]),
        decreases n - k,
    {
        let c = feedback.get_char(k);
        match Symbol::from_char(c) {
            Some(s) => out.push(s),
            None => {
                return Err(FeedbackError::InvalidSymbol(c));
            },
        }
        k = k + 1;
    }
    Ok(out)
}

/// Turns a guess and its feedback into one instruction per position, in order.
///
/// A gray letter whose letter is marked yellow or green at another position of
/// the same guess only excludes that position; otherwise it excludes the letter.
pub fn interpret(guess: &str, feedback: &str) -> (r: Result<Vec<Instruction>, FeedbackError>)
    ensures
        guess@.len() != feedback@.len() ==> r == Err::<Vec<Instruction>, FeedbackError>(
            FeedbackError::LengthMismatch,
        ),
        guess@.len() == feedback@.len() && valid_prefix(feedback@, feedback@.len() as int) ==> (
        r is Ok),
        guess@.len() == feedback@.len() && !valid_prefix(feedback@, feedback@.len() as int) ==> (
        exists|k: int|
            0 <= k < feedback@.len() && valid_prefix(feedback@, k) && symbol_of(
                #[trigger] feedback@[k],
            ) is None && r == Err::<Vec<Instruction>, FeedbackError>(
                FeedbackError::InvalidSymbol(feedback@[k]),
            )),
        r matches Ok(ins) ==> ins@.len() == guess@.len() && forall|i: int|
            0 <= i < ins@.len() ==> #[trigger] ins@[i] == instruction_for(guess@, feedback@, i),
        r matches Ok(ins) ==> ins@ == instructions_of(guess@, feedback@),
{
    let n = guess.unicode_len();
    if n != feedback.unicode_len() {
        return Err(FeedbackError::LengthMismatch);
    }
    let symbols = match parse_feedback(feedback) {
        Ok(s) => s,
        Err(e) => {
            return Err(e);
        },
    };
    let mut out: Vec<Instruction> = Vec::new();
    let mut i: usize = 0;
    while i < n
        invariant
            n == guess@.len(),
            n == feedback@.len(),
            symbols@.len() == n,
            forall|j: int| 0 <= j < n ==> symbol_of(feedback@[j]) == Some(#[trigger] symbols@[j]),
            i <= n,
            out@.len() == i,
            forall|j: int| 0 <= j < i ==> #[trigger] out@[j] == instruction_for(guess@, feedback@, j),
        decreases n - i,
    {
        let c = guess.get_char(i);
        let ins = match symbols[i] {
            Symbol::Green => Instruction::RequireAt(c, i),
            Symbol::Yellow => Instruction::ExcludeAt(c, i),
            Symbol::Gray => {
                let mut elsewhere = false;
                let mut j: usize = 0;
                while j < n
                    invariant
                        n == guess@.len(),
                        n == feedback@.len(),
                        symbols@.len() == n,
                        forall|m: int| 0 <= m < n ==> symbol_of(feedback@[m]) == Some(#[trigger] symbols@[m]),
                        i < n,
                        c == guess@[i as int],
                        j <= n,
                        elsewhere <==> exists|m: int|
                            0 <= m < j && guess@[m] == c && #[trigger] symbol_of(feedback@[m]) != Some(Symbol::Gray),
                    decreases n - j,
                {
                    if guess.get_char(j) == c && symbols[j] != Symbol::Gray {
                        elsewhere = true;
                    }
                    j = j + 1;
                }
                if elsewhere {
                    Instruction::ExcludeAt(c, i)
                } else {
                    Instruction::Exclude(c)
                }
            },
        };
        out.push(ins);
        i = i + 1;
    }
    assert(out@ =~= instructions_of(guess@, feedback@));
    Ok(out)
}

} // verus!
