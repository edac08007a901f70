//! Narrowing the candidate list by instructions, and restoring it.
use vstd::prelude::*;
use crate::command::{argument, find_token_end, first_token, is_two_tokens};
use crate::feedback::{Instruction, interpret, instructions_of, valid_prefix, symbol_of, FeedbackError};

verus! {

/// The words of a candidate list, as character sequences.
pub open spec fn words_view(v: Seq<String>) -> Seq<Seq<char>> {
    v.map_values(|s: String| s@)
}

/// Whether a word is consistent with one instruction.
pub open spec fn satisfies(w: Seq<char>, ins: Instruction) -> bool {
    match ins {
        Instruction::Exclude(c) => !w.contains(c),
        Instruction::ExcludeAt(c, i) => w.contains(c) && !(i < w.len() && w[i as int] == c),
        Instruction::RequireAt(c, i) => i < w.len() && w[i as int] == c,
    }
}

/// Whether a word is consistent with every instruction of a sequence.
pub open spec fn satisfies_all(w: Seq<char>, ins: Seq<Instruction>) -> bool {
    forall|k: int| 0 <= k < ins.len() ==> satisfies(w, #[trigger] ins[k])
}

/// The words of `ws` for which `p` holds, in their order.
pub open spec fn select(ws: Seq<Seq<char>>, p: spec_fn(Seq<char>) -> bool) -> Seq<Seq<char>>
    decreases ws.len(),
{
    if ws.len() == 0 {
        ws
    } else {
        let rest = select(ws.drop_last(), p);
        if p(ws.last()) {
            rest.push(ws.last())
        } else {
            rest
        }
    }
}

/// The words of `ws` consistent with one instruction.
pub open spec fn keep_matching(ws: Seq<Seq<char>>, ins: Instruction) -> Seq<Seq<char>> {
    select(ws, |w: Seq<char>| satisfies(w, ins))
}

/// The words left after applying the instructions one after another.
pub open spec fn apply_all(ws: Seq<Seq<char>>, ins: Seq<Instruction>) -> Seq<Seq<char>>
    decreases ins.len(),
{
    if ins.len() == 0 {
        ws
    } else {
        keep_matching(apply_all(ws, ins.drop_last()), ins.last())
    }
}

proof fn lemma_select_len(ws: Seq<Seq<char>>, p: spec_fn(Seq<char>) -> bool)
    ensures
        select(ws, p).len() <= ws.len(),
    decreases ws.len(),
{
    if ws.len() > 0 {
        lemma_select_len(ws.drop_last(), p);
    }
}

proof fn lemma_select_ext(ws: Seq<Seq<char>>, p: spec_fn(Seq<char>) -> bool, q: spec_fn(Seq<char>) -> bool)
    requires
        forall|i: int| 0 <= i < ws.len() ==> p(#[trigger] ws[i]) == q(ws[i]),
    ensures
        select(ws, p) == select(ws, q),
    decreases ws.len(),
{
    if ws.len() > 0 {
        assert(p(ws[ws.len() - 1]) == q(ws[ws.len() - 1]));
        lemma_select_ext(ws.drop_last(), p, q);
    }
}

proof fn lemma_select_select(ws: Seq<Seq<char>>, p: spec_fn(Seq<char>) -> bool, q: spec_fn(Seq<char>) -> bool)
    ensures
        select(select(ws, p), q) == select(ws, |w: Seq<char>| p(w) && q(w)),
    decreases ws.len(),
{
    if ws.len() > 0 {
        lemma_select_select(ws.drop_last(), p, q);
        let rest = select(ws.drop_last(), p);
        if p(ws.last()) {
            assert(rest.push(ws.last()).drop_last() =~= rest);
        }
    }
}

proof fn lemma_select_all(ws: Seq<Seq<char>>, p: spec_fn(Seq<char>) -> bool)
    requires
        forall|i: int| 0 <= i < ws.len() ==> p(#[trigger] ws[i]),
    ensures
        select(ws, p) == ws,
    decreases ws.len(),
{
    if ws.len() > 0 {
        assert(p(ws[ws.len() - 1]));
        lemma_select_all(ws.drop_last(), p);
        assert(ws.drop_last().push(ws.last()) =~= ws);
    }
}

proof fn lemma_select_holds(ws: Seq<Seq<char>>, p: spec_fn(Seq<char>) -> bool)
    ensures
        forall|i: int| 0 <= i < select(ws, p).len() ==> p(#[trigger] select(ws, p)[i]),
    decreases ws.len(),
{
    if ws.len() > 0 {
        lemma_select_holds(ws.drop_last(), p);
        let rest = select(ws.drop_last(), p);
        if p(ws.last()) {
            assert forall|i: int| 0 <= i < rest.len() + 1 implies p(#[trigger] rest.push(ws.last())[i]) by {
                if i < rest.len() {
                    assert(rest.push(ws.last())[i] == rest[i]);
                }
            }
        }
    }
}

/// Applying instructions one after another keeps exactly the words consistent with all of them.
proof fn lemma_apply_all_select(ws: Seq<Seq<char>>, ins: Seq<Instruction>)
    ensures
        apply_all(ws, ins) == select(ws, |w: Seq<char>| satisfies_all(w, ins)),
    decreases ins.len(),
{
    if ins.len() == 0 {
        lemma_select_all(ws, |w: Seq<char>| satisfies_all(w, ins));
    } else {
        let init = ins.drop_last();
        lemma_apply_all_select(ws, init);
        let p = |w: Seq<char>| satisfies_all(w, init);
        let q = |w: Seq<char>| satisfies(w, ins.last());
        lemma_select_select(ws, p, q);
        assert forall|i: int| 0 <= i < ws.len() implies (p(#[trigger] ws[i]) && q(ws[i]))
            == satisfies_all(ws[i], ins) by {
            if satisfies_all(ws[i], ins) {
                assert forall|k: int| 0 <= k < init.len() implies satisfies(ws[i], #[trigger] init[k]) by {
                    assert(init[k] == ins[k]);
                }
                assert(ins[ins.len() - 1] == ins.last());
            }
            if p(ws[i]) && q(ws[i]) {
                assert forall|k: int| 0 <= k < ins.len() implies satisfies(ws[i], #[trigger] ins[k]) by {
                    if k < init.len() {
                        assert(init[k] == ins[k]);
                    }
                }
            }
        }
        lemma_select_ext(ws, |w: Seq<char>| p(w) && q(w), |w: Seq<char>| satisfies_all(w, ins));
    }
}

/// Filtering never adds words: applying any instructions leaves at most as many candidates.
pub proof fn law_apply_shrinks(ws: Seq<Seq<char>>, ins: Seq<Instruction>)
    ensures
        apply_all(ws, ins).len() <= ws.len(),
{
    lemma_apply_all_select(ws, ins);
    lemma_select_len(ws, |w: Seq<char>| satisfies_all(w, ins));
}

/// Applying the same instructions a second time changes nothing.
pub proof fn law_apply_idempotent(ws: Seq<Seq<char>>, ins: Seq<Instruction>)
    ensures
        apply_all(apply_all(ws, ins), ins) == apply_all(ws, ins),
{
    let p = |w: Seq<char>| satisfies_all(w, ins);
    lemma_apply_all_select(ws, ins);
    lemma_apply_all_select(apply_all(ws, ins), ins);
    lemma_select_holds(ws, p);
    lemma_select_all(select(ws, p), p);
}

/// The order of the instructions does not matter: any reordering of them leaves the same words.
pub proof fn law_apply_order_free(ws: Seq<Seq<char>>, a: Seq<Instruction>, b: Seq<Instruction>)
    requires
        a.to_multiset() == b.to_multiset(),
    ensures
        apply_all(ws, a) == apply_all(ws, b),
{
    a.to_multiset_ensures();
    b.to_multiset_ensures();
    lemma_apply_all_select(ws, a);
    lemma_apply_all_select(ws, b);
    assert forall|w: Seq<char>| satisfies_all(w, a) == satisfies_all(w, b) by {
        if satisfies_all(w, a) {
            assert forall|k: int| 0 <= k < b.len() implies satisfies(w, #[trigger] b[k]) by {
                assert(b.contains(b[k]));
                assert(b.to_multiset().count(b[k]) > 0);
                assert(a.contains(b[k]));
                let j = choose|j: int| 0 <= j < a.len() && a[j] == b[k];
                assert(satisfies(w, a[j]));
            }
        }
        if satisfies_all(w, b) {
            assert forall|k: int| 0 <= k < a.len() implies satisfies(w, #[trigger] a[k]) by {
                assert(a.contains(a[k]));
                assert(a.to_multiset().count(a[k]) > 0);
                assert(b.contains(a[k]));
                let j = choose|j: int| 0 <= j < b.len() && b[j] == a[k];
                assert(satisfies(w, b[j]));
            }
        }
    }
    lemma_select_ext(ws, |w: Seq<char>| satisfies_all(w, a), |w: Seq<char>| satisfies_all(w, b));
}


/// Whether `c` occurs in `w`.
fn word_contains(w: &str, c: char) -> (r: bool)
    ensures
        r == w@.contains(c),
{
    let n = w.unicode_len();
    let mut k: usize = 0;
    while k < n
        invariant
            n == w@.len(),
            k <= n,
            forall|j: int| 0 <= j < k ==> w@[j] != c,
        decreases n - k,
    {
        if w.get_char(k) == c {
            assert(w@[k as int] == c);
            return true;
        }
        k = k + 1;
    }
    false
}

/// Whether `w` has `c` at position `i`.
fn char_at_is(w: &str, i: usize, c: char) -> (r: bool)
    ensures
        r == (i < w@.len() && w@[i as int] == c),
{
    i < w.unicode_len() && w.get_char(i) == c
}

/// Whether a word is consistent with one instruction.
pub fn word_satisfies(w: &str, ins: Instruction) -> (r: bool)
    ensures
        r == satisfies(w@, ins),
{
    match ins {
        Instruction::Exclude(c) => !word_contains(w, c),
        Instruction::ExcludeAt(c, i) => word_contains(w, c) && !char_at_is(w, i, c),
        Instruction::RequireAt(c, i) => char_at_is(w, i, c),
    }
}

/// Removes every word inconsistent with `ins`, keeping the order of the rest.
pub fn keep_satisfying(words: &mut Vec<String>, ins: Instruction)
    ensures
        words_view(final(words)@) == keep_matching(words_view(old(words)@), ins),
{
    let ghost ws = words_view(words@);
    let ghost p = |w: Seq<char>| satisfies(w, ins);
    let mut kept: Vec<String> = Vec::new();
    let mut k: usize = 0;
    while k < words.len()
        invariant
            ws == words_view(words@),
            p == (|w: Seq<char>| satisfies(w, ins)),
            k <= words@.len(),
            words_view(kept@) == select(ws.take(k as int), p),
        decreases words@.len() - k,
    {
        let w = &words[k];
        assert(ws.take(k as int + 1).drop_last() =~= ws.take(k as int));
        assert(ws[k as int] == w@);
        assert(p(w@) == satisfies(w@, ins));
        assert(ws.take(k as int + 1).last() == w@);
        assert(select(ws.take(k as int + 1), p) == if p(w@) {
            select(ws.take(k as int), p).push(w@)
        } else {
            select(ws.take(k as int), p)
        });
        if word_satisfies(w.as_str(), ins) {
            let ghost before = kept@;
            kept.push(w.clone());
            assert(words_view(kept@) =~= words_view(before).push(w@));
        }
        k = k + 1;
    }
    assert(ws.take(words@.len() as int) =~= ws);
    *words = kept;
}

/// Removes every word that contains `letter`.
pub fn letter_gray(words: &mut Vec<String>, letter: char)
    ensures
        words_view(final(words)@) == keep_matching(words_view(old(words)@), Instruction::Exclude(letter)),
{
    keep_satisfying(words, Instruction::Exclude(letter));
}

/// Removes every word that lacks `letter`, or has it at position `pos`.
pub fn letter_yellow(words: &mut Vec<String>, letter: char, pos: usize)
    ensures
        words_view(final(words)@) == keep_matching(
            words_view(old(words)@),
            Instruction::ExcludeAt(letter, pos),
        ),
{
    keep_satisfying(words, Instruction::ExcludeAt(letter, pos));
}

/// Removes every word that does not have `letter` at position `pos`.
pub fn letter_green(words: &mut Vec<String>, letter: char, pos: usize)
    ensures
        words_view(final(words)@) == keep_matching(
            words_view(old(words)@),
            Instruction::RequireAt(letter, pos),
        ),
{
    keep_satisfying(words, Instruction::RequireAt(letter, pos));
}

/// Applies the instructions in order, each narrowing the candidates further.
pub fn apply(words: &mut Vec<String>, instructions: &Vec<Instruction>)
    ensures
        words_view(final(words)@) == apply_all(words_view(old(words)@), instructions@),
        final(words)@.len() <= old(words)@.len(),
{
    let ghost ws = words_view(words@);
    let mut k: usize = 0;
    assert(instructions@.take(0) =~= Seq::<Instruction>::empty());
    while k < instructions.len()
        invariant
            k <= instructions@.len(),
            words_view(words@) == apply_all(ws, instructions@.take(k as int)),
        decreases instructions@.len() - k,
    {
        assert(instructions@.take(k as int + 1).drop_last() =~= instructions@.take(k as int));
        keep_satisfying(words, instructions[k]);
        k = k + 1;
    }
    assert(instructions@.take(instructions@.len() as int) =~= instructions@);
    proof {
        law_apply_shrinks(ws, instructions@);
    }
}

/// Replaces the candidates with a fresh copy of the dictionary.
pub fn reset(words: &mut Vec<String>, dictionary: &Vec<String>)
    ensures
        final(words)@ == dictionary@,
{
    let mut fresh: Vec<String> = Vec::new();
    let mut k: usize = 0;
    while k < dictionary.len()
        invariant
            k <= dictionary@.len(),
            fresh@ == dictionary@.take(k as int),
        decreases dictionary@.len() - k,
    {
        fresh.push(dictionary[k].clone());
        assert(fresh@ =~= dictionary@.take(k as int + 1));
        k = k + 1;
    }
    assert(dictionary@.take(dictionary@.len() as int) =~= dictionary@);
    *words = fresh;
}

/// Interprets a guess with its feedback and narrows the candidates by it; the
/// guess and the feedback must both have the words' length `word_len`.
///
/// On an error the candidates are left as they were.
pub fn filter_by_guess(words: &mut Vec<String>, word_len: usize, guess: &str, feedback: &str) -> (r: Result<(), FeedbackError>)
    ensures
        r is Ok <==> guess@.len() == word_len && feedback@.len() == word_len && valid_prefix(
            feedback@,
            feedback@.len() as int,
        ),
        r is Ok ==> words_view(final(words)@) == apply_all(
            words_view(old(words)@),
            instructions_of(guess@, feedback@),
        ),
        r is Err ==> final(words)@ == old(words)@,
        guess@.len() != word_len || feedback@.len() != word_len ==> r == Err::<(), FeedbackError>(
            FeedbackError::LengthMismatch,
        ),
        guess@.len() == word_len && feedback@.len() == word_len && !valid_prefix(
            feedback@,
            feedback@.len() as int,
        ) ==> (exists|k: int|
            0 <= k < feedback@.len() && valid_prefix(feedback@, k) && symbol_of(
                #[trigger] feedback@[k],
            ) is None && r == Err::<(), FeedbackError>(FeedbackError::InvalidSymbol(feedback@[k]))),
{
    if guess.unicode_len() != word_len || feedback.unicode_len() != word_len {
        return Err(FeedbackError::LengthMismatch);
    }
    match interpret(guess, feedback) {
        Ok(ins) => {
            apply(words, &ins);
            Ok(())
        },
        Err(e) => Err(e),
    }
}

/// Narrows the candidates by a line `"<guess> <feedback>"`: exactly two tokens
/// separated by one space, each of the words' length `word_len`.
///
/// On an error the candidates are left as they were.
pub fn process_input(words: &mut Vec<String>, word_len: usize, input: &str) -> (r: Result<(), FeedbackError>)
    ensures
        !is_two_tokens(input@) ==> r == Err::<(), FeedbackError>(FeedbackError::WrongTokenCount),
        r is Err ==> final(words)@ == old(words)@,
        ({
            let g = first_token(input@);
            let f = argument(input@);
            is_two_tokens(input@) ==> {
                &&& r is Ok <==> g.len() == word_len && f.len() == word_len && valid_prefix(f, f.len() as int)
                &&& r is Ok ==> words_view(final(words)@) == apply_all(words_view(old(words)@), instructions_of(g, f))
                &&& g.len() != word_len || f.len() != word_len ==> r == Err::<(), FeedbackError>(FeedbackError::LengthMismatch)
                &&& g.len() == word_len && f.len() == word_len && !valid_prefix(f, f.len() as int) ==> (exists|k: int|
                    0 <= k < f.len() && valid_prefix(f, k) && symbol_of(#[trigger] f[k]) is None && r
                        == Err::<(), FeedbackError>(FeedbackError::InvalidSymbol(f[k])))
            }
        }),
{
    let len = input.unicode_len();
    let e = find_token_end(input, 0);
    if e == len {
        return Err(FeedbackError::WrongTokenCount);
    }
    let e2 = find_token_end(input, e + 1);
    if e2 != len {
        return Err(FeedbackError::WrongTokenCount);
    }
    let guess = input.substring_char(0, e);
    let feedback = input.substring_char(e + 1, e2);
    filter_by_guess(words, word_len, guess, feedback)
}

} // verus!
