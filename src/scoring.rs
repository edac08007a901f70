//! Per-position letter frequencies over the candidates, and the scores they give.
use vstd::prelude::*;
use std::collections::HashMap;
use crate::filter::words_view;

verus! {

broadcast use vstd::std_specs::hash::group_hash_axioms;

/// How many words of `ws` have the letter `c` at position `i`.
pub open spec fn count_at(ws: Seq<Seq<char>>, i: int, c: char) -> nat
    decreases ws.len(),
{
    if ws.len() == 0 {
        0
    } else {
        let w = ws.last();
        count_at(ws.drop_last(), i, c) + if 0 <= i < w.len() && w[i] == c {
            1nat
        } else {
            0nat
        }
    }
}

/// The score of `w` over its first `n` positions: at each, how many words of
/// `ws` share its letter there (the word itself included when it is in `ws`).
pub open spec fn score_upto(ws: Seq<Seq<char>>, w: Seq<char>, n: int) -> nat
    decreases n,
{
    if n <= 0 {
        0
    } else {
        score_upto(ws, w, n - 1) + count_at(ws, n - 1, w[n - 1])
    }
}

/// The score of `w` against the candidates `ws`.
pub open spec fn score_of(ws: Seq<Seq<char>>, w: Seq<char>) -> nat {
    score_upto(ws, w, w.len() as int)
}

proof fn lemma_count_le(ws: Seq<Seq<char>>, i: int, c: char)
    ensures
        count_at(ws, i, c) <= ws.len(),
    decreases ws.len(),
{
    if ws.len() > 0 {
        lemma_count_le(ws.drop_last(), i, c);
    }
}

proof fn lemma_count_beyond(ws: Seq<Seq<char>>, i: int, c: char, width: int)
    requires
        forall|k: int| 0 <= k < ws.len() ==> (#[trigger] ws[k]).len() <= width,
        i >= width || i < 0,
    ensures
        count_at(ws, i, c) == 0,
    decreases ws.len(),
{
    if ws.len() > 0 {
        assert(ws[ws.len() - 1].len() <= width);
        lemma_count_beyond(ws.drop_last(), i, c, width);
    }
}

proof fn lemma_score_le(ws: Seq<Seq<char>>, w: Seq<char>, n: int)
    requires
        0 <= n <= w.len(),
    ensures
        score_upto(ws, w, n) <= n * ws.len(),
    decreases n,
{
    if n > 0 {
        lemma_score_le(ws, w, n - 1);
        lemma_count_le(ws, n - 1, w[n - 1]);
        assert((n - 1) * ws.len() + ws.len() == n * ws.len()) by (nonlinear_arith);
    }
}

proof fn lemma_count_remove(ws: Seq<Seq<char>>, j: int, i: int, c: char)
    requires
        0 <= j < ws.len(),
    ensures
        count_at(ws, i, c) == count_at(ws.remove(j), i, c) + if 0 <= i < ws[j].len() && ws[j][i] == c {
            1nat
        } else {
            0nat
        },
    decreases ws.len(),
{
    if j == ws.len() - 1 {
        assert(ws.remove(j) =~= ws.drop_last());
    } else {
        lemma_count_remove(ws.drop_last(), j, i, c);
        assert(ws.remove(j).drop_last() =~= ws.drop_last().remove(j));
        assert(ws.remove(j).last() == ws.last());
    }
}

proof fn lemma_count_multiset(a: Seq<Seq<char>>, b: Seq<Seq<char>>, i: int, c: char)
    requires
        a.to_multiset() == b.to_multiset(),
    ensures
        count_at(a, i, c) == count_at(b, i, c),
    decreases a.len(),
{
    a.to_multiset_ensures();
    b.to_multiset_ensures();
    if a.len() > 0 {
        let x = a.last();
        let rest = a.drop_last();
        rest.to_multiset_ensures();
        assert(rest.push(x) =~= a);
        assert(a.contains(x)) by {
            assert(a[a.len() - 1] == x);
        }
        assert(a.to_multiset().count(x) > 0);
        assert(b.to_multiset().count(x) > 0);
        assert(b.contains(x));
        let j = choose|j: int| 0 <= j < b.len() && b[j] == x;
        assert(rest.to_multiset() =~= a.to_multiset().remove(x));
        assert(b.remove(j).to_multiset() =~= b.to_multiset().remove(x));
        lemma_count_multiset(rest, b.remove(j), i, c);
        lemma_count_remove(b, j, i, c);
    }
}

proof fn lemma_score_multiset(a: Seq<Seq<char>>, b: Seq<Seq<char>>, w: Seq<char>, n: int)
    requires
        a.to_multiset() == b.to_multiset(),
    ensures
        score_upto(a, w, n) == score_upto(b, w, n),
    decreases n,
{
    if n > 0 {
        lemma_score_multiset(a, b, w, n - 1);
        lemma_count_multiset(a, b, n - 1, w[n - 1]);
    }
}

/// A word's score depends only on which words are candidates, each with its
/// number of copies, and not on their order.
pub proof fn law_score_ignores_order(a: Seq<Seq<char>>, b: Seq<Seq<char>>, w: Seq<char>)
    requires
        a.to_multiset() == b.to_multiset(),
    ensures
        score_of(a, w) == score_of(b, w),
{
    lemma_score_multiset(a, b, w, w.len() as int);
}

/// The count a column map holds for letter `c` (absent letters count 0).
pub open spec fn column_count(m: Map<u32, usize>, c: char) -> nat {
    if m.contains_key(c as u32) {
        m[c as u32] as nat
    } else {
        0
    }
}

proof fn lemma_key_injective(a: char, b: char)
    ensures
        (a as u32) == (b as u32) ==> a == b,
{
    assert((a as u32) == (b as u32) ==> (a as int) == (b as int));
}

/// The sum, over the first `n` positions of `w`, of the count the table holds
/// for `w`'s letter there.
pub open spec fn table_sum(t: FrequencyTable, w: Seq<char>, n: int) -> nat
    decreases n,
{
    if n <= 0 {
        0
    } else {
        table_sum(t, w, n - 1) + t.freq(n - 1, w[n - 1])
    }
}

/// For each position, how many candidates have each letter there.
pub struct FrequencyTable {
    /// One map per position, from a letter's code to its count there.
    pub columns: Vec<HashMap<u32, usize>>,
    /// How many candidates the table was built from.
    pub total: usize,
}

impl FrequencyTable {
    /// The count the table holds for letter `c` at position `i` (absent letters count 0).
    pub open spec fn freq(&self, i: int, c: char) -> nat {
        if 0 <= i < self.columns@.len() {
            column_count(self.columns@[i]@, c)
        } else {
            0
        }
    }

    /// Whether no count exceeds the number of candidates.
    pub open spec fn bounded(&self) -> bool {
        forall|i: int, c: char| #[trigger] self.freq(i, c) <= self.total
    }

    /// Whether the table holds exactly the letter counts of `ws`.
    pub open spec fn describes(&self, ws: Seq<Seq<char>>) -> bool {
        &&& self.total == ws.len()
        &&& forall|i: int, c: char| #[trigger] self.freq(i, c) == count_at(ws, i, c)
    }

    /// The count for letter `c` at position `i`.
    pub fn frequency(&self, i: usize, c: char) -> (r: usize)
        ensures
            r == self.freq(i as int, c),
    {
        if i < self.columns.len() {
            match self.columns[i].get(&(c as u32)) {
                Some(n) => *n,
                None => 0,
            }
        } else {
            0
        }
    }
}

/// Builds the frequency table of the candidates: for each position, each
/// letter's count among the words that have it there.
pub fn build_frequency_table(words: &Vec<String>) -> (r: FrequencyTable)
    ensures
        r.describes(words_view(words@)),
        r.bounded(),
{
    let ghost ws = words_view(words@);
    let mut width: usize = 0;
    let mut k: usize = 0;
    while k < words.len()
        invariant
            ws == words_view(words@),
            k <= words@.len(),
            forall|j: int| 0 <= j < k ==> (#[trigger] ws[j]).len() <= width,
        decreases words@.len() - k,
    {
        let len = words[k].as_str().unicode_len();
        if len > width {
            width = len;
        }
        k = k + 1;
    }
    let mut columns: Vec<HashMap<u32, usize>> = Vec::new();
    let mut i: usize = 0;
    while i < width
        invariant
            ws == words_view(words@),
            forall|j: int| 0 <= j < words@.len() ==> (#[trigger] ws[j]).len() <= width,
            i <= width,
            columns@.len() == i,
            forall|p: int, c: char|
                0 <= p < i ==> #[trigger] column_count(columns@[p]@, c) == count_at(ws, p, c),
        decreases width - i,
    {
        let mut column: HashMap<u32, usize> = HashMap::new();
        let mut k: usize = 0;
        while k < words.len()
            invariant
                ws == words_view(words@),
                k <= words@.len(),
                forall|c: char|
                    #[trigger] column_count(column@, c) == count_at(ws.take(k as int), i as int, c),
            decreases words@.len() - k,
        {
            let w = words[k].as_str();
            let ghost prev = ws.take(k as int);
            let ghost next = ws.take(k as int + 1);
            let ghost old_col = column@;
            assert(next.drop_last() =~= prev);
            assert(ws[k as int] == w@);
            assert(next.last() == w@);
            if i < w.unicode_len() {
                let c = w.get_char(i);
                let key = c as u32;
                proof {
                    assert(column_count(old_col, c) == count_at(prev, i as int, c));
                    lemma_count_le(prev, i as int, c);
                }
                let n: usize = match column.get(&key) {
                    Some(n) => *n,
                    None => 0,
                };
                column.insert(key, n + 1);
                assert forall|d: char| #[trigger] column_count(column@, d) == count_at(next, i as int, d) by {
                    lemma_key_injective(d, c);
                    assert(column_count(old_col, d) == count_at(prev, i as int, d));
                }
            } else {
                assert forall|d: char| #[trigger] column_count(column@, d) == count_at(next, i as int, d) by {
                    assert(column_count(old_col, d) == count_at(prev, i as int, d));
                }
            }
            k = k + 1;
        }
        assert(ws.take(words@.len() as int) =~= ws);
        columns.push(column);
        i = i + 1;
    }
    let r = FrequencyTable { columns, total: words.len() };
    assert forall|p: int, c: char| #[trigger] r.freq(p, c) == count_at(ws, p, c) by {
        if p < 0 || p >= width {
            lemma_count_beyond(ws, p, c, width as int);
        } else {
            assert(column_count(columns@[p]@, c) == count_at(ws, p, c));
        }
    }
    assert forall|p: int, c: char| #[trigger] r.freq(p, c) <= r.total by {
        lemma_count_le(ws, p, c);
    }
    r
}

/// The score of a word under a table: the sum, over its positions, of the
/// count of its letter there.
pub fn score(word: &str, table: &FrequencyTable) -> (r: usize)
    requires
        table.bounded(),
        word@.len() * table.total <= usize::MAX,
    ensures
        r == table_sum(*table, word@, word@.len() as int),
        forall|ws: Seq<Seq<char>>| #[trigger] table.describes(ws) ==> r == score_of(ws, word@),
{
    let n = word.unicode_len();
    let ghost t = table.total as int;
    let mut sum: usize = 0;
    let mut p: usize = 0;
    while p < n
        invariant
            n == word@.len(),
            n * t <= usize::MAX,
            t == table.total,
            table.bounded(),
            p <= n,
            sum <= p * t,
            sum == table_sum(*table, word@, p as int),
            forall|ws: Seq<Seq<char>>| #[trigger] table.describes(ws) ==> sum == score_upto(ws, word@, p as int),
        decreases n - p,
    {
        let c = word.get_char(p);
        let f = table.frequency(p, c);
        proof {
            assert(table.freq(p as int, c) <= t);
            assert((p + 1) * t <= n * t) by (nonlinear_arith)
                requires p + 1 <= n, t >= 0;
            assert(p * t + t == (p + 1) * t) by (nonlinear_arith);
        }
        sum = sum + f;
        p = p + 1;
    }
    sum
}

/// Each candidate of `ws` with its score against `ws`, in the order of `ws`.
pub open spec fn scored(ws: Seq<Seq<char>>) -> Seq<(nat, Seq<char>)> {
    Seq::new(ws.len(), |k: int| (score_of(ws, ws[k]), ws[k]))
}

/// Scored words, with scores as numbers and words as their characters.
pub open spec fn scores_view(v: Seq<(usize, String)>) -> Seq<(nat, Seq<char>)> {
    v.map_values(|e: (usize, String)| (e.0 as nat, e.1@))
}

/// Scores every candidate against the frequency table of the current candidates,
/// keeping their order.
pub fn process_scores(words: &Vec<String>) -> (r: Vec<(usize, String)>)
    requires
        scores_fit(words@),
    ensures
        scores_view(r@) == scored(words_view(words@)),
        r@.len() == words@.len(),
        forall|k: int|
            0 <= k < r@.len() ==> (#[trigger] r@[k]).1@ == words@[k]@ && r@[k].0 == score_of(
                words_view(words@),
                words@[k]@,
            ),
{
    let ghost ws = words_view(words@);
    let table = build_frequency_table(words);
    let mut out: Vec<(usize, String)> = Vec::new();
    let mut k: usize = 0;
    while k < words.len()
        invariant
            ws == words_view(words@),
            table.describes(ws),
            table.bounded(),
            table.total == words@.len(),
            forall|j: int| 0 <= j < words@.len() ==> (#[trigger] words@[j])@.len() * words@.len() <= usize::MAX,
            k <= words@.len(),
            out@.len() == k,
            forall|j: int|
                0 <= j < k ==> (#[trigger] out@[j]).1@ == words@[j]@ && out@[j].0 == score_of(ws, words@[j]@),
        decreases words@.len() - k,
    {
        let w = &words[k];
        assert(words@[k as int]@.len() * words@.len() <= usize::MAX);
        let s = score(w.as_str(), &table);
        out.push((s, w.clone()));
        k = k + 1;
    }
    assert(scores_view(out@) =~= scored(ws));
    out
}

/// Whether every score of these candidates fits in `usize`: no word's length
/// times the number of candidates exceeds it.
pub open spec fn scores_fit(words: Seq<String>) -> bool {
    forall|k: int| 0 <= k < words.len() ==> (#[trigger] words[k])@.len() * words.len() <= usize::MAX
}

/// Tests whether every score of these candidates fits in `usize`.
pub fn check_scores_fit(words: &Vec<String>) -> (r: bool)
    ensures
        r == scores_fit(words@),
{
    let n = words.len();
    let mut k: usize = 0;
    while k < n
        invariant
            n == words@.len(),
            k <= n,
            forall|j: int| 0 <= j < k ==> (#[trigger] words@[j])@.len() * n <= usize::MAX,
        decreases n - k,
    {
        let l = words[k].as_str().unicode_len();
        proof {
            if n > 0 {
                let m = usize::MAX as int;
                assert((l as int) <= m / (n as int) <==> (l as int) * (n as int) <= m) by (nonlinear_arith)
                    requires n > 0, l >= 0, m >= 0;
            }
        }
        if n > 0 && l > usize::MAX / n {
            return false;
        }
        k = k + 1;
    }
    true
}

} // verus!
