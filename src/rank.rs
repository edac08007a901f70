//! Ordering scored candidates and taking the best of them.
use vstd::prelude::*;
use vstd::multiset::Multiset;

verus! {

/// Strict lexicographic order on words, letter by letter by code point; a
/// proper prefix comes first.
pub open spec fn lex_lt(a: Seq<char>, b: Seq<char>) -> bool
    decreases a.len(),
{
    if a.len() == 0 {
        b.len() > 0
    } else if b.len() == 0 {
        false
    } else if a[0] != b[0] {
        (a[0] as u32) < (b[0] as u32)
    } else {
        lex_lt(a.drop_first(), b.drop_first())
    }
}

/// A scored word, with the word as its characters.
pub open spec fn entry_view(e: (usize, String)) -> (usize, Seq<char>) {
    (e.0, e.1@)
}

/// A sequence of scored words, with each word as its characters.
pub open spec fn ranked_view(v: Seq<(usize, String)>) -> Seq<(usize, Seq<char>)> {
    v.map_values(|e: (usize, String)| entry_view(e))
}

/// Whether `a` comes strictly before `b`: a higher score first, and on equal
/// scores the word that is lexicographically smaller.
pub open spec fn ranks_before(a: (usize, Seq<char>), b: (usize, Seq<char>)) -> bool {
    a.0 > b.0 || (a.0 == b.0 && lex_lt(a.1, b.1))
}

/// Whether no entry of `v` ranks strictly before one that precedes it.
pub open spec fn is_ranked(v: Seq<(usize, Seq<char>)>) -> bool {
    forall|i: int, j: int| 0 <= i < j < v.len() ==> !ranks_before(#[trigger] v[j], #[trigger] v[i])
}

proof fn lemma_lex_asym(a: Seq<char>, b: Seq<char>)
    ensures
        !(lex_lt(a, b) && lex_lt(b, a)),
    decreases a.len(),
{
    if a.len() > 0 && b.len() > 0 && a[0] == b[0] {
        lemma_lex_asym(a.drop_first(), b.drop_first());
    }
}

proof fn lemma_lex_trans(a: Seq<char>, b: Seq<char>, c: Seq<char>)
    requires
        lex_lt(a, b),
        lex_lt(b, c),
    ensures
        lex_lt(a, c),
    decreases a.len(),
{
    if a.len() > 0 && b.len() > 0 && c.len() > 0 && a[0] == b[0] && b[0] == c[0] {
        lemma_lex_trans(a.drop_first(), b.drop_first(), c.drop_first());
    }
}

proof fn lemma_ranks_before_trans(a: (usize, Seq<char>), b: (usize, Seq<char>), c: (usize, Seq<char>))
    requires
        ranks_before(a, b),
        ranks_before(b, c),
    ensures
        ranks_before(a, c),
{
    if a.0 == b.0 && b.0 == c.0 {
        lemma_lex_trans(a.1, b.1, c.1);
    }
}

proof fn lemma_ranks_before_asym(a: (usize, Seq<char>), b: (usize, Seq<char>))
    ensures
        !(ranks_before(a, b) && ranks_before(b, a)),
{
    lemma_lex_asym(a.1, b.1);
}

proof fn lemma_insert_multiset<A>(s: Seq<A>, i: int, x: A)
    requires
        0 <= i <= s.len(),
    ensures
        s.insert(i, x).to_multiset() =~= s.to_multiset().insert(x),
{
    let u = s.insert(i, x);
    u.to_multiset_ensures();
    assert(u.remove(i) =~= s);
    assert(u.contains(u[i]));
}

proof fn lemma_empty_multiset<A>(s: Seq<A>)
    requires
        s.len() == 0,
    ensures
        s.to_multiset() =~= Multiset::<A>::empty(),
{
    s.to_multiset_ensures();
    vstd::multiset::lemma_multiset_empty_len(s.to_multiset());
}

/// Whether word `a` comes strictly before word `b` lexicographically.
pub fn word_lt(a: &str, b: &str) -> (r: bool)
    ensures
        r == lex_lt(a@, b@),
{
    let na = a.unicode_len();
    let nb = b.unicode_len();
    let mut i: usize = 0;
    assert(a@.skip(0) =~= a@);
    assert(b@.skip(0) =~= b@);
    while i < na && i < nb
        invariant
            na == a@.len(),
            nb == b@.len(),
            i <= na,
            i <= nb,
            lex_lt(a@, b@) == lex_lt(a@.skip(i as int), b@.skip(i as int)),
        decreases na - i,
    {
        let ca = a.get_char(i);
        let cb = b.get_char(i);
        assert(a@.skip(i as int)[0] == ca);
        assert(b@.skip(i as int)[0] == cb);
        if ca != cb {
            return (ca as u32) < (cb as u32);
        }
        assert(a@.skip(i as int).drop_first() =~= a@.skip(i as int + 1));
        assert(b@.skip(i as int).drop_first() =~= b@.skip(i as int + 1));
        i = i + 1;
    }
    i < nb && i == na
}

/// Whether scored word `a` ranks strictly before scored word `b`.
pub fn entry_before(a: &(usize, String), b: &(usize, String)) -> (r: bool)
    ensures
        r == ranks_before(entry_view(*a), entry_view(*b)),
{
    a.0 > b.0 || (a.0 == b.0 && word_lt(a.1.as_str(), b.1.as_str()))
}

/// Orders scored words: descending by score, ties by word ascending.
pub fn rank(scored: Vec<(usize, String)>) -> (r: Vec<(usize, String)>)
    ensures
        is_ranked(ranked_view(r@)),
        ranked_view(r@).to_multiset() == ranked_view(scored@).to_multiset(),
{
    let ghost all = ranked_view(scored@);
    let mut rest = scored;
    let mut out: Vec<(usize, String)> = Vec::new();
    proof {
        lemma_empty_multiset(ranked_view(out@));
        assert(ranked_view(out@).to_multiset().add(all.to_multiset()) =~= all.to_multiset());
    }
    while rest.len() > 0
        invariant
            is_ranked(ranked_view(out@)),
            ranked_view(out@).to_multiset().add(ranked_view(rest@).to_multiset()) == all.to_multiset(),
        decreases rest@.len(),
    {
        let ghost before_rest = rest@;
        let e = rest.pop().unwrap();
        let ghost ev = entry_view(e);
        assert(ranked_view(before_rest) =~= ranked_view(rest@).push(ev));
        proof {
            ranked_view(rest@).to_multiset_ensures();
        }
        let ghost t = ranked_view(out@);
        let mut pos: usize = 0;
        while pos < out.len() && !entry_before(&e, &out[pos])
            invariant
                t == ranked_view(out@),
                ev == entry_view(e),
                pos <= out@.len(),
                forall|j: int| 0 <= j < pos ==> !ranks_before(ev, #[trigger] t[j]),
            decreases out@.len() - pos,
        {
            pos = pos + 1;
        }
        out.insert(pos, e);
        let ghost u = ranked_view(out@);
        assert(u =~= t.insert(pos as int, ev));
        proof {
            lemma_insert_multiset(t, pos as int, ev);
            assert(u.to_multiset().add(ranked_view(rest@).to_multiset()) =~= t.to_multiset().add(
                ranked_view(before_rest).to_multiset(),
            ));
            assert forall|a: int, b: int| 0 <= a < b < u.len() implies !ranks_before(#[trigger] u[b], #[trigger] u[a]) by {
                if a == pos {
                    lemma_ranks_before_asym(t[b - 1], ev);
                    if b - 1 > pos {
                        assert(!ranks_before(t[b - 1], t[pos as int]));
                        if ranks_before(t[b - 1], ev) {
                            lemma_ranks_before_trans(t[b - 1], ev, t[pos as int]);
                        }
                    }
                } else if b == pos {
                    assert(u[a] == t[a]);
                } else if a > pos {
                    assert(u[a] == t[a - 1] && u[b] == t[b - 1]);
                } else if b > pos {
                    assert(u[a] == t[a] && u[b] == t[b - 1]);
                } else {
                    assert(u[a] == t[a] && u[b] == t[b]);
                }
            }
        }
    }
    proof {
        lemma_empty_multiset(ranked_view(rest@));
        assert(ranked_view(out@).to_multiset().add(ranked_view(rest@).to_multiset()) =~= ranked_view(
            out@,
        ).to_multiset());
    }
    out
}

/// The first `n` entries of a ranking, or all of them when there are fewer.
pub fn top_n(ranked: &Vec<(usize, String)>, n: usize) -> (r: Vec<(usize, String)>)
    ensures
        ranked_view(r@) == ranked_view(ranked@).take(if n < ranked@.len() { n as int } else { ranked@.len() as int }),
{
    let m = if n < ranked.len() { n } else { ranked.len() };
    let mut out: Vec<(usize, String)> = Vec::new();
    let mut k: usize = 0;
    while k < m
        invariant
            m <= ranked@.len(),
            k <= m,
            ranked_view(out@) == ranked_view(ranked@).take(k as int),
        decreases m - k,
    {
        let e = &ranked[k];
        let ghost prev = out@;
        out.push((e.0, e.1.clone()));
        assert(ranked_view(out@) =~= ranked_view(prev).push(entry_view(ranked@[k as int])));
        assert(ranked_view(out@) =~= ranked_view(ranked@).take(k as int + 1));
        k = k + 1;
    }
    out
}

} // verus!
