//! Word counts, exclusion, and the score of a unit.

use crate::split::{delimiter, split, texts, Cut, Separator, Source};
use vstd::hash_map::StringHashMap;
use vstd::prelude::*;
use vstd::string::StringExecFns;

verus! {

/// The words of `s`: the stretches between delimiters, empty ones included.
pub open spec fn words(s: Seq<char>) -> Seq<Seq<char>> {
    split(s, Separator::AnyOf(Set::new(|c: char| delimiter(c))))
}

/// How often `w` stands in `ws`.
pub open spec fn occurrences(ws: Seq<Seq<char>>, w: Seq<char>) -> nat
    decreases ws.len(),
{
    if ws.len() == 0 {
        0
    } else {
        occurrences(ws.drop_last(), w) + if ws.last() == w {
            1nat
        } else {
            0nat
        }
    }
}

/// The table that holds each word of `ws` with the number of times it occurs.
pub open spec fn frequencies(ws: Seq<Seq<char>>) -> Map<Seq<char>, usize> {
    Map::new(|w: Seq<char>| ws.contains(w), |w: Seq<char>| occurrences(ws, w) as usize)
}

/// What a table gives for `w`: its entry, or nothing where it has none.
pub open spec fn lookup(table: Map<Seq<char>, usize>, w: Seq<char>) -> nat {
    if table.contains_key(w) {
        table[w] as nat
    } else {
        0
    }
}

/// The values of `value` on the words of `ws`, added up.
pub open spec fn sum_over(ws: Seq<Seq<char>>, value: spec_fn(Seq<char>) -> nat) -> nat
    decreases ws.len(),
{
    if ws.len() == 0 {
        0
    } else {
        sum_over(ws.drop_last(), value) + value(ws.last())
    }
}

/// What the word `w` counts for: nothing if the exclusion list names it,
/// else the number of times it occurs in the text.
pub open spec fn weight(exclude: Seq<char>, text: Seq<char>, w: Seq<char>) -> nat {
    if words(exclude).contains(w) {
        0
    } else {
        occurrences(words(text), w)
    }
}

/// The score of a unit: the weights of its words, added up.
pub open spec fn score_of(exclude: Seq<char>, text: Seq<char>, unit: Seq<char>) -> nat {
    sum_over(words(unit), |w: Seq<char>| weight(exclude, text, w))
}

/// A word occurs at most as often as there are words.
pub proof fn lemma_occurrences_bound(ws: Seq<Seq<char>>, w: Seq<char>)
    ensures
        occurrences(ws, w) <= ws.len(),
        occurrences(ws, w) > 0 <==> ws.contains(w),
    decreases ws.len(),
{
    if ws.len() > 0 {
        lemma_occurrences_bound(ws.drop_last(), w);
        if ws.drop_last().contains(w) {
            let i = choose|i: int| 0 <= i < ws.drop_last().len() && ws.drop_last()[i] == w;
            assert(ws[i] == w);
        }
        if ws.contains(w) && ws.last() != w {
            let i = choose|i: int| 0 <= i < ws.len() && ws[i] == w;
            assert(ws.drop_last()[i] == w);
        }
    }
}

/// Two valuations that agree on the words of `ws` give the same sum.
pub proof fn lemma_sum_over_agrees(
    ws: Seq<Seq<char>>,
    f: spec_fn(Seq<char>) -> nat,
    g: spec_fn(Seq<char>) -> nat,
)
    requires
        forall|i: int| 0 <= i < ws.len() ==> f(#[trigger] ws[i]) == g(ws[i]),
    ensures
        sum_over(ws, f) == sum_over(ws, g),
    decreases ws.len(),
{
    if ws.len() > 0 {
        lemma_sum_over_agrees(ws.drop_last(), f, g);
    }
}

/// A sum of values that are each at most `bound` is at most `bound` times
/// the number of words.
pub proof fn lemma_sum_over_bound(ws: Seq<Seq<char>>, value: spec_fn(Seq<char>) -> nat, bound: nat)
    requires
        forall|i: int| 0 <= i < ws.len() ==> value(#[trigger] ws[i]) <= bound,
    ensures
        sum_over(ws, value) <= ws.len() * bound,
    decreases ws.len(),
{
    if ws.len() > 0 {
        lemma_sum_over_bound(ws.drop_last(), value, bound);
        assert((ws.len() - 1) * bound + bound == ws.len() * bound) by (nonlinear_arith);
    }
}

/// Counts the words of `wordlist`.
pub fn freq_analysis(wordlist: &Vec<&str>) -> (table: StringHashMap<usize>)
    ensures
        table@ == frequencies(texts(wordlist@)),
{
    let mut table: StringHashMap<usize> = StringHashMap::new();
    let n: usize = wordlist.len();
    let ghost ws = texts(wordlist@);
    let mut i: usize = 0;
    assert(table@ =~= frequencies(ws.take(0)));
    while i < n
        invariant
            i <= n,
            n == wordlist@.len(),
            ws == texts(wordlist@),
            table@ == frequencies(ws.take(i as int)),
        decreases n - i,
    {
        let word: &str = wordlist[i];
        let seen: usize = match table.get(word) {
            Some(count) => *count,
            None => 0,
        };
        proof {
            let done = ws.take(i as int);
            let next = ws.take(i + 1);
            lemma_occurrences_bound(done, word@);
            assert(next.drop_last() =~= done);
            assert(next.last() == word@);
            assert(seen == occurrences(done, word@));
            assert forall|w: Seq<char>| next.contains(w) <==> (done.contains(w) || w == word@) by {
                if done.contains(w) {
                    let j = choose|j: int| 0 <= j < done.len() && done[j] == w;
                    assert(next[j] == w);
                }
                if next.contains(w) && w != word@ {
                    let j = choose|j: int| 0 <= j < next.len() && next[j] == w;
                    assert(done[j] == w);
                }
                if w == word@ {
                    assert(next[i as int] == w);
                }
            }
            assert(table@.insert(word@, (seen + 1) as usize) =~= frequencies(next));
        }
        table.insert(String::from_str(word), seen + 1);
        i += 1;
    }
    assert(ws.take(n as int) =~= ws);
    table
}

/// Takes every word of the exclusion list `exclude` out of the table. A
/// word that the table does not hold is passed over.
pub fn remove_excluded(table: &mut StringHashMap<usize>, exclude: &str)
    ensures
        final(table)@ == old(table)@.remove_keys(words(exclude@).to_set()),
{
    let excluded: Vec<&str> = Source::new(exclude).split(&Cut::Delimiters);
    let n: usize = excluded.len();
    let ghost ws = words(exclude@);
    let mut i: usize = 0;
    assert(table@ =~= old(table)@.remove_keys(ws.take(0).to_set()));
    while i < n
        invariant
            i <= n,
            n == excluded@.len(),
            ws == texts(excluded@),
            table@ == old(table)@.remove_keys(ws.take(i as int).to_set()),
        decreases n - i,
    {
        proof {
            let done = ws.take(i as int);
            let next = ws.take(i + 1);
            let word = excluded@[i as int]@;
            assert(next =~= done.push(word));
            assert forall|w: Seq<char>| next.contains(w) <==> (done.contains(w) || w == word) by {
                vstd::seq_lib::lemma_seq_contains_after_push(done, word, w);
            }
            assert(next.to_set() =~= done.to_set().insert(word));
            assert(table@.remove(word) =~= old(table)@.remove_keys(next.to_set()));
        }
        table.remove(excluded[i]);
        i += 1;
    }
    assert(ws.take(n as int) =~= ws);
}

/// The score of `unit` against `table`: what the table gives for each of
/// the unit's words, added up. A word without an entry counts for nothing.
pub fn score(unit: &str, table: &StringHashMap<usize>) -> (total: usize)
    requires
        sum_over(words(unit@), |w: Seq<char>| lookup(table@, w)) <= usize::MAX,
    ensures
        total == sum_over(words(unit@), |w: Seq<char>| lookup(table@, w)),
{
    let source = Source::new(unit);
    let tokens: Vec<&str> = source.split(&Cut::Delimiters);
    let n: usize = tokens.len();
    let ghost ws = words(unit@);
    let ghost value = |w: Seq<char>| lookup(table@, w);
    let mut total: usize = 0;
    let mut i: usize = 0;
    while i < n
        invariant
            i <= n,
            n == tokens@.len(),
            ws == texts(tokens@),
            value == (|w: Seq<char>| lookup(table@, w)),
            total == sum_over(ws.take(i as int), value),
            sum_over(ws, value) <= usize::MAX,
        decreases n - i,
    {
        let count: usize = match table.get(tokens[i]) {
            Some(count) => *count,
            None => 0,
        };
        proof {
            assert(ws.take(i + 1).drop_last() =~= ws.take(i as int));
            lemma_sum_over_prefix(ws, value, i + 1);
        }
        total = total + count;
        i += 1;
    }
    assert(ws.take(n as int) =~= ws);
    total
}

/// The sum over a prefix is at most the sum over the whole.
pub proof fn lemma_sum_over_prefix(
    ws: Seq<Seq<char>>,
    value: spec_fn(Seq<char>) -> nat,
    k: int,
)
    requires
        0 <= k <= ws.len(),
    ensures
        sum_over(ws.take(k), value) <= sum_over(ws, value),
    decreases ws.len() - k,
{
    if k < ws.len() {
        lemma_sum_over_prefix(ws, value, k + 1);
        assert(ws.take(k + 1).drop_last() =~= ws.take(k));
    } else {
        assert(ws.take(k) =~= ws);
    }
}

} // verus!
