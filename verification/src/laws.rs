//! What holds of every text, exclusion list and separator.

use crate::frequency::{occurrences, score_of, sum_over, weight, words};
use crate::rank::{lemma_rank_in_range, rank};
use crate::split::{split, Separator};
use crate::summary::{
    holds_unit, is_ranking, join, kept, pick, summary_of, unit_scores, Entry,
};
use vstd::prelude::*;

verus! {

/// A ranking holds as many units as the text has, and every place of the
/// text in exactly one of its entries.
pub proof fn ranking_holds_each_unit_once(
    ranked: Seq<Entry>,
    exclude: Seq<char>,
    text: Seq<char>,
    sep: Separator,
)
    requires
        is_ranking(ranked, exclude, text, sep),
    ensures
        ranked.len() == split(text, sep).len(),
        forall|k: int| 0 <= k < ranked.len() ==> (#[trigger] ranked[k]).index < ranked.len(),
        forall|i: int| 0 <= i < ranked.len() ==> #[trigger] holds_unit(ranked, i),
        forall|k: int, l: int|
            0 <= k < l < ranked.len() ==> (#[trigger] ranked[k]).index != (
            #[trigger] ranked[l]).index,
{
}

/// Whether the unit at place `i` of the text is held by one of the first
/// `take` entries of `ranked`.
pub open spec fn among_first(ranked: Seq<Entry>, take: nat, i: int) -> bool {
    exists|k: int| 0 <= k < take && k < ranked.len() && (#[trigger] ranked[k]).index == i
}

/// A text has one ranking only: two analyses of the same text with the same
/// exclusion list and separator give the same entries in the same order.
pub proof fn ranking_is_unique(
    first: Seq<Entry>,
    second: Seq<Entry>,
    exclude: Seq<char>,
    text: Seq<char>,
    sep: Separator,
)
    requires
        is_ranking(first, exclude, text, sep),
        is_ranking(second, exclude, text, sep),
    ensures
        first == second,
{
    let scores = unit_scores(exclude, text, sep);
    assert forall|k: int| 0 <= k < first.len() implies first[k] == second[k] by {
        let i = second[k].index as int;
        assert(holds_unit(first, i));
        let m = choose|m: int| 0 <= m < first.len() && (#[trigger] first[m]).index == i;
        assert(rank(scores, first[m].index as int) == m);
        assert(rank(scores, second[k].index as int) == k);
    }
    assert(first =~= second);
}

/// The places that are kept rise, each is a place of one of the first `n`
/// units, and a place is kept exactly if fewer than `take` units are ranked
/// before its unit.
pub proof fn kept_places_rise(scores: Seq<nat>, take: nat, n: nat)
    ensures
        forall|a: int, b: int|
            0 <= a < b < kept(scores, take, n).len() ==> (#[trigger] kept(scores, take, n)[a]) < (
            #[trigger] kept(scores, take, n)[b]),
        forall|a: int|
            0 <= a < kept(scores, take, n).len() ==> 0 <= (#[trigger] kept(scores, take, n)[a])
                < n,
        forall|i: int|
            0 <= i < n ==> (kept(scores, take, n).contains(i) <==> rank(scores, i) < take),
    decreases n,
{
    if n > 0 {
        let shorter = kept(scores, take, (n - 1) as nat);
        let whole = kept(scores, take, n);
        kept_places_rise(scores, take, (n - 1) as nat);
        assert forall|i: int| 0 <= i < n implies (whole.contains(i) <==> rank(scores, i)
            < take) by {
            if rank(scores, n - 1) < take {
                vstd::seq_lib::lemma_seq_contains_after_push(shorter, n - 1, i);
            }
            if i == n - 1 && shorter.contains(i) {
                let a = choose|a: int| 0 <= a < shorter.len() && shorter[a] == i;
                assert(shorter[a] < n - 1);
            }
        }
    }
}

/// The places kept are those of the first `take` entries of the ranking, or
/// of all entries where it has fewer; so that many places are kept.
pub proof fn kept_are_the_best(
    ranked: Seq<Entry>,
    exclude: Seq<char>,
    text: Seq<char>,
    sep: Separator,
    take: nat,
)
    requires
        is_ranking(ranked, exclude, text, sep),
    ensures
        forall|i: int|
            0 <= i < ranked.len() ==> (#[trigger] kept(
                unit_scores(exclude, text, sep),
                take,
                ranked.len(),
            ).contains(i) <==> among_first(ranked, take, i)),
        kept(unit_scores(exclude, text, sep), take, ranked.len()).len() == if take
            < ranked.len() {
            take
        } else {
            ranked.len()
        },
{
    let scores = unit_scores(exclude, text, sep);
    let n = ranked.len();
    let places = kept(scores, take, n);
    let m: nat = if take < n {
        take
    } else {
        n
    };
    let best = Seq::new(m, |k: int| ranked[k].index as int);
    kept_places_rise(scores, take, n);
    assert forall|i: int| 0 <= i < n implies (places.contains(i) <==> among_first(
        ranked,
        take,
        i,
    )) by {
        if rank(scores, i) < take {
            assert(holds_unit(ranked, i));
            let k = choose|k: int| 0 <= k < ranked.len() && (#[trigger] ranked[k]).index == i;
            assert(rank(scores, ranked[k].index as int) == k);
        }
        if among_first(ranked, take, i) {
            let k = choose|k: int|
                0 <= k < take && k < ranked.len() && (#[trigger] ranked[k]).index == i;
            assert(rank(scores, ranked[k].index as int) == k);
        }
    }
    assert forall|x: int| places.to_set().contains(x) <==> best.to_set().contains(x) by {
        if places.contains(x) {
            let a = choose|a: int| 0 <= a < places.len() && places[a] == x;
            assert(0 <= places[a] < n);
            assert(among_first(ranked, take, x));
            let k = choose|k: int|
                0 <= k < take && k < ranked.len() && (#[trigger] ranked[k]).index == x;
            assert(best[k] == x);
        }
        if best.contains(x) {
            let k = choose|k: int| 0 <= k < best.len() && best[k] == x;
            assert(ranked[k].index == x);
            assert(among_first(ranked, take, x));
        }
    }
    assert(places.to_set() =~= best.to_set());
    assert(best.no_duplicates()) by {
        assert forall|a: int, b: int| 0 <= a < best.len() && 0 <= b < best.len() && a
            != b implies best[a] != best[b] by {
            assert(rank(scores, ranked[a].index as int) == a);
            assert(rank(scores, ranked[b].index as int) == b);
        }
    }
    assert(places.no_duplicates()) by {
        assert forall|a: int, b: int| 0 <= a < places.len() && 0 <= b < places.len() && a
            != b implies places[a] != places[b] by {
            if a < b {
                assert(places[a] < places[b]);
            } else {
                assert(places[b] < places[a]);
            }
        }
    }
    best.unique_seq_to_set();
    places.unique_seq_to_set();
}

/// With nothing to take, the summary is empty.
pub proof fn nothing_taken(exclude: Seq<char>, text: Seq<char>, sep: Separator)
    ensures
        summary_of(exclude, text, sep, 0) == Seq::<char>::empty(),
{
    let scores = unit_scores(exclude, text, sep);
    assert forall|n: nat| kept(scores, 0, n) == Seq::<int>::empty() by {
        kept_none(scores, n);
    }
}

/// With nothing to take, no place is kept.
pub proof fn kept_none(scores: Seq<nat>, n: nat)
    ensures
        kept(scores, 0, n) == Seq::<int>::empty(),
    decreases n,
{
    if n > 0 {
        kept_none(scores, (n - 1) as nat);
    }
}

/// With at least as many to take as there are units, every place is kept.
pub proof fn kept_all(scores: Seq<nat>, take: nat, n: nat)
    requires
        n <= scores.len() <= take,
    ensures
        kept(scores, take, n) == Seq::new(n, |i: int| i),
    decreases n,
{
    if n > 0 {
        kept_all(scores, take, (n - 1) as nat);
        lemma_rank_in_range(scores, n - 1);
        assert(kept(scores, take, n) =~= Seq::new(n, |i: int| i));
    } else {
        assert(kept(scores, take, n) =~= Seq::new(n, |i: int| i));
    }
}

/// With at least as many to take as there are units, the summary is all
/// units in the order of the text, with a blank line between each two.
pub proof fn all_taken(exclude: Seq<char>, text: Seq<char>, sep: Separator, take: nat)
    requires
        take >= split(text, sep).len(),
    ensures
        summary_of(exclude, text, sep, take) == join(split(text, sep), seq!['\n', '\n']),
{
    let units = split(text, sep);
    let scores = unit_scores(exclude, text, sep);
    kept_all(scores, take, units.len());
    assert(pick(units, kept(scores, take, units.len())) =~= units);
}

/// A word of the exclusion list weighs nothing, so that a unit's score is
/// the sum over its other words, however often the word stands in the unit.
pub proof fn excluded_word_adds_nothing(
    exclude: Seq<char>,
    text: Seq<char>,
    unit: Seq<char>,
    w: Seq<char>,
)
    requires
        words(exclude).contains(w),
    ensures
        weight(exclude, text, w) == 0,
        score_of(exclude, text, unit) == sum_over(
            words(unit).filter(|x: Seq<char>| x != w),
            |x: Seq<char>| weight(exclude, text, x),
        ),
{
    sum_without(words(unit), |x: Seq<char>| weight(exclude, text, x), w);
}

/// Leaving out a word that weighs nothing leaves the sum as it is.
pub proof fn sum_without(ws: Seq<Seq<char>>, value: spec_fn(Seq<char>) -> nat, w: Seq<char>)
    requires
        value(w) == 0,
    ensures
        sum_over(ws, value) == sum_over(ws.filter(|x: Seq<char>| x != w), value),
    decreases ws.len(),
{
    let others = |x: Seq<char>| x != w;
    if ws.len() > 0 {
        sum_without(ws.drop_last(), value, w);
        assert(ws =~= ws.drop_last().push(ws.last()));
        ws.drop_last().lemma_filter_push(ws.last(), others);
        if ws.last() != w {
            assert(ws.filter(others).drop_last() =~= ws.drop_last().filter(others));
        }
    } else {
        assert(ws.filter(others) =~= ws);
    }
}

/// The empty text is one empty unit, unless the separator is the empty
/// string.
pub proof fn empty_text_is_one_unit(sep: Separator)
    requires
        sep.width() > 0,
    ensures
        split(Seq::<char>::empty(), sep) == seq![Seq::<char>::empty()],
{
    let s = Seq::<char>::empty();
    let i = sep.first_in(s);
    assert(!sep.occurs_at(s, i));
}

/// The one unit of the empty text scores nothing where the exclusion list
/// has an empty word; where it has none, the empty word occurs once in the
/// empty text and the unit scores 1.
pub proof fn empty_text_score(exclude: Seq<char>)
    ensures
        score_of(exclude, Seq::<char>::empty(), Seq::<char>::empty()) == if words(
            exclude,
        ).contains(Seq::<char>::empty()) {
            0nat
        } else {
            1nat
        },
{
    let s = Seq::<char>::empty();
    let value = |w: Seq<char>| weight(exclude, s, w);
    empty_text_is_one_unit(Separator::AnyOf(Set::new(|c: char| crate::split::delimiter(c))));
    let ws = words(s);
    assert(ws == seq![s]);
    assert(ws.drop_last() =~= Seq::<Seq<char>>::empty());
    assert(sum_over(ws.drop_last(), value) == 0);
    assert(ws.last() == s);
    assert(occurrences(ws.drop_last(), s) == 0);
    assert(occurrences(ws, s) == 1);
}

/// The summary of the empty text is empty, whatever is taken, unless the
/// separator is the empty string and more than one unit is taken.
pub proof fn empty_text_summary(exclude: Seq<char>, sep: Separator, take: nat)
    requires
        sep.width() > 0 || take <= 1,
    ensures
        summary_of(exclude, Seq::<char>::empty(), sep, take) == Seq::<char>::empty(),
{
    let s = Seq::<char>::empty();
    let units = split(s, sep);
    let scores = unit_scores(exclude, s, sep);
    let places = kept(scores, take, units.len());
    kept_places_rise(scores, take, units.len());
    if sep.width() > 0 {
        empty_text_is_one_unit(sep);
        assert(kept(scores, take, 0) =~= Seq::<int>::empty());
    } else {
        assert(units =~= seq![s, s]);
        assert(kept(scores, take, 0) =~= Seq::<int>::empty());
        if take == 0 {
            kept_none(scores, 2);
        } else {
            lemma_rank_in_range(scores, 0);
            lemma_rank_in_range(scores, 1);
            assert(crate::rank::above(scores, 1).contains(0));
            assert(rank(scores, 1) != 0) by {
                if crate::rank::above(scores, 1).len() == 0 {
                    assert(crate::rank::above(scores, 1).finite()) by {
                        vstd::set_lib::lemma_int_range(0, 2);
                        vstd::set_lib::lemma_len_subset(
                            crate::rank::above(scores, 1),
                            vstd::set_lib::set_int_range(0, 2),
                        );
                    }
                    crate::rank::above(scores, 1).lemma_len0_is_empty();
                }
            }
            assert(kept(scores, take, 1) =~= kept(scores, take, 0).push(0) || kept(
                scores,
                take,
                1,
            ) =~= kept(scores, take, 0));
        }
    }
    assert(forall|k: int| 0 <= k < places.len() ==> (#[trigger] pick(units, places)[k]) == s);
    assert(places.len() <= 1) by {
        if places.len() >= 2 {
            assert(places[0] < places[1]);
        }
    }
}

} // verus!
