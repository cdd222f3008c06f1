//! Ranking the units of a text and putting the best of them together.

use crate::frequency::{
    freq_analysis, lemma_occurrences_bound, lemma_sum_over_agrees, lemma_sum_over_bound, lookup,
    remove_excluded, score, score_of, weight, words,
};
use crate::rank::{is_order, lemma_rank_in_range, lists, nats, rank, rank_order};
use crate::split::{
    chars_of, delimiter, lemma_split_bounds, split, terminator, texts, Cut, Separator, Source,
};
use vstd::prelude::*;
use vstd::string::{StrSliceExecFns, StringExecFns};

verus! {

/// What ends a paragraph.
pub enum Paragraph {
    /// Two line feeds.
    Unix,
    /// Two pairs of a carriage return and a line feed.
    Windows,
}

/// The units that a text is cut into.
pub enum Summary {
    /// Paragraphs.
    Paragraph(Paragraph),
    /// Sentences, each ended by `.`, `?` or `!`.
    Sentence,
    /// The stretches between the occurrences of the given string.
    Pattern(String),
}

impl View for Summary {
    type V = Separator;

    open spec fn view(&self) -> Separator {
        match self {
            Summary::Paragraph(Paragraph::Unix) => Separator::Literal(seq!['\n', '\n']),
            Summary::Paragraph(Paragraph::Windows) => Separator::Literal(
                seq!['\r', '\n', '\r', '\n'],
            ),
            Summary::Sentence => Separator::AnyOf(Set::new(|c: char| terminator(c))),
            Summary::Pattern(p) => Separator::Literal(p@),
        }
    }
}

impl Summary {
    /// The separator in the form in which a text is searched for it.
    pub fn cut(&self) -> (cut: Cut)
        ensures
            cut@ == self@,
    {
        match self {
            Summary::Paragraph(Paragraph::Unix) => {
                let p: Vec<char> = vec!['\n', '\n'];
                assert(p@ =~= seq!['\n', '\n']);
                Cut::Literal(p)
            },
            Summary::Paragraph(Paragraph::Windows) => {
                let p: Vec<char> = vec!['\r', '\n', '\r', '\n'];
                assert(p@ =~= seq!['\r', '\n', '\r', '\n']);
                Cut::Literal(p)
            },
            Summary::Sentence => Cut::Terminators,
            Summary::Pattern(p) => Cut::Literal(chars_of(p.as_str())),
        }
    }
}

/// One unit of a text with its score.
#[derive(Clone, Copy, Debug)]
pub struct Digest<'a> {
    /// The unit, as it stands in the text.
    pub text: &'a str,
    /// The weights of its words, added up.
    pub score: usize,
    /// Its place among the units of the text, counted from 0.
    pub index: usize,
}

/// A `Digest` as plain values.
pub ghost struct Entry {
    pub text: Seq<char>,
    pub score: nat,
    pub index: nat,
}

impl<'a> View for Digest<'a> {
    type V = Entry;

    open spec fn view(&self) -> Entry {
        Entry { text: self.text@, score: self.score as nat, index: self.index as nat }
    }
}

/// The views of a vector of digests.
pub open spec fn entries(v: Seq<Digest>) -> Seq<Entry> {
    Seq::new(v.len(), |i: int| v[i]@)
}

/// The scores of the units of `text`, in the order of the text.
pub open spec fn unit_scores(exclude: Seq<char>, text: Seq<char>, sep: Separator) -> Seq<nat> {
    let units = split(text, sep);
    Seq::new(units.len(), |i: int| score_of(exclude, text, units[i]))
}

/// Whether every score is a number that the machine can hold.
pub open spec fn scores_fit(exclude: Seq<char>, text: Seq<char>, sep: Separator) -> bool {
    forall|i: int|
        0 <= i < unit_scores(exclude, text, sep).len() ==> #[trigger] unit_scores(
            exclude,
            text,
            sep,
        )[i] <= usize::MAX
}

/// Whether `ranked` holds the unit at place `i` of the text.
pub open spec fn holds_unit(ranked: Seq<Entry>, i: int) -> bool {
    exists|k: int| 0 <= k < ranked.len() && (#[trigger] ranked[k]).index == i
}

/// Whether `ranked` holds the units of `text`, each once with its score and
/// its place in the text, in the order of their ranks.
pub open spec fn is_ranking(
    ranked: Seq<Entry>,
    exclude: Seq<char>,
    text: Seq<char>,
    sep: Separator,
) -> bool {
    let units = split(text, sep);
    let scores = unit_scores(exclude, text, sep);
    &&& ranked.len() == units.len()
    &&& forall|k: int|
        0 <= k < ranked.len() ==> {
            let d = #[trigger] ranked[k];
            &&& d.index < units.len()
            &&& d.text == units[d.index as int]
            &&& d.score == scores[d.index as int]
            &&& rank(scores, d.index as int) == k
        }
    &&& forall|i: int| 0 <= i < units.len() ==> #[trigger] holds_unit(ranked, i)
    &&& forall|k: int, l: int|
        0 <= k < l < ranked.len() ==> {
            let a = #[trigger] ranked[k];
            let b = #[trigger] ranked[l];
            a.score > b.score || (a.score == b.score && a.index < b.index)
        }
}

/// The places of the first `n` units that fewer than `take` others are
/// ranked before, in rising order.
pub open spec fn kept(scores: Seq<nat>, take: nat, n: nat) -> Seq<int>
    decreases n,
{
    if n == 0 {
        Seq::empty()
    } else if rank(scores, n - 1) < take {
        kept(scores, take, (n - 1) as nat).push(n - 1)
    } else {
        kept(scores, take, (n - 1) as nat)
    }
}

/// The parts in a row, with `glue` between each two.
pub open spec fn join(parts: Seq<Seq<char>>, glue: Seq<char>) -> Seq<char>
    decreases parts.len(),
{
    if parts.len() == 0 {
        Seq::empty()
    } else if parts.len() == 1 {
        parts[0]
    } else {
        join(parts.drop_last(), glue) + glue + parts.last()
    }
}

/// The units at the given places.
pub open spec fn pick(units: Seq<Seq<char>>, places: Seq<int>) -> Seq<Seq<char>> {
    Seq::new(places.len(), |k: int| units[places[k]])
}

/// The `take` best units of `text`, in the order of the text, with a blank
/// line between each two.
pub open spec fn summary_of(
    exclude: Seq<char>,
    text: Seq<char>,
    sep: Separator,
    take: nat,
) -> Seq<char> {
    let units = split(text, sep);
    let scores = unit_scores(exclude, text, sep);
    join(pick(units, kept(scores, take, units.len())), seq!['\n', '\n'])
}

/// No score is greater than the square of the number of characters of the
/// text plus one. So the scores of a text of which that square is a number
/// of the machine fit.
pub proof fn short_text_fits(exclude: Seq<char>, text: Seq<char>, sep: Separator)
    ensures
        forall|i: int|
            0 <= i < split(text, sep).len() ==> (#[trigger] unit_scores(exclude, text, sep)[i])
                <= (text.len() + 1) * (text.len() + 1),
        (text.len() + 1) * (text.len() + 1) <= usize::MAX ==> scores_fit(exclude, text, sep),
{
    let units = split(text, sep);
    let n = text.len() + 1;
    let value = |w: Seq<char>| weight(exclude, text, w);
    lemma_split_bounds(text, sep);
    lemma_split_bounds(text, Separator::AnyOf(Set::new(|c: char| delimiter(c))));
    assert forall|i: int| 0 <= i < units.len() implies (#[trigger] unit_scores(
        exclude,
        text,
        sep,
    )[i]) <= n * n by {
        let ws = words(units[i]);
        lemma_split_bounds(
            units[i],
            Separator::AnyOf(Set::new(|c: char| delimiter(c))),
        );
        assert forall|j: int| 0 <= j < ws.len() implies value(#[trigger] ws[j]) <= n by {
            lemma_occurrences_bound(words(text), ws[j]);
        }
        lemma_sum_over_bound(ws, value, n as nat);
        assert(ws.len() <= n);
        assert(ws.len() * n <= n * n) by (nonlinear_arith)
            requires
                ws.len() <= n,
                n >= 0,
        ;
    }
}

/// The units of `text`, in the order of the text and as they stand in it.
pub fn split_into_units<'a>(text: &'a str, summary: &Summary) -> (units: Vec<&'a str>)
    ensures
        texts(units@) == split(text@, summary@),
{
    Source::new(text).split(&summary.cut())
}

/// Whether the square of the number of characters of `text` plus one is a
/// number of the machine. Then the scores of its units fit, whatever the
/// exclusion list and the separator.
pub fn is_short(text: &str) -> (short: bool)
    ensures
        short == ((text@.len() + 1) * (text@.len() + 1) <= usize::MAX),
        short ==> forall|exclude: Seq<char>, sep: Separator| #[trigger]
            scores_fit(exclude, text@, sep),
{
    let n: usize = text.unicode_len();
    proof {
        assert forall|exclude: Seq<char>, sep: Separator|
            (n + 1) * (n + 1) <= usize::MAX implies #[trigger] scores_fit(exclude, text@, sep) by {
            short_text_fits(exclude, text@, sep);
        }
    }
    match n.checked_add(1) {
        Some(m) => m.checked_mul(m).is_some(),
        None => {
            assert((n + 1) * (n + 1) > usize::MAX) by (nonlinear_arith)
                requires
                    n + 1 > usize::MAX,
            ;
            false
        },
    }
}

/// Ranks the units of `text`: each unit with its score and its place in the
/// text, by falling score, units of one score in the order of the text. A
/// word that `exclude` names counts for nothing.
pub fn analyze<'a>(exclude: &str, text: &'a str, summary: Summary) -> (ranked: Vec<Digest<'a>>)
    requires
        scores_fit(exclude@, text@, summary@),
    ensures
        is_ranking(entries(ranked@), exclude@, text@, summary@),
{
    let source = Source::new(text);
    let units: Vec<&'a str> = source.split(&summary.cut());
    let all_words: Vec<&'a str> = source.split(&Cut::Delimiters);
    let mut table = freq_analysis(&all_words);
    remove_excluded(&mut table, exclude);
    let ghost value = |w: Seq<char>| weight(exclude@, text@, w);
    let ghost found = |w: Seq<char>| lookup(table@, w);
    proof {
        assert forall|w: Seq<char>| #[trigger] lookup(table@, w) == weight(exclude@, text@, w) by {
            lemma_occurrences_bound(words(text@), w);
            assert(words(exclude@).to_set().contains(w) == words(exclude@).contains(w));
        }
    }
    let ghost sc = unit_scores(exclude@, text@, summary@);
    let n: usize = units.len();
    let mut scores: Vec<usize> = Vec::new();
    let mut i: usize = 0;
    while i < n
        invariant
            i <= n,
            n == units@.len(),
            texts(units@) == split(text@, summary@),
            sc == unit_scores(exclude@, text@, summary@),
            scores_fit(exclude@, text@, summary@),
            value == (|w: Seq<char>| weight(exclude@, text@, w)),
            found == (|w: Seq<char>| lookup(table@, w)),
            forall|w: Seq<char>| #[trigger] lookup(table@, w) == weight(exclude@, text@, w),
            scores@.len() == i,
            forall|j: int| 0 <= j < i ==> scores@[j] == sc[j],
        decreases n - i,
    {
        proof {
            assert(units@[i as int]@ == texts(units@)[i as int]);
            lemma_sum_over_agrees(words(units@[i as int]@), found, value);
            assert(sc[i as int] == score_of(exclude@, text@, units@[i as int]@));
        }
        scores.push(score(units[i], &table));
        i += 1;
    }
    assert(nats(scores@) =~= sc);
    let order = rank_order(&scores);
    let mut ranked: Vec<Digest<'a>> = Vec::new();
    let mut k: usize = 0;
    while k < n
        invariant
            k <= n,
            n == units@.len(),
            n == scores@.len(),
            n == order@.len(),
            nats(scores@) == sc,
            is_order(sc, order@),
            ranked@.len() == k,
            forall|j: int|
                0 <= j < k ==> (#[trigger] ranked@[j]).index == order@[j] && ranked@[j].text
                    == units@[order@[j] as int] && ranked@[j].score == scores@[order@[j] as int],
        decreases n - k,
    {
        let place: usize = order[k];
        ranked.push(Digest { text: units[place], score: scores[place], index: place });
        k += 1;
    }
    proof {
        let r = entries(ranked@);
        let us = split(text@, summary@);
        assert forall|j: int| 0 <= j < r.len() implies {
            let d = #[trigger] r[j];
            &&& d.index < us.len()
            &&& d.text == us[d.index as int]
            &&& d.score == sc[d.index as int]
            &&& rank(sc, d.index as int) == j
        } by {
            assert(ranked@[j].index == order@[j]);
            assert(texts(units@)[order@[j] as int] == units@[order@[j] as int]@);
            assert(nats(scores@)[order@[j] as int] == scores@[order@[j] as int]);
        }
        assert forall|i: int| 0 <= i < us.len() implies #[trigger] holds_unit(r, i) by {
            assert(lists(order@, i));
            let j = choose|j: int| 0 <= j < order@.len() && order@[j] == i;
            assert(r[j].index == i);
        }
        assert forall|a: int, b: int| 0 <= a < b < r.len() implies {
            let x = #[trigger] r[a];
            let y = #[trigger] r[b];
            x.score > y.score || (x.score == y.score && x.index < y.index)
        } by {
            assert(ranked@[a].index == order@[a]);
            assert(ranked@[b].index == order@[b]);
            assert(nats(scores@)[order@[a] as int] == scores@[order@[a] as int]);
            assert(nats(scores@)[order@[b] as int] == scores@[order@[b] as int]);
        }
    }
    ranked
}

/// The `take` best units of `text`, in the order of the text, with a blank
/// line between each two. With fewer than `take` units, all of them.
pub fn summarize(exclude: &str, text: &str, summary: Summary, take: usize) -> (out: String)
    requires
        scores_fit(exclude@, text@, summary@),
    ensures
        out@ == summary_of(exclude@, text@, summary@, take as nat),
{
    let ghost units = split(text@, summary@);
    let ghost sc = unit_scores(exclude@, text@, summary@);
    let ranked = analyze(exclude, text, summary);
    let ghost r = entries(ranked@);
    let n: usize = ranked.len();
    let top: usize = if take < n {
        take
    } else {
        n
    };
    let mut slots: Vec<Option<&str>> = Vec::new();
    let mut i: usize = 0;
    while i < n
        invariant
            i <= n,
            slots@.len() == i,
            forall|j: int| 0 <= j < i ==> slots@[j] is None,
        decreases n - i,
    {
        slots.push(None);
        i += 1;
    }
    let mut k: usize = 0;
    while k < top
        invariant
            k <= top <= n,
            n == ranked@.len(),
            n == units.len(),
            n == sc.len(),
            r == entries(ranked@),
            is_ranking(r, exclude@, text@, summary@),
            units == split(text@, summary@),
            sc == unit_scores(exclude@, text@, summary@),
            slots@.len() == n,
            forall|j: int|
                0 <= j < n ==> match #[trigger] slots@[j] {
                    Some(t) => t@ == units[j] && rank(sc, j) < k,
                    None => rank(sc, j) >= k,
                },
        decreases top - k,
    {
        let d: Digest = ranked[k];
        proof {
            assert(r[k as int] == d@);
            assert forall|j: int| 0 <= j < n && j != d.index implies rank(sc, j) != k by {
                assert(holds_unit(r, j));
                let l = choose|l: int| 0 <= l < r.len() && (#[trigger] r[l]).index == j;
                assert(rank(sc, r[l].index as int) == l);
            }
        }
        slots.set(d.index, Some(d.text));
        k += 1;
    }
    let mut out = String::new();
    let mut any: bool = false;
    let ghost glue = seq!['\n', '\n'];
    proof {
        reveal_strlit("\n\n");
        assert("\n\n"@ =~= glue);
    }
    let mut i: usize = 0;
    while i < n
        invariant
            i <= n,
            top <= n,
            top == take || (top == n && take >= n),
            n == units.len(),
            n == sc.len(),
            slots@.len() == n,
            glue == seq!['\n', '\n'],
            "\n\n"@ == glue,
            forall|j: int|
                0 <= j < n ==> match #[trigger] slots@[j] {
                    Some(t) => t@ == units[j] && rank(sc, j) < top,
                    None => rank(sc, j) >= top,
                },
            any == (kept(sc, take as nat, i as nat).len() > 0),
            out@ == join(pick(units, kept(sc, take as nat, i as nat)), glue),
        decreases n - i,
    {
        proof {
            lemma_rank_in_range(sc, i as int);
        }
        let ghost before = kept(sc, take as nat, i as nat);
        match slots[i] {
            Some(t) => {
                if any {
                    out.append("\n\n");
                }
                out.append(t);
                any = true;
                proof {
                    let after = kept(sc, take as nat, (i + 1) as nat);
                    assert(after == before.push(i as int));
                    assert(pick(units, after).drop_last() =~= pick(units, before));
                    assert(pick(units, after).last() == units[i as int]);
                    assert(out@ =~= join(pick(units, after), glue));
                }
            },
            None => {},
        }
        i += 1;
    }
    out
}

/// Puts the summary together from what two reads gave: the exclusion list
/// and the text. Where a read failed, its error is returned, that of the
/// exclusion list before that of the text, and nothing is analyzed.
pub fn run<E>(
    exclude: Result<String, E>,
    text: Result<String, E>,
    summary: Summary,
    take: usize,
) -> (out: Result<String, E>)
    requires
        exclude is Ok && text is Ok ==> scores_fit(exclude->Ok_0@, text->Ok_0@, summary@),
    ensures
        match (exclude, text) {
            (Ok(e), Ok(t)) => out is Ok && out->Ok_0@ == summary_of(e@, t@, summary@, take as nat),
            (Err(e), _) => out == Err::<String, E>(e),
            (Ok(_), Err(e)) => out == Err::<String, E>(e),
        },
{
    match exclude {
        Err(e) => Err(e),
        Ok(exclude) => match text {
            Err(e) => Err(e),
            Ok(text) => Ok(summarize(exclude.as_str(), text.as_str(), summary, take)),
        },
    }
}

} // verus!
