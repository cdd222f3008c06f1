//! Cutting a text at separators.

use vstd::prelude::*;
use vstd::std_specs::iter::IteratorSpec;
use vstd::string::is_ascii;

verus! {

/// What parts a text: any single character of a set, or a literal string.
pub enum Separator {
    AnyOf(Set<char>),
    Literal(Seq<char>),
}

impl Separator {
    /// How many characters one occurrence covers.
    pub open spec fn width(self) -> nat {
        match self {
            Separator::AnyOf(_) => 1,
            Separator::Literal(p) => p.len(),
        }
    }

    /// Whether an occurrence starts at position `i` of `s`.
    pub open spec fn occurs_at(self, s: Seq<char>, i: int) -> bool {
        match self {
            Separator::AnyOf(cs) => 0 <= i < s.len() && cs.contains(s[i]),
            Separator::Literal(p) => 0 <= i && i + p.len() <= s.len() && s.subrange(
                i,
                i + p.len(),
            ) == p,
        }
    }

    /// Whether position `i` is the leftmost occurrence in `s`.
    pub open spec fn first_at(self, s: Seq<char>, i: int) -> bool {
        self.occurs_at(s, i) && forall|j: int| j < i ==> !self.occurs_at(s, j)
    }

    /// The position of the leftmost occurrence in `s`, where there is one.
    pub open spec fn first_in(self, s: Seq<char>) -> int {
        choose|i: int| self.first_at(s, i)
    }
}

/// The pieces of `s` between the occurrences of `sep`, found from the left
/// and never overlapping. A text without an occurrence is its own single
/// piece. The empty literal occurs before and after every character, so it
/// leaves an empty piece, each character by itself, and an empty piece.
pub open spec fn split(s: Seq<char>, sep: Separator) -> Seq<Seq<char>>
    decreases s.len(),
{
    if sep.width() == 0 {
        seq![Seq::<char>::empty()] + Seq::new(s.len(), |i: int| seq![s[i]])
            + seq![Seq::<char>::empty()]
    } else {
        let i = sep.first_in(s);
        if sep.occurs_at(s, i) {
            seq![s.take(i)] + split(s.skip(i + sep.width()), sep)
        } else {
            seq![s]
        }
    }
}

/// The views of a vector of string slices.
pub open spec fn texts(v: Seq<&str>) -> Seq<Seq<char>> {
    Seq::new(v.len(), |i: int| v[i]@)
}

/// A leftmost occurrence is the one that `first_in` names.
pub proof fn lemma_first_is_unique(sep: Separator, s: Seq<char>, i: int)
    requires
        sep.first_at(s, i),
    ensures
        sep.first_in(s) == i,
{
    let k = sep.first_in(s);
    assert(sep.first_at(s, k));
    if k < i {
        assert(!sep.occurs_at(s, k));
    }
    if i < k {
        assert(!sep.occurs_at(s, i));
    }
}

/// An occurrence in a suffix is an occurrence in the whole text, shifted.
pub proof fn lemma_occurs_in_suffix(sep: Separator, s: Seq<char>, from: int, i: int)
    requires
        0 <= from <= s.len(),
        0 <= i,
    ensures
        sep.occurs_at(s.skip(from), i) == sep.occurs_at(s, from + i),
{
    match sep {
        Separator::AnyOf(cs) => {},
        Separator::Literal(p) => {
            if i + p.len() <= s.len() - from {
                assert(s.skip(from).subrange(i, i + p.len()) =~= s.subrange(
                    from + i,
                    from + i + p.len(),
                ));
            }
        },
    }
}

/// With an occurrence at `i` and none in `from..i`, the pieces of the text
/// from `from` on are the stretch `from..i` and then the pieces of what
/// follows the occurrence.
pub proof fn lemma_split_at_first(sep: Separator, s: Seq<char>, from: int, i: int)
    requires
        sep.width() > 0,
        0 <= from <= i,
        sep.occurs_at(s, i),
        forall|j: int| from <= j < i ==> !sep.occurs_at(s, j),
    ensures
        i + sep.width() <= s.len(),
        split(s.skip(from), sep) == seq![s.subrange(from, i)] + split(
            s.skip(i + sep.width()),
            sep,
        ),
{
    let t = s.skip(from);
    lemma_occurs_in_suffix(sep, s, from, i - from);
    assert forall|j: int| j < i - from implies !sep.occurs_at(t, j) by {
        if 0 <= j {
            lemma_occurs_in_suffix(sep, s, from, j);
        }
    }
    lemma_first_is_unique(sep, t, i - from);
    assert(t.take(i - from) =~= s.subrange(from, i));
    assert(t.skip(i - from + sep.width()) =~= s.skip(i + sep.width()));
}

/// Without an occurrence from `from` on, the rest of the text is one piece.
pub proof fn lemma_split_without(sep: Separator, s: Seq<char>, from: int)
    requires
        sep.width() > 0,
        0 <= from <= s.len(),
        forall|j: int| from <= j ==> !sep.occurs_at(s, j),
    ensures
        split(s.skip(from), sep) == seq![s.skip(from)],
{
    let t = s.skip(from);
    let k = sep.first_in(t);
    if sep.occurs_at(t, k) {
        lemma_occurs_in_suffix(sep, s, from, k);
    }
}

/// A text has at least one piece, no piece is longer than the text, and a
/// separator that is not empty leaves at most one piece more than the text
/// has characters.
pub proof fn lemma_split_bounds(s: Seq<char>, sep: Separator)
    ensures
        split(s, sep).len() >= 1,
        sep.width() > 0 ==> split(s, sep).len() <= s.len() + 1,
        forall|k: int|
            0 <= k < split(s, sep).len() ==> (#[trigger] split(s, sep)[k]).len() <= s.len(),
    decreases s.len(),
{
    if sep.width() > 0 {
        let i = sep.first_in(s);
        if sep.occurs_at(s, i) {
            let rest = s.skip(i + sep.width());
            lemma_split_bounds(rest, sep);
            assert forall|k: int| 0 <= k < split(s, sep).len() implies (#[trigger] split(
                s,
                sep,
            )[k]).len() <= s.len() by {
                if k > 0 {
                    assert(split(s, sep)[k] == split(rest, sep)[k - 1]);
                }
            }
        }
    }
}

/// The characters that bound a word.
pub open spec fn delimiter(c: char) -> bool {
    c == '.' || c == '!' || c == '?' || c == ',' || c == ';' || c == ')' || c == '(' || c == '{'
        || c == '}' || c == '[' || c == ']' || c == ':' || c == '"' || c == '\'' || c == '\r' || c
        == '\n' || c == '\t' || c == ' '
}

/// The characters that end a sentence.
pub open spec fn terminator(c: char) -> bool {
    c == '.' || c == '?' || c == '!'
}

/// Whether `c` bounds a word.
pub fn is_delimiter(c: char) -> (b: bool)
    ensures
        b == delimiter(c),
{
    match c {
        '.' | '!' | '?' | ',' | ';' | ')' | '(' | '{' | '}' | '[' | ']' | ':' | '"' | '\'' | '\r'
        | '\n' | '\t' | ' ' => true,
        _ => false,
    }
}

/// Whether `c` ends a sentence.
pub fn is_terminator(c: char) -> (b: bool)
    ensures
        b == terminator(c),
{
    c == '.' || c == '?' || c == '!'
}

/// A separator in the form in which a text is searched for it.
pub enum Cut {
    /// Any character that bounds a word.
    Delimiters,
    /// Any character that ends a sentence.
    Terminators,
    /// The given characters, in a row.
    Literal(Vec<char>),
}

impl View for Cut {
    type V = Separator;

    open spec fn view(&self) -> Separator {
        match self {
            Cut::Delimiters => Separator::AnyOf(Set::new(|c: char| delimiter(c))),
            Cut::Terminators => Separator::AnyOf(Set::new(|c: char| terminator(c))),
            Cut::Literal(p) => Separator::Literal(p@),
        }
    }
}

/// The characters of `text`, in order.
pub fn chars_of(text: &str) -> (chars: Vec<char>)
    ensures
        chars@ == text@,
{
    let mut chars: Vec<char> = Vec::new();
    for c in it: text.chars()
        invariant
            chars@ == it.seq().take(it.index() as int),
    {
        chars.push(c);
    }
    chars
}

/// A text held together with its characters, so that a position counted in
/// characters is found in constant time.
pub struct Source<'a> {
    text: &'a str,
    chars: Vec<char>,
    ascii: bool,
}

impl<'a> View for Source<'a> {
    type V = Seq<char>;

    closed spec fn view(&self) -> Seq<char> {
        self.text@
    }
}

impl<'a> Source<'a> {
    /// The characters agree with the text, and `ascii` is set only for a
    /// text of ASCII characters.
    #[verifier::type_invariant]
    spec fn wf(&self) -> bool {
        self.chars@ == self.text@ && (self.ascii ==> is_ascii(self.text))
    }

    /// Reads `text` once.
    pub fn new(text: &'a str) -> (src: Self)
        ensures
            src@ == text@,
    {
        Source { text, chars: chars_of(text), ascii: text.is_ascii() }
    }

    /// The number of characters.
    pub fn len(&self) -> (n: usize)
        ensures
            n == self@.len(),
    {
        proof {
            use_type_invariant(self);
        }
        self.chars.len()
    }

    /// The character at position `i`.
    pub fn char_at(&self, i: usize) -> (c: char)
        requires
            i < self@.len(),
        ensures
            c == self@[i as int],
    {
        proof {
            use_type_invariant(self);
        }
        self.chars[i]
    }

    /// The stretch of the text from position `from` up to `to`.
    pub fn slice(&self, from: usize, to: usize) -> (piece: &'a str)
        requires
            from <= to <= self@.len(),
        ensures
            piece@ == self@.subrange(from as int, to as int),
    {
        proof {
            use_type_invariant(self);
        }
        if self.ascii {
            self.text.substring_ascii(from, to)
        } else {
            self.text.substring_char(from, to)
        }
    }

    /// Whether `cut` occurs at position `i`.
    pub fn occurs_at(&self, cut: &Cut, i: usize) -> (b: bool)
        requires
            i < self@.len(),
        ensures
            b == cut@.occurs_at(self@, i as int),
    {
        proof {
            use_type_invariant(self);
        }
        match cut {
            Cut::Delimiters => is_delimiter(self.chars[i]),
            Cut::Terminators => is_terminator(self.chars[i]),
            Cut::Literal(p) => {
                let w: usize = p.len();
                if w > self.chars.len() - i {
                    return false;
                }
                let mut k: usize = 0;
                while k < w
                    invariant
                        k <= w,
                        w == p@.len(),
                        i + w <= self.chars@.len() <= usize::MAX,
                        self.chars@ == self@,
                        cut@ == Separator::Literal(p@),
                        forall|j: int| 0 <= j < k ==> self.chars@[i + j] == p@[j],
                    decreases w - k,
                {
                    if self.chars[i + k] != p[k] {
                        assert(self@.subrange(i as int, i + w)[k as int] != p@[k as int]);
                        return false;
                    }
                    k += 1;
                }
                assert(self@.subrange(i as int, i + w) =~= p@);
                true
            },
        }
    }

    /// The pieces of the text between the occurrences of `cut`.
    pub fn split(&self, cut: &Cut) -> (pieces: Vec<&'a str>)
        ensures
            texts(pieces@) == split(self@, cut@),
    {
        let n: usize = self.len();
        let mut pieces: Vec<&'a str> = Vec::new();
        let w: usize = match cut {
            Cut::Literal(p) => p.len(),
            _ => 1,
        };
        if w == 0 {
            pieces.push(self.slice(0, 0));
            assert(self@.subrange(0, 0) =~= Seq::<char>::empty());
            let mut i: usize = 0;
            while i < n
                invariant
                    i <= n,
                    n == self@.len(),
                    texts(pieces@) =~= seq![Seq::<char>::empty()] + Seq::new(
                        i as nat,
                        |j: int| seq![self@[j]],
                    ),
                decreases n - i,
            {
                let ghost before = texts(pieces@);
                pieces.push(self.slice(i, i + 1));
                assert(self@.subrange(i as int, i + 1) =~= seq![self@[i as int]]);
                assert(texts(pieces@) =~= before.push(seq![self@[i as int]]));
                i += 1;
            }
            let ghost before = texts(pieces@);
            pieces.push(self.slice(n, n));
            assert(self@.subrange(n as int, n as int) =~= Seq::<char>::empty());
            assert(texts(pieces@) =~= before.push(Seq::<char>::empty()));
            assert(texts(pieces@) =~= split(self@, cut@));
            return pieces;
        }
        let mut start: usize = 0;
        let mut i: usize = 0;
        assert(self@.skip(0) =~= self@);
        assert(texts(pieces@) + split(self@, cut@) =~= split(self@, cut@));
        while i < n
            invariant
                start <= i <= n,
                n == self@.len(),
                w == cut@.width(),
                w > 0,
                split(self@, cut@) == texts(pieces@) + split(self@.skip(start as int), cut@),
                forall|j: int| start <= j < i ==> !cut@.occurs_at(self@, j),
            decreases n - i,
        {
            if self.occurs_at(cut, i) {
                proof {
                    lemma_split_at_first(cut@, self@, start as int, i as int);
                }
                let ghost before = texts(pieces@);
                pieces.push(self.slice(start, i));
                assert(texts(pieces@) =~= before + seq![self@.subrange(start as int, i as int)]);
                i += w;
                start = i;
            } else {
                i += 1;
            }
        }
        proof {
            lemma_split_without(cut@, self@, start as int);
        }
        let ghost before = texts(pieces@);
        pieces.push(self.slice(start, n));
        assert(texts(pieces@) =~= before + seq![self@.skip(start as int)]);
        pieces
    }
}

} // verus!
