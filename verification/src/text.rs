//! Small verified helpers on strings, seen as sequences of characters.

use vstd::prelude::*;

verus! {

/// The characters of `s`, in order.
pub fn chars_of(s: &str) -> (out: Vec<char>)
    ensures
        out@ == s@,
{
    let mut out: Vec<char> = Vec::new();
    for c in it: s.chars()
        invariant
            out@ == it.seq().take(it.index() as int),
            it.seq() == s@,
    {
        out.push(c);
    }
    out
}

/// Whether `prefix` is an initial segment of `text`.
pub open spec fn begins_with(text: Seq<char>, prefix: Seq<char>) -> bool {
    prefix.len() <= text.len() && text.subrange(0, prefix.len() as int) == prefix
}

/// Whether the characters of `text` from `at` on begin with `prefix`.
pub(crate) fn chars_begin_with(text: &Vec<char>, at: usize, prefix: &Vec<char>) -> (r: bool)
    requires
        at <= text.len(),
    ensures
        r == begins_with(text@.subrange(at as int, text@.len() as int), prefix@),
{
    let ghost tail = text@.subrange(at as int, text@.len() as int);
    if prefix.len() > text.len() - at {
        return false;
    }
    let mut i: usize = 0;
    while i < prefix.len()
        invariant
            at <= text.len(),
            prefix.len() <= text.len() - at,
            i <= prefix.len(),
            tail == text@.subrange(at as int, text@.len() as int),
            forall|j: int| 0 <= j < i ==> tail[j] == prefix@[j],
        decreases prefix.len() - i,
    {
        if text[at + i] != prefix[i] {
            assert(tail.subrange(0, prefix@.len() as int)[i as int] != prefix@[i as int]);
            return false;
        }
        i += 1;
    }
    assert(tail.subrange(0, prefix@.len() as int) =~= prefix@);
    true
}

/// Whether `text` begins with `prefix`.
pub fn starts_with(text: &str, prefix: &str) -> (r: bool)
    ensures
        r == begins_with(text@, prefix@),
{
    let t = chars_of(text);
    let p = chars_of(prefix);
    assert(t@.subrange(0, t@.len() as int) =~= t@);
    chars_begin_with(&t, 0, &p)
}

/// Whether two strings hold the same characters.
pub fn equal(a: &str, b: &str) -> (r: bool)
    ensures
        r == (a@ == b@),
{
    let x = chars_of(a);
    let y = chars_of(b);
    if x.len() != y.len() {
        return false;
    }
    assert(x@.subrange(0, x@.len() as int) =~= x@);
    assert(y@.subrange(0, y@.len() as int) =~= y@);
    chars_begin_with(&x, 0, &y)
}

/// How one value stands to another in a total order.
#[derive(Clone, Copy, PartialEq, Eq, Structural, Debug)]
pub enum Rank {
    Before,
    Same,
    After,
}

impl Rank {
    /// The rank with the two sides exchanged.
    pub open spec fn flipped(self) -> Rank {
        match self {
            Rank::Before => Rank::After,
            Rank::Same => Rank::Same,
            Rank::After => Rank::Before,
        }
    }

    /// This rank, or `next` where this one is `Same`.
    pub open spec fn or(self, next: Rank) -> Rank {
        match self {
            Rank::Same => next,
            other => other,
        }
    }
}

/// The rank of `a` against `b` from position `from` on, character by
/// character; a text that ends first comes first.
pub open spec fn rank_from(a: Seq<char>, b: Seq<char>, from: int) -> Rank
    decreases a.len() - from,
{
    if from < 0 || from >= a.len() {
        if from >= b.len() {
            Rank::Same
        } else {
            Rank::Before
        }
    } else if from >= b.len() {
        Rank::After
    } else if a[from] == b[from] {
        rank_from(a, b, from + 1)
    } else if a[from] < b[from] {
        Rank::Before
    } else {
        Rank::After
    }
}

/// The rank of `a` against `b` in lexicographic order.
pub open spec fn text_rank(a: Seq<char>, b: Seq<char>) -> Rank {
    rank_from(a, b, 0)
}

/// Exchanging the sides flips the rank.
pub proof fn lemma_rank_flips(a: Seq<char>, b: Seq<char>, from: int)
    requires
        0 <= from,
    ensures
        rank_from(b, a, from) == rank_from(a, b, from).flipped(),
    decreases a.len() - from,
{
    if from < a.len() && from < b.len() && a[from] == b[from] {
        lemma_rank_flips(a, b, from + 1);
    }
}

/// Two texts rank the same from `from` on exactly when they are equal from
/// there on.
pub proof fn lemma_rank_same(a: Seq<char>, b: Seq<char>, from: int)
    requires
        0 <= from,
    ensures
        rank_from(a, b, from) == Rank::Same <==> (a.len() == b.len() || (from >= a.len() && from
            >= b.len())) && forall|i: int| from <= i < a.len() && i < b.len() ==> a[i] == b[i],
    decreases a.len() - from,
{
    if from < a.len() && from < b.len() {
        if a[from] == b[from] {
            lemma_rank_same(a, b, from + 1);
        }
    }
}

/// Coming before is transitive, and so is coming before or ranking the
/// same.
pub proof fn lemma_rank_chains(a: Seq<char>, b: Seq<char>, c: Seq<char>, from: int)
    requires
        0 <= from,
        rank_from(a, b, from) != Rank::After,
        rank_from(b, c, from) != Rank::After,
    ensures
        rank_from(a, c, from) != Rank::After,
        rank_from(a, c, from) == Rank::Same ==> rank_from(a, b, from) == Rank::Same && rank_from(
            b,
            c,
            from,
        ) == Rank::Same,
    decreases a.len() - from,
{
    if from < a.len() && from < b.len() && from < c.len() {
        if a[from] == b[from] && b[from] == c[from] {
            lemma_rank_chains(a, b, c, from + 1);
        }
    }
}

/// Two texts rank the same exactly when they are the same text.
pub proof fn lemma_text_rank_same(a: Seq<char>, b: Seq<char>)
    ensures
        text_rank(a, b) == Rank::Same <==> a == b,
{
    lemma_rank_same(a, b, 0);
    if text_rank(a, b) == Rank::Same {
        assert(a =~= b);
    }
}

/// Ranks two texts in lexicographic order.
pub fn rank_text(a: &str, b: &str) -> (r: Rank)
    ensures
        r == text_rank(a@, b@),
{
    let x = chars_of(a);
    let y = chars_of(b);
    let mut i: usize = 0;
    while i < x.len() && i < y.len()
        invariant
            i <= x.len(),
            i <= y.len(),
            x@ == a@,
            y@ == b@,
            rank_from(x@, y@, 0) == rank_from(x@, y@, i as int),
        decreases x.len() - i,
    {
        if x[i] != y[i] {
            return if x[i] < y[i] {
                Rank::Before
            } else {
                Rank::After
            };
        }
        i += 1;
    }
    if i < x.len() {
        Rank::After
    } else if i < y.len() {
        Rank::Before
    } else {
        Rank::Same
    }
}

} // verus!
