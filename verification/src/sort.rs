//! Stable sorting of positioned items by their spans.
use vstd::prelude::*;
use crate::model::{MatchedPos, SingleLineSpan};
use crate::paint::Style;

verus! {

/// Something that has a span on a line.
pub trait Positioned {
    spec fn span_of(&self) -> SingleLineSpan;

    fn span(&self) -> (s: SingleLineSpan)
        ensures
            s == self.span_of(),
    ;
}

impl Positioned for SingleLineSpan {
    open spec fn span_of(&self) -> SingleLineSpan {
        *self
    }

    fn span(&self) -> (s: SingleLineSpan) {
        *self
    }
}

impl Positioned for (SingleLineSpan, Style) {
    open spec fn span_of(&self) -> SingleLineSpan {
        self.0
    }

    fn span(&self) -> (s: SingleLineSpan) {
        self.0
    }
}

impl Positioned for (SingleLineSpan, bool) {
    open spec fn span_of(&self) -> SingleLineSpan {
        self.0
    }

    fn span(&self) -> (s: SingleLineSpan) {
        self.0
    }
}

impl<'a> Positioned for &'a MatchedPos {
    open spec fn span_of(&self) -> SingleLineSpan {
        self.pos
    }

    fn span(&self) -> (s: SingleLineSpan) {
        self.pos
    }
}

/// Spans ordered by line, then start column, then end column.
pub open spec fn span_le(a: SingleLineSpan, b: SingleLineSpan) -> bool {
    a.line.0 < b.line.0 || (a.line.0 == b.line.0 && (a.start_col < b.start_col || (a.start_col
        == b.start_col && a.end_col <= b.end_col)))
}

fn span_le_exec(a: SingleLineSpan, b: SingleLineSpan) -> (r: bool)
    ensures
        r == span_le(a, b),
{
    a.line.0 < b.line.0 || (a.line.0 == b.line.0 && (a.start_col < b.start_col || (a.start_col
        == b.start_col && a.end_col <= b.end_col)))
}

/// Where `x` goes in the sorted `s`: after the last item not after it.
pub open spec fn insert_pos<T: Positioned>(s: Seq<T>, x: T) -> nat
    decreases s.len(),
{
    if s.len() == 0 {
        0
    } else if span_le(s.last().span_of(), x.span_of()) {
        s.len()
    } else {
        insert_pos(s.drop_last(), x)
    }
}

/// `s` stably sorted by span: equal spans keep their order.
pub open spec fn sorted_by_span<T: Positioned>(s: Seq<T>) -> Seq<T>
    decreases s.len(),
{
    if s.len() == 0 {
        s
    } else {
        let t = sorted_by_span(s.drop_last());
        t.insert(insert_pos(t, s.last()) as int, s.last())
    }
}

pub proof fn lemma_insert_pos_le<T: Positioned>(s: Seq<T>, x: T)
    ensures
        insert_pos(s, x) <= s.len(),
    decreases s.len(),
{
    if s.len() > 0 {
        lemma_insert_pos_le(s.drop_last(), x);
    }
}

pub proof fn lemma_sorted_len<T: Positioned>(s: Seq<T>)
    ensures
        sorted_by_span(s).len() == s.len(),
    decreases s.len(),
{
    if s.len() > 0 {
        lemma_sorted_len(s.drop_last());
        lemma_insert_pos_le(sorted_by_span(s.drop_last()), s.last());
    }
}

/// Whether the items of `s` are in span order.
pub open spec fn span_ordered<T: Positioned>(s: Seq<T>) -> bool {
    forall|i: int, j: int|
        0 <= i < j < s.len() ==> span_le(#[trigger] s[i].span_of(), #[trigger] s[j].span_of())
}

/// In ordered items, those before where `x` goes are not after it, and
/// those from there on are not before it.
pub proof fn lemma_insert_pos_splits<T: Positioned>(s: Seq<T>, x: T)
    requires
        span_ordered(s),
    ensures
        insert_pos(s, x) <= s.len(),
        forall|i: int| 0 <= i < insert_pos(s, x) ==> span_le(#[trigger] s[i].span_of(), x.span_of()),
        forall|j: int|
            insert_pos(s, x) <= j < s.len() ==> span_le(x.span_of(), #[trigger] s[j].span_of()),
    decreases s.len(),
{
    lemma_insert_pos_le(s, x);
    if s.len() > 0 {
        let d = s.drop_last();
        if span_le(s.last().span_of(), x.span_of()) {
            assert forall|i: int| 0 <= i < insert_pos(s, x) implies span_le(#[trigger] s[i].span_of(), x.span_of()) by {
                if i < s.len() - 1 {
                    assert(span_le(s[i].span_of(), s[s.len() - 1].span_of()));
                }
            }
        } else {
            assert forall|i: int, j: int| 0 <= i < j < d.len() implies span_le(#[trigger] d[i].span_of(), #[trigger] d[j].span_of()) by {
                assert(d[i] == s[i] && d[j] == s[j]);
            }
            lemma_insert_pos_splits(d, x);
            assert forall|i: int| 0 <= i < insert_pos(s, x) implies span_le(#[trigger] s[i].span_of(), x.span_of()) by {
                assert(d[i] == s[i]);
            }
            assert forall|j: int| insert_pos(s, x) <= j < s.len() implies span_le(x.span_of(), #[trigger] s[j].span_of()) by {
                if j < s.len() - 1 {
                    assert(d[j] == s[j]);
                }
            }
        }
    }
}

/// Sorting by span puts the items in span order.
pub proof fn lemma_sorted_ordered<T: Positioned>(s: Seq<T>)
    ensures
        span_ordered(sorted_by_span(s)),
    decreases s.len(),
{
    if s.len() > 0 {
        lemma_sorted_ordered(s.drop_last());
        let t = sorted_by_span(s.drop_last());
        let x = s.last();
        lemma_insert_pos_splits(t, x);
        let p = insert_pos(t, x) as int;
        let r = t.insert(p, x);
        t.insert_ensures(p, x);
        assert forall|i: int, j: int| 0 <= i < j < r.len() implies span_le(#[trigger] r[i].span_of(), #[trigger] r[j].span_of()) by {
            if j < p {
                assert(r[i] == t[i] && r[j] == t[j]);
            } else if j == p {
                assert(r[i] == t[i]);
            } else if i < p {
                assert(r[i] == t[i] && r[j] == t[j - 1]);
                assert(span_le(t[i].span_of(), x.span_of()));
                assert(span_le(x.span_of(), t[j - 1].span_of()));
            } else if i == p {
                assert(r[j] == t[j - 1]);
            } else {
                assert(r[i] == t[i - 1] && r[j] == t[j - 1]);
            }
        }
    }
}

/// Sorting by span keeps the items: each occurs as often as before.
pub proof fn lemma_sorted_permutes<T: Positioned>(s: Seq<T>)
    ensures
        sorted_by_span(s).to_multiset() == s.to_multiset(),
    decreases s.len(),
{
    if s.len() > 0 {
        lemma_sorted_permutes(s.drop_last());
        let t = sorted_by_span(s.drop_last());
        lemma_insert_pos_le(t, s.last());
        vstd::seq_lib::to_multiset_insert(t, insert_pos(t, s.last()) as int, s.last());
        vstd::seq_lib::to_multiset_build(s.drop_last(), s.last());
        assert(s.drop_last().push(s.last()) =~= s);
    }
}

/// The items of `v`, stably sorted by span.
pub fn sort_by_span<T: Positioned + Copy>(v: &Vec<T>) -> (r: Vec<T>)
    ensures
        r@ == sorted_by_span(v@),
{
    let mut r: Vec<T> = Vec::new();
    let mut i: usize = 0;
    while i < v.len()
        invariant
            i <= v@.len(),
            r@ == sorted_by_span(v@.take(i as int)),
        decreases v@.len() - i,
    {
        let x = v[i];
        let kx = x.span();
        proof {
            lemma_sorted_len(v@.take(i as int));
            assert(v@.take(i + 1).drop_last() =~= v@.take(i as int));
            assert(r@.take(r@.len() as int) =~= r@);
        }
        let mut p = r.len();
        while p > 0 && !span_le_exec(r[p - 1].span(), kx)
            invariant
                p <= r@.len(),
                kx == x.span_of(),
                insert_pos(r@, x) == insert_pos(r@.take(p as int), x),
            decreases p,
        {
            proof {
                assert(r@.take(p as int).drop_last() =~= r@.take(p - 1));
            }
            p = p - 1;
        }
        proof {
            if p > 0 {
                lemma_insert_pos_le(r@.take(p as int), x);
            }
        }
        r.insert(p, x);
        i = i + 1;
    }
    proof {
        assert(v@.take(v@.len() as int) =~= v@);
    }
    r
}


/// Sorting by span orders the items by line, then start column, then end
/// column.
pub proof fn lemma_sorted_lexicographic<T: Positioned>(s: Seq<T>)
    ensures
        forall|i: int, j: int|
            0 <= i < j < sorted_by_span(s).len() ==> {
                let x = (#[trigger] sorted_by_span(s)[i]).span_of();
                let y = (#[trigger] sorted_by_span(s)[j]).span_of();
                ||| x.line.0 < y.line.0
                ||| x.line.0 == y.line.0 && x.start_col < y.start_col
                ||| x.line.0 == y.line.0 && x.start_col == y.start_col && x.end_col <= y.end_col
            },
{
    lemma_sorted_ordered(s);
}

} // verus!
