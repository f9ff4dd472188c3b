//! Items grouped by the line they are on.
use vstd::prelude::*;
use crate::model::LineNumber;

verus! {

/// Index of the group of `line`, the last one that holds it.
pub open spec fn group_index<T>(gs: Seq<(LineNumber, Seq<T>)>, line: LineNumber) -> Option<nat>
    decreases gs.len(),
{
    if gs.len() == 0 {
        None
    } else if gs.last().0 == line {
        Some((gs.len() - 1) as nat)
    } else {
        group_index(gs.drop_last(), line)
    }
}

/// The items grouped under `line`, if there is a group for it.
pub open spec fn group_of<T>(gs: Seq<(LineNumber, Seq<T>)>, line: LineNumber) -> Option<Seq<T>> {
    match group_index(gs, line) {
        Some(k) => Some(gs[k as int].1),
        None => None,
    }
}

/// The groups after `x` is added at the end of the group of `line`, which
/// is started after the others if there is none.
pub open spec fn group_push<T>(gs: Seq<(LineNumber, Seq<T>)>, line: LineNumber, x: T) -> Seq<
    (LineNumber, Seq<T>),
> {
    match group_index(gs, line) {
        Some(k) => gs.update(k as int, (line, gs[k as int].1.push(x))),
        None => gs.push((line, seq![x])),
    }
}

/// Whether no line has two groups.
pub open spec fn lines_distinct<T>(gs: Seq<(LineNumber, Seq<T>)>) -> bool {
    forall|i: int, j: int| 0 <= i < j < gs.len() ==> (#[trigger] gs[i]).0 != (#[trigger] gs[j]).0
}

/// Adding an item keeps every line to one group.
pub proof fn lemma_group_push_distinct<T>(gs: Seq<(LineNumber, Seq<T>)>, line: LineNumber, x: T)
    requires
        lines_distinct(gs),
    ensures
        lines_distinct(group_push(gs, line, x)),
{
    lemma_group_index_bounds(gs, line);
    let g2 = group_push(gs, line, x);
    assert forall|i: int, j: int| 0 <= i < j < g2.len() implies (#[trigger] g2[i]).0 != (#[trigger] g2[j]).0 by {
        if j == gs.len() {
            assert(g2[j].0 == line);
            assert(g2[i] == gs[i]);
        }
    }
}

pub proof fn lemma_group_index_bounds<T>(gs: Seq<(LineNumber, Seq<T>)>, line: LineNumber)
    ensures
        group_index(gs, line) matches Some(k) ==> k < gs.len() && gs[k as int].0 == line,
        group_index(gs, line) is None ==> forall|k: int| 0 <= k < gs.len() ==> gs[k].0 != line,
    decreases gs.len(),
{
    if gs.len() > 0 && gs.last().0 != line {
        lemma_group_index_bounds(gs.drop_last(), line);
        if group_index(gs, line) is None {
            assert forall|k: int| 0 <= k < gs.len() implies gs[k].0 != line by {
                if k < gs.len() - 1 {
                    assert(gs[k] == gs.drop_last()[k]);
                }
            }
        }
    }
}

/// Adding an item to the group of a line puts it at the end of that
/// group, starting the group if there was none, and changes no other group.
pub proof fn lemma_group_of_push<T>(gs: Seq<(LineNumber, Seq<T>)>, line: LineNumber, x: T, l: LineNumber)
    ensures
        group_of(group_push(gs, line, x), l) == if l == line {
            Some(
                match group_of(gs, line) {
                    Some(v) => v.push(x),
                    None => seq![x],
                },
            )
        } else {
            group_of(gs, l)
        },
{
    lemma_group_index_bounds(gs, line);
    lemma_group_index_bounds(gs, l);
    let g2 = group_push(gs, line, x);
    match group_index(gs, line) {
        Some(k) => {
            lemma_group_index_update(gs, k as int, (line, gs[k as int].1.push(x)), l);
        },
        None => {
            assert(g2.drop_last() =~= gs);
        },
    }
}

pub proof fn lemma_group_index_update<T>(gs: Seq<(LineNumber, Seq<T>)>, k: int, e: (LineNumber, Seq<T>), l: LineNumber)
    requires
        0 <= k < gs.len(),
        gs[k].0 == e.0,
    ensures
        group_index(gs.update(k, e), l) == group_index(gs, l),
    decreases gs.len(),
{
    let g2 = gs.update(k, e);
    if k < gs.len() - 1 {
        assert(g2.drop_last() =~= gs.drop_last().update(k, e));
        lemma_group_index_update(gs.drop_last(), k, e, l);
    } else {
        assert(g2.drop_last() =~= gs.drop_last());
    }
}

/// Items grouped by line, in the order in which their lines first came.
pub struct LineGroups<T> {
    pub entries: Vec<(LineNumber, Vec<T>)>,
}

impl<T> LineGroups<T> {
    /// The groups: each line with its items.
    pub open spec fn groups(&self) -> Seq<(LineNumber, Seq<T>)> {
        self.entries@.map_values(|e: (LineNumber, Vec<T>)| (e.0, e.1@))
    }

    /// No groups.
    pub fn new() -> (g: Self)
        ensures
            g.groups() == Seq::<(LineNumber, Seq<T>)>::empty(),
            lines_distinct(g.groups()),
    {
        let g = LineGroups { entries: Vec::new() };
        assert(g.groups() =~= Seq::<(LineNumber, Seq<T>)>::empty());
        g
    }

    fn index_of(&self, line: LineNumber) -> (k: Option<usize>)
        ensures
            match k {
                Some(i) => group_index(self.groups(), line) == Some(i as nat),
                None => group_index(self.groups(), line) is None,
            },
    {
        let mut i = self.entries.len();
        assert(self.groups().take(i as int) =~= self.groups());
        while i > 0
            invariant
                i <= self.entries@.len(),
                group_index(self.groups(), line) == group_index(self.groups().take(i as int), line),
            decreases i,
        {
            proof {
                assert(self.groups().take(i as int).drop_last() =~= self.groups().take(i - 1));
            }
            if self.entries[i - 1].0 == line {
                return Some(i - 1);
            }
            i = i - 1;
        }
        None
    }

    /// The items of `line`, if it has a group.
    pub fn get(&self, line: LineNumber) -> (r: Option<&Vec<T>>)
        ensures
            match r {
                Some(v) => group_of(self.groups(), line) == Some(v@),
                None => group_of(self.groups(), line) is None,
            },
    {
        proof {
            lemma_group_index_bounds(self.groups(), line);
        }
        match self.index_of(line) {
            Some(k) => Some(&self.entries[k].1),
            None => None,
        }
    }

    /// Adds `x` at the end of the group of `line`.
    pub fn push(&mut self, line: LineNumber, x: T)
        ensures
            final(self).groups() == group_push(old(self).groups(), line, x),
            lines_distinct(old(self).groups()) ==> lines_distinct(final(self).groups()),
    {
        proof {
            lemma_group_index_bounds(self.groups(), line);
            if lines_distinct(self.groups()) {
                lemma_group_push_distinct(self.groups(), line, x);
            }
        }
        match self.index_of(line) {
            Some(k) => {
                let mut entry: (LineNumber, Vec<T>) = (line, Vec::new());
                self.entries.set_and_swap(k, &mut entry);
                entry.1.push(x);
                self.entries.set_and_swap(k, &mut entry);
                assert(self.groups() =~= group_push(old(self).groups(), line, x));
            },
            None => {
                let mut v: Vec<T> = Vec::new();
                v.push(x);
                self.entries.push((line, v));
                assert(self.groups() =~= group_push(old(self).groups(), line, x));
            },
        }
    }
}

} // verus!
