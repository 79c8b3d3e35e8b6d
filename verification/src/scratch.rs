//! Storage that a caller lends to a call.
use crate::element::{Alphabet, Bound, Element};
use vstd::prelude::*;

verus! {

/// Cells for panels of weights and activations, and accumulators.
pub struct Scratch<'s, E: Element> {
    pub panel: &'s mut [E],
    pub totals: &'s mut [E::Acc],
}

impl<'s, E: Element> Scratch<'s, E> {
    /// Cells only.
    pub fn new(panel: &'s mut [E]) -> (r: Self)
        ensures
            r.panel@ == old(panel)@,
            r.totals@.len() == 0,
            final(r.panel)@ == final(panel)@,
    {
        Scratch { panel, totals: &mut [] }
    }

    /// Cells and accumulators.
    pub fn with_accumulators(panel: &'s mut [E], totals: &'s mut [E::Acc]) -> (r: Self)
        ensures
            r.panel@ == old(panel)@,
            r.totals@ == old(totals)@,
            final(r.panel)@ == final(panel)@,
            final(r.totals)@ == final(totals)@,
    {
        Scratch { panel, totals }
    }

    /// Nothing.
    pub fn none() -> (r: Self)
        ensures
            r.panel@.len() == 0,
            r.totals@.len() == 0,
    {
        Scratch { panel: &mut [], totals: &mut [] }
    }
}

impl<'s, E: Element> Scratch<'s, E> {
    /// Cells there are.
    pub open spec fn cells(self) -> int {
        self.panel@.len() as int
    }

    /// Accumulators there are.
    pub open spec fn room(self) -> int {
        self.totals@.len() as int
    }

    /// Cells there are.
    pub fn len(&self) -> (r: usize)
        ensures
            r == self.cells(),
    {
        self.panel.len()
    }

    /// Whether there are no cells.
    pub fn is_empty(&self) -> (r: bool)
        ensures
            r == (self.cells() == 0),
    {
        self.panel.len() == 0
    }

    /// Accumulators there are.
    pub fn accumulators(&self) -> (r: usize)
        ensures
            r == self.room(),
    {
        self.totals.len()
    }

    /// The first `n` cells, or all of them where they are fewer.
    pub fn take(&mut self, n: usize) -> (r: &mut [E])
        ensures
            r@.len() == if n < old(self).cells() {
                n as int
            } else {
                old(self).cells()
            },
            r@ == old(self).panel@.subrange(0, r@.len() as int),
            final(self).totals@ == old(self).totals@,
            final(self).panel@ == final(r)@ + old(self).panel@.subrange(
                r@.len() as int,
                old(self).panel@.len() as int,
            ),
    {
        let want: usize = if n < self.panel.len() {
            n
        } else {
            self.panel.len()
        };
        let (head, _) = self.panel.split_at_mut(want);
        head
    }

    /// The first `n` cells and the rest; all and nothing where there are fewer.
    pub fn split_panel(&mut self, n: usize) -> (r: (&mut [E], &mut [E]))
        ensures
            r.0@.len() == if n < old(self).cells() {
                n as int
            } else {
                old(self).cells()
            },
            r.0@ == old(self).panel@.subrange(0, r.0@.len() as int),
            r.1@ == old(self).panel@.subrange(r.0@.len() as int, old(self).cells()),
            final(self).totals@ == old(self).totals@,
            final(self).panel@ == final(r.0)@ + final(r.1)@,
    {
        let want: usize = if n < self.panel.len() {
            n
        } else {
            self.panel.len()
        };
        self.panel.split_at_mut(want)
    }
}

/// Lane words and index words for a tabulated product.
#[derive(Debug)]
pub struct Tabulation<'s> {
    pub lanes: &'s mut [i64],
    pub index: &'s mut [usize],
}

impl<'s> Tabulation<'s> {
    /// Lane words there are.
    pub open spec fn words(self) -> int {
        self.lanes@.len() as int
    }

    /// Lane words only.
    pub fn new(lanes: &'s mut [i64]) -> (r: Self)
        ensures
            r.lanes@ == old(lanes)@,
            r.index@.len() == 0,
            final(r.lanes)@ == final(lanes)@,
    {
        Tabulation { lanes, index: &mut [] }
    }

    /// Lane words and index words.
    pub fn with_index(lanes: &'s mut [i64], index: &'s mut [usize]) -> (r: Self)
        ensures
            r.lanes@ == old(lanes)@,
            r.index@ == old(index)@,
            final(r.lanes)@ == final(lanes)@,
            final(r.index)@ == final(index)@,
    {
        Tabulation { lanes, index }
    }

    /// Nothing.
    pub fn none() -> (r: Tabulation<'static>)
        ensures
            r.lanes@.len() == 0,
            r.index@.len() == 0,
    {
        Tabulation { lanes: &mut [], index: &mut [] }
    }

    /// Lane words there are.
    pub fn len(&self) -> (r: usize)
        ensures
            r == self.words(),
    {
        self.lanes.len()
    }

    /// Whether there are no lane words.
    pub fn is_empty(&self) -> (r: bool)
        ensures
            r == (self.words() == 0),
    {
        self.lanes.len() == 0
    }
}

/// Index words and cells for collapsing equal rows.
pub struct Collapse<'s, E, Bd> {
    pub index: &'s mut [usize],
    pub rows: &'s mut [Alphabet<E, Bd>],
}

impl<'s, E: Element, Bd: Bound> Collapse<'s, E, Bd> {
    /// Index words and cells.
    pub fn new(index: &'s mut [usize], rows: &'s mut [Alphabet<E, Bd>]) -> (r: Self)
        ensures
            r.index@ == old(index)@,
            r.rows@ == old(rows)@,
            final(r.index)@ == final(index)@,
            final(r.rows)@ == final(rows)@,
    {
        Collapse { index, rows }
    }

    /// Nothing.
    pub fn none() -> (r: Self)
        ensures
            r.index@.len() == 0,
            r.rows@.len() == 0,
    {
        Collapse { index: &mut [], rows: &mut [] }
    }
}

} // verus!
