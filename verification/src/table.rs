//! Tables: stacks of slabs, each slab the dot products of one block of a row
//! tile with every entry of the book.
use crate::arith::cong;
use crate::census::{enter_added, enter_multiplied, Ledger, Tally};
use crate::element::Element;
use crate::lane::{Lane, LaneWord};
use crate::sequence::{entry_suits, entry_sum, lemma_cell, Sequence, TableLane, TableSpec};
use crate::sizing::{slab_codes, slab_of};
use vstd::prelude::*;

verus! {

/// A stack of `depth` slabs. A slab has `rows` words for each code of the code
/// space rounded up to a power of two; the words past the code space are blank.
#[derive(Debug)]
pub struct Table<'s, L> {
    pub words: &'s mut [L],
    pub code_space: usize,
    pub codes: usize,
    pub rows: usize,
    pub depth: usize,
}

/// Words of one slab.
pub open spec fn slab_words(code_space: int, rows: int) -> int {
    slab_of(code_space) * rows
}

/// A stack of these extents can be laid out in `len` words.
pub open spec fn stacks(len: int, code_space: int, rows: int, depth: int) -> bool {
    &&& code_space > 0
    &&& rows > 0
    &&& depth > 0
    &&& slab_of(code_space) > 0
    &&& slab_words(code_space, rows) * depth <= len
}

/// The work of building `space` entries.
pub open spec fn build_tally(spec: TableSpec, space: int, block: int, rows: int) -> Tally {
    let products = (space * block * rows) as nat;
    if spec.build_multiplies {
        Tally::multiplying(products)
    } else {
        Tally::adding(products)
    }
}

/// The words past the code space of every slab are blank.
pub open spec fn padded<L: LaneWord>(words: Seq<L>, live: int, slab: int, depth: int) -> bool {
    forall|slot: int, x: int|
        #![trigger words[slot * slab + x]]
        0 <= slot < depth && live <= x < slab ==> words[slot * slab + x] == L::blank()
}

/// Places of a stack.
pub proof fn lemma_slot(slab: int, depth: int, slot: int, x: int)
    requires
        0 <= slot < depth,
        0 <= x < slab,
    ensures
        0 <= slot * slab,
        0 <= slot * slab + x < slab * depth,
        slot * slab + slab <= slab * depth,
{
    assert(0 <= slot * slab && slot * slab + slab <= slab * depth) by (nonlinear_arith)
        requires
            0 <= slot < depth,
            0 <= slab,
    ;
}

/// Different places of a stack are different words.
pub proof fn lemma_slot_apart(slab: int, s: int, x: int, t: int, y: int)
    requires
        0 <= x < slab,
        0 <= y < slab,
        s * slab + x == t * slab + y,
    ensures
        s == t,
        x == y,
{
    crate::sequence::lemma_cell_apart(slab, s, x, t, y);
}

impl<'s, L: LaneWord> Table<'s, L> {
    /// The extents agree with each other and with the words.
    pub open spec fn wf(self) -> bool {
        &&& self.codes == slab_of(self.code_space as int)
        &&& 0 < self.code_space <= self.codes
        &&& self.rows > 0
        &&& self.depth > 0
        &&& self.words@.len() == self.slab_len() * self.depth
        &&& self.slab_len() <= usize::MAX
    }

    /// All words of the stack.
    pub open spec fn held(self) -> Seq<L> {
        self.words@
    }

    /// Words of one slab.
    pub open spec fn slab_len(self) -> int {
        self.codes * self.rows
    }

    /// Words of one slab that belong to the code space.
    pub open spec fn live(self) -> int {
        self.code_space * self.rows
    }

    /// The extents are those of `before` and the caller's storage is the same.
    pub open spec fn same_geometry(self, before: Self) -> bool {
        &&& self.code_space == before.code_space
        &&& self.codes == before.codes
        &&& self.rows == before.rows
        &&& self.depth == before.depth
        &&& self.words@.len() == before.words@.len()
    }

    /// The words past the code space are blank.
    pub open spec fn blank_padding(self) -> bool {
        padded(self.words@, self.live(), self.slab_len(), self.depth as int)
    }

    fn borrow(words: &'s mut [L], code_space: usize, rows: usize, depth: usize) -> (r: Option<
        Self,
    >)
        ensures
            r is Some <==> stacks(
                old(words)@.len() as int,
                code_space as int,
                rows as int,
                depth as int,
            ),
            r is Some ==> {
                let t = r->0;
                &&& t.wf()
                &&& t.code_space == code_space
                &&& t.rows == rows
                &&& t.depth == depth
                &&& t.words@ == old(words)@.subrange(0, t.words@.len() as int)
                &&& t.words@.len() <= old(words)@.len()
                &&& final(words)@ == final(t.words)@ + old(words)@.subrange(
                    t.words@.len() as int,
                    old(words)@.len() as int,
                )
            },
            r is None ==> final(words)@ == old(words)@,
    {
        if code_space == 0 || rows == 0 || depth == 0 {
            return None;
        }
        let codes: usize = slab_codes(code_space);
        if codes == 0 {
            return None;
        }
        proof {
            assert(words.len() == words@.len());
            crate::arith::lemma_ceil_pow2(code_space as nat);
            assert(codes * rows >= 1) by (nonlinear_arith)
                requires
                    codes >= 1,
                    rows >= 1,
            ;
            assert(codes * rows * depth >= codes * rows) by (nonlinear_arith)
                requires
                    codes * rows >= 1,
                    depth >= 1,
            ;
        }
        let slab: usize = match codes.checked_mul(rows) {
            None => {
                return None;
            },
            Some(slab) => slab,
        };
        let want: usize = match slab.checked_mul(depth) {
            None => {
                return None;
            },
            Some(want) => want,
        };
        if words.len() < want {
            return None;
        }
        let (held, _) = words.split_at_mut(want);
        Some(Table { words: held, code_space, codes, rows, depth })
    }

    /// A table over the head of `words`, its padding blanked.
    pub fn new(words: &'s mut [L], code_space: usize, rows: usize, depth: usize) -> (r: Option<
        Self,
    >)
        ensures
            r is Some <==> stacks(
                old(words)@.len() as int,
                code_space as int,
                rows as int,
                depth as int,
            ),
            r is Some ==> {
                let t = r->0;
                &&& t.wf()
                &&& t.blank_padding()
                &&& t.code_space == code_space
                &&& t.rows == rows
                &&& t.depth == depth
                &&& t.words@.len() <= old(words)@.len()
                &&& forall|slot: int, x: int|
                    #![trigger t.words@[slot * t.slab_len() + x]]
                    0 <= slot < depth && 0 <= x < t.live() ==> t.words@[slot * t.slab_len() + x]
                        == old(words)@[slot * t.slab_len() + x]
                &&& final(words)@ == final(t.words)@ + old(words)@.subrange(
                    t.words@.len() as int,
                    old(words)@.len() as int,
                )
            },
            r is None ==> final(words)@ == old(words)@,
    {
        let mut table: Table<'s, L> = match Table::borrow(words, code_space, rows, depth) {
            None => {
                return None;
            },
            Some(table) => table,
        };
        table.clear_padding();
        proof {
            let (slab, live) = (table.slab_len(), table.live());
            assert(live <= slab) by (nonlinear_arith)
                requires
                    live == table.code_space * table.rows,
                    slab == table.codes * table.rows,
                    table.code_space <= table.codes,
            ;
            assert forall|slot: int, x: int|
                #![trigger table.words@[slot * slab + x]]
                0 <= slot < depth && 0 <= x < live implies table.words@[slot * slab + x]
                    == old(words)@[slot * slab + x] by {
                lemma_slot(slab, depth as int, slot, x);
            }
        }
        Some(table)
    }

    fn clear_padding(&mut self)
        requires
            old(self).wf(),
        ensures
            final(self).wf(),
            final(self).same_geometry(*old(self)),
            final(final(self).words)@ == final(old(self).words)@,
            final(self).blank_padding(),
            forall|slot: int, x: int|
                #![trigger final(self).words@[slot * old(self).slab_len() + x]]
                0 <= slot < old(self).depth && 0 <= x < old(self).live()
                    ==> final(self).words@[slot * old(self).slab_len() + x] == old(
                    self
                ).words@[slot * old(self).slab_len() + x],
    {
        let slab: usize = self.slab();
        proof {
            assert(self.words.len() == self.words@.len());
            assert(0 <= self.code_space * self.rows <= self.codes * self.rows) by (nonlinear_arith)
                requires
                    self.code_space <= self.codes,
                    self.rows > 0,
            ;
        }
        let live: usize = self.code_space * self.rows;
        let ghost before = self.words@;
        let mut slot: usize = 0;
        while slot < self.depth
            invariant
                0 <= slot <= self.depth,
                self.wf(),
                self.same_geometry(*old(self)),
                final(self.words)@ == final(old(self).words)@,
                slab == self.slab_len(),
                live == self.live(),
                live <= slab,
                self.words@.len() <= usize::MAX,
                before == old(self).words@,
                padded(self.words@, live as int, slab as int, slot as int),
                forall|s: int, x: int|
                    #![trigger self.words@[s * slab + x]]
                    0 <= s < self.depth && 0 <= x < live ==> self.words@[s * slab + x] == before[s
                        * slab + x],
            decreases self.depth - slot,
        {
            let mut x: usize = live;
            while x < slab
                invariant
                    0 <= slot < self.depth,
                    live <= x <= slab,
                    self.wf(),
                    self.same_geometry(*old(self)),
                    final(self.words)@ == final(old(self).words)@,
                    slab == self.slab_len(),
                    live == self.live(),
                    self.words@.len() <= usize::MAX,
                    before == old(self).words@,
                    padded(self.words@, live as int, slab as int, slot as int),
                    forall|y: int|
                        #![trigger self.words@[slot * slab + y]]
                        live <= y < x ==> self.words@[slot * slab + y] == L::blank(),
                    forall|s: int, y: int|
                        #![trigger self.words@[s * slab + y]]
                        0 <= s < self.depth && 0 <= y < live ==> self.words@[s * slab + y]
                            == before[s * slab + y],
                decreases slab - x,
            {
                proof {
                    lemma_slot(slab as int, self.depth as int, slot as int, x as int);
                }
                let ghost last = self.words@;
                self.words[slot * slab + x] = L::zero();
                proof {
                    assert forall|s: int, y: int|
                        #![trigger self.words@[s * slab + y]]
                        0 <= s < self.depth && 0 <= y < slab && (s != slot || y
                            != x) implies self.words@[s * slab + y] == last[s * slab + y] by {
                        lemma_slot(slab as int, self.depth as int, s, y);
                        if s * slab + y == slot * slab + x {
                            lemma_slot_apart(slab as int, s, y, slot as int, x as int);
                        }
                    }
                }
                x = x + 1;
            }
            proof {
                assert forall|s: int, y: int|
                    #![trigger self.words@[s * slab + y]]
                    0 <= s < slot + 1 && live <= y < slab implies self.words@[s * slab + y]
                    == L::blank() by {
                    if s == slot {
                        assert(self.words@[slot * slab + y] == L::blank());
                    }
                }
            }
            slot = slot + 1;
        }
    }

    /// A table over words whose padding a table of the same extents blanked.
    pub fn reuse_zeroed(
        words: &'s mut [L],
        code_space: usize,
        rows: usize,
        depth: usize,
    ) -> (r: Option<Self>)
        ensures
            r is Some <==> stacks(
                old(words)@.len() as int,
                code_space as int,
                rows as int,
                depth as int,
            ),
            r is Some ==> {
                let t = r->0;
                &&& t.wf()
                &&& t.code_space == code_space
                &&& t.rows == rows
                &&& t.depth == depth
                &&& t.words@ == old(words)@.subrange(0, t.words@.len() as int)
                &&& t.words@.len() <= old(words)@.len()
                &&& final(words)@ == final(t.words)@ + old(words)@.subrange(
                    t.words@.len() as int,
                    old(words)@.len() as int,
                )
            },
            r is None ==> final(words)@ == old(words)@,
    {
        Table::borrow(words, code_space, rows, depth)
    }

    /// Entries of the book.
    pub fn code_space(&self) -> (r: usize)
        ensures
            r == self.code_space,
    {
        self.code_space
    }

    /// Entries of one slab.
    pub fn slab_codes(&self) -> (r: usize)
        ensures
            r == self.codes,
    {
        self.codes
    }

    /// Words per entry.
    pub fn rows(&self) -> (r: usize)
        ensures
            r == self.rows,
    {
        self.rows
    }

    /// Slabs of the stack.
    pub fn depth(&self) -> (r: usize)
        ensures
            r == self.depth,
    {
        self.depth
    }

    /// Words of one slab.
    pub fn slab(&self) -> (r: usize)
        requires
            self.wf(),
        ensures
            r == self.slab_len(),
    {
        self.codes * self.rows
    }

    /// All words of the stack.
    pub fn stack(&self) -> (r: &[L])
        ensures
            r@ == self.held(),
    {
        &*self.words
    }
}

impl<'s, L: LaneWord> Table<'s, L> {
    /// The places `from .. to` are the only ones that differ from `before`.
    pub open spec fn changed_only(self, before: Self, from: int, to: int) -> bool {
        &&& self.same_geometry(before)
        &&& forall|x: int|
            0 <= x < before.words@.len() && !(from <= x < to) ==> #[trigger] self.words@[x]
                == before.words@[x]
    }

    /// Rewriting live words keeps the padding.
    pub proof fn lemma_padding_kept(self, before: Self, slot: int, from: int, to: int)
        requires
            before.wf(),
            before.blank_padding(),
            0 <= slot < before.depth,
            0 <= from <= to <= before.live(),
            self.changed_only(
                before,
                slot * before.slab_len() + from,
                slot * before.slab_len() + to,
            ),
        ensures
            self.wf(),
            self.blank_padding(),
    {
        let (slab, live) = (before.slab_len(), before.live());
        assert(0 <= live <= slab) by (nonlinear_arith)
            requires
                live == before.code_space * before.rows,
                slab == before.codes * before.rows,
                before.code_space <= before.codes,
        ;
        assert forall|s: int, x: int|
            #![trigger self.words@[s * slab + x]]
            0 <= s < before.depth && live <= x < slab implies self.words@[s * slab + x]
            == L::blank() by {
            lemma_slot(slab, before.depth as int, s, x);
            if slot * slab + from <= s * slab + x < slot * slab + to {
                let y = s * slab + x - slot * slab;
                lemma_slot_apart(slab, s, x, slot, y);
            }
            assert(self.words@[s * slab + x] == before.words@[s * slab + x]);
        }
    }

    /// Writes entries `first .. first + count` of a slot from a book and a tile
    /// of activations.
    fn build_run<E: Element>(
        &mut self,
        spec: &TableSpec,
        block: usize,
        book: &[E],
        acts: &[E],
        slot: usize,
        first: usize,
        count: usize,
    ) where L: TableLane<E>
        requires
            old(self).wf(),
            slot < old(self).depth,
            first + count <= old(self).code_space,
            count * block <= book@.len(),
            block * old(self).rows <= acts@.len(),
        ensures
            final(self).wf(),
            final(final(self).words)@ == final(old(self).words)@,
            final(self).changed_only(
                *old(self),
                slot * old(self).slab_len() + first * old(self).rows,
                slot * old(self).slab_len() + (first + count) * old(self).rows,
            ),
            forall|c: int, i: int|
                #![trigger entry_sum(book@, acts@, block as int, old(self).rows as int, c, i)]
                0 <= c < count && 0 <= i < old(self).rows && entry_suits(
                    spec.sequence,
                    book@,
                    block as int,
                    c,
                ) ==> cong(
                    final(self).words@[slot * old(self).slab_len() + (first + c) * old(self).rows
                        + i].word(),
                    entry_sum(book@, acts@, block as int, old(self).rows as int, c, i),
                    <L as Lane<E>>::extent(),
                ),
    {
        let ghost rows = self.rows as int;
        let ghost slab_len = self.slab_len();
        let slab: usize = self.slab();
        proof {
            assert(self.words.len() == self.words@.len());
            lemma_run(
                slab_len,
                self.depth as int,
                slot as int,
                self.codes as int,
                rows,
                first as int,
                count as int,
            );
        }
        let start: usize = slot * slab + first * self.rows;
        let extent: usize = count * self.rows;
        let ghost whole = self.words@;
        {
            let (_, tail) = self.words.split_at_mut(start);
            let (run, _) = tail.split_at_mut(extent);
            <L as TableLane<E>>::build(spec.sequence, count, block, self.rows, book, acts, run);
        }
        proof {
            assert forall|c: int, i: int|
                #![trigger entry_sum(book@, acts@, block as int, rows, c, i)]
                0 <= c < count && 0 <= i < rows && entry_suits(
                    spec.sequence,
                    book@,
                    block as int,
                    c,
                ) implies cong(
                self.words@[slot * slab_len + (first + c) * rows + i].word(),
                entry_sum(book@, acts@, block as int, rows, c, i),
                <L as Lane<E>>::extent(),
            ) by {
                lemma_cell(count as int, rows, c, i);
                assert((first + c) * rows == first * rows + c * rows) by (nonlinear_arith);
                assert(self.words@[start + (c * rows + i)] == self.words@.subrange(
                    start as int,
                    start + extent,
                )[c * rows + i]);
            }
        }
    }
}

/// The entries of one slot lie in the stack.
proof fn lemma_run(slab: int, depth: int, slot: int, codes: int, rows: int, first: int, count: int)
    requires
        slab == codes * rows,
        0 <= slot < depth,
        0 <= first,
        0 <= count,
        0 < rows,
        first + count <= codes,
    ensures
        0 <= slot * slab,
        0 <= first * rows,
        0 <= count * rows,
        first * rows + count * rows == (first + count) * rows,
        first * rows + count * rows <= slab,
        slot * slab + slab <= slab * depth,
        slot * slab + first * rows + count * rows <= slab * depth,
{
    assert(0 <= first * rows && 0 <= count * rows && first * rows + count * rows == (first + count)
        * rows && (first + count) * rows <= codes * rows) by (nonlinear_arith)
        requires
            0 <= first,
            0 <= count,
            0 < rows,
            first + count <= codes,
    ;
    assert(0 <= slot * slab && slot * slab + slab <= slab * depth) by (nonlinear_arith)
        requires
            0 <= slot < depth,
            0 <= slab,
    ;
}

/// The dot products of entry `c`, by column of the tile.
pub open spec fn entry_dot<E: Element>(
    book: Seq<E>,
    acts: Seq<E>,
    block: int,
    rows: int,
    c: int,
) -> spec_fn(int) -> int {
    |i: int| entry_sum(book, acts, block, rows, c, i)
}

/// The products of one book element, by column of the tile.
pub open spec fn cell_dot<E: Element>(book: Seq<E>, acts: Seq<E>, source: int) -> spec_fn(
    int,
) -> int {
    |i: int| acts[i].val() * book[source].val()
}

/// The words of entry `c` of a slot are its dot products with a tile of
/// activations.
pub open spec fn entry_ready<E: Element, L: Lane<E>>(
    words: Seq<L>,
    slab: int,
    rows: int,
    slot: int,
    c: int,
    dot: spec_fn(int) -> int,
) -> bool {
    forall|i: int|
        #![trigger words[slot * slab + c * rows + i]]
        0 <= i < rows ==> cong(words[slot * slab + c * rows + i].word(), dot(i), L::extent())
}

/// An entry outside a rewritten run keeps its words.
pub proof fn lemma_entry_kept<E: Element, L: Lane<E>>(
    words: Seq<L>,
    before: Seq<L>,
    codes: int,
    rows: int,
    slot: int,
    c: int,
    dot: spec_fn(int) -> int,
    from: int,
    to: int,
)
    requires
        entry_ready::<E, L>(before, codes * rows, rows, slot, c, dot),
        words.len() == before.len(),
        0 <= slot,
        0 <= c < codes,
        rows > 0,
        slot * (codes * rows) + codes * rows <= before.len(),
        forall|x: int|
            0 <= x < before.len() && !(from <= x < to) ==> #[trigger] words[x] == before[x],
        to <= slot * (codes * rows) + c * rows || slot * (codes * rows) + (c + 1) * rows <= from,
    ensures
        entry_ready::<E, L>(words, codes * rows, rows, slot, c, dot),
{
    let slab = codes * rows;
    assert forall|i: int|
        #![trigger words[slot * slab + c * rows + i]]
        0 <= i < rows implies cong(
        words[slot * slab + c * rows + i].word(),
        dot(i),
        L::extent(),
    ) by {
        lemma_cell(codes, rows, c, i);
        assert(0 <= slot * slab) by (nonlinear_arith)
            requires
                0 <= slot,
                0 <= slab,
        ;
        let x = slot * slab + c * rows + i;
        assert(words[x] == before[x]);
    }
}

impl<'s, L: LaneWord> Table<'s, L> {
    /// Entry `c` of a slot holds the given dot products.
    pub open spec fn ready<E: Element>(self, slot: int, c: int, dot: spec_fn(int) -> int) -> bool
        where L: Lane<E>
    {
        entry_ready::<E, L>(self.words@, self.slab_len(), self.rows as int, slot, c, dot)
    }

    /// Builds every entry of a slot.
    pub fn build<E: Element, Lg: Ledger>(
        &mut self,
        spec: &TableSpec,
        block: usize,
        book: &[E],
        acts: &[E],
        slot: usize,
        ledger: &mut Lg,
    ) where L: TableLane<E>
        requires
            old(self).wf(),
            slot < old(self).depth,
            old(self).code_space * block <= book@.len(),
            block * old(self).rows <= acts@.len(),
        ensures
            final(self).wf(),
            final(final(self).words)@ == final(old(self).words)@,
            final(self).changed_only(
                *old(self),
                slot * old(self).slab_len(),
                slot * old(self).slab_len() + old(self).live(),
            ),
            forall|c: int|
                0 <= c < old(self).code_space && entry_suits(
                    spec.sequence,
                    book@,
                    block as int,
                    c,
                ) ==> #[trigger] final(self).ready::<E>(
                    slot as int,
                    c,
                    entry_dot(book@, acts@, block as int, old(self).rows as int, c),
                ),
            *final(ledger) == old(ledger).charged(
                build_tally(*spec, old(self).code_space as int, block as int, old(self).rows as int),
            ),
    {
        let ghost rows = self.rows as int;
        let ghost slab = self.slab_len();
        let count: usize = self.code_space;
        self.build_run(spec, block, book, acts, slot, 0, count);
        proof {
            assert(0 * rows == 0);
            assert forall|c: int|
                0 <= c < count && entry_suits(
                    spec.sequence,
                    book@,
                    block as int,
                    c,
                ) implies #[trigger] self.ready::<E>(
                slot as int,
                c,
                entry_dot(book@, acts@, block as int, rows, c),
            ) by {
                assert forall|i: int|
                    #![trigger self.words@[slot * slab + c * rows + i]]
                    0 <= i < rows implies cong(
                    self.words@[slot * slab + c * rows + i].word(),
                    entry_sum(book@, acts@, block as int, rows, c, i),
                    <L as Lane<E>>::extent(),
                ) by {
                    let _ = entry_sum(book@, acts@, block as int, rows, c, i);
                    assert((0 + c) * rows == c * rows);
                }
            }
        }
        charge_build(spec, self.code_space, block, self.rows, ledger);
    }

    /// Builds one entry of a slot.
    pub fn build_entry<E: Element, Lg: Ledger>(
        &mut self,
        spec: &TableSpec,
        block: usize,
        book: &[E],
        acts: &[E],
        slot: usize,
        index: usize,
        ledger: &mut Lg,
    ) where L: TableLane<E>
        requires
            old(self).wf(),
            slot < old(self).depth,
            index < old(self).code_space,
            old(self).code_space * block <= book@.len(),
            block * old(self).rows <= acts@.len(),
        ensures
            final(self).wf(),
            final(final(self).words)@ == final(old(self).words)@,
            final(self).changed_only(
                *old(self),
                slot * old(self).slab_len() + index * old(self).rows,
                slot * old(self).slab_len() + (index + 1) * old(self).rows,
            ),
            entry_suits(spec.sequence, book@, block as int, index as int)
                ==> final(self).ready::<E>(
                slot as int,
                index as int,
                entry_dot(book@, acts@, block as int, old(self).rows as int, index as int),
            ),
            *final(ledger) == old(ledger).charged(
                build_tally(*spec, 1, block as int, old(self).rows as int),
            ),
    {
        let ghost rows = self.rows as int;
        let ghost slab = self.slab_len();
        proof {
            assert(book.len() == book@.len());
            assert(0 <= index * block && index * block + block <= self.code_space * block)
                by (nonlinear_arith)
                requires
                    index + 1 <= self.code_space,
            ;
        }
        let from: usize = index * block;
        let one: &[E] = vstd::slice::slice_subrange(book, from, from + block);
        proof {
            assert forall|x: int| 0 <= x < 1 * block implies #[trigger] one@[x] == book@[from
                + x] by {}
        }
        self.build_run(spec, block, one, acts, slot, index, 1);
        proof {
            if entry_suits(spec.sequence, book@, block as int, index as int) {
                assert forall|t: int| 0 <= t < block implies -1 <= (#[trigger] one@[0 * block
                    + t]).val() <= 1 || spec.sequence != Sequence::SignMask by {
                    assert(one@[t] == book@[index * block + t]);
                }
                assert(entry_suits(spec.sequence, one@, block as int, 0));
            }
            assert forall|i: int|
                #![trigger self.words@[slot * slab + index * rows + i]]
                0 <= i < rows && entry_suits(
                    spec.sequence,
                    book@,
                    block as int,
                    index as int,
                ) implies cong(
                self.words@[slot * slab + index * rows + i].word(),
                entry_sum(book@, acts@, block as int, rows, index as int, i),
                <L as Lane<E>>::extent(),
            ) by {
                let f = |t: int| acts@[t * rows + i].val() * one@[0 * block + t].val();
                let g = |t: int| acts@[t * rows + i].val() * book@[index * block + t].val();
                assert forall|t: int| 0 <= t < block implies #[trigger] f(t) == g(t) by {
                    assert(one@[t] == book@[from + t]);
                }
                crate::arith::lemma_sum_ext(f, g, 0, block as int);
                assert(entry_sum(one@, acts@, block as int, rows, 0, i) == entry_sum(
                    book@,
                    acts@,
                    block as int,
                    rows,
                    index as int,
                    i,
                ));
                assert((index + 0) * rows == index * rows);
            }
        }
        charge_build(spec, 1, block, self.rows, ledger);
    }

    /// Builds one entry of the first slot from one coordinate of the book.
    pub fn build_cell<E: Element, Lg: Ledger>(
        &mut self,
        spec: &TableSpec,
        source_block: usize,
        coordinate: usize,
        book: &[E],
        acts: &[E],
        index: usize,
        ledger: &mut Lg,
    ) where L: TableLane<E>
        requires
            old(self).wf(),
            index < old(self).code_space,
            coordinate < source_block,
            old(self).code_space * source_block <= book@.len(),
            old(self).rows <= acts@.len(),
        ensures
            final(self).wf(),
            final(final(self).words)@ == final(old(self).words)@,
            final(self).changed_only(
                *old(self),
                index * old(self).rows,
                (index + 1) * old(self).rows,
            ),
            (spec.sequence == Sequence::SignMask ==> -1 <= book@[index * source_block
                + coordinate].val() <= 1) ==> final(self).ready::<E>(
                0,
                index as int,
                cell_dot(book@, acts@, index * source_block + coordinate),
            ),
            *final(ledger) == old(ledger).charged(
                build_tally(*spec, 1, 1, old(self).rows as int),
            ),
    {
        let ghost rows = self.rows as int;
        let ghost slab = self.slab_len();
        proof {
            assert(book.len() == book@.len());
            assert(0 <= index * source_block && index * source_block + source_block
                <= self.code_space * source_block) by (nonlinear_arith)
                requires
                    index + 1 <= self.code_space,
            ;
        }
        let source: usize = index * source_block + coordinate;
        let one: &[E] = vstd::slice::slice_subrange(book, source, source + 1);
        proof {
            assert(one@[0] == book@[source as int]);
            assert(0 * slab == 0);
        }
        self.build_run(spec, 1, one, acts, 0, index, 1);
        proof {
            if spec.sequence == Sequence::SignMask ==> -1 <= book@[source as int].val() <= 1 {
                assert(0 * 1 + 0 == 0);
                assert(entry_suits(spec.sequence, one@, 1, 0));
            }
            assert forall|i: int|
                #![trigger self.words@[0 * slab + index * rows + i]]
                0 <= i < rows && (spec.sequence == Sequence::SignMask ==> -1
                    <= book@[source as int].val() <= 1) implies cong(
                self.words@[0 * slab + index * rows + i].word(),
                acts@[i].val() * book@[source as int].val(),
                <L as Lane<E>>::extent(),
            ) by {
                let f = |t: int| acts@[t * rows + i].val() * one@[0 * 1 + t].val();
                assert(entry_sum(one@, acts@, 1, rows, 0, i) == crate::arith::sum(f, 0, 1));
                assert(crate::arith::sum(f, 0, 1) == crate::arith::sum(f, 0, 0) + f(0));
                assert(0 * rows + i == i);
                assert((index + 0) * rows == index * rows);
            }
        }
        charge_build(spec, 1, 1, self.rows, ledger);
    }
}

/// Enters the work of building `space` entries.
pub fn charge_build<Lg: Ledger>(
    spec: &TableSpec,
    space: usize,
    block: usize,
    rows: usize,
    ledger: &mut Lg,
)
    ensures
        *final(ledger) == old(ledger).charged(
            build_tally(*spec, space as int, block as int, rows as int),
        ),
{
    if spec.build_multiplies {
        enter_multiplied(ledger, space, block, rows);
    } else {
        enter_added(ledger, space, block, rows);
    }
}

} // verus!
