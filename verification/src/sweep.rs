//! The column loop: sums of table entries, one per code.
use crate::arith::{cong, lemma_cong_add, lemma_cong_refl, lemma_cong_trans, lemma_sum_split, sum};
use crate::codec::{Enumerable, IndexStream};
use crate::element::{Bound, Element};
use crate::lane::Lane;
use crate::sequence::{gather_entry, lemma_cell};
use crate::sizing::slab_of;
use vstd::prelude::*;

verus! {

/// Slots whose offsets are staged at once.
pub const GATHER_SLOTS: usize = 32;

/// The most columns gathered together.
pub const MAX_GROUP: usize = 16;

/// Staged offsets.
pub const STAGED_OFFSETS: usize = 512;

/// What the column loop reads beside the stack.
pub struct Sweep<'c, E: Element, Bd: Bound, C: Enumerable<E, Bd>> {
    /// The codes, column after column.
    pub codes: &'c [C::Code],
    /// The codes as small integers, where they are spelled so.
    pub stream: Option<IndexStream<'c>>,
    /// Codes per column.
    pub codes_per_row: usize,
    /// The first equal column of each, where columns repeat.
    pub index: Option<&'c [usize]>,
    /// Lanes per column.
    pub rows: usize,
    /// Words per slab.
    pub slab: usize,
}

/// A map of first columns that may be there, as a sequence.
pub open spec fn seq_of(index: Option<&[usize]>) -> Option<Seq<usize>> {
    match index {
        Some(of) => Some(of@),
        None => None,
    }
}

/// Column `j` of a block is the first of its kind there.
pub open spec fn present(index: Option<Seq<usize>>, j: int) -> bool {
    match index {
        Some(of) => of[j] == j,
        None => true,
    }
}

/// Columns among the first `cols` that are the first of their kind.
pub open spec fn present_count(index: Option<Seq<usize>>, cols: int) -> nat
    decreases cols,
{
    if cols <= 0 {
        0
    } else {
        present_count(index, cols - 1) + (if present(index, cols - 1) {
            1nat
        } else {
            0
        })
    }
}

pub proof fn lemma_present_all(index: Option<Seq<usize>>, from: int, to: int)
    requires
        0 <= from <= to,
        forall|j: int| from <= j < to ==> #[trigger] present(index, j),
    ensures
        present_count(index, to) == present_count(index, from) + (to - from),
    decreases to - from,
{
    if from < to {
        lemma_present_all(index, from, to - 1);
        assert(present(index, to - 1));
    }
}

pub proof fn lemma_present_count(index: Option<Seq<usize>>, cols: int)
    ensures
        cols >= 0 ==> present_count(index, cols) <= cols,
    decreases cols,
{
    if cols > 0 {
        lemma_present_count(index, cols - 1);
    }
}

/// The place of lane `i` of the entry that code `s` steps after `p0` of a
/// column names, in slot `s`.
pub open spec fn stack_place(slab: int, rows: int, s: int, entry: int, i: int) -> int {
    s * slab + entry * rows + i
}

/// The words of a column's entries, slot by slot.
pub open spec fn column_words<E: Element, L: Lane<E>>(
    stack: Seq<L>,
    slab: int,
    rows: int,
    entry: spec_fn(int) -> int,
    i: int,
) -> spec_fn(int) -> int {
    |s: int| stack[stack_place(slab, rows, s, entry(s), i)].word()
}

/// The lanes of one column after its entries in slots `from .. to` are added.
pub open spec fn column_gathered<E: Element, L: Lane<E>>(
    before: Seq<L>,
    after: Seq<L>,
    at: int,
    stack: Seq<L>,
    slab: int,
    rows: int,
    entry: spec_fn(int) -> int,
    from: int,
    to: int,
) -> bool {
    forall|i: int|
        #![trigger after[at + i]]
        0 <= i < rows ==> cong(
            after[at + i].word(),
            before[at + i].word() + sum(
                column_words::<E, L>(stack, slab, rows, entry, i),
                from,
                to,
            ),
            L::extent(),
        )
}

/// Only the lanes `at .. at + rows` differ.
pub open spec fn only_lanes<L>(before: Seq<L>, after: Seq<L>, at: int, rows: int) -> bool {
    &&& after.len() == before.len()
    &&& forall|x: int|
        0 <= x < before.len() && !(at <= x < at + rows) ==> #[trigger] after[x] == before[x]
}

/// One more slot is added to a column.
proof fn lemma_gathered_step<E: Element, L: Lane<E>>(
    start: Seq<L>,
    before: Seq<L>,
    after: Seq<L>,
    at: int,
    stack: Seq<L>,
    slab: int,
    rows: int,
    entry: spec_fn(int) -> int,
    from: int,
    s: int,
)
    requires
        from <= s,
        column_gathered::<E, L>(start, before, at, stack, slab, rows, entry, from, s),
        forall|i: int|
            #![trigger after[at + i]]
            0 <= i < rows ==> cong(
                after[at + i].word(),
                before[at + i].word() + stack[s * slab + entry(s) * rows + i].word(),
                L::extent(),
            ),
    ensures
        column_gathered::<E, L>(start, after, at, stack, slab, rows, entry, from, s + 1),
{
    L::laws();
    let m = L::extent();
    assert forall|i: int|
        #![trigger after[at + i]]
        0 <= i < rows implies cong(
        after[at + i].word(),
        start[at + i].word() + sum(
            column_words::<E, L>(stack, slab, rows, entry, i),
            from,
            s + 1,
        ),
        m,
    ) by {
        let f = column_words::<E, L>(stack, slab, rows, entry, i);
        let w = stack[s * slab + entry(s) * rows + i].word();
        assert(f(s) == w);
        assert(sum(f, from, s + 1) == sum(f, from, s) + f(s));
        assert(cong(before[at + i].word(), start[at + i].word() + sum(f, from, s), m));
        lemma_cong_refl(w, m);
        lemma_cong_add(before[at + i].word(), start[at + i].word() + sum(f, from, s), w, w, m);
        lemma_cong_trans(
            after[at + i].word(),
            before[at + i].word() + w,
            start[at + i].word() + sum(f, from, s) + w,
            m,
        );
    }
}

proof fn lemma_gathered_none<E: Element, L: Lane<E>>(
    lanes: Seq<L>,
    at: int,
    stack: Seq<L>,
    slab: int,
    rows: int,
    entry: spec_fn(int) -> int,
    from: int,
)
    ensures
        column_gathered::<E, L>(lanes, lanes, at, stack, slab, rows, entry, from, from),
{
    L::laws();
    assert forall|i: int|
        #![trigger lanes[at + i]]
        0 <= i < rows implies cong(
        lanes[at + i].word(),
        lanes[at + i].word() + sum(
            column_words::<E, L>(stack, slab, rows, entry, i),
            from,
            from,
        ),
        L::extent(),
    ) by {
        lemma_cong_refl(lanes[at + i].word(), L::extent());
    }
}

/// The entry of slot `s` lies in its slab.
proof fn lemma_entry_place(slab: int, rows: int, codes: int, depth: int, s: int, entry: int)
    requires
        slab == codes * rows,
        rows > 0,
        0 <= s < depth,
        0 <= entry < codes,
    ensures
        0 <= s * slab,
        0 <= entry * rows,
        s * slab + entry * rows + rows <= depth * slab,
        entry * rows + rows <= slab,
{
    lemma_cell(codes, rows, entry, 0);
    assert(0 <= s * slab && s * slab + slab <= depth * slab) by (nonlinear_arith)
        requires
            0 <= s < depth,
            0 <= slab,
    ;
}

/// Adds the entries that staged offsets name to one column of lanes.
pub fn gather<E: Element, L: Lane<E>>(
    take: usize,
    slab: usize,
    stack: &[L],
    first: usize,
    off: &[u32],
    u: usize,
    run: usize,
    rows: usize,
    lane: &mut [L],
    to: usize,
    Ghost(codes): Ghost<int>,
    Ghost(entry): Ghost<spec_fn(int) -> int>,
)
    requires
        u < run,
        rows > 0,
        slab == codes * rows,
        (first + take) * slab <= stack@.len(),
        take * run <= off@.len(),
        to + rows <= old(lane)@.len(),
        forall|s: int|
            0 <= s < take ==> 0 <= #[trigger] entry(first + s) < codes && off@[s * run + u]
                == entry(first + s) * rows,
    ensures
        only_lanes(old(lane)@, final(lane)@, to as int, rows as int),
        column_gathered::<E, L>(
            old(lane)@,
            final(lane)@,
            to as int,
            stack@,
            slab as int,
            rows as int,
            entry,
            first as int,
            first + take,
        ),
{
    let ghost start = lane@;
    proof {
        assert(stack.len() == stack@.len());
        assert(off.len() == off@.len());
        lemma_gathered_none::<E, L>(
            start,
            to as int,
            stack@,
            slab as int,
            rows as int,
            entry,
            first as int,
        );
    }
    let mut s: usize = 0;
    while s < take
        invariant
            s <= take,
            u < run,
            rows > 0,
            slab == codes * rows,
            (first + take) * slab <= stack@.len() <= usize::MAX,
            take * run <= off@.len() <= usize::MAX,
            to + rows <= lane@.len(),
            forall|s: int|
                0 <= s < take ==> 0 <= #[trigger] entry(first + s) < codes && off@[s * run + u]
                    == entry(first + s) * rows,
            start == old(lane)@,
            only_lanes(start, lane@, to as int, rows as int),
            column_gathered::<E, L>(
                start,
                lane@,
                to as int,
                stack@,
                slab as int,
                rows as int,
                entry,
                first as int,
                first + s,
            ),
        decreases take - s,
    {
        proof {
            let e = entry(first + s);
            lemma_cell(take as int, run as int, s as int, u as int);
            lemma_entry_place(slab as int, rows as int, codes, first + take, first + s, e);
            assert((first + s) * slab == first * slab + s * slab) by (nonlinear_arith);
            assert(0 <= first * slab) by (nonlinear_arith);
            assert(first + s <= usize::MAX) by (nonlinear_arith)
                requires
                    (first + s) * slab <= usize::MAX,
                    slab >= 1,
                    first >= 0,
                    s >= 0,
            ;
        }
        let from: usize = (first + s) * slab + (off[s * run + u] as usize);
        let ghost before = lane@;
        gather_entry(stack, from, rows, lane, to);
        proof {
            assert forall|i: int|
                #![trigger lane@[to + i]]
                0 <= i < rows implies cong(
                lane@[to + i].word(),
                before[to + i].word() + stack@[(first + s) * slab + entry(first + s) * rows
                    + i].word(),
                L::extent(),
            ) by {
                assert(from + i == (first + s) * slab + entry(first + s) * rows + i);
            }
            lemma_gathered_step::<E, L>(
                start,
                before,
                lane@,
                to as int,
                stack@,
                slab as int,
                rows as int,
                entry,
                first as int,
                first + s,
            );
        }
        s = s + 1;
    }
}

/// Adds the entries that a stream of small codes names to one column of lanes.
pub fn gather_codes<E: Element, L: Lane<E>>(
    depth: usize,
    slab: usize,
    stack: &[L],
    stream: IndexStream<'_>,
    from: usize,
    codes: usize,
    rows: usize,
    lane: &mut [L],
    to: usize,
    Ghost(entry): Ghost<spec_fn(int) -> int>,
)
    requires
        rows > 0,
        codes > 0,
        slab == codes * rows,
        depth * slab <= stack@.len(),
        from + depth <= stream.len(),
        to + rows <= old(lane)@.len(),
        forall|s: int|
            0 <= s < depth ==> #[trigger] entry(s) == stream.at(from + s) % (codes as int),
    ensures
        only_lanes(old(lane)@, final(lane)@, to as int, rows as int),
        column_gathered::<E, L>(
            old(lane)@,
            final(lane)@,
            to as int,
            stack@,
            slab as int,
            rows as int,
            entry,
            0,
            depth as int,
        ),
{
    let ghost start = lane@;
    proof {
        assert(stack.len() == stack@.len());
        lemma_gathered_none::<E, L>(
            start,
            to as int,
            stack@,
            slab as int,
            rows as int,
            entry,
            0,
        );
    }
    let mut s: usize = 0;
    while s < depth
        invariant
            s <= depth,
            rows > 0,
            codes > 0,
            slab == codes * rows,
            depth * slab <= stack@.len() <= usize::MAX,
            from + depth <= stream.len(),
            to + rows <= lane@.len(),
            forall|s: int|
                0 <= s < depth ==> #[trigger] entry(s) == stream.at(from + s) % (codes as int),
            start == old(lane)@,
            only_lanes(start, lane@, to as int, rows as int),
            column_gathered::<E, L>(
                start,
                lane@,
                to as int,
                stack@,
                slab as int,
                rows as int,
                entry,
                0,
                s as int,
            ),
        decreases depth - s,
    {
        let code: usize = stream_code(stream, from, s);
        let index: usize = code % codes;
        proof {
            assert(entry(s as int) == index);
            lemma_entry_place(
                slab as int,
                rows as int,
                codes as int,
                depth as int,
                s as int,
                index as int,
            );
        }
        let source: usize = s * slab + index * rows;
        let ghost before = lane@;
        gather_entry(stack, source, rows, lane, to);
        proof {
            assert forall|i: int|
                #![trigger lane@[to + i]]
                0 <= i < rows implies cong(
                lane@[to + i].word(),
                before[to + i].word() + stack@[s * slab + entry(s as int) * rows + i].word(),
                L::extent(),
            ) by {
                assert(source + i == s * slab + entry(s as int) * rows + i);
            }
            lemma_gathered_step::<E, L>(
                start,
                before,
                lane@,
                to as int,
                stack@,
                slab as int,
                rows as int,
                entry,
                0,
                s as int,
            );
        }
        s = s + 1;
    }
}

/// Code `s` places after `from` in a stream.
fn stream_code(stream: IndexStream<'_>, from: usize, s: usize) -> (r: usize)
    requires
        from + s < stream.len(),
    ensures
        r == stream.at(from + s),
{
    match stream {
        IndexStream::U8(codes) => {
            assert(codes.len() == codes@.len());
            codes[from + s] as usize
        },
        IndexStream::U16(codes) => {
            assert(codes.len() == codes@.len());
            codes[from + s] as usize
        },
    }
}

/// Two stretches of slots are added one after the other.
proof fn lemma_gathered_compose<E: Element, L: Lane<E>>(
    start: Seq<L>,
    middle: Seq<L>,
    after: Seq<L>,
    at: int,
    stack: Seq<L>,
    slab: int,
    rows: int,
    entry: spec_fn(int) -> int,
    from: int,
    via: int,
    to: int,
)
    requires
        from <= via <= to,
        column_gathered::<E, L>(start, middle, at, stack, slab, rows, entry, from, via),
        column_gathered::<E, L>(middle, after, at, stack, slab, rows, entry, via, to),
    ensures
        column_gathered::<E, L>(start, after, at, stack, slab, rows, entry, from, to),
{
    L::laws();
    let m = L::extent();
    assert forall|i: int|
        #![trigger after[at + i]]
        0 <= i < rows implies cong(
        after[at + i].word(),
        start[at + i].word() + sum(column_words::<E, L>(stack, slab, rows, entry, i), from, to),
        m,
    ) by {
        let f = column_words::<E, L>(stack, slab, rows, entry, i);
        lemma_sum_split(f, from, via, to);
        let (x, y) = (sum(f, from, via), sum(f, via, to));
        assert(cong(middle[at + i].word(), start[at + i].word() + x, m));
        lemma_cong_refl(y, m);
        lemma_cong_add(middle[at + i].word(), start[at + i].word() + x, y, y, m);
        lemma_cong_trans(
            after[at + i].word(),
            middle[at + i].word() + y,
            start[at + i].word() + x + y,
            m,
        );
    }
}

/// A column whose lanes have not moved keeps what was added to it.
proof fn lemma_gathered_kept<E: Element, L: Lane<E>>(
    start: Seq<L>,
    before: Seq<L>,
    after: Seq<L>,
    at: int,
    stack: Seq<L>,
    slab: int,
    rows: int,
    entry: spec_fn(int) -> int,
    from: int,
    to: int,
)
    requires
        column_gathered::<E, L>(start, before, at, stack, slab, rows, entry, from, to),
        forall|i: int| 0 <= i < rows ==> #[trigger] after[at + i] == before[at + i],
    ensures
        column_gathered::<E, L>(start, after, at, stack, slab, rows, entry, from, to),
{
    assert forall|i: int|
        #![trigger after[at + i]]
        0 <= i < rows implies cong(
        after[at + i].word(),
        start[at + i].word() + sum(column_words::<E, L>(stack, slab, rows, entry, i), from, to),
        L::extent(),
    ) by {
        assert(after[at + i] == before[at + i]);
    }
}

impl<'c, E: Element, Bd: Bound, C: Enumerable<E, Bd>> Sweep<'c, E, Bd, C> {
    /// The codes are valid, the stream spells them, and the slab is that of the
    /// book.
    pub open spec fn wf(self) -> bool {
        let codes = slab_of(C::space() as int);
        &&& self.rows > 0
        &&& codes > 0
        &&& self.slab == codes * self.rows
        &&& self.slab <= u32::MAX
        &&& forall|x: int|
            0 <= x < self.codes@.len() ==> C::valid(#[trigger] self.codes@[x]) && C::index(
                self.codes@[x],
            ) < C::space()
        &&& self.stream is Some ==> {
            &&& self.stream->0.len() == self.codes@.len()
            &&& forall|x: int|
                0 <= x < self.codes@.len() ==> #[trigger] self.stream->0.at(x) % codes == C::index(
                    self.codes@[x],
                )
        }
    }

    /// Columns `col0 .. col0 + cols` and blocks `p0 .. p0 + depth` are there.
    pub open spec fn covers(self, col0: int, cols: int, p0: int, depth: int) -> bool {
        &&& 0 <= col0
        &&& 0 <= cols
        &&& 0 <= p0
        &&& 0 <= depth
        &&& (col0 + cols) * self.codes_per_row <= self.codes@.len()
        &&& p0 + depth <= self.codes_per_row
        &&& self.index is Some ==> self.index->0@.len() >= cols
    }

    /// The entries of column `col`, from block `p0` on.
    pub open spec fn entries(self, col: int, p0: int) -> spec_fn(int) -> int {
        |s: int| C::index(self.codes@[col * self.codes_per_row + p0 + s]) as int
    }

    proof fn lemma_codes(self, col0: int, cols: int, p0: int, depth: int, j: int)
        requires
            self.wf(),
            self.covers(col0, cols, p0, depth),
            0 <= j < cols,
        ensures
            0 <= (col0 + j) * self.codes_per_row,
            (col0 + j) * self.codes_per_row + p0 + depth <= self.codes@.len(),
            forall|s: int|
                0 <= s < depth ==> 0 <= #[trigger] self.entries(col0 + j, p0)(s) < slab_of(
                    C::space() as int,
                ),
    {
        let cpr = self.codes_per_row as int;
        assert(0 <= (col0 + j) * cpr && (col0 + j) * cpr + cpr <= (col0 + cols) * cpr)
            by (nonlinear_arith)
            requires
                0 <= col0,
                0 <= j < cols,
                0 <= cpr,
        ;
        C::extents_fit();
        crate::arith::lemma_ceil_pow2(C::space());
        assert forall|s: int| 0 <= s < depth implies 0 <= #[trigger] self.entries(
            col0 + j,
            p0,
        )(s) < slab_of(C::space() as int) by {
            assert(C::valid(self.codes@[(col0 + j) * cpr + p0 + s]));
        }
    }

    /// Stages the offsets of `take` blocks of `run` columns.
    fn stage(
        &self,
        off: &mut [u32],
        col0: usize,
        cols: usize,
        j: usize,
        run: usize,
        p0: usize,
        depth: usize,
        w: usize,
        take: usize,
    )
        requires
            self.wf(),
            self.covers(col0 as int, cols as int, p0 as int, depth as int),
            run > 0,
            j + run <= cols,
            w + take <= depth,
            take * run <= old(off)@.len(),
        ensures
            final(off)@.len() == old(off)@.len(),
            forall|s: int, u: int|
                #![trigger final(off)@[s * run + u]]
                0 <= s < take && 0 <= u < run ==> final(off)@[s * run + u] == self.entries(
                    (col0 + j + u) as int,
                    p0 as int,
                )(w + s) * self.rows,
    {
        let cpr: usize = self.codes_per_row;
        proof {
            assert(off.len() == off@.len());
            assert(self.codes.len() == self.codes@.len());
        }
        let mut s: usize = 0;
        while s < take
            invariant
                self.wf(),
                self.covers(col0 as int, cols as int, p0 as int, depth as int),
                self.codes@.len() <= usize::MAX,
                cpr == self.codes_per_row,
                run > 0,
                j + run <= cols,
                w + take <= depth,
                take * run <= off@.len() <= usize::MAX,
                off@.len() == old(off)@.len(),
                s <= take,
                forall|x: int, u: int|
                    #![trigger off@[x * run + u]]
                    0 <= x < s && 0 <= u < run ==> off@[x * run + u] == self.entries(
                        (col0 + j + u) as int,
                        p0 as int,
                    )(w + x) * self.rows,
            decreases take - s,
        {
            let mut u: usize = 0;
            while u < run
                invariant
                    self.wf(),
                    self.covers(col0 as int, cols as int, p0 as int, depth as int),
                    self.codes@.len() <= usize::MAX,
                    cpr == self.codes_per_row,
                    run > 0,
                    j + run <= cols,
                    w + take <= depth,
                    take * run <= off@.len() <= usize::MAX,
                    off@.len() == old(off)@.len(),
                    s < take,
                    u <= run,
                    forall|x: int, y: int|
                        #![trigger off@[x * run + y]]
                        0 <= x <= s && 0 <= y < run && (x < s || y < u) ==> off@[x * run + y]
                            == self.entries((col0 + j + y) as int, p0 as int)(w + x) * self.rows,
                decreases run - u,
            {
                let ghost col = col0 + j + u;
                let ghost codes = slab_of(C::space() as int);
                proof {
                    self.lemma_codes(
                        col0 as int,
                        cols as int,
                        p0 as int,
                        depth as int,
                        (j + u) as int,
                    );
                    lemma_cell(take as int, run as int, s as int, u as int);
                    // A column that is there has a number that fits.
                    assert(cpr >= 1);
                    assert(col <= usize::MAX) by (nonlinear_arith)
                        requires
                            col * cpr <= usize::MAX,
                            cpr >= 1,
                            col >= 0,
                    ;
                }
                let at: usize = (col0 + j + u) * cpr + p0 + (w + s);
                let index: usize = C::index_of(self.codes[at]);
                proof {
                    assert(self.entries(col as int, p0 as int)((w + s) as int) == index);
                    lemma_cell(codes, self.rows as int, index as int, 0);
                }
                let ghost before = off@;
                off[s * run + u] = (index * self.rows) as u32;
                proof {
                    assert forall|x: int, y: int|
                        #![trigger off@[x * run + y]]
                        0 <= x <= s && 0 <= y < run && (x < s || y < u + 1) implies off@[x * run
                        + y] == self.entries((col0 + j + y) as int, p0 as int)(w + x)
                        * self.rows by {
                        lemma_cell(take as int, run as int, x, y);
                        if x * run + y == s * run + u {
                            crate::sequence::lemma_cell_apart(
                                run as int,
                                x,
                                y,
                                s as int,
                                u as int,
                            );
                        } else {
                            assert(off@[x * run + y] == before[x * run + y]);
                        }
                    }
                }
                u = u + 1;
            }
            s = s + 1;
        }
    }

    /// Adds the entries of columns `j .. j + run` to their lanes.
    fn gather_run<L: Lane<E>>(
        &self,
        off: &mut [u32],
        stack: &[L],
        carried: &mut [L],
        col0: usize,
        cols: usize,
        j: usize,
        run: usize,
        p0: usize,
        depth: usize,
    )
        requires
            self.wf(),
            self.covers(col0 as int, cols as int, p0 as int, depth as int),
            0 < run <= MAX_GROUP,
            j + run <= cols,
            depth * self.slab <= stack@.len(),
            cols * self.rows <= old(carried)@.len(),
            old(off)@.len() == STAGED_OFFSETS,
        ensures
            final(off)@.len() == STAGED_OFFSETS,
            only_lanes(
                old(carried)@,
                final(carried)@,
                j * self.rows,
                run * self.rows,
            ),
            forall|u: int|
                0 <= u < run ==> #[trigger] column_gathered::<E, L>(
                    old(carried)@,
                    final(carried)@,
                    (j + u) * self.rows,
                    stack@,
                    self.slab as int,
                    self.rows as int,
                    self.entries(col0 + (j + u), p0 as int),
                    0,
                    depth as int,
                ),
    {
        let ghost start = carried@;
        let ghost rows = self.rows as int;
        let ghost slab = self.slab as int;
        let ghost codes = slab_of(C::space() as int);
        proof {
            assert(carried.len() == carried@.len());
            assert(stack.len() == stack@.len());
            assert(self.codes.len() == self.codes@.len());
        }
        if let Some(stream) = self.stream {
            let mut u: usize = 0;
            while u < run
                invariant
                    self.wf(),
                    self.covers(col0 as int, cols as int, p0 as int, depth as int),
                    self.codes@.len() <= usize::MAX,
                    self.stream == Some(stream),
                    0 < run,
                    j + run <= cols,
                    rows == self.rows,
                    slab == self.slab,
                    codes == slab_of(C::space() as int),
                    depth * self.slab <= stack@.len(),
                    cols * rows <= carried@.len() <= usize::MAX,
                    off@.len() == STAGED_OFFSETS,
                    start == old(carried)@,
                    u <= run,
                    only_lanes(start, carried@, j * rows, u * rows),
                    forall|x: int|
                        0 <= x < u ==> #[trigger] column_gathered::<E, L>(
                            start,
                            carried@,
                            (j + x) * rows,
                            stack@,
                            slab,
                            rows,
                            self.entries(col0 + (j + x), p0 as int),
                            0,
                            depth as int,
                        ),
                decreases run - u,
            {
                let ghost col = col0 + (j + u);
                let ghost before = carried@;
                let ghost entry = self.entries(col as int, p0 as int);
                proof {
                    self.lemma_codes(
                        col0 as int,
                        cols as int,
                        p0 as int,
                        depth as int,
                        (j + u) as int,
                    );
                    lemma_cell(cols as int, rows, (j + u) as int, 0);
                    lemma_lanes_apart(rows, j as int, u as int);
                    if self.codes_per_row > 0 {
                        assert(col <= usize::MAX) by (nonlinear_arith)
                            requires
                                col * self.codes_per_row <= usize::MAX,
                                self.codes_per_row >= 1,
                                col >= 0,
                        ;
                    }
                    assert forall|s: int| 0 <= s < depth implies #[trigger] entry(s)
                        == stream.at((col * self.codes_per_row + p0) + s) % codes by {
                        let x = col * self.codes_per_row + p0 + s;
                        assert(stream.at(x) % codes == C::index(self.codes@[x]));
                    }
                }
                if depth > 0 {
                    proof {
                        vstd::arithmetic::div_mod::lemma_div_by_multiple(codes, rows);
                        assert(codes * rows == rows * codes) by (nonlinear_arith);
                    }
                    let from: usize = (col0 + (j + u)) * self.codes_per_row + p0;
                    gather_codes(
                        depth,
                        self.slab,
                        stack,
                        stream,
                        from,
                        self.slab / self.rows,
                        self.rows,
                        carried,
                        (j + u) * self.rows,
                        Ghost(entry),
                    );
                } else {
                    proof {
                        lemma_gathered_none::<E, L>(
                            before,
                            (j + u) * rows,
                            stack@,
                            slab,
                            rows,
                            entry,
                            0,
                        );
                    }
                }
                proof {
                    lemma_column_done::<E, L>(
                        start,
                        before,
                        carried@,
                        j as int,
                        u as int,
                        stack@,
                        slab,
                        rows,
                        entry,
                        depth as int,
                    );
                    assert forall|x: int| 0 <= x < u + 1 implies #[trigger] column_gathered::<E, L>(
                        start,
                        carried@,
                        (j + x) * rows,
                        stack@,
                        slab,
                        rows,
                        self.entries(col0 + (j + x), p0 as int),
                        0,
                        depth as int,
                    ) by {
                        if x < u {
                            assert forall|i: int| 0 <= i < rows implies #[trigger] carried@[(j + x)
                                * rows + i] == before[(j + x) * rows + i] by {
                                lemma_lanes_order(rows, (j + x) as int, (j + u) as int, i);
                                lemma_cell(cols as int, rows, j + x, i);
                            }
                            lemma_gathered_kept::<E, L>(
                                start,
                                before,
                                carried@,
                                (j + x) * rows,
                                stack@,
                                slab,
                                rows,
                                self.entries(col0 + (j + x), p0 as int),
                                0,
                                depth as int,
                            );
                        }
                    }
                }
                u = u + 1;
            }
            return;
        }
        let mut w: usize = 0;
        proof {
            assert forall|x: int| 0 <= x < run implies #[trigger] column_gathered::<E, L>(
                start,
                carried@,
                (j + x) * rows,
                stack@,
                slab,
                rows,
                self.entries(col0 + (j + x), p0 as int),
                0,
                0,
            ) by {
                lemma_gathered_none::<E, L>(
                    start,
                    (j + x) * rows,
                    stack@,
                    slab,
                    rows,
                    self.entries(col0 + (j + x), p0 as int),
                    0,
                );
            }
        }
        while w < depth
            invariant
                self.wf(),
                self.covers(col0 as int, cols as int, p0 as int, depth as int),
                0 < run <= MAX_GROUP,
                j + run <= cols,
                rows == self.rows,
                slab == self.slab,
                codes == slab_of(C::space() as int),
                depth * self.slab <= stack@.len(),
                cols * rows <= carried@.len() <= usize::MAX,
                off@.len() == STAGED_OFFSETS,
                start == old(carried)@,
                w <= depth,
                only_lanes(start, carried@, j * rows, run * rows),
                forall|x: int|
                    0 <= x < run ==> #[trigger] column_gathered::<E, L>(
                        start,
                        carried@,
                        (j + x) * rows,
                        stack@,
                        slab,
                        rows,
                        self.entries(col0 + (j + x), p0 as int),
                        0,
                        w as int,
                    ),
            decreases depth - w,
        {
            let take: usize = if depth - w < GATHER_SLOTS {
                depth - w
            } else {
                GATHER_SLOTS
            };
            assert(take * run <= STAGED_OFFSETS) by (nonlinear_arith)
                requires
                    0 <= take <= 32,
                    0 <= run <= 16,
            ;
            self.stage(off, col0, cols, j, run, p0, depth, w, take);
            let mut u: usize = 0;
            while u < run
                invariant
                    self.wf(),
                    self.covers(col0 as int, cols as int, p0 as int, depth as int),
                    0 < run <= MAX_GROUP,
                    j + run <= cols,
                    rows == self.rows,
                    slab == self.slab,
                    codes == slab_of(C::space() as int),
                    depth * self.slab <= stack@.len(),
                    cols * rows <= carried@.len() <= usize::MAX,
                    off@.len() == STAGED_OFFSETS,
                    take * run <= STAGED_OFFSETS,
                    start == old(carried)@,
                    w + take <= depth,
                    u <= run,
                    forall|s: int, u: int|
                        #![trigger off@[s * run + u]]
                        0 <= s < take && 0 <= u < run ==> off@[s * run + u] == self.entries(
                            (col0 + j + u) as int,
                            p0 as int,
                        )(w + s) * self.rows,
                    only_lanes(start, carried@, j * rows, run * rows),
                    forall|x: int|
                        0 <= x < run ==> #[trigger] column_gathered::<E, L>(
                            start,
                            carried@,
                            (j + x) * rows,
                            stack@,
                            slab,
                            rows,
                            self.entries(col0 + (j + x), p0 as int),
                            0,
                            slots_done(x, u as int, w as int, take as int),
                        ),
                decreases run - u,
            {
                let ghost entry = self.entries(col0 + (j + u), p0 as int);
                let ghost before = carried@;
                proof {
                    self.lemma_codes(
                        col0 as int,
                        cols as int,
                        p0 as int,
                        depth as int,
                        (j + u) as int,
                    );
                    lemma_cell(cols as int, rows, (j + u) as int, 0);
                    lemma_lanes_apart(rows, j as int, u as int);
                    assert((w + take) * slab <= depth * slab) by (nonlinear_arith)
                        requires
                            w + take <= depth,
                            slab >= 0,
                    ;
                    assert forall|s: int| 0 <= s < take implies 0 <= #[trigger] entry(w + s)
                        < codes && off@[s * run + u] == entry(w + s) * rows by {
                        assert(off@[s * run + u] == self.entries(
                            (col0 + j + u) as int,
                            p0 as int,
                        )(w + s) * self.rows);
                    }
                }
                gather(
                    take,
                    self.slab,
                    stack,
                    w,
                    off,
                    u,
                    run,
                    self.rows,
                    carried,
                    (j + u) * self.rows,
                    Ghost(codes),
                    Ghost(entry),
                );
                proof {
                    assert forall|x: int| 0 <= x < run implies #[trigger] column_gathered::<E, L>(
                        start,
                        carried@,
                        (j + x) * rows,
                        stack@,
                        slab,
                        rows,
                        self.entries(col0 + (j + x), p0 as int),
                        0,
                        slots_done(x, u + 1, w as int, take as int),
                    ) by {
                        let e = self.entries(col0 + (j + x), p0 as int);
                        assert(column_gathered::<E, L>(
                            start,
                            before,
                            (j + x) * rows,
                            stack@,
                            slab,
                            rows,
                            e,
                            0,
                            slots_done(x, u as int, w as int, take as int),
                        ));
                        if x == u {
                            lemma_gathered_compose::<E, L>(
                                start,
                                before,
                                carried@,
                                (j + x) * rows,
                                stack@,
                                slab,
                                rows,
                                e,
                                0,
                                w as int,
                                w + take,
                            );
                        } else {
                            assert forall|i: int| 0 <= i < rows implies #[trigger] carried@[(j + x)
                                * rows + i] == before[(j + x) * rows + i] by {
                                if x < u {
                                    lemma_lanes_order(rows, j + x, (j + u) as int, i);
                                } else {
                                    lemma_lanes_order(rows, (j + u) as int, j + x, rows - 1);
                                }
                                lemma_cell(cols as int, rows, j + x, i);
                            }
                            lemma_gathered_kept::<E, L>(
                                start,
                                before,
                                carried@,
                                (j + x) * rows,
                                stack@,
                                slab,
                                rows,
                                e,
                                0,
                                slots_done(x, u as int, w as int, take as int),
                            );
                        }
                    }
                    lemma_lanes_inside(rows, j as int, u as int, run as int);
                }
                u = u + 1;
            }
            proof {
                assert forall|x: int| 0 <= x < run implies #[trigger] column_gathered::<E, L>(
                    start,
                    carried@,
                    (j + x) * rows,
                    stack@,
                    slab,
                    rows,
                    self.entries(col0 + (j + x), p0 as int),
                    0,
                    w + take,
                ) by {
                    assert(column_gathered::<E, L>(
                        start,
                        carried@,
                        (j + x) * rows,
                        stack@,
                        slab,
                        rows,
                        self.entries(col0 + (j + x), p0 as int),
                        0,
                        slots_done(x, run as int, w as int, take as int),
                    ));
                }
            }
            w = w + take;
        }
    }
}

/// Slots added to column `x` of a run when `u` columns have had `take` more.
spec fn slots_done(x: int, u: int, w: int, take: int) -> int {
    if x < u {
        w + take
    } else {
        w
    }
}

/// Column `j + u` lies past the `u` columns that start at `j`.
proof fn lemma_lanes_apart(rows: int, j: int, u: int)
    requires
        rows > 0,
        0 <= j,
        0 <= u,
    ensures
        (j + u) * rows == j * rows + u * rows,
        (u + 1) * rows == u * rows + rows,
        0 <= j * rows,
        0 <= u * rows,
{
    assert((j + u) * rows == j * rows + u * rows && (u + 1) * rows == u * rows + rows && 0 <= j
        * rows && 0 <= u * rows) by (nonlinear_arith)
        requires
            rows > 0,
            0 <= j,
            0 <= u,
    ;
}

/// The lanes of an earlier column end before those of a later one begin.
proof fn lemma_lanes_order(rows: int, x: int, y: int, i: int)
    requires
        rows > 0,
        0 <= i < rows,
        x < y,
    ensures
        x * rows + i < y * rows,
        x * rows + rows <= y * rows,
{
    assert(x * rows + rows <= y * rows) by (nonlinear_arith)
        requires
            rows > 0,
            x + 1 <= y,
    ;
}

/// Column `u` of a run lies inside the run.
proof fn lemma_lanes_inside(rows: int, j: int, u: int, run: int)
    requires
        rows > 0,
        0 <= j,
        0 <= u < run,
    ensures
        j * rows <= (j + u) * rows,
        (j + u) * rows + rows <= j * rows + run * rows,
{
    assert(j * rows <= (j + u) * rows && (j + u) * rows + rows <= j * rows + run * rows)
        by (nonlinear_arith)
        requires
            rows > 0,
            0 <= j,
            0 <= u,
            u + 1 <= run,
    ;
}

/// A column whose lanes were untouched before is now done.
proof fn lemma_column_done<E: Element, L: Lane<E>>(
    start: Seq<L>,
    before: Seq<L>,
    after: Seq<L>,
    j: int,
    u: int,
    stack: Seq<L>,
    slab: int,
    rows: int,
    entry: spec_fn(int) -> int,
    depth: int,
)
    requires
        rows > 0,
        0 <= j,
        0 <= u,
        only_lanes(start, before, j * rows, u * rows),
        only_lanes(before, after, (j + u) * rows, rows),
        (j + u) * rows + rows <= start.len(),
        column_gathered::<E, L>(before, after, (j + u) * rows, stack, slab, rows, entry, 0, depth),
    ensures
        column_gathered::<E, L>(start, after, (j + u) * rows, stack, slab, rows, entry, 0, depth),
        only_lanes(start, after, j * rows, (u + 1) * rows),
{
    lemma_lanes_apart(rows, j, u);
    let at = (j + u) * rows;
    assert forall|i: int|
        #![trigger after[at + i]]
        0 <= i < rows implies cong(
        after[at + i].word(),
        start[at + i].word() + sum(column_words::<E, L>(stack, slab, rows, entry, i), 0, depth),
        L::extent(),
    ) by {
        assert(before[at + i] == start[at + i]);
    }
}

impl<'c, E: Element, Bd: Bound, C: Enumerable<E, Bd>> Sweep<'c, E, Bd, C> {
    /// Column `j` has been swept: its entries are added where it is the first
    /// of its kind, and it is untouched where it is not.
    pub open spec fn column_swept<L: Lane<E>>(
        self,
        before: Seq<L>,
        after: Seq<L>,
        stack: Seq<L>,
        col0: int,
        j: int,
        p0: int,
        depth: int,
    ) -> bool {
        &&& present(seq_of(self.index), j) ==> column_gathered::<E, L>(
            before,
            after,
            j * self.rows,
            stack,
            self.slab as int,
            self.rows as int,
            self.entries(col0 + j, p0),
            0,
            depth,
        )
        &&& !present(seq_of(self.index), j) ==> forall|i: int|
            0 <= i < self.rows ==> #[trigger] after[j * self.rows + i] == before[j * self.rows + i]
    }

    /// Whether column `j` is the first of its kind.
    fn is_present(&self, j: usize) -> (r: bool)
        requires
            self.index is Some ==> j < self.index->0@.len(),
        ensures
            r == present(seq_of(self.index), j as int),
    {
        match self.index {
            Some(of) => of[j] == j,
            None => true,
        }
    }

    /// Adds to the lanes of every column that is the first of its kind the
    /// table entries that its codes name, whole groups of columns together
    /// where they are all there; returns how many columns that was.
    pub fn sweep<L: Lane<E>>(
        &self,
        group: usize,
        stack: &[L],
        carried: &mut [L],
        col0: usize,
        cols: usize,
        p0: usize,
        depth: usize,
    ) -> (computed: usize)
        requires
            self.wf(),
            self.covers(col0 as int, cols as int, p0 as int, depth as int),
            0 < group <= MAX_GROUP,
            depth * self.slab <= stack@.len(),
            cols * self.rows <= old(carried)@.len(),
        ensures
            computed == present_count(seq_of(self.index), cols as int),
            final(carried)@.len() == old(carried)@.len(),
            forall|j: int|
                0 <= j < cols ==> #[trigger] self.column_swept(
                    old(carried)@,
                    final(carried)@,
                    stack@,
                    col0 as int,
                    j,
                    p0 as int,
                    depth as int,
                ),
            forall|x: int|
                cols * self.rows <= x < old(carried)@.len() ==> #[trigger] final(carried)@[x]
                    == old(carried)@[x],
    {
        let mut off: [u32; 512] = [0u32;512];
        let ghost start = carried@;
        let ghost rows = self.rows as int;
        let mut computed: usize = 0;
        let mut j: usize = 0;
        while j < cols
            invariant
                self.wf(),
                self.covers(col0 as int, cols as int, p0 as int, depth as int),
                0 < group <= MAX_GROUP,
                depth * self.slab <= stack@.len(),
                rows == self.rows,
                cols * rows <= carried@.len(),
                carried@.len() == start.len(),
                start == old(carried)@,
                j <= cols,
                computed == present_count(seq_of(self.index), j as int),
                computed <= j,
                forall|x: int|
                    0 <= x < j ==> #[trigger] self.column_swept(
                        start,
                        carried@,
                        stack@,
                        col0 as int,
                        x,
                        p0 as int,
                        depth as int,
                    ),
                forall|x: int|
                    j * rows <= x < start.len() ==> #[trigger] carried@[x] == start[x],
            decreases cols - j,
        {
            proof {
                lemma_lanes_apart(rows, j as int, 0);
                assert((j + 1) * rows == j * rows + rows) by (nonlinear_arith);
            }
            if !self.is_present(j) {
                proof {
                    assert forall|x: int| 0 <= x < j + 1 implies #[trigger] self.column_swept(
                        start,
                        carried@,
                        stack@,
                        col0 as int,
                        x,
                        p0 as int,
                        depth as int,
                    ) by {
                        if x == j {
                            lemma_cell(cols as int, rows, j as int, 0);
                        }
                    }
                }
                j = j + 1;
                continue;
            }
            let mut run: usize = 1;
            if group > 1 && group <= cols - j {
                while run < group && self.is_present(j + run)
                    invariant
                        1 <= run <= group,
                        j + group <= cols,
                        self.index is Some ==> self.index->0@.len() >= cols,
                        forall|x: int|
                            j <= x < j + run ==> #[trigger] present(seq_of(self.index), x),
                    decreases group - run,
                {
                    run = run + 1;
                }
                if run < group {
                    run = 1;
                }
            }
            let ghost before = carried@;
            self.gather_run(&mut off, stack, carried, col0, cols, j, run, p0, depth);
            proof {
                lemma_lanes_apart(rows, j as int, run as int);
                lemma_present_all(seq_of(self.index), j as int, j + run);
                assert forall|x: int| 0 <= x < j + run implies #[trigger] self.column_swept(
                    start,
                    carried@,
                    stack@,
                    col0 as int,
                    x,
                    p0 as int,
                    depth as int,
                ) by {
                    let e = self.entries(col0 + x, p0 as int);
                    let at = x * rows;
                    if x < j {
                        assert(self.column_swept(
                            start,
                            before,
                            stack@,
                            col0 as int,
                            x,
                            p0 as int,
                            depth as int,
                        ));
                        assert forall|i: int| 0 <= i < rows implies #[trigger] carried@[at + i]
                            == before[at + i] by {
                            lemma_lanes_order(rows, x, j as int, i);
                            lemma_cell(cols as int, rows, x, i);
                        }
                        if present(seq_of(self.index), x) {
                            lemma_gathered_kept::<E, L>(
                                start,
                                before,
                                carried@,
                                at,
                                stack@,
                                self.slab as int,
                                rows,
                                e,
                                0,
                                depth as int,
                            );
                        }
                    } else {
                        let u = x - j;
                        assert(column_gathered::<E, L>(
                            before,
                            carried@,
                            (j + u) * rows,
                            stack@,
                            self.slab as int,
                            rows,
                            self.entries(col0 + (j + u), p0 as int),
                            0,
                            depth as int,
                        ));
                        assert forall|i: int|
                            #![trigger carried@[at + i]]
                            0 <= i < rows implies cong(
                            carried@[at + i].word(),
                            start[at + i].word() + sum(
                                column_words::<E, L>(stack@, self.slab as int, rows, e, i),
                                0,
                                depth as int,
                            ),
                            L::extent(),
                        ) by {
                            lemma_cell(cols as int, rows, x, i);
                            lemma_lanes_inside(rows, j as int, u, run as int);
                            assert(before[at + i] == start[at + i]);
                        }
                    }
                }
            }
            computed = computed + run;
            j = j + run;
        }
        proof {
            lemma_present_count(seq_of(self.index), cols as int);
        }
        computed
    }

    /// The sweep at one of the group widths that there are.
    pub fn sweep_group<L: Lane<E>>(
        &self,
        group: usize,
        stack: &[L],
        carried: &mut [L],
        col0: usize,
        cols: usize,
        p0: usize,
        depth: usize,
    ) -> (computed: usize)
        requires
            self.wf(),
            self.covers(col0 as int, cols as int, p0 as int, depth as int),
            depth * self.slab <= stack@.len(),
            cols * self.rows <= old(carried)@.len(),
        ensures
            computed == present_count(seq_of(self.index), cols as int),
            final(carried)@.len() == old(carried)@.len(),
            forall|j: int|
                0 <= j < cols ==> #[trigger] self.column_swept(
                    old(carried)@,
                    final(carried)@,
                    stack@,
                    col0 as int,
                    j,
                    p0 as int,
                    depth as int,
                ),
            forall|x: int|
                cols * self.rows <= x < old(carried)@.len() ==> #[trigger] final(carried)@[x]
                    == old(carried)@[x],
    {
        let width: usize = if group == 16 || group == 8 || group == 4 || group == 2 {
            group
        } else {
            1
        };
        self.sweep(width, stack, carried, col0, cols, p0, depth)
    }
}

} // verus!
