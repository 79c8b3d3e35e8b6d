//! Building the entries of a slot that a block of columns addresses.
use crate::census::{Ledger, Tally};
use crate::codec::Enumerable;
use crate::element::{Bound, Element};
use crate::entries::{dedup, lemma_dedup_contains, lemma_dedup_grows, EntryInsert, EntrySet};
use crate::lane::Lane;
use crate::sequence::{entry_suits, lemma_cell, Sequence, TableLane, TableSpec};
use crate::sweep::{present, present_count, seq_of};
use crate::table::{build_tally, cell_dot, entry_dot, lemma_entry_kept, lemma_slot, Table};
use vstd::prelude::*;

verus! {

/// The place that column `j` of the columns from `col0` on names at block `p`.
pub open spec fn column_place<E: Element, Bd: Bound, C: Enumerable<E, Bd>>(
    codes: Seq<C::Code>,
    codes_per_row: int,
    col0: int,
    p: int,
    j: int,
) -> nat {
    C::index(codes[(col0 + j) * codes_per_row + p])
}

/// The places that the first `n` columns from `col0` on name at block `p`, each
/// kind of column once.
pub open spec fn addressed_places<E: Element, Bd: Bound, C: Enumerable<E, Bd>>(
    codes: Seq<C::Code>,
    codes_per_row: int,
    col0: int,
    p: int,
    index: Option<Seq<usize>>,
    n: int,
) -> Seq<nat>
    decreases n,
{
    if n <= 0 {
        Seq::empty()
    } else {
        let before = addressed_places::<E, Bd, C>(codes, codes_per_row, col0, p, index, n - 1);
        if present(index, n - 1) {
            before.push(column_place::<E, Bd, C>(codes, codes_per_row, col0, p, n - 1))
        } else {
            before
        }
    }
}

/// The codes of block `p` of a block of columns that starts at `col0`.
pub struct BlockCodes<'c, E: Element, Bd: Bound, C: Enumerable<E, Bd>> {
    pub codes: &'c [C::Code],
    pub codes_per_row: usize,
    pub col0: usize,
    pub cols: usize,
    pub p: usize,
    /// The first equal column of each, where columns repeat.
    pub collapsed: Option<&'c [usize]>,
}

impl<'c, E: Element, Bd: Bound, C: Enumerable<E, Bd>> Copy for BlockCodes<'c, E, Bd, C> {

}

impl<'c, E: Element, Bd: Bound, C: Enumerable<E, Bd>> Clone for BlockCodes<'c, E, Bd, C> {
    fn clone(&self) -> (r: Self)
        ensures
            r == *self,
    {
        *self
    }
}

impl<'c, E: Element, Bd: Bound, C: Enumerable<E, Bd>> BlockCodes<'c, E, Bd, C> {
    /// The codes are there and valid.
    pub open spec fn wf(self) -> bool {
        &&& (self.col0 + self.cols) * self.codes_per_row <= self.codes@.len()
        &&& self.p < self.codes_per_row
        &&& self.collapsed is Some ==> self.collapsed->0@.len() >= self.cols
        &&& C::space() > 0
        &&& forall|x: int|
            0 <= x < self.codes@.len() ==> C::valid(#[trigger] self.codes@[x]) && C::index(
                self.codes@[x],
            ) < C::space()
    }

    /// The place that column `j` names.
    pub open spec fn place(self, j: int) -> nat {
        column_place::<E, Bd, C>(
            self.codes@,
            self.codes_per_row as int,
            self.col0 as int,
            self.p as int,
            j,
        )
    }

    /// The places that the first `n` columns name, each kind of column once.
    pub open spec fn addressed(self, n: int) -> Seq<nat> {
        addressed_places::<E, Bd, C>(
            self.codes@,
            self.codes_per_row as int,
            self.col0 as int,
            self.p as int,
            seq_of(self.collapsed),
            n,
        )
    }

    proof fn lemma_place(self, j: int)
        requires
            self.wf(),
            0 <= j < self.cols,
        ensures
            0 <= (self.col0 + j) * self.codes_per_row,
            (self.col0 + j) * self.codes_per_row + self.p < self.codes@.len(),
            self.place(j) < C::space(),
            self.col0 + j <= usize::MAX,
    {
        let (c0, n, cpr) = (self.col0 as int, self.cols as int, self.codes_per_row as int);
        assert(0 <= (c0 + j) * cpr && (c0 + j) * cpr + cpr <= (c0 + n) * cpr) by (nonlinear_arith)
            requires
                0 <= c0,
                0 <= j < n,
                0 <= cpr,
        ;
        assert(C::valid(self.codes@[(c0 + j) * cpr + self.p]));
        assert(self.codes.len() == self.codes@.len());
        assert(c0 + j <= (c0 + j) * cpr) by (nonlinear_arith)
            requires
                0 <= c0 + j,
                1 <= cpr,
        ;
    }

    /// Every first column's place is among those addressed.
    pub proof fn lemma_addressed(self, n: int, j: int)
        requires
            0 <= j < n,
            present(seq_of(self.collapsed), j),
        ensures
            exists|x: int|
                0 <= x < self.addressed(n).len() && #[trigger] self.addressed(n)[x] == self.place(
                    j,
                ),
        decreases n,
    {
        let before = self.addressed(n - 1);
        if j < n - 1 {
            self.lemma_addressed(n - 1, j);
            let x = choose|x: int|
                0 <= x < before.len() && #[trigger] before[x] == self.place(j);
            assert(self.addressed(n)[x] == self.place(j));
        } else {
            assert(self.addressed(n)[before.len() as int] == self.place(j));
        }
    }

    pub proof fn lemma_addressed_len(self, n: int)
        ensures
            self.addressed(n).len() == present_count(seq_of(self.collapsed), n),
        decreases n,
    {
        if n > 0 {
            self.lemma_addressed_len(n - 1);
        }
    }

    /// Whether column `j` is the first of its kind.
    fn is_present(&self, j: usize) -> (r: bool)
        requires
            self.wf(),
            j < self.cols,
        ensures
            r == present(seq_of(self.collapsed), j as int),
    {
        match self.collapsed {
            Some(of) => of[j] == j,
            None => true,
        }
    }

    /// The place that column `j` names.
    fn place_of(&self, j: usize) -> (r: usize)
        requires
            self.wf(),
            j < self.cols,
        ensures
            r == self.place(j as int),
            r < C::space(),
    {
        proof {
            self.lemma_place(j as int);
            assert(self.codes.len() == self.codes@.len());
            assert(C::valid(
                self.codes@[(self.col0 + j) * self.codes_per_row + self.p],
            ));
        }
        C::index_of(self.codes[(self.col0 + j) * self.codes_per_row + self.p])
    }

    /// Enters the places of every first column; whether they all fit.
    fn enter_all(&self, set: &mut EntrySet<'_>) -> (complete: bool)
        requires
            self.wf(),
            old(set).wf(),
            old(set).empty(),
        ensures
            final(set).wf(),
            final(set).same_storage(*old(set)),
            final(final(set).seen)@ == final(old(set).seen)@,
            final(final(set).occupied)@ == final(old(set).occupied)@,
            complete == (dedup(
                self.addressed(self.cols as int),
                self.addressed(self.cols as int).len() as int,
            ).len() <= old(set).room()),
            complete ==> final(set).items() == dedup(
                self.addressed(self.cols as int),
                self.addressed(self.cols as int).len() as int,
            ),
    {
        let ghost whole = self.addressed(self.cols as int);
        let mut j: usize = 0;
        assert(set.items() =~= dedup(self.addressed(0), 0));
        while j < self.cols
            invariant
                self.wf(),
                j <= self.cols,
                whole == self.addressed(self.cols as int),
                set.wf(),
                set.same_storage(*old(set)),
                set.room() == old(set).room(),
                final(set.seen)@ == final(old(set).seen)@,
                final(set.occupied)@ == final(old(set).occupied)@,
                set.items() == dedup(
                    self.addressed(j as int),
                    self.addressed(j as int).len() as int,
                ),
                set.used <= set.room(),
            decreases self.cols - j,
        {
            if self.is_present(j) {
                let index: usize = self.place_of(j);
                let ghost (now, next) = (self.addressed(j as int), self.addressed(j + 1));
                proof {
                    C::extents_fit();
                    assert(next == now.push(self.place(j as int)));
                    lemma_dedup_prefix(now, next, now.len() as int);
                    assert(next[now.len() as int] as usize == index);
                    assert(set.items().len() == set.used);
                }
                let entered: EntryInsert = set.insert(index);
                if entered == EntryInsert::Full {
                    proof {
                        assert(dedup(next, next.len() as int).len() > set.room());
                        self.lemma_addressed_prefix(j + 1, self.cols as int);
                        lemma_dedup_prefix(next, whole, next.len() as int);
                        lemma_dedup_grows(whole, next.len() as int, whole.len() as int);
                    }
                    return false;
                }
                assert(set.items().len() == set.used);
            }
            j = j + 1;
        }
        assert(set.items().len() == set.used);
        true
    }

    /// What fewer columns address comes first in what more columns address.
    proof fn lemma_addressed_prefix(self, k: int, n: int)
        requires
            0 <= k <= n,
        ensures
            self.addressed(k).len() <= self.addressed(n).len(),
            forall|x: int|
                0 <= x < self.addressed(k).len() ==> #[trigger] self.addressed(n)[x]
                    == self.addressed(k)[x],
        decreases n - k,
    {
        if k < n {
            self.lemma_addressed_prefix(k, n - 1);
        }
    }
}

/// The first occurrences of a prefix do not depend on what follows.
proof fn lemma_dedup_prefix(x: Seq<nat>, y: Seq<nat>, n: int)
    requires
        n <= x.len(),
        n <= y.len(),
        forall|i: int| 0 <= i < n ==> x[i] == y[i],
    ensures
        dedup(x, n) == dedup(y, n),
    decreases n,
{
    if n > 0 {
        lemma_dedup_prefix(x, y, n - 1);
    }
}

/// Entries that are built for one block of a block of columns: those addressed
/// where they can be told apart and are fewer than the book, and otherwise the
/// whole book. Without a set to tell them apart, one per first column.
pub open spec fn built_entries<E: Element, Bd: Bound, C: Enumerable<E, Bd>>(
    places: Seq<nat>,
    room: Option<int>,
) -> int {
    let space = C::space() as int;
    if C::block() != 1 || C::sign_book() {
        space
    } else {
        match room {
            Some(room) => {
                let distinct = dedup(places, places.len() as int).len() as int;
                if distinct <= room && distinct < space {
                    distinct
                } else {
                    space
                }
            },
            None => if places.len() < space {
                places.len() as int
            } else {
                space
            },
        }
    }
}

/// The room of a set that may be there.
pub open spec fn set_room(entries: Option<EntrySet<'_>>) -> Option<int> {
    match entries {
        Some(set) => Some(set.room()),
        None => None,
    }
}

/// Building `n` entries one by one is the work of building `n`.
pub proof fn lemma_build_tally(spec: TableSpec, n: int, block: int, rows: int)
    requires
        n >= 0,
        block >= 0,
        rows >= 0,
    ensures
        build_tally(spec, n, block, rows).plus(build_tally(spec, 1, block, rows)) == build_tally(
            spec,
            n + 1,
            block,
            rows,
        ),
        build_tally(spec, 0, block, rows) == Tally::none(),
{
    assert((n + 1) * block * rows == n * block * rows + 1 * block * rows) by (nonlinear_arith);
    assert(0 <= n * block * rows) by (nonlinear_arith)
        requires
            n >= 0,
            block >= 0,
            rows >= 0,
    ;
    assert(0 <= 1 * block * rows) by (nonlinear_arith)
        requires
            block >= 0,
            rows >= 0,
    ;
    assert(0 * block * rows == 0) by (nonlinear_arith);
}

/// A set that is empty and ready, where there is one.
pub open spec fn set_ready(entries: Option<EntrySet<'_>>) -> bool {
    entries is Some ==> entries->0.wf() && entries->0.empty()
}

/// What one call on a set leaves of it: the same storage, empty and ready.
pub open spec fn set_restored(after: Option<EntrySet<'_>>, before: Option<EntrySet<'_>>) -> bool {
    &&& after is Some <==> before is Some
    &&& set_ready(after)
    &&& after is Some ==> after->0.same_storage(before->0)
}

/// Entry `c` of a slot holds its dot products, where the sequence is exact for
/// it.
pub open spec fn entry_built<E: Element, L: Lane<E>>(
    table: Table<'_, L>,
    spec: TableSpec,
    block: int,
    book: Seq<E>,
    acts: Seq<E>,
    slot: int,
    c: int,
) -> bool {
    entry_suits(spec.sequence, book, block, c) ==> table.ready::<E>(
        slot,
        c,
        entry_dot(book, acts, block, table.rows as int, c),
    )
}

/// An entry that another entry's build did not reach is still built.
proof fn lemma_built_kept<E: Element, L: Lane<E>>(
    after: Table<'_, L>,
    before: Table<'_, L>,
    spec: TableSpec,
    block: int,
    book: Seq<E>,
    acts: Seq<E>,
    slot: int,
    c: int,
    other: int,
)
    requires
        before.wf(),
        0 <= slot < before.depth,
        0 <= c < before.code_space,
        0 <= other < before.code_space,
        c != other,
        entry_built(before, spec, block, book, acts, slot, c),
        after.changed_only(
            before,
            slot * before.slab_len() + other * before.rows,
            slot * before.slab_len() + (other + 1) * before.rows,
        ),
    ensures
        entry_built(after, spec, block, book, acts, slot, c),
{
    if entry_suits(spec.sequence, book, block, c) {
        let rows = before.rows as int;
        let codes = before.codes as int;
        lemma_cell(codes, rows, c, 0);
        lemma_slot(before.slab_len(), before.depth as int, slot, 0);
        if c < other {
            assert((c + 1) * rows <= other * rows) by (nonlinear_arith)
                requires
                    c + 1 <= other,
                    rows > 0,
            ;
        } else {
            assert((other + 1) * rows <= c * rows) by (nonlinear_arith)
                requires
                    other + 1 <= c,
                    rows > 0,
            ;
        }
        assert(before.slab_len() * before.depth == before.depth * before.slab_len())
            by (nonlinear_arith);
        lemma_entry_kept::<E, L>(
            after.words@,
            before.words@,
            codes,
            rows,
            slot,
            c,
            entry_dot(book, acts, block, rows, c),
            slot * before.slab_len() + other * rows,
            slot * before.slab_len() + (other + 1) * rows,
        );
    }
}

/// The entries of one slot lie within its live words.
proof fn lemma_within_live(slab: int, live: int, rows: int, space: int, slot: int, c: int)
    requires
        live == space * rows,
        rows > 0,
        0 <= c < space,
    ensures
        slot * slab <= slot * slab + c * rows,
        slot * slab + (c + 1) * rows <= slot * slab + live,
{
    lemma_cell(space, rows, c, 0);
}

/// Builds one listed entry after another.
fn build_listed<E: Element, L: TableLane<E>, Lg: Ledger>(
    table: &mut Table<'_, L>,
    spec: &TableSpec,
    block: usize,
    book: &[E],
    acts: &[E],
    slot: usize,
    set: &EntrySet<'_>,
    ledger: &mut Lg,
)
    requires
        old(table).wf(),
        slot < old(table).depth,
        old(table).code_space * block <= book@.len(),
        block * old(table).rows <= acts@.len(),
        set.wf(),
        forall|x: int|
            0 <= x < set.items().len() ==> #[trigger] set.items()[x] < old(table).code_space,
    ensures
        final(table).wf(),
        final(final(table).words)@ == final(old(table).words)@,
        final(table).changed_only(
            *old(table),
            slot * old(table).slab_len(),
            slot * old(table).slab_len() + old(table).live(),
        ),
        forall|x: int|
            0 <= x < set.items().len() ==> entry_built(
                *final(table),
                *spec,
                block as int,
                book@,
                acts@,
                slot as int,
                #[trigger] set.items()[x] as int,
            ),
        *final(ledger) == old(ledger).charged(
            build_tally(*spec, set.items().len() as int, block as int, old(table).rows as int),
        ),
{
    let ghost start = *table;
    let ghost begun = *ledger;
    let ghost items = set.items();
    let ghost (slab, rows, live) = (table.slab_len(), table.rows as int, table.live());
    let mut at: usize = 0;
    proof {
        begun.charges_nothing();
        lemma_build_tally(*spec, 0, block as int, rows);
    }
    while at < set.len()
        invariant
            set.wf(),
            items == set.items(),
            items.len() == set.used,
            at <= set.used,
            start == *old(table),
            begun == *old(ledger),
            start.wf(),
            table.wf(),
            final(table.words)@ == final(old(table).words)@,
            slot < start.depth,
            slab == start.slab_len(),
            rows == start.rows,
            live == start.live(),
            start.code_space * block <= book@.len(),
            block * rows <= acts@.len(),
            table.changed_only(start, slot * slab, slot * slab + live),
            forall|x: int| 0 <= x < items.len() ==> #[trigger] items[x] < start.code_space,
            forall|x: int|
                0 <= x < at ==> entry_built(
                    *table,
                    *spec,
                    block as int,
                    book@,
                    acts@,
                    slot as int,
                    #[trigger] items[x] as int,
                ),
            *ledger == begun.charged(build_tally(*spec, at as int, block as int, rows)),
        decreases set.used - at,
    {
        let index: usize = set.index(at);
        let ghost before = *table;
        assert(items[at as int] == index);
        table.build_entry(spec, block, book, acts, slot, index, ledger);
        proof {
            lemma_within_live(slab, live, rows, start.code_space as int, slot as int, index as int);
            assert forall|x: int| 0 <= x < at + 1 implies entry_built(
                *table,
                *spec,
                block as int,
                book@,
                acts@,
                slot as int,
                #[trigger] items[x] as int,
            ) by {
                if items[x] != index {
                    lemma_built_kept(
                        *table,
                        before,
                        *spec,
                        block as int,
                        book@,
                        acts@,
                        slot as int,
                        items[x] as int,
                        index as int,
                    );
                }
            }
            lemma_build_tally(*spec, at as int, block as int, rows);
            begun.charges_compose(
                build_tally(*spec, at as int, block as int, rows),
                build_tally(*spec, 1, block as int, rows),
            );
        }
        at = at + 1;
    }
}

/// Builds the entries of slot `slot` that a block of columns addresses.
pub fn build_source_block<E: Element, Bd: Bound, C: Enumerable<E, Bd>, L: TableLane<E>, Lg: Ledger>(
    table: &mut Table<'_, L>,
    spec: &TableSpec,
    book: &[E],
    acts: &[E],
    slot: usize,
    codes: BlockCodes<'_, E, Bd, C>,
    addressed: usize,
    entries: &mut Option<EntrySet<'_>>,
    ledger: &mut Lg,
)
    requires
        old(table).wf(),
        slot < old(table).depth,
        old(table).code_space == C::space(),
        C::space() * C::block() <= book@.len(),
        C::block() * old(table).rows <= acts@.len(),
        codes.wf(),
        addressed == present_count(seq_of(codes.collapsed), codes.cols as int),
        set_ready(*old(entries)),
    ensures
        final(table).wf(),
        final(final(table).words)@ == final(old(table).words)@,
        final(table).changed_only(
            *old(table),
            slot * old(table).slab_len(),
            slot * old(table).slab_len() + old(table).live(),
        ),
        forall|j: int|
            0 <= j < codes.cols && present(seq_of(codes.collapsed), j) ==> entry_built(
                *final(table),
                *spec,
                C::block() as int,
                book@,
                acts@,
                slot as int,
                #[trigger] codes.place(j) as int,
            ),
        set_restored(*final(entries), *old(entries)),
        *final(ledger) == old(ledger).charged(
            build_tally(
                *spec,
                built_entries::<E, Bd, C>(codes.addressed(codes.cols as int), set_room(*old(entries))),
                C::block() as int,
                old(table).rows as int,
            ),
        ),
{
    let block: usize = C::max_block();
    let ghost start = *table;
    let ghost begun = *ledger;
    let ghost (slab, rows, live) = (table.slab_len(), table.rows as int, table.live());
    let ghost places = codes.addressed(codes.cols as int);
    proof {
        codes.lemma_addressed_len(codes.cols as int);
        assert forall|j: int| 0 <= j < codes.cols implies (#[trigger] codes.place(j))
            < C::space() by {
            codes.lemma_place(j);
        }
    }
    if block != 1 || C::sign_bit_book() {
        table.build(spec, block, book, acts, slot, ledger);
        proof {
            assert forall|j: int| 0 <= j < codes.cols && present(seq_of(codes.collapsed), j) implies
                entry_built(
                *table,
                *spec,
                block as int,
                book@,
                acts@,
                slot as int,
                #[trigger] codes.place(j) as int,
            ) by {
                let c = codes.place(j) as int;
                assert(entry_suits(spec.sequence, book@, block as int, c) ==> table.ready::<E>(
                    slot as int,
                    c,
                    entry_dot(book@, acts@, block as int, rows, c),
                ));
            }
        }
        return;
    }
    if let Some(set) = entries {
        let complete: bool = codes.enter_all(set);
        if complete && set.len() < table.code_space() {
            proof {
                codes.lemma_items_in_book(set.items());
            }
            build_listed(table, spec, block, book, acts, slot, set, ledger);
            proof {
                assert forall|j: int| 0 <= j < codes.cols && present(seq_of(codes.collapsed), j) implies
                    entry_built(
                    *table,
                    *spec,
                    block as int,
                    book@,
                    acts@,
                    slot as int,
                    #[trigger] codes.place(j) as int,
                ) by {
                    codes.lemma_listed(j);
                    let items = set.items();
                    let x = choose|x: int|
                        0 <= x < items.len() && items[x] == codes.place(j) as usize;
                    C::extents_fit();
                    assert(items[x] == codes.place(j));
                }
                assert(set.items().len() == set.used);
            }
            set.clear();
        } else {
            assert(set.items().len() == set.used);
            set.clear();
            table.build(spec, block, book, acts, slot, ledger);
            proof {
                assert forall|j: int| 0 <= j < codes.cols && present(seq_of(codes.collapsed), j) implies
                    entry_built(
                    *table,
                    *spec,
                    block as int,
                    book@,
                    acts@,
                    slot as int,
                    #[trigger] codes.place(j) as int,
                ) by {
                    let c = codes.place(j) as int;
                    assert(entry_suits(spec.sequence, book@, block as int, c) ==> table.ready::<E>(
                        slot as int,
                        c,
                        entry_dot(book@, acts@, block as int, rows, c),
                    ));
                }
            }
        }
        return;
    }
    if addressed < table.code_space() {
        let mut j: usize = 0;
        proof {
            begun.charges_nothing();
            lemma_build_tally(*spec, 0, block as int, rows);
        }
        while j < codes.cols
            invariant
                codes.wf(),
                j <= codes.cols,
                start == *old(table),
                begun == *old(ledger),
                start.wf(),
                table.wf(),
                final(table.words)@ == final(old(table).words)@,
                slot < start.depth,
                slab == start.slab_len(),
                rows == start.rows,
                live == start.live(),
                start.code_space == C::space(),
                block == C::block(),
                start.code_space * block <= book@.len(),
                block * rows <= acts@.len(),
                table.changed_only(start, slot * slab, slot * slab + live),
                forall|x: int|
                    0 <= x < codes.cols ==> (#[trigger] codes.place(x)) < C::space(),
                forall|x: int|
                    0 <= x < j && present(seq_of(codes.collapsed), x) ==> entry_built(
                        *table,
                        *spec,
                        block as int,
                        book@,
                        acts@,
                        slot as int,
                        #[trigger] codes.place(x) as int,
                    ),
                *ledger == begun.charged(
                    build_tally(
                        *spec,
                        codes.addressed(j as int).len() as int,
                        block as int,
                        rows,
                    ),
                ),
            decreases codes.cols - j,
        {
            if codes.is_present(j) {
                let index: usize = codes.place_of(j);
                let ghost before = *table;
                table.build_entry(spec, block, book, acts, slot, index, ledger);
                proof {
                    lemma_within_live(
                        slab,
                        live,
                        rows,
                        start.code_space as int,
                        slot as int,
                        index as int,
                    );
                    assert forall|x: int|
                        0 <= x < j + 1 && present(seq_of(codes.collapsed), x) implies entry_built(
                        *table,
                        *spec,
                        block as int,
                        book@,
                        acts@,
                        slot as int,
                        #[trigger] codes.place(x) as int,
                    ) by {
                        if codes.place(x) != index {
                            lemma_built_kept(
                                *table,
                                before,
                                *spec,
                                block as int,
                                book@,
                                acts@,
                                slot as int,
                                codes.place(x) as int,
                                index as int,
                            );
                        }
                    }
                    let n = codes.addressed(j as int).len() as int;
                    lemma_build_tally(*spec, n, block as int, rows);
                    begun.charges_compose(
                        build_tally(*spec, n, block as int, rows),
                        build_tally(*spec, 1, block as int, rows),
                    );
                }
            }
            j = j + 1;
        }
        return;
    }
    table.build(spec, block, book, acts, slot, ledger);
    proof {
        assert forall|j: int| 0 <= j < codes.cols && present(seq_of(codes.collapsed), j) implies
            entry_built(
            *table,
            *spec,
            block as int,
            book@,
            acts@,
            slot as int,
            #[trigger] codes.place(j) as int,
        ) by {
            let c = codes.place(j) as int;
            assert(entry_suits(spec.sequence, book@, block as int, c) ==> table.ready::<E>(
                slot as int,
                c,
                entry_dot(book@, acts@, block as int, rows, c),
            ));
        }
    }
}

impl<'c, E: Element, Bd: Bound, C: Enumerable<E, Bd>> BlockCodes<'c, E, Bd, C> {
    /// The first occurrences among the places addressed are in the book.
    proof fn lemma_items_in_book(self, items: Seq<usize>)
        requires
            self.wf(),
            items == dedup(
                self.addressed(self.cols as int),
                self.addressed(self.cols as int).len() as int,
            ),
        ensures
            forall|x: int| 0 <= x < items.len() ==> #[trigger] items[x] < C::space(),
    {
        let places = self.addressed(self.cols as int);
        C::extents_fit();
        assert forall|x: int| 0 <= x < items.len() implies #[trigger] items[x] < C::space() by {
            crate::entries::lemma_dedup_from(places, places.len() as int, x);
            let at = choose|at: int|
                0 <= at < places.len() && items[x] == #[trigger] places[at] as usize;
            self.lemma_addressed_in_book(self.cols as int, at);
        }
    }

    proof fn lemma_addressed_in_book(self, n: int, at: int)
        requires
            self.wf(),
            0 <= n <= self.cols,
            0 <= at < self.addressed(n).len(),
        ensures
            self.addressed(n)[at] < C::space(),
        decreases n,
    {
        if n > 0 {
            self.lemma_place(n - 1);
            if at < self.addressed(n - 1).len() {
                self.lemma_addressed_in_book(n - 1, at);
            }
        }
    }

    /// The place of a first column is among the first occurrences.
    proof fn lemma_listed(self, j: int)
        requires
            self.wf(),
            0 <= j < self.cols,
            present(seq_of(self.collapsed), j),
        ensures
            dedup(
                self.addressed(self.cols as int),
                self.addressed(self.cols as int).len() as int,
            ).contains(self.place(j) as usize),
    {
        let places = self.addressed(self.cols as int);
        self.lemma_addressed(self.cols as int, j);
        let x = choose|x: int| 0 <= x < places.len() && #[trigger] places[x] == self.place(j);
        lemma_dedup_contains(places, places.len() as int, x);
    }
}

/// Entry `c` of the first slot holds the products of one coordinate of its
/// book entry, where the sequence is exact for it.
pub open spec fn cell_built<E: Element, L: Lane<E>>(
    table: Table<'_, L>,
    spec: TableSpec,
    source_block: int,
    coordinate: int,
    book: Seq<E>,
    acts: Seq<E>,
    c: int,
) -> bool {
    (spec.sequence == Sequence::SignMask ==> -1 <= book[c * source_block + coordinate].val() <= 1)
        ==> table.ready::<E>(0, c, cell_dot(book, acts, c * source_block + coordinate))
}

/// A cell that another cell's build did not reach is still built.
proof fn lemma_cell_kept<E: Element, L: Lane<E>>(
    after: Table<'_, L>,
    before: Table<'_, L>,
    spec: TableSpec,
    source_block: int,
    coordinate: int,
    book: Seq<E>,
    acts: Seq<E>,
    c: int,
    other: int,
)
    requires
        before.wf(),
        0 <= c < before.code_space,
        0 <= other < before.code_space,
        c != other,
        cell_built(before, spec, source_block, coordinate, book, acts, c),
        after.changed_only(before, other * before.rows, (other + 1) * before.rows),
    ensures
        cell_built(after, spec, source_block, coordinate, book, acts, c),
{
    let rows = before.rows as int;
    let codes = before.codes as int;
    lemma_cell(codes, rows, c, 0);
    lemma_slot(before.slab_len(), before.depth as int, 0, 0);
    assert(0 * before.slab_len() == 0);
    if c < other {
        assert((c + 1) * rows <= other * rows) by (nonlinear_arith)
            requires
                c + 1 <= other,
                rows > 0,
        ;
    } else {
        assert((other + 1) * rows <= c * rows) by (nonlinear_arith)
            requires
                other + 1 <= c,
                rows > 0,
        ;
    }
    if spec.sequence == Sequence::SignMask ==> -1 <= book[c * source_block + coordinate].val()
        <= 1 {
        lemma_entry_kept::<E, L>(
            after.words@,
            before.words@,
            codes,
            rows,
            0,
            c,
            cell_dot(book, acts, c * source_block + coordinate),
            other * rows,
            (other + 1) * rows,
        );
    }
}

/// Builds the cells `next(at)` for `at` below a count, one after another.
fn build_cells<E: Element, L: TableLane<E>, Lg: Ledger>(
    table: &mut Table<'_, L>,
    spec: &TableSpec,
    source_block: usize,
    coordinate: usize,
    book: &[E],
    acts: &[E],
    list: Option<&EntrySet<'_>>,
    count: usize,
    ledger: &mut Lg,
    Ghost(items): Ghost<Seq<usize>>,
)
    requires
        old(table).wf(),
        coordinate < source_block,
        old(table).code_space * source_block <= book@.len(),
        old(table).rows <= acts@.len(),
        items.len() == count,
        list matches Some(set) ==> set.wf() && items == set.items(),
        list is None ==> forall|x: int| 0 <= x < count ==> #[trigger] items[x] == x,
        forall|x: int| 0 <= x < count ==> #[trigger] items[x] < old(table).code_space,
    ensures
        final(table).wf(),
        final(final(table).words)@ == final(old(table).words)@,
        final(table).changed_only(*old(table), 0, old(table).live()),
        forall|x: int|
            0 <= x < count ==> cell_built(
                *final(table),
                *spec,
                source_block as int,
                coordinate as int,
                book@,
                acts@,
                #[trigger] items[x] as int,
            ),
        *final(ledger) == old(ledger).charged(
            build_tally(*spec, count as int, 1, old(table).rows as int),
        ),
{
    let ghost start = *table;
    let ghost begun = *ledger;
    let ghost (rows, live) = (table.rows as int, table.live());
    let mut at: usize = 0;
    proof {
        begun.charges_nothing();
        lemma_build_tally(*spec, 0, 1, rows);
    }
    while at < count
        invariant
            at <= count,
            items.len() == count,
            list matches Some(set) ==> set.wf() && items == set.items(),
            list is None ==> forall|x: int| 0 <= x < count ==> #[trigger] items[x] == x,
            forall|x: int| 0 <= x < count ==> #[trigger] items[x] < start.code_space,
            start == *old(table),
            begun == *old(ledger),
            start.wf(),
            table.wf(),
            final(table.words)@ == final(old(table).words)@,
            rows == start.rows,
            live == start.live(),
            coordinate < source_block,
            start.code_space * source_block <= book@.len(),
            rows <= acts@.len(),
            table.changed_only(start, 0, live),
            forall|x: int|
                0 <= x < at ==> cell_built(
                    *table,
                    *spec,
                    source_block as int,
                    coordinate as int,
                    book@,
                    acts@,
                    #[trigger] items[x] as int,
                ),
            *ledger == begun.charged(build_tally(*spec, at as int, 1, rows)),
        decreases count - at,
    {
        let index: usize = match list {
            Some(set) => set.index(at),
            None => at,
        };
        assert(items[at as int] == index);
        let ghost before = *table;
        table.build_cell(spec, source_block, coordinate, book, acts, index, ledger);
        proof {
            lemma_within_live(0, live, rows, start.code_space as int, 0, index as int);
            assert(0 <= index * rows) by {
                lemma_cell(start.code_space as int, rows, index as int, 0);
            }
            assert forall|x: int| 0 <= x < at + 1 implies cell_built(
                *table,
                *spec,
                source_block as int,
                coordinate as int,
                book@,
                acts@,
                #[trigger] items[x] as int,
            ) by {
                if items[x] != index {
                    lemma_cell_kept(
                        *table,
                        before,
                        *spec,
                        source_block as int,
                        coordinate as int,
                        book@,
                        acts@,
                        items[x] as int,
                        index as int,
                    );
                }
            }
            lemma_build_tally(*spec, at as int, 1, rows);
            begun.charges_compose(
                build_tally(*spec, at as int, 1, rows),
                build_tally(*spec, 1, 1, rows),
            );
        }
        at = at + 1;
    }
}

/// Entries that are built for one coordinate of one block of a block of
/// columns: as for a block of one, whatever the block of the book is.
pub open spec fn built_cells<E: Element, Bd: Bound, C: Enumerable<E, Bd>>(
    places: Seq<nat>,
    room: Option<int>,
) -> int {
    let space = C::space() as int;
    match room {
        Some(room) => {
            let distinct = dedup(places, places.len() as int).len() as int;
            if distinct <= room && distinct < space {
                distinct
            } else {
                space
            }
        },
        None => if places.len() < space {
            places.len() as int
        } else {
            space
        },
    }
}

/// Builds in the first slot the products of one coordinate of the book entries
/// that a block of columns addresses.
pub fn build_source_scalar<
    E: Element,
    Bd: Bound,
    C: Enumerable<E, Bd>,
    L: TableLane<E>,
    Lg: Ledger,
>(
    table: &mut Table<'_, L>,
    spec: &TableSpec,
    coordinate: usize,
    book: &[E],
    acts: &[E],
    codes: BlockCodes<'_, E, Bd, C>,
    addressed: usize,
    entries: &mut Option<EntrySet<'_>>,
    ledger: &mut Lg,
)
    requires
        old(table).wf(),
        old(table).code_space == C::space(),
        coordinate < C::block(),
        C::space() * C::block() <= book@.len(),
        old(table).rows <= acts@.len(),
        codes.wf(),
        addressed == present_count(seq_of(codes.collapsed), codes.cols as int),
        set_ready(*old(entries)),
    ensures
        final(table).wf(),
        final(final(table).words)@ == final(old(table).words)@,
        final(table).changed_only(*old(table), 0, old(table).live()),
        forall|j: int|
            0 <= j < codes.cols && present(seq_of(codes.collapsed), j) ==> cell_built(
                *final(table),
                *spec,
                C::block() as int,
                coordinate as int,
                book@,
                acts@,
                #[trigger] codes.place(j) as int,
            ),
        set_restored(*final(entries), *old(entries)),
        *final(ledger) == old(ledger).charged(
            build_tally(
                *spec,
                built_cells::<E, Bd, C>(codes.addressed(codes.cols as int), set_room(*old(entries))),
                1,
                old(table).rows as int,
            ),
        ),
{
    let block: usize = C::max_block();
    let ghost start = *table;
    let ghost begun = *ledger;
    let ghost (rows, live) = (table.rows as int, table.live());
    let space: usize = table.code_space();
    let ghost all = Seq::new(space as nat, |x: int| x as usize);
    proof {
        codes.lemma_addressed_len(codes.cols as int);
        assert forall|j: int| 0 <= j < codes.cols implies (#[trigger] codes.place(j))
            < C::space() by {
            codes.lemma_place(j);
        }
    }
    if let Some(set) = entries {
        let complete: bool = codes.enter_all(set);
        if complete && set.len() < space {
            proof {
                codes.lemma_items_in_book(set.items());
            }
            let ghost items = set.items();
            let count: usize = set.len();
            build_cells(
                table,
                spec,
                block,
                coordinate,
                book,
                acts,
                Some(set),
                count,
                ledger,
                Ghost(items),
            );
            proof {
                assert forall|j: int| 0 <= j < codes.cols && present(seq_of(codes.collapsed), j) implies
                    cell_built(
                    *table,
                    *spec,
                    block as int,
                    coordinate as int,
                    book@,
                    acts@,
                    #[trigger] codes.place(j) as int,
                ) by {
                    codes.lemma_listed(j);
                    let x = choose|x: int|
                        0 <= x < items.len() && items[x] == codes.place(j) as usize;
                    C::extents_fit();
                    assert(items[x] == codes.place(j));
                }
            }
            set.clear();
            return;
        }
        assert(set.items().len() == set.used);
        set.clear();
    } else if addressed < space {
        let mut j: usize = 0;
        proof {
            begun.charges_nothing();
            lemma_build_tally(*spec, 0, 1, rows);
        }
        while j < codes.cols
            invariant
                codes.wf(),
                j <= codes.cols,
                start == *old(table),
                begun == *old(ledger),
                start.wf(),
                table.wf(),
                final(table.words)@ == final(old(table).words)@,
                rows == start.rows,
                live == start.live(),
                start.code_space == C::space(),
                block == C::block(),
                coordinate < block,
                start.code_space * block <= book@.len(),
                rows <= acts@.len(),
                table.changed_only(start, 0, live),
                forall|x: int|
                    0 <= x < codes.cols ==> (#[trigger] codes.place(x)) < C::space(),
                forall|x: int|
                    0 <= x < j && present(seq_of(codes.collapsed), x) ==> cell_built(
                        *table,
                        *spec,
                        block as int,
                        coordinate as int,
                        book@,
                        acts@,
                        #[trigger] codes.place(x) as int,
                    ),
                *ledger == begun.charged(
                    build_tally(*spec, codes.addressed(j as int).len() as int, 1, rows),
                ),
            decreases codes.cols - j,
        {
            if codes.is_present(j) {
                let index: usize = codes.place_of(j);
                let ghost before = *table;
                table.build_cell(spec, block, coordinate, book, acts, index, ledger);
                proof {
                    lemma_within_live(0, live, rows, start.code_space as int, 0, index as int);
                    lemma_cell(start.code_space as int, rows, index as int, 0);
                    assert forall|x: int|
                        0 <= x < j + 1 && present(seq_of(codes.collapsed), x) implies cell_built(
                        *table,
                        *spec,
                        block as int,
                        coordinate as int,
                        book@,
                        acts@,
                        #[trigger] codes.place(x) as int,
                    ) by {
                        if codes.place(x) != index {
                            lemma_cell_kept(
                                *table,
                                before,
                                *spec,
                                block as int,
                                coordinate as int,
                                book@,
                                acts@,
                                codes.place(x) as int,
                                index as int,
                            );
                        }
                    }
                    let n = codes.addressed(j as int).len() as int;
                    lemma_build_tally(*spec, n, 1, rows);
                    begun.charges_compose(
                        build_tally(*spec, n, 1, rows),
                        build_tally(*spec, 1, 1, rows),
                    );
                }
            }
            j = j + 1;
        }
        return;
    }
    build_cells(table, spec, block, coordinate, book, acts, None, space, ledger, Ghost(all));
    proof {
        assert forall|j: int| 0 <= j < codes.cols && present(seq_of(codes.collapsed), j) implies cell_built(
            *table,
            *spec,
            block as int,
            coordinate as int,
            book@,
            acts@,
            #[trigger] codes.place(j) as int,
        ) by {
            assert(all[codes.place(j) as int] == codes.place(j));
        }
    }
}

} // verus!
