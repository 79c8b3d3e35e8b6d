//! Table sequences written for 128-bit registers: how a slot is filled and how a
//! group of columns is gathered.
use crate::arith::{cong, lemma_cong_add, lemma_cong_refl, lemma_cong_trans, sum};
use crate::codec::IndexStream;
use crate::element::{lemma_wrapped, Element};
use crate::isa::nibble::i8_product;
use crate::lane::Lane;
use crate::sequence::{build_terms, built, gather_entry, lemma_cell, ByProduct, Sequence, Term};
use vstd::prelude::*;

verus! {

/// Terms read out of half-octet tables.
pub struct ByLookup;

impl Term<i8, i32> for ByLookup {
    open spec fn sequence() -> Sequence {
        Sequence::Lookup
    }

    fn term(word: i32, act: i8, weight: i8) -> (r: i32) {
        let product: i32 = i8_product(act, weight);
        let r: i32 = word.wrapping_add(product);
        proof {
            lemma_wrapped(word + product, r as int, 0x1_0000_0000);
        }
        r
    }
}

/// Terms kept, dropped or negated by two masks of the weight.
pub struct BySign;

/// The activation under the masks of a weight that is a sign or zero.
fn signed_term(act: i8, weight: i8) -> (r: i16)
    ensures
        -1 <= weight <= 1 ==> r == act * weight,
{
    let x: i16 = act as i16;
    let sign: i16 = (weight >> 7) as i16;
    let keep: i16 = if weight != 0 {
        -1
    } else {
        0
    };
    assert(weight < 0 ==> weight >> 7 == -1i8) by (bit_vector);
    assert(weight >= 0 ==> weight >> 7 == 0i8) by (bit_vector);
    assert(x & -1i16 == x) by (bit_vector);
    assert(x & 0i16 == 0i16) by (bit_vector);
    assert(x ^ 0i16 == x) by (bit_vector);
    assert(0i16 ^ 0i16 == 0i16) by (bit_vector);
    assert(-128i16 <= x && x <= 127i16 ==> (x ^ -1i16) == -1i16 - x) by (bit_vector);
    let masked: i16 = (x & keep) ^ sign;
    proof {
        assert(act * 1 == act && act * 0 == 0 && act * (-1) == -act) by (nonlinear_arith);
    }
    masked.wrapping_sub(sign)
}

impl Term<i8, i32> for BySign {
    open spec fn sequence() -> Sequence {
        Sequence::SignMask
    }

    fn term(word: i32, act: i8, weight: i8) -> (r: i32) {
        let product: i32 = signed_term(act, weight) as i32;
        let r: i32 = word.wrapping_add(product);
        proof {
            lemma_wrapped(word + product, r as int, 0x1_0000_0000);
        }
        r
    }
}

/// Fills a slot of 64-bit lanes, every product widened before it is added.
pub fn neon_build16(
    rows: usize,
    space: usize,
    block: usize,
    book: &[i16],
    acts: &[i16],
    out: &mut [i64],
)
    requires
        space * block <= book@.len(),
        block * rows <= acts@.len(),
        space * rows == old(out)@.len(),
    ensures
        final(out)@.len() == old(out)@.len(),
        built::<i16, i64>(
            Sequence::Product,
            final(out)@,
            space as int,
            block as int,
            rows as int,
            book@,
            acts@,
        ),
{
    build_terms::<i16, i64, ByProduct>(space, block, rows, book, acts, out)
}

/// Fills a slot of 32-bit lanes, every product looked up.
pub fn neon_table_build_lookup(
    rows: usize,
    space: usize,
    block: usize,
    book: &[i8],
    acts: &[i8],
    out: &mut [i32],
)
    requires
        space * block <= book@.len(),
        block * rows <= acts@.len(),
        space * rows == old(out)@.len(),
    ensures
        final(out)@.len() == old(out)@.len(),
        built::<i8, i32>(
            Sequence::Lookup,
            final(out)@,
            space as int,
            block as int,
            rows as int,
            book@,
            acts@,
        ),
{
    build_terms::<i8, i32, ByLookup>(space, block, rows, book, acts, out)
}

/// Fills a slot of 32-bit lanes from signs: nothing is multiplied.
pub fn neon_table_build_bound1(
    rows: usize,
    space: usize,
    block: usize,
    book: &[i8],
    acts: &[i8],
    out: &mut [i32],
)
    requires
        space * block <= book@.len(),
        block * rows <= acts@.len(),
        space * rows == old(out)@.len(),
    ensures
        final(out)@.len() == old(out)@.len(),
        built::<i8, i32>(
            Sequence::SignMask,
            final(out)@,
            space as int,
            block as int,
            rows as int,
            book@,
            acts@,
        ),
{
    build_terms::<i8, i32, BySign>(space, block, rows, book, acts, out)
}

/// Lanes of a column after `depth` slots: entry `base(s)` of slot `s` is added.
pub open spec fn gathered_column<E: Element, L: Lane<E>>(
    before: Seq<L>,
    after: Seq<L>,
    to: int,
    rows: int,
    stack: Seq<L>,
    slab: int,
    base: spec_fn(int) -> int,
    depth: int,
) -> bool {
    forall|v: int|
        #![trigger after[to + v]]
        0 <= v < rows ==> cong(
            after[to + v].word(),
            before[to + v].word() + sum(|s: int| stack[s * slab + base(s) + v].word(), 0, depth),
            L::extent(),
        )
}

/// Adds one entry to a column that has had `s` slots.
proof fn lemma_gathered<E: Element, L: Lane<E>>(
    begun: Seq<L>,
    before: Seq<L>,
    after: Seq<L>,
    to: int,
    rows: int,
    stack: Seq<L>,
    slab: int,
    base: spec_fn(int) -> int,
    s: int,
)
    requires
        s >= 0,
        gathered_column::<E, L>(begun, before, to, rows, stack, slab, base, s),
        forall|v: int|
            #![trigger after[to + v]]
            0 <= v < rows ==> cong(
                after[to + v].word(),
                before[to + v].word() + stack[s * slab + base(s) + v].word(),
                L::extent(),
            ),
    ensures
        gathered_column::<E, L>(begun, after, to, rows, stack, slab, base, s + 1),
{
    assert forall|v: int|
        #![trigger after[to + v]]
        0 <= v < rows implies cong(
        after[to + v].word(),
        begun[to + v].word() + sum(|x: int| stack[x * slab + base(x) + v].word(), 0, s + 1),
        L::extent(),
    ) by {
        L::laws();
        let m = L::extent();
        let f = |x: int| stack[x * slab + base(x) + v].word();
        let (was, more) = (before[to + v].word(), f(s));
        lemma_cong_refl(more, m);
        lemma_cong_add(was, begun[to + v].word() + sum(f, 0, s), more, more, m);
        lemma_cong_trans(
            after[to + v].word(),
            was + more,
            begun[to + v].word() + sum(f, 0, s) + more,
            m,
        );
        assert(sum(f, 0, s + 1) == sum(f, 0, s) + f(s));
    }
}

/// The offset of an entry, held inside the slab and to the start of an entry.
pub open spec fn masked(x: u32, slab: u32, rows: u32) -> u32 {
    x & (((slab - 1) as u32) & !((rows - 1) as u32))
}

/// A positive power of two.
pub open spec fn single_bit(x: u32) -> bool {
    x > 0 && x & ((x - 1) as u32) == 0
}

/// Every offset leads to a whole entry inside the slab, and one that already
/// does is kept.
pub proof fn lemma_masked(x: u32, slab: u32, rows: u32)
    requires
        single_bit(slab),
        single_bit(rows),
        rows <= slab,
    ensures
        masked(x, slab, rows) + rows <= slab,
        x < slab && x & ((rows - 1) as u32) == 0 ==> masked(x, slab, rows) == x,
{
    let y = masked(x, slab, rows);
    assert(y == x & (((slab - 1) as u32) & !((rows - 1) as u32)) && slab > 0 && rows > 0 && slab
        & ((slab - 1) as u32) == 0 && rows & ((rows - 1) as u32) == 0 && rows <= slab ==> y
        <= slab - rows) by (bit_vector);
    assert(x < slab && slab > 0 && rows > 0 && slab & ((slab - 1) as u32) == 0 && x & ((rows
        - 1) as u32) == 0
            ==> x & (((slab - 1) as u32) & !((rows - 1) as u32)) == x) by (bit_vector);
}

/// One column over a run of slots, by offsets into each.
fn gather_masked<E: Element, L: Lane<E>>(
    rows: usize,
    group: usize,
    u: usize,
    depth: usize,
    slab: usize,
    stack: &[L],
    off: &[u32],
    lane: &mut [L],
)
    requires
        u < group,
        rows <= slab <= u32::MAX,
        single_bit(slab as u32),
        single_bit(rows as u32),
        depth * slab <= stack@.len(),
        depth * group <= off@.len(),
        group * rows <= old(lane)@.len(),
    ensures
        final(lane)@.len() == old(lane)@.len(),
        forall|x: int|
            0 <= x < old(lane)@.len() && !(u * rows <= x < u * rows + rows)
                ==> #[trigger] final(lane)@[x] == old(lane)@[x],
        gathered_column::<E, L>(
            old(lane)@,
            final(lane)@,
            u * rows,
            rows as int,
            stack@,
            slab as int,
            |s: int| masked(off@[s * group + u], slab as u32, rows as u32) as int,
            depth as int,
        ),
{
    let mask: u32 = (slab as u32 - 1) & !(rows as u32 - 1);
    let ghost base = |s: int| masked(off@[s * group + u], slab as u32, rows as u32) as int;
    let mut s: usize = 0;
    proof {
        assert(stack.len() == stack@.len());
        assert(off.len() == off@.len());
        assert(lane.len() == lane@.len());
        lemma_cell(group as int, rows as int, u as int, 0);
        L::laws();
        assert forall|v: int|
            #![trigger lane@[u * rows + v]]
            0 <= v < rows implies cong(
            lane@[u * rows + v].word(),
            lane@[u * rows + v].word() + sum(
                |x: int| stack@[x * slab + base(x) + v].word(),
                0,
                0,
            ),
            L::extent(),
        ) by {
            lemma_cong_refl(lane@[u * rows + v].word(), L::extent());
        }
    }
    while s < depth
        invariant
            u < group,
            0 < rows <= slab,
            slab <= u32::MAX,
            single_bit(slab as u32),
            single_bit(rows as u32),
            mask == ((slab as u32 - 1) as u32) & !((rows as u32 - 1) as u32),
            depth * slab <= stack@.len() <= usize::MAX,
            depth * group <= off@.len() <= usize::MAX,
            0 <= u * rows,
            u * rows + rows <= lane@.len() <= usize::MAX,
            lane@.len() == old(lane)@.len(),
            base == (|s: int| masked(off@[s * group + u], slab as u32, rows as u32) as int),
            0 <= s <= depth,
            forall|x: int|
                0 <= x < old(lane)@.len() && !(u * rows <= x < u * rows + rows)
                    ==> #[trigger] lane@[x] == old(lane)@[x],
            gathered_column::<E, L>(
                old(lane)@,
                lane@,
                u * rows,
                rows as int,
                stack@,
                slab as int,
                base,
                s as int,
            ),
        decreases depth - s,
    {
        proof {
            lemma_cell(depth as int, group as int, s as int, u as int);
            lemma_cell(depth as int, slab as int, s as int, 0);
            lemma_masked(off@[s * group + u], slab as u32, rows as u32);
        }
        let ghost before = lane@;
        let entry: usize = (off[s * group + u] & mask) as usize;
        gather_entry::<E, L>(stack, s * slab + entry, rows, lane, u * rows);
        proof {
            assert(entry == base(s as int));
            lemma_gathered::<E, L>(
                old(lane)@,
                before,
                lane@,
                u * rows,
                rows as int,
                stack@,
                slab as int,
                base,
                s as int,
            );
        }
        s += 1;
    }
}

/// Column `u` of a group after `depth` slots, by masked offsets.
pub open spec fn masked_column<E: Element, L: Lane<E>>(
    before: Seq<L>,
    after: Seq<L>,
    u: int,
    rows: usize,
    group: int,
    stack: Seq<L>,
    slab: usize,
    off: Seq<u32>,
    depth: int,
) -> bool {
    gathered_column::<E, L>(
        before,
        after,
        u * rows,
        rows as int,
        stack,
        slab as int,
        |s: int| masked(off[s * group + u], slab as u32, rows as u32) as int,
        depth,
    )
}

/// A group of columns over a run of slots, by offsets into each slot.
pub fn neon_gather<E: Element, L: Lane<E>>(
    rows: usize,
    group: usize,
    depth: usize,
    slab: usize,
    stack: &[L],
    off: &[u32],
    lane: &mut [L],
)
    requires
        rows <= slab <= u32::MAX,
        single_bit(slab as u32),
        single_bit(rows as u32),
        depth * slab <= stack@.len(),
        depth * group <= off@.len(),
        group * rows <= old(lane)@.len(),
    ensures
        final(lane)@.len() == old(lane)@.len(),
        forall|u: int|
            0 <= u < group ==> #[trigger] masked_column::<E, L>(
                old(lane)@,
                final(lane)@,
                u,
                rows,
                group as int,
                stack@,
                slab,
                off@,
                depth as int,
            ),
        forall|x: int|
            group * rows <= x < old(lane)@.len() ==> #[trigger] final(lane)@[x] == old(lane)@[x],
{
    let mut u: usize = 0;
    while u < group
        invariant
            slab <= u32::MAX,
            single_bit(slab as u32),
            single_bit(rows as u32),
            rows <= slab,
            depth * slab <= stack@.len(),
            depth * group <= off@.len(),
            group * rows <= lane@.len(),
            lane@.len() == old(lane)@.len(),
            0 <= u <= group,
            forall|x: int| u * rows <= x < old(lane)@.len()
                ==> #[trigger] lane@[x] == old(lane)@[x],
            forall|y: int|
                0 <= y < u ==> #[trigger] masked_column::<E, L>(
                    old(lane)@,
                    lane@,
                    y,
                    rows,
                    group as int,
                    stack@,
                    slab,
                    off@,
                    depth as int,
                ),
        decreases group - u,
    {
        let ghost before = lane@;
        gather_masked::<E, L>(rows, group, u, depth, slab, stack, off, lane);
        proof {
            let begun = old(lane)@;
            assert((u + 1) * rows == u * rows + rows) by (nonlinear_arith);
            lemma_cell(group as int, rows as int, u as int, 0);
            assert forall|y: int| 0 <= y < u + 1 implies #[trigger] masked_column::<E, L>(
                begun,
                lane@,
                y,
                rows,
                group as int,
                stack@,
                slab,
                off@,
                depth as int,
            ) by {
                let base = |s: int| masked(off@[s * group + y], slab as u32, rows as u32) as int;
                lemma_cell(u + 1, rows as int, y, 0);
                if y < u {
                    lemma_cell(u as int, rows as int, y, 0);
                    assert(masked_column::<E, L>(
                        begun,
                        before,
                        y,
                        rows,
                        group as int,
                        stack@,
                        slab,
                        off@,
                        depth as int,
                    ));
                    lemma_column_kept::<E, L>(
                        begun,
                        before,
                        lane@,
                        y * rows,
                        rows as int,
                        stack@,
                        slab as int,
                        base,
                        depth as int,
                        u * rows,
                    );
                } else {
                    lemma_column_begun::<E, L>(
                        begun,
                        before,
                        lane@,
                        y * rows,
                        rows as int,
                        stack@,
                        slab as int,
                        base,
                        depth as int,
                    );
                }
            }
        }
        u += 1;
    }
}

/// A column that lies before `from` keeps what it has.
proof fn lemma_column_kept<E: Element, L: Lane<E>>(
    begun: Seq<L>,
    before: Seq<L>,
    after: Seq<L>,
    to: int,
    rows: int,
    stack: Seq<L>,
    slab: int,
    base: spec_fn(int) -> int,
    depth: int,
    from: int,
)
    requires
        0 <= to,
        to + rows <= from <= before.len(),
        before.len() == after.len(),
        gathered_column::<E, L>(begun, before, to, rows, stack, slab, base, depth),
        forall|x: int|
            0 <= x < before.len() && !(from <= x < from + rows) ==> #[trigger] after[x]
                == before[x],
    ensures
        gathered_column::<E, L>(begun, after, to, rows, stack, slab, base, depth),
{
    assert forall|v: int|
        #![trigger after[to + v]]
        0 <= v < rows implies cong(
        after[to + v].word(),
        begun[to + v].word() + sum(|s: int| stack[s * slab + base(s) + v].word(), 0, depth),
        L::extent(),
    ) by {
        assert(after[to + v] == before[to + v]);
    }
}

/// A column that nothing had been added to before has what was added now.
proof fn lemma_column_begun<E: Element, L: Lane<E>>(
    begun: Seq<L>,
    before: Seq<L>,
    after: Seq<L>,
    to: int,
    rows: int,
    stack: Seq<L>,
    slab: int,
    base: spec_fn(int) -> int,
    depth: int,
)
    requires
        0 <= to,
        to + rows <= before.len(),
        before.len() == begun.len(),
        gathered_column::<E, L>(before, after, to, rows, stack, slab, base, depth),
        forall|x: int| to <= x < begun.len() ==> #[trigger] before[x] == begun[x],
    ensures
        gathered_column::<E, L>(begun, after, to, rows, stack, slab, base, depth),
{
    assert forall|v: int|
        #![trigger after[to + v]]
        0 <= v < rows implies cong(
        after[to + v].word(),
        begun[to + v].word() + sum(|s: int| stack[s * slab + base(s) + v].word(), 0, depth),
        L::extent(),
    ) by {
        assert(before[to + v] == begun[to + v]);
    }
}

/// Column `u` of a group after `depth` slots, by codes: column `u` of the group
/// has its codes from `u * stride` on, and a code names an entry of the slab.
pub open spec fn coded_column<E: Element, L: Lane<E>>(
    before: Seq<L>,
    after: Seq<L>,
    u: int,
    rows: int,
    stack: Seq<L>,
    slab: int,
    codes: IndexStream<'_>,
    stride: int,
    depth: int,
) -> bool {
    gathered_column::<E, L>(
        before,
        after,
        u * rows,
        rows,
        stack,
        slab,
        |s: int| (codes.at(u * stride + s) % (slab / rows)) * rows,
        depth,
    )
}

/// The code at a place of a stream.
fn code_at(codes: &IndexStream<'_>, x: usize) -> (r: usize)
    requires
        x < codes.len(),
    ensures
        r == codes.at(x as int),
{
    match codes {
        IndexStream::U8(s) => s[x] as usize,
        IndexStream::U16(s) => s[x] as usize,
    }
}

/// One column over a run of slots, by its codes.
fn gather_coded<E: Element, L: Lane<E>>(
    rows: usize,
    u: usize,
    depth: usize,
    slab: usize,
    stack: &[L],
    codes: &IndexStream<'_>,
    stride: usize,
    lane: &mut [L],
)
    requires
        rows > 0,
        slab > 0,
        slab % rows == 0,
        depth * slab <= stack@.len(),
        u * stride + depth <= codes.len(),
        codes.len() <= usize::MAX,
        u * rows + rows <= old(lane)@.len(),
    ensures
        final(lane)@.len() == old(lane)@.len(),
        forall|x: int|
            0 <= x < old(lane)@.len() && !(u * rows <= x < u * rows + rows)
                ==> #[trigger] final(lane)@[x] == old(lane)@[x],
        coded_column::<E, L>(
            old(lane)@,
            final(lane)@,
            u as int,
            rows as int,
            stack@,
            slab as int,
            *codes,
            stride as int,
            depth as int,
        ),
{
    let entries: usize = slab / rows;
    let ghost base = |s: int| (codes.at(u * stride + s) % (slab as int / rows as int)) * rows;
    let mut s: usize = 0;
    proof {
        assert(stack.len() == stack@.len());
        assert(lane.len() == lane@.len());
        vstd::arithmetic::div_mod::lemma_fundamental_div_mod(slab as int, rows as int);
        assert(entries > 0 && entries * rows == slab && rows <= slab) by (nonlinear_arith)
            requires
                slab == rows * entries,
                slab > 0,
                rows > 0,
        ;
        assert(0 <= u * stride && 0 <= u * rows) by (nonlinear_arith);
        L::laws();
        assert forall|v: int|
            #![trigger lane@[u * rows + v]]
            0 <= v < rows implies cong(
            lane@[u * rows + v].word(),
            lane@[u * rows + v].word() + sum(
                |x: int| stack@[x * slab + base(x) + v].word(),
                0,
                0,
            ),
            L::extent(),
        ) by {
            lemma_cong_refl(lane@[u * rows + v].word(), L::extent());
        }
    }
    while s < depth
        invariant
            0 < rows <= slab,
            entries == slab as int / rows as int,
            entries > 0,
            entries * rows == slab,
            depth * slab <= stack@.len() <= usize::MAX,
            0 <= u * stride,
            u * stride + depth <= codes.len() <= usize::MAX,
            0 <= u * rows,
            u * rows + rows <= lane@.len() <= usize::MAX,
            lane@.len() == old(lane)@.len(),
            base == (|s: int|
                (codes.at(u * stride + s) % (slab as int / rows as int)) * rows),
            0 <= s <= depth,
            forall|x: int|
                0 <= x < old(lane)@.len() && !(u * rows <= x < u * rows + rows)
                    ==> #[trigger] lane@[x] == old(lane)@[x],
            gathered_column::<E, L>(
                old(lane)@,
                lane@,
                u * rows,
                rows as int,
                stack@,
                slab as int,
                base,
                s as int,
            ),
        decreases depth - s,
    {
        let code: usize = code_at(codes, u * stride + s);
        proof {
            vstd::arithmetic::div_mod::lemma_mod_bound(code as int, entries as int);
            lemma_cell(entries as int, rows as int, code as int % entries as int, 0);
            lemma_cell(depth as int, slab as int, s as int, 0);
        }
        let ghost before = lane@;
        let entry: usize = (code % entries) * rows;
        gather_entry::<E, L>(stack, s * slab + entry, rows, lane, u * rows);
        proof {
            assert(entry == base(s as int));
            lemma_gathered::<E, L>(
                old(lane)@,
                before,
                lane@,
                u * rows,
                rows as int,
                stack@,
                slab as int,
                base,
                s as int,
            );
        }
        s += 1;
    }
}

/// A group of columns over a run of slots, by codes.
pub fn neon_codes<E: Element, L: Lane<E>>(
    rows: usize,
    group: usize,
    depth: usize,
    slab: usize,
    stack: &[L],
    codes: &IndexStream<'_>,
    stride: usize,
    lane: &mut [L],
)
    requires
        rows > 0,
        slab > 0,
        slab % rows == 0,
        depth * slab <= stack@.len(),
        group > 0 ==> (group - 1) * stride + depth <= codes.len(),
        codes.len() <= usize::MAX,
        group * rows <= old(lane)@.len(),
    ensures
        final(lane)@.len() == old(lane)@.len(),
        forall|u: int|
            0 <= u < group ==> #[trigger] coded_column::<E, L>(
                old(lane)@,
                final(lane)@,
                u,
                rows as int,
                stack@,
                slab as int,
                *codes,
                stride as int,
                depth as int,
            ),
        forall|x: int|
            group * rows <= x < old(lane)@.len() ==> #[trigger] final(lane)@[x] == old(lane)@[x],
{
    let mut u: usize = 0;
    while u < group
        invariant
            rows > 0,
            slab > 0,
            slab % rows == 0,
            depth * slab <= stack@.len(),
            group > 0 ==> (group - 1) * stride + depth <= codes.len(),
            codes.len() <= usize::MAX,
            group * rows <= lane@.len(),
            lane@.len() == old(lane)@.len(),
            0 <= u <= group,
            forall|x: int| u * rows <= x < old(lane)@.len()
                ==> #[trigger] lane@[x] == old(lane)@[x],
            forall|y: int|
                0 <= y < u ==> #[trigger] coded_column::<E, L>(
                    old(lane)@,
                    lane@,
                    y,
                    rows as int,
                    stack@,
                    slab as int,
                    *codes,
                    stride as int,
                    depth as int,
                ),
        decreases group - u,
    {
        let ghost before = lane@;
        proof {
            let (ui, gi, si) = (u as int, group as int, stride as int);
            assert(ui * si <= (gi - 1) * si) by (nonlinear_arith)
                requires
                    0 <= ui < gi,
                    0 <= si,
            ;
            lemma_cell(group as int, rows as int, u as int, 0);
        }
        gather_coded::<E, L>(rows, u, depth, slab, stack, codes, stride, lane);
        proof {
            let begun = old(lane)@;
            assert forall|y: int| 0 <= y < u + 1 implies #[trigger] coded_column::<E, L>(
                begun,
                lane@,
                y,
                rows as int,
                stack@,
                slab as int,
                *codes,
                stride as int,
                depth as int,
            ) by {
                let base = |s: int|
                    (codes.at(y * stride + s) % (slab as int / rows as int)) * rows;
                lemma_cell(u + 1, rows as int, y, 0);
                if y < u {
                    lemma_cell(u as int, rows as int, y, 0);
                    assert(coded_column::<E, L>(
                        begun,
                        before,
                        y,
                        rows as int,
                        stack@,
                        slab as int,
                        *codes,
                        stride as int,
                        depth as int,
                    ));
                    lemma_column_kept::<E, L>(
                        begun,
                        before,
                        lane@,
                        y * rows,
                        rows as int,
                        stack@,
                        slab as int,
                        base,
                        depth as int,
                        u * rows,
                    );
                } else {
                    lemma_column_begun::<E, L>(
                        begun,
                        before,
                        lane@,
                        y * rows,
                        rows as int,
                        stack@,
                        slab as int,
                        base,
                        depth as int,
                    );
                }
            }
        }
        u += 1;
    }
}

} // verus!
