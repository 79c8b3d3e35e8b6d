//! Table sequences: what a build and a gather compute, and the declarations
//! that selection reads.
use crate::arith::{cong, lemma_cong_add, lemma_cong_refl, lemma_cong_trans, sum};
use crate::element::Element;
use crate::isa::tables::{neon_table_build_bound1, neon_table_build_lookup};
use crate::lane::Lane;
use vstd::prelude::*;

verus! {

/// A machine family that a caller may ask for.
#[derive(Clone, Copy, PartialEq, Eq, Debug, Structural)]
pub enum Backend {
    /// The best sequence the host has.
    Auto,
    /// The reference sequences.
    Portable,
    /// 256-bit registers.
    Avx2,
    /// 512-bit registers with the integer dot product.
    Avx512Vnni,
    /// 128-bit registers.
    Neon,
    /// 128-bit registers with the integer dot product.
    NeonDotprod,
}

/// What the host machine has.
#[derive(Clone, Copy, PartialEq, Eq, Debug, Structural)]
pub struct Host {
    pub avx2: bool,
    pub avx512f: bool,
    pub avx512bw: bool,
    pub avx512vnni: bool,
    pub neon: bool,
    pub dotprod: bool,
}

impl Host {
    /// A host with nothing beyond the reference sequences.
    pub fn plain() -> (r: Self)
        ensures
            r == (Host {
                avx2: false,
                avx512f: false,
                avx512bw: false,
                avx512vnni: false,
                neon: false,
                dotprod: false,
            }),
    {
        Host {
            avx2: false,
            avx512f: false,
            avx512bw: false,
            avx512vnni: false,
            neon: false,
            dotprod: false,
        }
    }
}

/// How a build goes about its products.
#[derive(Clone, Copy, PartialEq, Eq, Debug, Structural)]
pub enum Sequence {
    /// One product per term.
    Product,
    /// Products read from a sixteen-entry nibble table.
    Lookup,
    /// Terms negated, dropped or kept by the sign of the book element.
    SignMask,
}

/// A table sequence, as selection sees it.
#[derive(Clone, Copy, PartialEq, Eq, Debug, Structural)]
pub struct TableSpec {
    /// The machine family it is written for.
    pub backend: Backend,
    /// Rows of its tile.
    pub rows: usize,
    /// Columns it gathers together.
    pub group: usize,
    /// Block steps that one activation word carries.
    pub k_group: usize,
    /// Lanes that one addition covers.
    pub lanes_per_add: usize,
    /// Products that one build step covers.
    pub build_products_per_step: usize,
    /// The largest magnitude a lane of it holds.
    pub lane_cap: u128,
    /// The largest magnitude of a book element it is exact for.
    pub max_bound: u128,
    /// The build multiplies; otherwise it adds.
    pub build_multiplies: bool,
    /// How the build goes about its products.
    pub sequence: Sequence,
}

/// The sequence that needs nothing of the machine.
pub open spec fn portable_of(
    rows: usize,
    group: usize,
    lane_cap: u128,
    sequence: Sequence,
) -> TableSpec {
    TableSpec {
        backend: Backend::Portable,
        rows,
        group,
        k_group: 1,
        lanes_per_add: 1,
        build_products_per_step: 1,
        lane_cap,
        max_bound: if sequence == Sequence::SignMask {
            1
        } else {
            u128::MAX
        },
        build_multiplies: sequence == Sequence::Product,
        sequence,
    }
}

/// The sequence that needs nothing of the machine.
pub fn portable_table(rows: usize, group: usize, lane_cap: u128, sequence: Sequence) -> (r:
    TableSpec)
    ensures
        r == portable_of(rows, group, lane_cap, sequence),
{
    TableSpec {
        backend: Backend::Portable,
        rows,
        group,
        k_group: 1,
        lanes_per_add: 1,
        build_products_per_step: 1,
        lane_cap,
        max_bound: if sequence == Sequence::SignMask {
            1
        } else {
            u128::MAX
        },
        build_multiplies: sequence == Sequence::Product,
        sequence,
    }
}

/// A sequence that the caller asked for and that is exact at the bound.
pub open spec fn eligible(spec: Option<TableSpec>, backend: Backend, bound: nat) -> bool {
    spec matches Some(s) && (backend == Backend::Auto || backend == s.backend) && bound
        <= s.max_bound
}

/// The first eligible sequence of a list, or else the reference.
pub open spec fn chosen(
    first: Option<TableSpec>,
    second: Option<TableSpec>,
    reference: TableSpec,
    backend: Backend,
    bound: nat,
) -> TableSpec {
    if eligible(first, backend, bound) {
        first->0
    } else if eligible(second, backend, bound) {
        second->0
    } else {
        reference
    }
}

/// The first eligible sequence of a list, or else the reference.
pub fn choose_table(
    first: Option<TableSpec>,
    second: Option<TableSpec>,
    reference: TableSpec,
    backend: Backend,
    bound: u128,
) -> (r: TableSpec)
    ensures
        r == chosen(first, second, reference, backend, bound as nat),
{
    if let Some(spec) = first {
        if (backend == Backend::Auto || backend == spec.backend) && bound <= spec.max_bound {
            return spec;
        }
    }
    if let Some(spec) = second {
        if (backend == Backend::Auto || backend == spec.backend) && bound <= spec.max_bound {
            return spec;
        }
    }
    reference
}

/// The entry of a table: the dot product of book entry `c` with column `i` of
/// a tile of activations.
pub open spec fn entry_sum<E: Element>(
    book: Seq<E>,
    acts: Seq<E>,
    block: int,
    rows: int,
    c: int,
    i: int,
) -> int {
    sum(|t: int| acts[t * rows + i].val() * book[c * block + t].val(), 0, block)
}

/// A book entry that a sequence is exact for.
pub open spec fn entry_suits<E: Element>(
    sequence: Sequence,
    book: Seq<E>,
    block: int,
    c: int,
) -> bool {
    sequence == Sequence::SignMask ==> forall|t: int|
        0 <= t < block ==> -1 <= (#[trigger] book[c * block + t]).val() <= 1
}

/// The table words of `codes` entries are the entries' dot products.
pub open spec fn built<E: Element, L: Lane<E>>(
    sequence: Sequence,
    out: Seq<L>,
    codes: int,
    block: int,
    rows: int,
    book: Seq<E>,
    acts: Seq<E>,
) -> bool {
    forall|c: int, i: int|
        #![trigger out[c * rows + i]]
        0 <= c < codes && 0 <= i < rows && entry_suits(sequence, book, block, c) ==> cong(
            out[c * rows + i].word(),
            entry_sum(book, acts, block, rows, c, i),
            L::extent(),
        )
}

/// Cell `(c, i)` of a table of `codes` by `rows` lies inside it.
pub proof fn lemma_cell(codes: int, rows: int, c: int, i: int)
    requires
        0 <= c < codes,
        0 <= i < rows,
    ensures
        0 <= c * rows,
        0 <= c * rows + i < codes * rows,
        (c + 1) * rows <= codes * rows,
        (c + 1) * rows == c * rows + rows,
{
    assert(0 <= c * rows && c * rows + i < codes * rows && (c + 1) * rows <= codes * rows && (c + 1)
        * rows == c * rows + rows) by (nonlinear_arith)
        requires
            0 <= c < codes,
            0 <= i < rows,
    ;
}

/// Different cells of a table have different places.
pub proof fn lemma_cell_apart(rows: int, c: int, i: int, d: int, j: int)
    requires
        0 <= i < rows,
        0 <= j < rows,
        c * rows + i == d * rows + j,
    ensures
        c == d,
        i == j,
{
    vstd::arithmetic::div_mod::lemma_fundamental_div_mod_converse(c * rows + i, rows, c, i);
    vstd::arithmetic::div_mod::lemma_fundamental_div_mod_converse(d * rows + j, rows, d, j);
}

/// How one term of an entry is added to a word.
pub trait Term<E: Element, L: Lane<E>> {
    /// The sequence that goes about its products this way.
    spec fn sequence() -> Sequence;

    /// The word with one term added.
    fn term(word: L, act: E, weight: E) -> (r: L)
        ensures
            Self::sequence() != Sequence::SignMask || -1 <= weight.val() <= 1 ==> cong(
                r.word(),
                word.word() + act.val() * weight.val(),
                L::extent(),
            ),
    ;
}

/// One product per term.
pub struct ByProduct;

impl<E: Element, L: Lane<E>> Term<E, L> for ByProduct {
    open spec fn sequence() -> Sequence {
        Sequence::Product
    }

    fn term(word: L, act: E, weight: E) -> (r: L) {
        word.mac(act, weight)
    }
}

/// The dot product of book entry `c` with column `i`, term by term.
pub fn entry_word<E: Element, L: Lane<E>, T: Term<E, L>>(
    block: usize,
    rows: usize,
    book: &[E],
    acts: &[E],
    c: usize,
    i: usize,
) -> (word: L)
    requires
        i < rows,
        (c + 1) * block <= book@.len(),
        block * rows <= acts@.len(),
    ensures
        entry_suits(T::sequence(), book@, block as int, c as int) ==> cong(
            word.word(),
            entry_sum(book@, acts@, block as int, rows as int, c as int, i as int),
            L::extent(),
        ),
{
    let mut word: L = L::zero();
    let mut t: usize = 0;
    let ghost f = |t: int| acts@[t * rows + i].val() * book@[c * block + t].val();
    proof {
        L::laws();
        lemma_cong_refl(0, L::extent());
        assert(book.len() == book@.len());
        assert(acts.len() == acts@.len());
        assert((c + 1) * block == c * block + block && 0 <= c * block) by (nonlinear_arith);
    }
    while t < block
        invariant
            0 <= t <= block,
            i < rows,
            0 <= c * block,
            c * block + block <= book@.len() <= usize::MAX,
            block * rows <= acts@.len() <= usize::MAX,
            L::extent() > 0,
            f == (|t: int| acts@[t * rows + i].val() * book@[c * block + t].val()),
            entry_suits(T::sequence(), book@, block as int, c as int) ==> cong(
                word.word(),
                sum(f, 0, t as int),
                L::extent(),
            ),
        decreases block - t,
    {
        proof {
            lemma_cell(block as int, rows as int, t as int, i as int);
        }
        let a: E = acts[t * rows + i];
        let b: E = book[c * block + t];
        let next: L = T::term(word, a, b);
        proof {
            if entry_suits(T::sequence(), book@, block as int, c as int) {
                let m = L::extent();
                lemma_cong_refl(a.val() * b.val(), m);
                lemma_cong_add(
                    word.word(),
                    sum(f, 0, t as int),
                    a.val() * b.val(),
                    a.val() * b.val(),
                    m,
                );
                lemma_cong_trans(
                    next.word(),
                    word.word() + a.val() * b.val(),
                    sum(f, 0, t as int) + a.val() * b.val(),
                    m,
                );
            }
            assert(sum(f, 0, t + 1) == sum(f, 0, t as int) + f(t as int));
        }
        word = next;
        t = t + 1;
    }
    word
}

/// Fills the words of a table entry by entry, term by term.
pub fn build_terms<E: Element, L: Lane<E>, T: Term<E, L>>(
    codes: usize,
    block: usize,
    rows: usize,
    book: &[E],
    acts: &[E],
    out: &mut [L],
)
    requires
        codes * block <= book@.len(),
        block * rows <= acts@.len(),
        codes * rows == old(out)@.len(),
    ensures
        final(out)@.len() == old(out)@.len(),
        built::<E, L>(T::sequence(), final(out)@, codes as int, block as int, rows as int, book@, acts@),
{
    proof {
        assert(out.len() == out@.len());
    }
    let mut c: usize = 0;
    while c < codes
        invariant
            0 <= c <= codes,
            codes * block <= book@.len(),
            block * rows <= acts@.len(),
            codes * rows == out@.len(),
            out@.len() <= usize::MAX,
            out@.len() == old(out)@.len(),
            built::<E, L>(T::sequence(), out@, c as int, block as int, rows as int, book@, acts@),
        decreases codes - c,
    {
        let mut i: usize = 0;
        while i < rows
            invariant
                0 <= i <= rows,
                0 <= c < codes,
                codes * block <= book@.len(),
                block * rows <= acts@.len(),
                codes * rows == out@.len(),
                out@.len() <= usize::MAX,
                out@.len() == old(out)@.len(),
                built::<E, L>(T::sequence(), out@, c as int, block as int, rows as int, book@, acts@),
                forall|x: int|
                    #![trigger out@[c * rows + x]]
                    0 <= x < i && entry_suits(
                        T::sequence(),
                        book@,
                        block as int,
                        c as int,
                    ) ==> cong(
                        out@[c * rows + x].word(),
                        entry_sum(book@, acts@, block as int, rows as int, c as int, x),
                        L::extent(),
                    ),
            decreases rows - i,
        {
            proof {
                lemma_cell(codes as int, rows as int, c as int, i as int);
                assert((c + 1) * block <= codes * block) by (nonlinear_arith)
                    requires
                        c + 1 <= codes,
                ;
            }
            let ghost before = out@;
            out[c * rows + i] = entry_word::<E, L, T>(block, rows, book, acts, c, i);
            proof {
                assert forall|d: int, x: int|
                    #![trigger out@[d * rows + x]]
                    0 <= d < c && 0 <= x < rows && entry_suits(
                    T::sequence(),
                    book@,
                    block as int,
                    d,
                ) implies cong(
                    out@[d * rows + x].word(),
                    entry_sum(book@, acts@, block as int, rows as int, d, x),
                    L::extent(),
                ) by {
                    if d * rows + x == c * rows + i {
                        lemma_cell_apart(rows as int, c as int, i as int, d, x);
                    }
                    lemma_cell(codes as int, rows as int, d, x);
                    assert(out@[d * rows + x] == before[d * rows + x]);
                }
                assert forall|x: int|
                    #![trigger out@[c * rows + x]]
                    0 <= x < i + 1 && entry_suits(
                    T::sequence(),
                    book@,
                    block as int,
                    c as int,
                ) implies cong(
                    out@[c * rows + x].word(),
                    entry_sum(book@, acts@, block as int, rows as int, c as int, x),
                    L::extent(),
                ) by {
                    if x < i {
                        lemma_cell(codes as int, rows as int, c as int, x);
                        assert(out@[c * rows + x] == before[c * rows + x]);
                    }
                }
            }
            i = i + 1;
        }
        proof {
            assert forall|d: int, x: int|
                #![trigger out@[d * rows + x]]
                0 <= d < c + 1 && 0 <= x < rows && entry_suits(
                T::sequence(),
                book@,
                block as int,
                d,
            ) implies cong(
                out@[d * rows + x].word(),
                entry_sum(book@, acts@, block as int, rows as int, d, x),
                L::extent(),
            ) by {
                if d == c {
                    assert(out@[c * rows + x] == out@[d * rows + x]);
                }
            }
        }
        c = c + 1;
    }
}

/// Fills the words of a table, one product per term.
pub fn build_reference<E: Element, L: Lane<E>>(
    codes: usize,
    block: usize,
    rows: usize,
    book: &[E],
    acts: &[E],
    out: &mut [L],
)
    requires
        codes * block <= book@.len(),
        block * rows <= acts@.len(),
        codes * rows == old(out)@.len(),
    ensures
        final(out)@.len() == old(out)@.len(),
        built::<E, L>(
            Sequence::Product,
            final(out)@,
            codes as int,
            block as int,
            rows as int,
            book@,
            acts@,
        ),
{
    build_terms::<E, L, ByProduct>(codes, block, rows, book, acts, out)
}

/// A lane that tables are built of.
pub trait TableLane<E: Element>: Lane<E> {
    /// A magnitude up to which every sum is carried over.
    spec fn envelope() -> nat;

    /// Sums within the envelope are carried over, and so is any one product.
    proof fn envelope_laws()
        ensures
            forall|v: int|
                -Self::envelope() <= v <= Self::envelope() ==> #[trigger] Self::holds(v),
            forall|x: E, y: E| #[trigger] Self::holds(x.val() * y.val()),
    ;

    /// Fills the words of a table of `codes` entries of `rows` lanes.
    fn build(
        sequence: Sequence,
        codes: usize,
        block: usize,
        rows: usize,
        book: &[E],
        acts: &[E],
        out: &mut [Self],
    )
        requires
            codes * block <= book@.len(),
            block * rows <= acts@.len(),
            codes * rows == old(out)@.len(),
        ensures
            final(out)@.len() == old(out)@.len(),
            built::<E, Self>(sequence, final(out)@, codes as int, block as int, rows as int, book@, acts@),
    {
        build_reference::<E, Self>(codes, block, rows, book, acts, out)
    }
}

impl TableLane<i8> for i32 {
    open spec fn envelope() -> nat {
        0x7fff_ffff
    }

    proof fn envelope_laws() {
        assert forall|x: i8, y: i8| #[trigger] <i32 as Lane<i8>>::holds(x.val() * y.val()) by {
            assert(-0x8000 <= x * y <= 0x8000) by (nonlinear_arith)
                requires
                    -128 <= x <= 127,
                    -128 <= y <= 127,
            ;
        }
    }

    fn build(
        sequence: Sequence,
        codes: usize,
        block: usize,
        rows: usize,
        book: &[i8],
        acts: &[i8],
        out: &mut [i32],
    ) {
        match sequence {
            Sequence::Product => build_reference::<i8, i32>(codes, block, rows, book, acts, out),
            Sequence::Lookup => neon_table_build_lookup(rows, codes, block, book, acts, out),
            Sequence::SignMask => neon_table_build_bound1(rows, codes, block, book, acts, out),
        }
    }
}

impl TableLane<i16> for i64 {
    open spec fn envelope() -> nat {
        0x7fff_ffff_ffff_ffff
    }

    proof fn envelope_laws() {
        assert forall|x: i16, y: i16| #[trigger] <i64 as Lane<i16>>::holds(x.val() * y.val()) by {
            assert(-0x8000_0000 <= x * y <= 0x8000_0000) by (nonlinear_arith)
                requires
                    -0x8000 <= x <= 0x7fff,
                    -0x8000 <= y <= 0x7fff,
            ;
        }
    }
}

impl TableLane<i32> for i128 {
    open spec fn envelope() -> nat {
        u128::MAX as nat
    }

    proof fn envelope_laws() {
    }
}

impl TableLane<i32> for i32 {
    open spec fn envelope() -> nat {
        u128::MAX as nat
    }

    proof fn envelope_laws() {
    }
}

impl TableLane<i64> for [u64; 3] {
    open spec fn envelope() -> nat {
        u128::MAX as nat
    }

    proof fn envelope_laws() {
    }
}

impl TableLane<i64> for i64 {
    open spec fn envelope() -> nat {
        u128::MAX as nat
    }

    proof fn envelope_laws() {
    }
}

/// Adds one table entry to one column of lanes.
pub fn gather_entry<E: Element, L: Lane<E>>(
    stack: &[L],
    from: usize,
    rows: usize,
    lane: &mut [L],
    to: usize,
)
    requires
        from + rows <= stack@.len(),
        to + rows <= old(lane)@.len(),
    ensures
        final(lane)@.len() == old(lane)@.len(),
        forall|i: int|
            #![trigger final(lane)@[to + i]]
            0 <= i < rows ==> cong(
                final(lane)@[to + i].word(),
                old(lane)@[to + i].word() + stack@[from + i].word(),
                L::extent(),
            ),
        forall|x: int|
            0 <= x < old(lane)@.len() && !(to <= x < to + rows) ==> #[trigger] final(lane)@[x]
                == old(lane)@[x],
{
    proof {
        assert(stack.len() == stack@.len());
        assert(lane.len() == lane@.len());
    }
    let mut i: usize = 0;
    while i < rows
        invariant
            0 <= i <= rows,
            from + rows <= stack@.len() <= usize::MAX,
            to + rows <= lane@.len() <= usize::MAX,
            lane@.len() == old(lane)@.len(),
            forall|x: int|
                #![trigger lane@[to + x]]
                0 <= x < i ==> cong(
                    lane@[to + x].word(),
                    old(lane)@[to + x].word() + stack@[from + x].word(),
                    L::extent(),
                ),
            forall|x: int|
                0 <= x < old(lane)@.len() && !(to <= x < to + i)
                    ==> #[trigger] lane@[x] == old(lane)@[x],
        decreases rows - i,
    {
        let ghost before = lane@;
        let word: L = lane[to + i].plus(stack[from + i]);
        lane[to + i] = word;
        proof {
            assert forall|x: int|
                #![trigger lane@[to + x]]
                0 <= x < i + 1 implies cong(
                lane@[to + x].word(),
                old(lane)@[to + x].word() + stack@[from + x].word(),
                L::extent(),
            ) by {
                if x < i {
                    assert(lane@[to + x] == before[to + x]);
                } else {
                    assert(before[to + i] == old(lane)@[to + i]);
                }
            }
        }
        i = i + 1;
    }
}

} // verus!
