//! Repeated columns: which column of weights is the first of its kind.
use crate::arith::{ceil_pow2, lemma_ceil_pow2, next_power_of_two};
use crate::blocking;
use crate::codec::Enumerable;
use crate::dictionary::{firsts, firsts_known, own_count, Keyed};
use crate::element::{Bound, Element};
use core::marker::PhantomData;
use vstd::arithmetic::power2::pow2;
use vstd::prelude::*;

verus! {

/// The places that the codes of a run name.
pub open spec fn places<E: Element, Bd: Bound, C: Enumerable<E, Bd>>(run: Seq<C::Code>) -> Seq<nat> {
    Seq::new(run.len(), |i: int| C::index(run[i]))
}

/// The number whose base-three digits, most significant first, are `start` and
/// then the first `t` places.
pub open spec fn radix_number(start: int, digits: Seq<nat>, t: int) -> int
    decreases t,
{
    if t <= 0 {
        start
    } else {
        3 * radix_number(start, digits, t - 1) + digits[t - 1]
    }
}

/// Digits of a run that its hash reads.
pub open spec fn measured(len: int) -> int {
    if len < blocking::COLUMN_HASH_PREFIX {
        len
    } else {
        blocking::COLUMN_HASH_PREFIX as int
    }
}

/// The hash of a run of places.
pub open spec fn run_hash(digits: Seq<nat>, modulus: int) -> int {
    radix_number(digits.len() as int, digits, measured(digits.len() as int)) % modulus
}

/// The hash of a column: its length and its first codes, in base three.
pub fn column_hash<E: Element, Bd: Bound, C: Enumerable<E, Bd>>(
    run: &[C::Code],
    modulus: usize,
) -> (r: usize)
    requires
        modulus > 0,
        forall|i: int| 0 <= i < run@.len() ==> C::valid(#[trigger] run@[i]),
    ensures
        r == run_hash(places::<E, Bd, C>(run@), modulus as int),
{
    let len: usize = run.len();
    let mut hash: u128 = len as u128;
    let prefix: usize = if len < blocking::COLUMN_HASH_PREFIX {
        len
    } else {
        blocking::COLUMN_HASH_PREFIX
    };
    let ghost digits = places::<E, Bd, C>(run@);
    let mut t: usize = 0;
    proof {
        vstd::arithmetic::power2::lemma2_to64();
    }
    while t < prefix
        invariant
            0 <= t <= prefix <= 16,
            prefix <= run@.len(),
            len == run@.len(),
            digits == places::<E, Bd, C>(run@),
            hash == radix_number(len as int, digits, t as int),
            hash < 0x1_0000_0000_0000_0000 * pow2((2 * t) as nat),
            forall|i: int| 0 <= i < run@.len() ==> C::valid(#[trigger] run@[i]),
        decreases prefix - t,
    {
        let index: usize = C::index_of(run[t as usize]);
        proof {
            let p = pow2((2 * t) as nat) as int;
            vstd::arithmetic::power2::lemma_pow2_pos((2 * t) as nat);
            vstd::arithmetic::power2::lemma_pow2_unfold((2 * t + 1) as nat);
            vstd::arithmetic::power2::lemma_pow2_unfold((2 * t + 2) as nat);
            assert(pow2((2 * (t + 1)) as nat) == 4 * p);
            if 2 * t < 32 {
                vstd::arithmetic::power2::lemma_pow2_strictly_increases((2 * t) as nat, 32);
            }
            vstd::arithmetic::power2::lemma2_to64();
            assert(p <= 0x1_0000_0000);
            assert(digits[t as int] == index);
        }
        let doubled: u128 = hash + hash;
        hash = doubled + hash + (index as u128);
        t = t + 1;
    }
    (hash % (modulus as u128)) as usize
}

/// Whether two runs name the same places.
pub fn columns_equal<E: Element, Bd: Bound, C: Enumerable<E, Bd>>(
    a: &[C::Code],
    b: &[C::Code],
) -> (r: bool)
    requires
        forall|i: int| 0 <= i < a@.len() ==> C::valid(#[trigger] a@[i]),
        forall|i: int| 0 <= i < b@.len() ==> C::valid(#[trigger] b@[i]),
    ensures
        r == (places::<E, Bd, C>(a@) == places::<E, Bd, C>(b@)),
{
    let ghost (x, y) = (places::<E, Bd, C>(a@), places::<E, Bd, C>(b@));
    if a.len() != b.len() {
        assert(x.len() != y.len());
        return false;
    }
    let mut i: usize = 0;
    while i < a.len()
        invariant
            i <= a@.len() == b@.len(),
            x == places::<E, Bd, C>(a@),
            y == places::<E, Bd, C>(b@),
            forall|k: int| 0 <= k < i ==> x[k] == y[k],
            forall|i: int| 0 <= i < a@.len() ==> C::valid(#[trigger] a@[i]),
            forall|i: int| 0 <= i < b@.len() ==> C::valid(#[trigger] b@[i]),
        decreases a@.len() - i,
    {
        let (p, q): (usize, usize) = (C::index_of(a[i]), C::index_of(b[i]));
        if p != q {
            assert(x[i as int] != y[i as int]);
            return false;
        }
        i = i + 1;
    }
    assert(x =~= y);
    true
}

/// The columns of a run of codes, `per_row` codes each.
pub struct Columns<'a, E: Element, Bd: Bound, C: Enumerable<E, Bd>> {
    pub codes: &'a [C::Code],
    pub per_row: usize,
    pub n: usize,
    pub of: PhantomData<(E, Bd)>,
}

impl<'a, E: Element, Bd: Bound, C: Enumerable<E, Bd>> Columns<'a, E, Bd, C> {
    /// Whole columns of valid codes.
    pub open spec fn wf(self) -> bool {
        &&& self.n * self.per_row <= self.codes@.len()
        &&& forall|i: int| 0 <= i < self.codes@.len() ==> C::valid(#[trigger] self.codes@[i])
    }

    /// The codes of column `j`.
    pub open spec fn column(self, j: int) -> Seq<C::Code> {
        self.codes@.subrange(j * self.per_row, j * self.per_row + self.per_row)
    }

    proof fn lemma_column(self, j: int)
        requires
            self.wf(),
            0 <= j < self.n,
        ensures
            0 <= j * self.per_row,
            j * self.per_row + self.per_row <= self.codes@.len(),
    {
        assert(0 <= j * self.per_row && j * self.per_row + self.per_row <= self.n * self.per_row)
            by (nonlinear_arith)
            requires
                0 <= j < self.n,
                0 <= self.per_row,
        ;
    }

    fn run(&self, j: usize) -> (r: &'a [C::Code])
        requires
            self.wf(),
            j < self.n,
        ensures
            r@ == self.column(j as int),
            forall|i: int| 0 <= i < r@.len() ==> C::valid(#[trigger] r@[i]),
    {
        proof {
            self.lemma_column(j as int);
            assert(self.codes.len() == self.codes@.len());
        }
        let start: usize = j * self.per_row;
        vstd::slice::slice_subrange(self.codes, start, start + self.per_row)
    }
}

impl<'a, E: Element, Bd: Bound, C: Enumerable<E, Bd>> Keyed for Columns<'a, E, Bd, C> {
    open spec fn members(&self) -> nat {
        if self.wf() {
            self.n as nat
        } else {
            0
        }
    }

    open spec fn same(&self, i: int, j: int) -> bool {
        places::<E, Bd, C>(self.column(i)) == places::<E, Bd, C>(self.column(j))
    }

    open spec fn hashed(&self, i: int, modulus: int) -> int {
        run_hash(places::<E, Bd, C>(self.column(i)), modulus)
    }

    proof fn equivalence(&self, i: int, j: int, k: int) {
    }

    proof fn respects(&self, i: int, j: int, modulus: int) {
    }

    fn hash(&self, i: usize, modulus: usize) -> (r: usize) {
        column_hash::<E, Bd, C>(self.run(i), modulus)
    }

    fn equal(&self, i: usize, j: usize) -> (r: bool) {
        columns_equal::<E, Bd, C>(self.run(i), self.run(j))
    }
}

/// Slots of a dictionary of `n` names, and the words it asks for.
pub open spec fn dictionary_words(n: int) -> int {
    n + 2 * ceil_pow2((2 * n) as nat)
}

/// The slots of a dictionary of `n` names, where `len` words hold it.
pub fn dictionary_slots(n: usize, len: usize) -> (r: Option<usize>)
    ensures
        r is Some <==> dictionary_words(n as int) <= len,
        r matches Some(table) ==> table == ceil_pow2((2 * n) as nat) && n < table,
{
    proof {
        lemma_ceil_pow2((2 * n) as nat);
    }
    let doubled: usize = match n.checked_mul(2) {
        None => {
            return None;
        },
        Some(doubled) => doubled,
    };
    let table: usize = match next_power_of_two(doubled) {
        None => {
            return None;
        },
        Some(table) => table,
    };
    let both: usize = match table.checked_mul(2) {
        None => {
            return None;
        },
        Some(both) => both,
    };
    match n.checked_add(both) {
        None => None,
        Some(want) => if want <= len {
            Some(table)
        } else {
            None
        },
    }
}

/// Writes into the head of `index` the first column equal to each column, and
/// counts the columns that are their own; declines where there is nothing to
/// compare or no room for the dictionary.
pub fn distinct_columns<E: Element, Bd: Bound, C: Enumerable<E, Bd>>(
    codes: &[C::Code],
    codes_per_row: usize,
    n: usize,
    index: &mut [usize],
) -> (r: Option<usize>)
    requires
        forall|i: int| 0 <= i < codes@.len() ==> C::valid(#[trigger] codes@[i]),
    ensures
        r is Some <==> n > 0 && codes_per_row > 0 && n * codes_per_row <= codes@.len()
            && dictionary_words(n as int) <= old(index)@.len(),
        final(index)@.len() == old(index)@.len(),
        r is None ==> final(index)@ == old(index)@,
        r matches Some(distinct) ==> {
            &&& firsts_known(
                (Columns::<E, Bd, C> { codes, per_row: codes_per_row, n, of: PhantomData }),
                final(index)@,
                n as int,
            )
            &&& distinct == own_count(final(index)@, n as int)
        },
{
    if n == 0 || codes_per_row == 0 {
        return None;
    }
    proof {
        assert(codes.len() == codes@.len());
        assert(n * codes_per_row >= 0) by (nonlinear_arith);
    }
    match n.checked_mul(codes_per_row) {
        None => {
            return None;
        },
        Some(want) => {
            if codes.len() < want {
                return None;
            }
        },
    }
    let table: usize = match dictionary_slots(n, index.len()) {
        None => {
            return None;
        },
        Some(table) => table,
    };
    let keys: Columns<'_, E, Bd, C> = Columns { codes, per_row: codes_per_row, n, of: PhantomData };
    let ghost len = index@.len();
    let distinct: usize;
    let ghost written: Seq<usize>;
    {
        let (position, rest) = index.split_at_mut(n);
        let (slot, key) = rest.split_at_mut(table);
        distinct = firsts(&keys, n, table, position, slot, key);
        proof {
            written = position@;
        }
    }
    proof {
        assert(index@.subrange(0, n as int) =~= written);
        assert forall|j: int| 0 <= j < n implies index@[j] == written[j] by {
            assert(index@.subrange(0, n as int)[j] == index@[j]);
        }
        crate::dictionary::lemma_own_count(index@, written, n as int);
    }
    Some(distinct)
}

} // verus!
