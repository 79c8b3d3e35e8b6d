//! Equal rows: a product needs each kind of row only once.
use crate::blocking;
use crate::codec::{CodedMatrix, Enumerable};
use crate::columns::{dictionary_slots, dictionary_words, radix_number};
use crate::dictionary::{firsts, firsts_known, is_first, own_count, Keyed};
use crate::element::{Alphabet, Bound, Element};
use crate::sequence::lemma_cell;
use crate::triple::total;
use crate::view::{MatView, MatViewMut};
use vstd::arithmetic::power2::pow2;
use vstd::prelude::*;

verus! {

/// Two rows hold the same elements.
pub open spec fn same_rows<E: Element, Bd: Bound>(
    a: MatView<'_, Alphabet<E, Bd>>,
    i: int,
    j: int,
) -> bool {
    forall|p: int|
        0 <= p < a.cols ==> (#[trigger] a.cell(i, p)).element() == a.cell(j, p).element()
}

/// The fingerprints of a row.
pub open spec fn row_digits<E: Element, Bd: Bound>(
    a: MatView<'_, Alphabet<E, Bd>>,
    i: int,
) -> Seq<nat> {
    Seq::new(a.cols as nat, |p: int| a.cell(i, p).element().fingerprint() as nat)
}

/// The rows of a view.
pub struct Rows<'s, 'a, E, Bd> {
    pub a: &'s MatView<'a, Alphabet<E, Bd>>,
}

impl<'s, 'a, E: Element, Bd: Bound> Keyed for Rows<'s, 'a, E, Bd> {
    open spec fn members(&self) -> nat {
        if self.a.wf() {
            self.a.rows as nat
        } else {
            0
        }
    }

    open spec fn same(&self, i: int, j: int) -> bool {
        same_rows(*self.a, i, j)
    }

    open spec fn hashed(&self, i: int, modulus: int) -> int {
        crate::columns::run_hash(row_digits(*self.a, i), modulus)
    }

    proof fn equivalence(&self, i: int, j: int, k: int) {
        if self.same(i, j) {
            assert forall|p: int| 0 <= p < self.a.cols implies (#[trigger] self.a.cell(
                j,
                p,
            )).element() == self.a.cell(i, p).element() by {
                let _ = self.a.cell(i, p);
            }
        }
        if self.same(i, j) && self.same(j, k) {
            assert forall|p: int| 0 <= p < self.a.cols implies (#[trigger] self.a.cell(
                i,
                p,
            )).element() == self.a.cell(k, p).element() by {
                let _ = self.a.cell(j, p);
            }
        }
    }

    proof fn respects(&self, i: int, j: int, modulus: int) {
        if self.same(i, j) {
            assert forall|p: int| 0 <= p < self.a.cols implies row_digits(*self.a, i)[p]
                == row_digits(*self.a, j)[p] by {
                let _ = self.a.cell(i, p);
            }
            assert(row_digits(*self.a, i) =~= row_digits(*self.a, j));
        }
    }

    fn hash(&self, i: usize, modulus: usize) -> (r: usize) {
        let len: usize = self.a.cols;
        let mut hash: u128 = len as u128;
        let prefix: usize = if len < blocking::COLUMN_HASH_PREFIX {
            len
        } else {
            blocking::COLUMN_HASH_PREFIX
        };
        let ghost digits = row_digits(*self.a, i as int);
        let mut t: usize = 0;
        proof {
            vstd::arithmetic::power2::lemma2_to64();
        }
        while t < prefix
            invariant
                self.a.wf(),
                i < self.a.rows,
                0 <= t <= prefix <= 16,
                prefix <= len,
                len == self.a.cols,
                digits == row_digits(*self.a, i as int),
                hash == radix_number(len as int, digits, t as int),
                hash < 0x1_0000_0000_0000_0000 * pow2((2 * t) as nat),
            decreases prefix - t,
        {
            let digit: u64 = self.a.at(i, t).get().digest();
            proof {
                let p = pow2((2 * t) as nat) as int;
                vstd::arithmetic::power2::lemma_pow2_pos((2 * t) as nat);
                vstd::arithmetic::power2::lemma_pow2_unfold((2 * t + 1) as nat);
                vstd::arithmetic::power2::lemma_pow2_unfold((2 * t + 2) as nat);
                assert(pow2((2 * (t + 1)) as nat) == 4 * p);
                if 2 * t < 32 {
                    vstd::arithmetic::power2::lemma_pow2_strictly_increases((2 * t) as nat, 32);
                }
                vstd::arithmetic::power2::lemma2_to64();
                assert(p <= 0x1_0000_0000);
                assert(digits[t as int] == digit);
            }
            let doubled: u128 = hash + hash;
            hash = doubled + hash + (digit as u128);
            t = t + 1;
        }
        (hash % (modulus as u128)) as usize
    }

    fn equal(&self, i: usize, j: usize) -> (r: bool) {
        let mut p: usize = 0;
        while p < self.a.cols
            invariant
                self.a.wf(),
                i < self.a.rows,
                j < self.a.rows,
                p <= self.a.cols,
                forall|q: int|
                    0 <= q < p ==> (#[trigger] self.a.cell(i as int, q)).element() == self.a.cell(
                        j as int,
                        q,
                    ).element(),
            decreases self.a.cols - p,
        {
            let (x, y): (E, E) = (self.a.at(i, p).get(), self.a.at(j, p).get());
            if !x.same(y) {
                proof {
                    let _ = self.a.cell(i as int, p as int);
                }
                return false;
            }
            p = p + 1;
        }
        true
    }
}

/// Each row's index is the number of kinds that came before its own, so equal
/// rows and only equal rows share one.
pub open spec fn kinds_known<E: Element, Bd: Bound>(
    a: MatView<'_, Alphabet<E, Bd>>,
    index: Seq<usize>,
    kinds: int,
) -> bool {
    &&& forall|i: int|
        0 <= i < a.rows ==> (#[trigger] index[i]) < kinds && index[i] <= i
    &&& kinds_equal(a, index)
    &&& next_kind(index, a.rows as int) == kinds
    &&& forall|i: int| 0 <= i < a.rows ==> #[trigger] index[i] <= next_kind(index, i)
}

/// Rows share an index exactly where they are equal.
#[verifier::opaque]
pub open spec fn kinds_equal<E: Element, Bd: Bound>(
    a: MatView<'_, Alphabet<E, Bd>>,
    index: Seq<usize>,
) -> bool {
    forall|i: int, j: int|
        0 <= i < a.rows && 0 <= j < a.rows ==> (#[trigger] index[i] == #[trigger] index[j]
            <==> same_rows(a, i, j))
}

/// Kinds among the first `n` rows, where each new kind has the next index.
pub open spec fn next_kind(index: Seq<usize>, n: int) -> int
    decreases n,
{
    if n <= 0 {
        0
    } else if index[n - 1] == next_kind(index, n - 1) {
        next_kind(index, n - 1) + 1
    } else {
        next_kind(index, n - 1)
    }
}

proof fn lemma_next_kind(x: Seq<usize>, y: Seq<usize>, n: int)
    requires
        forall|i: int| 0 <= i < n ==> x[i] == y[i],
    ensures
        next_kind(x, n) == next_kind(y, n),
    decreases n,
{
    if n > 0 {
        lemma_next_kind(x, y, n - 1);
    }
}

/// Words of index scratch that collapsing `m` rows asks for.
pub fn suggested_collapse_index(m: usize) -> (r: usize)
    ensures
        dictionary_words(m as int) <= usize::MAX ==> r == dictionary_words(m as int),
        dictionary_words(m as int) > usize::MAX ==> r == usize::MAX,
{
    proof {
        crate::arith::lemma_ceil_pow2((2 * m) as nat);
    }
    match dictionary_slots(m, usize::MAX) {
        Some(table) => m + 2 * table,
        None => usize::MAX,
    }
}

/// Writes the kind of each row into the head of `index` and counts the kinds;
/// declines where there is no room for the dictionary.
pub fn distinct_rows<E: Element, Bd: Bound>(
    a: &MatView<'_, Alphabet<E, Bd>>,
    index: &mut [usize],
) -> (r: Option<usize>)
    requires
        a.wf(),
    ensures
        r is Some <==> dictionary_words(a.rows as int) <= old(index)@.len(),
        final(index)@.len() == old(index)@.len(),
        r matches Some(kinds) ==> kinds <= a.rows && kinds_known(*a, final(index)@, kinds as int),
        r is None ==> final(index)@ == old(index)@,
{
    let m: usize = a.rows;
    let table: usize = match dictionary_slots(m, index.len()) {
        None => {
            return None;
        },
        Some(table) => table,
    };
    let keys: Rows<'_, '_, E, Bd> = Rows { a };
    let ghost position: Seq<usize>;
    {
        let (first, rest) = index.split_at_mut(m);
        let (slot, key) = rest.split_at_mut(table);
        let _ = firsts(&keys, m, table, first, slot, key);
        proof {
            position = first@;
        }
    }
    let mut kinds: usize = 0;
    let mut i: usize = 0;
    proof {
        assert forall|j: int| 0 <= j < m implies index@[j] == position[j] by {
            assert(index@.subrange(0, m as int)[j] == index@[j]);
            assert(index@.subrange(0, m as int) =~= position);
        }
    }
    while i < m
        invariant
            a.wf(),
            m == a.rows,
            keys.a == *a,
            m <= index@.len(),
            index@.len() == old(index)@.len(),
            position.len() == m,
            firsts_known(keys, position, m as int),
            i <= m,
            kinds <= i,
            kinds == own_count(position, i as int),
            forall|j: int| i <= j < m ==> #[trigger] index@[j] == position[j],
            forall|j: int|
                0 <= j < i ==> (#[trigger] index@[j]) == own_count(position, position[j] as int)
                    && index@[j] < kinds && index@[j] <= j,
            forall|x: int, y: int|
                0 <= x < y < i && position[x] == x && position[y] == y ==> (#[trigger] index@[x])
                    < #[trigger] index@[y],
            kinds == next_kind(index@, i as int),
            forall|j: int| 0 <= j < i ==> #[trigger] index@[j] <= next_kind(index@, j),
        decreases m - i,
    {
        let at: usize = index[i];
        assert(is_first(keys, position[i as int] as int, i as int));
        let ghost before = index@;
        if at == i {
            index[i] = kinds;
            kinds = kinds + 1;
        } else {
            assert(position[at as int] == at) by {
                lemma_first_of_first(keys, position, m as int, i as int);
            }
            index[i] = index[at];
        }
        proof {
            assert forall|j: int| 0 <= j < i implies index@[j] == before[j] by {}
            crate::dictionary::lemma_own_count(position, position, i as int);
            lemma_next_kind(index@, before, i as int);
            assert forall|j: int| 0 <= j < i + 1 implies #[trigger] index@[j] <= next_kind(
                index@,
                j,
            ) by {
                lemma_next_kind(index@, before, j);
                if j < i {
                    assert(before[j] <= next_kind(before, j));
                }
            }
        }
        i = i + 1;
    }
    proof {
        reveal(kinds_equal);
        assert forall|i: int, j: int|
            0 <= i < a.rows && 0 <= j < a.rows implies (#[trigger] index@[i]
            == #[trigger] index@[j] <==> same_rows(*a, i, j)) by {
            lemma_kinds(keys, position, index@, m as int, i, j);
        }
    }
    Some(kinds)
}

/// A first occurrence is its own.
proof fn lemma_first_of_first<K: Keyed>(keys: K, position: Seq<usize>, n: int, i: int)
    requires
        0 <= i < n,
        n <= keys.members(),
        firsts_known(keys, position, n),
    ensures
        position[position[i] as int] == position[i],
{
    let f = position[i] as int;
    assert(is_first(keys, f, i));
    let g = position[f] as int;
    assert(is_first(keys, g, f));
    keys.equivalence(g, f, i);
    assert(keys.same(g, i));
}

/// Kinds are shared by equal rows and by no others.
proof fn lemma_kinds<'s, 'a, E: Element, Bd: Bound>(
    keys: Rows<'s, 'a, E, Bd>,
    position: Seq<usize>,
    index: Seq<usize>,
    m: int,
    i: int,
    j: int,
)
    requires
        m == keys.members(),
        firsts_known(keys, position, m),
        0 <= i < m,
        0 <= j < m,
        forall|x: int|
            0 <= x < m ==> (#[trigger] index[x]) == own_count(position, position[x] as int),
        forall|x: int, y: int|
            0 <= x < y < m && position[x] == x && position[y] == y ==> (#[trigger] index[x])
                < #[trigger] index[y],
    ensures
        index[i] == index[j] <==> keys.same(i, j),
{
    let (f, g) = (position[i] as int, position[j] as int);
    assert(is_first(keys, f, i));
    assert(is_first(keys, g, j));
    lemma_first_of_first(keys, position, m, i);
    lemma_first_of_first(keys, position, m, j);
    assert(index[f] == index[i]);
    assert(index[g] == index[j]);
    if keys.same(i, j) {
        keys.equivalence(f, i, j);
        keys.equivalence(i, j, j);
        keys.equivalence(g, j, i);
        if f < g {
            assert(keys.same(f, j));
        }
        if g < f {
            assert(keys.same(g, i));
        }
    }
    if index[i] == index[j] {
        if f < g {
            assert(index[f] < index[g]);
        }
        if g < f {
            assert(index[g] < index[f]);
        }
        keys.equivalence(f, i, j);
        keys.equivalence(f, j, j);
        keys.equivalence(i, f, j);
    }
}

/// The rows of `kept` are the kinds of row that `a` has: row `i` of `a` is row
/// `index[i]` of `kept`.
pub open spec fn rows_kept<E: Element, Bd: Bound>(
    a: MatView<'_, Alphabet<E, Bd>>,
    index: Seq<usize>,
    kept: Seq<Alphabet<E, Bd>>,
) -> bool {
    forall|i: int, p: int|
        #![trigger a.cell(i, p)]
        0 <= i < a.rows && 0 <= p < a.cols ==> kept[index[i] * a.cols + p].element() == a.cell(
            i,
            p,
        ).element()
}

/// Copies row `i` to row `next` of `rows`.
fn copy_row<E: Element, Bd: Bound>(
    a: &MatView<'_, Alphabet<E, Bd>>,
    i: usize,
    rows: &mut [Alphabet<E, Bd>],
    next: usize,
    kinds: usize,
)
    requires
        a.wf(),
        i < a.rows,
        next < kinds,
        kinds * a.cols <= old(rows)@.len(),
    ensures
        final(rows)@.len() == old(rows)@.len(),
        forall|x: int|
            0 <= x < next * a.cols ==> #[trigger] final(rows)@[x] == old(rows)@[x],
        forall|q: int|
            #![trigger final(rows)@[next * a.cols + q]]
            0 <= q < a.cols ==> final(rows)@[next * a.cols + q] == a.cell(i as int, q),
{
    let k: usize = a.cols;
    let ghost ki = k as int;
    let ghost before = rows@;
    proof {
        assert(rows.len() == rows@.len());
    }
    let mut p: usize = 0;
    while p < k
        invariant
            a.wf(),
            k == ki == a.cols,
            i < a.rows,
            p <= k,
            next < kinds,
            kinds * ki <= rows@.len() <= usize::MAX,
            before == old(rows)@,
            rows@.len() == before.len(),
            forall|x: int| 0 <= x < next * ki ==> #[trigger] rows@[x] == before[x],
            forall|q: int|
                #![trigger rows@[next * ki + q]]
                0 <= q < p ==> rows@[next * ki + q] == a.cell(i as int, q),
        decreases k - p,
    {
        proof {
            lemma_cell(kinds as int, ki, next as int, p as int);
        }
        let ghost last = rows@;
        rows[next * k + p] = *a.at(i, p);
        proof {
            assert forall|q: int|
                #![trigger rows@[next * ki + q]]
                0 <= q < p + 1 implies rows@[next * ki + q] == a.cell(i as int, q) by {
                if q < p {
                    assert(rows@[next * ki + q] == last[next * ki + q]);
                }
            }
        }
        p = p + 1;
    }
}

/// Copies each kind of row into `rows`, in the order of their indices, where
/// there is room for them.
pub fn compact<E: Element, Bd: Bound>(
    a: &MatView<'_, Alphabet<E, Bd>>,
    index: &[usize],
    rows: &mut [Alphabet<E, Bd>],
    kinds: usize,
) -> (r: bool)
    requires
        a.wf(),
        a.rows <= index@.len(),
        kinds_known(*a, index@, kinds as int),
        forall|i: int, p: int|
            0 <= i < a.rows && 0 <= p < a.cols ==> (#[trigger] a.cell(i, p)).inv(),
    ensures
        r == (kinds * a.cols <= old(rows)@.len()),
        final(rows)@.len() == old(rows)@.len(),
        !r ==> final(rows)@ == old(rows)@,
        r ==> rows_kept(*a, index@, final(rows)@),
        r ==> forall|x: int|
            0 <= x < kinds * a.cols ==> (#[trigger] final(rows)@[x]).inv(),
{
    let k: usize = a.cols;
    let ghost ki = k as int;
    proof {
        assert(rows.len() == rows@.len());
        assert(kinds * k >= 0) by (nonlinear_arith);
    }
    match kinds.checked_mul(k) {
        None => {
            return false;
        },
        Some(want) => {
            if rows.len() < want {
                return false;
            }
        },
    }
    let mut next: usize = 0;
    let mut i: usize = 0;
    assert(0 * ki == 0);
    while i < a.rows
        invariant
            a.wf(),
            k == ki == a.cols,
            a.rows <= index@.len(),
            kinds_known(*a, index@, kinds as int),
            forall|x: int, p: int|
                0 <= x < a.rows && 0 <= p < ki ==> (#[trigger] a.cell(x, p)).inv(),
            kinds * ki <= rows@.len() <= usize::MAX,
            rows@.len() == old(rows)@.len(),
            i <= a.rows,
            next == next_kind(index@, i as int),
            next <= kinds,
            forall|x: int, p: int|
                #![trigger a.cell(x, p)]
                0 <= x < i && 0 <= p < ki ==> rows@[index@[x] * ki + p].element() == a.cell(
                    x,
                    p,
                ).element(),
            forall|x: int| 0 <= x < i ==> (#[trigger] index@[x]) < next,
            forall|x: int| 0 <= x < next * ki ==> (#[trigger] rows@[x]).inv(),
        decreases a.rows - i,
    {
        let kind: usize = index[i];
        assert(index@[i as int] <= next_kind(index@, i as int));
        assert(index@[i as int] < kinds);
        let ghost before = rows@;
        if kind == next {
            copy_row(a, i, rows, next, kinds);
            proof {
                assert((next + 1) * ki == next * ki + ki) by (nonlinear_arith);
                assert forall|x: int| 0 <= x < (next + 1) * ki implies (
                #[trigger] rows@[x]).inv() by {
                    if x < next * ki {
                        assert(rows@[x] == before[x]);
                    } else {
                        let q = x - next * ki;
                        assert(rows@[next * ki + q] == a.cell(i as int, q));
                    }
                }
                assert forall|x: int, p: int|
                    #![trigger a.cell(x, p)]
                    0 <= x < i + 1 && 0 <= p < ki implies rows@[index@[x] * ki + p].element()
                    == a.cell(x, p).element() by {
                    if x < i {
                        lemma_cell(next as int, ki, index@[x] as int, p);
                        assert(rows@[index@[x] * ki + p] == before[index@[x] * ki + p]);
                    } else {
                        assert(rows@[next * ki + p] == a.cell(i as int, p));
                    }
                }
            }
            next = next + 1;
            proof {
                lemma_kinds_bound(*a, index@, kinds as int, i + 1);
            }
        } else {
            proof {
                // The kind is an earlier one, so its row is already there.
                lemma_kind_seen(index@, i as int, kind as int);
                let x = choose|x: int| 0 <= x < i && #[trigger] index@[x] == kind;
                assert(same_rows(*a, x, i as int)) by {
                    reveal(kinds_equal);
                    assert(index@[x] == index@[i as int]);
                }
                assert forall|y: int, p: int|
                    #![trigger a.cell(y, p)]
                    0 <= y < i + 1 && 0 <= p < ki implies rows@[index@[y] * ki + p].element()
                    == a.cell(y, p).element() by {
                    if y == i {
                        assert(a.cell(x, p).element() == a.cell(i as int, p).element());
                    }
                }
            }
        }
        i = i + 1;
    }
    true
}

/// An index below the next one has been given.
proof fn lemma_kind_seen(index: Seq<usize>, n: int, kind: int)
    requires
        0 <= kind < next_kind(index, n),
    ensures
        exists|x: int| 0 <= x < n && #[trigger] index[x] == kind,
    decreases n,
{
    if n > 0 {
        if kind < next_kind(index, n - 1) {
            lemma_kind_seen(index, n - 1, kind);
            let x = choose|x: int| 0 <= x < n - 1 && #[trigger] index[x] == kind;
            assert(0 <= x < n && index[x] == kind);
        } else {
            assert(index[n - 1] == kind);
        }
    }
}

/// No prefix of the rows has more kinds than the rows have.
proof fn lemma_kinds_bound<E: Element, Bd: Bound>(
    a: MatView<'_, Alphabet<E, Bd>>,
    index: Seq<usize>,
    kinds: int,
    n: int,
)
    requires
        0 <= n <= a.rows,
        kinds_known(a, index, kinds),
    ensures
        next_kind(index, n) <= kinds,
    decreases a.rows - n,
{
    if n < a.rows {
        lemma_kinds_bound(a, index, kinds, n + 1);
    }
}

/// Copies the first rows out to every row of their kind, last row first.
pub fn expand<O: Copy>(c: &mut MatViewMut<'_, O>, index: &[usize])
    requires
        old(c).wf(),
        old(c).apart(),
        old(c).rows <= index@.len(),
        forall|i: int| 0 <= i < old(c).rows ==> #[trigger] index@[i] <= i,
    ensures
        final(c).wf(),
        final(c).same_window(*old(c)),
        final(final(c).data)@ == final(old(c).data)@,
        forall|i: int, j: int|
            0 <= i < old(c).rows && 0 <= j < old(c).cols
                ==> #[trigger] final(c).cell(i, j) == old(c).cell(index@[i] as int, j),
{
    let ghost before = *c;
    let mut i: usize = c.rows;
    while i > 0
        invariant
            before == *old(c),
            c.wf(),
            c.apart(),
            c.same_window(before),
            final(c.data)@ == final(old(c).data)@,
            before.rows <= index@.len(),
            forall|x: int| 0 <= x < before.rows ==> #[trigger] index@[x] <= x,
            i <= before.rows,
            forall|x: int, y: int|
                0 <= x < before.rows && 0 <= y < before.cols ==> #[trigger] c.cell(x, y) == if x
                    < i {
                    before.cell(x, y)
                } else {
                    before.cell(index@[x] as int, y)
                },
        decreases i,
    {
        let row: usize = i - 1;
        let src: usize = index[row];
        assert(index@[row as int] <= row);
        if src != row {
            let mut j: usize = 0;
            while j < c.cols
                invariant
                    before == *old(c),
                    c.wf(),
                    c.apart(),
                    c.same_window(before),
                    final(c.data)@ == final(old(c).data)@,
                    src < row < before.rows,
                    src == index@[row as int],
                    j <= before.cols,
                    forall|x: int, y: int|
                        0 <= x < before.rows && 0 <= y < before.cols ==> #[trigger] c.cell(x, y)
                            == if x < row || (x == row && y >= j) {
                            before.cell(x, y)
                        } else {
                            before.cell(index@[x] as int, y)
                        },
                decreases before.cols - j,
            {
                let value: O = *c.at(src, j);
                c.put(row, j, value);
                j = j + 1;
            }
        }
        i = row;
    }
}

/// Equal rows have equal totals.
pub proof fn lemma_same_row_total<E: Element, Bd: Bound, C: Enumerable<E, Bd>>(
    a: MatView<'_, Alphabet<E, Bd>>,
    b: MatView<'_, Alphabet<E, Bd>>,
    w: CodedMatrix<'_, E, Bd, C>,
    i: int,
    x: int,
    j: int,
)
    requires
        a.cols == b.cols,
        forall|p: int|
            0 <= p < a.cols ==> (#[trigger] a.cell(i, p)).element() == b.cell(x, p).element(),
    ensures
        total(a, w, i, j) == total(b, w, x, j),
{
    let f = |p: int| a.cell(i, p).val() * w.entry(j, p).val();
    let g = |p: int| b.cell(x, p).val() * w.entry(j, p).val();
    assert forall|p: int| 0 <= p < a.cols implies #[trigger] f(p) == g(p) by {
        assert(a.cell(i, p).element() == b.cell(x, p).element());
    }
    crate::arith::lemma_sum_ext(f, g, 0, a.cols as int);
}

} // verus!
