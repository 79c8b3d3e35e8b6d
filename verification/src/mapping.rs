//! What is found of the columns of a coded matrix before it is walked: which
//! repeat an earlier one, and which entries of the book are named.
use crate::arith::{ceil_div, ceil_pow2};
use crate::book::{lists, lists_places};
use crate::codec::{CodedMatrix, Enumerable};
use crate::columns::{dictionary_words, places, Columns};
use crate::dictionary::{firsts_known, is_first, own_count, Keyed};
use crate::element::{Bound, Element};
use crate::entries::dedup;
use crate::plan::least;
use crate::rows::{leads, map_of, map_sound, same_columns};
use crate::workspace::{block_start, identity_word, is_local_first, ColumnMap};
use core::marker::PhantomData;
use vstd::prelude::*;

verus! {

/// Some column of `w` is the same as a later one.
pub open spec fn repeats<E: Element, Bd: Bound, C: Enumerable<E, Bd>>(
    w: CodedMatrix<'_, E, Bd, C>,
) -> bool {
    exists|x: int, y: int| 0 <= x < y < w.rows && #[trigger] same_columns(w, x, y)
}

/// `at` is the place in its block of `cols` columns of the first column there
/// that is the same as column `j`.
pub open spec fn first_in_block<E: Element, Bd: Bound, C: Enumerable<E, Bd>>(
    w: CodedMatrix<'_, E, Bd, C>,
    cols: int,
    at: int,
    j: int,
) -> bool {
    let start = block_start(j, cols);
    &&& 0 <= at <= j - start
    &&& same_columns(w, start + at, j)
    &&& forall|i: int| start <= i < start + at ==> !#[trigger] same_columns(w, i, j)
}

/// The map that `index_len` words of index give: none where the words do not
/// hold a dictionary of the columns or no column repeats, and else the first
/// equal column in its block for each column.
pub open spec fn columns_mapped<E: Element, Bd: Bound, C: Enumerable<E, Bd>>(
    map: Option<(Seq<usize>, Seq<usize>)>,
    w: CodedMatrix<'_, E, Bd, C>,
    cols: int,
    index_len: int,
) -> bool {
    &&& map is Some <==> dictionary_words(w.rows as int) <= index_len && repeats(w)
    &&& map matches Some(m) ==> {
        &&& m.0.len() == w.rows
        &&& m.1.len() == ceil_div(w.rows as int, cols)
        &&& forall|j: int|
            0 <= j < w.rows ==> first_in_block(w, cols, #[trigger] m.0[j] as int, j)
        &&& forall|b: int|
            0 <= b < m.1.len() ==> #[trigger] m.1[b] == identity_word(
                m.0,
                cols,
                w.rows as int,
                b,
            )
    }
}

/// Entries of the book that can be listed in `index_len` words of index: none
/// unless blocks are of one element, the book has more than one entry, and the
/// words hold a dictionary of the `n` columns.
pub open spec fn list_room<E: Element, Bd: Bound, C: Enumerable<E, Bd>>(
    w: CodedMatrix<'_, E, Bd, C>,
    cols: int,
    index_len: int,
) -> Option<int> {
    let n = w.rows as int;
    let table = ceil_pow2((2 * n) as nat) as int;
    if dictionary_words(n) <= index_len && lists_entries::<E, Bd, C>() {
        Some(
            least(
                table,
                if repeats(w) {
                    index_len - n - table - ceil_div(n, cols)
                } else {
                    index_len - table
                },
            ),
        )
    } else {
        None
    }
}

/// The entries that the codes name are listed at all.
pub open spec fn lists_entries<E: Element, Bd: Bound, C: Enumerable<E, Bd>>() -> bool {
    C::block() == 1 && !C::sign_book() && C::space() > 1
}

/// The entries that the codes of `w` name, each once, where there is room.
pub open spec fn named_entries<E: Element, Bd: Bound, C: Enumerable<E, Bd>>(
    w: CodedMatrix<'_, E, Bd, C>,
    room: Option<int>,
) -> Option<Seq<usize>> {
    let named = dedup(places::<E, Bd, C>(w.codes@), w.codes@.len() as int);
    match room {
        Some(room) if named.len() <= room => Some(named),
        _ => None,
    }
}

/// The columns of `w`, to be told apart.
pub open spec fn columns_of<'w, E: Element, Bd: Bound, C: Enumerable<E, Bd>>(
    w: CodedMatrix<'w, E, Bd, C>,
    per_row: usize,
) -> Columns<'w, E, Bd, C> {
    Columns { codes: w.codes, per_row, n: w.rows, of: PhantomData }
}

proof fn lemma_columns<E: Element, Bd: Bound, C: Enumerable<E, Bd>>(
    w: CodedMatrix<'_, E, Bd, C>,
    per_row: usize,
    x: int,
    y: int,
)
    requires
        w.wf(),
        per_row == w.per_row(),
        0 <= x < w.rows,
        0 <= y < w.rows,
    ensures
        columns_of(w, per_row).wf(),
        columns_of(w, per_row).same(x, y) == same_columns(w, x, y),
{
    let keys = columns_of(w, per_row);
    let px = places::<E, Bd, C>(keys.column(x));
    let py = places::<E, Bd, C>(keys.column(y));
    assert(0 <= x * per_row && x * per_row + per_row <= w.rows * per_row) by (nonlinear_arith)
        requires
            0 <= x < w.rows,
            0 <= per_row,
    ;
    assert(0 <= y * per_row && y * per_row + per_row <= w.rows * per_row) by (nonlinear_arith)
        requires
            0 <= y < w.rows,
            0 <= per_row,
    ;
    assert(px.len() == per_row && py.len() == per_row);
    assert forall|p: int| 0 <= p < per_row implies {
        &&& px[p] == C::index(#[trigger] w.code(x, p))
        &&& py[p] == C::index(w.code(y, p))
    } by {
        w.lemma_code(x, p);
        w.lemma_code(y, p);
    }
    if same_columns(w, x, y) {
        assert forall|p: int| 0 <= p < per_row implies px[p] == py[p] by {
            let _ = w.code(x, p);
        }
        assert(px =~= py);
    }
    if keys.same(x, y) {
        assert forall|p: int| 0 <= p < w.per_row() implies C::index(#[trigger] w.code(x, p))
            == C::index(w.code(y, p)) by {
            assert(px[p] == py[p]);
        }
    }
}

/// Columns have the same first exactly where they are the same.
proof fn lemma_marks<E: Element, Bd: Bound, C: Enumerable<E, Bd>>(
    w: CodedMatrix<'_, E, Bd, C>,
    per_row: usize,
    mark: Seq<usize>,
    x: int,
    y: int,
)
    requires
        w.wf(),
        per_row == w.per_row(),
        firsts_known(columns_of(w, per_row), mark, w.rows as int),
        0 <= x < w.rows,
        0 <= y < w.rows,
    ensures
        mark[x] == mark[y] <==> same_columns(w, x, y),
{
    let keys = columns_of(w, per_row);
    lemma_columns(w, per_row, x, y);
    let (fx, fy) = (mark[x] as int, mark[y] as int);
    assert(is_first(keys, fx, x));
    assert(is_first(keys, fy, y));
    keys.equivalence(fx, x, y);
    keys.equivalence(fy, y, x);
    keys.equivalence(x, fx, y);
    keys.equivalence(y, x, fx);
    keys.equivalence(x, y, fy);
    if keys.same(x, y) {
        assert(keys.same(fx, y));
        assert(keys.same(fy, x));
        assert(!(fx < fy));
        assert(!(fy < fx));
    }
    if fx == fy {
        assert(keys.same(x, fx));
        assert(keys.same(fx, y));
        assert(keys.same(x, y));
    }
}

/// A mark that counts fewer of its own than there are has one that is not.
proof fn lemma_own_count(mark: Seq<usize>, n: int)
    requires
        0 <= n,
    ensures
        own_count(mark, n) <= n,
        own_count(mark, n) < n <==> exists|j: int| 0 <= j < n && #[trigger] mark[j] != j,
    decreases n,
{
    if n > 0 {
        lemma_own_count(mark, n - 1);
        if own_count(mark, n) < n {
            if mark[n - 1] != n - 1 {
            } else {
                let j = choose|j: int| 0 <= j < n - 1 && #[trigger] mark[j] != j;
                assert(0 <= j < n && mark[j] != j);
            }
        } else {
            assert(mark[n - 1] == n - 1);
        }
    }
}

/// The number of columns that are their own first says whether any repeats.
pub proof fn lemma_repeats<E: Element, Bd: Bound, C: Enumerable<E, Bd>>(
    w: CodedMatrix<'_, E, Bd, C>,
    per_row: usize,
    mark: Seq<usize>,
)
    requires
        w.wf(),
        per_row == w.per_row(),
        firsts_known(columns_of(w, per_row), mark, w.rows as int),
    ensures
        own_count(mark, w.rows as int) < w.rows <==> repeats(w),
{
    let keys = columns_of(w, per_row);
    let n = w.rows as int;
    lemma_own_count(mark, n);
    if own_count(mark, n) < n {
        let j = choose|j: int| 0 <= j < n && #[trigger] mark[j] != j;
        assert(is_first(keys, mark[j] as int, j));
        lemma_columns(w, per_row, mark[j] as int, j);
        assert(same_columns(w, mark[j] as int, j));
    }
    if repeats(w) {
        let (x, y) = choose|x: int, y: int|
            0 <= x < y < w.rows && #[trigger] same_columns(w, x, y);
        lemma_marks(w, per_row, mark, x, y);
        assert(is_first(keys, mark[x] as int, x));
        assert(mark[y] != y);
    }
}

/// A map of marks is the map of the columns.
pub proof fn lemma_mapped<E: Element, Bd: Bound, C: Enumerable<E, Bd>>(
    w: CodedMatrix<'_, E, Bd, C>,
    per_row: usize,
    mark: Seq<usize>,
    map: ColumnMap<'_>,
    cols: int,
    index_len: int,
)
    requires
        w.wf(),
        per_row == w.per_row(),
        cols > 0,
        mark.len() == w.rows,
        firsts_known(columns_of(w, per_row), mark, w.rows as int),
        map.maps(mark, w.rows as int, cols),
        repeats(w),
        dictionary_words(w.rows as int) <= index_len,
    ensures
        columns_mapped(map_of(Some(map)), w, cols, index_len),
{
    let n = w.rows as int;
    assert forall|j: int| 0 <= j < n implies first_in_block(
        w,
        cols,
        #[trigger] map.first@[j] as int,
        j,
    ) by {
        let at = map.first@[j] as int;
        assert(is_local_first(mark, cols, at, j));
        let start = block_start(j, cols);
        assert(start >= 0) by (nonlinear_arith)
            requires
                start == (j / cols) * cols,
                j >= 0,
                cols > 0,
        ;
        lemma_marks(w, per_row, mark, start + at, j);
        assert forall|i: int| start <= i < start + at implies !#[trigger] same_columns(
            w,
            i,
            j,
        ) by {
            lemma_marks(w, per_row, mark, i, j);
            assert(mark[i] != mark[j]);
        }
    }
}

/// The map of the columns leads each to one that is the same and its own first.
pub proof fn lemma_map_sound<E: Element, Bd: Bound, C: Enumerable<E, Bd>>(
    map: Option<(Seq<usize>, Seq<usize>)>,
    w: CodedMatrix<'_, E, Bd, C>,
    cols: int,
    index_len: int,
)
    requires
        cols > 0,
        columns_mapped(map, w, cols, index_len),
    ensures
        map_sound(map, w, cols),
{
    if let Some(m) = map {
        assert forall|j: int| 0 <= j < w.rows implies #[trigger] leads(m.0, w, cols, j) by {
            let start = block_start(j, cols);
            let at = m.0[j] as int;
            assert(first_in_block(w, cols, at, j));
            let i = start + at;
            let q = j / cols;
            assert(start >= 0 && q * cols <= i < (q + 1) * cols) by (nonlinear_arith)
                requires
                    start == q * cols,
                    q == j / cols,
                    j >= 0,
                    cols > 0,
                    start <= i <= j,
            ;
            crate::workspace::lemma_block_start(i, cols, q);
            let back = m.0[i] as int;
            assert(first_in_block(w, cols, back, i));
            assert(same_columns(w, start + back, i));
            lemma_same_trans(w, start + back, i, j);
            assert(!(back < at));
        }
    }
}

proof fn lemma_same_trans<E: Element, Bd: Bound, C: Enumerable<E, Bd>>(
    w: CodedMatrix<'_, E, Bd, C>,
    x: int,
    y: int,
    z: int,
)
    requires
        same_columns(w, x, y),
        same_columns(w, y, z),
    ensures
        same_columns(w, x, z),
{
    assert forall|p: int| 0 <= p < w.per_row() implies C::index(#[trigger] w.code(x, p))
        == C::index(w.code(z, p)) by {
        let _ = w.code(y, p);
    }
}

proof fn lemma_dedup_lists(digits: Seq<nat>, n: int, bound: nat, x: int)
    requires
        0 <= x < n <= digits.len(),
        bound <= usize::MAX,
        forall|i: int| 0 <= i < n ==> #[trigger] digits[i] < bound,
    ensures
        lists(dedup(digits, n), digits[x]),
    decreases n,
{
    let before = dedup(digits, n - 1);
    let now = dedup(digits, n);
    if x < n - 1 {
        lemma_dedup_lists(digits, n - 1, bound, x);
        let y = choose|y: int| 0 <= y < before.len() && #[trigger] before[y] == digits[x];
        assert(now[y] == digits[x]);
    } else {
        let next = digits[n - 1] as usize;
        if before.contains(next) {
            let y = choose|y: int| 0 <= y < before.len() && before[y] == next;
            assert(now[y] == digits[x]);
        } else {
            assert(now[before.len() as int] == digits[x]);
        }
    }
}

proof fn lemma_dedup_bound(digits: Seq<nat>, n: int, bound: nat)
    requires
        0 <= n <= digits.len(),
        bound <= usize::MAX,
        forall|i: int| 0 <= i < n ==> #[trigger] digits[i] < bound,
    ensures
        forall|y: int| 0 <= y < dedup(digits, n).len() ==> #[trigger] dedup(digits, n)[y] < bound,
    decreases n,
{
    if n > 0 {
        lemma_dedup_bound(digits, n - 1, bound);
        assert(digits[n - 1] < bound);
        let before = dedup(digits, n - 1);
        assert forall|y: int| 0 <= y < dedup(digits, n).len() implies #[trigger] dedup(digits, n)[y]
            < bound by {
            if y < before.len() {
                assert(before[y] < bound);
            }
        }
    }
}

/// The entries that the codes name are listed by their places.
pub proof fn lemma_named<E: Element, Bd: Bound, C: Enumerable<E, Bd>>(
    w: CodedMatrix<'_, E, Bd, C>,
)
    requires
        w.wf(),
        C::block() == 1,
        C::space() > 0,
    ensures
        forall|i: int|
            0 <= i < w.codes@.len() ==> C::valid(#[trigger] w.codes@[i]) && C::index(w.codes@[i])
                < usize::MAX,
        lists_places(dedup(places::<E, Bd, C>(w.codes@), w.codes@.len() as int), w),
{
    let digits = places::<E, Bd, C>(w.codes@);
    let n = w.codes@.len() as int;
    C::extents_fit();
    assert forall|i: int| 0 <= i < n implies C::valid(#[trigger] w.codes@[i]) && C::index(
        w.codes@[i],
    ) < C::space() by {
        w.codec.names(w.codes@[i], 0);
    }
    assert forall|i: int| 0 <= i < n implies #[trigger] digits[i] < C::space() by {
        let _ = w.codes@[i];
    }
    lemma_dedup_bound(digits, n, C::space());
    assert forall|x: int| 0 <= x < n implies lists(
        dedup(digits, n),
        C::index(#[trigger] w.codes@[x]),
    ) by {
        lemma_dedup_lists(digits, n, C::space(), x);
    }
}

} // verus!
