//! The index words of a call, divided into a map of repeated columns and a set
//! of addressed entries.
use crate::arith::{ceil_div, div_ceil};
use crate::columns::{dictionary_slots, dictionary_words};
use crate::entries::EntrySet;
use vstd::prelude::*;

verus! {

/// For each column its first equal column in the same block of columns, and for
/// each block whether every column is its own.
#[derive(Clone, Copy, Debug)]
pub struct ColumnMap<'a> {
    pub first: &'a [usize],
    pub identity: &'a [usize],
}

/// The first column of the block of `cols` columns that holds `j`.
pub open spec fn block_start(j: int, cols: int) -> int {
    (j / cols) * cols
}

/// `at` is the place in its block of the first column there that is the same
/// as `j`; columns with the same mark are the same.
pub open spec fn is_local_first(mark: Seq<usize>, cols: int, at: int, j: int) -> bool {
    let start = block_start(j, cols);
    &&& 0 <= at <= j - start
    &&& mark[start + at] == mark[j]
    &&& forall|i: int| start <= i < start + at ==> #[trigger] mark[i] != mark[j]
}

/// Block `b` has columns up to `n`, `cols` apart.
pub open spec fn block_is_identity(first: Seq<usize>, cols: int, n: int, b: int) -> bool {
    forall|j: int| b * cols <= j < (b + 1) * cols && j < n ==> #[trigger] first[j] == j - b * cols
}

/// What is written for block `b`: one where every column is its own, and else
/// zero.
pub open spec fn identity_word(first: Seq<usize>, cols: int, n: int, b: int) -> usize {
    if block_is_identity(first, cols, n, b) {
        1
    } else {
        0
    }
}

/// Some column bears the mark `q`.
pub open spec fn marked(mark: Seq<usize>, q: int) -> bool {
    exists|j: int| 0 <= j < mark.len() && #[trigger] mark[j] == q
}

impl<'a> ColumnMap<'a> {
    /// The map says of each of `n` columns where its first is, and of each
    /// block whether there is anything to say.
    pub open spec fn maps(self, mark: Seq<usize>, n: int, cols: int) -> bool {
        &&& self.first@.len() == n
        &&& self.identity@.len() == ceil_div(n, cols)
        &&& forall|j: int|
            0 <= j < n ==> is_local_first(mark, cols, #[trigger] self.first@[j] as int, j)
        &&& forall|b: int|
            0 <= b < ceil_div(n, cols) ==> #[trigger] self.identity@[b] == identity_word(
                self.first@,
                cols,
                n,
                b,
            )
    }
}

pub proof fn lemma_block_start(j: int, cols: int, b: int)
    requires
        cols > 0,
        b * cols <= j < (b + 1) * cols,
    ensures
        j / cols == b,
        block_start(j, cols) == b * cols,
{
    assert((b + 1) * cols == b * cols + cols) by (nonlinear_arith);
    vstd::arithmetic::div_mod::lemma_fundamental_div_mod_converse(j, cols, b, j - b * cols);
}

/// Maps the columns of one block.
fn map_block(
    first: &mut [usize],
    seen: &mut [usize],
    start: usize,
    end: usize,
    Ghost(mark): Ghost<Seq<usize>>,
) -> (identity: bool)
    requires
        start < end <= old(first)@.len(),
        old(first)@.len() == mark.len(),
        forall|j: int| start <= j < end ==> #[trigger] old(first)@[j] == mark[j],
        forall|j: int| 0 <= j < mark.len() ==> #[trigger] mark[j] < old(seen)@.len(),
    ensures
        final(first)@.len() == old(first)@.len(),
        final(seen)@.len() == old(seen)@.len(),
        forall|j: int|
            0 <= j < old(first)@.len() && !(start <= j < end) ==> #[trigger] final(first)@[j]
                == old(first)@[j],
        forall|j: int|
            start <= j < end ==> {
                let at = #[trigger] final(first)@[j] as int;
                &&& 0 <= at <= j - start
                &&& mark[start + at] == mark[j]
                &&& forall|i: int| start <= i < start + at ==> #[trigger] mark[i] != mark[j]
            },
        identity == forall|j: int| start <= j < end ==> #[trigger] final(first)@[j] == j - start,
        forall|q: int|
            0 <= q < old(seen)@.len() && !marked(mark, q) ==> #[trigger] final(seen)@[q]
                == old(seen)@[q],
{
    proof {
        assert(first.len() == first@.len());
    }
    let mut j: usize = start;
    while j < end
        invariant
            start <= j <= end <= first@.len(),
            first@ == old(first)@,
            first@.len() == mark.len(),
            seen@.len() == old(seen)@.len(),
            forall|j: int| start <= j < end ==> #[trigger] first@[j] == mark[j],
            forall|j: int| 0 <= j < mark.len() ==> #[trigger] mark[j] < seen@.len(),
            forall|i: int| #![trigger mark[i]] start <= i < j ==> seen@[mark[i] as int] == 0,
            forall|q: int|
                0 <= q < seen@.len() && !marked(mark, q) ==> #[trigger] seen@[q] == old(seen)@[q],
        decreases end - j,
    {
        let representative: usize = first[j];
        assert(mark[j as int] < seen@.len());
        seen[representative] = 0;
        j = j + 1;
    }
    let mut identity: bool = true;
    j = start;
    while j < end
        invariant
            start <= j <= end <= first@.len() <= usize::MAX,
            first@.len() == old(first)@.len(),
            first@.len() == mark.len(),
            seen@.len() == old(seen)@.len(),
            forall|x: int| j <= x < end ==> #[trigger] first@[x] == mark[x],
            forall|x: int|
                0 <= x < old(first)@.len() && !(start <= x < end)
                    ==> #[trigger] first@[x] == old(first)@[x],
            forall|x: int| 0 <= x < mark.len() ==> #[trigger] mark[x] < seen@.len(),
            forall|q: int|
                0 <= q < seen@.len() && !marked(mark, q) ==> #[trigger] seen@[q] == old(seen)@[q],
            // A mark met in this block is remembered at its first column.
            forall|x: int|
                #![trigger mark[x]]
                start <= x < end ==> {
                    let s = seen@[mark[x] as int];
                    &&& s == 0 ==> forall|i: int| start <= i < j ==> #[trigger] mark[i] != mark[x]
                    &&& s != 0 ==> {
                        &&& start < s <= j
                        &&& mark[s - 1] == mark[x]
                        &&& forall|i: int| start <= i < s - 1 ==> #[trigger] mark[i] != mark[x]
                    }
                },
            forall|x: int|
                start <= x < j ==> {
                    let at = #[trigger] first@[x] as int;
                    &&& 0 <= at <= x - start
                    &&& mark[start + at] == mark[x]
                    &&& forall|i: int| start <= i < start + at ==> #[trigger] mark[i] != mark[x]
                },
            identity == forall|x: int| start <= x < j ==> #[trigger] first@[x] == x - start,
        decreases end - j,
    {
        let ghost (first0, seen0) = (first@, seen@);
        let representative: usize = first[j];
        assert(representative == mark[j as int]);
        let prior: usize = seen[representative];
        let at: usize = if prior > start {
            prior - 1 - start
        } else {
            seen[representative] = j + 1;
            j - start
        };
        first[j] = at;
        proof {
            if prior > start {
                assert(seen@ == seen0);
            } else {
                assert(prior == 0);
                assert forall|i: int| start <= i < start + at implies #[trigger] mark[i]
                    != mark[j as int] by {}
            }
            assert(start + at <= j);
            assert(mark[start + at] == mark[j as int]);
            assert forall|x: int| start <= x < end implies {
                let s = seen@[(#[trigger] mark[x]) as int];
                &&& s == 0 ==> forall|i: int|
                    start <= i < j + 1 ==> #[trigger] mark[i] != mark[x]
                &&& s != 0 ==> {
                    &&& start < s <= j + 1
                    &&& mark[s - 1] == mark[x]
                    &&& forall|i: int| start <= i < s - 1 ==> #[trigger] mark[i] != mark[x]
                }
            } by {
                if mark[x] == mark[j as int] {
                } else {
                    assert(seen@[mark[x] as int] == seen0[mark[x] as int]);
                }
            }
            assert forall|x: int| start <= x < j + 1 implies {
                let at = #[trigger] first@[x] as int;
                &&& 0 <= at <= x - start
                &&& mark[start + at] == mark[x]
                &&& forall|i: int| start <= i < start + at ==> #[trigger] mark[i] != mark[x]
            } by {
                if x < j {
                    assert(first@[x] == first0[x]);
                }
            }
        }
        if at != j - start {
            identity = false;
            assert(first@[j as int] != j - start);
        }
        proof {
            assert(identity == forall|x: int|
                start <= x < j + 1 ==> #[trigger] first@[x] == x - start) by {
                if identity {
                    assert forall|x: int| start <= x < j + 1 implies #[trigger] first@[x] == x
                        - start by {
                        if x < j {
                            assert(first@[x] == first0[x]);
                        }
                    }
                } else if first@[j as int] == j - start {
                    let x = choose|x: int| start <= x < j && #[trigger] first0[x] != x - start;
                    assert(first@[x] == first0[x]);
                }
            }
        }
        j = j + 1;
    }
    identity
}

/// Turns the first columns at the head of `first` into places within blocks of
/// `cols` columns, and says of each block whether every column is its own.
fn map_blocks(
    first: &mut [usize],
    seen: &mut [usize],
    identity: &mut [usize],
    cols: usize,
    Ghost(mark): Ghost<Seq<usize>>,
)
    requires
        cols > 0,
        old(first)@ == mark,
        old(identity)@.len() == ceil_div(mark.len() as int, cols as int),
        forall|j: int| 0 <= j < mark.len() ==> #[trigger] mark[j] < old(seen)@.len(),
    ensures
        final(first)@.len() == mark.len(),
        final(seen)@.len() == old(seen)@.len(),
        final(identity)@.len() == old(identity)@.len(),
        forall|j: int|
            0 <= j < mark.len() ==> is_local_first(
                mark,
                cols as int,
                #[trigger] final(first)@[j] as int,
                j,
            ),
        forall|b: int|
            0 <= b < old(identity)@.len() ==> #[trigger] final(identity)@[b] == identity_word(
                final(first)@,
                cols as int,
                mark.len() as int,
                b,
            ),
        forall|q: int|
            0 <= q < old(seen)@.len() && !marked(mark, q) ==> #[trigger] final(seen)@[q]
                == old(seen)@[q],
{
    let n: usize = first.len();
    let ghost c = cols as int;
    let mut b: usize = 0;
    let mut start: usize = 0;
    proof {
        if n > 0 {
            lemma_blocks(
                n as int,
                c,
                0,
                if n < c {
                    n as int
                } else {
                    c
                },
            );
        } else {
            vstd::arithmetic::div_mod::lemma_basic_div(c - 1, c);
        }
    }
    while start < n
        invariant
            cols > 0,
            c == cols,
            n == mark.len() == first@.len(),
            seen@.len() == old(seen)@.len(),
            identity@.len() == old(identity)@.len(),
            identity@.len() == ceil_div(n as int, c),
            start == b * c || (start == n && (b - 1) * c < n <= b * c && b >= 1),
            start <= n,
            b <= identity@.len(),
            start < n ==> b < identity@.len(),
            start == n ==> b == identity@.len(),
            forall|j: int| 0 <= j < mark.len() ==> #[trigger] mark[j] < seen@.len(),
            forall|j: int| start <= j < n ==> #[trigger] first@[j] == mark[j],
            forall|j: int|
                0 <= j < start ==> is_local_first(mark, c, #[trigger] first@[j] as int, j),
            forall|x: int|
                0 <= x < b ==> #[trigger] identity@[x] == identity_word(first@, c, n as int, x),
            forall|q: int|
                0 <= q < seen@.len() && !marked(mark, q) ==> #[trigger] seen@[q] == old(seen)@[q],
        decreases n - start,
    {
        let end: usize = if n - start < cols {
            n
        } else {
            start + cols
        };
        let ghost (first0, identity0) = (first@, identity@);
        let own: bool = map_block(first, seen, start, end, Ghost(mark));
        identity[b] = if own {
            1
        } else {
            0
        };
        proof {
            let bi = b as int;
            assert((bi + 1) * c == bi * c + c) by (nonlinear_arith);
            assert forall|j: int| 0 <= j < end implies is_local_first(
                mark,
                c,
                #[trigger] first@[j] as int,
                j,
            ) by {
                if j < start {
                    assert(first@[j] == first0[j]);
                } else {
                    lemma_block_start(j, c, bi);
                }
            }
            assert forall|x: int| 0 <= x < bi + 1 implies #[trigger] identity@[x]
                == identity_word(first@, c, n as int, x) by {
                if x < bi {
                    assert(identity@[x] == identity0[x]);
                    assert((x + 1) * c <= bi * c) by (nonlinear_arith)
                        requires
                            x + 1 <= bi,
                            c > 0,
                    ;
                    assert(block_is_identity(first@, c, n as int, x) == block_is_identity(
                        first0,
                        c,
                        n as int,
                        x,
                    )) by {
                        assert forall|j: int|
                            x * c <= j < (x + 1) * c && j < n && block_is_identity(
                                first0,
                                c,
                                n as int,
                                x,
                            ) implies #[trigger] first@[j] == j - x * c by {
                            assert(0 <= x * c) by (nonlinear_arith)
                                requires
                                    x >= 0,
                                    c > 0,
                            ;
                            assert(first@[j] == first0[j]);
                        }
                        assert forall|j: int|
                            x * c <= j < (x + 1) * c && j < n && block_is_identity(
                                first@,
                                c,
                                n as int,
                                x,
                            ) implies #[trigger] first0[j] == j - x * c by {
                            assert(0 <= x * c) by (nonlinear_arith)
                                requires
                                    x >= 0,
                                    c > 0,
                            ;
                            assert(first@[j] == first0[j]);
                        }
                    }
                } else {
                    assert(start == bi * c);
                    if own {
                        assert(block_is_identity(first@, c, n as int, bi));
                    } else {
                        let j = choose|j: int|
                            start <= j < end && #[trigger] first@[j] != j - start;
                        assert(!block_is_identity(first@, c, n as int, bi));
                    }
                }
            }
            lemma_blocks(n as int, c, bi, end as int);
        }
        start = end;
        b = b + 1;
    }
}

/// Where the last block ends.
proof fn lemma_blocks(n: int, c: int, b: int, end: int)
    requires
        c > 0,
        0 <= b,
        b * c < n,
        end == if n - b * c < c {
            n
        } else {
            b * c + c
        },
    ensures
        b < ceil_div(n, c),
        end == n ==> b + 1 == ceil_div(n, c),
        end < n ==> b + 1 < ceil_div(n, c) && end == (b + 1) * c,
        end == n ==> b * c < n <= (b + 1) * c,
{
    assert((b + 1) * c == b * c + c) by (nonlinear_arith);
    let q = ceil_div(n, c);
    vstd::arithmetic::div_mod::lemma_fundamental_div_mod(n + c - 1, c);
    let r = (n + c - 1) % c;
    assert(c * q == q * c) by (nonlinear_arith);
    assert(q * c >= n && (q - 1) * c < n) by (nonlinear_arith)
        requires
            n + c - 1 == q * c + r,
            0 <= r < c,
    ;
    if n <= (b + 1) * c {
        assert(q == b + 1) by (nonlinear_arith)
            requires
                q * c >= n,
                (q - 1) * c < n,
                b * c < n,
                n <= (b + 1) * c,
                c > 0,
        ;
    } else {
        assert(q > b + 1) by (nonlinear_arith)
            requires
                q * c >= n,
                n > (b + 1) * c,
                c > 0,
        ;
    }
}

/// Divides the index words of a call: a map of repeated columns where columns
/// repeat, and a set of entries where one is needed. Nothing is divided where
/// the words are too few.
pub fn column_workspace(
    index: &mut [usize],
    n: usize,
    cols: usize,
    repeated: bool,
    need_entries: bool,
) -> (r: (Option<ColumnMap<'_>>, Option<EntrySet<'_>>))
    requires
        repeated && dictionary_words(n as int) <= old(index)@.len() ==> {
            &&& cols > 0
            &&& forall|j: int|
                0 <= j < n ==> #[trigger] old(index)@[j] < crate::arith::ceil_pow2((2 * n) as nat)
        },
    ensures
        r.0 is Some <==> dictionary_words(n as int) <= old(index)@.len() && repeated,
        r.1 is Some <==> dictionary_words(n as int) <= old(index)@.len() && need_entries,
        r.0 is Some ==> r.0->0.maps(old(index)@.subrange(0, n as int), n as int, cols as int),
        r.1 is Some ==> {
            let set = r.1->0;
            let table = crate::arith::ceil_pow2((2 * n) as nat) as int;
            &&& set.empty()
            &&& set.wf()
            &&& set.seen@.len() == table
            &&& set.occupied@.len() == if repeated {
                old(index)@.len() - n - table - ceil_div(n as int, cols as int)
            } else {
                old(index)@.len() - table
            }
        },
        r.0 is None && r.1 is None ==> final(index)@ == old(index)@,
        r.0 is Some && r.1 is None ==> {
            let table = crate::arith::ceil_pow2((2 * n) as nat) as int;
            let blocks = ceil_div(n as int, cols as int);
            &&& final(index)@.len() == old(index)@.len()
            &&& final(index)@.subrange(0, n as int) == r.0->0.first@
            &&& final(index)@.subrange(n + table, n + table + blocks) == r.0->0.identity@
            &&& forall|q: int|
                n <= q < old(index)@.len() && !(n + table <= q < n + table + blocks) && !marked(
                    old(index)@.subrange(0, n as int),
                    q - n,
                ) ==> #[trigger] final(index)@[q] == old(index)@[q]
            &&& (forall|j: int| 0 <= j < n ==> #[trigger] old(index)@[j] < n) ==> forall|q: int|
                2 * n <= q < old(index)@.len() && !(n + table <= q < n + table + blocks)
                    ==> #[trigger] final(index)@[q] == old(index)@[q]
        },
{
    let table: usize = match dictionary_slots(n, index.len()) {
        None => {
            return (None, None);
        },
        Some(table) => table,
    };
    if !repeated {
        if !need_entries {
            return (None, None);
        }
        let (seen, occupied) = index.split_at_mut(table);
        clear_words(seen);
        return (None, Some(EntrySet { seen, occupied, used: 0 }));
    }
    let blocks: usize = div_ceil(n, cols);
    let ghost mark = index@.subrange(0, n as int);
    let (first, rest) = index.split_at_mut(n);
    let (seen, keys) = rest.split_at_mut(table);
    let (identity, occupied) = keys.split_at_mut(blocks);
    proof {
        assert(first@ =~= mark);
        assert forall|j: int| 0 <= j < mark.len() implies #[trigger] mark[j] < seen@.len() by {
            assert(mark[j] == old(index)@[j]);
        }
    }
    map_blocks(first, seen, identity, cols, Ghost(mark));
    let map: ColumnMap<'_> = ColumnMap { first: &*first, identity: &*identity };
    if !need_entries {
        return (Some(map), None);
    }
    clear_words(seen);
    (Some(map), Some(EntrySet { seen, occupied, used: 0 }))
}

/// Sets every word to zero.
pub fn clear_words(words: &mut [usize])
    ensures
        final(words)@.len() == old(words)@.len(),
        forall|x: int| 0 <= x < final(words)@.len() ==> #[trigger] final(words)@[x] == 0,
{
    let mut x: usize = 0;
    while x < words.len()
        invariant
            x <= words@.len() == old(words)@.len(),
            forall|y: int| 0 <= y < x ==> #[trigger] words@[y] == 0,
        decreases words@.len() - x,
    {
        words[x] = 0;
        x = x + 1;
    }
}

} // verus!
