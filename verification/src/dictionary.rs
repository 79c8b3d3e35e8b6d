//! First occurrences, found through an open-addressed dictionary.
use vstd::prelude::*;

verus! {

/// A numbered family with an equivalence and a hash that respects it.
pub trait Keyed {
    /// Members of the family.
    spec fn members(&self) -> nat;

    /// Two members are the same for the purpose at hand.
    spec fn same(&self, i: int, j: int) -> bool;

    /// The hash of a member, below a modulus.
    spec fn hashed(&self, i: int, modulus: int) -> int;

    /// `same` is an equivalence on the members.
    proof fn equivalence(&self, i: int, j: int, k: int)
        requires
            0 <= i < self.members(),
            0 <= j < self.members(),
            0 <= k < self.members(),
        ensures
            self.same(i, i),
            self.same(i, j) ==> self.same(j, i),
            self.same(i, j) && self.same(j, k) ==> self.same(i, k),
    ;

    /// Members that are the same have the same hash, and hashes are in range.
    proof fn respects(&self, i: int, j: int, modulus: int)
        requires
            0 <= i < self.members(),
            0 <= j < self.members(),
            modulus > 0,
        ensures
            0 <= self.hashed(i, modulus) < modulus,
            self.same(i, j) ==> self.hashed(i, modulus) == self.hashed(j, modulus),
    ;

    /// The hash of a member.
    fn hash(&self, i: usize, modulus: usize) -> (r: usize)
        requires
            i < self.members(),
            modulus > 0,
        ensures
            r == self.hashed(i as int, modulus as int),
    ;

    /// Whether two members are the same.
    fn equal(&self, i: usize, j: usize) -> (r: bool)
        requires
            i < self.members(),
            j < self.members(),
        ensures
            r == self.same(i as int, j as int),
    ;
}

/// `at` is the least member that is the same as `j`.
pub open spec fn is_first<K: Keyed>(keys: K, at: int, j: int) -> bool {
    &&& 0 <= at <= j
    &&& keys.same(at, j)
    &&& forall|i: int| 0 <= i < at ==> !#[trigger] keys.same(i, j)
}

/// Each of the first `n` positions is that of the first occurrence.
pub open spec fn firsts_known<K: Keyed>(keys: K, position: Seq<usize>, n: int) -> bool {
    forall|j: int| 0 <= j < n ==> is_first(keys, #[trigger] position[j] as int, j)
}

/// Members among the first `n` that are their own first occurrence.
pub open spec fn own_count(position: Seq<usize>, n: int) -> nat
    decreases n,
{
    if n <= 0 {
        0
    } else {
        own_count(position, n - 1) + (if position[n - 1] == n - 1 {
            1nat
        } else {
            0
        })
    }
}

pub proof fn lemma_own_count(p: Seq<usize>, q: Seq<usize>, n: int)
    requires
        forall|j: int| 0 <= j < n ==> p[j] == q[j],
    ensures
        own_count(p, n) == own_count(q, n),
        n >= 0 ==> own_count(p, n) <= n,
    decreases n,
{
    if n > 0 {
        lemma_own_count(p, q, n - 1);
    }
}

/// Every member is its own first occurrence exactly when all are counted.
pub proof fn lemma_own_all(p: Seq<usize>, n: int)
    requires
        n >= 0,
        own_count(p, n) == n,
    ensures
        forall|j: int| 0 <= j < n ==> p[j] == j,
    decreases n,
{
    if n > 0 {
        lemma_own_count(p, p, n - 1);
        lemma_own_all(p, n - 1);
    }
}

/// The slot `d` steps after `h`, going round.
pub open spec fn round(h: int, d: int, table: int) -> int {
    if h + d < table {
        h + d
    } else {
        h + d - table
    }
}

/// A table with more slots than names in it has an empty slot.
proof fn lemma_room(slot: Seq<usize>, place: Seq<int>, table: int)
    requires
        place.len() < table <= slot.len(),
        forall|q: int|
            0 <= q < table && #[trigger] slot[q] != 0 ==> {
                &&& 0 <= slot[q] - 1 < place.len()
                &&& place[slot[q] - 1] == q
            },
    ensures
        exists|q: int| 0 <= q < table && #[trigger] slot[q] == 0,
{
    if forall|q: int| 0 <= q < table ==> #[trigger] slot[q] != 0 {
        let all = vstd::set_lib::set_int_range(0, table);
        vstd::set_lib::lemma_int_range(0, table);
        place.lemma_cardinality_of_set();
        vstd::seq_lib::seq_to_set_is_finite(place);
        assert forall|q: int| all.contains(q) implies place.to_set().contains(q) by {
            assert(slot[q] != 0);
            assert(place[slot[q] - 1] == q);
        }
        vstd::set_lib::lemma_len_subset(all, place.to_set());
    }
}

/// Walks from the hash of `j` to the slot that names a member the same as `j`,
/// or else to the first empty slot.
fn seek<K: Keyed>(
    keys: &K,
    slot: &[usize],
    key: &[usize],
    table: usize,
    j: usize,
    hash: usize,
) -> (r: (usize, Ghost<int>))
    requires
        j < keys.members(),
        0 < table <= slot@.len(),
        table <= key@.len(),
        hash < table,
        exists|q: int| 0 <= q < table && #[trigger] slot@[q] == 0,
        forall|q: int|
            0 <= q < table && #[trigger] slot@[q] != 0 ==> slot@[q] - 1 < keys.members(),
    ensures
        0 <= r.1@ < table,
        r.0 == round(hash as int, r.1@, table as int),
        r.0 < table,
        forall|e: int|
            #![trigger round(hash as int, e, table as int)]
            0 <= e < r.1@ ==> {
                let q = round(hash as int, e, table as int);
                &&& slot@[q] != 0
                &&& !(key@[q] == hash && keys.same(j as int, slot@[q] - 1))
            },
        slot@[r.0 as int] != 0 ==> key@[r.0 as int] == hash && keys.same(
            j as int,
            slot@[r.0 as int] - 1,
        ),
{
    let mut probe: usize = hash;
    let ghost mut d: int = 0;
    let ghost (h, m) = (hash as int, table as int);
    let ghost empty = choose|q: int| 0 <= q < table && #[trigger] slot@[q] == 0;
    let ghost far = if empty >= h {
        empty - h
    } else {
        empty - h + m
    };
    assert(round(h, far, m) == empty);
    loop
        invariant
            j < keys.members(),
            0 < table <= slot@.len(),
            table <= key@.len(),
            h == hash < table,
            m == table,
            probe < table,
            probe == round(h, d, m),
            0 <= d <= far < m,
            slot@[round(h, far, m)] == 0,
            forall|e: int|
                #![trigger round(h, e, m)]
                0 <= e < d ==> {
                    let q = round(h, e, m);
                    &&& slot@[q] != 0
                    &&& !(key@[q] == hash && keys.same(j as int, slot@[q] - 1))
                },
            forall|q: int|
                0 <= q < table && #[trigger] slot@[q] != 0 ==> slot@[q] - 1 < keys.members(),
        decreases m - d,
    {
        if slot[probe] == 0 {
            return (probe, Ghost(d));
        }
        let seen: usize = slot[probe] - 1;
        if key[probe] == hash && keys.equal(j, seen) {
            return (probe, Ghost(d));
        }
        proof {
            assert(d != far);
            d = d + 1;
        }
        probe = probe + 1;
        if probe == table {
            probe = 0;
        }
    }
}

/// What the dictionary knows of the first `j` members: `place` and `steps` say
/// where each first occurrence is named and how far that is from its hash.
spec fn indexed<K: Keyed>(
    keys: K,
    position: Seq<usize>,
    slot: Seq<usize>,
    key: Seq<usize>,
    place: Seq<int>,
    steps: Seq<int>,
    table: int,
    j: int,
) -> bool {
    &&& place.len() == j
    &&& steps.len() == j
    &&& forall|q: int|
        0 <= q < table && #[trigger] slot[q] != 0 ==> {
            let s = slot[q] - 1;
            &&& 0 <= s < j
            &&& position[s] == s
            &&& key[q] == keys.hashed(s, table)
            &&& place[s] == q
        }
    &&& forall|s: int|
        0 <= s < j && #[trigger] position[s] == s ==> {
            &&& 0 <= steps[s] < table
            &&& place[s] == round(keys.hashed(s, table), steps[s], table)
            &&& 0 <= place[s] < table
            &&& slot[place[s]] == s + 1
        }
    &&& forall|s: int, e: int|
        #![trigger position[s], round(keys.hashed(s, table), e, table)]
        0 <= s < j && position[s] == s && 0 <= e < steps[s] ==> slot[round(
            keys.hashed(s, table),
            e,
            table,
        )] != 0
}

/// Writes the first occurrence of each of `n` members, and counts the
/// members that are their own.
pub fn firsts<K: Keyed>(
    keys: &K,
    n: usize,
    table: usize,
    position: &mut [usize],
    slot: &mut [usize],
    key: &mut [usize],
) -> (distinct: usize)
    requires
        n < table,
        n <= keys.members(),
        old(position)@.len() == n,
        old(slot)@.len() >= table,
        old(key)@.len() >= table,
    ensures
        final(position)@.len() == n,
        final(slot)@.len() == old(slot)@.len(),
        final(key)@.len() == old(key)@.len(),
        firsts_known(*keys, final(position)@, n as int),
        distinct == own_count(final(position)@, n as int),
{
    let mut q: usize = 0;
    while q < table
        invariant
            q <= table <= slot@.len(),
            slot@.len() == old(slot)@.len(),
            forall|x: int| 0 <= x < q ==> slot@[x] == 0,
        decreases table - q,
    {
        slot[q] = 0;
        q = q + 1;
    }
    let mut distinct: usize = 0;
    let mut j: usize = 0;
    let ghost mut place: Seq<int> = Seq::empty();
    let ghost mut steps: Seq<int> = Seq::empty();
    let ghost m = table as int;
    while j < n
        invariant
            j <= n,
            n < table,
            m == table,
            n <= keys.members(),
            position@.len() == n,
            slot@.len() >= table,
            key@.len() >= table,
            slot@.len() == old(slot)@.len(),
            key@.len() == old(key)@.len(),
            firsts_known(*keys, position@, j as int),
            distinct == own_count(position@, j as int),
            distinct <= j,
            indexed(*keys, position@, slot@, key@, place, steps, m, j as int),
        decreases n - j,
    {
        let hash: usize = keys.hash(j, table);
        proof {
            keys.respects(j as int, j as int, m);
            lemma_room(slot@, place, m);
        }
        let (probe, Ghost(d)) = seek(keys, slot, key, table, j, hash);
        let ghost (slot0, key0, position0) = (slot@, key@, position@);
        if slot[probe] == 0 {
            proof {
                assert forall|i: int| 0 <= i < j implies !#[trigger] keys.same(i, j as int) by {
                    if keys.same(i, j as int) {
                        let f = position@[i] as int;
                        assert(is_first(*keys, f, i));
                        keys.equivalence(f, i, j as int);
                        keys.equivalence(j as int, f, i);
                        keys.equivalence(f, j as int, i);
                        // The class of `j` is named in the dictionary.
                        assert(position@[f] == f) by {
                            let g = position@[f] as int;
                            assert(is_first(*keys, g, f));
                            keys.equivalence(g, f, i);
                            assert(keys.same(g, i));
                        }
                        keys.respects(f, j as int, m);
                        if steps[f] < d {
                            let q = round(hash as int, steps[f], m);
                            assert(slot@[q] == f + 1);
                        } else if steps[f] > d {
                            assert(slot@[round(keys.hashed(f, m), d, m)] != 0);
                        }
                    }
                }
                keys.equivalence(j as int, j as int, j as int);
            }
            slot[probe] = j + 1;
            key[probe] = hash;
            position[j] = j;
            distinct = distinct + 1;
            proof {
                place = place.push(probe as int);
                steps = steps.push(d);
                assert forall|s: int, e: int|
                    #![trigger position@[s], round(keys.hashed(s, m), e, m)]
                    0 <= s < j + 1 && position@[s] == s && 0 <= e < steps[s] implies slot@[round(
                    keys.hashed(s, m),
                    e,
                    m,
                )] != 0 by {
                    if s < j {
                        assert(position0[s] == s);
                        assert(slot0[round(keys.hashed(s, m), e, m)] != 0);
                    } else {
                        assert(slot0[round(hash as int, e, m)] != 0);
                    }
                }
            }
        } else {
            let seen: usize = slot[probe] - 1;
            position[j] = seen;
            proof {
                keys.equivalence(j as int, seen as int, seen as int);
                assert(is_first(*keys, position0[seen as int] as int, seen as int));
                assert forall|i: int| 0 <= i < seen implies !#[trigger] keys.same(i, j as int) by {
                    if keys.same(i, j as int) {
                        keys.equivalence(i, j as int, seen as int);
                        assert(keys.same(i, seen as int));
                    }
                }
                place = place.push(0);
                steps = steps.push(0);
                assert forall|s: int, e: int|
                    #![trigger position@[s], round(keys.hashed(s, m), e, m)]
                    0 <= s < j + 1 && position@[s] == s && 0 <= e < steps[s] implies slot@[round(
                    keys.hashed(s, m),
                    e,
                    m,
                )] != 0 by {
                    assert(s < j);
                    assert(position0[s] == s);
                }
            }
        }
        proof {
            lemma_own_count(position@, position0, j as int);
            assert forall|i: int| 0 <= i < j + 1 implies is_first(
                *keys,
                #[trigger] position@[i] as int,
                i,
            ) by {
                if i < j {
                    assert(position0[i] == position@[i]);
                }
            }
        }
        j = j + 1;
    }
    distinct
}

} // verus!
