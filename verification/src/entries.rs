//! The set of book entries that a block of columns addresses.
use crate::codec::Enumerable;
use crate::columns::places;
use crate::dictionary::round;
use crate::element::{Bound, Element};
use vstd::prelude::*;

verus! {

/// A set of places, in the order they were entered: `seen` is an
/// open-addressed table of places plus one, and `occupied` lists its slots.
pub struct EntrySet<'a> {
    pub seen: &'a mut [usize],
    pub occupied: &'a mut [usize],
    pub used: usize,
}

/// What entering a place did.
#[derive(Clone, Copy, PartialEq, Eq, Debug, Structural)]
pub enum EntryInsert {
    New,
    Present,
    Full,
}

/// The slot that a place is looked for first.
pub open spec fn home(index: int, extent: int) -> int {
    index % extent
}

/// Steps from `from` to `to`, going round.
pub open spec fn distance(from: int, to: int, extent: int) -> int {
    if to >= from {
        to - from
    } else {
        to - from + extent
    }
}

/// The places of `digits` in the order of their first occurrence.
pub open spec fn dedup(digits: Seq<nat>, n: int) -> Seq<usize>
    decreases n,
{
    if n <= 0 {
        Seq::empty()
    } else {
        let before = dedup(digits, n - 1);
        let next = digits[n - 1] as usize;
        if before.contains(next) {
            before
        } else {
            before.push(next)
        }
    }
}

pub proof fn lemma_dedup_grows(digits: Seq<nat>, k: int, n: int)
    requires
        0 <= k <= n,
    ensures
        dedup(digits, k).len() <= dedup(digits, n).len(),
    decreases n - k,
{
    if k < n {
        lemma_dedup_grows(digits, k, n - 1);
    }
}

/// Every place is in the list of first occurrences.
pub proof fn lemma_dedup_contains(digits: Seq<nat>, n: int, at: int)
    requires
        0 <= at < n,
    ensures
        dedup(digits, n).contains(digits[at] as usize),
    decreases n,
{
    let before = dedup(digits, n - 1);
    let next = digits[n - 1] as usize;
    if at < n - 1 {
        lemma_dedup_contains(digits, n - 1, at);
        let x = choose|x: int| 0 <= x < before.len() && before[x] == digits[at] as usize;
        if !before.contains(next) {
            assert(before.push(next)[x] == digits[at] as usize);
        }
    } else if !before.contains(next) {
        assert(before.push(next)[before.len() as int] == next);
    }
}

/// Everything in the list of first occurrences is one of the places.
pub proof fn lemma_dedup_from(digits: Seq<nat>, n: int, x: int)
    requires
        0 <= x < dedup(digits, n).len(),
    ensures
        exists|at: int| 0 <= at < n && dedup(digits, n)[x] == #[trigger] digits[at] as usize,
    decreases n,
{
    if n > 0 {
        let before = dedup(digits, n - 1);
        if x < before.len() {
            lemma_dedup_from(digits, n - 1, x);
            let at = choose|at: int|
                0 <= at < n - 1 && before[x] == #[trigger] digits[at] as usize;
            assert(dedup(digits, n)[x] == digits[at] as usize);
        } else {
            assert(dedup(digits, n)[x] == digits[n - 1] as usize);
        }
    }
}

impl<'a> EntrySet<'a> {
    /// The places entered, in order.
    pub open spec fn items(self) -> Seq<usize> {
        Seq::new(self.used as nat, |at: int| (self.seen@[self.occupied@[at] as int] - 1) as usize)
    }

    /// The slots.
    pub open spec fn slots(self) -> Seq<usize> {
        self.seen@
    }

    /// Places that can be held.
    pub open spec fn room(self) -> int {
        if self.seen@.len() < self.occupied@.len() {
            self.seen@.len() as int
        } else {
            self.occupied@.len() as int
        }
    }

    /// The list names the slots in use, once each, and every place is reached
    /// from its home through slots in use.
    pub open spec fn wf(self) -> bool {
        let extent = self.seen@.len() as int;
        &&& self.used <= self.occupied@.len()
        &&& forall|at: int|
            0 <= at < self.used ==> #[trigger] self.occupied@[at] < extent
                && self.seen@[self.occupied@[at] as int] != 0
        &&& forall|a: int, b: int|
            0 <= a < b < self.used ==> #[trigger] self.occupied@[a] != #[trigger] self.occupied@[b]
        &&& forall|q: int|
            0 <= q < extent && #[trigger] self.seen@[q] != 0 ==> exists|at: int|
                0 <= at < self.used && #[trigger] self.occupied@[at] == q
        &&& forall|p: int, q: int|
            0 <= p < extent && 0 <= q < extent && #[trigger] self.seen@[p] != 0
                && #[trigger] self.seen@[q] == self.seen@[p] ==> p == q
        &&& forall|q: int, e: int|
            #![trigger self.seen@[q], round(home(self.seen@[q] - 1, extent), e, extent)]
            0 <= q < extent && self.seen@[q] != 0 && 0 <= e < distance(
                home(self.seen@[q] - 1, extent),
                q,
                extent,
            ) ==> self.seen@[round(home(self.seen@[q] - 1, extent), e, extent)] != 0
    }

    /// Nothing is entered and every slot is free.
    pub open spec fn empty(self) -> bool {
        &&& self.used == 0
        &&& forall|q: int| 0 <= q < self.seen@.len() ==> #[trigger] self.seen@[q] == 0
    }

    /// The storage and its extents are those of `before`.
    pub open spec fn same_storage(self, before: Self) -> bool {
        &&& self.seen@.len() == before.seen@.len()
        &&& self.occupied@.len() == before.occupied@.len()
    }

    /// A place is in a slot exactly when it is in the list.
    proof fn lemma_listed(self, index: usize)
        requires
            self.wf(),
        ensures
            self.items().contains(index) <==> exists|q: int|
                0 <= q < self.slots().len() && #[trigger] self.slots()[q] == index + 1,
    {
        if self.items().contains(index) {
            let at = choose|at: int|
                0 <= at < self.items().len() && self.items()[at] == index;
            let q = self.occupied@[at] as int;
            assert(self.slots()[q] == index + 1);
        }
        if exists|q: int| 0 <= q < self.slots().len() && #[trigger] self.slots()[q] == index + 1 {
            let q = choose|q: int|
                0 <= q < self.slots().len() && #[trigger] self.slots()[q] == index + 1;
            assert(self.seen@[q] != 0);
            let at = choose|at: int| 0 <= at < self.used && #[trigger] self.occupied@[at] == q;
            assert(self.items()[at] == index);
        }
    }

    /// A slot is free exactly when fewer places than slots are entered.
    proof fn lemma_free_slot(self)
        requires
            self.wf(),
        ensures
            self.used <= self.slots().len(),
            self.used < self.slots().len() <==> exists|q: int|
                0 <= q < self.slots().len() && #[trigger] self.slots()[q] == 0,
    {
        let extent = self.seen@.len() as int;
        let all = vstd::set_lib::set_int_range(0, extent);
        vstd::set_lib::lemma_int_range(0, extent);
        let slots = Seq::new(self.used as nat, |at: int| self.occupied@[at] as int);
        assert(slots.no_duplicates()) by {
            assert forall|a: int, b: int|
                0 <= a < slots.len() && 0 <= b < slots.len() && a != b implies slots[a]
                != slots[b] by {
                if a < b {
                    assert(self.occupied@[a] != self.occupied@[b]);
                } else {
                    assert(self.occupied@[b] != self.occupied@[a]);
                }
            }
        }
        slots.unique_seq_to_set();
        vstd::seq_lib::seq_to_set_is_finite(slots);
        assert forall|q: int| slots.to_set().contains(q) implies all.contains(q) by {
            let at = choose|at: int| 0 <= at < slots.len() && slots[at] == q;
            assert(self.occupied@[at] == q);
        }
        vstd::set_lib::lemma_len_subset(slots.to_set(), all);
        if exists|q: int| 0 <= q < extent && #[trigger] self.seen@[q] == 0 {
            let q = choose|q: int| 0 <= q < extent && #[trigger] self.seen@[q] == 0;
            assert(!slots.to_set().contains(q)) by {
                if slots.contains(q) {
                    let at = choose|at: int| 0 <= at < slots.len() && slots[at] == q;
                    assert(self.seen@[self.occupied@[at] as int] != 0);
                }
            }
            if self.used == extent {
                vstd::set_lib::lemma_subset_equality(slots.to_set(), all);
            }
        } else {
            assert forall|q: int| all.contains(q) implies slots.to_set().contains(q) by {
                assert(self.seen@[q] != 0);
                let at = choose|at: int| 0 <= at < self.used && #[trigger] self.occupied@[at] == q;
                assert(slots[at] == q);
            }
            vstd::set_lib::lemma_len_subset(all, slots.to_set());
        }
    }

    /// Enters a place.
    pub fn insert(&mut self, index: usize) -> (r: EntryInsert)
        requires
            old(self).wf(),
        ensures
            final(self).wf(),
            final(self).same_storage(*old(self)),
            final(final(self).seen)@ == final(old(self).seen)@,
            final(final(self).occupied)@ == final(old(self).occupied)@,
            old(self).items().contains(index) && index < usize::MAX <==> r == EntryInsert::Present,
            !old(self).items().contains(index) && index < usize::MAX && old(self).used < old(self).room() <==> r == EntryInsert::New,
            r == EntryInsert::New ==> final(self).items() == old(self).items().push(index),
            r != EntryInsert::New ==> final(self).items() == old(self).items(),
            r != EntryInsert::New ==> final(self).used == old(self).used,
    {
        proof {
            self.lemma_listed(index);
            self.lemma_free_slot();
        }
        let ghost start = *self;
        if index == usize::MAX {
            return EntryInsert::Full;
        }
        let key: usize = index + 1;
        if self.seen.len() == 0 {
            return EntryInsert::Full;
        }
        let extent: usize = self.seen.len();
        let mut probe: usize = if index < extent {
            index
        } else {
            index % extent
        };
        let ghost m = extent as int;
        let ghost h = home(index as int, m);
        proof {
            if index < extent {
                vstd::arithmetic::div_mod::lemma_small_mod(index as nat, extent as nat);
            }
        }
        let mut tried: usize = 0;
        while tried < extent
            invariant
                *self == start,
                start == *old(self),
                start.wf(),
                tried <= extent,
                extent == m == start.seen@.len(),
                0 <= h < m,
                h == home(index as int, m),
                key == index + 1,
                probe < extent,
                tried < extent ==> probe == round(h, tried as int, m),
                forall|e: int|
                    #![trigger round(h, e, m)]
                    0 <= e < tried ==> start.seen@[round(h, e, m)] != 0 && start.seen@[round(
                        h,
                        e,
                        m,
                    )] != key,
                index < usize::MAX,
                start.used <= start.seen@.len(),
                start.used < start.seen@.len() <==> exists|q: int|
                    0 <= q < start.seen@.len() && #[trigger] start.seen@[q] == 0,
                start.items().contains(index) <==> exists|q: int|
                    0 <= q < start.seen@.len() && #[trigger] start.seen@[q] == index + 1,
            decreases extent - tried,
        {
            let held: usize = self.seen[probe];
            if held == 0 {
                proof {
                    assert(!start.items().contains(index)) by {
                        if start.items().contains(index) {
                            let q = choose|q: int|
                                0 <= q < start.seen@.len() && #[trigger] start.seen@[q] == index
                                    + 1;
                            let away = distance(h, q, m);
                            assert(round(h, away, m) == q);
                            if away > tried {
                                assert(start.seen@[round(
                                    home(start.seen@[q] - 1, m),
                                    tried as int,
                                    m,
                                )] != 0);
                            }
                        }
                    }
                }
                if self.used < self.occupied.len() {
                    self.seen[probe] = key;
                    self.occupied[self.used] = probe;
                    self.used = self.used + 1;
                    proof {
                        Self::lemma_entered(start, *self, index, probe, tried as int);
                    }
                    return EntryInsert::New;
                }
                return EntryInsert::Full;
            }
            if held == key {
                return EntryInsert::Present;
            }
            proof {
                assert(start.seen@[round(h, tried as int, m)] != 0);
            }
            tried = tried + 1;
            probe = probe + 1;
            if probe == extent {
                probe = 0;
            }
        }
        proof {
            assert forall|q: int| 0 <= q < m implies #[trigger] start.seen@[q] != 0
                && start.seen@[q] != key by {
                let away = distance(h, q, m);
                assert(round(h, away, m) == q);
            }
        }
        EntryInsert::Full
    }

    proof fn lemma_entered(before: Self, after: Self, index: usize, probe: usize, d: int)
        requires
            before.wf(),
            index < usize::MAX,
            !before.items().contains(index),
            before.used < before.occupied@.len(),
            probe < before.seen@.len(),
            before.seen@[probe as int] == 0,
            after.seen@ == before.seen@.update(probe as int, (index + 1) as usize),
            after.occupied@ == before.occupied@.update(before.used as int, probe),
            after.used == before.used + 1,
            0 <= d < before.seen@.len(),
            probe == round(
                home(index as int, before.seen@.len() as int),
                d,
                before.seen@.len() as int,
            ),
            forall|e: int|
                #![trigger round(home(index as int, before.seen@.len() as int), e, before.seen@.len() as int)]
                0 <= e < d ==> before.seen@[round(
                    home(index as int, before.seen@.len() as int),
                    e,
                    before.seen@.len() as int,
                )] != 0,
        ensures
            after.wf(),
            after.items() == before.items().push(index),
    {
        before.lemma_listed(index);
        let m = before.seen@.len() as int;
        let h = home(index as int, m);
        assert forall|at: int| 0 <= at < after.used implies #[trigger] after.occupied@[at] < m
            && after.seen@[after.occupied@[at] as int] != 0 by {
            if at < before.used {
                assert(before.occupied@[at] < m);
            }
        }
        assert forall|a: int, b: int| 0 <= a < b < after.used implies #[trigger] after.occupied@[a]
            != #[trigger] after.occupied@[b] by {
            if b == before.used {
                assert(before.seen@[before.occupied@[a] as int] != 0);
            } else {
                assert(before.occupied@[a] != before.occupied@[b]);
            }
        }
        assert forall|q: int| 0 <= q < m && #[trigger] after.seen@[q] != 0 implies exists|at: int|
            0 <= at < after.used && #[trigger] after.occupied@[at] == q by {
            if q == probe {
                assert(after.occupied@[before.used as int] == q);
            } else {
                assert(before.seen@[q] != 0);
                let at = choose|at: int| 0 <= at < before.used && #[trigger] before.occupied@[at]
                    == q;
                assert(after.occupied@[at] == q);
            }
        }
        assert forall|p: int, q: int|
            0 <= p < m && 0 <= q < m && #[trigger] after.seen@[p] != 0 && #[trigger] after.seen@[q]
                == after.seen@[p] implies p == q by {
            if p != probe && q != probe {
                assert(before.seen@[p] != 0 && before.seen@[q] == before.seen@[p]);
            } else if p != probe {
                assert(before.slots()[p] == index + 1);
            } else if q != probe {
                assert(before.slots()[q] == index + 1);
            }
        }
        assert forall|q: int, e: int|
            #![trigger after.seen@[q], round(home(after.seen@[q] - 1, m), e, m)]
            0 <= q < m && after.seen@[q] != 0 && 0 <= e < distance(
                home(after.seen@[q] - 1, m),
                q,
                m,
            ) implies after.seen@[round(home(after.seen@[q] - 1, m), e, m)] != 0 by {
            if q == probe {
                assert(distance(h, q, m) == d);
                assert(before.seen@[round(h, e, m)] != 0);
            } else {
                assert(before.seen@[round(home(before.seen@[q] - 1, m), e, m)] != 0);
            }
        }
        assert forall|at: int| 0 <= at < after.used implies after.items()[at]
            == before.items().push(index)[at] by {
            if at < before.used {
                assert(before.seen@[before.occupied@[at] as int] != 0);
            }
        }
        assert(after.items() =~= before.items().push(index));
    }

    /// Places entered.
    pub fn len(&self) -> (r: usize)
        ensures
            r == self.used,
    {
        self.used
    }

    /// The place entered at `at`.
    pub fn index(&self, at: usize) -> (r: usize)
        requires
            self.wf(),
            at < self.used,
        ensures
            r == self.items()[at as int],
    {
        self.seen[self.occupied[at]] - 1
    }

    /// Forgets every place.
    pub fn clear(&mut self)
        requires
            old(self).wf(),
        ensures
            final(self).empty(),
            final(self).wf(),
            final(self).same_storage(*old(self)),
            final(final(self).seen)@ == final(old(self).seen)@,
            final(final(self).occupied)@ == final(old(self).occupied)@,
    {
        let ghost start = *self;
        let mut at: usize = 0;
        while at < self.used
            invariant
                start == *old(self),
                start.wf(),
                at <= self.used,
                self.used == start.used,
                self.occupied@ == start.occupied@,
                self.seen@.len() == start.seen@.len(),
                final(self.seen)@ == final(old(self).seen)@,
                final(self.occupied)@ == final(old(self).occupied)@,
                forall|x: int|
                    #![trigger start.occupied@[x]]
                    0 <= x < at ==> self.seen@[start.occupied@[x] as int] == 0,
                forall|q: int|
                    0 <= q < start.seen@.len() && start.seen@[q] == 0 ==> #[trigger] self.seen@[q]
                        == 0,
            decreases self.used - at,
        {
            let probe: usize = self.occupied[at];
            assert(start.occupied@[at as int] < start.seen@.len());
            self.seen[probe] = 0;
            at = at + 1;
        }
        proof {
            assert forall|q: int| 0 <= q < self.seen@.len() implies #[trigger] self.seen@[q]
                == 0 by {
                if start.seen@[q] != 0 {
                    let x = choose|x: int| 0 <= x < start.used && #[trigger] start.occupied@[x]
                        == q;
                    assert(self.seen@[start.occupied@[x] as int] == 0);
                }
            }
        }
        self.used = 0;
    }

    /// Enters every place that the codes name and lists them in order of first
    /// occurrence at the head of `occupied`, leaving every slot free; declines,
    /// with nothing entered, where they are too many.
    pub fn collect<E: Element, Bd: Bound, C: Enumerable<E, Bd>>(
        &mut self,
        codes: &[C::Code],
    ) -> (r: Option<usize>)
        requires
            old(self).empty(),
            forall|i: int|
                0 <= i < codes@.len() ==> C::valid(#[trigger] codes@[i]) && C::index(codes@[i])
                    < usize::MAX,
        ensures
            r is Some <==> dedup(places::<E, Bd, C>(codes@), codes@.len() as int).len() <= old(self).room(),
            final(self).same_storage(*old(self)),
            final(final(self).seen)@ == final(old(self).seen)@,
            final(final(self).occupied)@ == final(old(self).occupied)@,
            forall|q: int|
                0 <= q < final(self).seen@.len() ==> #[trigger] final(self).seen@[q] == 0,
            r is None ==> final(self).used == 0,
            r matches Some(count) ==> {
                &&& final(self).used == count <= final(self).occupied@.len()
                &&& final(self).occupied@.subrange(0, count as int) == dedup(
                    places::<E, Bd, C>(codes@),
                    codes@.len() as int,
                )
            },
    {
        let ghost digits = places::<E, Bd, C>(codes@);
        let mut k: usize = 0;
        assert(self.items() =~= dedup(digits, 0));
        while k < codes.len()
            invariant
                k <= codes@.len(),
                digits == places::<E, Bd, C>(codes@),
                self.wf(),
                self.same_storage(*old(self)),
                final(self.seen)@ == final(old(self).seen)@,
                final(self.occupied)@ == final(old(self).occupied)@,
                self.items() == dedup(digits, k as int),
                forall|i: int|
                    0 <= i < codes@.len() ==> C::valid(#[trigger] codes@[i]) && C::index(codes@[i])
                        < usize::MAX,
                self.used <= self.room(),
                self.room() == old(self).room(),
            decreases codes@.len() - k,
        {
            let index: usize = C::index_of(codes[k]);
            proof {
                assert(digits[k as int] as usize == index);
                self.lemma_free_slot();
                assert(self.items().len() == self.used);
            }
            let entered: EntryInsert = self.insert(index);
            if entered == EntryInsert::Full {
                proof {
                    assert(dedup(digits, k + 1).len() > self.room());
                    lemma_dedup_grows(digits, k + 1, codes@.len() as int);
                }
                self.clear();
                return None;
            }
            assert(self.items().len() == self.used);
            k = k + 1;
        }
        let count: usize = self.used;
        let ghost start = *self;
        let mut at: usize = 0;
        while at < count
            invariant
                start.wf(),
                count == start.used,
                at <= count,
                self.used == count,
                self.same_storage(start),
                self.same_storage(*old(self)),
                final(self.seen)@ == final(old(self).seen)@,
                final(self.occupied)@ == final(old(self).occupied)@,
                forall|x: int|
                    0 <= x < at ==> #[trigger] self.occupied@[x] == start.items()[x],
                forall|x: int|
                    #![trigger start.occupied@[x]]
                    0 <= x < at ==> self.seen@[start.occupied@[x] as int] == 0,
                forall|x: int|
                    at <= x < start.occupied@.len() ==> #[trigger] self.occupied@[x]
                        == start.occupied@[x],
                forall|q: int|
                    0 <= q < start.seen@.len() && start.seen@[q] == 0 ==> #[trigger] self.seen@[q]
                        == 0,
                forall|x: int|
                    #![trigger start.occupied@[x]]
                    at <= x < count ==> self.seen@[start.occupied@[x] as int]
                        == start.seen@[start.occupied@[x] as int],
            decreases count - at,
        {
            assert(self.occupied@[at as int] == start.occupied@[at as int]);
            let slot: usize = self.occupied[at];
            let ghost last = self.seen@;
            self.occupied[at] = self.seen[slot] - 1;
            self.seen[slot] = 0;
            proof {
                assert forall|x: int|
                    #![trigger start.occupied@[x]]
                    at + 1 <= x < count implies self.seen@[start.occupied@[x] as int]
                    == start.seen@[start.occupied@[x] as int] by {
                    assert(start.occupied@[at as int] != start.occupied@[x]);
                }
            }
            at = at + 1;
        }
        proof {
            assert forall|q: int| 0 <= q < self.seen@.len() implies #[trigger] self.seen@[q]
                == 0 by {
                if start.seen@[q] != 0 {
                    let x = choose|x: int| 0 <= x < start.used && #[trigger] start.occupied@[x]
                        == q;
                    assert(self.seen@[start.occupied@[x] as int] == 0);
                }
            }
            assert(self.occupied@.subrange(0, count as int) =~= dedup(
                digits,
                codes@.len() as int,
            ));
        }
        Some(count)
    }

    /// The first `count` places listed.
    pub open spec fn listed(self, count: int) -> Seq<usize> {
        self.occupied@.subrange(0, count)
    }

    /// Places that can be listed.
    pub open spec fn list_len(self) -> int {
        self.occupied@.len() as int
    }

    /// The places that a collection listed.
    pub fn collected(&self, count: usize) -> (r: &[usize])
        requires
            count <= self.list_len(),
        ensures
            r@ == self.listed(count as int),
    {
        vstd::slice::slice_subrange(&*self.occupied, 0, count)
    }

    /// Lets go of the list of a collection.
    pub fn release_collected(&mut self)
        requires
            forall|q: int| 0 <= q < old(self).seen@.len() ==> #[trigger] old(self).seen@[q] == 0,
        ensures
            final(self).empty(),
            final(self).wf(),
            final(self).seen@ == old(self).seen@,
            final(self).occupied@ == old(self).occupied@,
            final(final(self).seen)@ == final(old(self).seen)@,
            final(final(self).occupied)@ == final(old(self).occupied)@,
    {
        self.used = 0;
    }
}

} // verus!
