//! What a call did, counted.
use vstd::prelude::*;

verus! {

/// Amounts of work, as exact numbers.
#[verifier::ext_equal]
pub ghost struct Tally {
    pub multiplies: nat,
    pub adds: nat,
    pub reads: nat,
    pub decodes: nat,
    pub calls: nat,
}

impl Tally {
    pub open spec fn none() -> Tally {
        Tally { multiplies: 0, adds: 0, reads: 0, decodes: 0, calls: 0 }
    }

    pub open spec fn plus(self, other: Tally) -> Tally {
        Tally {
            multiplies: self.multiplies + other.multiplies,
            adds: self.adds + other.adds,
            reads: self.reads + other.reads,
            decodes: self.decodes + other.decodes,
            calls: self.calls + other.calls,
        }
    }

    pub open spec fn multiplying(n: nat) -> Tally {
        Tally { multiplies: n, ..Tally::none() }
    }

    pub open spec fn adding(n: nat) -> Tally {
        Tally { adds: n, ..Tally::none() }
    }

    pub open spec fn reading(n: nat) -> Tally {
        Tally { reads: n, ..Tally::none() }
    }

    pub open spec fn decoding(n: nat) -> Tally {
        Tally { decodes: n, ..Tally::none() }
    }

    pub open spec fn gathering(n: nat) -> Tally {
        Tally { reads: n, adds: n, ..Tally::none() }
    }

    pub open spec fn calling(n: nat) -> Tally {
        Tally { calls: n, ..Tally::none() }
    }
}

/// `n`, or the largest counter where `n` is larger.
pub open spec fn capped(n: int) -> u64 {
    if n > u64::MAX {
        u64::MAX
    } else {
        n as u64
    }
}

/// The work of a call, in counters that saturate.
#[derive(Clone, Copy, PartialEq, Eq, Debug, Default, Structural)]
pub struct Census {
    /// Multiplications issued: by table builds and by the streamed dot product.
    pub multiplies: u64,
    /// Additions issued: one per table entry gathered, and the builds that add.
    pub adds: u64,
    /// Table entries read.
    pub table_reads: u64,
    /// Weight elements decoded.
    pub decodes: u64,
    /// Dense kernel calls made.
    pub kernel_calls: u64,
}

/// Something that counts work.
pub trait Ledger: Sized {
    /// The ledger after the work `t` has been entered in it.
    spec fn charged(self, t: Tally) -> Self;

    /// Work entered in two parts is work entered at once.
    proof fn charges_compose(self, s: Tally, t: Tally)
        ensures
            self.charged(s).charged(t) == self.charged(s.plus(t)),
    ;

    /// Entering no work changes nothing.
    proof fn charges_nothing(self)
        ensures
            self.charged(Tally::none()) == self,
    ;

    /// No counter tells amounts past the largest `u64` apart.
    proof fn charges_saturate(self, t: Tally)
        ensures
            self.charged(t) == self.charged(
                (Tally {
                    multiplies: capped(t.multiplies as int) as nat,
                    adds: capped(t.adds as int) as nat,
                    reads: capped(t.reads as int) as nat,
                    decodes: capped(t.decodes as int) as nat,
                    calls: capped(t.calls as int) as nat,
                }),
            ),
    ;

    /// Enters `n` multiplications.
    fn multiplied(&mut self, n: u64)
        ensures
            *final(self) == old(self).charged(Tally::multiplying(n as nat)),
    ;

    /// Enters `n` additions.
    fn added(&mut self, n: u64)
        ensures
            *final(self) == old(self).charged(Tally::adding(n as nat)),
    ;

    /// Enters `n` table reads.
    fn read(&mut self, n: u64)
        ensures
            *final(self) == old(self).charged(Tally::reading(n as nat)),
    ;

    /// Enters `n` decoded elements.
    fn decoded(&mut self, n: u64)
        ensures
            *final(self) == old(self).charged(Tally::decoding(n as nat)),
    ;

    /// Enters one dense kernel call.
    fn kernelled(&mut self)
        ensures
            *final(self) == old(self).charged(Tally::calling(1)),
    ;
}

impl Ledger for () {
    open spec fn charged(self, t: Tally) -> Self {
        self
    }

    proof fn charges_compose(self, s: Tally, t: Tally) {
    }

    proof fn charges_nothing(self) {
    }

    proof fn charges_saturate(self, t: Tally) {
    }

    fn multiplied(&mut self, n: u64) {
    }

    fn added(&mut self, n: u64) {
    }

    fn read(&mut self, n: u64) {
    }

    fn decoded(&mut self, n: u64) {
    }

    fn kernelled(&mut self) {
    }
}

impl Ledger for Census {
    open spec fn charged(self, t: Tally) -> Self {
        Census {
            multiplies: capped(self.multiplies + t.multiplies),
            adds: capped(self.adds + t.adds),
            table_reads: capped(self.table_reads + t.reads),
            decodes: capped(self.decodes + t.decodes),
            kernel_calls: capped(self.kernel_calls + t.calls),
        }
    }

    proof fn charges_compose(self, s: Tally, t: Tally) {
    }

    proof fn charges_nothing(self) {
    }

    proof fn charges_saturate(self, t: Tally) {
    }

    fn multiplied(&mut self, n: u64) {
        self.multiplies = self.multiplies.saturating_add(n);
    }

    fn added(&mut self, n: u64) {
        self.adds = self.adds.saturating_add(n);
    }

    fn read(&mut self, n: u64) {
        self.table_reads = self.table_reads.saturating_add(n);
    }

    fn decoded(&mut self, n: u64) {
        self.decodes = self.decodes.saturating_add(n);
    }

    fn kernelled(&mut self) {
        self.kernel_calls = self.kernel_calls.saturating_add(1);
    }
}

/// An extent as a counter amount.
pub fn count_factor(n: usize) -> (r: u64)
    ensures
        r == capped(n as int),
        r == n,
{
    n as u64
}

/// The product of two extents as a counter amount.
pub fn count_product2(a: usize, b: usize) -> (r: u64)
    ensures
        r == capped(a * b),
{
    saturating_product(count_factor(a), count_factor(b))
}

/// The product of three extents as a counter amount.
pub fn count_product3(a: usize, b: usize, c: usize) -> (r: u64)
    ensures
        r == capped(a * b * c),
{
    let ab: u64 = count_product2(a, b);
    proof {
        assert(a * b >= 0) by (nonlinear_arith);
        if a * b > u64::MAX {
            assert(c == 0 ==> a * b * c == 0 && u64::MAX * c == 0) by (nonlinear_arith);
            assert(c >= 1 ==> a * b * c > u64::MAX) by (nonlinear_arith)
                requires
                    a * b > u64::MAX,
            ;
            assert(c >= 1 ==> u64::MAX * c >= u64::MAX) by (nonlinear_arith);
        }
    }
    saturating_product(ab, count_factor(c))
}

/// The sum of two counter amounts, saturating.
pub fn count_sum2(a: u64, b: u64) -> (r: u64)
    ensures
        r == capped(a + b),
{
    a.saturating_add(b)
}

/// Enters the multiplications of a box of products.
pub fn enter_multiplied<Lg: Ledger>(ledger: &mut Lg, a: usize, b: usize, c: usize)
    ensures
        *final(ledger) == old(ledger).charged(Tally::multiplying((a * b * c) as nat)),
{
    let n: u64 = count_product3(a, b, c);
    proof {
        lemma_box(a as int, b as int, c as int);
        ledger.charges_saturate(Tally::multiplying((a * b * c) as nat));
    }
    ledger.multiplied(n);
}

/// Enters the additions of a box of products.
pub fn enter_added<Lg: Ledger>(ledger: &mut Lg, a: usize, b: usize, c: usize)
    ensures
        *final(ledger) == old(ledger).charged(Tally::adding((a * b * c) as nat)),
{
    let n: u64 = count_product3(a, b, c);
    proof {
        lemma_box(a as int, b as int, c as int);
        ledger.charges_saturate(Tally::adding((a * b * c) as nat));
    }
    ledger.added(n);
}

/// Enters a box of table entries, each read once and added once.
pub fn enter_gathered<Lg: Ledger>(ledger: &mut Lg, a: usize, b: usize, c: usize)
    ensures
        *final(ledger) == old(ledger).charged(Tally::gathering((a * b * c) as nat)),
{
    let n: u64 = count_product3(a, b, c);
    proof {
        lemma_box(a as int, b as int, c as int);
        ledger.charges_compose(Tally::reading(n as nat), Tally::adding(n as nat));
        ledger.charges_saturate(Tally::gathering((a * b * c) as nat));
        assert(Tally::reading(n as nat).plus(Tally::adding(n as nat)) == Tally::gathering(
            n as nat,
        ));
    }
    ledger.read(n);
    ledger.added(n);
}

/// Enters the elements of a rectangle as decoded.
pub fn enter_decoded<Lg: Ledger>(ledger: &mut Lg, a: usize, b: usize)
    ensures
        *final(ledger) == old(ledger).charged(Tally::decoding((a * b) as nat)),
{
    let n: u64 = count_product2(a, b);
    proof {
        assert(a * b >= 0) by (nonlinear_arith);
        ledger.charges_saturate(Tally::decoding((a * b) as nat));
    }
    ledger.decoded(n);
}

proof fn lemma_box(a: int, b: int, c: int)
    requires
        0 <= a,
        0 <= b,
        0 <= c,
    ensures
        0 <= a * b * c,
{
    assert(0 <= a * b) by (nonlinear_arith)
        requires
            0 <= a,
            0 <= b,
    ;
    assert(0 <= a * b * c) by (nonlinear_arith)
        requires
            0 <= a * b,
            0 <= c,
    ;
}

fn saturating_product(a: u64, b: u64) -> (r: u64)
    ensures
        r == capped(a * b),
{
    assert(a * b >= 0) by (nonlinear_arith);
    match a.checked_mul(b) {
        Some(p) => p,
        None => u64::MAX,
    }
}

} // verus!
