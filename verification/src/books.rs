//! Books held as tables: of whole entries, or of the digits that make them up.
use crate::arith::ceil_pow2_from;
use crate::codec::{Enumerable, IndexStream};
use crate::element::{Alphabet, Bound, Element};
use crate::sizing::{slab_codes, slab_of};
use vstd::prelude::*;

verus! {

/// A machine word that codes are stored in.
pub trait SymbolCode: Copy {
    /// The code as a number.
    spec fn place(self) -> nat;

    /// The code of a number.
    spec fn naming(place: int) -> Self;

    /// Numbers that codes of this width tell apart.
    spec fn room() -> nat;

    /// Codes and the numbers in their room are one and the same.
    proof fn round_trip(self, place: int)
        ensures
            0 < Self::room() <= usize::MAX,
            self.place() < Self::room(),
            0 <= place < Self::room() ==> Self::naming(place).place() == place,
    ;

    /// The code as a number.
    fn number(self) -> (r: usize)
        ensures
            r == self.place(),
    ;

    /// The code of a number.
    fn code(place: usize) -> (r: Self)
        requires
            place < Self::room(),
        ensures
            r == Self::naming(place as int),
    ;

    /// Numbers that codes of this width tell apart.
    fn width() -> (r: usize)
        ensures
            r == Self::room(),
    ;

    /// The codes as a stream of numbers.
    fn stream(codes: &[Self]) -> (r: IndexStream<'_>)
        ensures
            r.len() == codes@.len(),
            forall|i: int| 0 <= i < codes@.len() ==> #[trigger] r.at(i) == codes@[i].place(),
    ;
}

impl SymbolCode for u8 {
    open spec fn place(self) -> nat {
        self as nat
    }

    open spec fn naming(place: int) -> u8 {
        place as u8
    }

    open spec fn room() -> nat {
        0x100
    }

    proof fn round_trip(self, place: int) {
    }

    fn number(self) -> (r: usize) {
        self as usize
    }

    fn code(place: usize) -> (r: u8) {
        place as u8
    }

    fn width() -> (r: usize) {
        0x100
    }

    fn stream(codes: &[u8]) -> (r: IndexStream<'_>) {
        IndexStream::U8(codes)
    }
}

impl SymbolCode for u16 {
    open spec fn place(self) -> nat {
        self as nat
    }

    open spec fn naming(place: int) -> u16 {
        place as u16
    }

    open spec fn room() -> nat {
        0x1_0000
    }

    proof fn round_trip(self, place: int) {
    }

    fn number(self) -> (r: usize) {
        self as usize
    }

    fn code(place: usize) -> (r: u16) {
        place as u16
    }

    fn width() -> (r: usize) {
        0x1_0000
    }

    fn stream(codes: &[u16]) -> (r: IndexStream<'_>) {
        IndexStream::U16(codes)
    }
}

/// `N` entries of `B` elements each, named by codes that wrap around the book.
pub struct Book<'t, E, Bd, const N: usize, const B: usize, K> {
    pub entries: &'t [[Alphabet<E, Bd>; B]; N],
    pub codes: core::marker::PhantomData<K>,
}

impl<'t, E, Bd, const N: usize, const B: usize, K> Copy for Book<'t, E, Bd, N, B, K> {

}

impl<'t, E, Bd, const N: usize, const B: usize, K> Clone for Book<'t, E, Bd, N, B, K> {
    fn clone(&self) -> (r: Self)
        ensures
            r == *self,
    {
        *self
    }
}

impl<'t, E, Bd, const N: usize, const B: usize, K> Book<'t, E, Bd, N, B, K> {
    /// The book of a table.
    pub fn new(entries: &'t [[Alphabet<E, Bd>; B]; N]) -> (r: Self)
        ensures
            r.entries == entries,
    {
        Book { entries, codes: core::marker::PhantomData }
    }
}

impl<'t, E: Element, Bd: Bound, const N: usize, const B: usize, K: SymbolCode> Enumerable<
    E,
    Bd,
> for Book<'t, E, Bd, N, B, K> {
    type Code = K;

    open spec fn block() -> nat {
        B as nat
    }

    open spec fn space() -> nat {
        if 0 < N <= K::room() {
            N as nat
        } else {
            0
        }
    }

    open spec fn addressable() -> bool {
        true
    }

    open spec fn sign_book() -> bool {
        false
    }

    open spec fn streams() -> bool {
        slab_of(N as int) == N
    }

    open spec fn stored(code: K) -> int {
        code.place() as int
    }

    open spec fn ready(&self) -> bool {
        forall|c: int, t: int|
            0 <= c < N && 0 <= t < B ==> (#[trigger] self.entries@[c]@[t]).inv()
    }

    open spec fn valid(code: K) -> bool {
        0 < N <= K::room()
    }

    open spec fn decoded(&self, code: K, t: int) -> Alphabet<E, Bd> {
        self.entries@[code.place() as int % N as int]@[t]
    }

    open spec fn index(code: K) -> nat {
        (code.place() as int % N as int) as nat
    }

    open spec fn at_index(index: int) -> K {
        K::naming(index)
    }

    proof fn names(&self, code: K, t: int) {
        let c = code.place() as int % N as int;
        vstd::arithmetic::div_mod::lemma_mod_bound(code.place() as int, N as int);
        vstd::arithmetic::div_mod::lemma_small_mod(c as nat, N as nat);
        code.round_trip(c);
    }

    proof fn extents_fit() {
    }

    proof fn enumerates(index: int) {
        vstd::arithmetic::div_mod::lemma_small_mod(index as nat, N as nat);
        K::naming(index).round_trip(index);
    }

    fn max_block() -> (r: usize) {
        B
    }

    fn code_space() -> (r: usize) {
        if 0 < N && N <= K::width() {
            N
        } else {
            0
        }
    }

    fn is_addressable() -> (r: bool) {
        true
    }

    fn sign_bit_book() -> (r: bool) {
        false
    }

    fn decode_element(&self, code: K, t: usize) -> (r: Alphabet<E, Bd>) {
        proof {
            vstd::arithmetic::div_mod::lemma_mod_bound(code.place() as int, N as int);
        }
        self.entries[code.number() % N][t]
    }

    fn code_at(index: usize) -> (r: K) {
        K::code(index)
    }

    fn index_of(code: K) -> (r: usize) {
        code.number() % N
    }

    fn as_index_stream(codes: &[K]) -> (r: Option<IndexStream<'_>>) {
        if slab_codes(N) == N {
            Some(K::stream(codes))
        } else {
            None
        }
    }
}

/// Entries that an octet spells in `B` digits to the base `N`, the lowest first,
/// each digit naming a symbol. Where `SIGNS` is set the entries are all the sign
/// patterns of a block.
pub struct Digits<'t, E, Bd, const N: usize, const B: usize, K, const SIGNS: bool> {
    pub symbols: &'t [Alphabet<E, Bd>; N],
    pub codes: core::marker::PhantomData<K>,
}

impl<'t, E, Bd, const N: usize, const B: usize, K, const SIGNS: bool> Copy for Digits<
    't,
    E,
    Bd,
    N,
    B,
    K,
    SIGNS,
> {

}

impl<'t, E, Bd, const N: usize, const B: usize, K, const SIGNS: bool> Clone for Digits<
    't,
    E,
    Bd,
    N,
    B,
    K,
    SIGNS,
> {
    fn clone(&self) -> (r: Self)
        ensures
            r == *self,
    {
        *self
    }
}

impl<'t, E, Bd, const N: usize, const B: usize, K, const SIGNS: bool> Digits<
    't,
    E,
    Bd,
    N,
    B,
    K,
    SIGNS,
> {
    /// The book of a table of symbols.
    pub fn new(symbols: &'t [Alphabet<E, Bd>; N]) -> (r: Self)
        ensures
            r.symbols == symbols,
    {
        Digits { symbols, codes: core::marker::PhantomData }
    }
}

/// Digit `t` of a number to the base `n`.
pub open spec fn digit(x: int, n: int, t: int) -> int
    decreases t,
{
    if t <= 0 {
        x % n
    } else {
        digit(x / n, n, t - 1)
    }
}

proof fn lemma_digit(x: int, n: int, t: int)
    requires
        n > 0,
        x >= 0,
    ensures
        0 <= digit(x, n, t) < n,
    decreases t,
{
    if t <= 0 {
        vstd::arithmetic::div_mod::lemma_mod_bound(x, n);
    } else {
        vstd::arithmetic::div_mod::lemma_div_pos_is_pos(x, n);
        lemma_digit(x / n, n, t - 1);
    }
}

/// Digit `t` of a number to the base `n`.
fn digit_of(x: usize, n: usize, t: usize) -> (r: usize)
    requires
        n > 0,
    ensures
        r == digit(x as int, n as int, t as int),
        r < n,
{
    let mut rest: usize = x;
    let mut left: usize = t;
    while left > 0
        invariant
            n > 0,
            0 <= left <= t,
            digit(rest as int, n as int, left as int) == digit(x as int, n as int, t as int),
        decreases left,
    {
        rest = rest / n;
        left -= 1;
    }
    rest % n
}

impl<
    't,
    E: Element,
    Bd: Bound,
    const N: usize,
    const B: usize,
    K: SymbolCode,
    const SIGNS: bool,
> Enumerable<E, Bd> for Digits<'t, E, Bd, N, B, K, SIGNS> {
    type Code = K;

    open spec fn block() -> nat {
        B as nat
    }

    open spec fn space() -> nat {
        if N > 0 && 0x100 <= K::room() {
            0x100
        } else {
            0
        }
    }

    open spec fn addressable() -> bool {
        true
    }

    open spec fn sign_book() -> bool {
        SIGNS
    }

    open spec fn streams() -> bool {
        true
    }

    open spec fn stored(code: K) -> int {
        code.place() as int
    }

    open spec fn ready(&self) -> bool {
        forall|c: int| 0 <= c < N ==> (#[trigger] self.symbols@[c]).inv()
    }

    open spec fn valid(code: K) -> bool {
        N > 0 && 0x100 <= K::room()
    }

    open spec fn decoded(&self, code: K, t: int) -> Alphabet<E, Bd> {
        self.symbols@[digit(code.place() as int % 0x100, N as int, t)]
    }

    open spec fn index(code: K) -> nat {
        (code.place() as int % 0x100) as nat
    }

    open spec fn at_index(index: int) -> K {
        K::naming(index)
    }

    proof fn names(&self, code: K, t: int) {
        let c = code.place() as int % 0x100;
        code.round_trip(c);
        lemma_digit(c, N as int, t);
    }

    proof fn extents_fit() {
    }

    proof fn enumerates(index: int) {
        K::naming(index).round_trip(index);
    }

    fn max_block() -> (r: usize) {
        B
    }

    fn code_space() -> (r: usize) {
        if N > 0 && 0x100 <= K::width() {
            0x100
        } else {
            0
        }
    }

    fn is_addressable() -> (r: bool) {
        true
    }

    fn sign_bit_book() -> (r: bool) {
        SIGNS
    }

    fn decode_element(&self, code: K, t: usize) -> (r: Alphabet<E, Bd>) {
        self.symbols[digit_of(code.number() % 0x100, N, t)]
    }

    fn code_at(index: usize) -> (r: K) {
        K::code(index)
    }

    fn index_of(code: K) -> (r: usize) {
        code.number() % 0x100
    }

    fn as_index_stream(codes: &[K]) -> (r: Option<IndexStream<'_>>) {
        proof {
            reveal_with_fuel(ceil_pow2_from, 10);
        }
        Some(K::stream(codes))
    }
}

} // verus!
