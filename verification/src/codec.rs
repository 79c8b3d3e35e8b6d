//! Codes, the books they name entries of, and matrices of them.
use crate::element::{Alphabet, Bound, Element};
use crate::sizing::slab_of;
use vstd::prelude::*;

verus! {

/// Codes spelled as small integers that a gather may mask by itself.
#[derive(Clone, Copy, Debug)]
pub enum IndexStream<'c> {
    U8(&'c [u8]),
    U16(&'c [u16]),
}

impl<'c> IndexStream<'c> {
    /// Codes in the stream.
    pub open spec fn len(self) -> int {
        match self {
            IndexStream::U8(s) => s@.len() as int,
            IndexStream::U16(s) => s@.len() as int,
        }
    }

    /// The code at `i` as a number.
    pub open spec fn at(self, i: int) -> int {
        match self {
            IndexStream::U8(s) => s@[i] as int,
            IndexStream::U16(s) => s@[i] as int,
        }
    }
}

/// A finite book of fixed-width entries, each a block of elements, with the
/// codes that name them.
pub trait Enumerable<E: Element, Bd: Bound>: Copy {
    /// What names an entry.
    type Code: Copy;

    /// Elements per entry.
    spec fn block() -> nat;

    /// Entries of the book.
    spec fn space() -> nat;

    /// One code addresses one entry by itself.
    spec fn addressable() -> bool;

    /// The entries are all the sign patterns of a block, in counting order.
    spec fn sign_book() -> bool;

    /// Codes are stored as numbers that masking by the slab extent turns into
    /// places.
    spec fn streams() -> bool;

    /// The number that a code is stored as.
    spec fn stored(code: Self::Code) -> int;

    /// The codec itself is usable.
    spec fn ready(&self) -> bool;

    /// A code that this book gives a meaning to.
    spec fn valid(code: Self::Code) -> bool;

    /// Element `t` of the entry that a code names.
    spec fn decoded(&self, code: Self::Code, t: int) -> Alphabet<E, Bd>;

    /// The place of a code's entry in the book.
    spec fn index(code: Self::Code) -> nat;

    /// A code of the entry at a place.
    spec fn at_index(index: int) -> Self::Code;

    /// A valid code's entry is in the book and is the one at its place, and
    /// entries are drawn from the alphabet.
    proof fn names(&self, code: Self::Code, t: int)
        requires
            self.ready(),
            Self::valid(code),
            0 <= t < Self::block(),
        ensures
            self.decoded(code, t).inv(),
            Self::space() > 0 ==> {
                &&& Self::index(code) < Self::space()
                &&& self.decoded(Self::at_index(Self::index(code) as int), t) == self.decoded(
                    code,
                    t,
                )
            },
    ;

    /// Every place of the book has a valid code whose place it is.
    proof fn enumerates(index: int)
        requires
            0 <= index < Self::space(),
        ensures
            Self::valid(Self::at_index(index)),
            Self::index(Self::at_index(index)) == index,
    ;

    /// Both extents are machine extents.
    proof fn extents_fit()
        ensures
            Self::block() <= usize::MAX,
            Self::space() <= usize::MAX,
    ;

    /// Elements per entry.
    fn max_block() -> (r: usize)
        ensures
            r == Self::block(),
    ;

    /// Entries of the book.
    fn code_space() -> (r: usize)
        ensures
            r == Self::space(),
    ;

    /// Whether one code addresses one entry by itself.
    fn is_addressable() -> (r: bool)
        ensures
            r == Self::addressable(),
    ;

    /// Whether the entries are all the sign patterns of a block.
    fn sign_bit_book() -> (r: bool)
        ensures
            r == Self::sign_book(),
    ;

    /// Element `t` of the entry that a code names.
    fn decode_element(&self, code: Self::Code, t: usize) -> (r: Alphabet<E, Bd>)
        requires
            self.ready(),
            Self::valid(code),
            t < Self::block(),
        ensures
            r == self.decoded(code, t as int),
    ;

    /// A code of the entry at a place.
    fn code_at(index: usize) -> (r: Self::Code)
        requires
            index < Self::space(),
        ensures
            r == Self::at_index(index as int),
    ;

    /// The place of a code's entry.
    fn index_of(code: Self::Code) -> (r: usize)
        requires
            Self::valid(code),
        ensures
            r == Self::index(code),
    ;

    /// The codes as the numbers they are stored as, where masking by the slab
    /// extent turns those into places.
    fn as_index_stream(codes: &[Self::Code]) -> (r: Option<IndexStream<'_>>)
        requires
            forall|i: int| 0 <= i < codes@.len() ==> Self::valid(#[trigger] codes@[i]),
        ensures
            r is Some <==> Self::streams(),
            r is Some ==> {
                &&& r->0.len() == codes@.len()
                &&& forall|i: int|
                    0 <= i < codes@.len() ==> #[trigger] r->0.at(i) == Self::stored(codes@[i])
            },
            r is Some && slab_of(Self::space() as int) > 0 ==> forall|i: int|
                0 <= i < codes@.len() ==> #[trigger] r->0.at(i) % slab_of(Self::space() as int)
                    == Self::index(codes@[i]),
    ;
}

/// Rows of codes: each row a column of weights, block after block.
pub struct CodedMatrix<'w, E: Element, Bd: Bound, C: Enumerable<E, Bd>> {
    pub codec: C,
    pub rows: usize,
    pub cols: usize,
    pub codes: &'w [C::Code],
}

impl<'w, E: Element, Bd: Bound, C: Enumerable<E, Bd>> Copy for CodedMatrix<'w, E, Bd, C> {

}

impl<'w, E: Element, Bd: Bound, C: Enumerable<E, Bd>> Clone for CodedMatrix<'w, E, Bd, C> {
    fn clone(&self) -> (r: Self)
        ensures
            r == *self,
    {
        *self
    }
}

impl<'w, E: Element, Bd: Bound, C: Enumerable<E, Bd>> CodedMatrix<'w, E, Bd, C> {
    /// Codes per row.
    pub open spec fn per_row(self) -> int {
        self.cols as int / C::block() as int
    }

    /// Whole blocks, one valid code for each.
    pub open spec fn wf(self) -> bool {
        &&& self.codec.ready()
        &&& C::block() > 0
        &&& self.cols as int % C::block() as int == 0
        &&& self.codes@.len() == self.rows * self.per_row()
        &&& forall|i: int| 0 <= i < self.codes@.len() ==> C::valid(#[trigger] self.codes@[i])
    }

    /// The code of block `p` of row `j`.
    pub open spec fn code(self, j: int, p: int) -> C::Code {
        self.codes@[j * self.per_row() + p]
    }

    /// The weight at `(j, p)`.
    pub open spec fn entry(self, j: int, p: int) -> Alphabet<E, Bd> {
        self.codec.decoded(self.code(j, p / C::block() as int), p % C::block() as int)
    }

    /// The matrix, where the codes are whole blocks and just enough.
    pub fn new(codec: C, rows: usize, cols: usize, codes: &'w [C::Code]) -> (r: Option<Self>)
        requires
            codec.ready(),
            forall|i: int| 0 <= i < codes@.len() ==> C::valid(#[trigger] codes@[i]),
        ensures
            r is Some <==> C::block() > 0 && cols as int % C::block() as int == 0 && codes@.len()
                == rows * (cols as int / C::block() as int),
            r matches Some(w) ==> w == (CodedMatrix::<'w, E, Bd, C> { codec, rows, cols, codes })
                && w.wf(),
    {
        let block: usize = C::max_block();
        if block == 0 || cols % block != 0 {
            return None;
        }
        let per_row: usize = cols / block;
        match rows.checked_mul(per_row) {
            None => {
                proof {
                    assert(codes.len() == codes@.len());
                    assert(rows * per_row >= 0) by (nonlinear_arith);
                }
                None
            },
            Some(want) => if codes.len() == want {
                Some(CodedMatrix { codec, rows, cols, codes })
            } else {
                None
            },
        }
    }

    /// Codes per row.
    pub fn codes_per_row(&self) -> (r: usize)
        requires
            self.wf(),
        ensures
            r == self.per_row(),
    {
        self.cols / C::max_block()
    }

    /// The block that holds element `p` of row `j` is there.
    pub proof fn lemma_code(self, j: int, p: int)
        requires
            self.wf(),
            0 <= j < self.rows,
            0 <= p < self.per_row(),
        ensures
            0 <= j * self.per_row() + p < self.codes@.len(),
            C::valid(self.code(j, p)),
    {
        let per = self.per_row();
        assert(0 <= j * per && j * per + per <= self.rows * per) by (nonlinear_arith)
            requires
                0 <= j < self.rows,
                0 <= per,
        ;
    }

    /// The block that holds element `p` of a row.
    pub proof fn lemma_block(self, p: int)
        requires
            self.wf(),
            0 <= p < self.cols,
        ensures
            0 <= p / C::block() as int,
            p / (C::block() as int) < self.per_row(),
            0 <= p % (C::block() as int),
            p % (C::block() as int) < C::block(),
            self.cols == self.per_row() * C::block(),
    {
        let b = C::block() as int;
        vstd::arithmetic::div_mod::lemma_fundamental_div_mod(p, b);
        vstd::arithmetic::div_mod::lemma_fundamental_div_mod(self.cols as int, b);
        let per = self.per_row();
        let q = p / b;
        assert(per * b == b * per) by (nonlinear_arith);
        assert(q < per) by (nonlinear_arith)
            requires
                b * q <= p,
                p < b * per,
                b > 0,
        ;
        vstd::arithmetic::div_mod::lemma_div_pos_is_pos(p, b);
    }

    /// Weights are drawn from the alphabet.
    pub proof fn lemma_entry(self, j: int, p: int)
        requires
            self.wf(),
            0 <= j < self.rows,
            0 <= p < self.cols,
        ensures
            self.entry(j, p).inv(),
    {
        self.lemma_block(p);
        self.lemma_code(j, p / C::block() as int);
        self.codec.names(self.code(j, p / C::block() as int), p % C::block() as int);
    }

    /// The weight at `(j, p)`.
    pub fn at(&self, j: usize, p: usize) -> (r: Alphabet<E, Bd>)
        requires
            self.wf(),
            j < self.rows,
            p < self.cols,
        ensures
            r == self.entry(j as int, p as int),
    {
        let block: usize = C::max_block();
        let per_row: usize = self.cols / block;
        proof {
            assert(self.codes.len() == self.codes@.len());
            self.lemma_block(p as int);
            self.lemma_code(j as int, p as int / C::block() as int);
            assert(0 <= j * self.per_row()) by (nonlinear_arith)
                requires
                    0 <= self.per_row(),
            ;
        }
        self.codec.decode_element(self.codes[j * per_row + p / block], p % block)
    }

    /// Decodes row `j` into the head of `panel`.
    pub fn decode_row_into(&self, j: usize, panel: &mut [E])
        requires
            self.wf(),
            j < self.rows,
            self.cols <= old(panel)@.len(),
        ensures
            final(panel)@.len() == old(panel)@.len(),
            forall|p: int|
                0 <= p < self.cols ==> #[trigger] final(panel)@[p] == self.entry(
                    j as int,
                    p,
                ).element(),
            forall|p: int|
                self.cols <= p < old(panel)@.len()
                    ==> #[trigger] final(panel)@[p] == old(panel)@[p],
    {
        let mut p: usize = 0;
        while p < self.cols
            invariant
                self.wf(),
                j < self.rows,
                p <= self.cols <= panel@.len(),
                panel@.len() == old(panel)@.len(),
                forall|q: int|
                    0 <= q < p ==> #[trigger] panel@[q] == self.entry(j as int, q).element(),
                forall|q: int|
                    self.cols <= q < old(panel)@.len() ==> #[trigger] panel@[q] == old(panel)@[q],
            decreases self.cols - p,
        {
            panel[p] = self.at(j, p).get();
            p = p + 1;
        }
    }
}

/// The entries of a book, named by their places.
pub struct AddressedCodec<C>(pub C);

impl<C: Copy> Copy for AddressedCodec<C> {

}

impl<C: Copy> Clone for AddressedCodec<C> {
    fn clone(&self) -> (r: Self)
        ensures
            r == *self,
    {
        *self
    }
}

impl<E: Element, Bd: Bound, C: Enumerable<E, Bd>> Enumerable<E, Bd> for AddressedCodec<C> {
    type Code = usize;

    open spec fn block() -> nat {
        if C::block() == 0 {
            0
        } else {
            1
        }
    }

    open spec fn space() -> nat {
        C::space()
    }

    open spec fn addressable() -> bool {
        C::addressable()
    }

    open spec fn sign_book() -> bool {
        false
    }

    open spec fn streams() -> bool {
        false
    }

    open spec fn stored(code: usize) -> int {
        code as int
    }

    open spec fn ready(&self) -> bool {
        self.0.ready()
    }

    open spec fn valid(code: usize) -> bool {
        code < C::space()
    }

    open spec fn decoded(&self, code: usize, t: int) -> Alphabet<E, Bd> {
        self.0.decoded(C::at_index(code as int), t)
    }

    open spec fn index(code: usize) -> nat {
        if C::space() == 0 {
            0
        } else {
            (code as int % C::space() as int) as nat
        }
    }

    open spec fn at_index(index: int) -> usize {
        index as usize
    }

    proof fn names(&self, code: usize, t: int) {
        C::enumerates(code as int);
        self.0.names(C::at_index(code as int), t);
        vstd::arithmetic::div_mod::lemma_small_mod(code as nat, C::space());
    }

    proof fn extents_fit() {
        C::extents_fit();
    }

    proof fn enumerates(index: int) {
        C::extents_fit();
        vstd::arithmetic::div_mod::lemma_small_mod(index as nat, C::space());
    }

    fn max_block() -> (r: usize) {
        if C::max_block() == 0 {
            0
        } else {
            1
        }
    }

    fn code_space() -> (r: usize) {
        C::code_space()
    }

    fn is_addressable() -> (r: bool) {
        C::is_addressable()
    }

    fn sign_bit_book() -> (r: bool) {
        false
    }

    fn decode_element(&self, code: usize, t: usize) -> (r: Alphabet<E, Bd>) {
        proof {
            C::enumerates(code as int);
        }
        self.0.decode_element(C::code_at(code), t)
    }

    fn code_at(index: usize) -> (r: usize) {
        index
    }

    fn index_of(code: usize) -> (r: usize) {
        let space: usize = C::code_space();
        if space == 0 {
            0
        } else {
            code % space
        }
    }

    fn as_index_stream(codes: &[usize]) -> (r: Option<IndexStream<'_>>) {
        None
    }
}

/// One coordinate of a book, as a book of blocks of one.
pub struct ScalarCodec<'a, C> {
    pub codec: &'a C,
    pub coordinate: usize,
}

impl<'a, C> Copy for ScalarCodec<'a, C> {

}

impl<'a, C> Clone for ScalarCodec<'a, C> {
    fn clone(&self) -> (r: Self)
        ensures
            r == *self,
    {
        *self
    }
}

impl<'a, E: Element, Bd: Bound, C: Enumerable<E, Bd>> Enumerable<E, Bd> for ScalarCodec<'a, C> {
    type Code = C::Code;

    open spec fn block() -> nat {
        1
    }

    open spec fn space() -> nat {
        C::space()
    }

    open spec fn addressable() -> bool {
        C::addressable()
    }

    open spec fn sign_book() -> bool {
        false
    }

    open spec fn streams() -> bool {
        false
    }

    open spec fn stored(code: C::Code) -> int {
        C::stored(code)
    }

    open spec fn ready(&self) -> bool {
        self.codec.ready() && self.coordinate < C::block()
    }

    open spec fn valid(code: C::Code) -> bool {
        C::valid(code)
    }

    open spec fn decoded(&self, code: C::Code, t: int) -> Alphabet<E, Bd> {
        self.codec.decoded(code, self.coordinate as int)
    }

    open spec fn index(code: C::Code) -> nat {
        C::index(code)
    }

    open spec fn at_index(index: int) -> C::Code {
        C::at_index(index)
    }

    proof fn names(&self, code: C::Code, t: int) {
        self.codec.names(code, self.coordinate as int);
    }

    proof fn extents_fit() {
        C::extents_fit();
    }

    proof fn enumerates(index: int) {
        C::enumerates(index);
    }

    fn max_block() -> (r: usize) {
        1
    }

    fn code_space() -> (r: usize) {
        C::code_space()
    }

    fn is_addressable() -> (r: bool) {
        C::is_addressable()
    }

    fn sign_bit_book() -> (r: bool) {
        false
    }

    fn decode_element(&self, code: C::Code, t: usize) -> (r: Alphabet<E, Bd>) {
        self.codec.decode_element(code, self.coordinate)
    }

    fn code_at(index: usize) -> (r: C::Code) {
        C::code_at(index)
    }

    fn index_of(code: C::Code) -> (r: usize) {
        C::index_of(code)
    }

    fn as_index_stream(codes: &[C::Code]) -> (r: Option<IndexStream<'_>>) {
        None
    }
}

} // verus!
