//! The operands of a product, and what a call may be told about it.
use crate::arith::sum;
use crate::codec::{CodedMatrix, Enumerable};
use crate::element::{Alphabet, Bound, Element};
use crate::epilogue::{EncodeMode, Epilogue, Output};
use crate::sequence::{Backend, Host};
use crate::sizing::Shape;
use crate::view::{aliases, MatView, MatViewMut};
use vstd::prelude::*;

verus! {

/// Which factorization of the product to run.
#[derive(Clone, Copy, PartialEq, Eq, Debug, Structural)]
pub enum Traversal {
    /// Cell by cell, with no panel kept.
    OutputMajor,
    /// Whichever factorization the declarations say pays.
    Blocked,
    /// By table wherever a table fits.
    Tabulated,
}

/// What a call may be told.
#[derive(Clone, Copy, PartialEq, Eq, Debug, Structural)]
pub struct GemmOptions {
    pub traversal: Traversal,
    pub encode: EncodeMode,
    pub backend: Backend,
    pub host: Host,
}

impl Default for GemmOptions {
    fn default() -> (r: Self)
        ensures
            r.traversal == Traversal::Blocked,
            r.encode == EncodeMode::Nearest,
            r.backend == Backend::Auto,
            r.host == (Host {
                avx2: false,
                avx512f: false,
                avx512bw: false,
                avx512vnni: false,
                neon: false,
                dotprod: false,
            }),
    {
        GemmOptions {
            traversal: Traversal::Blocked,
            encode: EncodeMode::Nearest,
            backend: Backend::Auto,
            host: Host::plain(),
        }
    }
}

/// Why operands are no product.
#[derive(Clone, Copy, PartialEq, Eq, Debug)]
pub enum NotAProduct {
    /// The extents do not agree.
    Nonconformant { a: (usize, usize), b: (usize, usize) },
    /// Two cells of the output share a place.
    OutputAliasesItself { m: usize, n: usize, rs: isize, cs: isize },
}

/// Activations, coded weights and output. The weights are given by columns:
/// row `j` of the coded matrix is column `j` of the right operand.
pub struct TabulatedTriple<'a, 'w, 'c, E: Element, Bd: Bound, C: Enumerable<E, Bd>, O> {
    pub a: MatView<'a, Alphabet<E, Bd>>,
    pub w: CodedMatrix<'w, E, Bd, C>,
    pub c: MatViewMut<'c, O>,
}

/// The exact total of cell `(i, j)`.
pub open spec fn total<E: Element, Bd: Bound, C: Enumerable<E, Bd>>(
    a: MatView<'_, Alphabet<E, Bd>>,
    w: CodedMatrix<'_, E, Bd, C>,
    i: int,
    j: int,
) -> int {
    sum(|p: int| a.cell(i, p).val() * w.entry(j, p).val(), 0, a.cols as int)
}

/// What the old cell contributes.
pub open spec fn prior_of<O>(reads: bool, cell: O) -> Option<O> {
    if reads {
        Some(cell)
    } else {
        None
    }
}

impl<'a, 'w, 'c, E: Element, Bd: Bound, C: Enumerable<E, Bd>, O> TabulatedTriple<
    'a,
    'w,
    'c,
    E,
    Bd,
    C,
    O,
> {
    /// The operands conform, are drawn from the alphabet, and no two output
    /// cells share a place.
    pub open spec fn wf(self) -> bool {
        &&& self.a.wf()
        &&& self.w.wf()
        &&& self.c.wf()
        &&& self.c.apart()
        &&& self.a.cols == self.w.cols
        &&& self.c.rows == self.a.rows
        &&& self.c.cols == self.w.rows
        &&& forall|i: int, p: int|
            0 <= i < self.a.rows && 0 <= p < self.a.cols ==> (#[trigger] self.a.cell(i, p)).inv()
    }

    /// The exact total of cell `(i, j)`.
    pub open spec fn cell_total(self, i: int, j: int) -> int {
        total(self.a, self.w, i, j)
    }

    /// The extents of the product.
    pub open spec fn extents(self) -> Shape {
        Shape { m: self.a.rows, k: self.a.cols, n: self.w.rows }
    }

    /// The output of `self` is the product that `before` asked for: every cell
    /// is finished from its exact total, and nothing else has changed.
    pub open spec fn is_product_of<Ep: Epilogue<E, O>>(
        self,
        before: Self,
        epilogue: Ep,
        mode: EncodeMode,
    ) -> bool where O: Output
    {
        &&& self.a == before.a
        &&& self.w == before.w
        &&& self.c.same_window(before.c)
        &&& forall|i: int, j: int|
            0 <= i < before.a.rows && 0 <= j < before.w.rows ==> #[trigger] self.c.cell(i, j)
                == epilogue.finished(
                before.cell_total(i, j),
                prior_of(epilogue.reads(), before.c.cell(i, j)),
                mode,
            )
    }

    /// The operands, where they conform and the output does not alias itself.
    pub fn new(
        a: MatView<'a, Alphabet<E, Bd>>,
        w: CodedMatrix<'w, E, Bd, C>,
        c: MatViewMut<'c, O>,
    ) -> (r: Result<Self, NotAProduct>)
        requires
            a.wf(),
            w.wf(),
            c.wf(),
            forall|i: int, p: int|
                0 <= i < a.rows && 0 <= p < a.cols ==> (#[trigger] a.cell(i, p)).inv(),
        ensures
            a.cols != w.cols || c.rows != a.rows || c.cols != w.rows ==> r is Err && r->Err_0 == (
            NotAProduct::Nonconformant { a: (a.rows, a.cols), b: (w.cols, w.rows) }),
            a.cols == w.cols && c.rows == a.rows && c.cols == w.rows && aliases(
                c.rows as int,
                c.cols as int,
                c.strides,
            ) ==> r is Err && r->Err_0 == (NotAProduct::OutputAliasesItself {
                m: c.rows,
                n: c.cols,
                rs: c.strides.rs,
                cs: c.strides.cs,
            }),
            a.cols == w.cols && c.rows == a.rows && c.cols == w.rows && !aliases(
                c.rows as int,
                c.cols as int,
                c.strides,
            ) ==> r is Ok && r->Ok_0.wf() && r->Ok_0.a == a && r->Ok_0.w == w && r->Ok_0.c == c,
    {
        if a.cols != w.cols || c.rows != a.rows || c.cols != w.rows {
            return Err(
                NotAProduct::Nonconformant { a: (a.rows, a.cols), b: (w.cols, w.rows) },
            );
        }
        let s = c.strides;
        if s.self_aliases(c.rows, c.cols) {
            return Err(
                NotAProduct::OutputAliasesItself { m: c.rows, n: c.cols, rs: s.rs, cs: s.cs },
            );
        }
        Ok(TabulatedTriple { a, w, c })
    }

    /// The extents of the product.
    pub fn shape(&self) -> (r: Shape)
        ensures
            r == self.extents(),
    {
        Shape { m: self.a.rows, k: self.a.cols, n: self.w.rows }
    }
}

} // verus!
