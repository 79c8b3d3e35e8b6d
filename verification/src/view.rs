//! Strided views of matrices.
use vstd::prelude::*;

verus! {

/// Distances between neighbours: `rs` from one row to the next, `cs` from one
/// column to the next. Neighbours may lie below, above or at one place.
#[derive(Clone, Copy, PartialEq, Eq, Debug, Structural)]
pub struct Strides {
    pub rs: isize,
    pub cs: isize,
}

/// How far the place of cell `(i, j)` lies above that of cell `(0, 0)`.
pub open spec fn offset(s: Strides, i: int, j: int) -> int {
    i * s.rs + j * s.cs
}

/// A distance without its direction.
pub open spec fn magnitude(x: int) -> int {
    if x < 0 {
        -x
    } else {
        x
    }
}

/// How far `n` steps of `stride` lead down.
pub open spec fn descent(n: int, stride: int) -> int {
    if stride < 0 {
        n * magnitude(stride)
    } else {
        0
    }
}

/// How far `n` steps of `stride` lead up.
pub open spec fn ascent(n: int, stride: int) -> int {
    if stride < 0 {
        0
    } else {
        n * magnitude(stride)
    }
}

/// The place of cell `(0, 0)` where the lowest cell of a `rows` by `cols` matrix
/// lies at the first place.
pub open spec fn home(rows: int, cols: int, s: Strides) -> int {
    if rows == 0 || cols == 0 {
        0
    } else {
        descent(rows - 1, s.rs as int) + descent(cols - 1, s.cs as int)
    }
}

/// The cells of a `rows` by `cols` matrix, the lowest at the first place, lie in
/// `len` places.
pub open spec fn spans(len: int, rows: int, cols: int, s: Strides) -> bool {
    rows == 0 || cols == 0 || (rows - 1) * magnitude(s.rs as int) + (cols - 1) * magnitude(
        s.cs as int,
    ) < len
}

/// Every cell of a `rows` by `cols` matrix, cell `(0, 0)` at `origin`, lies in
/// `len` places.
pub open spec fn in_bounds(len: int, rows: int, cols: int, origin: int, s: Strides) -> bool {
    rows == 0 || cols == 0 || {
        &&& home(rows, cols, s) <= origin
        &&& origin + ascent(rows - 1, s.rs as int) + ascent(cols - 1, s.cs as int) < len
    }
}

/// Two different cells share a place.
pub open spec fn aliases(rows: int, cols: int, s: Strides) -> bool {
    exists|i: int, j: int, x: int, y: int|
        #![trigger offset(s, i, j), offset(s, x, y)]
        0 <= i < rows && 0 <= j < cols && 0 <= x < rows && 0 <= y < cols && (i != x || j != y)
            && offset(s, i, j) == offset(s, x, y)
}

/// The place `at` is that of some cell.
pub open spec fn is_cell(rows: int, cols: int, origin: int, s: Strides, at: int) -> bool {
    exists|i: int, j: int|
        0 <= i < rows && 0 <= j < cols && origin + #[trigger] offset(s, i, j) == at
}

/// Strides of consecutive rows of `cols` cells. No two rows fit anywhere that
/// are too long for a stride, and the longest stride keeps them apart.
pub open spec fn row_strides(cols: usize) -> Strides {
    Strides {
        rs: if cols <= isize::MAX {
            cols as isize
        } else {
            isize::MIN
        },
        cs: 1,
    }
}

/// The strides of the transpose.
pub open spec fn swapped(s: Strides) -> Strides {
    Strides { rs: s.cs, cs: s.rs }
}

/// Part of a way leads no further down or up than the whole of it.
proof fn lemma_way(n: int, i: int, stride: int)
    requires
        0 <= i <= n,
    ensures
        -descent(n, stride) <= i * stride <= ascent(n, stride),
        stride < 0 ==> i * stride == -(i * magnitude(stride)),
        stride >= 0 ==> i * stride == i * magnitude(stride),
        0 <= i * magnitude(stride) <= n * magnitude(stride),
{
    let g = magnitude(stride);
    assert(0 <= i * g <= n * g) by (nonlinear_arith)
        requires
            0 <= i <= n,
            0 <= g,
    ;
    if stride < 0 {
        assert(i * stride == -(i * g)) by (nonlinear_arith)
            requires
                stride == -g,
        ;
    }
}

pub proof fn lemma_offset(
    len: int,
    rows: int,
    cols: int,
    origin: int,
    s: Strides,
    i: int,
    j: int,
)
    requires
        in_bounds(len, rows, cols, origin, s),
        0 <= i < rows,
        0 <= j < cols,
    ensures
        0 <= origin + offset(s, i, j) < len,
        0 <= origin + i * s.rs < len,
{
    lemma_way(rows - 1, i, s.rs as int);
    lemma_way(cols - 1, j, s.cs as int);
    lemma_way(cols - 1, 0, s.cs as int);
}

/// A rectangle of a matrix lies where the matrix does.
proof fn lemma_within(
    len: int,
    rows: int,
    cols: int,
    origin: int,
    s: Strides,
    row0: int,
    col0: int,
    height: int,
    width: int,
)
    requires
        in_bounds(len, rows, cols, origin, s),
        0 <= row0,
        0 <= col0,
        0 < height,
        0 < width,
        row0 + height <= rows,
        col0 + width <= cols,
    ensures
        in_bounds(len, height, width, origin + offset(s, row0, col0), s),
        forall|i: int, j: int|
            #[trigger] offset(s, row0 + i, col0 + j) == offset(s, row0, col0) + offset(s, i, j),
{
    assert forall|i: int, j: int| #[trigger]
        offset(s, row0 + i, col0 + j) == offset(s, row0, col0) + offset(s, i, j) by {
        assert((row0 + i) * s.rs == row0 * s.rs + i * s.rs) by (nonlinear_arith);
        assert((col0 + j) * s.cs == col0 * s.cs + j * s.cs) by (nonlinear_arith);
    }
    lemma_part(rows - 1, row0, height - 1, s.rs as int);
    lemma_part(cols - 1, col0, width - 1, s.cs as int);
}

proof fn lemma_part(n: int, from: int, steps: int, stride: int)
    requires
        0 <= from,
        0 <= steps,
        from + steps <= n,
    ensures
        descent(steps, stride) <= descent(n, stride) + from * stride,
        from * stride + ascent(steps, stride) <= ascent(n, stride),
{
    let g = magnitude(stride);
    assert(from * g + steps * g <= n * g && 0 <= from * g && 0 <= steps * g) by (nonlinear_arith)
        requires
            0 <= from,
            0 <= steps,
            from + steps <= n,
            0 <= g,
    ;
    lemma_way(n, from, stride);
}

/// Places step by step from one that is there to another.
fn stepped(from: usize, n: usize, stride: isize) -> (r: usize)
    requires
        0 <= from + n * stride <= usize::MAX,
    ensures
        r == from + n * stride,
{
    let g: usize = distance(stride);
    proof {
        lemma_way(n as int, n as int, stride as int);
    }
    if stride < 0 {
        from - n * g
    } else {
        from + n * g
    }
}

/// A distance without its direction.
fn distance(stride: isize) -> (r: usize)
    ensures
        r == magnitude(stride as int),
{
    if stride < 0 {
        let less: usize = (-(stride + 1)) as usize;
        less + 1
    } else {
        stride as usize
    }
}

/// The place of cell `(0, 0)` where the lowest cell lies at the first place,
/// where every cell then lies in `len` places.
pub fn extent_fits(len: usize, rows: usize, cols: usize, s: Strides) -> (r: Option<usize>)
    ensures
        r is Some <==> spans(len as int, rows as int, cols as int, s),
        r matches Some(origin) ==> {
            &&& origin == home(rows as int, cols as int, s)
            &&& in_bounds(len as int, rows as int, cols as int, origin as int, s)
        },
{
    if rows == 0 || cols == 0 {
        return Some(0);
    }
    let (i, j): (usize, usize) = (rows - 1, cols - 1);
    let (high, wide): (usize, usize) = (distance(s.rs), distance(s.cs));
    proof {
        lemma_way(i as int, i as int, s.rs as int);
        lemma_way(j as int, j as int, s.cs as int);
    }
    let down: usize = match i.checked_mul(high) {
        None => {
            return None;
        },
        Some(down) => down,
    };
    let across: usize = match j.checked_mul(wide) {
        None => {
            return None;
        },
        Some(across) => across,
    };
    match down.checked_add(across) {
        None => None,
        Some(last) => if last < len {
            let above: usize = if s.rs < 0 {
                down
            } else {
                0
            };
            let before: usize = if s.cs < 0 {
                across
            } else {
                0
            };
            Some(above + before)
        } else {
            None
        },
    }
}

impl Strides {
    /// Strides of consecutive rows of `cols` cells.
    pub fn row_major(cols: usize) -> (r: Strides)
        ensures
            r == row_strides(cols),
    {
        if cols <= isize::MAX as usize {
            Strides { rs: cols as isize, cs: 1 }
        } else {
            Strides { rs: isize::MIN, cs: 1 }
        }
    }

    /// The strides of the transpose.
    pub fn transposed(self) -> (r: Strides)
        ensures
            r == swapped(self),
    {
        Strides { rs: self.cs, cs: self.rs }
    }

    /// Whether two different cells share a place.
    pub fn self_aliases(self, rows: usize, cols: usize) -> (r: bool)
        ensures
            r == aliases(rows as int, cols as int, self),
    {
        if rows == 0 || cols == 0 {
            return false;
        }
        if self.cs == 0 && cols > 1 {
            assert(offset(self, 0, 0) == offset(self, 0, 1));
            return true;
        }
        if self.rs == 0 && rows > 1 {
            assert(offset(self, 0, 0) == offset(self, 1, 0));
            return true;
        }
        let ghost (rs, cs) = (self.rs as int, self.cs as int);
        if self.cs == 0 {
            // One column, so the rows are told apart by a nonzero stride.
            proof {
                assert forall|i: int, j: int, x: int, y: int|
                    #![trigger offset(self, i, j), offset(self, x, y)]
                    0 <= i < rows && 0 <= j < cols && 0 <= x < rows && 0 <= y < cols && (i != x || j
                        != y) implies offset(self, i, j) != offset(self, x, y) by {
                    lemma_mul_apart(i, x, rs);
                }
            }
            return false;
        }
        let (high, wide): (usize, usize) = (distance(self.rs), distance(self.cs));
        let ghost (h, v) = (high as int, wide as int);
        let mut down: usize = 1;
        while down < rows
            invariant
                1 <= down <= rows,
                cs == self.cs,
                rs == self.rs,
                h == high == magnitude(rs),
                v == wide == magnitude(cs),
                cs != 0,
                cols > 0,
                rows > 1 ==> rs != 0,
                forall|d: int, e: int|
                    1 <= d < down && 0 <= e < cols ==> #[trigger] (d * h) != #[trigger] (e * v),
            decreases rows - down,
        {
            assert(0 <= (down as u128) * (high as u128)
                <= 0xffff_ffff_ffff_fffe_0000_0000_0000_0001) by (nonlinear_arith)
                requires
                    down <= 0xffff_ffff_ffff_ffff,
                    high <= 0xffff_ffff_ffff_ffff,
            ;
            let drop: u128 = (down as u128) * (high as u128);
            let across: u128 = drop / (wide as u128);
            let rest: u128 = drop % (wide as u128);
            proof {
                vstd::arithmetic::div_mod::lemma_fundamental_div_mod(drop as int, v);
            }
            if rest == 0 && across < (cols as u128) {
                proof {
                    assert(v * (across as int) == across as int * v) by (nonlinear_arith);
                    lemma_meets(self, down as int, across as int);
                    if (rs < 0) == (cs < 0) {
                        assert(offset(self, down as int, 0) == offset(self, 0, across as int));
                    } else {
                        assert(offset(self, down as int, across as int) == offset(self, 0, 0));
                    }
                }
                return true;
            }
            proof {
                assert forall|e: int| 0 <= e < cols implies down * h != #[trigger] (e * v) by {
                    if down * h == e * v {
                        vstd::arithmetic::div_mod::lemma_fundamental_div_mod_converse(
                            drop as int,
                            v,
                            e,
                            0,
                        );
                    }
                }
            }
            down = down + 1;
        }
        proof {
            assert forall|i: int, j: int, x: int, y: int|
                #![trigger offset(self, i, j), offset(self, x, y)]
                0 <= i < rows && 0 <= j < cols && 0 <= x < rows && 0 <= y < cols && (i != x || j
                    != y) implies offset(self, i, j) != offset(self, x, y) by {
                if offset(self, i, j) == offset(self, x, y) {
                    if i == x {
                        lemma_mul_apart(j, y, cs);
                    } else {
                        lemma_apart_step(i, j, x, y, rs, cs);
                        let (d, e) = (magnitude(i - x), magnitude(y - j));
                        assert(d * h != e * v);
                    }
                }
            }
        }
        false
    }
}

/// Where the ways `down` rows and `across` columns are equally long, they lead
/// to one place or cancel out.
proof fn lemma_meets(s: Strides, down: int, across: int)
    requires
        down * magnitude(s.rs as int) == across * magnitude(s.cs as int),
    ensures
        (s.rs < 0) == (s.cs < 0) ==> offset(s, down, 0) == offset(s, 0, across),
        (s.rs < 0) != (s.cs < 0) ==> offset(s, down, across) == offset(s, 0, 0),
{
    let (rs, cs) = (s.rs as int, s.cs as int);
    assert(down * rs == if rs < 0 {
        -(down * magnitude(rs))
    } else {
        down * magnitude(rs)
    }) by (nonlinear_arith);
    assert(across * cs == if cs < 0 {
        -(across * magnitude(cs))
    } else {
        across * magnitude(cs)
    }) by (nonlinear_arith);
    assert(0 * rs == 0 && 0 * cs == 0);
}

proof fn lemma_mul_apart(x: int, y: int, c: int)
    requires
        c != 0,
        x != y,
    ensures
        x * c != y * c,
{
    assert(x * c != y * c) by (nonlinear_arith)
        requires
            c != 0,
            x != y,
    ;
}

proof fn lemma_apart_step(i: int, j: int, x: int, y: int, rs: int, cs: int)
    requires
        i * rs + j * cs == x * rs + y * cs,
    ensures
        magnitude(i - x) * magnitude(rs) == magnitude(y - j) * magnitude(cs),
{
    assert((i - x) * rs == (y - j) * cs) by (nonlinear_arith)
        requires
            i * rs + j * cs == x * rs + y * cs,
    ;
    lemma_magnitude_mul(i - x, rs);
    lemma_magnitude_mul(y - j, cs);
}

proof fn lemma_magnitude_mul(x: int, y: int)
    ensures
        magnitude(x * y) == magnitude(x) * magnitude(y),
{
    assert(magnitude(x * y) == magnitude(x) * magnitude(y)) by (nonlinear_arith);
}

/// A matrix read through strides from the place of its first cell.
#[derive(Debug)]
pub struct MatView<'a, T> {
    pub data: &'a [T],
    pub rows: usize,
    pub cols: usize,
    pub origin: usize,
    pub strides: Strides,
}

impl<'a, T> Copy for MatView<'a, T> {

}

impl<'a, T> Clone for MatView<'a, T> {
    fn clone(&self) -> (r: Self)
        ensures
            r == *self,
    {
        *self
    }
}

impl<'a, T> MatView<'a, T> {
    /// Every cell is there.
    pub open spec fn wf(self) -> bool {
        in_bounds(
            self.data@.len() as int,
            self.rows as int,
            self.cols as int,
            self.origin as int,
            self.strides,
        )
    }

    /// The cell `(i, j)`.
    pub open spec fn cell(self, i: int, j: int) -> T {
        self.data@[self.origin + offset(self.strides, i, j)]
    }

    /// The strided view whose lowest cell is the first of `data`, where every
    /// cell is there.
    pub fn new(data: &'a [T], rows: usize, cols: usize, strides: Strides) -> (r: Option<Self>)
        ensures
            r is Some <==> spans(data@.len() as int, rows as int, cols as int, strides),
            r matches Some(v) ==> {
                &&& v.wf()
                &&& v.data == data
                &&& v.rows == rows
                &&& v.cols == cols
                &&& v.origin == home(rows as int, cols as int, strides)
                &&& v.strides == strides
            },
    {
        match extent_fits(data.len(), rows, cols, strides) {
            Some(origin) => Some(MatView { data, rows, cols, origin, strides }),
            None => None,
        }
    }

    /// The view of consecutive rows, where every cell is there.
    pub fn row_major(data: &'a [T], rows: usize, cols: usize) -> (r: Option<Self>)
        ensures
            r is Some <==> rows == 0 || rows * cols <= data@.len(),
            r matches Some(v) ==> {
                &&& v == (MatView { data, rows, cols, origin: 0, strides: row_strides(cols) })
                &&& v.wf()
                &&& forall|i: int, j: int|
                    0 <= i < rows && 0 <= j < cols ==> #[trigger] v.cell(i, j) == data@[i * cols
                        + j]
            },
    {
        proof {
            assert(data.len() == data@.len());
            lemma_row_major(data@.len() as int, rows, cols);
        }
        MatView::new(data, rows, cols, Strides::row_major(cols))
    }

    /// The cell `(i, j)`.
    pub fn at(&self, i: usize, j: usize) -> (r: &T)
        requires
            self.wf(),
            i < self.rows,
            j < self.cols,
        ensures
            *r == self.cell(i as int, j as int),
    {
        proof {
            assert(self.data.len() == self.data@.len());
            lemma_offset(
                self.data@.len() as int,
                self.rows as int,
                self.cols as int,
                self.origin as int,
                self.strides,
                i as int,
                j as int,
            );
        }
        &self.data[stepped(stepped(self.origin, i, self.strides.rs), j, self.strides.cs)]
    }

    /// The rectangle whose first cell is `(row0, col0)`, where it lies inside.
    pub fn subview(&self, row0: usize, col0: usize, rows: usize, cols: usize) -> (r: Option<
        MatView<'a, T>,
    >)
        requires
            self.wf(),
        ensures
            r is Some <==> row0 + rows <= self.rows && col0 + cols <= self.cols,
            r matches Some(v) ==> {
                &&& v.wf()
                &&& v.rows == rows
                &&& v.cols == cols
                &&& forall|i: int, j: int|
                    0 <= i < rows && 0 <= j < cols ==> #[trigger] v.cell(i, j) == self.cell(
                        row0 + i,
                        col0 + j,
                    )
            },
    {
        if rows > self.rows || row0 > self.rows - rows || cols > self.cols || col0 > self.cols
            - cols {
            return None;
        }
        if rows == 0 || cols == 0 {
            return Some(
                MatView {
                    data: self.data,
                    rows,
                    cols,
                    origin: self.origin,
                    strides: self.strides,
                },
            );
        }
        let ghost s = self.strides;
        let ghost len = self.data@.len() as int;
        let ghost at = self.origin as int;
        proof {
            assert(self.data.len() == len);
            lemma_offset(len, self.rows as int, self.cols as int, at, s, row0 as int, col0 as int);
            lemma_within(
                len,
                self.rows as int,
                self.cols as int,
                at,
                s,
                row0 as int,
                col0 as int,
                rows as int,
                cols as int,
            );
        }
        let origin: usize = stepped(
            stepped(self.origin, row0, self.strides.rs),
            col0,
            self.strides.cs,
        );
        let view: MatView<'a, T> = MatView {
            data: self.data,
            rows,
            cols,
            origin,
            strides: self.strides,
        };
        proof {
            assert forall|i: int, j: int| 0 <= i < rows && 0 <= j < cols implies #[trigger] view.cell(
                i,
                j,
            ) == self.cell(row0 + i, col0 + j) by {
                assert(offset(s, row0 + i, col0 + j) == offset(s, row0 as int, col0 as int)
                    + offset(s, i, j));
            }
        }
        Some(view)
    }

    /// Row `i` as one slice, where its cells are consecutive.
    pub fn row_slice(&self, i: usize) -> (r: Option<&'a [T]>)
        requires
            self.wf(),
            i < self.rows,
        ensures
            r is Some <==> self.strides.cs == 1 || self.cols <= 1,
            r matches Some(v) ==> {
                &&& v@.len() == self.cols
                &&& forall|j: int| 0 <= j < self.cols ==> #[trigger] v@[j] == self.cell(i as int, j)
            },
    {
        if self.strides.cs != 1 && self.cols > 1 {
            return None;
        }
        if self.cols == 0 {
            return Some(vstd::slice::slice_subrange(self.data, 0, 0));
        }
        let ghost s = self.strides;
        let ghost len = self.data@.len() as int;
        let ghost at = self.origin as int;
        proof {
            assert(self.data.len() == len);
            lemma_offset(len, self.rows as int, self.cols as int, at, s, i as int, 0);
            lemma_offset(len, self.rows as int, self.cols as int, at, s, i as int, self.cols - 1);
            assert(0 * s.cs == 0) by (nonlinear_arith);
            if s.cs == 1 {
                assert((self.cols - 1) * s.cs == self.cols - 1) by (nonlinear_arith)
                    requires
                        s.cs == 1,
                ;
            }
        }
        let start: usize = stepped(self.origin, i, self.strides.rs);
        let v: &'a [T] = vstd::slice::slice_subrange(self.data, start, start + self.cols);
        proof {
            assert forall|j: int| 0 <= j < self.cols implies #[trigger] v@[j] == self.cell(
                i as int,
                j,
            ) by {
                assert(j * s.cs == j) by (nonlinear_arith)
                    requires
                        s.cs == 1 || j == 0,
                ;
            }
        }
        Some(v)
    }
}

/// Consecutive rows lie in as many places as they have cells.
pub proof fn lemma_row_major(len: int, rows: usize, cols: usize)
    requires
        0 <= len <= usize::MAX,
    ensures
        spans(len, rows as int, cols as int, row_strides(cols)) <==> (rows == 0 || rows * cols
            <= len),
        rows == 0 || rows * cols <= len ==> home(rows as int, cols as int, row_strides(cols)) == 0,
        rows == 0 || rows * cols <= len ==> forall|i: int, j: int|
            0 <= i < rows && 0 <= j < cols ==> #[trigger] offset(row_strides(cols), i, j) == i
                * cols + j,
{
    let s = row_strides(cols);
    if rows > 0 && cols > 0 {
        assert((rows - 1) * cols + (cols - 1) == rows * cols - 1) by (nonlinear_arith);
        let one = magnitude(s.cs as int);
        assert((cols - 1) * one == cols - 1) by (nonlinear_arith)
            requires
                one == 1,
        ;
        if cols > isize::MAX {
            let g = magnitude(s.rs as int);
            assert(rows >= 2 ==> rows * cols > usize::MAX && (rows - 1) * g >= g)
                by (nonlinear_arith)
                requires
                    2 * cols > usize::MAX,
                    g > 0,
            ;
            assert(rows == 1 ==> rows * cols == cols && (rows - 1) * g == 0);
        }
        assert forall|i: int, j: int|
            rows * cols <= len && 0 <= i < rows && 0 <= j < cols implies #[trigger] offset(s, i, j)
            == i * cols + j by {
            if cols > isize::MAX {
                assert(i == 0);
            }
        }
    } else {
        assert(cols == 0 ==> rows * cols == 0) by (nonlinear_arith);
    }
}

/// A matrix written through strides from the place of its first cell.
#[derive(Debug)]
pub struct MatViewMut<'c, T> {
    pub data: &'c mut [T],
    pub rows: usize,
    pub cols: usize,
    pub origin: usize,
    pub strides: Strides,
}

impl<'c, T> MatViewMut<'c, T> {
    /// Every cell is there.
    pub open spec fn wf(self) -> bool {
        in_bounds(
            self.data@.len() as int,
            self.rows as int,
            self.cols as int,
            self.origin as int,
            self.strides,
        )
    }

    /// Everything the view was given, cells and the places between them.
    pub open spec fn held(self) -> Seq<T> {
        self.data@
    }

    /// No two cells share a place.
    pub open spec fn apart(self) -> bool {
        !aliases(self.rows as int, self.cols as int, self.strides)
    }

    /// The cell `(i, j)`.
    pub open spec fn cell(self, i: int, j: int) -> T {
        self.data@[self.origin + offset(self.strides, i, j)]
    }

    /// A place of this matrix's cells.
    pub open spec fn owns(self, at: int) -> bool {
        is_cell(self.rows as int, self.cols as int, self.origin as int, self.strides, at)
    }

    /// The same window on the same storage as `before`: only cells may differ.
    pub open spec fn same_window(self, before: Self) -> bool {
        &&& self.rows == before.rows
        &&& self.cols == before.cols
        &&& self.origin == before.origin
        &&& self.strides == before.strides
        &&& self.data@.len() == before.data@.len()
        &&& forall|at: int|
            0 <= at < self.data@.len() && !before.owns(at) ==> #[trigger] self.data@[at]
                == before.data@[at]
    }

    /// The strided view whose lowest cell is the first of `data`, where every
    /// cell is there.
    pub fn new(data: &'c mut [T], rows: usize, cols: usize, strides: Strides) -> (r: Option<Self>)
        ensures
            r is Some <==> spans(old(data)@.len() as int, rows as int, cols as int, strides),
            r is Some ==> {
                let v = r->0;
                &&& v.wf()
                &&& v.rows == rows
                &&& v.cols == cols
                &&& v.origin == home(rows as int, cols as int, strides)
                &&& v.strides == strides
                &&& v.data@ == old(data)@
                &&& final(v.data)@ == final(data)@
            },
            r is None ==> final(data)@ == old(data)@,
    {
        match extent_fits(data.len(), rows, cols, strides) {
            Some(origin) => Some(MatViewMut { data, rows, cols, origin, strides }),
            None => None,
        }
    }

    /// The view of consecutive rows, where every cell is there.
    pub fn row_major(data: &'c mut [T], rows: usize, cols: usize) -> (r: Option<Self>)
        ensures
            r is Some <==> rows == 0 || rows * cols <= old(data)@.len(),
            r is Some ==> {
                let v = r->0;
                &&& v.wf()
                &&& v.apart()
                &&& v.rows == rows
                &&& v.cols == cols
                &&& v.origin == 0
                &&& v.strides == row_strides(cols)
                &&& v.data@ == old(data)@
                &&& final(v.data)@ == final(data)@
            },
            r is None ==> final(data)@ == old(data)@,
    {
        proof {
            assert(data.len() == data@.len());
            lemma_row_major(data@.len() as int, rows, cols);
            if rows == 0 || rows * cols <= data@.len() {
                lemma_row_major_apart(data@.len() as int, rows, cols);
            }
        }
        MatViewMut::new(data, rows, cols, Strides::row_major(cols))
    }

    /// The cell `(i, j)`.
    pub fn at(&self, i: usize, j: usize) -> (r: &T)
        requires
            self.wf(),
            i < self.rows,
            j < self.cols,
        ensures
            *r == self.cell(i as int, j as int),
    {
        proof {
            assert(self.data.len() == self.data@.len());
            lemma_offset(
                self.data@.len() as int,
                self.rows as int,
                self.cols as int,
                self.origin as int,
                self.strides,
                i as int,
                j as int,
            );
        }
        &self.data[stepped(stepped(self.origin, i, self.strides.rs), j, self.strides.cs)]
    }

    /// Writes the cell `(i, j)`.
    pub fn put(&mut self, i: usize, j: usize, value: T)
        requires
            old(self).wf(),
            old(self).apart(),
            i < old(self).rows,
            j < old(self).cols,
        ensures
            final(self).wf(),
            final(self).same_window(*old(self)),
            final(final(self).data)@ == final(old(self).data)@,
            final(self).cell(i as int, j as int) == value,
            forall|x: int, y: int|
                0 <= x < old(self).rows && 0 <= y < old(self).cols && (x != i || y != j)
                    ==> #[trigger] final(self).cell(x, y) == old(self).cell(x, y),
    {
        let ghost s = self.strides;
        let ghost (rows, cols) = (self.rows as int, self.cols as int);
        let ghost origin = self.origin as int;
        proof {
            assert(self.data.len() == self.data@.len());
            lemma_offset(self.data@.len() as int, rows, cols, origin, s, i as int, j as int);
        }
        let at: usize = stepped(stepped(self.origin, i, self.strides.rs), j, self.strides.cs);
        self.data[at] = value;
        proof {
            let before = *old(self);
            assert(before.owns(origin + offset(s, i as int, j as int)));
            assert forall|x: int, y: int|
                0 <= x < rows && 0 <= y < cols && (x != i || y != j) implies #[trigger] self.cell(
                x,
                y,
            ) == before.cell(x, y) by {
                lemma_offset(self.data@.len() as int, rows, cols, origin, s, x, y);
                assert(offset(s, x, y) != offset(s, i as int, j as int));
            }
        }
    }

    /// The first `d` rows.
    pub fn top_rows(&mut self, d: usize) -> (r: Option<MatViewMut<'_, T>>)
        requires
            old(self).wf(),
        ensures
            r is Some <==> d <= old(self).rows,
            r is Some ==> {
                let v = r->0;
                &&& v.wf()
                &&& old(self).apart() ==> v.apart()
                &&& v.rows == d
                &&& v.cols == old(self).cols
                &&& v.origin == old(self).origin
                &&& v.strides == old(self).strides
                &&& v.data@ == old(self).data@
                &&& final(v.data)@ == final(self).data@
            },
            r is None ==> final(self).data@ == old(self).data@,
            final(self).rows == old(self).rows,
            final(self).cols == old(self).cols,
            final(self).origin == old(self).origin,
            final(self).strides == old(self).strides,
            final(final(self).data)@ == final(old(self).data)@,
    {
        if d > self.rows {
            return None;
        }
        proof {
            let s = self.strides;
            if d > 0 && self.cols > 0 {
                lemma_within(
                    self.data@.len() as int,
                    self.rows as int,
                    self.cols as int,
                    self.origin as int,
                    s,
                    0,
                    0,
                    d as int,
                    self.cols as int,
                );
            }
            assert(aliases(d as int, self.cols as int, s) ==> aliases(
                self.rows as int,
                self.cols as int,
                s,
            ));
        }
        Some(
            MatViewMut {
                data: &mut *self.data,
                rows: d,
                cols: self.cols,
                origin: self.origin,
                strides: self.strides,
            },
        )
    }
}

/// No two cells of consecutive rows share a place.
pub proof fn lemma_row_major_apart(len: int, rows: usize, cols: usize)
    requires
        0 <= len <= usize::MAX,
        rows == 0 || rows * cols <= len,
    ensures
        !aliases(rows as int, cols as int, row_strides(cols)),
{
    let s = row_strides(cols);
    let c = cols as int;
    lemma_row_major(len, rows, cols);
    assert forall|i: int, j: int, x: int, y: int|
        #![trigger offset(s, i, j), offset(s, x, y)]
        0 <= i < rows && 0 <= j < cols && 0 <= x < rows && 0 <= y < cols && offset(s, i, j)
            == offset(s, x, y) implies i == x && j == y by {
        vstd::arithmetic::div_mod::lemma_fundamental_div_mod_converse(offset(s, i, j), c, i, j);
        vstd::arithmetic::div_mod::lemma_fundamental_div_mod_converse(offset(s, x, y), c, x, y);
    }
}

} // verus!
