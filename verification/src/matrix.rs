//! Matrices as dense grids: construction, element access, transposition and
//! the minors from which cofactors are taken.
//!
//! A matrix holds its elements without ever computing with them, so the
//! element type is left open. What needs the elements' arithmetic (products,
//! determinants, inverses) is built by the caller on the operations here.
use vstd::prelude::*;
use crate::scalar::Scalar;

verus! {

/// The failure of inverting a matrix whose determinant is zero up to the
/// tolerance.
#[derive(Clone, Copy, Debug, PartialEq, Eq, Structural)]
pub struct NotInvertible;

/// A matrix of `rows() * cols()` elements, stored row after row.
#[derive(Debug, PartialEq)]
pub struct Matrix<T> {
    row: u32,
    col: u32,
    grid: Vec<T>,
}

/// The position in the full matrix of row or column `i` of a minor that
/// leaves out row or column `removed`.
pub open spec fn skip(i: int, removed: int) -> int {
    if i < removed {
        i
    } else {
        i + 1
    }
}

/// The rows of `m` turned into columns. `cols` is the length of each row.
pub open spec fn transposed<T>(m: Seq<Seq<T>>, cols: nat) -> Seq<Seq<T>> {
    Seq::new(cols, |j: int| Seq::new(m.len(), |i: int| m[i][j]))
}

/// `m` without row `drow` and column `dcol`. `cols` is the length of each
/// row of `m`.
pub open spec fn without<T>(m: Seq<Seq<T>>, cols: nat, drow: int, dcol: int) -> Seq<Seq<T>> {
    Seq::new(
        (m.len() - 1) as nat,
        |i: int| Seq::new((cols - 1) as nat, |j: int| m[skip(i, drow)][skip(j, dcol)]),
    )
}

/// Whether every row of `arr` has `cols` elements.
pub open spec fn rectangular<T>(arr: &[&[T]], cols: nat) -> bool {
    forall|i: int| 0 <= i < arr@.len() ==> (#[trigger] arr@[i])@.len() == cols
}

impl<T> View for Matrix<T> {
    type V = Seq<Seq<T>>;

    /// The rows, each a sequence of `cols()` elements.
    open spec fn view(&self) -> Seq<Seq<T>> {
        Seq::new(self.rows(), |r: int| Seq::new(self.cols(), |c: int| self.at(r, c)))
    }
}

impl<T> Matrix<T> {
    /// The storage holds exactly the elements of the grid, and their number
    /// is one that a machine index can hold.
    #[verifier::type_invariant]
    pub closed spec fn well_formed(&self) -> bool {
        self.grid@.len() == self.row * self.col <= usize::MAX
    }

    /// The number of rows.
    pub closed spec fn rows(&self) -> nat {
        self.row as nat
    }

    /// The number of columns.
    pub closed spec fn cols(&self) -> nat {
        self.col as nat
    }

    /// The element in row `r` and column `c`.
    pub closed spec fn at(&self, r: int, c: int) -> T {
        self.grid@[r * self.col + c]
    }
}

impl<T: Copy> Clone for Matrix<T> {
    fn clone(&self) -> (m: Matrix<T>)
        ensures
            m.well_formed(),
            m.rows() == self.rows(),
            m.cols() == self.cols(),
            m@ == self@,
    {
        proof {
            use_type_invariant(self);
        }
        let mut grid: Vec<T> = Vec::new();
        let mut i: usize = 0;
        while i < self.grid.len()
            invariant
                i <= self.grid@.len(),
                grid@ == self.grid@.take(i as int),
            decreases self.grid@.len() - i,
        {
            grid.push(self.grid[i]);
            i += 1;
        }
        assert(grid@ == self.grid@);
        let m = Matrix { row: self.row, col: self.col, grid };
        assert(m@ =~~= self@);
        m
    }
}

impl<T: Copy> Matrix<T> {
    /// A matrix of the given size with `fill` in every place.
    pub fn new(row: u32, col: u32, fill: T) -> (m: Matrix<T>)
        requires
            row * col <= usize::MAX,
        ensures
            m.well_formed(),
            m.rows() == row,
            m.cols() == col,
            m@ == Seq::new(row as nat, |r: int| Seq::new(col as nat, |c: int| fill)),
    {
        let count: usize = (row as usize) * (col as usize);
        let mut grid: Vec<T> = Vec::new();
        let mut i: usize = 0;
        while i < count
            invariant
                i <= count,
                grid@.len() == i,
                forall|k: int| 0 <= k < i ==> grid@[k] == fill,
            decreases count - i,
        {
            grid.push(fill);
            i += 1;
        }
        let m = Matrix { row, col, grid };
        proof {
            assert forall|r: int, c: int| 0 <= r < row && 0 <= c < col implies m.at(r, c)
                == fill by {
                lemma_index_in_grid(r, c, row as int, col as int);
            }
            assert(m@ =~~= Seq::new(row as nat, |r: int| Seq::new(col as nat, |c: int| fill)));
        }
        m
    }

    /// A matrix of the given size whose element in row `r` and column `c`
    /// is what `f` answers for `(r, c)`. Each place is asked for once, row
    /// after row.
    pub fn from_fn<F: Fn(u32, u32) -> T>(row: u32, col: u32, f: F) -> (m: Matrix<T>)
        requires
            row * col <= usize::MAX,
            forall|r: u32, c: u32| r < row && c < col ==> call_requires(f, (r, c)),
        ensures
            m.well_formed(),
            m.rows() == row,
            m.cols() == col,
            forall|r: u32, c: u32|
                r < row && c < col ==> call_ensures(f, (r, c), #[trigger] m@[r as int][c as int]),
    {
        let mut grid: Vec<T> = Vec::new();
        let mut r: u32 = 0;
        while r < row
            invariant
                r <= row,
                row * col <= usize::MAX,
                grid@.len() == r * col,
                forall|i: u32, j: u32| i < row && j < col ==> call_requires(f, (i, j)),
                forall|i: u32, j: u32|
                    i < r && j < col ==> call_ensures(f, (i, j), #[trigger] grid@[i * col + j]),
            decreases row - r,
        {
            let mut c: u32 = 0;
            while c < col
                invariant
                    r < row,
                    c <= col,
                    row * col <= usize::MAX,
                    grid@.len() == r * col + c,
                    forall|i: u32, j: u32| i < row && j < col ==> call_requires(f, (i, j)),
                    forall|i: u32, j: u32|
                        (i < r && j < col) || (i == r && j < c) ==> call_ensures(
                            f,
                            (i, j),
                            #[trigger] grid@[i * col + j],
                        ),
                decreases col - c,
            {
                let x: T = f(r, c);
                let ghost before = grid@;
                grid.push(x);
                proof {
                    assert forall|i: u32, j: u32|
                        (i < r && j < col) || (i == r && j < c + 1) implies call_ensures(
                        f,
                        (i, j),
                        #[trigger] grid@[i * col + j],
                    ) by {
                        if i == r && j == c {
                        } else {
                            lemma_index_precedes(i as int, j as int, r as int, c as int, col as int);
                            assert(grid@[i * col + j] == before[i * col + j]);
                        }
                    }
                }
                c += 1;
            }
            proof {
                assert((r + 1) * col == r * col + col) by (nonlinear_arith);
            }
            r += 1;
        }
        let m = Matrix { row, col, grid };
        proof {
            assert forall|i: u32, j: u32| i < row && j < col implies call_ensures(
                f,
                (i, j),
                #[trigger] m@[i as int][j as int],
            ) by {
                assert(m@[i as int][j as int] == m.at(i as int, j as int));
            }
        }
        m
    }

    /// The matrix whose rows are the rows of `arr`.
    pub fn new_filled(arr: &[&[T]]) -> (m: Matrix<T>)
        requires
            arr@.len() > 0,
            rectangular(arr, arr@[0]@.len()),
            arr@.len() <= u32::MAX,
            arr@[0]@.len() <= u32::MAX,
            arr@.len() * arr@[0]@.len() <= usize::MAX,
        ensures
            m.well_formed(),
            m.rows() == arr@.len(),
            m.cols() == arr@[0]@.len(),
            m@ == Seq::new(arr@.len(), |r: int| arr@[r]@),
    {
        let row: u32 = arr.len() as u32;
        let col: u32 = arr[0].len() as u32;
        let element = |r: u32, c: u32| -> (x: T)
            requires
                r < row,
                c < col,
            ensures
                x == arr@[r as int]@[c as int],
        {
            arr[r as usize][c as usize]
        };
        let m = Matrix::from_fn(row, col, element);
        proof {
            assert forall|r: int| 0 <= r < row implies #[trigger] m@[r] == arr@[r]@ by {
                assert forall|c: int| 0 <= c < col implies m@[r][c] == arr@[r]@[c] by {
                    assert(m@[r as u32 as int][c as u32 as int] == arr@[r]@[c]);
                }
                assert(m@[r] =~= arr@[r]@);
            }
            assert(m@ =~= Seq::new(arr@.len(), |r: int| arr@[r]@));
        }
        m
    }

    /// The number of rows.
    pub fn row_count(&self) -> (n: u32)
        ensures
            n == self.rows(),
    {
        self.row
    }

    /// The number of columns.
    pub fn col_count(&self) -> (n: u32)
        ensures
            n == self.cols(),
    {
        self.col
    }

    /// The element in row `row` and column `col`.
    pub fn get(&self, row: u32, col: u32) -> (x: T)
        requires
            row < self.rows(),
            col < self.cols(),
        ensures
            x == self@[row as int][col as int],
    {
        proof {
            use_type_invariant(self);
            lemma_index_in_grid(row as int, col as int, self.row as int, self.col as int);
        }
        self.grid[(row as usize) * (self.col as usize) + (col as usize)]
    }

    /// Puts `val` in row `row` and column `col`. Every other element stays.
    pub fn set(&mut self, row: u32, col: u32, val: T)
        requires
            row < old(self).rows(),
            col < old(self).cols(),
        ensures
            final(self).well_formed(),
            final(self).rows() == old(self).rows(),
            final(self).cols() == old(self).cols(),
            final(self)@ == old(self)@.update(
                row as int,
                old(self)@[row as int].update(col as int, val),
            ),
    {
        proof {
            use_type_invariant(&*self);
            lemma_index_in_grid(row as int, col as int, self.row as int, self.col as int);
        }
        let index: usize = (row as usize) * (self.col as usize) + (col as usize);
        self.grid[index] = val;
        proof {
            let after = self@;
            let expected = old(self)@.update(
                row as int,
                old(self)@[row as int].update(col as int, val),
            );
            assert forall|r: int| 0 <= r < self.row implies #[trigger] after[r] =~= expected[r] by {
                assert forall|c: int| 0 <= c < self.col implies after[r][c] == expected[r][c] by {
                    lemma_index_in_grid(r, c, self.row as int, self.col as int);
                    if r != row || c != col {
                        lemma_index_is_one_to_one(r, c, row as int, col as int, self.col as int);
                    }
                }
            }
            assert(after =~= expected);
        }
    }

    /// The matrix turned about its diagonal: row `r` of the result is column
    /// `r` of `self`.
    pub fn transpose(self) -> (m: Matrix<T>)
        ensures
            m.well_formed(),
            m.rows() == self.cols(),
            m.cols() == self.rows(),
            m@ == transposed(self@, self.cols()),
    {
        proof {
            use_type_invariant(&self);
            assert(self.col * self.row == self.row * self.col) by (nonlinear_arith);
        }
        let element = |r: u32, c: u32| -> (x: T)
            requires
                r < self.cols(),
                c < self.rows(),
            ensures
                x == self@[c as int][r as int],
        {
            self.get(c, r)
        };
        let m = Matrix::from_fn(self.col, self.row, element);
        proof {
            let expected = transposed(self@, self.cols());
            assert forall|r: int| 0 <= r < self.col implies #[trigger] m@[r] =~= expected[r] by {
                assert forall|c: int| 0 <= c < self.row implies m@[r][c] == expected[r][c] by {
                    assert(m@[r as u32 as int][c as u32 as int] == self@[c][r]);
                }
            }
            assert(m@ =~= expected);
        }
        m
    }

    /// The matrix without row `drow` and column `dcol`.
    pub fn submatrix(&self, drow: u32, dcol: u32) -> (m: Matrix<T>)
        requires
            drow < self.rows(),
            dcol < self.cols(),
        ensures
            m.well_formed(),
            m.rows() == self.rows() - 1,
            m.cols() == self.cols() - 1,
            m@ == without(self@, self.cols(), drow as int, dcol as int),
    {
        proof {
            use_type_invariant(self);
            assert((self.row - 1) * (self.col - 1) <= self.row * self.col) by (nonlinear_arith)
                requires
                    self.row >= 1,
                    self.col >= 1,
            ;
        }
        let element = |r: u32, c: u32| -> (x: T)
            requires
                r < self.rows() - 1,
                c < self.cols() - 1,
                drow < self.rows(),
                dcol < self.cols(),
            ensures
                x == self@[skip(r as int, drow as int)][skip(c as int, dcol as int)],
        {
            let from_row: u32 = if r < drow { r } else { r + 1 };
            let from_col: u32 = if c < dcol { c } else { c + 1 };
            self.get(from_row, from_col)
        };
        let m = Matrix::from_fn(self.row - 1, self.col - 1, element);
        proof {
            let expected = without(self@, self.cols(), drow as int, dcol as int);
            assert forall|r: int| 0 <= r < self.row - 1 implies #[trigger] m@[r] =~= expected[r] by {
                assert forall|c: int| 0 <= c < self.col - 1 implies m@[r][c] == expected[r][c] by {
                    assert(m@[r as u32 as int][c as u32 as int] == self@[skip(r, drow as int)][skip(
                        c,
                        dcol as int,
                    )]);
                }
            }
            assert(m@ =~= expected);
        }
        m
    }

    /// Tells whether the matrix can be inverted, given its determinant:
    /// whether the determinant is not zero up to the tolerance.
    pub fn invertible(&self, determinant: Scalar) -> (r: bool)
        ensures
            r == !determinant.negligible(),
    {
        !determinant.is_negligible()
    }

    /// Assembles the inverse of a square matrix from its determinant and from
    /// what `share` answers for each place `(r, c)`: the cofactor of the
    /// element there, divided by the determinant. The answer for `(r, c)`
    /// goes to row `c` and column `r` of the inverse. A determinant that is
    /// zero up to the tolerance gives the error instead, and `share` is not
    /// asked.
    pub fn inverse<F: Fn(u32, u32) -> T>(&self, determinant: Scalar, share: F) -> (inverse: Result<
        Matrix<T>,
        NotInvertible,
    >)
        requires
            self.rows() == self.cols(),
            forall|r: u32, c: u32|
                r < self.rows() && c < self.cols() ==> call_requires(share, (r, c)),
        ensures
            inverse is Err <==> determinant.negligible(),
            inverse matches Ok(m) ==> {
                &&& m.well_formed()
                &&& m.rows() == self.rows()
                &&& m.cols() == self.cols()
                &&& forall|r: u32, c: u32|
                    r < self.rows() && c < self.cols() ==> call_ensures(
                        share,
                        (r, c),
                        #[trigger] m@[c as int][r as int],
                    )
            },
    {
        if !self.invertible(determinant) {
            return Err(NotInvertible);
        }
        proof {
            use_type_invariant(self);
        }
        let shares = Matrix::from_fn(self.row, self.col, share);
        let ghost asked = shares@;
        let m = shares.transpose();
        proof {
            assert forall|r: u32, c: u32| r < self.row && c < self.col implies call_ensures(
                share,
                (r, c),
                #[trigger] m@[c as int][r as int],
            ) by {
                assert(m@[c as int][r as int] == asked[r as int][c as int]);
            }
        }
        Ok(m)
    }

    /// The 4x4 matrix with `one` along the diagonal and `zero` elsewhere.
    pub fn identity(zero: T, one: T) -> (m: Matrix<T>)
        ensures
            m.well_formed(),
            m.rows() == 4,
            m.cols() == 4,
            m@ == seq![
                seq![one, zero, zero, zero],
                seq![zero, one, zero, zero],
                seq![zero, zero, one, zero],
                seq![zero, zero, zero, one],
            ],
    {
        let mut m = Matrix::new(4, 4, zero);
        m.set(0, 0, one);
        m.set(1, 1, one);
        m.set(2, 2, one);
        m.set(3, 3, one);
        proof {
            lemma_rows_decide(m@, seq![
                seq![one, zero, zero, zero],
                seq![zero, one, zero, zero],
                seq![zero, zero, one, zero],
                seq![zero, zero, zero, one],
            ]);
        }
        m
    }

    /// The 4x4 matrix that moves a point by `(x, y, z)`: the identity with
    /// the offsets in its last column.
    pub fn translation(zero: T, one: T, x: T, y: T, z: T) -> (m: Matrix<T>)
        ensures
            m.well_formed(),
            m.rows() == 4,
            m.cols() == 4,
            m@ == seq![
                seq![one, zero, zero, x],
                seq![zero, one, zero, y],
                seq![zero, zero, one, z],
                seq![zero, zero, zero, one],
            ],
    {
        let mut m = Matrix::identity(zero, one);
        m.set(0, 3, x);
        m.set(1, 3, y);
        m.set(2, 3, z);
        proof {
            lemma_rows_decide(m@, seq![
                seq![one, zero, zero, x],
                seq![zero, one, zero, y],
                seq![zero, zero, one, z],
                seq![zero, zero, zero, one],
            ]);
        }
        m
    }

    /// The 4x4 matrix that scales by `(x, y, z)` along the axes: the factors
    /// on the diagonal, then `one`.
    pub fn scaling(zero: T, one: T, x: T, y: T, z: T) -> (m: Matrix<T>)
        ensures
            m.well_formed(),
            m.rows() == 4,
            m.cols() == 4,
            m@ == seq![
                seq![x, zero, zero, zero],
                seq![zero, y, zero, zero],
                seq![zero, zero, z, zero],
                seq![zero, zero, zero, one],
            ],
    {
        let mut m = Matrix::new(4, 4, zero);
        m.set(0, 0, x);
        m.set(1, 1, y);
        m.set(2, 2, z);
        m.set(3, 3, one);
        proof {
            lemma_rows_decide(m@, seq![
                seq![x, zero, zero, zero],
                seq![zero, y, zero, zero],
                seq![zero, zero, z, zero],
                seq![zero, zero, zero, one],
            ]);
        }
        m
    }

    /// The 4x4 matrix that moves each coordinate in proportion to the two
    /// others: `xy` is the share of y that goes to x, and so on.
    pub fn shearing(zero: T, one: T, xy: T, xz: T, yx: T, yz: T, zx: T, zy: T) -> (m: Matrix<T>)
        ensures
            m.well_formed(),
            m.rows() == 4,
            m.cols() == 4,
            m@ == seq![
                seq![one, xy, xz, zero],
                seq![yx, one, yz, zero],
                seq![zx, zy, one, zero],
                seq![zero, zero, zero, one],
            ],
    {
        let mut m = Matrix::identity(zero, one);
        m.set(0, 1, xy);
        m.set(0, 2, xz);
        m.set(1, 0, yx);
        m.set(1, 2, yz);
        m.set(2, 0, zx);
        m.set(2, 1, zy);
        proof {
            lemma_rows_decide(m@, seq![
                seq![one, xy, xz, zero],
                seq![yx, one, yz, zero],
                seq![zx, zy, one, zero],
                seq![zero, zero, zero, one],
            ]);
        }
        m
    }
}

/// Tells whether the cofactor of the element in row `drow` and column `dcol`
/// is the minor with its sign changed: it is where the two indices add up to
/// an odd number, and the minor itself elsewhere.
pub fn cofactor_negates(drow: u32, dcol: u32) -> (r: bool)
    ensures
        r == ((drow + dcol) % 2 == 1),
{
    (drow % 2 == 0) != (dcol % 2 == 0)
}

/// Whether `m` is a grid of `cols` columns: every row has that length.
pub open spec fn is_grid<T>(m: Seq<Seq<T>>, cols: nat) -> bool {
    forall|r: int| 0 <= r < m.len() ==> (#[trigger] m[r]).len() == cols
}

/// The view of a well-formed matrix is a grid of `cols()` columns and
/// `rows()` rows.
pub proof fn lemma_view_is_grid<T>(m: Matrix<T>)
    ensures
        m@.len() == m.rows(),
        is_grid(m@, m.cols()),
{
}

/// Transposing twice gives the matrix back. (A matrix without rows is left
/// out: its transpose no longer tells how many columns it had.)
pub proof fn lemma_transpose_twice<T>(m: Seq<Seq<T>>, cols: nat)
    requires
        is_grid(m, cols),
        m.len() > 0,
    ensures
        transposed(transposed(m, cols), m.len()) == m,
{
    let once = transposed(m, cols);
    let twice = transposed(once, m.len());
    assert forall|r: int| 0 <= r < m.len() implies #[trigger] twice[r] == m[r] by {
        assert(twice[r] =~= m[r]);
    }
    assert(twice =~= m);
}

/// Taking a minor and transposing can be done in either order, with the
/// roles of row and column exchanged.
pub proof fn lemma_minor_of_transpose<T>(m: Seq<Seq<T>>, cols: nat, drow: int, dcol: int)
    requires
        is_grid(m, cols),
        0 <= drow < m.len(),
        0 <= dcol < cols,
    ensures
        without(transposed(m, cols), m.len(), dcol, drow) == transposed(
            without(m, cols, drow, dcol),
            (cols - 1) as nat,
        ),
{
    let left = without(transposed(m, cols), m.len(), dcol, drow);
    let right = transposed(without(m, cols, drow, dcol), (cols - 1) as nat);
    assert forall|r: int| 0 <= r < cols - 1 implies #[trigger] left[r] == right[r] by {
        assert(left[r] =~= right[r]);
    }
    assert(left =~= right);
}

/// Two lists of rows are the same list once each row of the one agrees with
/// the same row of the other in length and in every element.
proof fn lemma_rows_decide<T>(a: Seq<Seq<T>>, b: Seq<Seq<T>>)
    requires
        a.len() == b.len(),
        forall|r: int| 0 <= r < a.len() ==> (#[trigger] a[r]).len() == b[r].len(),
        forall|r: int, c: int| 0 <= r < a.len() && 0 <= c < a[r].len() ==> #[trigger] a[r][c] == b[r][c],
    ensures
        a == b,
{
    assert forall|r: int| 0 <= r < a.len() implies #[trigger] a[r] == b[r] by {
        assert(a[r] =~= b[r]);
    }
    assert(a =~= b);
}

/// A place inside a grid has its index inside the row-major storage.
proof fn lemma_index_in_grid(r: int, c: int, rows: int, cols: int)
    requires
        0 <= r < rows,
        0 <= c < cols,
    ensures
        0 <= r * cols <= r * cols + c < rows * cols,
{
    assert(0 <= r * cols && r * cols + cols <= rows * cols) by (nonlinear_arith)
        requires
            0 <= r < rows,
            0 <= cols,
    ;
}

/// A place that comes before another in reading order has the smaller index.
proof fn lemma_index_precedes(i: int, j: int, r: int, c: int, cols: int)
    requires
        0 <= i,
        0 <= j < cols,
        0 <= c <= cols,
        i < r || (i == r && j < c),
    ensures
        0 <= i * cols + j < r * cols + c,
{
    assert(0 <= i * cols && (i < r ==> i * cols + cols <= r * cols)) by (nonlinear_arith)
        requires
            0 <= i,
            0 <= cols,
    ;
}

/// Two places of a grid share an index only if they are the same place.
proof fn lemma_index_is_one_to_one(r: int, c: int, s: int, d: int, cols: int)
    requires
        0 <= r,
        0 <= s,
        0 <= c < cols,
        0 <= d < cols,
        r != s || c != d,
    ensures
        r * cols + c != s * cols + d,
{
    if r < s {
        lemma_index_precedes(r, c, s, 0, cols);
    } else if s < r {
        lemma_index_precedes(s, d, r, 0, cols);
    }
}

} // verus!
