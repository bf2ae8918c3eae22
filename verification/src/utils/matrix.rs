//! Matrices of vectors.
//!
//! A matrix is a view of numbers that stand at regular distances: the step from row to row and the
//! step from column to column are free.
use crate::utils::float::Real;
use vstd::prelude::*;
use vstd::slice::slice_subrange;

verus! {

/// A view of a matrix: rows are vectors, columns are dimensions.
pub struct MatView<'a, T> {
    pub data: &'a [T],
    pub nrows: usize,
    pub ncols: usize,
    pub row_stride: usize,
    pub col_stride: usize,
}

/// A view of one row of a matrix.
pub struct RowView<'a, T> {
    pub data: &'a [T],
    pub ncols: usize,
    pub col_stride: usize,
}

impl<'a, T: Copy> RowView<'a, T> {
    /// Every column stands within the data.
    pub open spec fn wf(&self) -> bool {
        self.ncols > 0 ==> (self.ncols - 1) * self.col_stride < self.data@.len()
    }

    /// The numbers of the row.
    pub open spec fn values(&self) -> Seq<T> {
        Seq::new(self.ncols as nat, |j: int| self.data@[j * self.col_stride])
    }

    /// Where a column stands.
    proof fn lemma_column(&self, j: int)
        requires
            self.wf(),
            0 <= j < self.ncols,
        ensures
            0 <= j * self.col_stride < self.data@.len(),
    {
        let (c, n) = (self.col_stride as int, self.ncols as int);
        assert(0 <= j * c <= (n - 1) * c) by (nonlinear_arith)
            requires
                0 <= j < n,
                c >= 0,
        ;
    }

    /// The numbers of the row, where they stand side by side.
    pub fn contiguous(&self) -> (r: Option<&'a [T]>)
        requires
            self.wf(),
        ensures
            r.is_some() <==> self.col_stride == 1,
            r matches Some(s) ==> s@ == self.values(),
    {
        if self.col_stride != 1 {
            return None;
        }
        let s = slice_subrange(self.data, 0, self.ncols);
        assert(s@ =~= self.values());
        Some(s)
    }

    /// A copy of the numbers of the row.
    pub fn to_vec(&self) -> (r: Vec<T>)
        requires
            self.wf(),
        ensures
            r@ == self.values(),
    {
        let mut r: Vec<T> = Vec::new();
        let len: usize = self.data.len();
        let mut j: usize = 0;
        while j < self.ncols
            invariant
                self.wf(),
                j <= self.ncols,
                len == self.data@.len(),
                r@ == self.values().take(j as int),
            decreases self.ncols - j,
        {
            proof {
                self.lemma_column(j as int);
            }
            let at: usize = j * self.col_stride;
            r.push(self.data[at]);
            proof {
                assert(r@ =~= self.values().take(j + 1));
            }
            j += 1;
        }
        assert(r@ =~= self.values());
        r
    }
}

impl<'a, T: Copy> MatView<'a, T> {
    /// Every number stands within the data.
    pub open spec fn wf(&self) -> bool {
        self.nrows > 0 && self.ncols > 0 ==> (self.nrows - 1) * self.row_stride + (self.ncols - 1)
            * self.col_stride < self.data@.len()
    }

    /// The numbers of a row.
    pub open spec fn row_values(&self, i: int) -> Seq<T> {
        Seq::new(self.ncols as nat, |j: int| self.data@[i * self.row_stride + j * self.col_stride])
    }

    /// A row.
    pub fn row(&self, i: usize) -> (r: RowView<'a, T>)
        requires
            self.wf(),
            i < self.nrows,
        ensures
            r.wf(),
            r.values() == self.row_values(i as int),
            r.ncols == self.ncols,
    {
        if self.ncols == 0 {
            let r = RowView {
                data: slice_subrange(self.data, 0, 0),
                ncols: 0,
                col_stride: self.col_stride,
            };
            assert(r.values() =~= self.row_values(i as int));
            return r;
        }
        let len: usize = self.data.len();
        proof {
            let (a, n, s) = (i as int, self.nrows as int, self.row_stride as int);
            assert(0 <= a * s <= (n - 1) * s) by (nonlinear_arith)
                requires
                    0 <= a < n,
                    s >= 0,
            ;
            let (c, w) = (self.col_stride as int, self.ncols as int);
            assert(0 <= (w - 1) * c) by (nonlinear_arith)
                requires
                    w > 0,
                    c >= 0,
            ;
        }
        let start: usize = i * self.row_stride;
        let r = RowView {
            data: slice_subrange(self.data, start, len),
            ncols: self.ncols,
            col_stride: self.col_stride,
        };
        proof {
            assert forall|j: int| 0 <= j < self.ncols implies r.values()[j] == self.row_values(
                i as int,
            )[j] by {
                r.lemma_column(j);
            }
            assert(r.values() =~= self.row_values(i as int));
        }
        r
    }
}

/// Row `i` of vectors that stand one behind the other.
pub open spec fn flat_row<A>(flat: Seq<A>, dim: int, i: int) -> Seq<A> {
    flat.subrange(i * dim, i * dim + dim)
}

/// A row of a flat matrix lies within it.
pub proof fn lemma_row_bounds(i: int, n: int, dim: int)
    requires
        0 <= i < n,
        dim >= 0,
    ensures
        0 <= i * dim <= i * dim + dim <= n * dim,
        (i + 1) * dim == i * dim + dim,
{
    assert(0 <= i * dim && i * dim + dim <= n * dim && (i + 1) * dim == i * dim + dim)
        by (nonlinear_arith)
        requires
            0 <= i < n,
            dim >= 0,
    ;
}

/// A row of a matrix holds the numbers at the places of its columns, and a row of numbers that
/// stand one behind the other begins where the rows before it end.
pub proof fn law_rows<T: Copy>(mat: &MatView<T>, flat: Seq<T>, n: int, dim: int, i: int, j: int)
    requires
        0 <= i,
        0 <= j,
        flat.len() == n * dim,
    ensures
        mat.row_values(i).len() == mat.ncols,
        j < mat.ncols ==> mat.row_values(i)[j] == mat.data@[i * mat.row_stride + j
            * mat.col_stride],
        i < n && j < dim ==> flat_row(flat, dim, i).len() == dim && flat_row(flat, dim, i)[j]
            == flat[i * dim + j],
{
    if i < n && j < dim {
        lemma_row_bounds(i, n, dim);
    }
}

/// A single row holds the numbers at the places of its columns.
pub proof fn law_row<T: Copy>(row: &RowView<T>, j: int)
    requires
        0 <= j < row.ncols,
    ensures
        row.values().len() == row.ncols,
        row.values()[j] == row.data@[j * row.col_stride],
{
}

/// A padded row begins with the numbers of the row and goes on with zeros.
pub proof fn law_padded<T: Real>(row: Seq<T>, padded: int)
    requires
        row.len() <= padded,
    ensures
        padded_row(row, padded).len() == padded,
        padded_row(row, padded).take(row.len() as int) == row,
        forall|j: int|
            row.len() <= j < padded ==> #[trigger] padded_row(row, padded)[j] == T::zero_spec(),
{
    assert(padded_row(row, padded).take(row.len() as int) =~= row);
}

/// The vectors of a matrix, one behind the other, with their number and dimensions.
pub fn matrix_to_flat<T: Copy>(mat: &MatView<T>) -> (r: (Vec<T>, usize, usize))
    requires
        mat.wf(),
        mat.nrows * mat.ncols <= usize::MAX,
    ensures
        r.1 == mat.nrows,
        r.2 == mat.ncols,
        r.0@.len() == mat.nrows * mat.ncols,
        forall|i: int|
            0 <= i < mat.nrows ==> #[trigger] flat_row(r.0@, mat.ncols as int, i)
                == mat.row_values(i),
{
    let n: usize = mat.nrows;
    let dim: usize = mat.ncols;
    let mut flat: Vec<T> = Vec::new();
    let mut i: usize = 0;
    while i < n
        invariant
            i <= n,
            n == mat.nrows,
            dim == mat.ncols,
            mat.wf(),
            flat@.len() == i * dim,
            forall|k: int|
                0 <= k < i ==> #[trigger] flat_row(flat@, dim as int, k) == mat.row_values(k),
        decreases n - i,
    {
        let row = mat.row(i).to_vec();
        let ghost before = flat@;
        let mut j: usize = 0;
        while j < dim
            invariant
                j <= dim,
                row@.len() == dim,
                flat@ == before + row@.take(j as int),
            decreases dim - j,
        {
            flat.push(row[j]);
            proof {
                assert(before + row@.take(j + 1) =~= (before + row@.take(j as int)).push(
                    row@[j as int],
                ));
            }
            j += 1;
        }
        proof {
            assert(row@.take(j as int) =~= row@);
            lemma_row_bounds(i as int, n as int, dim as int);
            assert forall|k: int| 0 <= k < i + 1 implies #[trigger] flat_row(flat@, dim as int, k)
                == mat.row_values(k) by {
                lemma_row_bounds(k, i + 1, dim as int);
                if k < i {
                    lemma_row_bounds(k, i as int, dim as int);
                    assert(flat_row(flat@, dim as int, k) =~= flat_row(before, dim as int, k));
                } else {
                    assert(flat_row(flat@, dim as int, k) =~= row@);
                }
            }
        }
        i += 1;
    }
    (flat, n, dim)
}

/// A row with zeros behind it, up to `padded` numbers.
pub open spec fn padded_row<T: Real>(row: Seq<T>, padded: int) -> Seq<T> {
    Seq::new(
        padded as nat,
        |j: int|
            if j < row.len() {
                row[j]
            } else {
                T::zero_spec()
            },
    )
}

/// Make the rows of a flat matrix longer by zeros.
pub fn pad_vectors<T: Real>(flat: &[T], n: usize, dim: usize, dim_padded: usize) -> (r: Vec<T>)
    requires
        flat@.len() == n * dim,
        dim <= dim_padded,
        n * dim_padded <= usize::MAX,
    ensures
        r@.len() == n * dim_padded,
        forall|i: int|
            0 <= i < n ==> #[trigger] flat_row(r@, dim_padded as int, i) == padded_row(
                flat_row(flat@, dim as int, i),
                dim_padded as int,
            ),
{
    let mut out: Vec<T> = Vec::new();
    let len: usize = flat.len();
    let mut i: usize = 0;
    while i < n
        invariant
            i <= n,
            len == flat@.len(),
            len == n * dim,
            dim <= dim_padded,
            out@.len() == i * dim_padded,
            forall|k: int|
                0 <= k < i ==> #[trigger] flat_row(out@, dim_padded as int, k) == padded_row(
                    flat_row(flat@, dim as int, k),
                    dim_padded as int,
                ),
        decreases n - i,
    {
        let ghost before = out@;
        let ghost row = flat_row(flat@, dim as int, i as int);
        let ghost target = padded_row(row, dim_padded as int);
        proof {
            lemma_row_bounds(i as int, n as int, dim as int);
        }
        let mut j: usize = 0;
        while j < dim_padded
            invariant
                j <= dim_padded,
                i * dim + dim <= len,
                len == flat@.len(),
                row == flat_row(flat@, dim as int, i as int),
                row.len() == dim,
                target == padded_row(row, dim_padded as int),
                out@ == before + target.take(j as int),
            decreases dim_padded - j,
        {
            let v: T = if j < dim {
                flat[i * dim + j]
            } else {
                T::zero()
            };
            out.push(v);
            proof {
                assert(v == target[j as int]);
                assert(before + target.take(j + 1) =~= (before + target.take(j as int)).push(v));
            }
            j += 1;
        }
        proof {
            assert(target.take(j as int) =~= target);
            lemma_row_bounds(i as int, i + 1, dim_padded as int);
            assert forall|k: int| 0 <= k < i + 1 implies #[trigger] flat_row(
                out@,
                dim_padded as int,
                k,
            ) == padded_row(flat_row(flat@, dim as int, k), dim_padded as int) by {
                lemma_row_bounds(k, i + 1, dim_padded as int);
                if k < i {
                    lemma_row_bounds(k, i as int, dim_padded as int);
                    assert(flat_row(out@, dim_padded as int, k) =~= flat_row(
                        before,
                        dim_padded as int,
                        k,
                    ));
                } else {
                    assert(flat_row(out@, dim_padded as int, k) =~= target);
                }
            }
        }
        i += 1;
    }
    out
}

} // verus!
