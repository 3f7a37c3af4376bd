use vstd::prelude::*;
use crate::error::ShapeError;

verus! {

/// The columns of a matrix, each as a sequence of cells.
pub open spec fn columns<T>(m: Seq<Vec<T>>) -> Seq<Seq<T>> {
    m.map_values(|c: Vec<T>| c@)
}

/// Every column of `m` holds exactly `nrows` cells.
pub open spec fn is_matrix<T>(m: Seq<Seq<T>>, nrows: nat) -> bool {
    forall|j: int| 0 <= j < m.len() ==> #[trigger] m[j].len() == nrows
}

/// Every index of `idx` names a row present in every column of `m`.
pub open spec fn rows_in_range<T>(m: Seq<Seq<T>>, idx: Seq<usize>) -> bool {
    forall|j: int, k: int|
        0 <= j < m.len() && 0 <= k < idx.len() ==> (#[trigger] idx[k] as int) < #[trigger] m[j].len()
}

/// The column `col` read at the rows `idx`, in the order of `idx`.
pub open spec fn pick<T>(col: Seq<T>, idx: Seq<usize>) -> Seq<T> {
    idx.map_values(|i: usize| col[i as int])
}

/// The matrix made of the rows `idx` of `m`, column by column.
pub open spec fn select_rows_spec<T>(m: Seq<Seq<T>>, idx: Seq<usize>) -> Seq<Seq<T>> {
    m.map_values(|col: Seq<T>| pick(col, idx))
}

/// The row indices `0, 1, ..., n - 1`.
pub open spec fn index_seq(n: nat) -> Seq<usize> {
    Seq::new(n, |i: int| i as usize)
}

/// Returns the row indices of a matrix with `n` rows, in ascending order.
pub fn all_rows(n: usize) -> (r: Vec<usize>)
    ensures
        r@ == index_seq(n as nat),
{
    let mut r: Vec<usize> = Vec::new();
    let mut i: usize = 0;
    while i < n
        invariant
            i <= n,
            r@ == index_seq(i as nat),
        decreases n - i,
    {
        r.push(i);
        i += 1;
        assert(r@ =~= index_seq(i as nat));
    }
    r
}

/// Copies one column cell by cell.
fn copy_column<T: Copy>(c: &Vec<T>) -> (r: Vec<T>)
    ensures
        r@ == c@,
{
    let mut r: Vec<T> = Vec::new();
    let mut i: usize = 0;
    while i < c.len()
        invariant
            i <= c.len(),
            r@ == c@.subrange(0, i as int),
        decreases c.len() - i,
    {
        r.push(c[i]);
        i += 1;
        assert(r@ =~= c@.subrange(0, i as int));
    }
    assert(r@ =~= c@);
    r
}

/// Builds a new matrix from the rows `idx` of `m`, in the order of `idx`.
///
/// Every column is copied, so the result shares nothing with `m`. An index
/// that is out of range for some column is an error, never a truncation.
pub fn select_rows<T: Copy>(m: &Vec<Vec<T>>, idx: &Vec<usize>) -> (r: Result<Vec<Vec<T>>, ShapeError>)
    ensures
        r is Ok <==> rows_in_range(columns(m@), idx@),
        r matches Ok(s) ==> columns(s@) == select_rows_spec(columns(m@), idx@),
        r matches Err(e) ==> e == ShapeError::RowOutOfRange,
{
    let mut out: Vec<Vec<T>> = Vec::new();
    let mut j: usize = 0;
    while j < m.len()
        invariant
            j <= m.len(),
            out.len() == j,
            forall|a: int, k: int|
                0 <= a < j && 0 <= k < idx.len() ==> (#[trigger] idx[k] as int) < #[trigger] m[a].len(),
            forall|a: int| 0 <= a < j ==> #[trigger] out[a]@ == pick(m[a]@, idx@),
        decreases m.len() - j,
    {
        let col = &m[j];
        let mut c: Vec<T> = Vec::new();
        let mut k: usize = 0;
        while k < idx.len()
            invariant
                j < m.len(),
                col == m[j as int],
                k <= idx.len(),
                c.len() == k,
                forall|b: int| 0 <= b < k ==> (#[trigger] idx[b] as int) < col.len(),
                forall|b: int| 0 <= b < k ==> #[trigger] c[b] == col[idx[b] as int],
            decreases idx.len() - k,
        {
            let i = idx[k];
            if i >= col.len() {
                proof {
                    assert(columns(m@)[j as int] == m[j as int]@);
                    assert(!rows_in_range(columns(m@), idx@));
                }
                return Err(ShapeError::RowOutOfRange);
            }
            c.push(col[i]);
            k += 1;
        }
        assert(c@ =~= pick(m[j as int]@, idx@));
        out.push(c);
        j += 1;
    }
    proof {
        assert(columns(out@) =~= select_rows_spec(columns(m@), idx@));
        assert forall|a: int, k: int|
            0 <= a < columns(m@).len() && 0 <= k < idx@.len() implies
                (#[trigger] idx@[k] as int) < #[trigger] columns(m@)[a].len() by {
            assert(columns(m@)[a] == m[a]@);
            assert((idx[k] as int) < m[a].len());
        }
    }
    Ok(out)
}

/// Selecting every row once, in ascending order, gives back the matrix.
pub proof fn lemma_select_all_rows<T>(m: Seq<Seq<T>>, nrows: nat)
    requires
        is_matrix(m, nrows),
        nrows <= usize::MAX,
    ensures
        rows_in_range(m, index_seq(nrows)),
        select_rows_spec(m, index_seq(nrows)) == m,
{
    let idx = index_seq(nrows);
    assert forall|j: int| 0 <= j < m.len() implies #[trigger] pick(m[j], idx) == m[j] by {
        assert(m[j].len() == nrows);
        assert(pick(m[j], idx) =~= m[j]);
    }
    assert(select_rows_spec(m, idx) =~= m);
}

/// Builds a new matrix from the columns `start .. end` of `m`.
pub fn select_columns<T: Copy>(m: &Vec<Vec<T>>, start: usize, end: usize) -> (r: Result<
    Vec<Vec<T>>,
    ShapeError,
>)
    ensures
        r is Ok <==> start <= end <= m.len(),
        r matches Ok(s) ==> columns(s@) == columns(m@).subrange(start as int, end as int),
        r matches Err(e) ==> e == ShapeError::ColumnOutOfRange,
{
    if start > end || end > m.len() {
        return Err(ShapeError::ColumnOutOfRange);
    }
    let mut out: Vec<Vec<T>> = Vec::new();
    let mut j: usize = start;
    while j < end
        invariant
            start <= j <= end <= m.len(),
            out.len() == j - start,
            forall|a: int| 0 <= a < out.len() ==> #[trigger] out[a]@ == m[start + a]@,
        decreases end - j,
    {
        let c = copy_column(&m[j]);
        out.push(c);
        j += 1;
    }
    assert(columns(out@) =~= columns(m@).subrange(start as int, end as int));
    Ok(out)
}

/// Copies the names `start .. end` of a list of column names.
pub fn select_names(names: &Vec<String>, start: usize, end: usize) -> (r: Result<
    Vec<String>,
    ShapeError,
>)
    ensures
        r is Ok <==> start <= end <= names.len(),
        r matches Ok(s) ==> s@ == names@.subrange(start as int, end as int),
        r matches Err(e) ==> e == ShapeError::ColumnOutOfRange,
{
    if start > end || end > names.len() {
        return Err(ShapeError::ColumnOutOfRange);
    }
    let mut out: Vec<String> = Vec::new();
    let mut j: usize = start;
    while j < end
        invariant
            start <= j <= end <= names.len(),
            out@ == names@.subrange(start as int, j as int),
        decreases end - j,
    {
        out.push(names[j].clone());
        j += 1;
        assert(out@ =~= names@.subrange(start as int, j as int));
    }
    Ok(out)
}

/// A column of `nrows` copies of `v`.
pub open spec fn constant_column<T>(v: T, nrows: nat) -> Seq<T> {
    Seq::new(nrows, |i: int| v)
}

/// Builds a matrix with `nrows` rows whose column `j` repeats `values[j]`.
pub fn constant_columns<T: Copy>(values: &Vec<T>, nrows: usize) -> (r: Vec<Vec<T>>)
    ensures
        columns(r@) == values@.map_values(|v: T| constant_column(v, nrows as nat)),
{
    let mut out: Vec<Vec<T>> = Vec::new();
    let mut j: usize = 0;
    while j < values.len()
        invariant
            j <= values.len(),
            out.len() == j,
            forall|a: int| 0 <= a < j ==> #[trigger] out[a]@ == constant_column(values[a], nrows as nat),
        decreases values.len() - j,
    {
        let v = values[j];
        let mut c: Vec<T> = Vec::new();
        let mut i: usize = 0;
        while i < nrows
            invariant
                i <= nrows,
                c@ == constant_column(v, i as nat),
            decreases nrows - i,
        {
            c.push(v);
            i += 1;
            assert(c@ =~= constant_column(v, i as nat));
        }
        out.push(c);
        j += 1;
    }
    assert(columns(out@) =~= values@.map_values(|v: T| constant_column(v, nrows as nat)));
    out
}

/// The row count of a matrix, read from its first column after checking
/// that every column has that length.
pub fn row_count<T>(m: &Vec<Vec<T>>) -> (r: Result<usize, ShapeError>)
    ensures
        r matches Ok(n) ==> m.len() > 0 && n == m[0].len() && is_matrix(columns(m@), n as nat),
        r is Err ==> m.len() == 0 || !is_matrix(columns(m@), m[0].len() as nat),
        r matches Err(e) ==> (e == ShapeError::NoColumns <==> m.len() == 0),
        r matches Err(e) ==> (e == ShapeError::NoColumns || e == ShapeError::LengthMismatch),
{
    if m.len() == 0 {
        return Err(ShapeError::NoColumns);
    }
    let n = m[0].len();
    let mut j: usize = 1;
    while j < m.len()
        invariant
            1 <= j <= m.len(),
            n == m[0].len(),
            forall|a: int| 0 <= a < j ==> #[trigger] m[a].len() == n,
        decreases m.len() - j,
    {
        if m[j].len() != n {
            proof {
                assert(columns(m@)[j as int].len() != n);
            }
            return Err(ShapeError::LengthMismatch);
        }
        j += 1;
    }
    proof {
        assert forall|a: int| 0 <= a < columns(m@).len() implies #[trigger] columns(m@)[a].len() == n by {
            assert(m[a].len() == n);
        }
    }
    Ok(n)
}

/// Checks that every column of `m` holds exactly `n` cells.
pub fn has_rows<T>(m: &Vec<Vec<T>>, n: usize) -> (r: bool)
    ensures
        r == is_matrix(columns(m@), n as nat),
{
    let mut j: usize = 0;
    while j < m.len()
        invariant
            j <= m.len(),
            forall|a: int| 0 <= a < j ==> #[trigger] m[a].len() == n,
        decreases m.len() - j,
    {
        if m[j].len() != n {
            proof {
                assert(columns(m@)[j as int].len() != n);
            }
            return false;
        }
        j += 1;
    }
    proof {
        assert forall|a: int| 0 <= a < columns(m@).len() implies #[trigger] columns(m@)[a].len() == n by {
            assert(m[a].len() == n);
        }
    }
    true
}

} // verus!
