//! Row-major design matrices and the two operations that radial designs
//! are made of: cutting a block of columns out of a wider sample, and
//! replacing one column of a matrix by the same column of another.

use vstd::prelude::*;

verus! {

/// The rows of a row-major matrix, as sequences.
pub open spec fn rows_of<T>(m: Seq<Vec<T>>) -> Seq<Seq<T>> {
    m.map_values(|row: Vec<T>| row@)
}

/// `m` has `rows` rows of `cols` cells each.
pub open spec fn is_matrix<T>(m: Seq<Seq<T>>, rows: nat, cols: nat) -> bool {
    &&& m.len() == rows
    &&& forall|i: int| 0 <= i < rows ==> (#[trigger] m[i]).len() == cols
}

/// Columns `from .. from + width` of every row of `m`.
pub open spec fn column_block<T>(m: Seq<Seq<T>>, from: int, width: nat) -> Seq<Seq<T>> {
    m.map_values(|row: Seq<T>| row.subrange(from, from + width))
}

/// `m` with column `i` of every row taken from the same row of `src`.
pub open spec fn swap_column<T>(m: Seq<Seq<T>>, src: Seq<Seq<T>>, i: int) -> Seq<Seq<T>> {
    Seq::new(m.len(), |r: int| m[r].update(i, src[r][i]))
}

/// Columns `from .. from + width` of each row of `m`.
pub fn take_columns<T: Copy>(m: &Vec<Vec<T>>, from: usize, width: usize) -> (out: Vec<Vec<T>>)
    requires
        forall|r: int| 0 <= r < m@.len() ==> from + width <= (#[trigger] m@[r])@.len(),
    ensures
        rows_of(out@) == column_block(rows_of(m@), from as int, width as nat),
{
    let mut out: Vec<Vec<T>> = Vec::new();
    let mut r: usize = 0;
    while r < m.len()
        invariant
            r <= m@.len(),
            forall|q: int| 0 <= q < m@.len() ==> from + width <= (#[trigger] m@[q])@.len(),
            out@.len() == r,
            forall|q: int|
                0 <= q < r ==> (#[trigger] out@[q])@ == m@[q]@.subrange(from as int, from + width),
        decreases m@.len() - r,
    {
        let row = &m[r];
        let row_len = row.len();
        let mut cells: Vec<T> = Vec::new();
        let mut j: usize = 0;
        while j < width
            invariant
                j <= width,
                row_len == row@.len(),
                from + width <= row@.len(),
                cells@ == row@.subrange(from as int, from + j),
            decreases width - j,
        {
            cells.push(row[from + j]);
            j = j + 1;
            proof {
                assert(cells@ =~= row@.subrange(from as int, from + j));
            }
        }
        out.push(cells);
        r = r + 1;
    }
    proof {
        assert(rows_of(out@) =~= column_block(rows_of(m@), from as int, width as nat));
    }
    out
}

/// A copy of `m` whose column `i` is column `i` of `src`.
pub fn with_column_from<T: Copy>(m: &Vec<Vec<T>>, src: &Vec<Vec<T>>, i: usize) -> (out: Vec<Vec<T>>)
    requires
        src@.len() == m@.len(),
        forall|r: int| 0 <= r < m@.len() ==> i < (#[trigger] m@[r])@.len(),
        forall|r: int| 0 <= r < src@.len() ==> i < (#[trigger] src@[r])@.len(),
    ensures
        rows_of(out@) == swap_column(rows_of(m@), rows_of(src@), i as int),
{
    let mut out: Vec<Vec<T>> = Vec::new();
    let mut r: usize = 0;
    while r < m.len()
        invariant
            r <= m@.len(),
            src@.len() == m@.len(),
            forall|q: int| 0 <= q < m@.len() ==> i < (#[trigger] m@[q])@.len(),
            forall|q: int| 0 <= q < src@.len() ==> i < (#[trigger] src@[q])@.len(),
            out@.len() == r,
            forall|q: int|
                0 <= q < r ==> (#[trigger] out@[q])@ == m@[q]@.update(i as int, src@[q]@[i as int]),
        decreases m@.len() - r,
    {
        let from_row = &m[r];
        let width = from_row.len();
        let mut row: Vec<T> = Vec::new();
        let mut j: usize = 0;
        while j < width
            invariant
                j <= width,
                width == from_row@.len(),
                i < width,
                r < src@.len(),
                i < src@[r as int]@.len(),
                row@ == from_row@.update(i as int, src@[r as int]@[i as int]).subrange(0, j as int),
            decreases width - j,
        {
            let cell = if j == i {
                src[r][i]
            } else {
                from_row[j]
            };
            row.push(cell);
            j = j + 1;
            proof {
                assert(row@ =~= from_row@.update(i as int, src@[r as int]@[i as int]).subrange(0, j as int));
            }
        }
        proof {
            assert(row@ =~= from_row@.update(i as int, src@[r as int]@[i as int]));
        }
        out.push(row);
        r = r + 1;
    }
    proof {
        assert(rows_of(out@) =~= swap_column(rows_of(m@), rows_of(src@), i as int));
    }
    out
}

} // verus!
