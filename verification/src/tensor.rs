//! The tensor value type: a shape (ordered sequence of positive axis sizes)
//! together with a flat, contiguous, row-major buffer of `i64` scalars, with
//! bounds-checked element access through the index mapper.

use crate::error::TensorError;
use crate::shape::{
    all_pos, coord_of, flat_index, in_bounds, lemma_coord_of_flat_index, lemma_flat_index_bound,
    lemma_flat_index_coord_of, lemma_product_pos, lemma_product_prefix_le, lemma_product_split,
    product,
};
use vstd::prelude::*;

verus! {

/// A dense n-dimensional array.  `shape[i]` is the size of axis `i`; `data`
/// holds exactly `product(shape)` scalars in row-major order, the last axis
/// varying fastest.
#[derive(Clone, Debug)]
pub struct Tensor {
    pub shape: Vec<usize>,
    pub data: Vec<i64>,
}

/// The first axis on which coordinate `c` leaves shape `s` (scanning from
/// axis 0), or `s.len()` when `c` is within bounds everywhere.
pub open spec fn first_out_of_range(s: Seq<usize>, c: Seq<usize>, i: int) -> int
    decreases s.len() - i,
{
    if i < 0 || i >= s.len() {
        s.len() as int
    } else if c[i] >= s[i] {
        i
    } else {
        first_out_of_range(s, c, i + 1)
    }
}

/// The exact failure `get` and `set` report for coordinate `c` on shape `s`
/// when `c` is not a valid coordinate.
pub open spec fn index_error(s: Seq<usize>, c: Seq<usize>) -> TensorError {
    if c.len() != s.len() {
        TensorError::RankMismatch { operand: 0, expected: s.len() as usize, found: c.len() as usize }
    } else {
        let i = first_out_of_range(s, c, 0);
        TensorError::OutOfRange { axis: i as usize, index: c[i], size: s[i] }
    }
}

proof fn lemma_first_out_of_range_props(s: Seq<usize>, c: Seq<usize>, i: int)
    requires
        c.len() == s.len(),
        0 <= i <= s.len(),
        forall|j: int| 0 <= j < i ==> c[j] < s[j],
    ensures
        ({
            let k = first_out_of_range(s, c, i);
            &&& i <= k <= s.len()
            &&& (k < s.len() ==> c[k] >= s[k])
            &&& forall|j: int| 0 <= j < k ==> c[j] < s[j]
            &&& (k == s.len() ==> in_bounds(s, c))
        }),
    decreases s.len() - i,
{
    if i < s.len() && c[i] < s[i] {
        lemma_first_out_of_range_props(s, c, i + 1);
    }
}

/// The first row of `d` (from row `i` on) whose length differs from row 0's,
/// or `d.len()` when the nesting is rectangular.
pub open spec fn vec2_first_ragged(d: Seq<Vec<i64>>, i: int) -> int
    decreases d.len() - i,
{
    if i < 0 || i >= d.len() {
        d.len() as int
    } else if d[i]@.len() != d[0]@.len() {
        i
    } else {
        vec2_first_ragged(d, i + 1)
    }
}

/// The first inner row of `row` (from position `j` on) whose length differs
/// from `d2`, or `row.len()` when all agree.
pub open spec fn vec3_row_ragged(row: Seq<Vec<i64>>, d2: nat, j: int) -> int
    decreases row.len() - j,
{
    if j < 0 || j >= row.len() {
        row.len() as int
    } else if row[j]@.len() != d2 {
        j
    } else {
        vec3_row_ragged(row, d2, j + 1)
    }
}

/// The exact failure `from_vec3` reports, scanning rows from `i` on: the
/// first nested sequence whose length disagrees with the lengths that row 0
/// establishes, in the order the rows are visited.
pub open spec fn vec3_first_error(d: Seq<Vec<Vec<i64>>>, i: int) -> Option<TensorError>
    decreases d.len() - i,
{
    if i < 0 || i >= d.len() {
        None
    } else if d[i]@.len() != d[0]@.len() {
        Some(
            TensorError::ShapeMismatch {
                outer: i as usize,
                inner: 0,
                expected: d[0]@.len() as usize,
                found: d[i]@.len() as usize,
            },
        )
    } else {
        let d2 = d[0]@[0]@.len();
        let j = vec3_row_ragged(d[i]@, d2, 0);
        if j < d[i]@.len() {
            Some(
                TensorError::ShapeMismatch {
                    outer: i as usize,
                    inner: j as usize,
                    expected: d2 as usize,
                    found: d[i]@[j]@.len() as usize,
                },
            )
        } else {
            vec3_first_error(d, i + 1)
        }
    }
}

/// Strict ordering of row-major pair indices: an earlier (row, column) pair
/// stores at a smaller flat offset.
/// Scanning for a ragged row can start past any rectangular prefix.
proof fn lemma_vec2_scan(d: Seq<Vec<i64>>, i: int)
    requires
        0 <= i <= d.len(),
        forall|j: int| 0 <= j < i ==> (#[trigger] d[j]@).len() == d[0]@.len(),
    ensures
        vec2_first_ragged(d, 0) == vec2_first_ragged(d, i),
    decreases i,
{
    if i > 0 {
        lemma_vec2_scan(d, i - 1);
        assert(vec2_first_ragged(d, i - 1) == vec2_first_ragged(d, i));
    }
}

/// Scanning one row for a ragged inner sequence can start past any clean
/// prefix.
proof fn lemma_vec3_row_scan(row: Seq<Vec<i64>>, d2: nat, j: int)
    requires
        0 <= j <= row.len(),
        forall|k: int| 0 <= k < j ==> (#[trigger] row[k]@).len() == d2,
    ensures
        vec3_row_ragged(row, d2, 0) == vec3_row_ragged(row, d2, j),
    decreases j,
{
    if j > 0 {
        lemma_vec3_row_scan(row, d2, j - 1);
    }
}

/// Scanning for the first nesting failure can start past any prefix of rows
/// that are whole: right length, and rectangular inside.
proof fn lemma_vec3_scan(d: Seq<Vec<Vec<i64>>>, i: int)
    requires
        0 <= i <= d.len(),
        forall|j: int| 0 <= j < i ==> (#[trigger] d[j]@).len() == d[0]@.len(),
        forall|j: int, k: int|
            0 <= j < i && 0 <= k < d[j]@.len() ==> (#[trigger] d[j]@[k]@).len()
                == d[0]@[0]@.len(),
    ensures
        vec3_first_error(d, 0) == vec3_first_error(d, i),
    decreases i,
{
    if i > 0 {
        lemma_vec3_scan(d, i - 1);
        lemma_vec3_row_scan(d[i - 1]@, d[0]@[0]@.len(), d[i - 1]@.len() as int);
    }
}

/// Strict ordering of row-major pair indices: an earlier (row, column) pair
/// stores at a smaller flat offset.
proof fn lemma_pair_index_lt(i1: int, j1: int, i2: int, j2: int, cols: int)
    requires
        0 <= i1,
        0 <= j1 < cols,
        0 <= j2,
        i1 < i2 || (i1 == i2 && j1 < j2),
    ensures
        i1 * cols + j1 < i2 * cols + j2,
{
    if i1 < i2 {
        assert(i1 * cols + j1 < i2 * cols + j2) by (nonlinear_arith)
            requires
                0 <= i1,
                0 <= j1 < cols,
                0 <= j2,
                i1 < i2,
        ;
    }
}

impl Tensor {
    /// The buffer holds one scalar per point of the shape, and every axis
    /// size is positive.  Constructors establish this; every method keeps it.
    pub open spec fn wf(&self) -> bool {
        all_pos(self.shape@) && self.data@.len() == product(self.shape@)
    }

    /// Rank: the number of axes.
    pub open spec fn spec_rank(&self) -> nat {
        self.shape@.len()
    }

    /// The scalar stored at valid coordinate `c`.
    pub open spec fn at(&self, c: Seq<usize>) -> i64 {
        self.data@[flat_index(self.shape@, c) as int]
    }

    /// Creates a zero-filled tensor of the given shape.  A rank-0 shape
    /// yields a single-element buffer.
    pub fn zeros(shape: Vec<usize>) -> (t: Tensor)
        requires
            all_pos(shape@),
            product(shape@) <= usize::MAX,
        ensures
            t.wf(),
            t.shape@ == shape@,
            t.data@.len() == product(shape@),
            forall|i: int| 0 <= i < t.data@.len() ==> t.data@[i] == 0i64,
    {
        let n = shape.len();
        let mut size: usize = 1;
        let mut i: usize = 0;
        while i < n
            invariant
                n == shape@.len(),
                0 <= i <= n,
                all_pos(shape@),
                product(shape@) <= usize::MAX,
                size == product(shape@.take(i as int)),
            decreases n - i,
        {
            proof {
                assert(shape@.take(i + 1).drop_last() =~= shape@.take(i as int));
                assert(shape@.take(i + 1).last() == shape@[i as int]);
                lemma_product_prefix_le(shape@, i + 1);
            }
            size = size * shape[i];
            i = i + 1;
        }
        proof {
            assert(shape@.take(n as int) =~= shape@);
        }
        let mut data: Vec<i64> = Vec::new();
        while data.len() < size
            invariant
                data@.len() <= size,
                forall|j: int| 0 <= j < data@.len() ==> data@[j] == 0i64,
            decreases size - data@.len(),
        {
            data.push(0i64);
        }
        Tensor { shape, data }
    }

    /// Builds a rank-2 tensor from rows of scalars.  The outer length and
    /// row 0's length fix the shape; every later row must match row 0, and
    /// the first that does not is reported as a shape mismatch.
    pub fn from_vec2(data: Vec<Vec<i64>>) -> (r: Result<Tensor, TensorError>)
        requires
            data@.len() >= 1,
            data@[0]@.len() >= 1,
        ensures
            match r {
                Ok(t) => {
                    &&& vec2_first_ragged(data@, 0) == data@.len()
                    &&& t.wf()
                    &&& t.shape@ == seq![data@.len() as usize, data@[0]@.len() as usize]
                    &&& forall|i: int, j: int|
                        0 <= i < data@.len() && 0 <= j < data@[0]@.len() ==> t.data@[i * (
                        data@[0]@.len() as int) + j] == data@[i]@[j]
                },
                Err(e) => {
                    let bad = vec2_first_ragged(data@, 0);
                    &&& bad < data@.len()
                    &&& e == (TensorError::ShapeMismatch {
                        outer: bad as usize,
                        inner: 0,
                        expected: data@[0]@.len() as usize,
                        found: data@[bad]@.len() as usize,
                    })
                },
            },
    {
        let rows = data.len();
        let cols = data[0].len();
        let mut flat: Vec<i64> = Vec::new();
        let mut i: usize = 0;
        while i < rows
            invariant
                rows == data@.len(),
                cols == data@[0]@.len(),
                cols >= 1,
                0 <= i <= rows,
                forall|i2: int| 0 <= i2 < i ==> data@[i2]@.len() == cols,
                flat@.len() == i * (cols as int),
                forall|i2: int, j2: int|
                    0 <= i2 < i && 0 <= j2 < cols ==> flat@[i2 * (cols as int) + j2]
                        == data@[i2]@[j2],
            decreases rows - i,
        {
            let row_len = data[i].len();
            if row_len != cols {
                proof {
                    lemma_vec2_scan(data@, i as int);
                }
                return Err(
                    TensorError::ShapeMismatch {
                        outer: i,
                        inner: 0,
                        expected: cols,
                        found: row_len,
                    },
                );
            }
            let mut j: usize = 0;
            while j < cols
                invariant
                    rows == data@.len(),
                    cols == data@[0]@.len(),
                    cols >= 1,
                    0 <= i < rows,
                    0 <= j <= cols,
                    data@[i as int]@.len() == cols,
                    forall|i2: int| 0 <= i2 < i ==> data@[i2]@.len() == cols,
                    flat@.len() == i * (cols as int) + j,
                    forall|i2: int, j2: int|
                        0 <= i2 <= i && 0 <= j2 < cols && (i2 < i || j2 < j) ==> flat@[i2 * (
                        cols as int) + j2] == data@[i2]@[j2],
                decreases cols - j,
            {
                let ghost old_flat = flat@;
                flat.push(data[i][j]);
                j = j + 1;
                proof {
                    assert forall|i2: int, j2: int|
                        0 <= i2 <= i && 0 <= j2 < cols && (i2 < i || j2 < j) implies flat@[i2 * (
                        cols as int) + j2] == data@[i2]@[j2] by {
                        if i2 < i || j2 < j - 1 {
                            lemma_pair_index_lt(i2, j2, i as int, j - 1, cols as int);
                        }
                    }
                }
            }
            i = i + 1;
            proof {
                assert(i * (cols as int) == (i - 1) * (cols as int) + cols) by (nonlinear_arith);
            }
        }
        let mut shape: Vec<usize> = Vec::new();
        shape.push(rows);
        shape.push(cols);
        proof {
            lemma_vec2_scan(data@, rows as int);
            assert(shape@ =~= seq![rows, cols]);
            crate::shape::lemma_product2(rows, cols);
            assert(product(shape@) == (rows as nat) * (cols as nat));
        }
        Ok(Tensor { shape, data: flat })
    }

    /// Builds a rank-3 tensor from nested scalar literals.  The outer length
    /// and the lengths inside element 0 fix the shape; every sibling sequence
    /// must match, and the first that does not is reported as a shape
    /// mismatch naming its position.
    pub fn from_vec3(data: Vec<Vec<Vec<i64>>>) -> (r: Result<Tensor, TensorError>)
        requires
            data@.len() >= 1,
            data@[0]@.len() >= 1,
            data@[0]@[0]@.len() >= 1,
        ensures
            match r {
                Ok(t) => {
                    &&& vec3_first_error(data@, 0) is None
                    &&& t.wf()
                    &&& t.shape@ == seq![
                        data@.len() as usize,
                        data@[0]@.len() as usize,
                        data@[0]@[0]@.len() as usize,
                    ]
                    &&& forall|i: int, j: int, k: int|
                        0 <= i < data@.len() && 0 <= j < data@[0]@.len() && 0 <= k
                            < data@[0]@[0]@.len() ==> t.data@[(i * (data@[0]@.len() as int) + j) * (
                        data@[0]@[0]@.len() as int) + k] == (#[trigger] data@[i]@[j]@[k])
                },
                Err(e) => vec3_first_error(data@, 0) == Some(e),
            },
    {
        let n0 = data.len();
        let d1 = data[0].len();
        let d2 = data[0][0].len();
        let ghost d1i = d1 as int;
        let ghost d2i = d2 as int;
        let mut flat: Vec<i64> = Vec::new();
        let mut i: usize = 0;
        while i < n0
            invariant
                n0 == data@.len(),
                d1 == data@[0]@.len(),
                d2 == data@[0]@[0]@.len(),
                d1i == d1 as int,
                d2i == d2 as int,
                d1 >= 1,
                d2 >= 1,
                0 <= i <= n0,
                forall|i2: int| 0 <= i2 < i ==> (#[trigger] data@[i2]@).len() == d1,
                forall|i2: int, j2: int|
                    0 <= i2 < i && 0 <= j2 < d1 ==> (#[trigger] data@[i2]@[j2]@).len() == d2,
                flat@.len() == (i * d1i) * d2i,
                forall|i2: int, j2: int, k2: int|
                    0 <= i2 < i && 0 <= j2 < d1 && 0 <= k2 < d2 ==> flat@[(i2 * d1i + j2) * d2i
                        + k2] == (#[trigger] data@[i2]@[j2]@[k2]),
            decreases n0 - i,
        {
            let row_len = data[i].len();
            if row_len != d1 {
                proof {
                    lemma_vec3_scan(data@, i as int);
                }
                return Err(
                    TensorError::ShapeMismatch {
                        outer: i,
                        inner: 0,
                        expected: d1,
                        found: row_len,
                    },
                );
            }
            let mut j: usize = 0;
            while j < d1
                invariant
                    n0 == data@.len(),
                    d1 == data@[0]@.len(),
                    d2 == data@[0]@[0]@.len(),
                    d1i == d1 as int,
                    d2i == d2 as int,
                    d1 >= 1,
                    d2 >= 1,
                    0 <= i < n0,
                    0 <= j <= d1,
                    data@[i as int]@.len() == d1,
                    forall|i2: int| 0 <= i2 < i ==> (#[trigger] data@[i2]@).len() == d1,
                    forall|i2: int, j2: int|
                        0 <= i2 < i && 0 <= j2 < d1 ==> (#[trigger] data@[i2]@[j2]@).len() == d2,
                    forall|j2: int|
                        0 <= j2 < j ==> (#[trigger] data@[i as int]@[j2]@).len() == d2,
                    flat@.len() == (i * d1i + j) * d2i,
                    forall|i2: int, j2: int, k2: int|
                        0 <= i2 <= i && 0 <= j2 < d1 && 0 <= k2 < d2 && (i2 < i || j2 < j)
                            ==> flat@[(i2 * d1i + j2) * d2i + k2] == (
                        #[trigger] data@[i2]@[j2]@[k2]),
                decreases d1 - j,
            {
                let inner_len = data[i][j].len();
                if inner_len != d2 {
                    proof {
                        lemma_vec3_scan(data@, i as int);
                        lemma_vec3_row_scan(data@[i as int]@, d2 as nat, j as int);
                    }
                    return Err(
                        TensorError::ShapeMismatch {
                            outer: i,
                            inner: j,
                            expected: d2,
                            found: inner_len,
                        },
                    );
                }
                let mut k: usize = 0;
                while k < d2
                    invariant
                        n0 == data@.len(),
                        d1 == data@[0]@.len(),
                        d2 == data@[0]@[0]@.len(),
                        d1i == d1 as int,
                        d2i == d2 as int,
                        d1 >= 1,
                        d2 >= 1,
                        0 <= i < n0,
                        0 <= j < d1,
                        0 <= k <= d2,
                        data@[i as int]@.len() == d1,
                        data@[i as int]@[j as int]@.len() == d2,
                        forall|i2: int| 0 <= i2 < i ==> (#[trigger] data@[i2]@).len() == d1,
                        forall|i2: int, j2: int|
                            0 <= i2 < i && 0 <= j2 < d1 ==> (#[trigger] data@[i2]@[j2]@).len()
                                == d2,
                        forall|j2: int|
                            0 <= j2 < j ==> (#[trigger] data@[i as int]@[j2]@).len() == d2,
                        flat@.len() == (i * d1i + j) * d2i + k,
                        forall|i2: int, j2: int, k2: int|
                            0 <= i2 <= i && 0 <= j2 < d1 && 0 <= k2 < d2 && (i2 < i || j2 < j || (
                            j2 == j && k2 < k)) ==> flat@[(i2 * d1i + j2) * d2i + k2] == (
                            #[trigger] data@[i2]@[j2]@[k2]),
                    decreases d2 - k,
                {
                    flat.push(data[i][j][k]);
                    k = k + 1;
                    proof {
                        assert forall|i2: int, j2: int, k2: int|
                            0 <= i2 <= i && 0 <= j2 < d1 && 0 <= k2 < d2 && (i2 < i || j2 < j || (
                            j2 == j && k2 < k)) implies flat@[(i2 * d1i + j2) * d2i + k2] == (
                        data@[i2]@[j2]@[k2]) by {
                            if i2 == i && j2 == j && k2 == k - 1 {
                            } else {
                                assert(i2 * d1i >= 0 && i2 * d1i + j2 >= 0) by (nonlinear_arith)
                                    requires
                                        i2 >= 0,
                                        j2 >= 0,
                                        d1i >= 1,
                                ;
                                if i2 < i || j2 < j {
                                    lemma_pair_index_lt(i2, j2, i as int, j as int, d1i);
                                    lemma_pair_index_lt(
                                        i2 * d1i + j2,
                                        k2,
                                        i * d1i + j,
                                        k - 1,
                                        d2i,
                                    );
                                }
                            }
                        }
                    }
                }
                j = j + 1;
                proof {
                    assert((i * d1i + j) * d2i == (i * d1i + (j - 1)) * d2i + d2i)
                        by (nonlinear_arith);
                }
            }
            i = i + 1;
            proof {
                assert((i * d1i) * d2i == ((i - 1) * d1i + d1i) * d2i) by (nonlinear_arith);
            }
        }
        let mut shape: Vec<usize> = Vec::new();
        shape.push(n0);
        shape.push(d1);
        shape.push(d2);
        proof {
            lemma_vec3_scan(data@, n0 as int);
            assert(shape@ =~= seq![n0, d1, d2]);
            crate::shape::lemma_product3(n0, d1, d2);
        }
        Ok(Tensor { shape, data: flat })
    }

    /// The flat row-major offset of `indices`, or the exact rank or range
    /// failure when `indices` is not a valid coordinate for this tensor.
    pub fn calculate_flat_index(&self, indices: &[usize]) -> (r: Result<usize, TensorError>)
        requires
            self.wf(),
        ensures
            match r {
                Ok(k) => in_bounds(self.shape@, indices@) && k == flat_index(
                    self.shape@,
                    indices@,
                ) && k < self.data@.len(),
                Err(e) => !in_bounds(self.shape@, indices@) && e == index_error(
                    self.shape@,
                    indices@,
                ),
            },
    {
        let n = self.shape.len();
        if indices.len() != n {
            return Err(
                TensorError::RankMismatch { operand: 0, expected: n, found: indices.len() },
            );
        }
        let ghost s = self.shape@;
        let ghost c = indices@;
        let buffer_len = self.data.len();
        let mut flat: usize = 0;
        let mut i: usize = 0;
        while i < n
            invariant
                self.wf(),
                s == self.shape@,
                c == indices@,
                c.len() == n == s.len(),
                buffer_len == self.data@.len(),
                0 <= i <= n,
                forall|j: int| 0 <= j < i ==> c[j] < s[j],
                flat == flat_index(s.take(i as int), c.take(i as int)),
                flat < product(s.take(i as int)),
            decreases n - i,
        {
            if indices[i] >= self.shape[i] {
                proof {
                    lemma_first_out_of_range_props(s, c, 0);
                }
                return Err(
                    TensorError::OutOfRange {
                        axis: i,
                        index: indices[i],
                        size: self.shape[i],
                    },
                );
            }
            proof {
                assert(s.take(i + 1).drop_last() =~= s.take(i as int));
                assert(c.take(i + 1).drop_last() =~= c.take(i as int));
                assert(in_bounds(s.take(i + 1), c.take(i + 1)));
                lemma_flat_index_bound(s.take(i + 1), c.take(i + 1));
                lemma_product_prefix_le(s, i + 1);
            }
            flat = flat * self.shape[i] + indices[i];
            i = i + 1;
        }
        proof {
            assert(s.take(n as int) =~= s);
            assert(c.take(n as int) =~= c);
            lemma_flat_index_bound(s, c);
        }
        Ok(flat)
    }

    /// The coordinate whose flat offset is `flat`, for any offset inside the
    /// buffer.
    pub fn calculate_multi_index(&self, flat: usize) -> (c: Vec<usize>)
        requires
            self.wf(),
            flat < self.data@.len(),
        ensures
            c@ == coord_of(self.shape@, flat as int),
            in_bounds(self.shape@, c@),
            flat_index(self.shape@, c@) == flat,
    {
        let n = self.shape.len();
        let ghost s = self.shape@;
        let mut c: Vec<usize> = Vec::new();
        let mut i: usize = 0;
        while i < n
            invariant
                0 <= i <= n,
                n == s.len(),
                c@.len() == i,
                forall|j: int| 0 <= j < i ==> c@[j] == 0usize,
            decreases n - i,
        {
            c.push(0);
            i = i + 1;
        }
        proof {
            assert(s.take(n as int) =~= s);
            assert(coord_of(s.take(n as int), flat as int) + c@.skip(n as int) =~= coord_of(
                s,
                flat as int,
            ));
        }
        let mut rem: usize = flat;
        let mut k: usize = n;
        while k > 0
            invariant
                self.wf(),
                s == self.shape@,
                flat < self.data@.len(),
                0 <= k <= n,
                n == s.len(),
                c@.len() == n,
                coord_of(s, flat as int) == coord_of(s.take(k as int), rem as int) + c@.skip(
                    k as int,
                ),
                rem < product(s.take(k as int)),
            decreases k,
        {
            proof {
                assert(s.take(k as int).drop_last() =~= s.take(k - 1));
                assert(s.take(k as int).last() == s[k - 1]);
                lemma_product_pos(s.take(k - 1));
                let b = s[k - 1] as int;
                let p = product(s.take(k - 1)) as int;
                let r = rem as int;
                assert(r / b < p && 0 <= r / b && 0 <= r % b < b) by (nonlinear_arith)
                    requires
                        b >= 1,
                        p >= 1,
                        0 <= r,
                        r < p * b,
                ;
            }
            let dim = self.shape[k - 1];
            let digit = rem % dim;
            let ghost old_c = c@;
            let ghost old_rem = rem as int;
            c.set(k - 1, digit);
            rem = rem / dim;
            k = k - 1;
            proof {
                assert(s.take(k + 1).drop_last() =~= s.take(k as int));
                assert(coord_of(s.take(k + 1), old_rem) == coord_of(
                    s.take(k as int),
                    rem as int,
                ).push(digit));
                assert(c@.skip(k as int) =~= seq![digit] + old_c.skip(k + 1));
                assert(coord_of(s.take(k as int), rem as int) + c@.skip(k as int) =~= coord_of(
                    s.take(k + 1),
                    old_rem,
                ) + old_c.skip(k + 1));
            }
        }
        proof {
            assert(s.take(0) =~= Seq::<usize>::empty());
            assert(coord_of(s.take(0), rem as int) =~= Seq::<usize>::empty());
            assert(coord_of(s.take(0), rem as int) + c@.skip(0) =~= c@);
            lemma_flat_index_coord_of(s, flat as int);
        }
        c
    }

    /// Reads the scalar at `indices`; fails with the mapper's exact rank or
    /// range failure on an invalid coordinate.
    pub fn get(&self, indices: &[usize]) -> (r: Result<i64, TensorError>)
        requires
            self.wf(),
        ensures
            match r {
                Ok(v) => in_bounds(self.shape@, indices@) && v == self.at(indices@),
                Err(e) => !in_bounds(self.shape@, indices@) && e == index_error(
                    self.shape@,
                    indices@,
                ),
            },
    {
        let flat = self.calculate_flat_index(indices)?;
        Ok(self.data[flat])
    }

    /// Writes the scalar at `indices`; the only mutator, with no other
    /// observable effect.  Fails, leaving the tensor unchanged, with the
    /// mapper's exact rank or range failure on an invalid coordinate.
    pub fn set(&mut self, indices: &[usize], value: i64) -> (r: Result<(), TensorError>)
        requires
            old(self).wf(),
        ensures
            final(self).wf(),
            final(self).shape@ == old(self).shape@,
            match r {
                Ok(()) => in_bounds(old(self).shape@, indices@) && final(self).data@ == old(
                    self,
                ).data@.update(flat_index(old(self).shape@, indices@) as int, value),
                Err(e) => !in_bounds(old(self).shape@, indices@) && e == index_error(
                    old(self).shape@,
                    indices@,
                ) && final(self).data@ == old(self).data@,
            },
    {
        let flat = match self.calculate_flat_index(indices) {
            Ok(k) => k,
            Err(e) => {
                return Err(e);
            },
        };
        self.data.set(flat, value);
        Ok(())
    }
}
} // verus!
