//! Rendering helpers that consume the tensor's read interface: decimal
//! rendering of scalars, comma-joined label rows for the CSV relation
//! export, and the nonzero-entry listing.  Entries equal to zero are the
//! ones the export and the listing leave out.

use crate::error::TensorError;
use crate::shape::{coord_of, product};
use crate::tensor::Tensor;
use vstd::prelude::*;
use vstd::string::*;

verus! {

/// The decimal digit character for `d`.
pub open spec fn digit_char(d: nat) -> char {
    if d == 0 {
        '0'
    } else if d == 1 {
        '1'
    } else if d == 2 {
        '2'
    } else if d == 3 {
        '3'
    } else if d == 4 {
        '4'
    } else if d == 5 {
        '5'
    } else if d == 6 {
        '6'
    } else if d == 7 {
        '7'
    } else if d == 8 {
        '8'
    } else {
        '9'
    }
}

/// The decimal rendering of a non-negative integer, most significant digit
/// first, with no leading zeros (a single `0` for zero).
pub open spec fn dec_digits(n: nat) -> Seq<char>
    decreases n,
{
    if n < 10 {
        seq![digit_char(n)]
    } else {
        dec_digits(n / 10).push(digit_char(n % 10))
    }
}

/// The decimal rendering of an integer, with a leading minus sign when
/// negative.
pub open spec fn int_chars(v: int) -> Seq<char> {
    if v < 0 {
        seq!['-'] + dec_digits((-v) as nat)
    } else {
        dec_digits(v as nat)
    }
}

/// The given parts joined by the separator.
pub open spec fn joined(parts: Seq<Seq<char>>, sep: Seq<char>) -> Seq<char>
    decreases parts.len(),
{
    if parts.len() == 0 {
        Seq::empty()
    } else if parts.len() == 1 {
        parts[0]
    } else {
        joined(parts.drop_last(), sep) + sep + parts.last()
    }
}

/// The views of a list of strings.
pub open spec fn string_views(ss: Seq<String>) -> Seq<Seq<char>> {
    Seq::new(ss.len(), |i: int| ss[i]@)
}

/// The views of one label list per axis.
pub open spec fn label_views(ls: Seq<Vec<String>>) -> Seq<Seq<Seq<char>>> {
    Seq::new(ls.len(), |d: int| string_views(ls[d]@))
}

/// The label rendered for axis index `i`: the `i`th label when the list is
/// long enough, else a placeholder.
pub open spec fn label_or_placeholder(ls: Seq<Seq<char>>, i: int) -> Seq<char> {
    if 0 <= i < ls.len() {
        ls[i]
    } else {
        placeholder_label()
    }
}

/// The label rendered for an axis index beyond the provided label list.
pub open spec fn placeholder_label() -> Seq<char> {
    seq!['U', 'n', 'k', 'n', 'o', 'w', 'n']
}

/// Appends one decimal digit.
fn push_digit(s: &mut String, d: u64)
    requires
        d < 10,
    ensures
        final(s)@ == old(s)@ + seq![digit_char(d as nat)],
{
    proof {
        reveal_strlit("0");
        reveal_strlit("1");
        reveal_strlit("2");
        reveal_strlit("3");
        reveal_strlit("4");
        reveal_strlit("5");
        reveal_strlit("6");
        reveal_strlit("7");
        reveal_strlit("8");
        reveal_strlit("9");
    }
    if d == 0 {
        s.append("0");
    } else if d == 1 {
        s.append("1");
    } else if d == 2 {
        s.append("2");
    } else if d == 3 {
        s.append("3");
    } else if d == 4 {
        s.append("4");
    } else if d == 5 {
        s.append("5");
    } else if d == 6 {
        s.append("6");
    } else if d == 7 {
        s.append("7");
    } else if d == 8 {
        s.append("8");
    } else {
        s.append("9");
    }
    proof {
        assert(s@ =~= old(s)@ + seq![digit_char(d as nat)]);
    }
}

/// Appends the decimal rendering of `n`.
fn push_dec(s: &mut String, n: u64)
    ensures
        final(s)@ == old(s)@ + dec_digits(n as nat),
    decreases n,
{
    if n >= 10 {
        push_dec(s, n / 10);
        push_digit(s, n % 10);
        proof {
            assert(s@ =~= old(s)@ + dec_digits(n as nat));
        }
    } else {
        push_digit(s, n);
    }
}

/// The decimal rendering of a scalar, minus sign included.
pub fn int_string(v: i64) -> (r: String)
    ensures
        r@ == int_chars(v as int),
{
    let mut s = String::new();
    if v < 0 {
        proof {
            reveal_strlit("-");
        }
        s.append("-");
        let mag: u64 = ((-(v + 1)) as u64) + 1;
        proof {
            assert(mag == (-(v as int)) as nat);
        }
        push_dec(&mut s, mag);
        proof {
            assert(s@ =~= int_chars(v as int));
        }
    } else {
        push_dec(&mut s, v as u64);
    }
    s
}

/// The comma-joined fields of one exported row: one label per axis of the
/// entry's coordinate, then the entry's decimal value.
pub open spec fn csv_fields(t: Tensor, labels: Seq<Seq<Seq<char>>>, idx: int) -> Seq<Seq<char>> {
    Seq::new(
        t.shape@.len(),
        |d: int| label_or_placeholder(labels[d], coord_of(t.shape@, idx)[d] as int),
    ).push(int_chars(t.data@[idx] as int))
}

/// The exported data rows for the first `n` entries, in increasing flat
/// order, one row per nonzero entry.
pub open spec fn csv_rows(t: Tensor, labels: Seq<Seq<Seq<char>>>, n: int) -> Seq<Seq<char>>
    decreases n,
{
    if n <= 0 {
        Seq::empty()
    } else if t.data@[n - 1] != 0 {
        csv_rows(t, labels, n - 1).push(joined(csv_fields(t, labels, n - 1), seq![',']))
    } else {
        csv_rows(t, labels, n - 1)
    }
}

/// The coordinate-and-value listing row for entry `idx`.
pub open spec fn nonzero_row(t: Tensor, idx: int) -> Seq<char> {
    let c = coord_of(t.shape@, idx);
    seq!['['] + joined(
        Seq::new(c.len(), |d: int| int_chars(c[d] as int)),
        seq![',', ' '],
    ) + seq![']'] + seq![' ', '-', '>', ' '] + int_chars(t.data@[idx] as int)
}

/// The listing rows for the first `n` entries, one per nonzero entry.
pub open spec fn nonzero_rows(t: Tensor, n: int) -> Seq<Seq<char>>
    decreases n,
{
    if n <= 0 {
        Seq::empty()
    } else if t.data@[n - 1] != 0 {
        nonzero_rows(t, n - 1).push(nonzero_row(t, n - 1))
    } else {
        nonzero_rows(t, n - 1)
    }
}

/// A rendered matrix cell: a placeholder glyph for zero, else the decimal
/// value.
pub open spec fn cell_chars(v: i64) -> Seq<char> {
    if v == 0 {
        seq!['.']
    } else {
        int_chars(v as int)
    }
}

/// One rendered matrix row: the cells at flat offsets `base .. base + cols`,
/// joined by spaces between brackets.
pub open spec fn matrix_row(t: Tensor, base: int, cols: int) -> Seq<char> {
    seq!['[', ' '] + joined(Seq::new(cols as nat, |c: int| cell_chars(t.data@[base + c])), seq![' '])
        + seq![' ', ']']
}

/// The heading of slice `s`: bare for a rank-2 tensor, numbered for higher
/// ranks.
pub open spec fn slice_heading(rank: int, s: int) -> Seq<char> {
    if rank == 2 {
        seq!['M', 'a', 't', 'r', 'i', 'x', ':']
    } else {
        seq!['S', 'l', 'i', 'c', 'e', ' '] + dec_digits(s as nat) + seq![':']
    }
}

/// The rendered lines of slice `s`: its heading, then one row per value of
/// the second-to-last axis.
pub open spec fn slice_block(t: Tensor, rows: int, cols: int, s: int) -> Seq<Seq<char>> {
    seq![slice_heading(t.shape@.len() as int, s)] + Seq::new(
        rows as nat,
        |r: int| matrix_row(t, (s * rows + r) * cols, cols),
    )
}

/// The rendered lines of the first `n` slices, in order.
pub open spec fn slice_blocks(t: Tensor, rows: int, cols: int, n: int) -> Seq<Seq<char>>
    decreases n,
{
    if n <= 0 {
        Seq::empty()
    } else {
        slice_blocks(t, rows, cols, n - 1) + slice_block(t, rows, cols, n - 1)
    }
}

/// The one-line rendering of a rank-0 or rank-1 tensor: its shape and its
/// whole buffer.
pub open spec fn small_tensor_line(t: Tensor) -> Seq<char> {
    seq!['T', 'e', 'n', 's', 'o', 'r', ' ', '['] + joined(
        Seq::new(t.shape@.len(), |d: int| int_chars(t.shape@[d] as int)),
        seq![',', ' '],
    ) + seq![']', ':', ' ', '['] + joined(
        Seq::new(t.data@.len(), |i: int| int_chars(t.data@[i] as int)),
        seq![',', ' '],
    ) + seq![']']
}

impl Tensor {
    /// The CSV relation table for this tensor: a header line joining the
    /// given column labels, then one line per nonzero entry joining that
    /// entry's axis labels and its value.  Fails when the label lists or the
    /// header do not match the tensor's rank.
    pub fn relation_csv_lines(&self, header: &Vec<String>, dim_labels: &Vec<Vec<String>>) -> (r:
        Result<Vec<String>, TensorError>)
        requires
            self.wf(),
        ensures
            match r {
                Ok(lines) => {
                    &&& dim_labels@.len() == self.shape@.len()
                    &&& header@.len() == self.shape@.len() + 1
                    &&& string_views(lines@) == seq![
                        joined(string_views(header@), seq![',']),
                    ] + csv_rows(*self, label_views(dim_labels@), self.data@.len() as int)
                },
                Err(e) => {
                    &&& (dim_labels@.len() != self.shape@.len() || header@.len() != self.shape@.len()
                        + 1)
                    &&& e == (if dim_labels@.len() != self.shape@.len() {
                        TensorError::ShapeMismatch {
                            outer: 0,
                            inner: 0,
                            expected: self.shape@.len() as usize,
                            found: dim_labels@.len() as usize,
                        }
                    } else {
                        TensorError::ShapeMismatch {
                            outer: 0,
                            inner: 0,
                            expected: vstd::wrapping::usize_specs::wrapping_add(
                                self.shape@.len() as usize,
                                1,
                            ),
                            found: header@.len() as usize,
                        }
                    })
                },
            },
    {
        let rank = self.shape.len();
        if dim_labels.len() != rank {
            return Err(
                TensorError::ShapeMismatch {
                    outer: 0,
                    inner: 0,
                    expected: rank,
                    found: dim_labels.len(),
                },
            );
        }
        if header.len() < 1 || header.len() - 1 != rank {
            proof {
                assert(header@.len() != self.shape@.len() + 1);
            }
            return Err(
                TensorError::ShapeMismatch {
                    outer: 0,
                    inner: 0,
                    expected: rank.wrapping_add(1),
                    found: header.len(),
                },
            );
        }
        proof {
            reveal_strlit(",");
        }
        let mut lines: Vec<String> = Vec::new();
        let mut hl = String::new();
        let mut d: usize = 0;
        let ghost hfields = string_views(header@);
        while d < header.len()
            invariant
                0 <= d <= header@.len(),
                hfields == string_views(header@),
                hl@ == joined(hfields.take(d as int), seq![',']),
            decreases header@.len() - d,
        {
            proof {
                reveal_strlit(",");
            }
            if d > 0 {
                hl.append(",");
            }
            hl.append(header[d].as_str());
            d = d + 1;
            proof {
                assert(hfields.take(d as int).drop_last() =~= hfields.take(d - 1));
                assert(hl@ =~= joined(hfields.take(d as int), seq![',']));
            }
        }
        proof {
            assert(hfields.take(header@.len() as int) =~= hfields);
        }
        lines.push(hl);
        let n = self.data.len();
        let mut idx: usize = 0;
        let ghost lv = label_views(dim_labels@);
        while idx < n
            invariant
                self.wf(),
                0 <= idx <= n,
                n == self.data@.len(),
                rank == self.shape@.len(),
                dim_labels@.len() == rank,
                lv == label_views(dim_labels@),
                string_views(lines@) =~= seq![joined(string_views(header@), seq![','])]
                    + csv_rows(*self, lv, idx as int),
            decreases n - idx,
        {
            let v = self.data[idx];
            if v != 0 {
                let coord = self.calculate_multi_index(idx);
                let ghost fields = csv_fields(*self, lv, idx as int);
                let mut line = String::new();
                let mut d2: usize = 0;
                while d2 < rank
                    invariant
                        self.wf(),
                        0 <= d2 <= rank,
                        rank == self.shape@.len(),
                        0 <= idx < self.data@.len(),
                        dim_labels@.len() == rank,
                        lv == label_views(dim_labels@),
                        coord@ == coord_of(self.shape@, idx as int),
                        coord@.len() == rank,
                        fields == csv_fields(*self, lv, idx as int),
                        line@ == joined(fields.take(d2 as int), seq![',']),
                    decreases rank - d2,
                {
                    proof {
                        reveal_strlit(",");
                        reveal_strlit("Unknown");
                    }
                    if d2 > 0 {
                        line.append(",");
                    }
                    if coord[d2] < dim_labels[d2].len() {
                        line.append(dim_labels[d2][coord[d2]].as_str());
                    } else {
                        line.append("Unknown");
                        proof {
                            assert("Unknown"@ =~= placeholder_label());
                        }
                    }
                    d2 = d2 + 1;
                    proof {
                        assert(fields[d2 - 1] == label_or_placeholder(
                            lv[d2 - 1],
                            coord@[d2 - 1] as int,
                        ));
                        assert(fields.take(d2 as int).drop_last() =~= fields.take(d2 - 1));
                        assert(line@ =~= joined(fields.take(d2 as int), seq![',']));
                    }
                }
                proof {
                    reveal_strlit(",");
                }
                if rank > 0 {
                    line.append(",");
                }
                let vs = int_string(v);
                line.append(vs.as_str());
                proof {
                    assert(fields.take(rank as int) =~= fields.drop_last());
                    assert(fields.last() == int_chars(v as int));
                    assert(line@ =~= joined(fields, seq![',']));
                }
                let ghost prev_lines = lines@;
                lines.push(line);
                proof {
                    assert(self.data@[idx as int] != 0);
                    assert(csv_rows(*self, lv, idx + 1) == csv_rows(*self, lv, idx as int).push(
                        joined(csv_fields(*self, lv, idx as int), seq![',']),
                    ));
                    assert(lines@ == prev_lines.push(line));
                    assert(string_views(lines@) =~= string_views(prev_lines).push(line@));
                    assert(string_views(lines@) =~= seq![
                        joined(string_views(header@), seq![',']),
                    ] + csv_rows(*self, lv, idx + 1));
                }
            }
            idx = idx + 1;
        }
        Ok(lines)
    }

    /// The rendered form of the whole tensor: a single line for rank 0 or 1,
    /// else one block per two-dimensional slice over the leading axes, each
    /// a heading and its bracketed rows, with `.` standing for zero entries.
    pub fn render_tensor_lines(&self) -> (r: Vec<String>)
        requires
            self.wf(),
        ensures
            self.shape@.len() < 2 ==> string_views(r@) == seq![small_tensor_line(*self)],
            self.shape@.len() >= 2 ==> string_views(r@) == slice_blocks(
                *self,
                self.shape@[self.shape@.len() - 2] as int,
                self.shape@[self.shape@.len() - 1] as int,
                product(self.shape@.take(self.shape@.len() - 2)) as int,
            ),
    {
        let rank = self.shape.len();
        let mut lines: Vec<String> = Vec::new();
        if rank < 2 {
            let ghost sfields = Seq::new(self.shape@.len(), |d: int| int_chars(self.shape@[d] as int));
            let ghost dfields = Seq::new(self.data@.len(), |i: int| int_chars(self.data@[i] as int));
            let mut line = String::new();
            proof {
                reveal_strlit("Tensor [");
            }
            line.append("Tensor [");
            let mut d: usize = 0;
            while d < rank
                invariant
                    self.wf(),
                    0 <= d <= rank,
                    rank == self.shape@.len(),
                    sfields == Seq::new(self.shape@.len(), |d: int| int_chars(self.shape@[d] as int)),
                    line@ == "Tensor ["@ + joined(sfields.take(d as int), seq![',', ' ']),
                decreases rank - d,
            {
                proof {
                    reveal_strlit(", ");
                }
                if d > 0 {
                    line.append(", ");
                    proof {
                        assert(", "@ =~= seq![',', ' ']);
                    }
                }
                push_dec(&mut line, self.shape[d] as u64);
                d = d + 1;
                proof {
                    assert(sfields.take(d as int).drop_last() =~= sfields.take(d - 1));
                    assert(int_chars(self.shape@[d - 1] as int) == dec_digits(
                        self.shape@[d - 1] as nat,
                    ));
                    assert(line@ =~= "Tensor ["@ + joined(sfields.take(d as int), seq![',', ' ']));
                }
            }
            proof {
                reveal_strlit("]: [");
            }
            line.append("]: [");
            let n = self.data.len();
            let mut i: usize = 0;
            while i < n
                invariant
                    self.wf(),
                    0 <= i <= n,
                    n == self.data@.len(),
                    rank == self.shape@.len(),
                    sfields == Seq::new(self.shape@.len(), |d: int| int_chars(self.shape@[d] as int)),
                    dfields == Seq::new(self.data@.len(), |i: int| int_chars(self.data@[i] as int)),
                    line@ == "Tensor ["@ + joined(sfields, seq![',', ' ']) + "]: ["@ + joined(
                        dfields.take(i as int),
                        seq![',', ' '],
                    ),
                decreases n - i,
            {
                proof {
                    reveal_strlit(", ");
                }
                if i > 0 {
                    line.append(", ");
                    proof {
                        assert(", "@ =~= seq![',', ' ']);
                    }
                }
                let vs = int_string(self.data[i]);
                line.append(vs.as_str());
                i = i + 1;
                proof {
                    assert(dfields.take(i as int).drop_last() =~= dfields.take(i - 1));
                    assert(line@ =~= "Tensor ["@ + joined(sfields, seq![',', ' ']) + "]: ["@
                        + joined(dfields.take(i as int), seq![',', ' ']));
                }
            }
            proof {
                reveal_strlit("]");
                reveal_strlit("Tensor [");
                reveal_strlit("]: [");
                assert(sfields.take(rank as int) =~= sfields);
                assert(dfields.take(n as int) =~= dfields);
            }
            line.append("]");
            proof {
                assert(line@ =~= small_tensor_line(*self));
            }
            lines.push(line);
            proof {
                assert(string_views(lines@) =~= seq![small_tensor_line(*self)]);
            }
            return lines;
        }
        let rows = self.shape[rank - 2];
        let cols = self.shape[rank - 1];
        let ghost outer = self.shape@.take(rank - 2);
        let dl = self.data.len();
        proof {
            crate::shape::lemma_product_pos(self.shape@);
            assert(self.shape@.take(0) =~= Seq::<usize>::empty());
        }
        let mut n_slices: usize = 1;
        let mut d: usize = 0;
        while d < rank - 2
            invariant
                self.wf(),
                rank == self.shape@.len(),
                2 <= rank,
                0 <= d <= rank - 2,
                dl == self.data@.len(),
                outer == self.shape@.take(rank - 2),
                n_slices == product(self.shape@.take(d as int)),
                n_slices <= product(self.shape@),
            decreases rank - 2 - d,
        {
            proof {
                assert(self.shape@.take(d + 1).drop_last() =~= self.shape@.take(d as int));
                crate::shape::lemma_product_prefix_le(self.shape@, d + 1);
                assert(self.data@.len() == product(self.shape@));
            }
            n_slices = n_slices * self.shape[d];
            d = d + 1;
        }
        let ghost ri = rows as int;
        let ghost ci = cols as int;
        proof {
            crate::shape::lemma_product_split(self.shape@, rank - 2);
            assert(self.shape@.skip(rank - 2) =~= seq![rows, cols]);
            crate::shape::lemma_product2(rows, cols);
            assert(product(self.shape@) == product(outer) * ((rows * cols) as nat));
        }
        let mut s: usize = 0;
        while s < n_slices
            invariant
                self.wf(),
                rank == self.shape@.len(),
                2 <= rank,
                0 <= s <= n_slices,
                rows == self.shape@[rank - 2],
                cols == self.shape@[rank - 1],
                ri == rows as int,
                ci == cols as int,
                outer == self.shape@.take(rank - 2),
                n_slices == product(outer),
                product(self.shape@) == product(outer) * ((rows * cols) as nat),
                self.data@.len() == product(self.shape@),
                dl == self.data@.len(),
                string_views(lines@) =~= slice_blocks(*self, ri, ci, s as int),
            decreases n_slices - s,
        {
            let mut heading = String::new();
            if rank == 2 {
                proof {
                    reveal_strlit("Matrix:");
                }
                heading.append("Matrix:");
                proof {
                    assert(heading@ =~= slice_heading(rank as int, s as int));
                }
            } else {
                proof {
                    reveal_strlit("Slice ");
                    reveal_strlit(":");
                }
                heading.append("Slice ");
                push_dec(&mut heading, s as u64);
                heading.append(":");
                proof {
                    assert(heading@ =~= slice_heading(rank as int, s as int));
                }
            }
            let ghost prev_heading = lines@;
            let ghost heading_view = heading@;
            lines.push(heading);
            proof {
                assert(string_views(lines@) =~= string_views(prev_heading).push(heading_view));
            }
            let ghost rowseq = Seq::new(ri as nat, |rr: int| matrix_row(*self, (s * ri + rr) * ci, ci));
            let mut r2: usize = 0;
            while r2 < rows
                invariant
                    self.wf(),
                    rank == self.shape@.len(),
                    2 <= rank,
                    0 <= s < n_slices,
                    0 <= r2 <= rows,
                    rows == self.shape@[rank - 2],
                    cols == self.shape@[rank - 1],
                    ri == rows as int,
                    ci == cols as int,
                    outer == self.shape@.take(rank - 2),
                    n_slices == product(outer),
                    product(self.shape@) == product(outer) * ((rows * cols) as nat),
                    self.data@.len() == product(self.shape@),
                    dl == self.data@.len(),
                    rowseq == Seq::new(ri as nat, |rr: int| matrix_row(*self, (s * ri + rr) * ci, ci)),
                    string_views(lines@) =~= slice_blocks(*self, ri, ci, s as int) + seq![
                        slice_heading(rank as int, s as int),
                    ] + rowseq.take(r2 as int),
                decreases rows - r2,
            {
                let ghost base = (s * ri + r2) * ci;
                proof {
                    assert((s * ri + r2) * ci + ci <= (n_slices * ri) * ci) by (nonlinear_arith)
                        requires
                            0 <= s < n_slices,
                            0 <= r2 < ri,
                            ci >= 0,
                            ri >= 0,
                    ;
                    assert(self.data@.len() == (n_slices * ri) * ci) by (nonlinear_arith)
                        requires
                            self.data@.len() == product(outer) * ((rows * cols) as nat),
                            n_slices == product(outer),
                            ri == rows as int,
                            ci == cols as int,
                    ;
                    assert(base >= 0) by (nonlinear_arith)
                        requires
                            s >= 0,
                            r2 >= 0,
                            ri >= 0,
                            ci >= 0,
                            base == (s * ri + r2) * ci,
                    ;
                    assert(self.shape@[rank - 2] >= 1 && self.shape@[rank - 1] >= 1);
                    assert(s * ri <= dl && s * ri + r2 <= dl && (s * ri + r2) * ci <= dl)
                        by (nonlinear_arith)
                        requires
                            0 <= s,
                            0 <= r2 < ri,
                            ri >= 1,
                            ci >= 1,
                            (s * ri + r2) * ci + ci <= dl,
                    ;
                }
                let row_base: usize = (s * rows + r2) * cols;
                let ghost cells = Seq::new(ci as nat, |c: int| cell_chars(self.data@[base + c]));
                let mut line = String::new();
                proof {
                    reveal_strlit("[ ");
                }
                line.append("[ ");
                let mut c2: usize = 0;
                while c2 < cols
                    invariant
                        self.wf(),
                        0 <= c2 <= cols,
                        ci == cols as int,
                        base == row_base as int,
                        base >= 0,
                        base + ci <= self.data@.len(),
                        dl == self.data@.len(),
                        cells == Seq::new(ci as nat, |c: int| cell_chars(self.data@[base + c])),
                        line@ == "[ "@ + joined(cells.take(c2 as int), seq![' ']),
                    decreases cols - c2,
                {
                    proof {
                        reveal_strlit(" ");
                        reveal_strlit(".");
                    }
                    if c2 > 0 {
                        line.append(" ");
                    }
                    let v = self.data[row_base + c2];
                    if v == 0 {
                        line.append(".");
                    } else {
                        let vs = int_string(v);
                        line.append(vs.as_str());
                    }
                    c2 = c2 + 1;
                    proof {
                        assert(cells.take(c2 as int).drop_last() =~= cells.take(c2 - 1));
                        assert(cells[c2 - 1] == cell_chars(self.data@[base + (c2 - 1)]));
                        assert(line@ =~= "[ "@ + joined(cells.take(c2 as int), seq![' ']));
                    }
                }
                proof {
                    reveal_strlit(" ]");
                    reveal_strlit("[ ");
                    assert(cells.take(ci) =~= cells);
                }
                line.append(" ]");
                proof {
                    assert(line@ =~= matrix_row(*self, base, ci));
                    assert(rowseq[r2 as int] == matrix_row(*self, base, ci));
                }
                let ghost prev_lines = lines@;
                lines.push(line);
                r2 = r2 + 1;
                proof {
                    assert(string_views(lines@) =~= string_views(prev_lines).push(line@));
                    assert(rowseq.take(r2 as int) =~= rowseq.take(r2 - 1).push(
                        rowseq[r2 - 1],
                    ));
                    assert(string_views(lines@) =~= slice_blocks(*self, ri, ci, s as int) + seq![
                        slice_heading(rank as int, s as int),
                    ] + rowseq.take(r2 as int));
                }
            }
            s = s + 1;
            proof {
                assert(rowseq.take(ri) =~= rowseq);
                assert(slice_block(*self, ri, ci, s - 1) =~= seq![
                    slice_heading(rank as int, s - 1),
                ] + rowseq);
                assert(string_views(lines@) =~= slice_blocks(*self, ri, ci, s as int));
            }
        }
        proof {
            assert(self.shape@[rank - 2] == self.shape@[self.shape@.len() - 2]);
        }
        lines
    }

    /// The nonzero-entry listing: one `[coordinate] -> value` row per
    /// nonzero entry, in increasing flat order.
    pub fn nonzero_lines(&self) -> (r: Vec<String>)
        requires
            self.wf(),
        ensures
            string_views(r@) == nonzero_rows(*self, self.data@.len() as int),
    {
        let mut lines: Vec<String> = Vec::new();
        let n = self.data.len();
        let rank = self.shape.len();
        let mut idx: usize = 0;
        while idx < n
            invariant
                self.wf(),
                0 <= idx <= n,
                n == self.data@.len(),
                rank == self.shape@.len(),
                string_views(lines@) =~= nonzero_rows(*self, idx as int),
            decreases n - idx,
        {
            let v = self.data[idx];
            if v != 0 {
                let coord = self.calculate_multi_index(idx);
                let ghost cfields = Seq::new(
                    coord@.len(),
                    |d: int| int_chars(coord@[d] as int),
                );
                let mut line = String::new();
                proof {
                    reveal_strlit("[");
                }
                line.append("[");
                let mut d2: usize = 0;
                while d2 < rank
                    invariant
                        self.wf(),
                        0 <= d2 <= rank,
                        rank == self.shape@.len(),
                        0 <= idx < self.data@.len(),
                        coord@ == coord_of(self.shape@, idx as int),
                        coord@.len() == rank,
                        cfields == Seq::new(
                            coord@.len(),
                            |d: int| int_chars(coord@[d] as int),
                        ),
                        line@ == seq!['['] + joined(cfields.take(d2 as int), seq![',', ' ']),
                    decreases rank - d2,
                {
                    proof {
                        reveal_strlit(", ");
                    }
                    if d2 > 0 {
                        line.append(", ");
                        proof {
                            assert(", "@ =~= seq![',', ' ']);
                        }
                    }
                    push_dec(&mut line, coord[d2] as u64);
                    d2 = d2 + 1;
                    proof {
                        assert(cfields.take(d2 as int).drop_last() =~= cfields.take(d2 - 1));
                        assert(int_chars(coord@[d2 - 1] as int) == dec_digits(
                            coord@[d2 - 1] as nat,
                        ));
                        assert(line@ =~= seq!['['] + joined(cfields.take(d2 as int), seq![',', ' ']));
                    }
                }
                proof {
                    reveal_strlit("] -> ");
                }
                line.append("] -> ");
                let vs = int_string(v);
                line.append(vs.as_str());
                proof {
                    assert("] -> "@ =~= seq![']'] + seq![' ', '-', '>', ' ']);
                    assert(cfields.take(rank as int) =~= cfields);
                    assert(line@ =~= nonzero_row(*self, idx as int));
                }
                lines.push(line);
                proof {
                    assert(string_views(lines@) =~= nonzero_rows(*self, idx + 1));
                }
            }
            idx = idx + 1;
        }
        lines
    }
}

} // verus!
