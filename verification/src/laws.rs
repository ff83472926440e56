//! Laws of the contraction engine, stated over the same specification
//! functions that `einsum`'s contract uses: what particular formulas compute,
//! for every operand tensor of the right shape.

use crate::engine::{asn_coord, cell_partial, einsum_cell, step_cell, term_value};
use crate::error::TensorError;
use crate::parse::{
    arrow_at, arrow_pos, bind_from, bind_group, first_comma, input_side, one_arrow,
    operand_shapes, out_shape_from, output_side, parse_result, split_groups, sym_index,
};
use crate::scalar::{lemma_wrap_val_id, wrap_val};
use crate::shape::{
    coord_of, flat_index, in_bounds, lemma_coord_of_flat_index, lemma_flat_index_coord_of,
    product,
};
use crate::tensor::Tensor;
use vstd::prelude::*;

verus! {

/// The subscript formula of the identity contraction on a rank-2 tensor.
pub open spec fn identity_formula() -> Seq<char> {
    seq!['i', 'j', '-', '>', 'i', 'j']
}

/// How the identity formula parses against any rank-2 shape: one operand
/// group `ij`, output `ij`, both symbols bound to the operand's axis sizes.
proof fn lemma_parse_identity(sh: Seq<usize>)
    requires
        sh.len() == 2,
    ensures
        one_arrow(identity_formula()),
        input_side(identity_formula()) == seq!['i', 'j'],
        output_side(identity_formula()) == seq!['i', 'j'],
        split_groups(input_side(identity_formula())) == seq![seq!['i', 'j']],
        parse_result(identity_formula(), seq![sh]) == Ok::<
            (Seq<char>, Seq<usize>, Seq<usize>),
            TensorError,
        >((seq!['i', 'j'], sh, sh)),
{
    let f = identity_formula();
    assert(arrow_at(f, 2));
    assert forall|i: int| arrow_at(f, i) implies i == 2 by {}
    assert(one_arrow(f));
    assert(arrow_at(f, arrow_pos(f)));
    assert(arrow_pos(f) == 2);
    let gin = seq!['i', 'j'];
    assert(input_side(f) =~= gin);
    assert(output_side(f) =~= gin);
    assert(first_comma(gin, 2) == 2);
    assert(first_comma(gin, 1) == 2);
    assert(first_comma(gin, 0) == 2);
    assert(split_groups(gin) == seq![gin]);
    let u0 = Seq::<char>::empty();
    let s0 = Seq::<usize>::empty();
    let u1 = u0.push('i');
    let s1 = s0.push(sh[0]);
    let uf = u1.push('j');
    let sf = s1.push(sh[1]);
    assert(sym_index(u0, 'i', 0) == 0);
    assert(bind_group(u0, s0, gin, sh, 0) == bind_group(u1, s1, gin, sh, 1));
    assert(sym_index(u1, 'j', 1) == 1);
    assert(sym_index(u1, 'j', 0) == 1);
    assert(bind_group(u1, s1, gin, sh, 1) == bind_group(uf, sf, gin, sh, 2));
    assert(bind_group(uf, sf, gin, sh, 2) == Ok::<(Seq<char>, Seq<usize>), TensorError>(
        (uf, sf),
    ));
    assert(seq![gin][0] == gin && seq![sh][0] == sh);
    assert(bind_from(u0, s0, seq![gin], seq![sh], 1) == Ok::<
        (Seq<char>, Seq<usize>),
        TensorError,
    >((u0, s0)));
    assert(bind_from(uf, sf, seq![gin], seq![sh], 1) == Ok::<
        (Seq<char>, Seq<usize>),
        TensorError,
    >((uf, sf)));
    assert(bind_from(u0, s0, seq![gin], seq![sh], 0) == Ok::<
        (Seq<char>, Seq<usize>),
        TensorError,
    >((uf, sf)));
    assert(sym_index(uf, 'i', 0) == 0);
    assert(sym_index(uf, 'j', 1) == 1);
    assert(sym_index(uf, 'j', 0) == 1);
    let o0 = Seq::<usize>::empty();
    let o1 = o0.push(sf[0]);
    let o2 = o1.push(sf[1]);
    assert(out_shape_from(uf, sf, gin, 0, o0) == out_shape_from(uf, sf, gin, 1, o1));
    assert(out_shape_from(uf, sf, gin, 1, o1) == out_shape_from(uf, sf, gin, 2, o2));
    assert(out_shape_from(uf, sf, gin, 2, o2) == Ok::<Seq<usize>, TensorError>(o2));
    assert(sf =~= sh);
    assert(o2 =~= sh);
    assert(uf =~= seq!['i', 'j']);
    assert(parse_result(f, seq![sh]) == Ok::<(Seq<char>, Seq<usize>, Seq<usize>), TensorError>(
        (uf, sh, sh),
    ));
}

/// Identity contraction: contracting a rank-2 tensor with `"ij->ij"` yields
/// every cell of the tensor unchanged, with the tensor's own shape.  Together
/// with `einsum`'s contract this says the contraction returns the tensor
/// itself.
pub proof fn lemma_identity_contraction(t: Tensor)
    requires
        t.wf(),
        t.shape@.len() == 2,
    ensures
        one_arrow(identity_formula()),
        parse_result(identity_formula(), operand_shapes(seq![t])) is Ok,
        parse_result(identity_formula(), operand_shapes(seq![t]))->Ok_0.2 == t.shape@,
        product(parse_result(identity_formula(), operand_shapes(seq![t]))->Ok_0.2) == t.data@.len(),
        forall|k: int|
            0 <= k < t.data@.len() ==> wrap_val(einsum_cell(identity_formula(), seq![t], k))
                == t.data@[k],
{
    let f = identity_formula();
    let ts = seq![t];
    let sh = t.shape@;
    assert(operand_shapes(ts) =~= seq![sh]);
    lemma_parse_identity(sh);
    let gin = seq!['i', 'j'];
    let uf = seq!['i', 'j'];
    assert(split_groups(input_side(f)) == seq![gin]);
    let total = product(sh) as int;
    assert forall|k: int| 0 <= k < t.data@.len() implies wrap_val(
        einsum_cell(identity_formula(), seq![t], k),
    ) == t.data@[k] by {
        lemma_identity_cells(t, k, total);
        assert(einsum_cell(f, ts, k) == cell_partial(
            ts,
            seq![gin],
            uf,
            sh,
            gin,
            sh,
            k,
            total,
        ));
        lemma_wrap_val_id(t.data@[k] as int);
    }
}

/// Each step of the identity contraction contributes exactly one stored
/// scalar, to its own flat position.
proof fn lemma_identity_cells(t: Tensor, k: int, cap: int)
    requires
        t.wf(),
        t.shape@.len() == 2,
        0 <= cap <= product(t.shape@),
    ensures
        cell_partial(
            seq![t],
            seq![seq!['i', 'j']],
            seq!['i', 'j'],
            t.shape@,
            seq!['i', 'j'],
            t.shape@,
            k,
            cap,
        ) == if 0 <= k < cap {
            t.data@[k] as int
        } else {
            0
        },
    decreases cap,
{
    let ts = seq![t];
    let gin = seq!['i', 'j'];
    let uf = seq!['i', 'j'];
    let sh = t.shape@;
    if cap > 0 {
        lemma_identity_cells(t, k, cap - 1);
        let t0 = cap - 1;
        lemma_flat_index_coord_of(sh, t0);
        let asn = coord_of(sh, t0);
        assert(ts[0] == t);
        assert(seq![gin][0] == gin);
        assert(sym_index(uf, 'i', 0) == 0);
        assert(sym_index(uf, 'j', 1) == 1);
        assert(sym_index(uf, 'j', 0) == 1);
        assert(asn_coord(gin, uf, asn) =~= asn);
        assert(flat_index(sh, asn_coord(gin, uf, asn)) == t0);
        assert(term_value(ts, seq![gin], uf, asn, 0) == 1);
        assert(term_value(ts, seq![gin], uf, asn, 1) == term_value(ts, seq![gin], uf, asn, 0) * (
        ts[0].at(asn_coord(seq![gin][0], uf, asn)) as int));
        assert(term_value(ts, seq![gin], uf, asn, 1) == t.at(asn) as int);
        assert(t.at(asn) == t.data@[t0]);
        assert(step_cell(ts, seq![gin], uf, sh, gin, sh, k, t0) == if t0 == k {
            t.data@[k] as int
        } else {
            0
        });
    }
}

/// The subscript formula of the full reduction of a rank-2 tensor to a
/// scalar.
pub open spec fn reduction_formula() -> Seq<char> {
    seq!['i', 'j', '-', '>']
}

/// The sum of the first `n` stored entries of a buffer, as an exact integer.
pub open spec fn entries_sum(d: Seq<i64>, n: int) -> int
    decreases n,
{
    if n <= 0 {
        0
    } else {
        entries_sum(d, n - 1) + d[n - 1]
    }
}

/// How the reduction formula parses against any rank-2 shape: one operand
/// group `ij`, empty output, rank-0 output shape.
proof fn lemma_parse_reduction(sh: Seq<usize>)
    requires
        sh.len() == 2,
    ensures
        one_arrow(reduction_formula()),
        input_side(reduction_formula()) == seq!['i', 'j'],
        output_side(reduction_formula()) == Seq::<char>::empty(),
        split_groups(input_side(reduction_formula())) == seq![seq!['i', 'j']],
        parse_result(reduction_formula(), seq![sh]) == Ok::<
            (Seq<char>, Seq<usize>, Seq<usize>),
            TensorError,
        >((seq!['i', 'j'], sh, Seq::<usize>::empty())),
{
    let f = reduction_formula();
    assert(arrow_at(f, 2));
    assert forall|i: int| arrow_at(f, i) implies i == 2 by {}
    assert(one_arrow(f));
    assert(arrow_at(f, arrow_pos(f)));
    assert(arrow_pos(f) == 2);
    let gin = seq!['i', 'j'];
    assert(input_side(f) =~= gin);
    assert(output_side(f) =~= Seq::<char>::empty());
    assert(first_comma(gin, 2) == 2);
    assert(first_comma(gin, 1) == 2);
    assert(first_comma(gin, 0) == 2);
    assert(split_groups(gin) == seq![gin]);
    let u0 = Seq::<char>::empty();
    let s0 = Seq::<usize>::empty();
    let u1 = u0.push('i');
    let s1 = s0.push(sh[0]);
    let uf = u1.push('j');
    let sf = s1.push(sh[1]);
    assert(sym_index(u0, 'i', 0) == 0);
    assert(bind_group(u0, s0, gin, sh, 0) == bind_group(u1, s1, gin, sh, 1));
    assert(sym_index(u1, 'j', 1) == 1);
    assert(sym_index(u1, 'j', 0) == 1);
    assert(bind_group(u1, s1, gin, sh, 1) == bind_group(uf, sf, gin, sh, 2));
    assert(bind_group(uf, sf, gin, sh, 2) == Ok::<(Seq<char>, Seq<usize>), TensorError>(
        (uf, sf),
    ));
    assert(seq![gin][0] == gin && seq![sh][0] == sh);
    assert(bind_from(uf, sf, seq![gin], seq![sh], 1) == Ok::<
        (Seq<char>, Seq<usize>),
        TensorError,
    >((uf, sf)));
    assert(bind_from(u0, s0, seq![gin], seq![sh], 0) == Ok::<
        (Seq<char>, Seq<usize>),
        TensorError,
    >((uf, sf)));
    assert(out_shape_from(uf, sf, Seq::<char>::empty(), 0, Seq::<usize>::empty()) == Ok::<
        Seq<usize>,
        TensorError,
    >(Seq::<usize>::empty()));
    assert(sf =~= sh);
    assert(uf =~= seq!['i', 'j']);
    assert(parse_result(f, seq![sh]) == Ok::<(Seq<char>, Seq<usize>, Seq<usize>), TensorError>(
        (uf, sh, Seq::<usize>::empty()),
    ));
}

/// Each reduction step adds one stored scalar into the single output cell.
proof fn lemma_reduction_cells(t: Tensor, cap: int)
    requires
        t.wf(),
        t.shape@.len() == 2,
        0 <= cap <= product(t.shape@),
    ensures
        cell_partial(
            seq![t],
            seq![seq!['i', 'j']],
            seq!['i', 'j'],
            t.shape@,
            Seq::<char>::empty(),
            Seq::<usize>::empty(),
            0,
            cap,
        ) == entries_sum(t.data@, cap),
    decreases cap,
{
    let ts = seq![t];
    let gin = seq!['i', 'j'];
    let uf = seq!['i', 'j'];
    let sh = t.shape@;
    let outs = Seq::<char>::empty();
    let osh = Seq::<usize>::empty();
    if cap > 0 {
        lemma_reduction_cells(t, cap - 1);
        let t0 = cap - 1;
        lemma_flat_index_coord_of(sh, t0);
        let asn = coord_of(sh, t0);
        assert(ts[0] == t);
        assert(seq![gin][0] == gin);
        assert(sym_index(uf, 'i', 0) == 0);
        assert(sym_index(uf, 'j', 1) == 1);
        assert(sym_index(uf, 'j', 0) == 1);
        assert(asn_coord(gin, uf, asn) =~= asn);
        assert(asn_coord(outs, uf, asn) =~= Seq::<usize>::empty());
        assert(flat_index(osh, asn_coord(outs, uf, asn)) == 0);
        assert(term_value(ts, seq![gin], uf, asn, 0) == 1);
        assert(term_value(ts, seq![gin], uf, asn, 1) == term_value(ts, seq![gin], uf, asn, 0) * (
        ts[0].at(asn_coord(seq![gin][0], uf, asn)) as int));
        assert(t.at(asn) == t.data@[t0]);
        assert(step_cell(ts, seq![gin], uf, sh, outs, osh, 0, t0) == t.data@[t0] as int);
    }
}

/// Full reduction to a scalar: contracting a rank-2 tensor with `"ij->"`
/// yields a rank-0 tensor whose single cell is the sum of every entry of the
/// operand.
pub proof fn lemma_full_reduction(t: Tensor)
    requires
        t.wf(),
        t.shape@.len() == 2,
    ensures
        one_arrow(reduction_formula()),
        parse_result(reduction_formula(), operand_shapes(seq![t])) is Ok,
        parse_result(reduction_formula(), operand_shapes(seq![t]))->Ok_0.2 == Seq::<usize>::empty(),
        product(parse_result(reduction_formula(), operand_shapes(seq![t]))->Ok_0.2) == 1,
        einsum_cell(reduction_formula(), seq![t], 0) == entries_sum(
            t.data@,
            t.data@.len() as int,
        ),
{
    let f = reduction_formula();
    let ts = seq![t];
    let sh = t.shape@;
    assert(operand_shapes(ts) =~= seq![sh]);
    lemma_parse_reduction(sh);
    let total = product(sh) as int;
    lemma_reduction_cells(t, total);
    assert(einsum_cell(f, ts, 0) == cell_partial(
        ts,
        seq![seq!['i', 'j']],
        seq!['i', 'j'],
        sh,
        Seq::<char>::empty(),
        Seq::<usize>::empty(),
        0,
        total,
    ));
}

/// The subscript formula of a matrix product.
pub open spec fn matmul_formula() -> Seq<char> {
    seq!['i', 'j', ',', 'j', 'k', '-', '>', 'i', 'k']
}

/// How the matrix-product formula parses against two rank-2 shapes `a` and
/// `b`: symbols `i`, `j`, `k` bound to `a[0]`, `a[1]`, `b[1]` and output
/// shape `[a[0], b[1]]` when the inner sizes agree, and the exact dimension
/// conflict on `j` when they do not.
proof fn lemma_parse_matmul(a: Seq<usize>, b: Seq<usize>)
    requires
        a.len() == 2,
        b.len() == 2,
    ensures
        one_arrow(matmul_formula()),
        input_side(matmul_formula()) == seq!['i', 'j', ',', 'j', 'k'],
        output_side(matmul_formula()) == seq!['i', 'k'],
        split_groups(input_side(matmul_formula())) == seq![seq!['i', 'j'], seq!['j', 'k']],
        a[1] == b[0] ==> parse_result(matmul_formula(), seq![a, b]) == Ok::<
            (Seq<char>, Seq<usize>, Seq<usize>),
            TensorError,
        >((seq!['i', 'j', 'k'], seq![a[0], a[1], b[1]], seq![a[0], b[1]])),
        a[1] != b[0] ==> parse_result(matmul_formula(), seq![a, b]) == Err::<
            (Seq<char>, Seq<usize>, Seq<usize>),
            TensorError,
        >(TensorError::DimensionConflict { symbol: 'j', expected: a[1], found: b[0] }),
{
    let f = matmul_formula();
    assert(arrow_at(f, 5));
    assert forall|i: int| arrow_at(f, i) implies i == 5 by {}
    assert(one_arrow(f));
    assert(arrow_at(f, arrow_pos(f)));
    assert(arrow_pos(f) == 5);
    let gin = seq!['i', 'j', ',', 'j', 'k'];
    let gout = seq!['i', 'k'];
    assert(input_side(f) =~= gin);
    assert(output_side(f) =~= gout);
    let gij = seq!['i', 'j'];
    let gjk = seq!['j', 'k'];
    assert(first_comma(gin, 2) == 2);
    assert(first_comma(gin, 1) == 2);
    assert(first_comma(gin, 0) == 2);
    assert(split_groups(gin) == seq![gin.take(2)] + split_groups(gin.skip(3)));
    assert(gin.take(2) =~= gij);
    assert(gin.skip(3) =~= gjk);
    assert(first_comma(gjk, 2) == 2);
    assert(first_comma(gjk, 1) == 2);
    assert(first_comma(gjk, 0) == 2);
    assert(split_groups(gjk) == seq![gjk]);
    assert(split_groups(gin) =~= seq![gij, gjk]);
    let gs = seq![gij, gjk];
    let shs = seq![a, b];
    assert(gs[0] == gij && gs[1] == gjk && shs[0] == a && shs[1] == b);
    let u0 = Seq::<char>::empty();
    let s0 = Seq::<usize>::empty();
    let u1 = u0.push('i');
    let s1 = s0.push(a[0]);
    let u2 = u1.push('j');
    let s2 = s1.push(a[1]);
    assert(sym_index(u0, 'i', 0) == 0);
    assert(bind_group(u0, s0, gij, a, 0) == bind_group(u1, s1, gij, a, 1));
    assert(sym_index(u1, 'j', 1) == 1);
    assert(sym_index(u1, 'j', 0) == 1);
    assert(bind_group(u1, s1, gij, a, 1) == bind_group(u2, s2, gij, a, 2));
    assert(bind_group(u2, s2, gij, a, 2) == Ok::<(Seq<char>, Seq<usize>), TensorError>(
        (u2, s2),
    ));
    assert(bind_from(u0, s0, gs, shs, 0) == bind_from(u2, s2, gs, shs, 1));
    // operand 1: axis 0 is `j`, already bound to a[1]
    assert(sym_index(u2, 'j', 2) == 2);
    assert(sym_index(u2, 'j', 1) == 1);
    assert(sym_index(u2, 'j', 0) == 1);
    assert(s2[1] == a[1]);
    if a[1] != b[0] {
        assert(bind_group(u2, s2, gjk, b, 0) == Err::<(Seq<char>, Seq<usize>), TensorError>(
            TensorError::DimensionConflict { symbol: 'j', expected: a[1], found: b[0] },
        ));
        assert(bind_from(u2, s2, gs, shs, 1) == Err::<(Seq<char>, Seq<usize>), TensorError>(
            TensorError::DimensionConflict { symbol: 'j', expected: a[1], found: b[0] },
        ));
        assert(parse_result(f, shs) == Err::<(Seq<char>, Seq<usize>, Seq<usize>), TensorError>(
            TensorError::DimensionConflict { symbol: 'j', expected: a[1], found: b[0] },
        ));
    } else {
        assert(bind_group(u2, s2, gjk, b, 0) == bind_group(u2, s2, gjk, b, 1));
        let uf = u2.push('k');
        let sf = s2.push(b[1]);
        assert(sym_index(u2, 'k', 2) == 2);
        assert(sym_index(u2, 'k', 1) == 2);
        assert(sym_index(u2, 'k', 0) == 2);
        assert(bind_group(u2, s2, gjk, b, 1) == bind_group(uf, sf, gjk, b, 2));
        assert(bind_group(uf, sf, gjk, b, 2) == Ok::<(Seq<char>, Seq<usize>), TensorError>(
            (uf, sf),
        ));
        assert(bind_from(uf, sf, gs, shs, 2) == Ok::<(Seq<char>, Seq<usize>), TensorError>(
            (uf, sf),
        ));
        assert(bind_from(u0, s0, gs, shs, 0) == Ok::<(Seq<char>, Seq<usize>), TensorError>(
            (uf, sf),
        ));
        assert(sym_index(uf, 'i', 0) == 0);
        assert(sym_index(uf, 'k', 2) == 2);
        assert(sym_index(uf, 'k', 1) == 2);
        assert(sym_index(uf, 'k', 0) == 2);
        let o0 = Seq::<usize>::empty();
        let o1 = o0.push(sf[0]);
        let o2 = o1.push(sf[2]);
        assert(out_shape_from(uf, sf, gout, 0, o0) == out_shape_from(uf, sf, gout, 1, o1));
        assert(out_shape_from(uf, sf, gout, 1, o1) == out_shape_from(uf, sf, gout, 2, o2));
        assert(out_shape_from(uf, sf, gout, 2, o2) == Ok::<Seq<usize>, TensorError>(o2));
        assert(uf =~= seq!['i', 'j', 'k']);
        assert(sf =~= seq![a[0], a[1], b[1]]);
        assert(o2 =~= seq![a[0], b[1]]);
        assert(parse_result(f, shs) == Ok::<(Seq<char>, Seq<usize>, Seq<usize>), TensorError>(
            (seq!['i', 'j', 'k'], seq![a[0], a[1], b[1]], seq![a[0], b[1]]),
        ));
    }
}

/// Symbol-size conflict: contracting two rank-2 tensors with `"ij,jk->ik"`
/// when the first operand's second axis disagrees with the second operand's
/// first axis fails with exactly the dimension conflict on `j`, so no output
/// tensor exists.
pub proof fn lemma_dimension_conflict(a: Tensor, b: Tensor)
    requires
        a.wf(),
        b.wf(),
        a.shape@.len() == 2,
        b.shape@.len() == 2,
        a.shape@[1] != b.shape@[0],
    ensures
        one_arrow(matmul_formula()),
        parse_result(matmul_formula(), operand_shapes(seq![a, b])) == Err::<
            (Seq<char>, Seq<usize>, Seq<usize>),
            TensorError,
        >(
            TensorError::DimensionConflict {
                symbol: 'j',
                expected: a.shape@[1],
                found: b.shape@[0],
            },
        ),
{
    assert(operand_shapes(seq![a, b]) =~= seq![a.shape@, b.shape@]);
    lemma_parse_matmul(a.shape@, b.shape@);
}

/// Mismatched operand count: the matrix-product formula declares two operand
/// groups, so supplying a single tensor fails with exactly an arity
/// mismatch.
pub proof fn lemma_arity_mismatch(a: Tensor)
    requires
        a.wf(),
    ensures
        one_arrow(matmul_formula()),
        parse_result(matmul_formula(), operand_shapes(seq![a])) == Err::<
            (Seq<char>, Seq<usize>, Seq<usize>),
            TensorError,
        >(TensorError::ArityMismatch { groups: 2, operands: 1 }),
{
    let f = matmul_formula();
    assert(arrow_at(f, 5));
    assert forall|i: int| arrow_at(f, i) implies i == 5 by {}
    assert(one_arrow(f));
    assert(arrow_at(f, arrow_pos(f)));
    assert(arrow_pos(f) == 5);
    let gin = seq!['i', 'j', ',', 'j', 'k'];
    assert(input_side(f) =~= gin);
    let gij = seq!['i', 'j'];
    let gjk = seq!['j', 'k'];
    assert(first_comma(gin, 2) == 2);
    assert(first_comma(gin, 1) == 2);
    assert(first_comma(gin, 0) == 2);
    assert(split_groups(gin) == seq![gin.take(2)] + split_groups(gin.skip(3)));
    assert(gin.take(2) =~= gij);
    assert(gin.skip(3) =~= gjk);
    assert(first_comma(gjk, 2) == 2);
    assert(first_comma(gjk, 1) == 2);
    assert(first_comma(gjk, 0) == 2);
    assert(split_groups(gjk) == seq![gjk]);
    assert(split_groups(gin) =~= seq![gij, gjk]);
    assert(operand_shapes(seq![a]).len() == 1);
    assert(parse_result(f, operand_shapes(seq![a])) == Err::<
        (Seq<char>, Seq<usize>, Seq<usize>),
        TensorError,
    >(TensorError::ArityMismatch { groups: 2, operands: 1 }));
}

// ------------------------------------------------------------------
// Matrix multiplication equivalence
// ------------------------------------------------------------------

/// The exact inner-product entry of a matrix product: the sum over the first
/// `q` values of the contracted index of products of paired entries.
pub open spec fn matmul_sum(a: Tensor, b: Tensor, ci: int, ck: int, q: int) -> int
    decreases q,
{
    if q <= 0 {
        0
    } else {
        matmul_sum(a, b, ci, ck, q - 1) + (a.at(seq![ci as usize, (q - 1) as usize]) as int) * (
        b.at(seq![(q - 1) as usize, ck as usize]) as int)
    }
}

/// What one counter state of the matrix-product contraction contributes to
/// output cell `(ci, ck)`: the paired product when the free indices match,
/// nothing otherwise.
proof fn lemma_matmul_step(a: Tensor, b: Tensor, ci: int, ck: int, vi: int, vj: int, vk: int)
    requires
        a.wf(),
        b.wf(),
        a.shape@.len() == 2,
        b.shape@.len() == 2,
        a.shape@[1] == b.shape@[0],
        0 <= ci < a.shape@[0],
        0 <= ck < b.shape@[1],
        0 <= vi < a.shape@[0],
        0 <= vj < a.shape@[1],
        0 <= vk < b.shape@[1],
    ensures
        step_cell(
            seq![a, b],
            seq![seq!['i', 'j'], seq!['j', 'k']],
            seq!['i', 'j', 'k'],
            seq![a.shape@[0], a.shape@[1], b.shape@[1]],
            seq!['i', 'k'],
            seq![a.shape@[0], b.shape@[1]],
            ci * (b.shape@[1] as int) + ck,
            (vi * (a.shape@[1] as int) + vj) * (b.shape@[1] as int) + vk,
        ) == if vi == ci && vk == ck {
            (a.at(seq![vi as usize, vj as usize]) as int) * (b.at(
                seq![vj as usize, vk as usize],
            ) as int)
        } else {
            0
        },
{
    let p = a.shape@[1] as int;
    let nn = b.shape@[1] as int;
    let ts = seq![a, b];
    let gij = seq!['i', 'j'];
    let gjk = seq!['j', 'k'];
    let gs = seq![gij, gjk];
    let uf = seq!['i', 'j', 'k'];
    let gout = seq!['i', 'k'];
    let sf = seq![a.shape@[0], a.shape@[1], b.shape@[1]];
    let osh = seq![a.shape@[0], b.shape@[1]];
    let c3 = seq![vi as usize, vj as usize, vk as usize];
    let t0 = (vi * p + vj) * nn + vk;
    let k0 = ci * nn + ck;
    // the counter state with flat position t0 is exactly (vi, vj, vk)
    assert(sf.drop_last() =~= seq![a.shape@[0], a.shape@[1]]);
    assert(c3.drop_last() =~= seq![vi as usize, vj as usize]);
    assert(seq![a.shape@[0], a.shape@[1]].drop_last() =~= seq![a.shape@[0]]);
    assert(seq![vi as usize, vj as usize].drop_last() =~= seq![vi as usize]);
    assert(seq![a.shape@[0]].drop_last() =~= Seq::<usize>::empty());
    assert(seq![vi as usize].drop_last() =~= Seq::<usize>::empty());
    assert(flat_index(Seq::<usize>::empty(), Seq::<usize>::empty()) == 0);
    assert(seq![a.shape@[0]].last() == a.shape@[0]);
    assert(seq![vi as usize].last() == vi as usize);
    assert(flat_index(seq![a.shape@[0]], seq![vi as usize]) == flat_index(
        seq![a.shape@[0]].drop_last(),
        seq![vi as usize].drop_last(),
    ) * (seq![a.shape@[0]].last() as nat) + (seq![vi as usize].last() as nat));
    assert(flat_index(seq![a.shape@[0]], seq![vi as usize]) == vi);
    assert(flat_index(seq![a.shape@[0], a.shape@[1]], seq![vi as usize, vj as usize]) == vi * p
        + vj);
    assert(flat_index(sf, c3) == (vi * p + vj) * nn + vk);
    assert(in_bounds(sf, c3));
    lemma_coord_of_flat_index(sf, c3);
    let asn = coord_of(sf, t0);
    assert(asn == c3);
    // the selected coordinates of each operand and of the output
    assert(sym_index(uf, 'i', 0) == 0);
    assert(sym_index(uf, 'j', 1) == 1);
    assert(sym_index(uf, 'j', 0) == 1);
    assert(sym_index(uf, 'k', 2) == 2);
    assert(sym_index(uf, 'k', 1) == 2);
    assert(sym_index(uf, 'k', 0) == 2);
    assert(asn_coord(gij, uf, asn) =~= seq![vi as usize, vj as usize]);
    assert(asn_coord(gjk, uf, asn) =~= seq![vj as usize, vk as usize]);
    assert(asn_coord(gout, uf, asn) =~= seq![vi as usize, vk as usize]);
    // the term is the paired product
    assert(ts[0] == a && ts[1] == b && gs[0] == gij && gs[1] == gjk);
    assert(term_value(ts, gs, uf, asn, 0) == 1);
    assert(term_value(ts, gs, uf, asn, 1) == term_value(ts, gs, uf, asn, 0) * (ts[0].at(
        asn_coord(gs[0], uf, asn),
    ) as int));
    assert(term_value(ts, gs, uf, asn, 2) == term_value(ts, gs, uf, asn, 1) * (ts[1].at(
        asn_coord(gs[1], uf, asn),
    ) as int));
    assert(term_value(ts, gs, uf, asn, 2) == (a.at(seq![vi as usize, vj as usize]) as int) * (
    b.at(seq![vj as usize, vk as usize]) as int));
    // the output cell this state lands in
    assert(osh.drop_last() =~= seq![a.shape@[0]]);
    assert(seq![vi as usize, vk as usize].drop_last() =~= seq![vi as usize]);
    assert(flat_index(osh, seq![vi as usize, vk as usize]) == vi * nn + vk);
    vstd::arithmetic::div_mod::lemma_fundamental_div_mod_converse(vi * nn + vk, nn, vi, vk);
    vstd::arithmetic::div_mod::lemma_fundamental_div_mod_converse(ci * nn + ck, nn, ci, ck);
    assert((vi * nn + vk == k0) == (vi == ci && vk == ck));
}

/// What an arbitrary counter state contributes, in terms of that state's
/// flat position: its decoded digits select the operand entries.
proof fn lemma_mm_decode(a: Tensor, b: Tensor, ci: int, ck: int, t: int)
    requires
        a.wf(),
        b.wf(),
        a.shape@.len() == 2,
        b.shape@.len() == 2,
        a.shape@[1] == b.shape@[0],
        0 <= ci < a.shape@[0],
        0 <= ck < b.shape@[1],
        0 <= t < (a.shape@[0] as int) * ((a.shape@[1] as int) * (b.shape@[1] as int)),
    ensures
        ({
            let p = a.shape@[1] as int;
            let nn = b.shape@[1] as int;
            let vi = t / (p * nn);
            let vj = (t % (p * nn)) / nn;
            let vk = (t % (p * nn)) % nn;
            step_cell(
                seq![a, b],
                seq![seq!['i', 'j'], seq!['j', 'k']],
                seq!['i', 'j', 'k'],
                seq![a.shape@[0], a.shape@[1], b.shape@[1]],
                seq!['i', 'k'],
                seq![a.shape@[0], b.shape@[1]],
                ci * nn + ck,
                t,
            ) == if vi == ci && vk == ck {
                (a.at(seq![ci as usize, vj as usize]) as int) * (b.at(
                    seq![vj as usize, ck as usize],
                ) as int)
            } else {
                0
            }
        }),
{
    let m = a.shape@[0] as int;
    let p = a.shape@[1] as int;
    let nn = b.shape@[1] as int;
    let pn = p * nn;
    assert(pn >= 1 && nn >= 1) by (nonlinear_arith)
        requires
            p >= 1,
            nn >= 1,
            pn == p * nn,
    ;
    let vi = t / pn;
    let r = t % pn;
    vstd::arithmetic::div_mod::lemma_fundamental_div_mod(t, pn);
    assert(0 <= r < pn) by (nonlinear_arith)
        requires
            pn >= 1,
            t >= 0,
            r == t % pn,
    ;
    assert(0 <= vi < m) by (nonlinear_arith)
        requires
            t == pn * vi + r,
            0 <= r < pn,
            0 <= t < m * pn,
            pn >= 1,
    ;
    let vj = r / nn;
    let vk = r % nn;
    vstd::arithmetic::div_mod::lemma_fundamental_div_mod(r, nn);
    assert(0 <= vk < nn) by (nonlinear_arith)
        requires
            nn >= 1,
            r >= 0,
            vk == r % nn,
    ;
    assert(0 <= vj < p) by (nonlinear_arith)
        requires
            r == nn * vj + vk,
            0 <= vk < nn,
            0 <= r < pn,
            pn == p * nn,
            nn >= 1,
    ;
    assert(t == (vi * p + vj) * nn + vk) by (nonlinear_arith)
        requires
            t == pn * vi + r,
            r == nn * vj + vk,
            pn == p * nn,
    ;
    lemma_matmul_step(a, b, ci, ck, vi, vj, vk);
    if vi == ci && vk == ck {
        assert(vj == (t % (p * nn)) / nn);
    }
}

/// No counter state before row `ci` of the output's first axis touches cell
/// `(ci, ck)`.
proof fn lemma_mm_prefix(a: Tensor, b: Tensor, ci: int, ck: int, t: int)
    requires
        a.wf(),
        b.wf(),
        a.shape@.len() == 2,
        b.shape@.len() == 2,
        a.shape@[1] == b.shape@[0],
        0 <= ci < a.shape@[0],
        0 <= ck < b.shape@[1],
        0 <= t <= ci * ((a.shape@[1] as int) * (b.shape@[1] as int)),
    ensures
        cell_partial(
            seq![a, b],
            seq![seq!['i', 'j'], seq!['j', 'k']],
            seq!['i', 'j', 'k'],
            seq![a.shape@[0], a.shape@[1], b.shape@[1]],
            seq!['i', 'k'],
            seq![a.shape@[0], b.shape@[1]],
            ci * (b.shape@[1] as int) + ck,
            t,
        ) == 0,
    decreases t,
{
    let m = a.shape@[0] as int;
    let p = a.shape@[1] as int;
    let nn = b.shape@[1] as int;
    let pn = p * nn;
    if t > 0 {
        lemma_mm_prefix(a, b, ci, ck, t - 1);
        assert(ci * pn <= m * pn) by (nonlinear_arith)
            requires
                ci < m,
                pn >= 0,
        ;
        assert(pn >= 1) by (nonlinear_arith)
            requires
                p >= 1,
                nn >= 1,
                pn == p * nn,
        ;
        lemma_mm_decode(a, b, ci, ck, t - 1);
        vstd::arithmetic::div_mod::lemma_fundamental_div_mod(t - 1, pn);
        assert((t - 1) / pn < ci) by (nonlinear_arith)
            requires
                0 <= t - 1,
                t - 1 < ci * pn,
                pn >= 1,
                t - 1 == pn * ((t - 1) / pn) + (t - 1) % pn,
                0 <= (t - 1) % pn < pn,
        ;
    }
}

/// Walking the counter states of output row `ci`: after block `vj` of that
/// row plus `w` states of the next block, the cell has accumulated the first
/// `vj` paired products, plus one more once the block passes column `ck`.
proof fn lemma_mm_row(a: Tensor, b: Tensor, ci: int, ck: int, vj: int, w: int)
    requires
        a.wf(),
        b.wf(),
        a.shape@.len() == 2,
        b.shape@.len() == 2,
        a.shape@[1] == b.shape@[0],
        0 <= ci < a.shape@[0],
        0 <= ck < b.shape@[1],
        0 <= vj < a.shape@[1],
        0 <= w <= b.shape@[1],
    ensures
        cell_partial(
            seq![a, b],
            seq![seq!['i', 'j'], seq!['j', 'k']],
            seq!['i', 'j', 'k'],
            seq![a.shape@[0], a.shape@[1], b.shape@[1]],
            seq!['i', 'k'],
            seq![a.shape@[0], b.shape@[1]],
            ci * (b.shape@[1] as int) + ck,
            (ci * (a.shape@[1] as int) + vj) * (b.shape@[1] as int) + w,
        ) == matmul_sum(a, b, ci, ck, vj) + if w > ck {
            (a.at(seq![ci as usize, vj as usize]) as int) * (b.at(
                seq![vj as usize, ck as usize],
            ) as int)
        } else {
            0
        },
    decreases vj, w,
{
    let m = a.shape@[0] as int;
    let p = a.shape@[1] as int;
    let nn = b.shape@[1] as int;
    let pn = p * nn;
    let base = (ci * p + vj) * nn;
    assert(0 <= base && base + nn <= m * pn) by (nonlinear_arith)
        requires
            0 <= ci < m,
            0 <= vj < p,
            base == (ci * p + vj) * nn,
            pn == p * nn,
            nn >= 1,
            p >= 1,
    ;
    if w == 0 {
        if vj == 0 {
            assert(base == ci * pn) by (nonlinear_arith)
                requires
                    base == (ci * p + 0) * nn,
                    pn == p * nn,
            ;
            lemma_mm_prefix(a, b, ci, ck, base);
        } else {
            lemma_mm_row(a, b, ci, ck, vj - 1, nn);
            assert(base == (ci * p + (vj - 1)) * nn + nn) by (nonlinear_arith)
                requires
                    base == (ci * p + vj) * nn,
            ;
        }
    } else {
        lemma_mm_row(a, b, ci, ck, vj, w - 1);
        let t0 = base + (w - 1);
        assert(0 <= t0 < m * pn);
        lemma_mm_decode(a, b, ci, ck, t0);
        assert(0 <= vj * nn + (w - 1) < pn) by (nonlinear_arith)
            requires
                0 <= vj < p,
                0 <= w - 1 < nn,
                pn == p * nn,
    ;
        assert(t0 == ci * pn + (vj * nn + (w - 1))) by (nonlinear_arith)
            requires
                t0 == (ci * p + vj) * nn + (w - 1),
                pn == p * nn,
        ;
        vstd::arithmetic::div_mod::lemma_fundamental_div_mod_converse(
            t0,
            pn,
            ci,
            vj * nn + (w - 1),
        );
        vstd::arithmetic::div_mod::lemma_fundamental_div_mod_converse(
            vj * nn + (w - 1),
            nn,
            vj,
            w - 1,
        );
        assert(t0 / pn == ci && (t0 % pn) / nn == vj && (t0 % pn) % nn == w - 1);
    }
}

/// Every counter state past output row `ci` leaves cell `(ci, ck)` alone.
proof fn lemma_mm_suffix(a: Tensor, b: Tensor, ci: int, ck: int, t: int)
    requires
        a.wf(),
        b.wf(),
        a.shape@.len() == 2,
        b.shape@.len() == 2,
        a.shape@[1] == b.shape@[0],
        0 <= ci < a.shape@[0],
        0 <= ck < b.shape@[1],
        (ci + 1) * ((a.shape@[1] as int) * (b.shape@[1] as int)) <= t <= (a.shape@[0] as int) * ((
        a.shape@[1] as int) * (b.shape@[1] as int)),
    ensures
        cell_partial(
            seq![a, b],
            seq![seq!['i', 'j'], seq!['j', 'k']],
            seq!['i', 'j', 'k'],
            seq![a.shape@[0], a.shape@[1], b.shape@[1]],
            seq!['i', 'k'],
            seq![a.shape@[0], b.shape@[1]],
            ci * (b.shape@[1] as int) + ck,
            t,
        ) == matmul_sum(a, b, ci, ck, a.shape@[1] as int),
    decreases t,
{
    let m = a.shape@[0] as int;
    let p = a.shape@[1] as int;
    let nn = b.shape@[1] as int;
    let pn = p * nn;
    if t == (ci + 1) * pn {
        assert(t == (ci * p + (p - 1)) * nn + nn) by (nonlinear_arith)
            requires
                t == (ci + 1) * pn,
                pn == p * nn,
                p >= 1,
        ;
        lemma_mm_row(a, b, ci, ck, p - 1, nn);
    } else {
        lemma_mm_suffix(a, b, ci, ck, t - 1);
        assert(pn >= 1) by (nonlinear_arith)
            requires
                p >= 1,
                nn >= 1,
                pn == p * nn,
        ;
        lemma_mm_decode(a, b, ci, ck, t - 1);
        vstd::arithmetic::div_mod::lemma_fundamental_div_mod(t - 1, pn);
        assert((t - 1) / pn > ci) by (nonlinear_arith)
            requires
                t - 1 >= (ci + 1) * pn,
                pn >= 1,
                t - 1 == pn * ((t - 1) / pn) + (t - 1) % pn,
                0 <= (t - 1) % pn < pn,
        ;
    }
}

/// Matrix multiplication equivalence: for compatible rank-2 operands, the
/// matrix-product contraction's cell `(ci, ck)` is exactly the inner product
/// of row `ci` of the first operand with column `ck` of the second.
pub proof fn lemma_matmul_equivalence(a: Tensor, b: Tensor, ci: int, ck: int)
    requires
        a.wf(),
        b.wf(),
        a.shape@.len() == 2,
        b.shape@.len() == 2,
        a.shape@[1] == b.shape@[0],
        0 <= ci < a.shape@[0],
        0 <= ck < b.shape@[1],
    ensures
        one_arrow(matmul_formula()),
        parse_result(matmul_formula(), operand_shapes(seq![a, b])) is Ok,
        parse_result(matmul_formula(), operand_shapes(seq![a, b]))->Ok_0.2 == seq![
            a.shape@[0],
            b.shape@[1],
        ],
        einsum_cell(matmul_formula(), seq![a, b], ci * (b.shape@[1] as int) + ck) == matmul_sum(
            a,
            b,
            ci,
            ck,
            a.shape@[1] as int,
        ),
{
    let f = matmul_formula();
    let m = a.shape@[0] as int;
    let p = a.shape@[1] as int;
    let nn = b.shape@[1] as int;
    let ts = seq![a, b];
    let sf = seq![a.shape@[0], a.shape@[1], b.shape@[1]];
    let k0 = ci * nn + ck;
    assert(operand_shapes(ts) =~= seq![a.shape@, b.shape@]);
    lemma_parse_matmul(a.shape@, b.shape@);
    crate::shape::lemma_product3(a.shape@[0], a.shape@[1], b.shape@[1]);
    let total = product(sf) as int;
    assert(total == m * (p * nn) && (ci + 1) * (p * nn) <= total) by (nonlinear_arith)
        requires
            total == (m * p) * nn,
            0 <= ci < m,
            p >= 1,
            nn >= 1,
    ;
    lemma_mm_suffix(a, b, ci, ck, total);
    assert(einsum_cell(f, ts, k0) == cell_partial(
        ts,
        seq![seq!['i', 'j'], seq!['j', 'k']],
        seq!['i', 'j', 'k'],
        sf,
        seq!['i', 'k'],
        seq![a.shape@[0], b.shape@[1]],
        k0,
        total,
    ));
}

} // verus!
