//! The contraction engine.  After parsing the formula, the engine enumerates
//! every combination of values for every distinct symbol with a mixed-radix
//! counter (last symbol fastest), computes the product of the corresponding
//! operand entries for each combination, and accumulates it into the output
//! tensor at the coordinate the output symbols select.  Each output cell
//! therefore ends up holding the wrapped sum, over all counter states mapping
//! to it, of the exact products of operand entries.

use crate::error::TensorError;
use crate::parse::{
    bind_from, find_sym, input_side, lemma_bound_axis, lemma_bound_rank, lemma_out_at_from,
    lemma_out_prefix, one_arrow, operand_shapes, out_shape_from, output_side, parse_formula, parse_result,
    split_groups, sym_index, table_wf, tensors_of, views_of,
};
use crate::scalar::{
    lemma_wrap_add_left, lemma_wrap_mul_both, lemma_wrap_val_id, lemma_wrapping_add_val,
    wrap_val,
};
use crate::shape::{
    all_pos, coord_of, flat_index, in_bounds, lemma_coord_of_flat_index, lemma_flat_all_max,
    lemma_flat_all_zero, lemma_flat_index_bound, lemma_flat_split, lemma_product_pos, product,
};
use crate::tensor::Tensor;
use vstd::prelude::*;

verus! {

/// The coordinate that symbol string `g` selects under the counter
/// assignment `asn`: for each axis, the counter of that axis's symbol in the
/// symbol table `u`.
pub open spec fn asn_coord(g: Seq<char>, u: Seq<char>, asn: Seq<usize>) -> Seq<usize> {
    Seq::new(g.len(), |a: int| asn[sym_index(u, g[a], 0)])
}

/// The exact product of the entries the first `j` operands contribute under
/// assignment `asn`.
pub open spec fn term_value(
    ts: Seq<Tensor>,
    groups: Seq<Seq<char>>,
    u: Seq<char>,
    asn: Seq<usize>,
    j: int,
) -> int
    decreases j,
{
    if j <= 0 {
        1
    } else {
        term_value(ts, groups, u, asn, j - 1) * (ts[j - 1].at(
            asn_coord(groups[j - 1], u, asn),
        ) as int)
    }
}

/// What counter state `t` (in mixed-radix order over `limits`) contributes
/// to output cell `k`: the full product if the output symbols select cell
/// `k` under that state, otherwise nothing.
pub open spec fn step_cell(
    ts: Seq<Tensor>,
    groups: Seq<Seq<char>>,
    u: Seq<char>,
    limits: Seq<usize>,
    outs: Seq<char>,
    oshape: Seq<usize>,
    k: int,
    t: int,
) -> int {
    let asn = coord_of(limits, t);
    if flat_index(oshape, asn_coord(outs, u, asn)) == k {
        term_value(ts, groups, u, asn, ts.len() as int)
    } else {
        0
    }
}

/// The exact (unwrapped) value output cell `k` has accumulated after the
/// first `t` counter states.
pub open spec fn cell_partial(
    ts: Seq<Tensor>,
    groups: Seq<Seq<char>>,
    u: Seq<char>,
    limits: Seq<usize>,
    outs: Seq<char>,
    oshape: Seq<usize>,
    k: int,
    t: int,
) -> int
    decreases t,
{
    if t <= 0 {
        0
    } else {
        cell_partial(ts, groups, u, limits, outs, oshape, k, t - 1) + step_cell(
            ts,
            groups,
            u,
            limits,
            outs,
            oshape,
            k,
            t - 1,
        )
    }
}

/// The exact value of output cell `k` of a contraction: the sum, over the
/// full Cartesian product of symbol values, of the products of operand
/// entries, restricted to the counter states whose output coordinate is cell
/// `k`.  Meaningful when the parse succeeds.
pub open spec fn einsum_cell(f: Seq<char>, ts: Seq<Tensor>, k: int) -> int {
    let shapes = operand_shapes(ts);
    let groups = split_groups(input_side(f));
    let outs = output_side(f);
    let pr = parse_result(f, shapes);
    cell_partial(
        ts,
        groups,
        pr->Ok_0.0,
        pr->Ok_0.1,
        outs,
        pr->Ok_0.2,
        k,
        product(pr->Ok_0.1) as int,
    )
}

/// Builds the coordinate the symbol string `g` selects under the current
/// counters.
fn build_coord(g: &Vec<char>, syms: &Vec<char>, counters: &Vec<usize>) -> (r: Vec<usize>)
    requires
        counters@.len() == syms@.len(),
        forall|a: int|
            0 <= a < g@.len() ==> sym_index(syms@, #[trigger] g@[a], 0) < syms@.len(),
    ensures
        r@ == asn_coord(g@, syms@, counters@),
{
    let n = g.len();
    let mut r: Vec<usize> = Vec::new();
    let mut a: usize = 0;
    while a < n
        invariant
            0 <= a <= n,
            n == g@.len(),
            counters@.len() == syms@.len(),
            forall|b: int|
                0 <= b < g@.len() ==> sym_index(syms@, #[trigger] g@[b], 0) < syms@.len(),
            r@.len() == a,
            forall|b: int|
                0 <= b < a ==> r@[b] == counters@[sym_index(syms@, #[trigger] g@[b], 0)],
        decreases n - a,
    {
        let x = find_sym(syms, g[a]);
        r.push(counters[x]);
        a = a + 1;
    }
    proof {
        assert(r@ =~= asn_coord(g@, syms@, counters@));
    }
    r
}

impl Tensor {
    /// The generalized contraction.  Parses the formula against the operand
    /// shapes, allocates the zero output tensor, and enumerates every
    /// combination of symbol values with a mixed-radix counter, accumulating
    /// the product of the selected operand entries into the output cell the
    /// output symbols select.  On any parse failure the exact first failure
    /// in scan order is returned and no output exists.
    #[verifier::loop_isolation(false)]
    #[verifier::rlimit(100)]
    pub fn einsum(formula: &str, inputs: &[&Tensor]) -> (r: Result<Tensor, TensorError>)
        requires
            one_arrow(formula@),
            forall|i: int| 0 <= i < inputs@.len() ==> (#[trigger] inputs@[i]).wf(),
            parse_result(formula@, operand_shapes(tensors_of(inputs@))) is Ok ==> product(
                parse_result(formula@, operand_shapes(tensors_of(inputs@)))->Ok_0.2,
            ) <= usize::MAX,
        ensures
            match r {
                Ok(out) => {
                    let pr = parse_result(formula@, operand_shapes(tensors_of(inputs@)));
                    &&& pr is Ok
                    &&& out.wf()
                    &&& out.shape@ == pr->Ok_0.2
                    &&& forall|k: int|
                        0 <= k < out.data@.len() ==> out.data@[k] == wrap_val(
                            einsum_cell(formula@, tensors_of(inputs@), k),
                        )
                },
                Err(e) => {
                    let pr = parse_result(formula@, operand_shapes(tensors_of(inputs@)));
                    &&& pr is Err
                    &&& pr->Err_0 == e
                },
            },
    {
        let ghost f = formula@;
        let ghost ts = tensors_of(inputs@);
        let ghost shp = operand_shapes(ts);

        let pf = match parse_formula(formula, inputs) {
            Ok(pf) => pf,
            Err(e) => {
                return Err(e);
            },
        };
        let groups = pf.groups;
        let outs = pf.outs;
        let syms = pf.syms;
        let sizes = pf.sizes;
        let oshape = pf.out_shape;
        let ghost gv = views_of(groups@);
        let ghost u = syms@;
        let ghost limits = sizes@;
        let ghost outsv = output_side(f);
        proof {
            assert(parse_result(f, shp) == Ok::<(Seq<char>, Seq<usize>, Seq<usize>), TensorError>(
                (u, limits, oshape@),
            ));
            assert(bind_from(Seq::empty(), Seq::empty(), gv, shp, 0) == Ok::<
                (Seq<char>, Seq<usize>),
                TensorError,
            >((u, limits)));
            assert(out_shape_from(u, limits, outsv, 0, Seq::empty()) == Ok::<
                Seq<usize>,
                TensorError,
            >(oshape@));
            assert(all_pos(limits));
        }
        let ghost oshv = oshape@;
        // The output tensor starts at zero everywhere.
        proof {
            lemma_out_prefix(u, limits, outsv, 0, Seq::empty());
            assert(oshv.len() == outsv.len());
            assert forall|x: int| 0 <= x < oshv.len() implies oshv[x] >= 1 by {
                lemma_out_at_from(u, limits, outsv, 0, Seq::empty(), x);
            }
            assert(all_pos(oshv));
            assert forall|x: int|
                0 <= x < outsv.len() implies 0 <= sym_index(u, #[trigger] outsv[x], 0) < u.len()
                && oshv[x] == limits[sym_index(u, outsv[x], 0)] by {
                lemma_out_at_from(u, limits, outsv, 0, Seq::empty(), x);
            }
        }
        let mut result = Tensor::zeros(oshape);

        // One counter per distinct symbol, all starting at zero.
        let u_len = syms.len();
        let mut counters: Vec<usize> = Vec::new();
        while counters.len() < u_len
            invariant
                counters@.len() <= u_len,
                forall|x: int| 0 <= x < counters@.len() ==> counters@[x] == 0usize,
            decreases u_len - counters@.len(),
        {
            counters.push(0);
        }
        let ghost total = product(limits) as int;
        let ghost mut t: int = 0;
        proof {
            assert(all_pos(limits));
            lemma_product_pos(limits);
            lemma_flat_all_zero(limits, counters@);
            assert(in_bounds(limits, counters@));
            assert forall|k: int| 0 <= k < result.data@.len() implies result.data@[k] == wrap_val(
                cell_partial(ts, gv, u, limits, outsv, oshv, k, 0),
            ) by {
                lemma_wrap_val_id(0);
            }
            // every symbol occurrence is bound to its axis's size
            assert forall|j: int, b: int|
                0 <= j < gv.len() && 0 <= b < gv[j].len() implies {
                &&& 0 <= sym_index(u, #[trigger] gv[j][b], 0) < u.len()
                &&& limits[sym_index(u, gv[j][b], 0)] == shp[j][b]
                &&& gv[j].len() == shp[j].len()
            } by {
                lemma_bound_axis(Seq::empty(), Seq::empty(), gv, shp, 0, j, b);
            }
            assert forall|j: int| 0 <= j < gv.len() implies (#[trigger] gv[j]).len()
                == shp[j].len() by {
                lemma_bound_rank(Seq::empty(), Seq::empty(), gv, shp, 0, j);
            }
        }

        let n_ops = inputs.len();
        #[verifier::loop_isolation(true)]
        loop
            invariant_except_break
                0 <= t < total,
                total == product(limits),
                u_len == u.len(),
                counters@.len() == u_len,
                in_bounds(limits, counters@),
                flat_index(limits, counters@) == t,
                table_wf(u, limits),
                all_pos(limits),
                n_ops == inputs@.len(),
                groups@.len() == inputs@.len(),
                gv == views_of(groups@),
                gv.len() == shp.len(),
                ts == tensors_of(inputs@),
                shp == operand_shapes(ts),
                forall|j: int| 0 <= j < inputs@.len() ==> (#[trigger] inputs@[j]).wf(),
                u == syms@,
                limits == sizes@,
                outs@ == outsv,
                result.wf(),
                result.shape@ == oshv,
                oshv.len() == outsv.len(),
                forall|x: int|
                    0 <= x < outsv.len() ==> 0 <= sym_index(u, #[trigger] outsv[x], 0) < u.len()
                        && oshv[x] == limits[sym_index(u, outsv[x], 0)],
                forall|j: int, b: int|
                    0 <= j < gv.len() && 0 <= b < gv[j].len() ==> 0 <= sym_index(
                        u,
                        #[trigger] gv[j][b],
                        0,
                    ) < u.len() && limits[sym_index(u, gv[j][b], 0)] == shp[j][b] && gv[j].len()
                        == shp[j].len(),
                forall|j: int| 0 <= j < gv.len() ==> (#[trigger] gv[j]).len() == shp[j].len(),
                forall|k: int|
                    0 <= k < result.data@.len() ==> result.data@[k] == wrap_val(
                        cell_partial(ts, gv, u, limits, outsv, oshv, k, t),
                    ),
            ensures
                result.wf(),
                result.shape@ == oshv,
                forall|k: int|
                    0 <= k < result.data@.len() ==> result.data@[k] == wrap_val(
                        cell_partial(ts, gv, u, limits, outsv, oshv, k, total),
                    ),
            decreases total - t,
        {
            let ghost asn = counters@;
            proof {
                lemma_coord_of_flat_index(limits, counters@);
                assert(coord_of(limits, t) == asn);
            }

            // Product of the selected entries of every operand.
            let mut prod: i64 = 1;
            let mut j: usize = 0;
            proof {
                lemma_wrap_val_id(1);
            }
            while j < n_ops
                invariant
                    0 <= j <= n_ops,
                    n_ops == inputs@.len(),
                    groups@.len() == inputs@.len(),
                    gv == views_of(groups@),
                    gv.len() == shp.len(),
                    ts == tensors_of(inputs@),
                    shp == operand_shapes(ts),
                    forall|j2: int| 0 <= j2 < inputs@.len() ==> (#[trigger] inputs@[j2]).wf(),
                    u == syms@,
                    limits == sizes@,
                    counters@ == asn,
                    counters@.len() == u.len(),
                    in_bounds(limits, counters@),
                    forall|j2: int, b: int|
                        0 <= j2 < gv.len() && 0 <= b < gv[j2].len() ==> 0 <= sym_index(
                            u,
                            #[trigger] gv[j2][b],
                            0,
                        ) < u.len() && limits[sym_index(u, gv[j2][b], 0)] == shp[j2][b]
                            && gv[j2].len() == shp[j2].len(),
                    forall|j2: int| 0 <= j2 < gv.len() ==> (#[trigger] gv[j2]).len() == shp[j2].len(),
                    prod == wrap_val(term_value(ts, gv, u, asn, j as int)),
                decreases n_ops - j,
            {
                proof {
                    assert(gv[j as int] == groups@[j as int]@);
                }
                let coord = build_coord(&groups[j], &syms, &counters);
                proof {
                    assert(ts[j as int] == *inputs@[j as int]);
                    assert(shp[j as int] == ts[j as int].shape@);
                    assert forall|b: int| 0 <= b < coord@.len() implies coord@[b] < ts[
                        j as int
                    ].shape@[b] by {
                        let x = sym_index(u, gv[j as int][b], 0);
                        assert(x < u.len() && limits[x] == shp[j as int][b]);
                        assert(coord@[b] == asn[x]);
                        assert(asn[x] < limits[x]);
                    }
                    assert(coord@.len() == gv[j as int].len());
                    assert(gv[j as int].len() == shp[j as int].len());
                    assert(in_bounds(ts[j as int].shape@, coord@));
                }
                let v = match inputs[j].get(coord.as_slice()) {
                    Ok(v) => v,
                    Err(_) => vstd::pervasive::unreached(),
                };
                proof {
                    let tv = term_value(ts, gv, u, asn, j as int);
                    lemma_wrap_val_id(v as int);
                    lemma_wrap_mul_both(tv, v as int);
                    assert(term_value(ts, gv, u, asn, j + 1) == tv * (v as int));
                }
                prod = prod.wrapping_mul(v);
                j = j + 1;
            }

            // Accumulate into the output cell the output symbols select.
            proof {
                assert(outs@ == outsv);
                assert forall|b: int|
                    0 <= b < outsv.len() implies sym_index(u, #[trigger] outsv[b], 0)
                    < syms@.len() by {}
            }
            let ocoord = build_coord(&outs, &syms, &counters);
            proof {
                assert forall|b: int| 0 <= b < ocoord@.len() implies ocoord@[b] < oshv[b] by {
                    let x = sym_index(u, outsv[b], 0);
                    assert(0 <= x < u.len() && oshv[b] == limits[x]);
                    assert(ocoord@[b] == asn[x]);
                    assert(counters@[x] < limits[x]);
                    assert(asn[x] == counters@[x]);
                }
                assert(in_bounds(result.shape@, ocoord@));
                lemma_flat_index_bound(oshv, ocoord@);
            }
            let ghost oflat = flat_index(oshv, ocoord@) as int;
            let cur = match result.get(ocoord.as_slice()) {
                Ok(v) => v,
                Err(_) => vstd::pervasive::unreached(),
            };
            let newv = cur.wrapping_add(prod);
            proof {
                let sk = cell_partial(ts, gv, u, limits, outsv, oshv, oflat, t);
                let tv = term_value(ts, gv, u, asn, n_ops as int);
                lemma_wrapping_add_val(cur, prod);
                lemma_wrap_add_left(sk, prod as int);
                lemma_wrap_add_left(tv, sk);
                assert(newv == wrap_val(sk + tv));
            }
            let ghost pre_data = result.data@;
            match result.set(ocoord.as_slice(), newv) {
                Ok(()) => (),
                Err(_) => vstd::pervasive::unreached(),
            }
            proof {
                assert(result.data@ == pre_data.update(oflat, newv));
                assert forall|k: int| 0 <= k < result.data@.len() implies result.data@[k]
                    == wrap_val(cell_partial(ts, gv, u, limits, outsv, oshv, k, t + 1)) by {
                    assert(cell_partial(ts, gv, u, limits, outsv, oshv, k, t + 1) == cell_partial(
                        ts,
                        gv,
                        u,
                        limits,
                        outsv,
                        oshv,
                        k,
                        t,
                    ) + step_cell(ts, gv, u, limits, outsv, oshv, k, t));
                    if k != oflat {
                        assert(step_cell(ts, gv, u, limits, outsv, oshv, k, t) == 0);
                    }
                }
            }

            // Advance the mixed-radix counter, last symbol fastest.
            let ghost cold = counters@;
            let mut m: usize = u_len;
            let mut carried = true;
            #[verifier::loop_isolation(true)]
            loop
                invariant_except_break
                    0 <= m <= u_len,
                    u_len == u.len(),
                    carried,
                    counters@.len() == u_len,
                    limits == sizes@,
                    sizes@.len() == u_len,
                    all_pos(limits),
                    in_bounds(limits, cold),
                    forall|x: int| 0 <= x < m ==> counters@[x] == cold[x],
                    forall|x: int|
                        m <= x < u_len ==> cold[x] == limits[x] - 1 && counters@[x] == 0,
                ensures
                    counters@.len() == u_len,
                    if carried {
                        forall|x: int|
                            0 <= x < u_len ==> cold[x] == limits[x] - 1 && counters@[x] == 0
                    } else {
                        exists|mm: int|
                            {
                                &&& 0 <= mm < u_len
                                &&& (forall|x: int|
                                    0 <= x < mm ==> counters@[x] == cold[x])
                                &&& counters@[mm] == cold[mm] + 1
                                &&& counters@[mm] < limits[mm]
                                &&& (forall|x: int|
                                    mm < x < u_len ==> cold[x] == limits[x] - 1
                                        && counters@[x] == 0)
                            }
                    },
                decreases m,
            {
                if m == 0 {
                    break ;
                }
                m = m - 1;
                proof {
                    assert(counters@[m as int] == cold[m as int]);
                    assert(cold[m as int] < limits[m as int]);
                }
                let bumped = counters[m] + 1;
                if bumped < sizes[m] {
                    counters.set(m, bumped);
                    carried = false;
                    proof {
                        let mm = m as int;
                        assert((forall|x: int| 0 <= x < mm ==> counters@[x] == cold[x])
                            && counters@[mm] == cold[mm] + 1 && counters@[mm] < limits[mm] && (
                        forall|x: int|
                            mm < x < u_len ==> cold[x] == limits[x] - 1 && counters@[x] == 0));
                    }
                    break ;
                }
                counters.set(m, 0);
            }
            if carried {
                proof {
                    lemma_flat_all_max(limits, cold);
                    assert(t + 1 == total);
                }
                break ;
            }
            proof {
                let mm = choose|mm: int|
                    {
                        &&& 0 <= mm < u_len
                        &&& (forall|x: int| 0 <= x < mm ==> counters@[x] == cold[x])
                        &&& counters@[mm] == cold[mm] + 1
                        &&& counters@[mm] < limits[mm]
                        &&& (forall|x: int|
                            mm < x < u_len ==> cold[x] == limits[x] - 1 && counters@[x] == 0)
                    };
                lemma_counter_step(limits, cold, counters@, mm);
                lemma_flat_index_bound(limits, counters@);
                t = t + 1;
            }
        }
        proof {
            assert forall|k: int| 0 <= k < result.data@.len() implies result.data@[k] == wrap_val(
                einsum_cell(f, ts, k),
            ) by {
                assert(einsum_cell(f, ts, k) == cell_partial(
                    ts,
                    gv,
                    u,
                    limits,
                    outsv,
                    oshv,
                    k,
                    total,
                ));
            }
        }
        Ok(result)
    }
}

/// One carry step of the mixed-radix counter advances the flat position by
/// exactly one: the wrapped suffix digits were at their maxima and return to
/// zero while the next digit up increments.
proof fn lemma_counter_step(s: Seq<usize>, cold: Seq<usize>, cnew: Seq<usize>, m: int)
    requires
        all_pos(s),
        in_bounds(s, cold),
        cnew.len() == s.len(),
        0 <= m < s.len(),
        forall|x: int| 0 <= x < m ==> cnew[x] == cold[x],
        cnew[m] == cold[m] + 1,
        cnew[m] < s[m],
        forall|x: int| m < x < s.len() ==> cold[x] == s[x] - 1 && cnew[x] == 0,
    ensures
        in_bounds(s, cnew),
        flat_index(s, cnew) == flat_index(s, cold) + 1,
{
    assert(in_bounds(s, cnew));
    lemma_flat_split(s, cold, m + 1);
    lemma_flat_split(s, cnew, m + 1);
    lemma_flat_all_max(s.skip(m + 1), cold.skip(m + 1));
    lemma_flat_all_zero(s.skip(m + 1), cnew.skip(m + 1));
    lemma_product_pos(s.skip(m + 1));
    assert(s.take(m + 1).drop_last() =~= s.take(m));
    assert(cold.take(m + 1).drop_last() =~= cold.take(m));
    assert(cnew.take(m + 1).drop_last() =~= cnew.take(m));
    assert(cold.take(m) =~= cnew.take(m));
    assert(cold.take(m + 1).last() == cold[m] && cnew.take(m + 1).last() == cnew[m]);
    let va = flat_index(s.take(m + 1), cold.take(m + 1)) as int;
    assert(flat_index(s.take(m + 1), cnew.take(m + 1)) == va + 1);
    let pp = product(s.skip(m + 1)) as int;
    assert(flat_index(s, cold) == va * pp + (pp - 1));
    assert(flat_index(s, cnew) == (va + 1) * pp);
    assert((va + 1) * pp == va * pp + pp) by (nonlinear_arith);
}

} // verus!
