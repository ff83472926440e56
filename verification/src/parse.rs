//! The formula parser: splits a subscript string of the form
//! `"<in1>,<in2>,...-><out>"` into per-operand symbol sequences and an output
//! symbol sequence, and unifies each symbol to a concrete dimension size by
//! cross-checking every operand that uses it.  The first occurrence of a
//! symbol establishes its size; every later occurrence must agree.

use crate::error::TensorError;
use crate::tensor::Tensor;
use vstd::prelude::*;

verus! {

// ------------------------------------------------------------------
// Splitting the formula
// ------------------------------------------------------------------

/// The two-character separator `"->"` starts at position `i` of `f`.
pub open spec fn arrow_at(f: Seq<char>, i: int) -> bool {
    0 <= i && i + 1 < f.len() && f[i] == '-' && f[i + 1] == '>'
}

/// The formula holds exactly one `"->"` separator.
pub open spec fn one_arrow(f: Seq<char>) -> bool {
    (exists|i: int| arrow_at(f, i)) && (forall|i: int, j: int|
        #![trigger arrow_at(f, i), arrow_at(f, j)]
        arrow_at(f, i) && arrow_at(f, j) ==> i == j)
}

/// The position of the unique separator.
pub open spec fn arrow_pos(f: Seq<char>) -> int {
    choose|i: int| arrow_at(f, i)
}

/// Everything left of the separator: the comma-separated operand groups.
pub open spec fn input_side(f: Seq<char>) -> Seq<char> {
    f.take(arrow_pos(f))
}

/// Everything right of the separator: the output symbols.
pub open spec fn output_side(f: Seq<char>) -> Seq<char> {
    f.skip(arrow_pos(f) + 2)
}

/// The first comma of `s` at or after position `i`, or `s.len()` when there
/// is none.
pub open spec fn first_comma(s: Seq<char>, i: int) -> int
    decreases s.len() - i,
{
    if i < 0 || i >= s.len() {
        s.len() as int
    } else if s[i] == ',' {
        i
    } else {
        first_comma(s, i + 1)
    }
}

/// The comma-separated groups of `s`, in order.  A side with no comma is one
/// group; every comma separates two (possibly empty) groups.
pub open spec fn split_groups(s: Seq<char>) -> Seq<Seq<char>>
    decreases s.len(),
{
    let i = first_comma(s, 0);
    if 0 <= i && i < s.len() {
        seq![s.take(i)] + split_groups(s.skip(i + 1))
    } else {
        seq![s]
    }
}

/// Scanning for a comma can start past any comma-free prefix.
pub proof fn lemma_comma_scan(s: Seq<char>, i: int)
    requires
        0 <= i <= s.len(),
        forall|j: int| 0 <= j < i ==> s[j] != ',',
    ensures
        first_comma(s, 0) == first_comma(s, i),
    decreases i,
{
    if i > 0 {
        lemma_comma_scan(s, i - 1);
    }
}


// ------------------------------------------------------------------
// Binding symbols to sizes
// ------------------------------------------------------------------

/// The first position of `c` in `u` at or after `x`, or `u.len()` when `c`
/// does not occur.
pub open spec fn sym_index(u: Seq<char>, c: char, x: int) -> int
    decreases u.len() - x,
{
    if x < 0 || x >= u.len() {
        u.len() as int
    } else if u[x] == c {
        x
    } else {
        sym_index(u, c, x + 1)
    }
}

/// Scanning for a symbol can start past any prefix free of it.
pub proof fn lemma_sym_scan(u: Seq<char>, c: char, i: int)
    requires
        0 <= i <= u.len(),
        forall|y: int| 0 <= y < i ==> u[y] != c,
    ensures
        sym_index(u, c, 0) == sym_index(u, c, i),
    decreases i,
{
    if i > 0 {
        lemma_sym_scan(u, c, i - 1);
    }
}

/// Resumes a binding scan in the middle of operand group `i`, axis `a`: what
/// the whole scan returns once the scan state has reached that point.
pub open spec fn bind_resume(
    u: Seq<char>,
    sizes: Seq<usize>,
    groups: Seq<Seq<char>>,
    shapes: Seq<Seq<usize>>,
    i: int,
    a: int,
) -> Result<(Seq<char>, Seq<usize>), TensorError> {
    if 0 <= i < groups.len() && i < shapes.len() {
        match bind_group(u, sizes, groups[i], shapes[i], a) {
            Err(e) => Err(e),
            Ok((u2, sizes2)) => bind_from(u2, sizes2, groups, shapes, i + 1),
        }
    } else {
        bind_from(u, sizes, groups, shapes, i)
    }
}

/// Binds the symbols of one operand group `g` against that operand's shape
/// `sh`, from axis `a` on, extending the symbol table `(u, sizes)`.  A symbol
/// not yet in `u` is appended with the axis's size; one already bound must
/// agree with its established size, else the scan stops at the first
/// conflict.
pub open spec fn bind_group(
    u: Seq<char>,
    sizes: Seq<usize>,
    g: Seq<char>,
    sh: Seq<usize>,
    a: int,
) -> Result<(Seq<char>, Seq<usize>), TensorError>
    decreases g.len() - a,
{
    if a < 0 || a >= g.len() {
        Ok((u, sizes))
    } else {
        let c = g[a];
        let sz = sh[a];
        let x = sym_index(u, c, 0);
        if x < u.len() {
            if sizes[x] != sz {
                Err(TensorError::DimensionConflict { symbol: c, expected: sizes[x], found: sz })
            } else {
                bind_group(u, sizes, g, sh, a + 1)
            }
        } else {
            bind_group(u.push(c), sizes.push(sz), g, sh, a + 1)
        }
    }
}

/// Binds every operand group from `i` on, in order: first the group's length
/// must equal the operand's rank, then each of its symbols is bound.  The
/// result is the symbol table in first-occurrence order, or the first
/// failure in scan order.
pub open spec fn bind_from(
    u: Seq<char>,
    sizes: Seq<usize>,
    groups: Seq<Seq<char>>,
    shapes: Seq<Seq<usize>>,
    i: int,
) -> Result<(Seq<char>, Seq<usize>), TensorError>
    decreases groups.len() - i,
{
    if i < 0 || i >= groups.len() || i >= shapes.len() {
        Ok((u, sizes))
    } else if groups[i].len() != shapes[i].len() {
        Err(
            TensorError::RankMismatch {
                operand: i as usize,
                expected: groups[i].len() as usize,
                found: shapes[i].len() as usize,
            },
        )
    } else {
        match bind_group(u, sizes, groups[i], shapes[i], 0) {
            Err(e) => Err(e),
            Ok((u2, sizes2)) => bind_from(u2, sizes2, groups, shapes, i + 1),
        }
    }
}

/// Resolves the output shape: the ordered sizes bound to each output symbol,
/// appended to `acc` from position `k` on; fails at the first output symbol
/// the table does not bind.
pub open spec fn out_shape_from(
    u: Seq<char>,
    sizes: Seq<usize>,
    outs: Seq<char>,
    k: int,
    acc: Seq<usize>,
) -> Result<Seq<usize>, TensorError>
    decreases outs.len() - k,
{
    if k < 0 || k >= outs.len() {
        Ok(acc)
    } else {
        let x = sym_index(u, outs[k], 0);
        if x < u.len() {
            out_shape_from(u, sizes, outs, k + 1, acc.push(sizes[x]))
        } else {
            Err(TensorError::UnboundOutputSymbol { symbol: outs[k] })
        }
    }
}

/// The complete parse of formula `f` against the operand shapes: either the
/// symbol table `(symbols, sizes)` in first-occurrence order together with
/// the resolved output shape, or the first failure in scan order (operand
/// count, then per operand its rank and its symbol bindings, then the output
/// symbols).
pub open spec fn parse_result(f: Seq<char>, shapes: Seq<Seq<usize>>) -> Result<
    (Seq<char>, Seq<usize>, Seq<usize>),
    TensorError,
> {
    let groups = split_groups(input_side(f));
    let outs = output_side(f);
    if groups.len() != shapes.len() {
        Err(
            TensorError::ArityMismatch {
                groups: groups.len() as usize,
                operands: shapes.len() as usize,
            },
        )
    } else {
        match bind_from(Seq::empty(), Seq::empty(), groups, shapes, 0) {
            Err(e) => Err(e),
            Ok((u, sizes)) => match out_shape_from(u, sizes, outs, 0, Seq::empty()) {
                Err(e) => Err(e),
                Ok(osh) => Ok((u, sizes, osh)),
            },
        }
    }
}

// ------------------------------------------------------------------
// Facts about a successful binding
// ------------------------------------------------------------------

/// The symbol table is well formed: one size per symbol.
pub open spec fn table_wf(u: Seq<char>, sizes: Seq<usize>) -> bool {
    u.len() == sizes.len()
}

/// Everything `bind_group` promises about its result: the table only grows,
/// established bindings never change, and on success every axis of the group
/// is bound to exactly that axis's size.
pub proof fn lemma_bind_group_props(
    u: Seq<char>,
    sizes: Seq<usize>,
    g: Seq<char>,
    sh: Seq<usize>,
    a: int,
)
    requires
        table_wf(u, sizes),
        g.len() == sh.len(),
        0 <= a <= g.len(),
    ensures
        bind_group(u, sizes, g, sh, a) is Ok ==> {
            let (u2, sizes2) = bind_group(u, sizes, g, sh, a)->Ok_0;
            &&& table_wf(u2, sizes2)
            &&& u.len() <= u2.len()
            &&& sizes.len() <= sizes2.len()
            &&& u2.take(u.len() as int) == u
            &&& sizes2.take(sizes.len() as int) == sizes
            &&& forall|b: int|
                a <= b < g.len() ==> {
                    let x = sym_index(u2, #[trigger] g[b], 0);
                    &&& x < u2.len()
                    &&& sizes2[x] == sh[b]
                }
        },
    decreases g.len() - a,
{
    assert(u.take(u.len() as int) =~= u);
    assert(sizes.take(sizes.len() as int) =~= sizes);
    if a < g.len() {
        let c = g[a];
        let sz = sh[a];
        let x = sym_index(u, c, 0);
        lemma_sym_index_range(u, c, 0);
        if x < u.len() {
            if sizes[x] == sz {
                lemma_bind_group_props(u, sizes, g, sh, a + 1);
                if bind_group(u, sizes, g, sh, a) is Ok {
                    let (u2, sizes2) = bind_group(u, sizes, g, sh, a)->Ok_0;
                    lemma_sym_index_prefix(u, u2, c);
                    assert(sizes[x] == sizes2.take(sizes.len() as int)[x]);
                    assert(sizes2[sym_index(u2, c, 0)] == sz);
                }
            }
        } else {
            let un = u.push(c);
            let sn = sizes.push(sz);
            lemma_bind_group_props(un, sn, g, sh, a + 1);
            if bind_group(u, sizes, g, sh, a) is Ok {
                let (u2, sizes2) = bind_group(un, sn, g, sh, a + 1)->Ok_0;
                assert(un.take(u.len() as int) =~= u);
                assert(sn.take(sizes.len() as int) =~= sizes);
                assert(u2.take(u.len() as int) =~= u2.take(un.len() as int).take(u.len() as int));
                assert(sizes2.take(sizes.len() as int) =~= sizes2.take(sn.len() as int).take(
                    sizes.len() as int,
                ));
                lemma_sym_index_found(un, c, un.len() - 1);
                lemma_sym_index_range(un, c, 0);
                let xn = sym_index(un, c, 0);
                if xn < u.len() {
                    assert(un[xn] == u[xn]);
                }
                assert(xn == u.len());
                lemma_sym_index_prefix(un, u2, c);
                assert(sn[xn] == sizes2.take(sn.len() as int)[xn]);
                assert(sizes2[sym_index(u2, c, 0)] == sz);
            }
        }
    }
}

/// A symbol scan lands between `x` and the table's end, at the symbol when
/// it finds one, and before any position holding the symbol.
pub proof fn lemma_sym_index_range(u: Seq<char>, c: char, x: int)
    requires
        0 <= x <= u.len(),
    ensures
        x <= sym_index(u, c, x) <= u.len(),
        sym_index(u, c, x) < u.len() ==> u[sym_index(u, c, x)] == c,
        forall|y: int| x <= y < sym_index(u, c, x) ==> u[y] != c,
    decreases u.len() - x,
{
    if x < u.len() && u[x] != c {
        lemma_sym_index_range(u, c, x + 1);
    }
}

/// A table that holds `c` somewhere finds it.
pub proof fn lemma_sym_index_found(u: Seq<char>, c: char, at: int)
    requires
        0 <= at < u.len(),
        u[at] == c,
    ensures
        sym_index(u, c, 0) <= at,
    decreases at,
{
    lemma_sym_index_range(u, c, 0);
    if sym_index(u, c, 0) > at {
        assert(u[at] != c);
    }
}

/// Extending a table does not move the position of a symbol it already
/// holds.
pub proof fn lemma_sym_index_prefix(u: Seq<char>, u2: Seq<char>, c: char)
    requires
        u.len() <= u2.len(),
        u2.take(u.len() as int) == u,
        sym_index(u, c, 0) < u.len(),
    ensures
        sym_index(u2, c, 0) == sym_index(u, c, 0),
{
    let x = sym_index(u, c, 0);
    lemma_sym_index_range(u, c, 0);
    assert(u2[x] == u[x]);
    lemma_sym_index_range(u2, c, 0);
    let x2 = sym_index(u2, c, 0);
    lemma_sym_index_found(u2, c, x);
    if x2 < x {
        assert(u[x2] == u2[x2]);
    }
}

/// Everything `bind_from` promises on success: the table grows over every
/// operand, and each operand's axes are bound to exactly their sizes.
pub proof fn lemma_bind_from_table(
    u: Seq<char>,
    sizes: Seq<usize>,
    groups: Seq<Seq<char>>,
    shapes: Seq<Seq<usize>>,
    i: int,
)
    requires
        table_wf(u, sizes),
        groups.len() == shapes.len(),
        0 <= i <= groups.len(),
    ensures
        bind_from(u, sizes, groups, shapes, i) is Ok ==> table_wf(
            bind_from(u, sizes, groups, shapes, i)->Ok_0.0,
            bind_from(u, sizes, groups, shapes, i)->Ok_0.1,
        ),
        bind_from(u, sizes, groups, shapes, i) is Ok ==> u.len() <= bind_from(
            u,
            sizes,
            groups,
            shapes,
            i,
        )->Ok_0.0.len(),
        bind_from(u, sizes, groups, shapes, i) is Ok ==> bind_from(
            u,
            sizes,
            groups,
            shapes,
            i,
        )->Ok_0.0.take(u.len() as int) == u,
        bind_from(u, sizes, groups, shapes, i) is Ok ==> bind_from(
            u,
            sizes,
            groups,
            shapes,
            i,
        )->Ok_0.1.take(sizes.len() as int) == sizes,
    decreases groups.len() - i,
{
    assert(u.take(u.len() as int) =~= u);
    assert(sizes.take(sizes.len() as int) =~= sizes);
    if i < groups.len() && groups[i].len() == shapes[i].len() {
        let r1 = bind_group(u, sizes, groups[i], shapes[i], 0);
        lemma_bind_group_props(u, sizes, groups[i], shapes[i], 0);
        if r1 is Ok {
            let (ua, sa) = r1->Ok_0;
            assert(bind_from(u, sizes, groups, shapes, i) == bind_from(
                ua,
                sa,
                groups,
                shapes,
                i + 1,
            ));
            lemma_bind_from_table(ua, sa, groups, shapes, i + 1);
            if bind_from(ua, sa, groups, shapes, i + 1) is Ok {
                let (u2, sizes2) = bind_from(ua, sa, groups, shapes, i + 1)->Ok_0;
                assert(u2.take(u.len() as int) =~= u2.take(ua.len() as int).take(u.len() as int));
                assert(sizes2.take(sizes.len() as int) =~= sizes2.take(sa.len() as int).take(
                    sizes.len() as int,
                ));
            }
        }
    }
}

/// Any single occurrence of a symbol in the operand groups from `i` on is
/// bound in the final table, to exactly the size of the axis it labels.
pub proof fn lemma_bound_axis(
    u: Seq<char>,
    sizes: Seq<usize>,
    groups: Seq<Seq<char>>,
    shapes: Seq<Seq<usize>>,
    i: int,
    j: int,
    b: int,
)
    requires
        table_wf(u, sizes),
        groups.len() == shapes.len(),
        0 <= i <= groups.len(),
        bind_from(u, sizes, groups, shapes, i) is Ok,
        i <= j < groups.len(),
        0 <= b < groups[j].len(),
    ensures
        ({
            let u2 = bind_from(u, sizes, groups, shapes, i)->Ok_0.0;
            let sizes2 = bind_from(u, sizes, groups, shapes, i)->Ok_0.1;
            &&& groups[j].len() == shapes[j].len()
            &&& 0 <= sym_index(u2, groups[j][b], 0) < u2.len()
            &&& sizes2[sym_index(u2, groups[j][b], 0)] == shapes[j][b]
        }),
    decreases j - i,
{
    assert(groups[i].len() == shapes[i].len());
    let r1 = bind_group(u, sizes, groups[i], shapes[i], 0);
    lemma_bind_group_props(u, sizes, groups[i], shapes[i], 0);
    assert(r1 is Ok);
    let ua = r1->Ok_0.0;
    let sa = r1->Ok_0.1;
    assert(bind_from(u, sizes, groups, shapes, i) == bind_from(ua, sa, groups, shapes, i + 1));
    lemma_bind_from_table(ua, sa, groups, shapes, i + 1);
    let u2 = bind_from(u, sizes, groups, shapes, i)->Ok_0.0;
    let sizes2 = bind_from(u, sizes, groups, shapes, i)->Ok_0.1;
    if j == i {
        let xa = sym_index(ua, groups[i][b], 0);
        lemma_sym_index_range(ua, groups[i][b], 0);
        lemma_sym_index_range(u2, groups[i][b], 0);
        lemma_sym_index_prefix(ua, u2, groups[i][b]);
        assert(sa[xa] == sizes2.take(sa.len() as int)[xa]);
        assert(sizes2[xa] == sa[xa]);
    } else {
        lemma_bound_axis(ua, sa, groups, shapes, i + 1, j, b);
    }
}

/// Every operand from `i` on in a successful binding has as many symbols as
/// axes.
pub proof fn lemma_bound_rank(
    u: Seq<char>,
    sizes: Seq<usize>,
    groups: Seq<Seq<char>>,
    shapes: Seq<Seq<usize>>,
    i: int,
    j: int,
)
    requires
        table_wf(u, sizes),
        groups.len() == shapes.len(),
        0 <= i <= groups.len(),
        bind_from(u, sizes, groups, shapes, i) is Ok,
        i <= j < groups.len(),
    ensures
        groups[j].len() == shapes[j].len(),
    decreases j - i,
{
    assert(groups[i].len() == shapes[i].len());
    if j > i {
        let r1 = bind_group(u, sizes, groups[i], shapes[i], 0);
        lemma_bind_group_props(u, sizes, groups[i], shapes[i], 0);
        assert(r1 is Ok);
        lemma_bound_rank(r1->Ok_0.0, r1->Ok_0.1, groups, shapes, i + 1, j);
    }
}

/// A successful output scan keeps its accumulated prefix.
pub proof fn lemma_out_prefix(
    u: Seq<char>,
    sizes: Seq<usize>,
    outs: Seq<char>,
    k: int,
    acc: Seq<usize>,
)
    requires
        0 <= k <= outs.len(),
        acc.len() == k,
        out_shape_from(u, sizes, outs, k, acc) is Ok,
    ensures
        out_shape_from(u, sizes, outs, k, acc)->Ok_0.len() == outs.len(),
        out_shape_from(u, sizes, outs, k, acc)->Ok_0.take(k) == acc,
    decreases outs.len() - k,
{
    let osh = out_shape_from(u, sizes, outs, k, acc)->Ok_0;
    if k == outs.len() {
        assert(osh.take(k) =~= acc);
    } else {
        let x = sym_index(u, outs[k], 0);
        lemma_sym_index_range(u, outs[k], 0);
        let acc2 = acc.push(sizes[x]);
        lemma_out_prefix(u, sizes, outs, k + 1, acc2);
        assert(osh.take(k) =~= osh.take(k + 1).take(k));
        assert(acc2.take(k) =~= acc);
    }
}

/// The size a successful output scan resolves for output position `x`: the
/// size bound to that position's symbol.
pub proof fn lemma_out_at_from(
    u: Seq<char>,
    sizes: Seq<usize>,
    outs: Seq<char>,
    k: int,
    acc: Seq<usize>,
    x: int,
)
    requires
        0 <= k <= x < outs.len(),
        acc.len() == k,
        out_shape_from(u, sizes, outs, k, acc) is Ok,
    ensures
        ({
            let osh = out_shape_from(u, sizes, outs, k, acc)->Ok_0;
            &&& 0 <= sym_index(u, outs[x], 0) < u.len()
            &&& osh[x] == sizes[sym_index(u, outs[x], 0)]
        }),
    decreases x - k,
{
    let xs = sym_index(u, outs[k], 0);
    lemma_sym_index_range(u, outs[k], 0);
    let acc2 = acc.push(sizes[xs]);
    if k < x {
        lemma_out_at_from(u, sizes, outs, k + 1, acc2, x);
    } else {
        lemma_out_prefix(u, sizes, outs, k + 1, acc2);
        let osh = out_shape_from(u, sizes, outs, k, acc)->Ok_0;
        assert(osh.take(k + 1) == acc2);
        assert(osh[k] == osh.take(k + 1)[k]);
    }
}

/// The operand tensors behind a borrowed operand list.
pub open spec fn tensors_of(inputs: Seq<&Tensor>) -> Seq<Tensor> {
    Seq::new(inputs.len(), |i: int| *inputs[i])
}

/// The shapes of the operand tensors, in order.
pub open spec fn operand_shapes(ts: Seq<Tensor>) -> Seq<Seq<usize>> {
    Seq::new(ts.len(), |i: int| ts[i].shape@)
}

/// The views of a list of built symbol groups.
pub open spec fn views_of(gs: Seq<Vec<char>>) -> Seq<Seq<char>> {
    Seq::new(gs.len(), |i: int| gs[i]@)
}

/// Finds a symbol in the table: its first position, or the table's length
/// when absent.
pub fn find_sym(syms: &Vec<char>, c: char) -> (x: usize)
    ensures
        x as int == sym_index(syms@, c, 0),
        x <= syms@.len(),
{
    let n = syms.len();
    let mut i: usize = 0;
    while i < n
        invariant
            0 <= i <= n,
            n == syms@.len(),
            forall|y: int| 0 <= y < i ==> syms@[y] != c,
        decreases n - i,
    {
        if syms[i] == c {
            proof {
                lemma_sym_scan(syms@, c, i as int);
            }
            return i;
        }
        i = i + 1;
    }
    proof {
        lemma_sym_scan(syms@, c, n as int);
    }
    n
}

/// Finds the unique `"->"` separator.
fn find_arrow(fc: &Vec<char>) -> (r: usize)
    requires
        one_arrow(fc@),
    ensures
        arrow_at(fc@, r as int),
        r as int == arrow_pos(fc@),
        r + 2 <= fc@.len(),
{
    let n = fc.len();
    let mut i: usize = 0;
    while n - i > 1
        invariant
            0 <= i <= n,
            n == fc@.len(),
            one_arrow(fc@),
            forall|q: int| 0 <= q < i ==> !arrow_at(fc@, q),
        decreases n - i,
    {
        if fc[i] == '-' && fc[i + 1] == '>' {
            proof {
                assert(arrow_at(fc@, i as int));
                let w = arrow_pos(fc@);
                assert(arrow_at(fc@, w));
                assert(w == i as int);
            }
            return i;
        }
        i = i + 1;
    }
    proof {
        let w = choose|q: int| arrow_at(fc@, q);
        assert(arrow_at(fc@, w));
        assert(false);
    }
    vstd::pervasive::unreached()
}

// ------------------------------------------------------------------
// The executable parser
// ------------------------------------------------------------------

/// A parsed and size-resolved formula: the per-operand symbol groups, the
/// output symbols, the symbol table in first-occurrence order with the
/// resolved sizes, and the resolved output shape.
pub struct ParsedFormula {
    pub groups: Vec<Vec<char>>,
    pub outs: Vec<char>,
    pub syms: Vec<char>,
    pub sizes: Vec<usize>,
    pub out_shape: Vec<usize>,
}

/// Parses a formula against the operand tensors: exactly the result that
/// `parse_result` describes, with every failure surfaced as the first one in
/// scan order.
#[verifier::loop_isolation(false)]
#[verifier::rlimit(100)]
pub fn parse_formula(formula: &str, inputs: &[&Tensor]) -> (r: Result<ParsedFormula, TensorError>)
    requires
        one_arrow(formula@),
        forall|i: int| 0 <= i < inputs@.len() ==> (#[trigger] inputs@[i]).wf(),
    ensures
        match r {
            Ok(pf) => {
                let f = formula@;
                let shp = operand_shapes(tensors_of(inputs@));
                &&& parse_result(f, shp) == Ok::<(Seq<char>, Seq<usize>, Seq<usize>), TensorError>(
                    (pf.syms@, pf.sizes@, pf.out_shape@),
                )
                &&& views_of(pf.groups@) == split_groups(input_side(f))
                &&& pf.outs@ == output_side(f)
                &&& table_wf(pf.syms@, pf.sizes@)
                &&& forall|x: int| 0 <= x < pf.sizes@.len() ==> pf.sizes@[x] >= 1
                &&& pf.groups@.len() == inputs@.len()
            },
            Err(e) => {
                let f = formula@;
                let shp = operand_shapes(tensors_of(inputs@));
                &&& parse_result(f, shp) is Err
                &&& parse_result(f, shp)->Err_0 == e
            },
        },
{
    let ghost f = formula@;
    let ghost ts = tensors_of(inputs@);
    let ghost shp = operand_shapes(ts);

        // Collect the formula's characters.
        let n = formula.unicode_len();
        let mut fc: Vec<char> = Vec::new();
        let mut p: usize = 0;
        while p < n
            invariant
                0 <= p <= n,
                n == f.len(),
                f == formula@,
                fc@ == f.take(p as int),
            decreases n - p,
        {
            fc.push(formula.get_char(p));
            proof {
                assert(fc@ =~= f.take(p + 1));
            }
            p = p + 1;
        }
        proof {
            assert(fc@ =~= f);
        }

        // Locate the separator and split the sides.
        let arrow = find_arrow(&fc);
        let ghost s_in = input_side(f);
        proof {
            assert(s_in == f.take(arrow as int));
        }

        // Split the input side at commas into operand symbol groups.
        let mut groups: Vec<Vec<char>> = Vec::new();
        let mut cur: Vec<char> = Vec::new();
        let ghost mut cs: int = 0;
        let mut q: usize = 0;
        proof {
            assert(views_of(groups@) =~= Seq::<Seq<char>>::empty());
            assert(s_in.skip(0) =~= s_in);
            assert(views_of(groups@) + split_groups(s_in.skip(0)) =~= split_groups(s_in));
            assert(cur@ =~= s_in.subrange(0, 0));
        }
        while q < arrow
            invariant
                0 <= cs <= q <= arrow,
                arrow + 2 <= n,
                n == f.len(),
                fc@ == f,
                s_in == f.take(arrow as int),
                s_in == input_side(f),
                cur@ == s_in.subrange(cs, q as int),
                forall|y: int| cs <= y < q ==> s_in[y] != ',',
                split_groups(s_in) == views_of(groups@) + split_groups(s_in.skip(cs)),
            decreases arrow - q,
        {
            let ch = fc[q];
            if ch == ',' {
                proof {
                    let suf = s_in.skip(cs);
                    assert(forall|y: int| 0 <= y < q - cs ==> suf[y] != ',');
                    lemma_comma_scan(suf, q - cs);
                    assert(suf[q - cs] == ',');
                    assert(first_comma(suf, q - cs) == q - cs);
                    assert(split_groups(suf) == seq![suf.take(q - cs)] + split_groups(
                        suf.skip(q - cs + 1),
                    ));
                    assert(suf.take(q - cs) =~= cur@);
                    assert(suf.skip(q - cs + 1) =~= s_in.skip(q + 1));
                    assert(views_of(groups@.push(cur)) =~= views_of(groups@) + seq![cur@]);
                    assert((views_of(groups@) + seq![cur@]) + split_groups(s_in.skip(q + 1))
                        =~= views_of(groups@) + (seq![cur@] + split_groups(s_in.skip(q + 1))));
                }
                groups.push(cur);
                cur = Vec::new();
                q = q + 1;
                proof {
                    cs = q as int;
                    assert(cur@ =~= s_in.subrange(cs, q as int));
                }
            } else {
                cur.push(ch);
                q = q + 1;
                proof {
                    assert(cur@ =~= s_in.subrange(cs, q as int));
                }
            }
        }
        proof {
            let suf = s_in.skip(cs);
            assert(forall|y: int| 0 <= y < suf.len() ==> suf[y] != ',');
            lemma_comma_scan(suf, suf.len() as int);
            assert(first_comma(suf, 0) == suf.len());
            assert(split_groups(suf) == seq![suf]);
            assert(suf =~= cur@);
            assert(views_of(groups@.push(cur)) =~= views_of(groups@) + seq![cur@]);
        }
        groups.push(cur);
        let ghost gv = views_of(groups@);
        proof {
            assert(gv == split_groups(s_in));
        }

        // Collect the output symbols.
        let mut outs: Vec<char> = Vec::new();
        let mut q2: usize = arrow + 2;
        while q2 < n
            invariant
                arrow + 2 <= q2 <= n,
                n == f.len(),
                fc@ == f,
                arrow as int == arrow_pos(f),
                outs@ == f.subrange(arrow + 2, q2 as int),
            decreases n - q2,
        {
            outs.push(fc[q2]);
            q2 = q2 + 1;
            proof {
                assert(outs@ =~= f.subrange(arrow + 2, q2 as int));
            }
        }
        let ghost outsv = output_side(f);
        proof {
            assert(outs@ =~= outsv);
        }

        // Check arity: one operand group per operand tensor.
        if groups.len() != inputs.len() {
            proof {
                assert(shp.len() == inputs@.len());
                assert(parse_result(f, shp) is Err);
            }
            return Err(
                TensorError::ArityMismatch { groups: groups.len(), operands: inputs.len() },
            );
        }
        proof {
            assert(shp.len() == inputs@.len());
        }

        // Bind each symbol to a dimension size, first occurrence first.
        let mut syms: Vec<char> = Vec::new();
        let mut sizes: Vec<usize> = Vec::new();
        let mut i: usize = 0;
        while i < groups.len()
            invariant
                0 <= i <= groups.len(),
                groups@.len() == inputs@.len(),
                gv == views_of(groups@),
                gv.len() == shp.len(),
                ts == tensors_of(inputs@),
                shp == operand_shapes(ts),
                forall|j: int| 0 <= j < inputs@.len() ==> (#[trigger] inputs@[j]).wf(),
                table_wf(syms@, sizes@),
                forall|x: int| 0 <= x < sizes@.len() ==> sizes@[x] >= 1,
                bind_from(Seq::empty(), Seq::empty(), gv, shp, 0) == bind_from(
                    syms@,
                    sizes@,
                    gv,
                    shp,
                    i as int,
                ),
            decreases groups@.len() - i,
        {
            let g_len = groups[i].len();
            let rank = inputs[i].shape.len();
            proof {
                assert(gv[i as int] == groups@[i as int]@);
                assert(shp[i as int] == ts[i as int].shape@);
                assert(ts[i as int] == *inputs@[i as int]);
            }
            if g_len != rank {
                proof {
                    assert(bind_from(syms@, sizes@, gv, shp, i as int) is Err);
                    assert(parse_result(f, shp) is Err);
                    assert(parse_result(f, shp)->Err_0 == (TensorError::RankMismatch {
                        operand: i,
                        expected: g_len,
                        found: rank,
                    }));
                }
                return Err(
                    TensorError::RankMismatch { operand: i, expected: g_len, found: rank },
                );
            }
            proof {
                assert(bind_from(syms@, sizes@, gv, shp, i as int) == bind_resume(
                    syms@,
                    sizes@,
                    gv,
                    shp,
                    i as int,
                    0,
                ));
            }
            let mut a: usize = 0;
            while a < g_len
                invariant
                    0 <= a <= g_len,
                    0 <= i < groups.len(),
                    groups@.len() == inputs@.len(),
                    gv == views_of(groups@),
                    gv.len() == shp.len(),
                    ts == tensors_of(inputs@),
                    shp == operand_shapes(ts),
                    forall|j: int| 0 <= j < inputs@.len() ==> (#[trigger] inputs@[j]).wf(),
                    g_len == gv[i as int].len(),
                    g_len == shp[i as int].len(),
                    table_wf(syms@, sizes@),
                    forall|x: int| 0 <= x < sizes@.len() ==> sizes@[x] >= 1,
                    bind_from(Seq::empty(), Seq::empty(), gv, shp, 0) == bind_resume(
                        syms@,
                        sizes@,
                        gv,
                        shp,
                        i as int,
                        a as int,
                    ),
                decreases g_len - a,
            {
                let c = groups[i][a];
                let sz = inputs[i].shape[a];
                proof {
                    assert(gv[i as int][a as int] == c);
                    assert(shp[i as int][a as int] == sz);
                    assert(ts[i as int].wf());
                    assert(sz >= 1);
                }
                let x = find_sym(&syms, c);
                if x < syms.len() {
                    let est = sizes[x];
                    if est != sz {
                        proof {
                            assert(bind_group(syms@, sizes@, gv[i as int], shp[i as int], a as int)
                                is Err);
                            assert(bind_resume(syms@, sizes@, gv, shp, i as int, a as int)
                                is Err);
                            assert(parse_result(f, shp) is Err);
                            assert(parse_result(f, shp)->Err_0 == (TensorError::DimensionConflict {
                                symbol: c,
                                expected: est,
                                found: sz,
                            }));
                        }
                        return Err(
                            TensorError::DimensionConflict {
                                symbol: c,
                                expected: est,
                                found: sz,
                            },
                        );
                    }
                    proof {
                        assert(bind_group(syms@, sizes@, gv[i as int], shp[i as int], a as int)
                            == bind_group(syms@, sizes@, gv[i as int], shp[i as int], a + 1));
                    }
                } else {
                    proof {
                        assert(bind_group(syms@, sizes@, gv[i as int], shp[i as int], a as int)
                            == bind_group(
                            syms@.push(c),
                            sizes@.push(sz),
                            gv[i as int],
                            shp[i as int],
                            a + 1,
                        ));
                    }
                    syms.push(c);
                    sizes.push(sz);
                }
                a = a + 1;
            }
            proof {
                assert(bind_group(syms@, sizes@, gv[i as int], shp[i as int], a as int) == Ok::<
                    (Seq<char>, Seq<usize>),
                    TensorError,
                >((syms@, sizes@)));
            }
            i = i + 1;
        }
        proof {
            assert(bind_from(syms@, sizes@, gv, shp, i as int) == Ok::<
                (Seq<char>, Seq<usize>),
                TensorError,
            >((syms@, sizes@)));
        }
        let ghost u = syms@;
        let ghost limits = sizes@;

        // Resolve the output shape from the bound symbols.
        let mut oshape: Vec<usize> = Vec::new();
        let mut k2: usize = 0;
        while k2 < outs.len()
            invariant
                0 <= k2 <= outs@.len(),
                outs@ == outsv,
                u == syms@,
                limits == sizes@,
                table_wf(u, limits),
                forall|x: int| 0 <= x < limits.len() ==> limits[x] >= 1,
                oshape@.len() == k2,
                forall|x: int| 0 <= x < k2 ==> oshape@[x] >= 1,
                out_shape_from(u, limits, outsv, 0, Seq::empty()) == out_shape_from(
                    u,
                    limits,
                    outsv,
                    k2 as int,
                    oshape@,
                ),
            decreases outs@.len() - k2,
        {
            let c = outs[k2];
            let x = find_sym(&syms, c);
            if x == syms.len() {
                proof {
                    assert(out_shape_from(u, limits, outsv, k2 as int, oshape@) is Err);
                    assert(parse_result(f, shp) is Err);
                    assert(parse_result(f, shp)->Err_0 == (TensorError::UnboundOutputSymbol {
                        symbol: c,
                    }));
                }
                return Err(TensorError::UnboundOutputSymbol { symbol: c });
            }
            oshape.push(sizes[x]);
            k2 = k2 + 1;
        }
        proof {
            assert(out_shape_from(u, limits, outsv, k2 as int, oshape@) == Ok::<
                Seq<usize>,
                TensorError,
            >(oshape@));
            assert(parse_result(f, shp) == Ok::<(Seq<char>, Seq<usize>, Seq<usize>), TensorError>(
                (u, limits, oshape@),
            ));
        }
    Ok(ParsedFormula { groups, outs, syms, sizes, out_shape: oshape })
}

} // verus!
