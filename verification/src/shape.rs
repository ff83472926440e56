//! The index mapper: the mathematical model of a tensor shape and of the
//! bidirectional mapping between a multi-dimensional coordinate and a flat
//! storage offset, under a fixed row-major (last-axis-fastest) layout.

use vstd::arithmetic::div_mod::{
    lemma_fundamental_div_mod, lemma_fundamental_div_mod_converse,
};
use vstd::prelude::*;

verus! {

/// The number of scalar entries a tensor of shape `s` stores: the product of
/// all axis sizes, with the empty (rank-0) product equal to 1.
pub open spec fn product(s: Seq<usize>) -> nat
    decreases s.len(),
{
    if s.len() == 0 {
        1
    } else {
        product(s.drop_last()) * (s.last() as nat)
    }
}

/// Every axis size is positive.
pub open spec fn all_pos(s: Seq<usize>) -> bool {
    forall|i: int| 0 <= i < s.len() ==> s[i] >= 1
}

/// `c` is a valid coordinate for shape `s`: one entry per axis, each within
/// that axis's size.
pub open spec fn in_bounds(s: Seq<usize>, c: Seq<usize>) -> bool {
    c.len() == s.len() && forall|i: int| 0 <= i < c.len() ==> c[i] < s[i]
}

/// The flat storage offset of coordinate `c` in the row-major layout for
/// shape `s`: the Horner form of `c` read as a mixed-radix numeral whose
/// digit on axis `i` wraps at `s[i]`, last axis fastest.
pub open spec fn flat_index(s: Seq<usize>, c: Seq<usize>) -> nat
    decreases s.len(),
{
    if s.len() == 0 {
        0
    } else {
        flat_index(s.drop_last(), c.drop_last()) * (s.last() as nat) + (c.last() as nat)
    }
}

/// The coordinate whose flat offset is `n`: the inverse mapping, by repeated
/// floor-division and remainder from the last axis to the first.
pub open spec fn coord_of(s: Seq<usize>, n: int) -> Seq<usize>
    decreases s.len(),
{
    if s.len() == 0 {
        Seq::empty()
    } else {
        coord_of(s.drop_last(), n / (s.last() as int)).push((n % (s.last() as int)) as usize)
    }
}

/// The entry count of a rank-2 shape.
pub proof fn lemma_product2(a: usize, b: usize)
    ensures
        product(seq![a, b]) == a * b,
{
    let s = seq![a, b];
    assert(s.drop_last() =~= seq![a]);
    assert(seq![a].drop_last() =~= Seq::<usize>::empty());
    assert(product(Seq::<usize>::empty()) == 1);
    assert(product(seq![a]) == (1 as nat) * (a as nat));
    assert(product(s) == product(seq![a]) * (b as nat));
}

/// The entry count of a rank-3 shape.
pub proof fn lemma_product3(a: usize, b: usize, c: usize)
    ensures
        product(seq![a, b, c]) == (a * b) * c,
{
    let s = seq![a, b, c];
    assert(s.drop_last() =~= seq![a, b]);
    lemma_product2(a, b);
    assert(product(s) == product(seq![a, b]) * (c as nat));
}

/// A positive shape stores at least one entry.
pub proof fn lemma_product_pos(s: Seq<usize>)
    requires
        all_pos(s),
    ensures
        product(s) >= 1,
    decreases s.len(),
{
    if s.len() > 0 {
        lemma_product_pos(s.drop_last());
        assert(product(s.drop_last()) * s.last() >= 1) by (nonlinear_arith)
            requires
                product(s.drop_last()) >= 1,
                s.last() >= 1,
        ;
    }
}

/// The entry count splits across any cut of the axis list.
pub proof fn lemma_product_split(s: Seq<usize>, i: int)
    requires
        0 <= i <= s.len(),
    ensures
        product(s) == product(s.take(i)) * product(s.skip(i)),
    decreases s.len(),
{
    if i == s.len() {
        assert(s.take(i) =~= s);
        assert(s.skip(i) =~= Seq::<usize>::empty());
        assert(product(s) * 1 == product(s));
    } else {
        let sd = s.drop_last();
        lemma_product_split(sd, i);
        assert(sd.take(i) =~= s.take(i));
        assert(s.skip(i).drop_last() =~= sd.skip(i));
        assert(s.skip(i).len() > 0);
        assert(s.skip(i).last() == s.last());
        assert(product(s.skip(i)) == product(sd.skip(i)) * s.last());
        assert(product(s.take(i)) * (product(sd.skip(i)) * s.last()) == (product(s.take(i))
            * product(sd.skip(i))) * s.last()) by (nonlinear_arith);
    }
}

/// A prefix of a positive shape stores no more entries than the whole.
pub proof fn lemma_product_prefix_le(s: Seq<usize>, i: int)
    requires
        all_pos(s),
        0 <= i <= s.len(),
    ensures
        product(s.take(i)) <= product(s),
{
    lemma_product_split(s, i);
    lemma_product_pos(s.skip(i));
    assert(product(s.take(i)) * product(s.skip(i)) >= product(s.take(i)) * 1) by (nonlinear_arith)
        requires
            product(s.skip(i)) >= 1,
    ;
}

/// A flat offset splits at any cut of the axis list: the prefix digits carry
/// weight `product` of the suffix sizes.
pub proof fn lemma_flat_split(s: Seq<usize>, c: Seq<usize>, i: int)
    requires
        c.len() == s.len(),
        0 <= i <= s.len(),
    ensures
        flat_index(s, c) == flat_index(s.take(i), c.take(i)) * product(s.skip(i)) + flat_index(
            s.skip(i),
            c.skip(i),
        ),
    decreases s.len() - i,
{
    if i == s.len() {
        assert(s.take(i) =~= s);
        assert(c.take(i) =~= c);
        assert(s.skip(i) =~= Seq::<usize>::empty());
        assert(c.skip(i) =~= Seq::<usize>::empty());
        assert(product(s.skip(i)) == 1);
        assert(flat_index(s.skip(i), c.skip(i)) == 0);
        assert(flat_index(s.take(i), c.take(i)) * product(s.skip(i)) == flat_index(s, c) * 1);
    } else {
        let sd = s.drop_last();
        let cd = c.drop_last();
        lemma_flat_split(sd, cd, i);
        assert(sd.take(i) =~= s.take(i));
        assert(cd.take(i) =~= c.take(i));
        assert(s.skip(i).drop_last() =~= sd.skip(i));
        assert(c.skip(i).drop_last() =~= cd.skip(i));
        assert(s.skip(i).len() > 0 && s.skip(i).last() == s.last() && c.skip(i).last()
            == c.last());
        let a = flat_index(s.take(i), c.take(i)) as int;
        let pd = product(sd.skip(i)) as int;
        let fd = flat_index(sd.skip(i), cd.skip(i)) as int;
        let b = s.last() as int;
        let e = c.last() as int;
        assert(flat_index(s, c) == (a * pd + fd) * b + e);
        assert(product(s.skip(i)) == pd * b);
        assert(flat_index(s.skip(i), c.skip(i)) == fd * b + e);
        assert((a * pd + fd) * b + e == a * (pd * b) + (fd * b + e)) by (nonlinear_arith);
        assert(flat_index(s, c) == a * (pd * b) + (fd * b + e));
        assert(flat_index(s.take(i), c.take(i)) * product(s.skip(i)) == a * (pd * b));
    }
}

/// The all-zero coordinate sits at offset 0.
pub proof fn lemma_flat_all_zero(s: Seq<usize>, c: Seq<usize>)
    requires
        c.len() == s.len(),
        forall|i: int| 0 <= i < c.len() ==> c[i] == 0,
    ensures
        flat_index(s, c) == 0,
    decreases s.len(),
{
    if s.len() > 0 {
        lemma_flat_all_zero(s.drop_last(), c.drop_last());
        assert(c[c.len() - 1] == 0);
        assert(flat_index(s, c) == flat_index(s.drop_last(), c.drop_last()) * (s.last() as nat)
            + (c.last() as nat));
    }
}

/// The coordinate with every digit at its maximum sits at the last offset.
pub proof fn lemma_flat_all_max(s: Seq<usize>, c: Seq<usize>)
    requires
        all_pos(s),
        c.len() == s.len(),
        forall|i: int| 0 <= i < c.len() ==> c[i] == s[i] - 1,
    ensures
        flat_index(s, c) == product(s) - 1,
    decreases s.len(),
{
    if s.len() > 0 {
        let sd = s.drop_last();
        lemma_flat_all_max(sd, c.drop_last());
        lemma_product_pos(sd);
        let p = product(sd) as int;
        let b = s.last() as int;
        assert(flat_index(s, c) == (p - 1) * b + (b - 1));
        assert((p - 1) * b + (b - 1) == p * b - 1) by (nonlinear_arith);
    }
}

/// Valid coordinates map to offsets inside the buffer.
pub proof fn lemma_flat_index_bound(s: Seq<usize>, c: Seq<usize>)
    requires
        in_bounds(s, c),
    ensures
        flat_index(s, c) < product(s),
    decreases s.len(),
{
    if s.len() > 0 {
        lemma_flat_index_bound(s.drop_last(), c.drop_last());
        assert(flat_index(s.drop_last(), c.drop_last()) * s.last() + c.last() < product(
            s.drop_last(),
        ) * s.last()) by (nonlinear_arith)
            requires
                flat_index(s.drop_last(), c.drop_last()) < product(s.drop_last()),
                c.last() < s.last(),
        ;
    }
}

/// Round trip from a coordinate through its flat offset and back: the two
/// mapper directions are exact inverses over the valid domain.
pub proof fn lemma_coord_of_flat_index(s: Seq<usize>, c: Seq<usize>)
    requires
        in_bounds(s, c),
    ensures
        coord_of(s, flat_index(s, c) as int) == c,
    decreases s.len(),
{
    if s.len() == 0 {
        assert(coord_of(s, flat_index(s, c) as int) =~= c);
    } else {
        let sd = s.drop_last();
        let cd = c.drop_last();
        let b = s.last() as int;
        let n = flat_index(s, c) as int;
        lemma_fundamental_div_mod_converse(n, b, flat_index(sd, cd) as int, c.last() as int);
        lemma_coord_of_flat_index(sd, cd);
        assert(coord_of(s, n) =~= c);
    }
}

/// Every offset inside the buffer decodes to a valid coordinate that maps
/// back to the same offset.
pub proof fn lemma_flat_index_coord_of(s: Seq<usize>, n: int)
    requires
        all_pos(s),
        0 <= n < product(s),
    ensures
        in_bounds(s, coord_of(s, n)),
        flat_index(s, coord_of(s, n)) == n,
    decreases s.len(),
{
    if s.len() == 0 {
        assert(in_bounds(s, coord_of(s, n)));
    } else {
        let sd = s.drop_last();
        let b = s.last() as int;
        let q = n / b;
        let r = n % b;
        lemma_fundamental_div_mod(n, b);
        assert(0 <= r < b) by (nonlinear_arith)
            requires
                b >= 1,
                r == n % b,
        ;
        assert(q < product(sd)) by (nonlinear_arith)
            requires
                n == q * b + r,
                0 <= r < b,
                0 <= n,
                n < product(sd) * b,
        ;
        assert(q >= 0) by (nonlinear_arith)
            requires
                n == q * b + r,
                0 <= r < b,
                0 <= n,
                b >= 1,
        ;
        lemma_flat_index_coord_of(sd, q);
        let c = coord_of(s, n);
        assert(c.drop_last() =~= coord_of(sd, q));
        assert(c.last() == r as usize);
        assert(in_bounds(s, c));
        assert(flat_index(s, c) == flat_index(sd, coord_of(sd, q)) * b + r);
    }
}

} // verus!
