//! Why repeated merging of the two lightest weights gives the least cost.
//!
//! `merge_cost` is the cost that the merging procedure arrives at. The main
//! result is that no assignment of codeword lengths that satisfies Kraft's
//! inequality costs less, and that the lengths of every prefix-free code
//! satisfy it.

use vstd::prelude::*;
use vstd::arithmetic::power2::{pow2, lemma_pow2_pos, lemma_pow2_unfold, lemma_pow2_adds};
use vstd::arithmetic::div_mod::{lemma_fundamental_div_mod, lemma_mod_multiples_basic};
use crate::sums::{
    total,
    lemma_total_push,
    lemma_total_update,
    lemma_total_remove,
    lemma_total_add,
    lemma_total_zero,
    lemma_total_nonnegative,
    lemma_total_single,
    lemma_total_multiple,
};
use crate::code_tree::{CodeTree, is_prefix_free};

verus! {

/// The index of the first least entry of `w`.
pub open spec fn first_min(w: Seq<int>) -> int
    decreases w.len(),
{
    if w.len() <= 1 {
        0
    } else {
        let k = first_min(w.drop_last());
        if w.last() < w[k] {
            w.len() - 1
        } else {
            k
        }
    }
}

pub proof fn lemma_first_min(w: Seq<int>)
    requires
        w.len() > 0,
    ensures
        0 <= first_min(w) < w.len(),
        forall|k: int| 0 <= k < w.len() ==> w[first_min(w)] <= #[trigger] w[k],
    decreases w.len(),
{
    if w.len() > 1 {
        lemma_first_min(w.drop_last());
        assert forall|k: int| 0 <= k < w.len() implies w[first_min(w)] <= #[trigger] w[k] by {
            if k < w.len() - 1 {
                assert(w.drop_last()[k] == w[k]);
            }
        }
    }
}

/// The index of the first greatest entry of `d`.
pub open spec fn first_max(d: Seq<int>) -> int
    decreases d.len(),
{
    if d.len() <= 1 {
        0
    } else {
        let k = first_max(d.drop_last());
        if d.last() > d[k] {
            d.len() - 1
        } else {
            k
        }
    }
}

pub proof fn lemma_first_max(d: Seq<int>)
    requires
        d.len() > 0,
    ensures
        0 <= first_max(d) < d.len(),
        forall|k: int| 0 <= k < d.len() ==> d[first_max(d)] >= #[trigger] d[k],
    decreases d.len(),
{
    if d.len() > 1 {
        lemma_first_max(d.drop_last());
        assert forall|k: int| 0 <= k < d.len() implies d[first_max(d)] >= #[trigger] d[k] by {
            if k < d.len() - 1 {
                assert(d.drop_last()[k] == d[k]);
            }
        }
    }
}

/// The cost of merging the weights `w` into one: take out the first least
/// weight, then the first least of the rest, put their sum in at the end,
/// and go on until one weight is left. Each merge costs the sum it makes.
pub open spec fn merge_cost(w: Seq<int>) -> int
    decreases w.len(),
    via merge_cost_decreases
{
    if w.len() <= 1 {
        0
    } else {
        let i = first_min(w);
        let rest = w.remove(i);
        let j = first_min(rest);
        let sum = w[i] + rest[j];
        sum + merge_cost(rest.remove(j).push(sum))
    }
}

#[via_fn]
proof fn merge_cost_decreases(w: Seq<int>) {
    if w.len() > 1 {
        lemma_first_min(w);
        lemma_first_min(w.remove(first_min(w)));
    }
}

/// The weights of a forest of weighted trees, in order.
pub open spec fn forest_weights(forest: Seq<(CodeTree, int)>) -> Seq<int> {
    Seq::new(forest.len(), |j: int| forest[j].1)
}

/// The tree that merging makes of a forest of weighted trees: the tree of
/// the first least weight becomes the left child and the tree of the first
/// least weight among the rest the right child of a new tree, which goes to
/// the end of the forest with the sum of their weights; and so on until
/// one tree is left.
pub open spec fn merge_trees(forest: Seq<(CodeTree, int)>) -> CodeTree
    decreases forest.len(),
    via merge_trees_decreases
{
    if forest.len() == 0 {
        CodeTree::Leaf { symbol: 0 }
    } else if forest.len() == 1 {
        forest[0].0
    } else {
        let i = first_min(forest_weights(forest));
        let rest = forest.remove(i);
        let j = first_min(forest_weights(rest));
        let merged = (
            CodeTree::Branch { left: Box::new(forest[i].0), right: Box::new(rest[j].0) },
            forest[i].1 + rest[j].1,
        );
        merge_trees(rest.remove(j).push(merged))
    }
}

#[via_fn]
proof fn merge_trees_decreases(forest: Seq<(CodeTree, int)>) {
    if forest.len() > 1 {
        lemma_first_min(forest_weights(forest));
        lemma_first_min(forest_weights(forest.remove(first_min(forest_weights(forest)))));
    }
}

/// Huffman's tree for a table of counts: what merging makes of the forest
/// of the symbols' leaves, in the order of the symbols, each weighted by
/// its count.
pub open spec fn huffman_tree(counts: Seq<u128>) -> CodeTree {
    merge_trees(Seq::new(counts.len(), |s: int| (CodeTree::Leaf { symbol: s as usize }, counts[s] as int)))
}

/// The lengths of the codewords of `code`.
pub open spec fn lengths(code: Seq<Seq<bool>>) -> Seq<int> {
    Seq::new(code.len(), |i: int| code[i].len() as int)
}

/// Entry by entry, each weight times its depth.
pub open spec fn products(w: Seq<int>, d: Seq<int>) -> Seq<int> {
    Seq::new(w.len(), |i: int| w[i] * d[i])
}

/// Entry by entry, two to the power of `m` less the depth: the terms of
/// Kraft's sum, scaled by two to the power of `m`.
pub open spec fn kraft_terms(d: Seq<int>, m: int) -> Seq<int> {
    Seq::new(d.len(), |i: int| pow2((m - d[i]) as nat) as int)
}

/// The depths `d` lie between 0 and `m` and satisfy Kraft's inequality.
pub open spec fn is_kraft(d: Seq<int>, m: int) -> bool {
    &&& forall|k: int| 0 <= k < d.len() ==> 0 <= #[trigger] d[k] <= m
    &&& total(kraft_terms(d, m)) <= pow2(m as nat)
}

proof fn lemma_exchange(w: Seq<int>, d: Seq<int>, m: int, x: int, y: int)
    requires
        w.len() == d.len(),
        0 <= x < d.len(),
        0 <= y < d.len(),
        x != y,
        w[x] <= w[y],
        d[x] <= d[y],
    ensures
        ({
            let e = d.update(x, d[y]).update(y, d[x]);
            &&& total(products(w, e)) <= total(products(w, d))
            &&& total(kraft_terms(e, m)) == total(kraft_terms(d, m))
            &&& total(e) == total(d)
        }),
{
    let e = d.update(x, d[y]).update(y, d[x]);
    lemma_total_update(d, x, d[y]);
    lemma_total_update(d.update(x, d[y]), y, d[x]);

    let p = products(w, d);
    let p1 = p.update(x, w[x] * d[y]);
    lemma_total_update(p, x, w[x] * d[y]);
    lemma_total_update(p1, y, w[y] * d[x]);
    assert(products(w, e) =~= p1.update(y, w[y] * d[x]));
    assert(w[x] * d[y] + w[y] * d[x] <= w[x] * d[x] + w[y] * d[y]) by (nonlinear_arith)
        requires
            w[x] <= w[y],
            d[x] <= d[y],
    ;

    let t = kraft_terms(d, m);
    let t1 = t.update(x, t[y]);
    lemma_total_update(t, x, t[y]);
    lemma_total_update(t1, y, t[x]);
    assert(kraft_terms(e, m) =~= t1.update(y, t[x]));
}

proof fn lemma_merge_pair(w: Seq<int>, d: Seq<int>, m: int, i: int, j: int)
    requires
        w.len() == d.len(),
        0 <= i < w.len(),
        0 <= j < w.len() - 1,
        1 <= d[i] <= m,
        d.remove(i)[j] == d[i],
    ensures
        ({
            let sum = w[i] + w.remove(i)[j];
            let w2 = w.remove(i).remove(j).push(sum);
            let d2 = d.remove(i).remove(j).push(d[i] - 1);
            &&& total(products(w2, d2)) == total(products(w, d)) - sum
            &&& total(kraft_terms(d2, m)) == total(kraft_terms(d, m))
        }),
{
    let deep = d[i];
    let w1 = w.remove(i);
    let d1 = d.remove(i);
    let sum = w[i] + w1[j];
    let w2 = w1.remove(j).push(sum);
    let d2 = d1.remove(j).push(deep - 1);

    let p = products(w, d);
    lemma_total_remove(p, i);
    lemma_total_remove(p.remove(i), j);
    lemma_total_push(p.remove(i).remove(j), sum * (deep - 1));
    assert(products(w1, d1) =~= p.remove(i));
    assert(products(w1.remove(j), d1.remove(j)) =~= p.remove(i).remove(j));
    assert(products(w2, d2) =~= p.remove(i).remove(j).push(sum * (deep - 1)));
    assert(p[i] == w[i] * deep);
    assert(p.remove(i)[j] == w1[j] * deep);
    assert(sum * (deep - 1) == w[i] * deep + w1[j] * deep - sum) by (nonlinear_arith)
        requires
            sum == w[i] + w1[j],
    ;

    let t = kraft_terms(d, m);
    let unit = pow2((m - deep) as nat) as int;
    lemma_total_remove(t, i);
    lemma_total_remove(t.remove(i), j);
    lemma_total_push(t.remove(i).remove(j), 2 * unit);
    lemma_pow2_unfold((m - deep + 1) as nat);
    assert(kraft_terms(d1, m) =~= t.remove(i));
    assert(kraft_terms(d1.remove(j), m) =~= t.remove(i).remove(j));
    assert(kraft_terms(d2, m) =~= t.remove(i).remove(j).push(2 * unit));
    assert(t[i] == unit);
    assert(t.remove(i)[j] == unit);
}

/// A power of two divides every power of two that is not smaller.
proof fn lemma_pow2_divides(a: nat, b: nat)
    requires
        a <= b,
    ensures
        pow2(b) as int % pow2(a) as int == 0,
        pow2(a) > 0,
{
    lemma_pow2_pos(a);
    lemma_pow2_adds((b - a) as nat, a);
    lemma_mod_multiples_basic(pow2((b - a) as nat) as int, pow2(a) as int);
}

/// Where a single entry is deepest, it can move up one level without
/// breaking Kraft's inequality.
proof fn lemma_lift_deepest(d: Seq<int>, m: int, p: int)
    requires
        is_kraft(d, m),
        0 <= p < d.len(),
        d[p] >= 1,
        forall|k: int| 0 <= k < d.len() && k != p ==> d[k] < d[p],
    ensures
        is_kraft(d.update(p, d[p] - 1), m),
{
    let deep = d[p];
    let t = kraft_terms(d, m);
    let unit = pow2((m - deep) as nat) as int;
    let twice = pow2((m - deep + 1) as nat) as int;
    lemma_pow2_unfold((m - deep + 1) as nat);
    lemma_pow2_pos((m - deep) as nat);
    assert(twice == 2 * unit);
    let others = t.remove(p);
    lemma_total_remove(t, p);
    assert forall|k: int| 0 <= k < others.len() implies others[k] % twice == 0 by {
        let k0 = if k < p {
            k
        } else {
            k + 1
        };
        assert(others[k] == t[k0]);
        assert(d[k0] < deep);
        lemma_pow2_divides((m - deep + 1) as nat, (m - d[k0]) as nat);
    }
    lemma_total_multiple(others, twice);
    lemma_pow2_divides((m - deep + 1) as nat, m as nat);
    let x = total(others);
    let y = pow2(m as nat) as int;
    lemma_fundamental_div_mod(x, twice);
    lemma_fundamental_div_mod(y, twice);
    assert(x + twice <= y) by (nonlinear_arith)
        requires
            x == twice * (x / twice),
            y == twice * (y / twice),
            x < y,
            twice > 0,
    ;
    let e = d.update(p, deep - 1);
    lemma_total_update(t, p, twice);
    assert(kraft_terms(e, m) =~= t.update(p, twice));
}

/// Depths that satisfy Kraft's inequality, two or more of them, are not
/// all zero.
proof fn lemma_some_depth_positive(d: Seq<int>, m: int)
    requires
        is_kraft(d, m),
        d.len() >= 2,
    ensures
        d[first_max(d)] >= 1,
{
    lemma_first_max(d);
    if d[first_max(d)] < 1 {
        let t = kraft_terms(d, m);
        assert forall|k: int| 0 <= k < d.len() implies d[k] == 0 by {
            assert(0 <= d[k] <= m);
        }
        lemma_pow2_pos(m as nat);
        assert(t[0] == pow2(m as nat));
        assert(t[1] == pow2(m as nat));
        lemma_total_remove(t, 0);
        lemma_total_remove(t.remove(0), 0);
        assert(t.remove(0)[0] == t[1]);
        assert forall|k: int| 0 <= k < t.remove(0).remove(0).len() implies t.remove(0).remove(
            0,
        )[k] >= 0 by {
            assert(t.remove(0).remove(0)[k] == t[k + 2]);
        }
        lemma_total_nonnegative(t.remove(0).remove(0));
        assert(false);
    }
}

/// No depths that satisfy Kraft's inequality cost less than merging does.
pub proof fn lemma_lower_bound(w: Seq<int>, d: Seq<int>, m: int)
    requires
        w.len() == d.len(),
        w.len() >= 1,
        forall|k: int| 0 <= k < w.len() ==> w[k] >= 0,
        is_kraft(d, m),
    ensures
        total(products(w, d)) >= merge_cost(w),
    decreases w.len(), total(d),
{
    let n = w.len() as int;
    lemma_total_nonnegative(d);
    if n < 2 {
        assert forall|k: int| 0 <= k < n implies products(w, d)[k] >= 0 by {
            assert(w[k] * d[k] >= 0) by (nonlinear_arith)
                requires
                    w[k] >= 0,
                    d[k] >= 0,
            ;
        }
        lemma_total_nonnegative(products(w, d));
    } else {
        let p = first_max(d);
        lemma_first_max(d);
        lemma_some_depth_positive(d, m);
        let deep = d[p];
        if exists|q: int| 0 <= q < n && q != p && d[q] == deep {
            let q = choose|q: int| 0 <= q < n && q != p && d[q] == deep;
            let i = first_min(w);
            lemma_first_min(w);
            let w1 = w.remove(i);
            let j0 = first_min(w1);
            lemma_first_min(w1);
            let j = if j0 < i {
                j0
            } else {
                j0 + 1
            };
            assert(w[j] == w1[j0]);
            assert forall|k: int| 0 <= k < n && k != i implies w[j] <= w[k] by {
                let k0 = if k < i {
                    k
                } else {
                    k - 1
                };
                assert(w1[k0] == w[k]);
            }
            // The deepest level is given to the lightest weight ...
            let d1 = if d[i] == deep {
                d
            } else {
                d.update(i, deep).update(p, d[i])
            };
            if d[i] != deep {
                lemma_exchange(w, d, m, i, p);
            }
            let q1 = if d[i] == deep {
                if p == i {
                    q
                } else {
                    p
                }
            } else {
                q
            };
            assert(q1 != i && d1[q1] == deep);
            assert(forall|k: int| 0 <= k < n ==> 0 <= #[trigger] d1[k] <= deep);
            // ... and to the next lightest.
            let d2 = if d1[j] == deep {
                d1
            } else {
                d1.update(j, deep).update(q1, d1[j])
            };
            if d1[j] != deep {
                lemma_exchange(w, d1, m, j, q1);
            }
            assert(d2[i] == deep && d2[j] == deep);
            assert(forall|k: int| 0 <= k < n ==> 0 <= #[trigger] d2[k] <= deep);
            assert(d2.remove(i)[j0] == d2[j]);
            lemma_merge_pair(w, d2, m, i, j0);
            let sum = w[i] + w1[j0];
            let w3 = w1.remove(j0).push(sum);
            let d3 = d2.remove(i).remove(j0).push(deep - 1);
            assert forall|k: int| 0 <= k < w3.len() implies w3[k] >= 0 by {
                if k < w3.len() - 1 {
                    let k1 = if k < j0 {
                        k
                    } else {
                        k + 1
                    };
                    let k2 = if k1 < i {
                        k1
                    } else {
                        k1 + 1
                    };
                    assert(w3[k] == w[k2]);
                }
            }
            assert forall|k: int| 0 <= k < d3.len() implies 0 <= #[trigger] d3[k] <= m by {
                if k < d3.len() - 1 {
                    let k1 = if k < j0 {
                        k
                    } else {
                        k + 1
                    };
                    let k2 = if k1 < i {
                        k1
                    } else {
                        k1 + 1
                    };
                    assert(d3[k] == d2[k2]);
                }
            }
            lemma_lower_bound(w3, d3, m);
        } else {
            lemma_lift_deepest(d, m, p);
            let d1 = d.update(p, deep - 1);
            lemma_total_update(d, p, deep - 1);
            let c = products(w, d);
            lemma_total_update(c, p, w[p] * (deep - 1));
            assert(products(w, d1) =~= c.update(p, w[p] * (deep - 1)));
            assert(w[p] * (deep - 1) <= w[p] * deep) by (nonlinear_arith)
                requires
                    w[p] >= 0,
            ;
            lemma_total_nonnegative(d1);
            lemma_lower_bound(w, d1, m);
        }
    }
}

/// For each codeword that begins with `p`, its term of Kraft's sum.
spec fn terms_under(code: Seq<Seq<bool>>, p: Seq<bool>, m: int) -> Seq<int> {
    Seq::new(
        code.len(),
        |i: int|
            if p.is_prefix_of(code[i]) {
                pow2((m - code[i].len()) as nat) as int
            } else {
                0
            },
    )
}

/// The codewords of a prefix-free code that begin with `p` take up no more
/// of Kraft's sum than a single codeword `p` would.
proof fn lemma_kraft_under(code: Seq<Seq<bool>>, p: Seq<bool>, m: int)
    requires
        is_prefix_free(code),
        forall|i: int| 0 <= i < code.len() ==> (#[trigger] code[i]).len() <= m,
        p.len() <= m,
    ensures
        total(terms_under(code, p, m)) <= pow2((m - p.len()) as nat),
    decreases m - p.len(),
{
    let t = terms_under(code, p, m);
    lemma_pow2_pos((m - p.len()) as nat);
    if exists|i: int| 0 <= i < code.len() && code[i] == p {
        let i = choose|i: int| 0 <= i < code.len() && code[i] == p;
        assert forall|k: int| 0 <= k < t.len() && k != i implies t[k] == 0 by {
            if p.is_prefix_of(code[k]) {
                assert(code[i].is_prefix_of(code[k]));
            }
        }
        lemma_total_single(t, i);
    } else if p.len() == m {
        assert forall|k: int| 0 <= k < t.len() implies t[k] == 0 by {
            if p.is_prefix_of(code[k]) {
                assert(code[k].len() <= m);
                assert(code[k] =~= p);
            }
        }
        lemma_total_zero(t);
    } else {
        let p0 = p.push(false);
        let p1 = p.push(true);
        let t0 = terms_under(code, p0, m);
        let t1 = terms_under(code, p1, m);
        lemma_kraft_under(code, p0, m);
        lemma_kraft_under(code, p1, m);
        assert forall|k: int| 0 <= k < t.len() implies t[k] == t0[k] + t1[k] by {
            let c = code[k];
            let len = p.len() as int;
            if p.is_prefix_of(c) {
                if c.len() == len {
                    assert(c =~= p);
                }
                assert(c.len() > len);
                let b = c[len];
                assert(c.subrange(0, len + 1) =~= c.subrange(0, len).push(b));
                assert(p.push(b) =~= c.subrange(0, len + 1));
                assert(p.push(!b)[len] != c.subrange(0, len + 1)[len]);
            } else {
                if p0.is_prefix_of(c) {
                    assert(p0.subrange(0, len) =~= p);
                    assert(c.subrange(0, len) =~= c.subrange(0, len + 1).subrange(0, len));
                }
                if p1.is_prefix_of(c) {
                    assert(p1.subrange(0, len) =~= p);
                    assert(c.subrange(0, len) =~= c.subrange(0, len + 1).subrange(0, len));
                }
            }
        }
        lemma_total_add(t, t0, t1);
        lemma_pow2_unfold((m - p.len()) as nat);
    }
}

/// The length of the longest codeword of `code`.
pub open spec fn longest(code: Seq<Seq<bool>>) -> nat
    decreases code.len(),
{
    if code.len() == 0 {
        0
    } else {
        let rest = longest(code.drop_last());
        if code.last().len() > rest {
            code.last().len()
        } else {
            rest
        }
    }
}

pub proof fn lemma_longest(code: Seq<Seq<bool>>)
    ensures
        forall|i: int| 0 <= i < code.len() ==> (#[trigger] code[i]).len() <= longest(code),
    decreases code.len(),
{
    if code.len() > 0 {
        lemma_longest(code.drop_last());
        assert forall|i: int| 0 <= i < code.len() implies (#[trigger] code[i]).len() <= longest(
            code,
        ) by {
            if i < code.len() - 1 {
                assert(code[i] == code.drop_last()[i]);
            }
        }
    }
}

/// Kraft's inequality: the codeword lengths of a prefix-free code satisfy it.
pub proof fn lemma_kraft(code: Seq<Seq<bool>>)
    requires
        is_prefix_free(code),
    ensures
        is_kraft(lengths(code), longest(code) as int),
{
    let m = longest(code) as int;
    lemma_longest(code);
    lemma_kraft_under(code, Seq::empty(), m);
    assert forall|i: int| 0 <= i < code.len() implies Seq::<bool>::empty().is_prefix_of(
        #[trigger] code[i],
    ) by {
        assert(code[i].subrange(0, 0) =~= Seq::<bool>::empty());
    }
    assert(kraft_terms(lengths(code), m) =~= terms_under(code, Seq::empty(), m));
}

/// The counts of a frequency table as mathematical integers.
pub open spec fn weights(counts: Seq<u128>) -> Seq<int> {
    Seq::new(counts.len(), |s: int| counts[s] as int)
}

/// The number of bits that `code` spends on a text in which each symbol
/// occurs as often as `counts` says: the sum over the symbols of count
/// times codeword length.
pub open spec fn weighted_length(counts: Seq<u128>, code: Seq<Seq<bool>>) -> int {
    total(products(weights(counts), lengths(code)))
}

/// `code` is a prefix-free code for the symbols of `counts`, and no other
/// prefix-free code for them has a smaller weighted length.
pub open spec fn is_optimal_code(code: Seq<Seq<bool>>, counts: Seq<u128>) -> bool {
    &&& code.len() == counts.len()
    &&& is_prefix_free(code)
    &&& forall|other: Seq<Seq<bool>>|
        other.len() == counts.len() && is_prefix_free(other) ==> weighted_length(counts, code)
            <= #[trigger] weighted_length(counts, other)
}

/// The codeword lengths of a prefix-free code, weighted by `w`, cost no
/// less than merging the weights does.
pub proof fn lemma_merge_cost_is_least(w: Seq<int>, code: Seq<Seq<bool>>)
    requires
        w.len() == code.len(),
        w.len() >= 1,
        forall|k: int| 0 <= k < w.len() ==> w[k] >= 0,
        is_prefix_free(code),
    ensures
        total(products(w, lengths(code))) >= merge_cost(w),
{
    lemma_kraft(code);
    lemma_lower_bound(w, lengths(code), longest(code) as int);
}

} // verus!
