//! Sums over finite sequences of integers, and how they change when an
//! entry is appended, replaced or removed.

use vstd::prelude::*;

verus! {

/// The sum of the entries of `s`.
pub open spec fn total(s: Seq<int>) -> int
    decreases s.len(),
{
    if s.len() == 0 {
        0
    } else {
        total(s.drop_last()) + s.last()
    }
}

pub proof fn lemma_total_push(s: Seq<int>, x: int)
    ensures
        total(s.push(x)) == total(s) + x,
{
    assert(s.push(x).drop_last() =~= s);
}

pub proof fn lemma_total_update(s: Seq<int>, i: int, x: int)
    requires
        0 <= i < s.len(),
    ensures
        total(s.update(i, x)) == total(s) - s[i] + x,
    decreases s.len(),
{
    let u = s.update(i, x);
    if i == s.len() - 1 {
        assert(u.drop_last() =~= s.drop_last());
    } else {
        lemma_total_update(s.drop_last(), i, x);
        assert(u.drop_last() =~= s.drop_last().update(i, x));
    }
}

pub proof fn lemma_total_remove(s: Seq<int>, i: int)
    requires
        0 <= i < s.len(),
    ensures
        total(s.remove(i)) == total(s) - s[i],
    decreases s.len(),
{
    let r = s.remove(i);
    if i == s.len() - 1 {
        assert(r =~= s.drop_last());
    } else {
        lemma_total_remove(s.drop_last(), i);
        assert(r.drop_last() =~= s.drop_last().remove(i));
        assert(r.last() == s.last());
    }
}

/// Sums of sequences that agree entry by entry up to addition.
pub proof fn lemma_total_add(a: Seq<int>, b: Seq<int>, c: Seq<int>)
    requires
        a.len() == b.len(),
        a.len() == c.len(),
        forall|k: int| 0 <= k < a.len() ==> a[k] == b[k] + c[k],
    ensures
        total(a) == total(b) + total(c),
    decreases a.len(),
{
    if a.len() > 0 {
        lemma_total_add(a.drop_last(), b.drop_last(), c.drop_last());
    }
}

pub proof fn lemma_total_le(a: Seq<int>, b: Seq<int>)
    requires
        a.len() == b.len(),
        forall|k: int| 0 <= k < a.len() ==> a[k] <= b[k],
    ensures
        total(a) <= total(b),
    decreases a.len(),
{
    if a.len() > 0 {
        lemma_total_le(a.drop_last(), b.drop_last());
    }
}

pub proof fn lemma_total_zero(s: Seq<int>)
    requires
        forall|k: int| 0 <= k < s.len() ==> s[k] == 0,
    ensures
        total(s) == 0,
    decreases s.len(),
{
    if s.len() > 0 {
        lemma_total_zero(s.drop_last());
    }
}

pub proof fn lemma_total_nonnegative(s: Seq<int>)
    requires
        forall|k: int| 0 <= k < s.len() ==> s[k] >= 0,
    ensures
        total(s) >= 0,
    decreases s.len(),
{
    if s.len() > 0 {
        lemma_total_nonnegative(s.drop_last());
    }
}

/// Where no entry is negative, the sum of the first `i` entries is no more
/// than the sum of all.
pub proof fn lemma_total_take(s: Seq<int>, i: int)
    requires
        0 <= i <= s.len(),
        forall|k: int| 0 <= k < s.len() ==> s[k] >= 0,
    ensures
        total(s.take(i)) <= total(s),
    decreases s.len(),
{
    if i == s.len() {
        assert(s.take(i) =~= s);
    } else {
        lemma_total_take(s.drop_last(), i);
        assert(s.drop_last().take(i) =~= s.take(i));
    }
}

/// A sequence whose entries all equal `c` sums to `c` times its length.
pub proof fn lemma_total_constant(s: Seq<int>, c: int)
    requires
        forall|k: int| 0 <= k < s.len() ==> s[k] == c,
    ensures
        total(s) == c * s.len(),
    decreases s.len(),
{
    if s.len() > 0 {
        lemma_total_constant(s.drop_last(), c);
        assert(c * (s.len() - 1) + c == c * s.len()) by (nonlinear_arith);
    } else {
        assert(c * 0 == 0);
    }
}

/// A sequence with at most one entry that is not zero sums to that entry.
pub proof fn lemma_total_single(s: Seq<int>, i: int)
    requires
        0 <= i < s.len(),
        forall|k: int| 0 <= k < s.len() && k != i ==> s[k] == 0,
    ensures
        total(s) == s[i],
{
    lemma_total_remove(s, i);
    lemma_total_zero(s.remove(i));
}

/// Where every entry is a multiple of `m`, so is the sum.
pub proof fn lemma_total_multiple(s: Seq<int>, m: int)
    requires
        m > 0,
        forall|k: int| 0 <= k < s.len() ==> s[k] % m == 0,
    ensures
        total(s) % m == 0,
    decreases s.len(),
{
    vstd::arithmetic::div_mod::lemma_small_mod(0, m as nat);
    if s.len() > 0 {
        lemma_total_multiple(s.drop_last(), m);
        assert(s.last() == s[s.len() - 1]);
        vstd::arithmetic::div_mod::lemma_add_mod_noop(total(s.drop_last()), s.last(), m);
    }
}

} // verus!
