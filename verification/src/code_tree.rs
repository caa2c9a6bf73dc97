//! The mathematical model of a prefix code: a binary tree with a symbol at
//! each leaf, the codeword of a symbol being the path from the root to its
//! leaf (`true` for a step to the left, `false` for a step to the right).

use vstd::prelude::*;
use crate::sums::{total, lemma_total_add, lemma_total_single, lemma_total_constant};

verus! {

/// A binary tree whose leaves carry symbol ids.
pub enum CodeTree {
    Leaf { symbol: usize },
    Branch { left: Box<CodeTree>, right: Box<CodeTree> },
}

/// No codeword of `code` is a prefix of the codeword of another symbol.
pub open spec fn is_prefix_free(code: Seq<Seq<bool>>) -> bool {
    forall|i: int, j: int|
        0 <= i < code.len() && 0 <= j < code.len() && i != j ==> !(#[trigger] code[i]).is_prefix_of(
            #[trigger] code[j],
        )
}

/// What a walk found, after `steps` more bits than it counted itself.
pub open spec fn later(found: Option<(usize, nat)>, steps: nat) -> Option<(usize, nat)> {
    match found {
        Some((symbol, used)) => Some((symbol, used + steps)),
        None => None,
    }
}

impl CodeTree {
    /// The number of leaves that carry the symbol `s`.
    pub open spec fn count_of(self, s: usize) -> nat
        decreases self,
    {
        match self {
            CodeTree::Leaf { symbol } => if symbol == s {
                1
            } else {
                0
            },
            CodeTree::Branch { left, right } => left.count_of(s) + right.count_of(s),
        }
    }

    /// Whether some leaf carries the symbol `s`.
    pub open spec fn has(self, s: usize) -> bool {
        self.count_of(s) > 0
    }

    /// The number of nodes, leaves and branches together.
    pub open spec fn size(self) -> nat
        decreases self,
    {
        match self {
            CodeTree::Leaf { .. } => 1,
            CodeTree::Branch { left, right } => 1 + left.size() + right.size(),
        }
    }

    /// The number of leaves.
    pub open spec fn leaves(self) -> nat
        decreases self,
    {
        match self {
            CodeTree::Leaf { .. } => 1,
            CodeTree::Branch { left, right } => left.leaves() + right.leaves(),
        }
    }

    /// Every leaf carries a symbol below `n`.
    pub open spec fn within(self, n: nat) -> bool {
        forall|s: usize| #[trigger] self.has(s) ==> (s as nat) < n
    }

    /// No symbol is carried by two leaves.
    pub open spec fn distinct(self) -> bool {
        forall|s: usize| #[trigger] self.count_of(s) <= 1
    }

    /// The tree is a code for the alphabet `0..n`: each of these symbols is
    /// carried by exactly one leaf, and no other symbol by any.
    pub open spec fn is_code_for(self, n: nat) -> bool {
        forall|s: usize| #[trigger]
            self.count_of(s) == (if (s as nat) < n {
                1nat
            } else {
                0nat
            })
    }

    /// The codeword of `s`: the path from the root to the leftmost leaf that
    /// carries it.
    pub open spec fn code_of(self, s: usize) -> Seq<bool>
        decreases self,
    {
        match self {
            CodeTree::Leaf { .. } => Seq::empty(),
            CodeTree::Branch { left, right } => if left.has(s) {
                seq![true] + left.code_of(s)
            } else {
                seq![false] + right.code_of(s)
            },
        }
    }

    /// The codewords of the symbols `0..n`, indexed by symbol.
    pub open spec fn codebook(self, n: nat) -> Seq<Seq<bool>> {
        Seq::new(n, |s: int| self.code_of(s as usize))
    }

    /// Follows `bits` down from the root. Gives the symbol of the leaf that
    /// is reached and the number of bits that led there, or `None` where the
    /// bits run out at a branch.
    pub open spec fn walk(self, bits: Seq<bool>) -> Option<(usize, nat)>
        decreases self,
    {
        match self {
            CodeTree::Leaf { symbol } => Some((symbol, 0nat)),
            CodeTree::Branch { left, right } => if bits.len() == 0 {
                None
            } else {
                later(
                    if bits[0] {
                        left.walk(bits.skip(1))
                    } else {
                        right.walk(bits.skip(1))
                    },
                    1,
                )
            },
        }
    }

    /// Walking down a symbol's codeword, whatever follows it, ends at that
    /// symbol and uses the bits of the codeword only.
    pub proof fn lemma_walk_code(self, s: usize, rest: Seq<bool>)
        requires
            self.has(s),
        ensures
            self.walk(self.code_of(s) + rest) == Some((s, self.code_of(s).len())),
        decreases self,
    {
        match self {
            CodeTree::Leaf { .. } => {},
            CodeTree::Branch { left, right } => {
                let bits = self.code_of(s) + rest;
                if left.has(s) {
                    left.lemma_walk_code(s, rest);
                    assert(bits.skip(1) =~= left.code_of(s) + rest);
                    assert(bits[0]);
                } else {
                    right.lemma_walk_code(s, rest);
                    assert(bits.skip(1) =~= right.code_of(s) + rest);
                    assert(!bits[0]);
                }
            },
        }
    }

    /// The codewords of two different symbols of the tree part ways: neither
    /// is a prefix of the other.
    pub proof fn lemma_codes_diverge(self, a: usize, b: usize)
        requires
            self.has(a),
            self.has(b),
            a != b,
        ensures
            !self.code_of(a).is_prefix_of(self.code_of(b)),
        decreases self,
    {
        match self {
            CodeTree::Leaf { .. } => {},
            CodeTree::Branch { left, right } => {
                let ca = self.code_of(a);
                let cb = self.code_of(b);
                if ca.is_prefix_of(cb) {
                    assert(ca[0] == cb.subrange(0, ca.len() as int)[0]);
                    if left.has(a) {
                        assert(left.has(b));
                        left.lemma_codes_diverge(a, b);
                        assert(left.code_of(a) =~= ca.skip(1));
                        assert(left.code_of(b) =~= cb.skip(1));
                        assert(ca.skip(1) =~= cb.skip(1).subrange(0, ca.len() - 1));
                    } else {
                        assert(!left.has(b));
                        right.lemma_codes_diverge(a, b);
                        assert(right.code_of(a) =~= ca.skip(1));
                        assert(right.code_of(b) =~= cb.skip(1));
                        assert(ca.skip(1) =~= cb.skip(1).subrange(0, ca.len() - 1));
                    }
                }
            },
        }
    }

    /// A codeword is shorter than the tree has leaves.
    pub proof fn lemma_code_len(self, s: usize)
        ensures
            self.code_of(s).len() < self.leaves(),
        decreases self,
    {
        match self {
            CodeTree::Leaf { .. } => {},
            CodeTree::Branch { left, right } => {
                left.lemma_code_len(s);
                right.lemma_code_len(s);
            },
        }
    }

    /// The leaves of a tree are as many as the symbols they carry, each
    /// counted as often as it occurs.
    pub proof fn lemma_leaves_counted(self, n: nat)
        requires
            self.within(n),
            n <= usize::MAX,
        ensures
            self.leaves() == total(Seq::new(n, |s: int| self.count_of(s as usize) as int)),
        decreases self,
    {
        let counted = Seq::new(n, |s: int| self.count_of(s as usize) as int);
        match self {
            CodeTree::Leaf { symbol } => {
                assert(self.has(symbol));
                lemma_total_single(counted, symbol as int);
            },
            CodeTree::Branch { left, right } => {
                assert forall|s: usize| #[trigger] left.has(s) implies (s as nat) < n by {
                    assert(self.has(s));
                }
                assert forall|s: usize| #[trigger] right.has(s) implies (s as nat) < n by {
                    assert(self.has(s));
                }
                left.lemma_leaves_counted(n);
                right.lemma_leaves_counted(n);
                lemma_total_add(
                    counted,
                    Seq::new(n, |s: int| left.count_of(s as usize) as int),
                    Seq::new(n, |s: int| right.count_of(s as usize) as int),
                );
            },
        }
    }

    /// In a code for two or more symbols every codeword has at least one
    /// bit, and fewer bits than there are symbols.
    pub proof fn lemma_code_len_bounds(self, n: nat, s: usize)
        requires
            self.is_code_for(n),
            2 <= n <= usize::MAX,
            (s as nat) < n,
        ensures
            1 <= self.code_of(s).len() < n,
    {
        assert forall|a: usize| #[trigger] self.has(a) implies (a as nat) < n by {
            assert(self.count_of(a) == (if (a as nat) < n {
                1nat
            } else {
                0nat
            }));
        }
        self.lemma_leaves_counted(n);
        let counted = Seq::new(n, |a: int| self.count_of(a as usize) as int);
        assert forall|a: int| 0 <= a < n implies counted[a] == 1 by {
            assert(self.count_of(a as usize) == 1);
        }
        lemma_total_constant(counted, 1);
        self.lemma_code_len(s);
        assert(self.count_of(0) == 1);
        assert(self.count_of(1) == 1);
    }

    /// Unique decodability: in the codebook of a code for `0..n`, no
    /// codeword is a prefix of another symbol's codeword.
    pub proof fn lemma_codebook_prefix_free(self, n: nat)
        requires
            self.is_code_for(n),
            n <= usize::MAX,
        ensures
            is_prefix_free(self.codebook(n)),
    {
        let code = self.codebook(n);
        assert forall|i: int, j: int|
            0 <= i < code.len() && 0 <= j < code.len() && i != j implies !(#[trigger] code[i]).is_prefix_of(
            #[trigger] code[j],
        ) by {
            assert(self.count_of(i as usize) == 1);
            assert(self.count_of(j as usize) == 1);
            self.lemma_codes_diverge(i as usize, j as usize);
        }
    }

    /// Round trip: walking down the codeword that the codebook holds for a
    /// symbol of the alphabet gives that symbol back and uses every bit.
    pub proof fn lemma_round_trip(self, n: nat, s: usize)
        requires
            self.is_code_for(n),
            (s as nat) < n,
        ensures
            self.walk(self.codebook(n)[s as int]) == Some((s, self.codebook(n)[s as int].len())),
    {
        assert(self.count_of(s) == 1);
        self.lemma_walk_code(s, Seq::empty());
        assert(self.code_of(s) + Seq::<bool>::empty() =~= self.code_of(s));
    }
}

} // verus!
