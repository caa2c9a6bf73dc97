//! Huffman's algorithm: the code tree built from a table of symbol counts,
//! the encoder (symbol to codeword) and the decoder (bits to symbol) that
//! are derived from it.

use vstd::prelude::*;
use vstd::std_specs::iter::IteratorSpec;
use crate::bit_vec::BitVec;
use crate::code_tree::{CodeTree, is_prefix_free, later};
use crate::optimality::{
    first_min,
    lemma_first_min,
    merge_cost,
    merge_trees,
    forest_weights,
    huffman_tree,
    lemma_merge_cost_is_least,
    weights,
    weighted_length,
    is_optimal_code,
    products,
    lengths,
};
use crate::sums::{
    total,
    lemma_total_push,
    lemma_total_remove,
    lemma_total_add,
    lemma_total_zero,
    lemma_total_nonnegative,
    lemma_total_single,
    lemma_total_take,
};

verus! {

/// A node of the tree under construction: a leaf holds a symbol and its
/// count, an inner node the sum of the counts below it.
#[derive(Debug)]
enum Node {
    Leaf { count: u128, value: usize },
    Internal { count: u128, left: Box<Node>, right: Box<Node> },
}

impl Clone for Node {
    fn clone(&self) -> (node: Node)
        ensures
            node == *self,
        decreases self,
    {
        match self {
            Node::Leaf { count, value } => Node::Leaf { count: *count, value: *value },
            Node::Internal { count, left, right } => Node::Internal {
                count: *count,
                left: Box::new((**left).clone()),
                right: Box::new((**right).clone()),
            },
        }
    }
}

impl Node {
    /// The tree without its counts.
    spec fn shape(self) -> CodeTree
        decreases self,
    {
        match self {
            Node::Leaf { value, .. } => CodeTree::Leaf { symbol: value },
            Node::Internal { left, right, .. } => CodeTree::Branch {
                left: Box::new(left.shape()),
                right: Box::new(right.shape()),
            },
        }
    }

    spec fn weight(self) -> int {
        match self {
            Node::Leaf { count, .. } => count as int,
            Node::Internal { count, .. } => count as int,
        }
    }

    /// The sum of the weights of the inner nodes.
    spec fn cost(self) -> int
        decreases self,
    {
        match self {
            Node::Leaf { .. } => 0,
            Node::Internal { count, left, right } => left.cost() + right.cost() + count,
        }
    }

    /// Each leaf holds the count of its symbol, each inner node the sum of
    /// the counts of its children.
    spec fn wf(self, counts: Seq<u128>) -> bool
        decreases self,
    {
        match self {
            Node::Leaf { count, value } => value < counts.len() && count == counts[value as int],
            Node::Internal { count, left, right } => {
                &&& left.wf(counts)
                &&& right.wf(counts)
                &&& count == left.weight() + right.weight()
            },
        }
    }

    fn count(&self) -> (count: u128)
        ensures
            count == self.weight(),
    {
        match self {
            Node::Leaf { count, .. } => *count,
            Node::Internal { count, .. } => *count,
        }
    }

    fn make_encoder(&self, map: &mut Vec<BitVec>, current: &mut Vec<bool>)
        requires
            self.shape().distinct(),
            self.shape().within(old(map)@.len()),
        ensures
            final(current)@ == old(current)@,
            final(map)@.len() == old(map)@.len(),
            forall|s: usize|
                (s as int) < old(map)@.len() ==> (#[trigger] final(map)@[s as int])@ == (if self.shape().has(
                    s,
                ) {
                    old(current)@ + self.shape().code_of(s)
                } else {
                    old(map)@[s as int]@
                }),
        decreases self,
    {
        match self {
            Node::Leaf { value, .. } => {
                assert(self.shape().has(*value));
                map.set(*value, BitVec::from(current.as_slice()));
                assert(current@ + self.shape().code_of(*value) =~= current@);
            },
            Node::Internal { left, right, .. } => {
                let ghost path = current@;
                let ghost before = map@;
                proof {
                    lemma_children_distinct(self.shape());
                    lemma_children_within(self.shape(), map@.len());
                }
                current.push(true);
                left.make_encoder(map, current);
                current.pop();
                assert(current@ =~= path);
                let ghost between = map@;
                current.push(false);
                right.make_encoder(map, current);
                current.pop();
                assert(current@ =~= path);
                assert forall|s: usize| (s as int) < before.len() implies (#[trigger] map@[s as int])@ == (if self.shape().has(
                    s,
                ) {
                    path + self.shape().code_of(s)
                } else {
                    before[s as int]@
                }) by {
                    assert(self.shape().count_of(s) <= 1);
                    assert(between[s as int]@ == if left.shape().has(s) {
                        path.push(true) + left.shape().code_of(s)
                    } else {
                        before[s as int]@
                    });
                    assert(path.push(true) + left.shape().code_of(s) =~= path + (seq![true]
                        + left.shape().code_of(s)));
                    assert(path.push(false) + right.shape().code_of(s) =~= path + (seq![false]
                        + right.shape().code_of(s)));
                }
            },
        }
    }

    fn make_decoder(&self, map: &mut Vec<DecoderNode>)
        ensures
            final(map)@ == old(map)@ + flatten(self.shape(), old(map)@.len() as int),
        decreases self,
    {
        match self {
            Node::Leaf { value, .. } => {
                map.push(DecoderNode::Value(*value));
                assert(map@ =~= old(map)@ + flatten(self.shape(), old(map)@.len() as int));
            },
            Node::Internal { left, right, .. } => {
                let idx = map.len();
                map.push(DecoderNode::Jump(0));
                left.make_decoder(map);
                let jump = map.len();
                map.set(idx, DecoderNode::Jump(jump));
                right.make_decoder(map);
                proof {
                    lemma_flatten_len(left.shape(), idx + 1);
                    assert(map@ =~= old(map)@ + flatten(self.shape(), old(map)@.len() as int));
                }
            },
        }
    }
}

proof fn lemma_children_distinct(t: CodeTree)
    requires
        t.distinct(),
        t is Branch,
    ensures
        t->left.distinct(),
        t->right.distinct(),
{
    assert forall|s: usize| #[trigger] t->left.count_of(s) <= 1 by {
        assert(t.count_of(s) <= 1);
    }
    assert forall|s: usize| #[trigger] t->right.count_of(s) <= 1 by {
        assert(t.count_of(s) <= 1);
    }
}

proof fn lemma_children_within(t: CodeTree, n: nat)
    requires
        t.within(n),
        t is Branch,
    ensures
        t->left.within(n),
        t->right.within(n),
{
    assert forall|s: usize| #[trigger] t->left.has(s) implies (s as nat) < n by {
        assert(t.has(s));
    }
    assert forall|s: usize| #[trigger] t->right.has(s) implies (s as nat) < n by {
        assert(t.has(s));
    }
}

/// The terms of a subtree's weight: for each symbol, its count times the
/// number of leaves that carry it.
spec fn weight_terms(t: CodeTree, counts: Seq<u128>) -> Seq<int> {
    Seq::new(counts.len(), |s: int| counts[s] * t.count_of(s as usize))
}

/// The terms of a subtree's cost: for each symbol that it carries, its
/// count times the length of its codeword.
spec fn depth_terms(t: CodeTree, counts: Seq<u128>) -> Seq<int> {
    Seq::new(
        counts.len(),
        |s: int|
            if t.has(s as usize) {
                counts[s] * t.code_of(s as usize).len()
            } else {
                0
            },
    )
}

/// The weight of a node is the sum of the counts of its symbols, and its
/// cost the sum of count times codeword length over them.
proof fn lemma_cost(node: Node, counts: Seq<u128>)
    requires
        node.wf(counts),
        node.shape().distinct(),
        counts.len() <= usize::MAX,
    ensures
        node.weight() == total(weight_terms(node.shape(), counts)),
        node.cost() == total(depth_terms(node.shape(), counts)),
    decreases node,
{
    let t = node.shape();
    match node {
        Node::Leaf { count, value } => {
            let wt = weight_terms(t, counts);
            assert forall|s: int| 0 <= s < wt.len() && s != value implies wt[s] == 0 by {
                assert(t.count_of(s as usize) == 0);
                assert(counts[s] * 0 == 0);
            }
            assert(wt[value as int] == count) by {
                assert(t.count_of(value) == 1);
                assert(counts[value as int] * 1 == counts[value as int]);
            }
            lemma_total_single(wt, value as int);
            assert forall|s: int| 0 <= s < counts.len() implies depth_terms(t, counts)[s] == 0 by {
                assert(t.code_of(s as usize).len() == 0);
            }
            lemma_total_zero(depth_terms(t, counts));
        },
        Node::Internal { count, left, right } => {
            let l = left.shape();
            let r = right.shape();
            lemma_children_distinct(t);
            lemma_cost(*left, counts);
            lemma_cost(*right, counts);
            let wt = weight_terms(t, counts);
            assert forall|s: int| 0 <= s < counts.len() implies wt[s] == weight_terms(l, counts)[s]
                + weight_terms(r, counts)[s] by {
                let c = counts[s] as int;
                let a = l.count_of(s as usize) as int;
                let b = r.count_of(s as usize) as int;
                assert(c * (a + b) == c * a + c * b) by (nonlinear_arith);
            }
            lemma_total_add(wt, weight_terms(l, counts), weight_terms(r, counts));
            let below = Seq::new(
                counts.len(),
                |s: int| depth_terms(l, counts)[s] + depth_terms(r, counts)[s],
            );
            lemma_total_add(below, depth_terms(l, counts), depth_terms(r, counts));
            let dt = depth_terms(t, counts);
            assert forall|s: int| 0 <= s < counts.len() implies dt[s] == below[s] + wt[s] by {
                let u = s as usize;
                let c = counts[s] as int;
                assert(t.count_of(u) <= 1);
                if l.has(u) {
                    let len = l.code_of(u).len() as int;
                    assert(t.code_of(u).len() == len + 1);
                    assert(c * (len + 1) == c * len + c * 1) by (nonlinear_arith);
                } else if r.has(u) {
                    let len = r.code_of(u).len() as int;
                    assert(t.code_of(u).len() == len + 1);
                    assert(c * (len + 1) == c * len + c * 1) by (nonlinear_arith);
                } else {
                    assert(c * 0 == 0);
                }
            }
            lemma_total_add(dt, below, wt);
        },
    }
}

/// The weights of the trees of a forest, in order.
spec fn weights_of(forest: Seq<Node>) -> Seq<int> {
    Seq::new(forest.len(), |j: int| forest[j].weight())
}

/// The trees of a forest without the counts inside them, each with its
/// weight.
spec fn weighted_shapes(forest: Seq<Node>) -> Seq<(CodeTree, int)> {
    Seq::new(forest.len(), |j: int| (forest[j].shape(), forest[j].weight()))
}

/// The costs of the trees of a forest, in order.
spec fn costs_of(forest: Seq<Node>) -> Seq<int> {
    Seq::new(forest.len(), |j: int| forest[j].cost())
}

/// For each tree of a forest, the number of its leaves that carry `s`.
spec fn occurrences(forest: Seq<Node>, s: usize) -> Seq<int> {
    Seq::new(forest.len(), |j: int| forest[j].shape().count_of(s) as int)
}

/// Takes the node of least count out of the queue: among equal counts the
/// one that stands first.
fn pop_min(heap: &mut Vec<Node>) -> (node: Node)
    requires
        old(heap)@.len() > 0,
    ensures
        ({
            let i = first_min(weights_of(old(heap)@));
            &&& 0 <= i < old(heap)@.len()
            &&& node == old(heap)@[i]
            &&& final(heap)@ == old(heap)@.remove(i)
        }),
{
    let ghost w = weights_of(heap@);
    let mut best: usize = 0;
    let mut k: usize = 1;
    assert(w.take(1).len() == 1);
    while k < heap.len()
        invariant
            1 <= k <= heap@.len(),
            0 <= best < k,
            w == weights_of(heap@),
            best == first_min(w.take(k as int)),
        decreases heap@.len() - k,
    {
        proof {
            assert(w.take(k + 1).drop_last() =~= w.take(k as int));
            assert(w.take(k + 1).last() == w[k as int]);
            assert(w.take(k as int)[best as int] == w[best as int]);
        }
        if heap[k].count() < heap[best].count() {
            best = k;
        }
        k += 1;
    }
    assert(w.take(k as int) =~= w);
    heap.remove(best)
}

/// An optimal prefix code for a table of symbol counts.
///
/// Its view is the code tree: the codeword of a symbol is the path from the
/// root to its leaf.
#[derive(Debug)]
pub struct HuffmanTree {
    elements: usize,
    nodes: Node,
}

impl View for HuffmanTree {
    type V = CodeTree;

    closed spec fn view(&self) -> CodeTree {
        self.nodes.shape()
    }
}

impl Clone for HuffmanTree {
    fn clone(&self) -> (tree: HuffmanTree)
        ensures
            tree@ == self@,
            tree.symbols() == self.symbols(),
    {
        proof {
            use_type_invariant(self);
        }
        HuffmanTree { elements: self.elements, nodes: self.nodes.clone() }
    }
}

impl HuffmanTree {
    #[verifier::type_invariant]
    spec fn inv(&self) -> bool {
        &&& self.elements >= 2
        &&& self.nodes.shape().is_code_for(self.elements as nat)
    }

    /// The number of symbols of the alphabet.
    pub closed spec fn symbols(&self) -> nat {
        self.elements as nat
    }

    /// Whether a tree can be built for `counts`: there are two symbols or
    /// more, and the counts add up within 128 bits.
    pub fn accepts(counts: &[u128]) -> (ok: bool)
        ensures
            ok == (counts@.len() >= 2 && total(weights(counts@)) <= u128::MAX),
    {
        if counts.len() < 2 {
            return false;
        }
        let ghost w = weights(counts@);
        let mut sum: u128 = 0;
        let mut i: usize = 0;
        while i < counts.len()
            invariant
                i <= counts@.len(),
                w == weights(counts@),
                sum == total(w.take(i as int)),
            decreases counts@.len() - i,
        {
            proof {
                assert(w.take(i + 1).drop_last() =~= w.take(i as int));
            }
            match sum.checked_add(counts[i]) {
                Some(next) => {
                    sum = next;
                },
                None => {
                    proof {
                        lemma_total_take(w, i + 1);
                    }
                    return false;
                },
            }
            i += 1;
        }
        assert(w.take(i as int) =~= w);
        true
    }

    /// Builds the code tree for the symbols `0..counts.len()`, where
    /// `counts[s]` says how often the symbol `s` occurs.
    ///
    /// The two nodes of least count are merged until one is left. Among
    /// nodes of equal count, a symbol goes before a symbol of higher id and
    /// before every merged node, and a merged node before those made later.
    pub fn new(counts: &[u128]) -> (tree: HuffmanTree)
        requires
            counts@.len() >= 2,
            total(weights(counts@)) <= u128::MAX,
        ensures
            tree@ == huffman_tree(counts@),
            tree.symbols() == counts@.len(),
            tree@.is_code_for(counts@.len()),
            is_optimal_code(tree@.codebook(counts@.len()), counts@),
    {
        let n = counts.len();
        let mut heap: Vec<Node> = Vec::with_capacity(n);
        let mut value: usize = 0;
        while value < n
            invariant
                n == counts@.len(),
                value <= n,
                heap@.len() == value,
                forall|j: int|
                    0 <= j < value ==> #[trigger] heap@[j] == (Node::Leaf {
                        count: counts@[j],
                        value: j as usize,
                    }),
            decreases n - value,
        {
            heap.push(Node::Leaf { count: counts[value], value });
            value += 1;
        }
        proof {
            assert(weights_of(heap@) =~= weights(counts@));
            assert(weighted_shapes(heap@) =~= Seq::new(
                counts@.len(),
                |s: int| (CodeTree::Leaf { symbol: s as usize }, counts@[s] as int),
            ));
            lemma_total_zero(costs_of(heap@));
            assert forall|s: usize|
                total(#[trigger] occurrences(heap@, s)) == (if s < n {
                    1int
                } else {
                    0int
                }) by {
                if s < n {
                    lemma_total_single(occurrences(heap@, s), s as int);
                } else {
                    lemma_total_zero(occurrences(heap@, s));
                }
            }
        }
        while heap.len() > 1
            invariant
                n == counts@.len(),
                heap@.len() >= 1,
                forall|j: int| 0 <= j < heap@.len() ==> (#[trigger] heap@[j]).wf(counts@),
                forall|s: usize|
                    total(#[trigger] occurrences(heap@, s)) == (if s < n {
                        1int
                    } else {
                        0int
                    }),
                total(weights_of(heap@)) == total(weights(counts@)),
                total(weights(counts@)) <= u128::MAX,
                total(costs_of(heap@)) + merge_cost(weights_of(heap@)) == merge_cost(
                    weights(counts@),
                ),
                merge_trees(weighted_shapes(heap@)) == huffman_tree(counts@),
            decreases heap@.len(),
        {
            let ghost f0 = heap@;
            let left = pop_min(&mut heap);
            let ghost f1 = heap@;
            let right = pop_min(&mut heap);
            let ghost f2 = heap@;
            let ghost i = first_min(weights_of(f0));
            let ghost j = first_min(weights_of(f1));
            proof {
                assert(weights_of(f1) =~= weights_of(f0).remove(i));
                assert(weights_of(f2) =~= weights_of(f1).remove(j));
                lemma_total_remove(weights_of(f0), i);
                lemma_total_remove(weights_of(f1), j);
                lemma_total_nonnegative(weights_of(f2));
            }
            let merged = Node::Internal {
                count: left.count() + right.count(),
                left: Box::new(left),
                right: Box::new(right),
            };
            heap.push(merged);
            proof {
                let f3 = heap@;
                let sum = left.weight() + right.weight();
                assert(weights_of(f3) =~= weights_of(f2).push(sum));
                lemma_total_push(weights_of(f2), sum);
                assert(merge_cost(weights_of(f0)) == sum + merge_cost(weights_of(f3)));

                let m0 = weighted_shapes(f0);
                assert(forest_weights(m0) =~= weights_of(f0));
                assert(forest_weights(m0.remove(i)) =~= weights_of(f1));
                assert(weighted_shapes(f3) =~= m0.remove(i).remove(j).push(
                    (merged.shape(), merged.weight()),
                ));
                assert(merge_trees(m0) == merge_trees(weighted_shapes(f3)));

                assert(costs_of(f1) =~= costs_of(f0).remove(i));
                assert(costs_of(f2) =~= costs_of(f1).remove(j));
                assert(costs_of(f3) =~= costs_of(f2).push(merged.cost()));
                lemma_total_remove(costs_of(f0), i);
                lemma_total_remove(costs_of(f1), j);
                lemma_total_push(costs_of(f2), merged.cost());

                assert forall|s: usize|
                    total(#[trigger] occurrences(f3, s)) == (if s < n {
                        1int
                    } else {
                        0int
                    }) by {
                    let o = occurrences(f0, s);
                    assert(occurrences(f1, s) =~= o.remove(i));
                    assert(occurrences(f2, s) =~= o.remove(i).remove(j));
                    assert(occurrences(f3, s) =~= o.remove(i).remove(j).push(
                        merged.shape().count_of(s) as int,
                    ));
                    lemma_total_remove(o, i);
                    lemma_total_remove(o.remove(i), j);
                    lemma_total_push(o.remove(i).remove(j), merged.shape().count_of(s) as int);
                }
                assert forall|k: int| 0 <= k < f3.len() implies (#[trigger] f3[k]).wf(counts@) by {
                    if k < f2.len() {
                        let k1 = if k < j {
                            k
                        } else {
                            k + 1
                        };
                        let k0 = if k1 < i {
                            k1
                        } else {
                            k1 + 1
                        };
                        assert(f3[k] == f0[k0]);
                    }
                }
            }
        }
        let ghost last = heap@;
        let nodes = heap.pop().unwrap();
        proof {
            let t = nodes.shape();
            let code = t.codebook(n as nat);
            lemma_total_single(costs_of(last), 0);
            assert forall|s: usize| #[trigger]
                t.count_of(s) == (if (s as nat) < n as nat {
                    1nat
                } else {
                    0nat
                }) by {
                lemma_total_single(occurrences(last, s), 0);
            }
            t.lemma_codebook_prefix_free(n as nat);
            lemma_cost(nodes, counts@);
            let spent = products(weights(counts@), lengths(code));
            assert forall|s: int| 0 <= s < n implies #[trigger] spent[s] == depth_terms(
                t,
                counts@,
            )[s] by {
                assert(t.count_of(s as usize) == 1);
            }
            assert(spent =~= depth_terms(t, counts@));
            assert forall|other: Seq<Seq<bool>>|
                other.len() == counts@.len() && is_prefix_free(other) implies weighted_length(
                counts@,
                code,
            ) <= #[trigger] weighted_length(counts@, other) by {
                lemma_merge_cost_is_least(weights(counts@), other);
            }
        }
        HuffmanTree { elements: n, nodes }
    }

    /// Derives the encoder: the table of the codewords, by symbol.
    pub fn encoder(&self) -> (encoder: HuffmanEncoder)
        ensures
            self@.is_code_for(self.symbols()),
            encoder@ == self@.codebook(self.symbols()),
            is_prefix_free(encoder@),
            forall|s: int|
                0 <= s < encoder@.len() ==> 1 <= (#[trigger] encoder@[s]).len() < encoder@.len(),
    {
        proof {
            use_type_invariant(self);
        }
        let mut map: Vec<BitVec> = Vec::with_capacity(self.elements);
        let mut k: usize = 0;
        while k < self.elements
            invariant
                k <= self.elements,
                map@.len() == k,
            decreases self.elements - k,
        {
            map.push(BitVec::new());
            k += 1;
        }
        let mut current: Vec<bool> = Vec::new();
        proof {
            assert forall|s: usize| self.nodes.shape().count_of(s) <= 1 && (self.nodes.shape().has(s)
                ==> s < self.elements) by {
                assert(self.nodes.shape().count_of(s) == (if (s as nat) < self.elements as nat {
                    1nat
                } else {
                    0nat
                }));
            }
        }
        self.nodes.make_encoder(&mut map, &mut current);
        let encoder = HuffmanEncoder { map };
        proof {
            assert forall|s: int| 0 <= s < self.elements implies encoder@[s] == self@.code_of(
                s as usize,
            ) by {
                assert(self@.count_of(s as usize) == 1);
                assert(map@[(s as usize) as int]@ == Seq::<bool>::empty() + self@.code_of(s as usize));
                assert(Seq::<bool>::empty() + self@.code_of(s as usize) =~= self@.code_of(
                    s as usize,
                ));
            }
            assert(encoder@ =~= self@.codebook(self.symbols()));
            self@.lemma_codebook_prefix_free(self.symbols());
            assert forall|s: int| 0 <= s < encoder@.len() implies 1 <= (#[trigger] encoder@[s]).len()
                < encoder@.len() by {
                self@.lemma_code_len_bounds(self.symbols(), s as usize);
            }
        }
        encoder
    }

    /// Derives the decoder: the tree laid out as a table.
    pub fn decoder(&self) -> (decoder: HuffmanDecoder)
        ensures
            self@.is_code_for(self.symbols()),
            decoder@ == self@,
    {
        proof {
            use_type_invariant(self);
        }
        let mut map: Vec<DecoderNode> = Vec::with_capacity(
            self.elements.saturating_add(self.elements).saturating_add(1),
        );
        self.nodes.make_decoder(&mut map);
        proof {
            let t = self.nodes.shape();
            lemma_flatten_len(t, 0);
            assert(map@ =~= flatten(t, 0));
            assert(map@.len() == map.len());
            assert(is_table_of(map@, t));
            let chosen = choose|c: CodeTree| #[trigger] is_table_of(map@, c);
            lemma_flatten_len(chosen, 0);
            lemma_flatten_injective(t, chosen, 0);
            assert(is_table(map@));
        }
        HuffmanDecoder { map }
    }
}

/// The table of the codewords of a code, by symbol.
///
/// Its view is the sequence of the codewords.
#[derive(Debug)]
pub struct HuffmanEncoder {
    map: Vec<BitVec>,
}

impl Clone for HuffmanEncoder {
    fn clone(&self) -> (encoder: HuffmanEncoder)
        ensures
            encoder@ == self@,
    {
        let mut map: Vec<BitVec> = Vec::with_capacity(self.map.len());
        let mut k: usize = 0;
        while k < self.map.len()
            invariant
                k <= self.map@.len(),
                map@.len() == k,
                forall|s: int| 0 <= s < k ==> (#[trigger] map@[s])@ == self.map@[s]@,
            decreases self.map@.len() - k,
        {
            map.push(self.map[k].clone());
            k += 1;
        }
        let encoder = HuffmanEncoder { map };
        assert(encoder@ =~= self@);
        encoder
    }
}

impl View for HuffmanEncoder {
    type V = Seq<Seq<bool>>;

    closed spec fn view(&self) -> Seq<Seq<bool>> {
        Seq::new(self.map@.len(), |s: int| self.map@[s]@)
    }
}

impl HuffmanEncoder {
    /// Returns the codeword of the symbol `value`.
    pub fn encode(&self, value: usize) -> (codeword: &BitVec)
        requires
            value < self@.len(),
        ensures
            codeword@ == self@[value as int],
    {
        &self.map[value]
    }
}

/// A slot of the decoder's table. An inner node has its left child in the
/// next slot and names the slot of its right child; a leaf holds its symbol.
#[derive(Clone, Copy, Debug)]
enum DecoderNode {
    Jump(usize),
    Value(usize),
}

/// The table of a tree whose root stands in slot `base`: the root, then the
/// left subtree, then the right one.
spec fn flatten(t: CodeTree, base: int) -> Seq<DecoderNode>
    decreases t,
{
    match t {
        CodeTree::Leaf { symbol } => seq![DecoderNode::Value(symbol)],
        CodeTree::Branch { left, right } => seq![
            DecoderNode::Jump((base + 1 + left.size()) as usize),
        ] + flatten(*left, base + 1) + flatten(*right, base + 1 + left.size()),
    }
}

proof fn lemma_flatten_len(t: CodeTree, base: int)
    ensures
        flatten(t, base).len() == t.size(),
        t.size() >= 1,
    decreases t,
{
    match t {
        CodeTree::Leaf { .. } => {},
        CodeTree::Branch { left, right } => {
            lemma_flatten_len(*left, base + 1);
            lemma_flatten_len(*right, base + 1 + left.size());
        },
    }
}

/// Two trees with the same table are the same tree.
proof fn lemma_flatten_injective(a: CodeTree, b: CodeTree, base: int)
    requires
        flatten(a, base) == flatten(b, base),
        0 <= base,
        base + a.size() <= usize::MAX,
    ensures
        a == b,
    decreases a,
{
    lemma_flatten_len(a, base);
    lemma_flatten_len(b, base);
    match a {
        CodeTree::Leaf { symbol } => {
            match b {
                CodeTree::Leaf { symbol: other } => {
                    assert(flatten(a, base)[0] == DecoderNode::Value(symbol));
                    assert(flatten(b, base)[0] == DecoderNode::Value(other));
                },
                CodeTree::Branch { left, right } => {
                    lemma_flatten_len(*left, base + 1);
                    lemma_flatten_len(*right, base + 1 + left.size());
                },
            }
        },
        CodeTree::Branch { left: la, right: ra } => {
            lemma_flatten_len(*la, base + 1);
            lemma_flatten_len(*ra, base + 1 + la.size());
            match b {
                CodeTree::Leaf { .. } => {},
                CodeTree::Branch { left: lb, right: rb } => {
                    lemma_flatten_len(*lb, base + 1);
                    lemma_flatten_len(*rb, base + 1 + lb.size());
                    let fa = flatten(a, base);
                    let fb = flatten(b, base);
                    assert(fa[0] == fb[0]);
                    assert(la.size() == lb.size());
                    let mid = 1 + la.size() as int;
                    assert(flatten(*la, base + 1) =~= fa.subrange(1, mid));
                    assert(flatten(*lb, base + 1) =~= fb.subrange(1, mid));
                    assert(flatten(*ra, base + mid) =~= fa.subrange(mid, fa.len() as int));
                    assert(flatten(*rb, base + mid) =~= fb.subrange(mid, fb.len() as int));
                    lemma_flatten_injective(*la, *lb, base + 1);
                    lemma_flatten_injective(*ra, *rb, base + mid);
                },
            }
        },
    }
}

/// `table` is the table of `t`, with the root in slot 0.
spec fn is_table_of(table: Seq<DecoderNode>, t: CodeTree) -> bool {
    table == flatten(t, 0) && t.size() <= usize::MAX
}

/// `table` is the table of some tree.
spec fn is_table(table: Seq<DecoderNode>) -> bool {
    exists|t: CodeTree| #[trigger] is_table_of(table, t)
}

/// A code tree laid out as a table, for decoding bit by bit.
///
/// Its view is the code tree.
#[derive(Debug)]
pub struct HuffmanDecoder {
    map: Vec<DecoderNode>,
}

impl View for HuffmanDecoder {
    type V = CodeTree;

    closed spec fn view(&self) -> CodeTree {
        choose|t: CodeTree| #[trigger] is_table_of(self.map@, t)
    }
}

impl Clone for HuffmanDecoder {
    fn clone(&self) -> (decoder: HuffmanDecoder)
        ensures
            decoder@ == self@,
    {
        proof {
            use_type_invariant(self);
        }
        let map = self.map.clone();
        proof {
            assert(map@ =~= self.map@);
            let t = choose|t: CodeTree| #[trigger] is_table_of(self.map@, t);
            assert(is_table_of(map@, t));
            assert(is_table(map@));
        }
        HuffmanDecoder { map }
    }
}

impl HuffmanDecoder {
    #[verifier::type_invariant]
    spec fn inv(&self) -> bool {
        is_table(self.map@)
    }

    /// Reads one codeword from `input` and returns its symbol. Takes from
    /// `input` the bits of that codeword and no more.
    pub fn decode<I>(&self, input: &mut I) -> (symbol: usize) where I: Iterator<Item = bool>
        requires
            (*old(input)).obeys_prophetic_iter_laws(),
            self@.walk((*old(input)).remaining()) is Some,
        ensures
            ({
                let before = (*old(input)).remaining();
                let after = (*final(input)).remaining();
                let used = before.len() - after.len();
                &&& 0 <= used
                &&& self@.walk(before) == Some((symbol, used as nat))
                &&& after == before.skip(used)
            }),
    {
        proof {
            use_type_invariant(self);
        }
        let ghost tree = self@;
        let ghost bits = (*input).remaining();
        let ghost mut cur = tree;
        let ghost mut used: int = 0;
        let mut idx: usize = 0;
        let slots = self.map.len();
        proof {
            lemma_flatten_len(tree, 0);
            assert(self.map@.subrange(0, tree.size() as int) =~= self.map@);
            assert(bits.skip(0) =~= bits);
        }
        loop
            invariant
                (*input).obeys_prophetic_iter_laws(),
                tree == self@,
                bits == (*old(input)).remaining(),
                slots == self.map@.len(),
                idx + cur.size() <= self.map@.len(),
                self.map@.subrange(idx as int, idx + cur.size()) == flatten(cur, idx as int),
                0 <= used <= bits.len(),
                (*input).remaining() == bits.skip(used),
                cur.walk((*input).remaining()) is Some,
                tree.walk(bits) == later(cur.walk((*input).remaining()), used as nat),
            decreases cur.size(),
        {
            proof {
                lemma_flatten_len(cur, idx as int);
                assert(self.map@[idx as int] == self.map@.subrange(idx as int, idx + cur.size())[0]);
            }
            match self.map[idx] {
                DecoderNode::Jump(right) => {
                    let ghost rest = (*input).remaining();
                    let bit = input.next().unwrap();
                    proof {
                        assert(cur is Branch);
                        let l = *cur->left;
                        let r = *cur->right;
                        lemma_flatten_len(l, idx + 1);
                        lemma_flatten_len(r, idx + 1 + l.size());
                        assert((*input).remaining() =~= rest.skip(1));
                        assert(rest.skip(1) =~= bits.skip(used + 1));
                        let f = flatten(cur, idx as int);
                        let mid = 1 + l.size() as int;
                        assert(f.subrange(1, mid) =~= flatten(l, idx + 1));
                        assert(f.subrange(mid, f.len() as int) =~= flatten(r, idx + mid));
                        assert(self.map@.subrange(idx + 1, idx + mid) =~= f.subrange(1, mid));
                        assert(self.map@.subrange(idx + mid, idx + cur.size()) =~= f.subrange(
                            mid,
                            f.len() as int,
                        ));
                        used = used + 1;
                        cur = if bit {
                            l
                        } else {
                            r
                        };
                    }
                    if bit {
                        idx += 1;
                    } else {
                        idx = right;
                    }
                },
                DecoderNode::Value(value) => {
                    assert(cur is Leaf);
                    return value;
                },
            }
        }
    }
}

} // verus!
