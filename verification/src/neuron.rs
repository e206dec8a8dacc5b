//! A single unit: a weighted sum of its inputs plus a bias, squashed by the
//! hyperbolic tangent. Weights and bias are leaf nodes drawn uniformly from
//! the interval from minus one to one.

use vstd::prelude::*;

use crate::scalar::ONE_BITS;
use crate::scalar::TWO_POW_NEG_63_BITS;
use crate::scalar::ZERO_BITS;
use crate::scalar::add_bits;
use crate::scalar::fmul;
use crate::scalar::from_u64;
use crate::scalar::fsub;
use crate::scalar::mul_bits;
use crate::scalar::random_word;
use crate::scalar::tanh_bits;
use crate::value::Graph;
use crate::value::Node;
use crate::value::Op;
use crate::value::Value;

verus! {

/// Every handle in `ids` points into an arena of length `len`.
pub open spec fn ids_valid(ids: Seq<Value>, len: nat) -> bool {
    forall|k: int| 0 <= k < ids.len() ==> (#[trigger] ids[k]).idx < len
}

/// The scalars held by the nodes that `ids` point at.
pub open spec fn node_vals(nodes: Seq<Node>, ids: Seq<Value>) -> Seq<u64> {
    ids.map_values(|v: Value| nodes[v.idx as int].value)
}

/// The smaller of two lengths.
pub open spec fn min_len(a: nat, b: nat) -> nat {
    if a <= b {
        a
    } else {
        b
    }
}

/// The weighted sum of the first `k` input/weight pairs: a left fold of the
/// sum of products, starting from zero.
pub open spec fn wsum_bits(xv: Seq<u64>, wv: Seq<u64>, k: nat) -> u64
    decreases k,
{
    if k == 0 {
        ZERO_BITS
    } else {
        add_bits(wsum_bits(xv, wv, (k - 1) as nat), mul_bits(xv[k - 1], wv[k - 1]))
    }
}

/// The scalar a unit produces from input values `xv`: the weighted sum over
/// as many pairs as both sides provide, plus the bias, through the
/// hyperbolic tangent.
pub open spec fn neuron_out_bits(n: Neuron, nodes: Seq<Node>, xv: Seq<u64>) -> u64 {
    tanh_bits(add_bits(
        wsum_bits(xv, node_vals(nodes, n.weights@), min_len(xv.len(), n.weights@.len())),
        nodes[n.bias.idx as int].value,
    ))
}

/// A unit's output is a function of the values its weight, bias and input
/// nodes hold, so it is unchanged when the arena merely grows.
pub proof fn lemma_neuron_out_agree(n: Neuron, g1: Seq<Node>, g2: Seq<Node>, xv: Seq<u64>)
    requires
        n.valid(g1),
        g1.len() <= g2.len(),
        forall|i: int| 0 <= i < g1.len() ==> g2[i] == g1[i],
    ensures
        neuron_out_bits(n, g2, xv) == neuron_out_bits(n, g1, xv),
{
    assert(node_vals(g2, n.weights@) =~= node_vals(g1, n.weights@));
}

/// One unit of a layer: the handles of its weight leaves and its bias leaf.
pub struct Neuron {
    pub weights: Vec<Value>,
    pub bias: Value,
}

impl Neuron {
    /// Every handle the unit holds points into the arena.
    pub open spec fn valid(&self, nodes: Seq<Node>) -> bool {
        ids_valid(self.weights@, nodes.len()) && self.bias.idx < nodes.len()
    }

    /// A fresh unit with `nin` weight leaves and a bias leaf, each drawn
    /// uniformly from the interval from minus one to one. The drawn
    /// scalars are random; everything else — fresh leaves with zero
    /// gradients, appended to an untouched arena — is promised.
    pub fn new(g: &mut Graph, nin: usize) -> (n: Neuron)
        requires
            old(g).wf(),
        ensures
            final(g).wf(),
            n.weights@.len() == nin,
            n.valid(final(g)@),
            final(g)@.len() == old(g)@.len() + nin + 1,
            forall|i: int| 0 <= i < old(g)@.len() ==> final(g)@[i] == old(g)@[i],
            forall|k: int|
                0 <= k < nin ==> {
                    let w = (#[trigger] n.weights@[k]).idx as int;
                    final(g)@[w].op == Op::Leaf && final(g)@[w].grad == ZERO_BITS
                },
            final(g)@[n.bias.idx as int].op == Op::Leaf,
            final(g)@[n.bias.idx as int].grad == ZERO_BITS,
    {
        let ghost n0 = g@.len();
        let mut weights: Vec<Value> = Vec::new();
        let mut k: usize = 0;
        while k < nin
            invariant
                k <= nin,
                g.wf(),
                g@.len() == n0 + k,
                n0 == old(g)@.len(),
                forall|i: int| 0 <= i < n0 ==> g@[i] == old(g)@[i],
                weights@.len() == k,
                forall|q: int|
                    0 <= q < k ==> {
                        let w = (#[trigger] weights@[q]).idx as int;
                        &&& w < g@.len()
                        &&& g@[w].op == Op::Leaf
                        &&& g@[w].grad == ZERO_BITS
                    },
            decreases nin - k,
        {
            let w = g.from(random_unit_bits());
            weights.push(w);
            k += 1;
        }
        let bias = g.from(random_unit_bits());
        Neuron { weights, bias }
    }

    /// The unit applied to inputs `x`: products of inputs with weights are
    /// summed pairwise over the shorter of the two sequences, the bias is
    /// added, and the result passes through the hyperbolic tangent. The
    /// output node holds exactly the scalar that [`neuron_out_bits`] gives
    /// from the input values.
    pub fn call(&self, g: &mut Graph, x: &Vec<Value>) -> (out: Value)
        requires
            old(g).wf(),
            self.valid(old(g)@),
            ids_valid(x@, old(g)@.len()),
        ensures
            final(g).wf(),
            final(g)@.len() > old(g)@.len(),
            forall|i: int| 0 <= i < old(g)@.len() ==> final(g)@[i] == old(g)@[i],
            out.idx < final(g)@.len(),
            out.idx >= old(g)@.len(),
            final(g)@[out.idx as int].grad == ZERO_BITS,
            final(g)@[out.idx as int].value == neuron_out_bits(
                *self,
                old(g)@,
                node_vals(old(g)@, x@),
            ),
    {
        let ghost n0 = g@.len();
        let ghost xv = node_vals(old(g)@, x@);
        let ghost wv = node_vals(old(g)@, self.weights@);
        let m = if x.len() < self.weights.len() {
            x.len()
        } else {
            self.weights.len()
        };
        let mut acc = g.from(ZERO_BITS);
        let mut k: usize = 0;
        while k < m
            invariant
                k <= m,
                m == min_len(x@.len(), self.weights@.len()),
                g.wf(),
                g@.len() >= n0 + 1,
                n0 == old(g)@.len(),
                forall|i: int| 0 <= i < n0 ==> g@[i] == old(g)@[i],
                ids_valid(x@, n0),
                self.valid(old(g)@),
                xv == node_vals(old(g)@, x@),
                wv == node_vals(old(g)@, self.weights@),
                acc.idx < g@.len(),
                g@[acc.idx as int].grad == ZERO_BITS,
                g@[acc.idx as int].value == wsum_bits(xv, wv, k as nat),
            decreases m - k,
        {
            let p = g.mul(x[k], self.weights[k]);
            proof {
                assert(g@[p.idx as int].value == mul_bits(xv[k as int], wv[k as int]));
            }
            acc = g.add(acc, p);
            k += 1;
        }
        let t = g.add(acc, self.bias);
        proof {
            assert(g@[t.idx as int].value == add_bits(
                wsum_bits(xv, wv, m as nat),
                old(g)@[self.bias.idx as int].value,
            ));
        }
        g.tanh(t)
    }

    /// Every parameter node of the unit: the weights in order, then the
    /// bias.
    pub fn parameters(&self) -> (ps: Vec<Value>)
        ensures
            ps@ =~= self.weights@.push(self.bias),
    {
        let mut ps: Vec<Value> = Vec::new();
        let mut k: usize = 0;
        while k < self.weights.len()
            invariant
                k <= self.weights@.len(),
                ps@ =~= self.weights@.subrange(0, k as int),
            decreases self.weights@.len() - k,
        {
            ps.push(self.weights[k]);
            k += 1;
        }
        proof {
            assert(ps@ =~= self.weights@);
        }
        ps.push(self.bias);
        ps
    }
}

/// A scalar drawn uniformly from the interval from minus one to one: a
/// random 64-bit word, converted to a double, scaled down by `2^-63` into
/// the interval from zero to two, and shifted down by one.
fn random_unit_bits() -> u64 {
    let u = random_word();
    let d = from_u64(u);
    let s = fmul(d, TWO_POW_NEG_63_BITS);
    fsub(s, ONE_BITS)
}

} // verus!
