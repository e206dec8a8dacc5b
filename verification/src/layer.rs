//! A layer: a row of independent units over one shared input vector.

use vstd::prelude::*;

use crate::scalar::ZERO_BITS;
use crate::neuron::Neuron;
use crate::neuron::ids_valid;
use crate::neuron::lemma_neuron_out_agree;
use crate::neuron::neuron_out_bits;
use crate::neuron::node_vals;
use crate::value::Graph;
use crate::value::Node;
use crate::value::Value;

verus! {

/// The values a layer produces from input values `xv`: one unit output per
/// neuron, each over the same inputs.
pub open spec fn layer_out_bits(l: Layer, nodes: Seq<Node>, xv: Seq<u64>) -> Seq<u64> {
    Seq::new(l.neurons@.len(), |i: int| neuron_out_bits(l.neurons@[i], nodes, xv))
}

/// A layer's outputs are a function of the values its parameter nodes hold,
/// so they are unchanged when the arena merely grows.
pub proof fn lemma_layer_out_agree(l: Layer, g1: Seq<Node>, g2: Seq<Node>, xv: Seq<u64>)
    requires
        l.valid(g1),
        g1.len() <= g2.len(),
        forall|i: int| 0 <= i < g1.len() ==> g2[i] == g1[i],
    ensures
        layer_out_bits(l, g2, xv) =~= layer_out_bits(l, g1, xv),
{
    assert forall|i: int| 0 <= i < l.neurons@.len() implies neuron_out_bits(
        l.neurons@[i],
        g2,
        xv,
    ) == neuron_out_bits(l.neurons@[i], g1, xv) by {
        assert(l.neurons@[i].valid(g1));
        lemma_neuron_out_agree(l.neurons@[i], g1, g2, xv);
    }
}

/// The parameter nodes of one unit: its weights in order, then its bias.
pub open spec fn neuron_params(n: Neuron) -> Seq<Value> {
    n.weights@.push(n.bias)
}

/// The parameter nodes of a row of units, concatenated in order.
pub open spec fn params_of_neurons(ns: Seq<Neuron>) -> Seq<Value>
    decreases ns.len(),
{
    if ns.len() == 0 {
        Seq::empty()
    } else {
        params_of_neurons(ns.drop_last()) + neuron_params(ns.last())
    }
}

/// A row of units that all read the same input vector.
pub struct Layer {
    pub neurons: Vec<Neuron>,
}

impl Layer {
    /// Every handle every unit holds points into the arena.
    pub open spec fn valid(&self, nodes: Seq<Node>) -> bool {
        forall|i: int| 0 <= i < self.neurons@.len() ==> (#[trigger] self.neurons@[i]).valid(nodes)
    }

    /// A fresh layer of `nout` units over `nin` inputs each.
    pub fn new(g: &mut Graph, nin: usize, nout: usize) -> (l: Layer)
        requires
            old(g).wf(),
        ensures
            final(g).wf(),
            l.neurons@.len() == nout,
            l.valid(final(g)@),
            forall|i: int| 0 <= i < nout ==> (#[trigger] l.neurons@[i]).weights@.len() == nin,
            final(g)@.len() >= old(g)@.len(),
            forall|i: int| 0 <= i < old(g)@.len() ==> final(g)@[i] == old(g)@[i],
    {
        let ghost n0 = g@.len();
        let mut neurons: Vec<Neuron> = Vec::new();
        let mut i: usize = 0;
        while i < nout
            invariant
                i <= nout,
                g.wf(),
                g@.len() >= n0,
                n0 == old(g)@.len(),
                forall|q: int| 0 <= q < n0 ==> g@[q] == old(g)@[q],
                neurons@.len() == i,
                forall|q: int| 0 <= q < i ==> (#[trigger] neurons@[q]).valid(g@),
                forall|q: int| 0 <= q < i ==> (#[trigger] neurons@[q]).weights@.len() == nin,
            decreases nout - i,
        {
            let ghost pre = g@;
            let n = Neuron::new(g, nin);
            proof {
                assert forall|q: int| 0 <= q < i + 1 implies (#[trigger] neurons@.push(n)[q]).valid(
                    g@,
                ) by {
                    if q < i {
                        assert(neurons@[q].valid(pre));
                    }
                }
            }
            neurons.push(n);
            i += 1;
        }
        Layer { neurons }
    }

    /// The layer applied to inputs `x`: one output node per unit, each
    /// holding exactly the scalar its unit computes from the input values.
    pub fn call(&self, g: &mut Graph, x: &Vec<Value>) -> (outs: Vec<Value>)
        requires
            old(g).wf(),
            self.valid(old(g)@),
            ids_valid(x@, old(g)@.len()),
        ensures
            final(g).wf(),
            final(g)@.len() >= old(g)@.len(),
            forall|i: int| 0 <= i < old(g)@.len() ==> final(g)@[i] == old(g)@[i],
            outs@.len() == self.neurons@.len(),
            ids_valid(outs@, final(g)@.len()),
            forall|i: int|
                0 <= i < outs@.len() ==> final(g)@[(#[trigger] outs@[i]).idx as int].grad
                    == ZERO_BITS,
            forall|i: int|
                0 <= i < outs@.len() ==> final(g)@[(#[trigger] outs@[i]).idx as int].value
                    == layer_out_bits(*self, old(g)@, node_vals(old(g)@, x@))[i],
    {
        let ghost n0 = g@.len();
        let ghost xv = node_vals(old(g)@, x@);
        let mut outs: Vec<Value> = Vec::new();
        let mut i: usize = 0;
        while i < self.neurons.len()
            invariant
                i <= self.neurons@.len(),
                g.wf(),
                g@.len() >= n0,
                n0 == old(g)@.len(),
                forall|q: int| 0 <= q < n0 ==> g@[q] == old(g)@[q],
                self.valid(old(g)@),
                ids_valid(x@, n0),
                xv == node_vals(old(g)@, x@),
                outs@.len() == i,
                forall|q: int| 0 <= q < i ==> (#[trigger] outs@[q]).idx < g@.len(),
                forall|q: int|
                    0 <= q < i ==> g@[(#[trigger] outs@[q]).idx as int].grad == ZERO_BITS,
                forall|q: int|
                    0 <= q < i ==> g@[(#[trigger] outs@[q]).idx as int].value == neuron_out_bits(
                        self.neurons@[q],
                        old(g)@,
                        xv,
                    ),
            decreases self.neurons@.len() - i,
        {
            let ghost pre = g@;
            proof {
                assert(self.neurons@[i as int].valid(old(g)@));
                assert(self.neurons@[i as int].valid(pre));
            }
            let o = self.neurons[i].call(g, x);
            proof {
                assert(node_vals(pre, x@) =~= xv);
                lemma_neuron_out_agree(self.neurons@[i as int], old(g)@, pre, xv);
            }
            outs.push(o);
            i += 1;
        }
        proof {
            assert forall|i: int| 0 <= i < outs@.len() implies g@[(#[trigger] outs@[i]).idx
                as int].value == layer_out_bits(*self, old(g)@, xv)[i] by {
                assert(g@[outs@[i].idx as int].value == neuron_out_bits(
                    self.neurons@[i],
                    old(g)@,
                    xv,
                ));
            }
        }
        outs
    }

    /// The units of the layer.
    pub fn neurons(&self) -> (ns: &Vec<Neuron>)
        ensures
            ns@ == self.neurons@,
    {
        &self.neurons
    }

    /// Every parameter node of the layer: each unit's weights then bias,
    /// unit by unit.
    pub fn parameters(&self) -> (ps: Vec<Value>)
        ensures
            ps@ =~= params_of_neurons(self.neurons@),
    {
        let mut ps: Vec<Value> = Vec::new();
        let mut i: usize = 0;
        while i < self.neurons.len()
            invariant
                i <= self.neurons@.len(),
                ps@ =~= params_of_neurons(self.neurons@.subrange(0, i as int)),
            decreases self.neurons@.len() - i,
        {
            let mut unit = self.neurons[i].parameters();
            ps.append(&mut unit);
            proof {
                let pre = self.neurons@.subrange(0, i as int);
                let now = self.neurons@.subrange(0, i + 1);
                assert(now.drop_last() =~= pre);
                assert(now.last() == self.neurons@[i as int]);
            }
            i += 1;
        }
        proof {
            assert(self.neurons@.subrange(0, self.neurons@.len() as int) =~= self.neurons@);
        }
        ps
    }
}

} // verus!
