//! A multi-layer composition: each layer reads the previous layer's
//! outputs, the first reads the caller's inputs.

use vstd::prelude::*;

use crate::layer::Layer;
use crate::layer::layer_out_bits;
use crate::layer::lemma_layer_out_agree;
use crate::layer::params_of_neurons;
use crate::neuron::ids_valid;
use crate::neuron::node_vals;
use crate::value::Graph;
use crate::value::Node;
use crate::value::Value;

verus! {

/// The values the whole network produces from input values `xv`: each
/// layer's outputs, folded left to right.
pub open spec fn mlp_out_bits(layers: Seq<Layer>, nodes: Seq<Node>, xv: Seq<u64>) -> Seq<u64>
    decreases layers.len(),
{
    if layers.len() == 0 {
        xv
    } else {
        mlp_out_bits(layers.drop_first(), nodes, layer_out_bits(layers.first(), nodes, xv))
    }
}

/// The parameter nodes of a stack of layers, concatenated in order.
pub open spec fn params_of_layers(ls: Seq<Layer>) -> Seq<Value>
    decreases ls.len(),
{
    if ls.len() == 0 {
        Seq::empty()
    } else {
        params_of_layers(ls.drop_last()) + params_of_neurons(ls.last().neurons@)
    }
}

/// A layer keeps pointing into the arena when the arena merely grows.
pub proof fn lemma_layer_valid_grow(l: Layer, g1: Seq<Node>, g2: Seq<Node>)
    requires
        l.valid(g1),
        g1.len() <= g2.len(),
    ensures
        l.valid(g2),
{
    assert forall|i: int| 0 <= i < l.neurons@.len() implies (#[trigger] l.neurons@[i]).valid(
        g2,
    ) by {
        assert(l.neurons@[i].valid(g1));
        assert forall|k: int|
            0 <= k < l.neurons@[i].weights@.len() implies (#[trigger] l.neurons@[i].weights@[k]).idx
            < g2.len() by {
            assert(l.neurons@[i].weights@[k].idx < g1.len());
        }
    }
}

/// The whole feed-forward network: a stack of layers.
pub struct MLP {
    pub layers: Vec<Layer>,
}

impl MLP {
    /// Every handle every layer holds points into the arena.
    pub open spec fn valid(&self, nodes: Seq<Node>) -> bool {
        forall|i: int| 0 <= i < self.layers@.len() ==> (#[trigger] self.layers@[i]).valid(nodes)
    }

    /// A fresh network: one layer per requested width, the first over `nin`
    /// inputs, each further layer over the previous layer's width.
    pub fn new(g: &mut Graph, nin: usize, nouts: Vec<usize>) -> (m: MLP)
        requires
            old(g).wf(),
        ensures
            final(g).wf(),
            m.layers@.len() == nouts@.len(),
            m.valid(final(g)@),
            forall|i: int|
                0 <= i < nouts@.len() ==> (#[trigger] m.layers@[i]).neurons@.len() == nouts@[i],
            forall|i: int, q: int|
                0 <= i < nouts@.len() && 0 <= q < nouts@[i] ==> (#[trigger] m.layers@[i].neurons@[q]).weights@.len()
                    == (if i == 0 {
                    nin as int
                } else {
                    nouts@[i - 1] as int
                }),
            final(g)@.len() >= old(g)@.len(),
            forall|i: int| 0 <= i < old(g)@.len() ==> final(g)@[i] == old(g)@[i],
    {
        let ghost n0 = g@.len();
        let mut layers: Vec<Layer> = Vec::new();
        let mut prev = nin;
        let mut i: usize = 0;
        while i < nouts.len()
            invariant
                i <= nouts@.len(),
                g.wf(),
                g@.len() >= n0,
                n0 == old(g)@.len(),
                forall|q: int| 0 <= q < n0 ==> g@[q] == old(g)@[q],
                prev == (if i == 0 {
                    nin as int
                } else {
                    nouts@[i - 1] as int
                }),
                layers@.len() == i,
                forall|q: int| 0 <= q < i ==> (#[trigger] layers@[q]).valid(g@),
                forall|q: int| 0 <= q < i ==> (#[trigger] layers@[q]).neurons@.len() == nouts@[q],
                forall|q: int, r: int|
                    0 <= q < i && 0 <= r < nouts@[q] ==> (#[trigger] layers@[q].neurons@[r]).weights@.len()
                        == (if q == 0 {
                        nin as int
                    } else {
                        nouts@[q - 1] as int
                    }),
            decreases nouts@.len() - i,
        {
            let ghost pre = g@;
            let l = Layer::new(g, prev, nouts[i]);
            proof {
                assert forall|q: int| 0 <= q < i implies (#[trigger] layers@[q]).valid(g@) by {
                    lemma_layer_valid_grow(layers@[q], pre, g@);
                }
            }
            layers.push(l);
            prev = nouts[i];
            i += 1;
        }
        MLP { layers }
    }

    /// The network applied to inputs `x`: the layers run in order, each on
    /// the previous outputs. The returned nodes hold exactly the values of
    /// the folded forward computation on the input values.
    pub fn call(&self, g: &mut Graph, x: &Vec<Value>) -> (outs: Vec<Value>)
        requires
            old(g).wf(),
            self.valid(old(g)@),
            ids_valid(x@, old(g)@.len()),
        ensures
            final(g).wf(),
            final(g)@.len() >= old(g)@.len(),
            forall|i: int| 0 <= i < old(g)@.len() ==> final(g)@[i] == old(g)@[i],
            ids_valid(outs@, final(g)@.len()),
            node_vals(final(g)@, outs@) =~= mlp_out_bits(
                self.layers@,
                old(g)@,
                node_vals(old(g)@, x@),
            ),
    {
        let ghost n0 = g@.len();
        let ghost xv0 = node_vals(old(g)@, x@);
        let ghost total = mlp_out_bits(self.layers@, old(g)@, xv0);
        let mut z: Vec<Value> = Vec::new();
        let mut k: usize = 0;
        while k < x.len()
            invariant
                k <= x@.len(),
                z@ =~= x@.subrange(0, k as int),
            decreases x@.len() - k,
        {
            z.push(x[k]);
            k += 1;
        }
        proof {
            assert(z@ =~= x@);
            assert(node_vals(g@, z@) =~= xv0);
            assert(self.layers@.subrange(0, self.layers@.len() as int) =~= self.layers@);
        }
        let mut i: usize = 0;
        while i < self.layers.len()
            invariant
                i <= self.layers@.len(),
                g.wf(),
                g@.len() >= n0,
                n0 == old(g)@.len(),
                forall|q: int| 0 <= q < n0 ==> g@[q] == old(g)@[q],
                self.valid(old(g)@),
                ids_valid(z@, g@.len()),
                total == mlp_out_bits(self.layers@, old(g)@, xv0),
                mlp_out_bits(
                    self.layers@.subrange(i as int, self.layers@.len() as int),
                    old(g)@,
                    node_vals(g@, z@),
                ) == total,
            decreases self.layers@.len() - i,
        {
            let ghost pre = g@;
            let ghost zv = node_vals(pre, z@);
            proof {
                assert(self.layers@[i as int].valid(old(g)@));
                lemma_layer_valid_grow(self.layers@[i as int], old(g)@, pre);
            }
            let outs = self.layers[i].call(g, &z);
            proof {
                let l = self.layers@[i as int];
                assert(node_vals(pre, z@) == zv);
                lemma_layer_out_agree(l, old(g)@, pre, zv);
                assert(node_vals(g@, outs@) =~= layer_out_bits(l, old(g)@, zv));
                let rest = self.layers@.subrange(i as int, self.layers@.len() as int);
                assert(rest.first() == l);
                assert(rest.drop_first() =~= self.layers@.subrange(
                    i + 1,
                    self.layers@.len() as int,
                ));
                assert(mlp_out_bits(rest, old(g)@, zv) == mlp_out_bits(
                    rest.drop_first(),
                    old(g)@,
                    layer_out_bits(l, old(g)@, zv),
                ));
            }
            z = outs;
            i += 1;
        }
        proof {
            assert(self.layers@.subrange(
                self.layers@.len() as int,
                self.layers@.len() as int,
            ) =~= Seq::<Layer>::empty());
            assert(mlp_out_bits(Seq::<Layer>::empty(), old(g)@, node_vals(g@, z@)) == node_vals(
                g@,
                z@,
            ));
        }
        z
    }

    /// Every parameter node of the network: layer by layer, unit by unit,
    /// weights then bias.
    pub fn parameters(&self) -> (ps: Vec<Value>)
        ensures
            ps@ =~= params_of_layers(self.layers@),
    {
        let mut ps: Vec<Value> = Vec::new();
        let mut i: usize = 0;
        while i < self.layers.len()
            invariant
                i <= self.layers@.len(),
                ps@ =~= params_of_layers(self.layers@.subrange(0, i as int)),
            decreases self.layers@.len() - i,
        {
            let mut unit = self.layers[i].parameters();
            ps.append(&mut unit);
            proof {
                let pre = self.layers@.subrange(0, i as int);
                let now = self.layers@.subrange(0, i + 1);
                assert(now.drop_last() =~= pre);
                assert(now.last() == self.layers@[i as int]);
            }
            i += 1;
        }
        proof {
            assert(self.layers@.subrange(0, self.layers@.len() as int) =~= self.layers@);
        }
        ps
    }
}

} // verus!
