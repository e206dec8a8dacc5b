//! The scalar computational-graph node type and its backward pass.
//!
//! Nodes live in an arena owned by a [`Graph`]; a [`Value`] is a stable index
//! into that arena. Every node records the bit pattern of its scalar result,
//! an accumulator for its gradient, and the operation that produced it, whose
//! operands are strictly earlier nodes — so the graph is acyclic and the
//! indices in decreasing order are a reverse topological order. The backward
//! pass seeds the root's gradient with one, computes the set of nodes the
//! root reaches, and then applies each reached node's local gradient rule
//! exactly once, in decreasing index order, so that a node's gradient is
//! complete before it is propagated to its operands.

use vstd::prelude::*;

use crate::scalar::ONE_BITS;
use crate::scalar::NEG_ONE_BITS;
use crate::scalar::ZERO_BITS;
use crate::scalar::add_bits;
use crate::scalar::exp_bits;
use crate::scalar::fadd;
use crate::scalar::fexp;
use crate::scalar::fmul;
use crate::scalar::fpow;
use crate::scalar::fsub;
use crate::scalar::ftanh;
use crate::scalar::mul_bits;
use crate::scalar::pow_bits;
use crate::scalar::sub_bits;
use crate::scalar::tanh_bits;

verus! {

/// The operation that produced a node, with the arena indices of its
/// operands. A `Pow` node keeps its exponent as a second operand node, but
/// its gradient rule touches only the base.
#[derive(Clone, Copy, PartialEq, Eq, Structural, Debug)]
pub enum Op {
    Leaf,
    Add(usize, usize),
    Mul(usize, usize),
    Pow(usize, usize),
    Exp(usize),
    Tanh(usize),
}

/// A handle on one node of a [`Graph`]: its index in the arena. Two handles
/// are the same vertex exactly when their indices are equal.
#[derive(Clone, Copy, PartialEq, Eq, Structural, Debug)]
pub struct Value {
    pub idx: usize,
}

/// The mathematical content of one node: the scalar's bit pattern, the
/// gradient accumulator, the producing operation, and a debugging label with
/// no semantic effect. A [`Graph`] is viewed as a sequence of these.
pub struct Node {
    pub value: u64,
    pub grad: u64,
    pub op: Op,
    pub label: Option<String>,
}

/// The arena of nodes. The value of a node is fixed at construction; only
/// gradients mutate, and only during [`Graph::backward`].
pub struct Graph {
    values: Vec<u64>,
    grads: Vec<u64>,
    ops: Vec<Op>,
    labels: Vec<Option<String>>,
}

/// Whether operation `o`, sitting at index `i`, draws only on strictly
/// earlier nodes.
pub open spec fn op_wf(o: Op, i: int) -> bool {
    match o {
        Op::Leaf => true,
        Op::Add(a, b) => a < i && b < i,
        Op::Mul(a, b) => a < i && b < i,
        Op::Pow(a, p) => a < i && p < i,
        Op::Exp(a) => a < i,
        Op::Tanh(a) => a < i,
    }
}

/// Acyclicity of the arena: every node's operands precede it.
pub open spec fn nodes_wf(nodes: Seq<Node>) -> bool {
    forall|i: int| 0 <= i < nodes.len() ==> #[trigger] op_wf(nodes[i].op, i)
}

/// A fresh node as every constructor pushes it: gradient zero, no label.
pub open spec fn fresh_node(value: u64, op: Op) -> Node {
    Node { value: value, grad: ZERO_BITS, op: op, label: None }
}

/// A fresh leaf node holding the scalar `data`.
pub open spec fn leaf_node(data: u64) -> Node {
    fresh_node(data, Op::Leaf)
}

/// `nodes` with `d` added into the gradient accumulator of node `t`.
pub open spec fn bump(nodes: Seq<Node>, t: int, d: u64) -> Seq<Node> {
    nodes.update(t, Node { grad: add_bits(nodes[t].grad, d), ..nodes[t] })
}

/// The local gradient rule of node `j`: each operand's accumulator receives
/// the correctly weighted share of `j`'s own (already final) gradient.
/// Leaves propagate nothing. The two contributions of a binary node are
/// added one after the other, so a node used for both operands receives both.
pub open spec fn apply_rule(nodes: Seq<Node>, j: int) -> Seq<Node> {
    let g = nodes[j].grad;
    match nodes[j].op {
        Op::Leaf => nodes,
        Op::Add(a, b) => bump(bump(nodes, a as int, g), b as int, g),
        Op::Mul(a, b) => bump(
            bump(nodes, a as int, mul_bits(nodes[b as int].value, g)),
            b as int,
            mul_bits(nodes[a as int].value, g),
        ),
        Op::Pow(a, p) => bump(
            nodes,
            a as int,
            mul_bits(
                mul_bits(
                    nodes[p as int].value,
                    pow_bits(nodes[a as int].value, sub_bits(nodes[p as int].value, ONE_BITS)),
                ),
                g,
            ),
        ),
        Op::Exp(a) => bump(nodes, a as int, mul_bits(nodes[j].value, g)),
        Op::Tanh(a) => bump(
            nodes,
            a as int,
            mul_bits(sub_bits(ONE_BITS, mul_bits(nodes[j].value, nodes[j].value)), g),
        ),
    }
}

/// `marked` with the operands of operation `o` marked.
pub open spec fn mark_operands(o: Op, marked: Seq<bool>) -> Seq<bool> {
    match o {
        Op::Leaf => marked,
        Op::Add(a, b) => marked.update(a as int, true).update(b as int, true),
        Op::Mul(a, b) => marked.update(a as int, true).update(b as int, true),
        Op::Pow(a, p) => marked.update(a as int, true).update(p as int, true),
        Op::Exp(a) => marked.update(a as int, true),
        Op::Tanh(a) => marked.update(a as int, true),
    }
}

/// One downward sweep that spreads marks from consumers to operands,
/// visiting indices `i - 1` down to `0`. Because operands sit strictly below
/// their consumers, a single sweep marks exactly the nodes the initially
/// marked ones reach.
pub open spec fn mark_sweep(nodes: Seq<Node>, marked: Seq<bool>, i: nat) -> Seq<bool>
    decreases i,
{
    if i == 0 {
        marked
    } else {
        let j = (i - 1) as int;
        let m = if marked[j] {
            mark_operands(nodes[j].op, marked)
        } else {
            marked
        };
        mark_sweep(nodes, m, (i - 1) as nat)
    }
}

/// Marks with only `root` set.
pub open spec fn init_marks(len: nat, root: int) -> Seq<bool> {
    Seq::new(len, |i: int| i == root)
}

/// The set of nodes reachable from `root` along operand edges, as marks.
pub open spec fn reach_marks(nodes: Seq<Node>, root: int) -> Seq<bool> {
    mark_sweep(nodes, init_marks(nodes.len(), root), (root + 1) as nat)
}

/// `nodes` with the gradient of `root` seeded to one.
pub open spec fn seeded(nodes: Seq<Node>, root: int) -> Seq<Node> {
    nodes.update(root, Node { grad: ONE_BITS, ..nodes[root] })
}

/// One downward sweep that fires the local gradient rule of every marked
/// node, visiting indices `i - 1` down to `0`: a reverse topological order,
/// so each node's gradient is fully accumulated before its rule fires, and
/// each rule fires exactly once.
pub open spec fn apply_sweep(nodes: Seq<Node>, marked: Seq<bool>, i: nat) -> Seq<Node>
    decreases i,
{
    if i == 0 {
        nodes
    } else {
        let j = (i - 1) as int;
        let m = if marked[j] {
            apply_rule(nodes, j)
        } else {
            nodes
        };
        apply_sweep(m, marked, (i - 1) as nat)
    }
}

/// The two nodes that negation appends: a minus-one leaf, then the product
/// of node `a` with it.
pub open spec fn neg_nodes(nodes: Seq<Node>, a: int) -> Seq<Node> {
    nodes.push(leaf_node(NEG_ONE_BITS)).push(fresh_node(
        mul_bits(nodes[a].value, NEG_ONE_BITS),
        Op::Mul(a as usize, nodes.len() as usize),
    ))
}

/// The three nodes that subtraction appends: the negation of `b`, then the
/// sum of `a` with it.
pub open spec fn sub_nodes(nodes: Seq<Node>, a: int, b: int) -> Seq<Node> {
    neg_nodes(nodes, b).push(fresh_node(
        add_bits(nodes[a].value, mul_bits(nodes[b].value, NEG_ONE_BITS)),
        Op::Add(a as usize, (nodes.len() + 1) as usize),
    ))
}

/// The three nodes that division appends: a minus-one leaf, `b` raised to
/// it, then the product of `a` with that reciprocal.
pub open spec fn div_nodes(nodes: Seq<Node>, a: int, b: int) -> Seq<Node> {
    nodes.push(leaf_node(NEG_ONE_BITS)).push(fresh_node(
        pow_bits(nodes[b].value, NEG_ONE_BITS),
        Op::Pow(b as usize, nodes.len() as usize),
    )).push(fresh_node(
        mul_bits(nodes[a].value, pow_bits(nodes[b].value, NEG_ONE_BITS)),
        Op::Mul(a as usize, (nodes.len() + 1) as usize),
    ))
}

/// The scalar that summing a sequence of node values yields: a left fold of
/// the sum, starting from zero.
pub open spec fn sum_bits(vals: Seq<u64>) -> u64
    decreases vals.len(),
{
    if vals.len() == 0 {
        ZERO_BITS
    } else {
        add_bits(sum_bits(vals.drop_last()), vals.last())
    }
}

/// The whole backward pass from `root`: seed the root's gradient with one,
/// then fire the rules of the nodes the root reaches, in reverse topological
/// order, exactly once each.
pub open spec fn backward_spec(nodes: Seq<Node>, root: int) -> Seq<Node> {
    apply_sweep(seeded(nodes, root), reach_marks(nodes, root), (root + 1) as nat)
}

/// Whether operation `o` has the node at index `k` among its operands.
pub open spec fn op_uses(o: Op, k: int) -> bool {
    match o {
        Op::Leaf => false,
        Op::Add(a, b) => k == a || k == b,
        Op::Mul(a, b) => k == a || k == b,
        Op::Pow(a, p) => k == a || k == p,
        Op::Exp(a) => k == a,
        Op::Tanh(a) => k == a,
    }
}

/// Whether `root` reaches node `k` along operand edges: either `k` is the
/// root itself, or some node that the root reaches uses `k` as an operand.
pub open spec fn reaches(nodes: Seq<Node>, root: int, k: int) -> bool
    decreases root - k,
{
    if k > root {
        false
    } else if k == root {
        true
    } else {
        exists|j: int|
            k < j <= root && #[trigger] op_uses(nodes[j].op, k) && reaches(nodes, root, j)
    }
}

/// Every operand of a marked node at or above `lo` is marked too.
spec fn marks_closed_from(nodes: Seq<Node>, marked: Seq<bool>, lo: int) -> bool {
    forall|j: int, k: int|
        lo <= j < nodes.len() && 0 <= k < nodes.len() && marked[j] && #[trigger] op_uses(
            nodes[j].op,
            k,
        ) ==> marked[k]
}

/// Every operand of a marked node is marked too.
spec fn marks_closed(nodes: Seq<Node>, marked: Seq<bool>) -> bool {
    marks_closed_from(nodes, marked, 0)
}

proof fn lemma_mark_operands_facts(nodes: Seq<Node>, marked: Seq<bool>, j: int)
    requires
        nodes_wf(nodes),
        marked.len() == nodes.len(),
        0 <= j < nodes.len(),
    ensures
        mark_operands(nodes[j].op, marked).len() == marked.len(),
        forall|k: int| 0 <= k < marked.len() && marked[k]
            ==> (#[trigger] mark_operands(nodes[j].op, marked)[k]),
        forall|k: int| 0 <= k < marked.len() && #[trigger] op_uses(nodes[j].op, k)
            ==> mark_operands(nodes[j].op, marked)[k],
        forall|k: int| 0 <= k < marked.len() && !op_uses(nodes[j].op, k)
            ==> (#[trigger] mark_operands(nodes[j].op, marked)[k]) == marked[k],
{
    assert(op_wf(nodes[j].op, j));
}

proof fn lemma_mark_sweep_facts(nodes: Seq<Node>, marked: Seq<bool>, i: nat)
    requires
        nodes_wf(nodes),
        marked.len() == nodes.len(),
        i <= nodes.len(),
        marks_closed_from(nodes, marked, i as int),
    ensures
        mark_sweep(nodes, marked, i).len() == marked.len(),
        forall|k: int| 0 <= k < marked.len() && marked[k] ==> (#[trigger] mark_sweep(
            nodes,
            marked,
            i,
        )[k]),
        forall|k: int| i <= k < marked.len() ==> (#[trigger] mark_sweep(nodes, marked, i)[k])
            == marked[k],
        marks_closed(nodes, mark_sweep(nodes, marked, i)),
    decreases i,
{
    if i > 0 {
        let j = (i - 1) as int;
        if marked[j] {
            lemma_mark_operands_facts(nodes, marked, j);
            let m1 = mark_operands(nodes[j].op, marked);
            assert(op_wf(nodes[j].op, j));
            assert forall|q: int, k: int|
                j <= q < nodes.len() && 0 <= k < nodes.len() && m1[q] && #[trigger] op_uses(
                    nodes[q].op,
                    k,
                ) implies m1[k] by {
                assert(op_wf(nodes[q].op, q));
                if q == j {
                    assert(m1[k]);
                } else {
                    assert(!op_uses(nodes[j].op, q));
                    assert(m1[q] == marked[q]);
                    assert(marked[k]);
                }
            }
            lemma_mark_sweep_facts(nodes, m1, (i - 1) as nat);
        } else {
            assert forall|q: int, k: int|
                j <= q < nodes.len() && 0 <= k < nodes.len() && marked[q] && #[trigger] op_uses(
                    nodes[q].op,
                    k,
                ) implies marked[k] by {
                assert(q != j);
            }
            lemma_mark_sweep_facts(nodes, marked, (i - 1) as nat);
        }
    }
}

proof fn lemma_mark_sweep_sound(nodes: Seq<Node>, root: int, marked: Seq<bool>, i: nat)
    requires
        nodes_wf(nodes),
        marked.len() == nodes.len(),
        i <= nodes.len(),
        0 <= root < nodes.len(),
        forall|k: int| 0 <= k < nodes.len() && marked[k] ==> reaches(nodes, root, k),
    ensures
        forall|k: int| 0 <= k < nodes.len() && (#[trigger] mark_sweep(nodes, marked, i)[k])
            ==> reaches(nodes, root, k),
    decreases i,
{
    if i > 0 {
        let j = (i - 1) as int;
        if marked[j] {
            lemma_mark_operands_facts(nodes, marked, j);
            let m1 = mark_operands(nodes[j].op, marked);
            assert(op_wf(nodes[j].op, j));
            assert(reaches(nodes, root, j));
            assert(j <= root);
            assert forall|k: int| 0 <= k < nodes.len() && m1[k] implies reaches(
                nodes,
                root,
                k,
            ) by {
                if !marked[k] {
                    assert(op_uses(nodes[j].op, k));
                    assert(k < j <= root && op_uses(nodes[j].op, k) && reaches(nodes, root, j));
                    assert(reaches(nodes, root, k));
                }
            }
            lemma_mark_sweep_sound(nodes, root, m1, (i - 1) as nat);
            assert(mark_sweep(nodes, marked, i) == mark_sweep(nodes, m1, (i - 1) as nat));
        } else {
            lemma_mark_sweep_sound(nodes, root, marked, (i - 1) as nat);
            assert(mark_sweep(nodes, marked, i) == mark_sweep(nodes, marked, (i - 1) as nat));
        }
    } else {
        assert(mark_sweep(nodes, marked, 0) == marked);
    }
}

proof fn lemma_reaches_marked(nodes: Seq<Node>, root: int, k: int)
    requires
        nodes_wf(nodes),
        0 <= root < nodes.len(),
        0 <= k < nodes.len(),
        reaches(nodes, root, k),
    ensures
        reach_marks(nodes, root)[k],
    decreases root - k,
{
    let init = init_marks(nodes.len(), root);
    lemma_mark_sweep_facts(nodes, init, (root + 1) as nat);
    if k == root {
        assert(init[root]);
    } else {
        let j = choose|j: int|
            k < j <= root && #[trigger] op_uses(nodes[j].op, k) && reaches(nodes, root, j);
        lemma_reaches_marked(nodes, root, j);
        assert(marks_closed(nodes, reach_marks(nodes, root)));
    }
}

/// The mark sweep computes exactly reachability: after phase one, a node is
/// marked precisely when the root reaches it along operand edges.
pub proof fn lemma_reach_marks_exact(nodes: Seq<Node>, root: int)
    requires
        nodes_wf(nodes),
        0 <= root < nodes.len(),
    ensures
        reach_marks(nodes, root).len() == nodes.len(),
        forall|k: int|
            0 <= k < nodes.len() ==> ((#[trigger] reach_marks(nodes, root)[k]) <==> reaches(
                nodes,
                root,
                k,
            )),
{
    let init = init_marks(nodes.len(), root);
    lemma_mark_sweep_facts(nodes, init, (root + 1) as nat);
    lemma_mark_sweep_sound(nodes, root, init, (root + 1) as nat);
    assert forall|k: int| 0 <= k < nodes.len() && reaches(nodes, root, k) implies (
    #[trigger] reach_marks(nodes, root)[k]) by {
        lemma_reaches_marked(nodes, root, k);
    }
}

proof fn lemma_apply_sweep_untouched(nodes: Seq<Node>, marked: Seq<bool>, i: nat)
    requires
        nodes_wf(nodes),
        marked.len() == nodes.len(),
        i <= nodes.len(),
        marks_closed(nodes, marked),
    ensures
        forall|k: int| 0 <= k < nodes.len() && !marked[k] ==> (#[trigger] apply_sweep(
            nodes,
            marked,
            i,
        )[k]).grad == nodes[k].grad,
    decreases i,
{
    if i > 0 {
        let j = (i - 1) as int;
        if marked[j] {
            lemma_apply_rule_preserves(nodes, j);
            let n1 = apply_rule(nodes, j);
            assert(op_wf(nodes[j].op, j));
            assert forall|k: int| 0 <= k < nodes.len() && !marked[k] implies n1[k].grad
                == nodes[k].grad by {
                assert(!op_uses(nodes[j].op, k));
            }
            lemma_apply_sweep_untouched(n1, marked, (i - 1) as nat);
        } else {
            lemma_apply_sweep_untouched(nodes, marked, (i - 1) as nat);
        }
    }
}

/// Only the subgraph the root reaches is mutated: the backward pass leaves
/// the gradient accumulator of every unreached node exactly as it was.
pub proof fn lemma_backward_spec_untouched(nodes: Seq<Node>, root: int)
    requires
        nodes_wf(nodes),
        0 <= root < nodes.len(),
    ensures
        forall|k: int|
            0 <= k < nodes.len() && !reaches(nodes, root, k) ==> (#[trigger] backward_spec(
                nodes,
                root,
            )[k]).grad == nodes[k].grad,
{
    let s = seeded(nodes, root);
    let m = reach_marks(nodes, root);
    lemma_reach_marks_exact(nodes, root);
    assert forall|k: int| 0 <= k < s.len() implies #[trigger] op_wf(s[k].op, k) by {
        assert(op_wf(nodes[k].op, k));
    }
    assert forall|j: int, k: int|
        0 <= j < s.len() && 0 <= k < s.len() && m[j] && #[trigger] op_uses(s[j].op, k) implies m[k] by {
        assert(s[j].op == nodes[j].op);
        assert(marks_closed(nodes, m)) by {
            lemma_mark_sweep_facts(nodes, init_marks(nodes.len(), root), (root + 1) as nat);
        }
    }
    lemma_apply_sweep_untouched(s, m, (root + 1) as nat);
    assert forall|k: int| 0 <= k < nodes.len() && !reaches(nodes, root, k) implies (
    #[trigger] backward_spec(nodes, root)[k]).grad == nodes[k].grad by {
        assert(!m[k]);
        assert(k != root);
        assert(s[k].grad == nodes[k].grad);
    }
}

/// A local gradient rule touches nothing but gradient accumulators: the
/// length, values, operations and labels all survive, and so does
/// acyclicity.
pub proof fn lemma_apply_rule_preserves(nodes: Seq<Node>, j: int)
    requires
        nodes_wf(nodes),
        0 <= j < nodes.len(),
    ensures
        apply_rule(nodes, j).len() == nodes.len(),
        forall|k: int|
            0 <= k < nodes.len() ==> {
                let r = #[trigger] apply_rule(nodes, j)[k];
                r.value == nodes[k].value && r.op == nodes[k].op && r.label == nodes[k].label
            },
        nodes_wf(apply_rule(nodes, j)),
{
    assert(op_wf(nodes[j].op, j));
    let r = apply_rule(nodes, j);
    assert forall|k: int| 0 <= k < nodes.len() implies {
        let n = #[trigger] r[k];
        n.value == nodes[k].value && n.op == nodes[k].op && n.label == nodes[k].label
    } by {
        match nodes[j].op {
            Op::Leaf => {}
            Op::Add(a, b) => {}
            Op::Mul(a, b) => {}
            Op::Pow(a, p) => {}
            Op::Exp(a) => {}
            Op::Tanh(a) => {}
        }
    }
    assert forall|k: int| 0 <= k < r.len() implies #[trigger] op_wf(r[k].op, k) by {
        assert(op_wf(nodes[k].op, k));
    }
}

/// A whole sweep of gradient rules preserves what a single rule preserves.
pub proof fn lemma_apply_sweep_preserves(nodes: Seq<Node>, marked: Seq<bool>, i: nat)
    requires
        nodes_wf(nodes),
        i <= nodes.len(),
    ensures
        apply_sweep(nodes, marked, i).len() == nodes.len(),
        forall|k: int|
            0 <= k < nodes.len() ==> {
                let r = #[trigger] apply_sweep(nodes, marked, i)[k];
                r.value == nodes[k].value && r.op == nodes[k].op && r.label == nodes[k].label
            },
        nodes_wf(apply_sweep(nodes, marked, i)),
    decreases i,
{
    if i > 0 {
        let j = (i - 1) as int;
        if marked[j] {
            lemma_apply_rule_preserves(nodes, j);
            lemma_apply_sweep_preserves(apply_rule(nodes, j), marked, (i - 1) as nat);
        } else {
            lemma_apply_sweep_preserves(nodes, marked, (i - 1) as nat);
        }
    }
}

/// The backward pass changes nothing but gradients: seeding and sweeping
/// keep the length, the values, the operations and the labels of every node.
pub proof fn lemma_backward_spec_preserves(nodes: Seq<Node>, root: int)
    requires
        nodes_wf(nodes),
        0 <= root < nodes.len(),
    ensures
        backward_spec(nodes, root).len() == nodes.len(),
        forall|k: int|
            0 <= k < nodes.len() ==> {
                let r = #[trigger] backward_spec(nodes, root)[k];
                r.value == nodes[k].value && r.op == nodes[k].op && r.label == nodes[k].label
            },
        nodes_wf(backward_spec(nodes, root)),
{
    let s = seeded(nodes, root);
    assert forall|k: int| 0 <= k < s.len() implies #[trigger] op_wf(s[k].op, k) by {
        assert(op_wf(nodes[k].op, k));
    }
    lemma_apply_sweep_preserves(s, reach_marks(nodes, root), (root + 1) as nat);
}

proof fn lemma_apply_sweep_above(nodes: Seq<Node>, marked: Seq<bool>, i: nat)
    requires
        nodes_wf(nodes),
        i <= nodes.len(),
    ensures
        forall|k: int| i - 1 <= k < nodes.len() ==> (#[trigger] apply_sweep(
            nodes,
            marked,
            i,
        )[k]).grad == nodes[k].grad,
    decreases i,
{
    if i > 0 {
        let j = (i - 1) as int;
        if marked[j] {
            lemma_apply_rule_preserves(nodes, j);
            let n1 = apply_rule(nodes, j);
            assert(op_wf(nodes[j].op, j));
            assert forall|k: int| j <= k < nodes.len() implies n1[k].grad == nodes[k].grad by {
                assert(!op_uses(nodes[j].op, k));
            }
            lemma_apply_sweep_above(n1, marked, (i - 1) as nat);
        } else {
            lemma_apply_sweep_above(nodes, marked, (i - 1) as nat);
        }
    }
}

/// The seed survives: no node of the sweep can have the root among its
/// operands, so after the backward pass the root's own gradient is exactly
/// one — the derivative of the root with respect to itself.
pub proof fn lemma_backward_spec_root(nodes: Seq<Node>, root: int)
    requires
        nodes_wf(nodes),
        0 <= root < nodes.len(),
    ensures
        backward_spec(nodes, root)[root].grad == ONE_BITS,
{
    let s = seeded(nodes, root);
    assert forall|k: int| 0 <= k < s.len() implies #[trigger] op_wf(s[k].op, k) by {
        assert(op_wf(nodes[k].op, k));
    }
    lemma_apply_sweep_above(s, reach_marks(nodes, root), (root + 1) as nat);
}

/// The backward pass over a two-node graph whose root is a sum with one
/// node for both operands, from arbitrary starting accumulators: the root
/// is seeded to one — whatever its accumulator held — and the operand
/// receives that seed twice, on top of whatever its own accumulator held.
pub proof fn lemma_fanout_backward(n0: Node, n1: Node)
    requires
        n0.op == Op::Leaf,
        n1.op == Op::Add(0, 0),
    ensures
        ({
            let nodes = seq![n0, n1];
            let r = backward_spec(nodes, 1);
            &&& r.len() == 2
            &&& r[0].grad == add_bits(add_bits(n0.grad, ONE_BITS), ONE_BITS)
            &&& r[1].grad == ONE_BITS
            &&& r[0].value == n0.value && r[0].op == n0.op && r[0].label == n0.label
            &&& r[1].value == n1.value && r[1].op == n1.op && r[1].label == n1.label
        }),
{
    let nodes = seq![n0, n1];
    let s = seeded(nodes, 1);
    let m0 = init_marks(2, 1);
    let m1 = m0.update(0, true).update(0, true);
    assert(!m0[0] && m0[1]);
    assert(mark_operands(nodes[1].op, m0) == m1);
    assert(mark_sweep(nodes, m0, 2) == mark_sweep(nodes, m1, 1));
    assert(m1[0]);
    assert(mark_operands(nodes[0].op, m1) == m1);
    assert(mark_sweep(nodes, m1, 1) == mark_sweep(nodes, m1, 0));
    assert(mark_sweep(nodes, m1, 0) == m1);
    let m = reach_marks(nodes, 1);
    assert(m == m1);
    assert(s[1].grad == ONE_BITS);
    assert(s[0] == nodes[0]);
    let s1 = apply_rule(s, 1);
    assert(s1 == bump(bump(s, 0, ONE_BITS), 0, ONE_BITS));
    assert(s1[0].grad == add_bits(add_bits(n0.grad, ONE_BITS), ONE_BITS));
    assert(s1[1].grad == ONE_BITS);
    assert(s1[0].op == Op::Leaf);
    assert(apply_rule(s1, 0) == s1);
    assert(apply_sweep(s, m, 2) == apply_sweep(s1, m, 1));
    assert(apply_sweep(s1, m, 1) == apply_sweep(s1, m, 0));
    assert(apply_sweep(s1, m, 0) == s1);
    assert(backward_spec(nodes, 1) == s1);
}

/// Gradient accumulation under fan-out: when a fresh node is both operands
/// of a sum, the backward pass adds the seed into its accumulator twice —
/// the two contributions are summed, never overwritten — and the root
/// keeps the seed as its own gradient.
pub proof fn lemma_fanout_accumulates(x: u64)
    ensures
        ({
            let nodes = seq![leaf_node(x), fresh_node(add_bits(x, x), Op::Add(0, 0))];
            &&& backward_spec(nodes, 1).len() == 2
            &&& backward_spec(nodes, 1)[0].grad == add_bits(
                add_bits(ZERO_BITS, ONE_BITS),
                ONE_BITS,
            )
            &&& backward_spec(nodes, 1)[1].grad == ONE_BITS
        }),
{
    lemma_fanout_backward(leaf_node(x), fresh_node(add_bits(x, x), Op::Add(0, 0)));
}

/// Idempotent re-seeding: accumulators are not reset between passes. A
/// second backward pass over the same root seeds the root back to one —
/// not two — and adds the same two contributions on top of what the first
/// pass left in the operand, so the root's direct operand holds twice the
/// seed's worth. Callers who want fresh gradients rebuild their leaves.
pub proof fn lemma_reseed_accumulates(x: u64)
    ensures
        ({
            let nodes = seq![leaf_node(x), fresh_node(add_bits(x, x), Op::Add(0, 0))];
            let once = backward_spec(nodes, 1);
            let twice = backward_spec(once, 1);
            &&& twice.len() == 2
            &&& twice[0].grad == add_bits(add_bits(once[0].grad, ONE_BITS), ONE_BITS)
            &&& twice[1].grad == ONE_BITS
        }),
{
    let nodes = seq![leaf_node(x), fresh_node(add_bits(x, x), Op::Add(0, 0))];
    lemma_fanout_backward(nodes[0], nodes[1]);
    let once = backward_spec(nodes, 1);
    assert(once =~= seq![once[0], once[1]]);
    lemma_fanout_backward(once[0], once[1]);
}

/// No double propagation across a diamond: with `x` feeding both `p` and
/// `q`, which feed the root `r`, the backward pass fires each rule exactly
/// once — `p` and `q` each hold exactly one contribution of the seed, and
/// `x` holds exactly one term from `q` plus one from `p`.
pub proof fn lemma_diamond_fires_once(x: u64)
    ensures
        ({
            let ev = exp_bits(x);
            let tv = tanh_bits(x);
            let nodes = seq![
                leaf_node(x),
                fresh_node(ev, Op::Exp(0)),
                fresh_node(tv, Op::Tanh(0)),
                fresh_node(add_bits(ev, tv), Op::Add(1, 2)),
            ];
            let g1 = add_bits(ZERO_BITS, ONE_BITS);
            &&& backward_spec(nodes, 3).len() == 4
            &&& backward_spec(nodes, 3)[3].grad == ONE_BITS
            &&& backward_spec(nodes, 3)[1].grad == g1
            &&& backward_spec(nodes, 3)[2].grad == g1
            &&& backward_spec(nodes, 3)[0].grad == add_bits(
                add_bits(ZERO_BITS, mul_bits(sub_bits(ONE_BITS, mul_bits(tv, tv)), g1)),
                mul_bits(ev, g1),
            )
        }),
{
    let ev = exp_bits(x);
    let tv = tanh_bits(x);
    let nodes = seq![
        leaf_node(x),
        fresh_node(ev, Op::Exp(0)),
        fresh_node(tv, Op::Tanh(0)),
        fresh_node(add_bits(ev, tv), Op::Add(1, 2)),
    ];
    let g1 = add_bits(ZERO_BITS, ONE_BITS);
    let s = seeded(nodes, 3);
    let m0 = init_marks(4, 3);
    let m1 = m0.update(1, true).update(2, true);
    let m2 = m1.update(0, true);
    let m3 = m2.update(0, true);
    assert(!m0[0] && !m0[1] && !m0[2] && m0[3]);
    assert(mark_operands(nodes[3].op, m0) == m1);
    assert(mark_sweep(nodes, m0, 4) == mark_sweep(nodes, m1, 3));
    assert(m1[2]);
    assert(mark_operands(nodes[2].op, m1) == m2);
    assert(mark_sweep(nodes, m1, 3) == mark_sweep(nodes, m2, 2));
    assert(m2[1]);
    assert(mark_operands(nodes[1].op, m2) == m3);
    assert(mark_sweep(nodes, m2, 2) == mark_sweep(nodes, m3, 1));
    assert(m3[0]);
    assert(mark_operands(nodes[0].op, m3) == m3);
    assert(mark_sweep(nodes, m3, 1) == mark_sweep(nodes, m3, 0));
    assert(mark_sweep(nodes, m3, 0) == m3);
    let m = reach_marks(nodes, 3);
    assert(m == m3);
    assert(m[0] && m[1] && m[2] && m[3]);

    assert(s[3].grad == ONE_BITS);
    assert(s[0] == nodes[0] && s[1] == nodes[1] && s[2] == nodes[2]);
    let s1 = apply_rule(s, 3);
    assert(s1 == bump(bump(s, 1, ONE_BITS), 2, ONE_BITS));
    assert(s1[0] == nodes[0] && s1[3] == s[3]);
    assert(s1[1].grad == g1 && s1[1].value == ev && s1[1].op == Op::Exp(0));
    assert(s1[2].grad == g1 && s1[2].value == tv && s1[2].op == Op::Tanh(0));
    let s2 = apply_rule(s1, 2);
    assert(s2 == bump(s1, 0, mul_bits(sub_bits(ONE_BITS, mul_bits(tv, tv)), g1)));
    assert(s2[0].grad == add_bits(ZERO_BITS, mul_bits(sub_bits(ONE_BITS, mul_bits(tv, tv)), g1)));
    assert(s2[1] == s1[1] && s2[2] == s1[2] && s2[3] == s1[3]);
    let s3 = apply_rule(s2, 1);
    assert(s3 == bump(s2, 0, mul_bits(ev, g1)));
    assert(s3[0].grad == add_bits(s2[0].grad, mul_bits(ev, g1)));
    assert(s3[0].op == Op::Leaf);
    assert(apply_rule(s3, 0) == s3);
    assert(apply_sweep(s, m, 4) == apply_sweep(s1, m, 3));
    assert(apply_sweep(s1, m, 3) == apply_sweep(s2, m, 2));
    assert(apply_sweep(s2, m, 2) == apply_sweep(s3, m, 1));
    assert(apply_sweep(s3, m, 1) == apply_sweep(s3, m, 0));
    assert(apply_sweep(s3, m, 0) == s3);
    assert(backward_spec(nodes, 3) == s3);
}

impl View for Graph {
    type V = Seq<Node>;

    closed spec fn view(&self) -> Seq<Node> {
        Seq::new(
            self.values@.len(),
            |i: int| Node {
                value: self.values@[i],
                grad: self.grads@[i],
                op: self.ops@[i],
                label: self.labels@[i],
            },
        )
    }
}

proof fn lemma_push_preserves_wf(nodes: Seq<Node>, n: Node)
    requires
        nodes_wf(nodes),
        op_wf(n.op, nodes.len() as int),
    ensures
        nodes_wf(nodes.push(n)),
{
    let p = nodes.push(n);
    assert forall|i: int| 0 <= i < p.len() implies #[trigger] op_wf(p[i].op, i) by {
        if i < nodes.len() {
            assert(op_wf(nodes[i].op, i));
        }
    }
}

/// Relies on str::to_string: an owned string with the same characters.
#[verifier::external_body]
fn to_owned_string(s: &str) -> (r: String)
    ensures
        r@ == s@,
{
    s.to_string()
}

impl Graph {
    /// All four columns of the arena have one entry per node.
    spec fn sync(&self) -> bool {
        &&& self.grads@.len() == self.values@.len()
        &&& self.ops@.len() == self.values@.len()
        &&& self.labels@.len() == self.values@.len()
    }

    /// The arena is internally consistent and acyclic.
    pub closed spec fn wf(&self) -> bool {
        self.sync() && nodes_wf(self@)
    }

    /// A well-formed graph is an acyclic arena.
    pub proof fn lemma_wf(&self)
        requires
            self.wf(),
        ensures
            nodes_wf(self@),
    {
    }

    /// An empty graph.
    pub fn new() -> (g: Graph)
        ensures
            g@ =~= Seq::<Node>::empty(),
            g.wf(),
    {
        let g = Graph { values: Vec::new(), grads: Vec::new(), ops: Vec::new(), labels: Vec::new() };
        proof {
            assert(g@ =~= Seq::<Node>::empty());
        }
        g
    }

    /// How many nodes the graph holds.
    pub fn len(&self) -> (n: usize)
        ensures
            n == self@.len(),
    {
        self.values.len()
    }

    fn push_node(&mut self, value: u64, op: Op) -> (v: Value)
        requires
            old(self).sync(),
        ensures
            final(self).sync(),
            final(self)@ =~= old(self)@.push(fresh_node(value, op)),
            v.idx == old(self)@.len(),
    {
        let idx = self.values.len();
        self.values.push(value);
        self.grads.push(ZERO_BITS);
        self.ops.push(op);
        self.labels.push(None);
        proof {
            assert(self@ =~= old(self)@.push(fresh_node(value, op)));
        }
        Value { idx }
    }

    /// A leaf node holding the scalar `data`, with gradient zero.
    pub fn from(&mut self, data: u64) -> (v: Value)
        requires
            old(self).wf(),
        ensures
            final(self).wf(),
            final(self)@ =~= old(self)@.push(leaf_node(data)),
            v.idx == old(self)@.len(),
    {
        let v = self.push_node(data, Op::Leaf);
        proof {
            lemma_push_preserves_wf(old(self)@, leaf_node(data));
        }
        v
    }

    /// The sum node of `a` and `b`.
    pub fn add(&mut self, a: Value, b: Value) -> (v: Value)
        requires
            old(self).wf(),
            a.idx < old(self)@.len(),
            b.idx < old(self)@.len(),
        ensures
            final(self).wf(),
            final(self)@ =~= old(self)@.push(fresh_node(
                add_bits(old(self)@[a.idx as int].value, old(self)@[b.idx as int].value),
                Op::Add(a.idx, b.idx),
            )),
            v.idx == old(self)@.len(),
    {
        let value = fadd(self.values[a.idx], self.values[b.idx]);
        let v = self.push_node(value, Op::Add(a.idx, b.idx));
        proof {
            lemma_push_preserves_wf(old(self)@, fresh_node(value, Op::Add(a.idx, b.idx)));
        }
        v
    }

    /// The product node of `a` and `b`.
    pub fn mul(&mut self, a: Value, b: Value) -> (v: Value)
        requires
            old(self).wf(),
            a.idx < old(self)@.len(),
            b.idx < old(self)@.len(),
        ensures
            final(self).wf(),
            final(self)@ =~= old(self)@.push(fresh_node(
                mul_bits(old(self)@[a.idx as int].value, old(self)@[b.idx as int].value),
                Op::Mul(a.idx, b.idx),
            )),
            v.idx == old(self)@.len(),
    {
        let value = fmul(self.values[a.idx], self.values[b.idx]);
        let v = self.push_node(value, Op::Mul(a.idx, b.idx));
        proof {
            lemma_push_preserves_wf(old(self)@, fresh_node(value, Op::Mul(a.idx, b.idx)));
        }
        v
    }

    /// The node `a` raised to the power held by node `p`. The exponent is an
    /// operand of the new node, but receives no gradient contribution.
    pub fn pow(&mut self, a: Value, p: Value) -> (v: Value)
        requires
            old(self).wf(),
            a.idx < old(self)@.len(),
            p.idx < old(self)@.len(),
        ensures
            final(self).wf(),
            final(self)@ =~= old(self)@.push(fresh_node(
                pow_bits(old(self)@[a.idx as int].value, old(self)@[p.idx as int].value),
                Op::Pow(a.idx, p.idx),
            )),
            v.idx == old(self)@.len(),
    {
        let value = fpow(self.values[a.idx], self.values[p.idx]);
        let v = self.push_node(value, Op::Pow(a.idx, p.idx));
        proof {
            lemma_push_preserves_wf(old(self)@, fresh_node(value, Op::Pow(a.idx, p.idx)));
        }
        v
    }

    /// The exponential node of `a`.
    pub fn exp(&mut self, a: Value) -> (v: Value)
        requires
            old(self).wf(),
            a.idx < old(self)@.len(),
        ensures
            final(self).wf(),
            final(self)@ =~= old(self)@.push(fresh_node(
                exp_bits(old(self)@[a.idx as int].value),
                Op::Exp(a.idx),
            )),
            v.idx == old(self)@.len(),
    {
        let value = fexp(self.values[a.idx]);
        let v = self.push_node(value, Op::Exp(a.idx));
        proof {
            lemma_push_preserves_wf(old(self)@, fresh_node(value, Op::Exp(a.idx)));
        }
        v
    }

    /// The hyperbolic-tangent node of `a`.
    pub fn tanh(&mut self, a: Value) -> (v: Value)
        requires
            old(self).wf(),
            a.idx < old(self)@.len(),
        ensures
            final(self).wf(),
            final(self)@ =~= old(self)@.push(fresh_node(
                tanh_bits(old(self)@[a.idx as int].value),
                Op::Tanh(a.idx),
            )),
            v.idx == old(self)@.len(),
    {
        let value = ftanh(self.values[a.idx]);
        let v = self.push_node(value, Op::Tanh(a.idx));
        proof {
            lemma_push_preserves_wf(old(self)@, fresh_node(value, Op::Tanh(a.idx)));
        }
        v
    }

    /// The negation node of `a`, built as the product of `a` with a fresh
    /// minus-one leaf.
    pub fn neg(&mut self, a: Value) -> (v: Value)
        requires
            old(self).wf(),
            a.idx < old(self)@.len(),
        ensures
            final(self).wf(),
            final(self)@ =~= neg_nodes(old(self)@, a.idx as int),
            v.idx == old(self)@.len() + 1,
            final(self)@[v.idx as int].value == mul_bits(
                old(self)@[a.idx as int].value,
                NEG_ONE_BITS,
            ),
    {
        let m = self.from(NEG_ONE_BITS);
        self.mul(a, m)
    }

    /// The difference node of `a` and `b`, built as the sum of `a` with the
    /// negation of `b`.
    pub fn sub(&mut self, a: Value, b: Value) -> (v: Value)
        requires
            old(self).wf(),
            a.idx < old(self)@.len(),
            b.idx < old(self)@.len(),
        ensures
            final(self).wf(),
            final(self)@ =~= sub_nodes(old(self)@, a.idx as int, b.idx as int),
            v.idx == old(self)@.len() + 2,
            final(self)@[v.idx as int].value == add_bits(
                old(self)@[a.idx as int].value,
                mul_bits(old(self)@[b.idx as int].value, NEG_ONE_BITS),
            ),
    {
        let n = self.neg(b);
        self.add(a, n)
    }

    /// The quotient node of `a` and `b`, built as the product of `a` with
    /// `b` raised to a fresh minus-one leaf. A zero-valued `b` is not
    /// rejected: the reciprocal is whatever the power operation yields, and
    /// non-finite scalars flow on through later operations.
    pub fn div(&mut self, a: Value, b: Value) -> (v: Value)
        requires
            old(self).wf(),
            a.idx < old(self)@.len(),
            b.idx < old(self)@.len(),
        ensures
            final(self).wf(),
            final(self)@ =~= div_nodes(old(self)@, a.idx as int, b.idx as int),
            v.idx == old(self)@.len() + 2,
            final(self)@[v.idx as int].value == mul_bits(
                old(self)@[a.idx as int].value,
                pow_bits(old(self)@[b.idx as int].value, NEG_ONE_BITS),
            ),
    {
        let e = self.from(NEG_ONE_BITS);
        let p = self.pow(b, e);
        self.mul(a, p)
    }

    /// One node holding the sum of the given nodes: a fresh zero leaf,
    /// folded with `add` over the sequence in order.
    pub fn sum(&mut self, xs: &Vec<Value>) -> (v: Value)
        requires
            old(self).wf(),
            forall|k: int| 0 <= k < xs@.len() ==> (#[trigger] xs@[k]).idx < old(self)@.len(),
        ensures
            final(self).wf(),
            final(self)@.len() == old(self)@.len() + xs@.len() + 1,
            forall|i: int| 0 <= i < old(self)@.len() ==> final(self)@[i] == old(self)@[i],
            v.idx < final(self)@.len(),
            final(self)@[v.idx as int].grad == ZERO_BITS,
            final(self)@[v.idx as int].value == sum_bits(
                xs@.map_values(|x: Value| old(self)@[x.idx as int].value),
            ),
    {
        let ghost vals = xs@.map_values(|x: Value| old(self)@[x.idx as int].value);
        let mut acc = self.from(ZERO_BITS);
        let n = xs.len();
        let mut k: usize = 0;
        while k < n
            invariant
                n == xs@.len(),
                k <= n,
                self.wf(),
                self@.len() == old(self)@.len() + k + 1,
                forall|i: int| 0 <= i < old(self)@.len() ==> self@[i] == old(self)@[i],
                forall|q: int| 0 <= q < xs@.len() ==> (#[trigger] xs@[q]).idx < old(self)@.len(),
                acc.idx < self@.len(),
                self@[acc.idx as int].grad == ZERO_BITS,
                vals == xs@.map_values(|x: Value| old(self)@[x.idx as int].value),
                self@[acc.idx as int].value == sum_bits(vals.subrange(0, k as int)),
            decreases n - k,
        {
            let x = xs[k];
            let ghost pre = self@;
            acc = self.add(acc, x);
            proof {
                assert(vals.subrange(0, k + 1).drop_last() =~= vals.subrange(0, k as int));
                assert(pre[x.idx as int].value == old(self)@[x.idx as int].value);
                assert(vals.subrange(0, k + 1).last() == vals[k as int]);
            }
            k += 1;
        }
        proof {
            assert(vals.subrange(0, n as int) =~= vals);
        }
        acc
    }

    /// The scalar held by node `v`.
    pub fn data(&self, v: Value) -> (d: u64)
        requires
            v.idx < self@.len(),
        ensures
            d == self@[v.idx as int].value,
    {
        self.values[v.idx]
    }

    /// The accumulated gradient of node `v`.
    pub fn gradient(&self, v: Value) -> (d: u64)
        requires
            self.wf(),
            v.idx < self@.len(),
        ensures
            d == self@[v.idx as int].grad,
    {
        self.grads[v.idx]
    }

    /// The debugging label of node `v`.
    pub fn label(&self, v: Value) -> (r: &Option<String>)
        requires
            self.wf(),
            v.idx < self@.len(),
        ensures
            *r == self@[v.idx as int].label,
    {
        &self.labels[v.idx]
    }

    /// Attaches a debugging label to node `v` and returns the same handle;
    /// nothing but the label changes.
    pub fn with_label(&mut self, v: Value, label: &str) -> (r: Value)
        requires
            old(self).wf(),
            v.idx < old(self)@.len(),
        ensures
            final(self).wf(),
            r == v,
            final(self)@.len() == old(self)@.len(),
            forall|i: int| 0 <= i < final(self)@.len() && i != v.idx as int ==> final(self)@[i] == old(self)@[i],
            final(self)@[v.idx as int].value == old(self)@[v.idx as int].value,
            final(self)@[v.idx as int].grad == old(self)@[v.idx as int].grad,
            final(self)@[v.idx as int].op == old(self)@[v.idx as int].op,
            (final(self)@[v.idx as int].label matches Some(s) && s@ == label@),
    {
        self.labels[v.idx] = Some(to_owned_string(label));
        proof {
            assert forall|i: int| 0 <= i < self@.len() implies #[trigger] op_wf(self@[i].op, i) by {
                assert(op_wf(old(self)@[i].op, i));
                assert(self@[i].op == old(self)@[i].op);
            }
        }
        v
    }

    /// The backward pass, seeded at `root`: afterwards every node the root
    /// reaches holds its accumulated gradient, exactly as the functional
    /// model [`backward_spec`] describes — each reached node's rule fired
    /// once, in reverse topological order, on top of whatever the
    /// accumulators already held. The root's own gradient ends up exactly
    /// one, nodes the root does not reach keep their accumulators, and
    /// values, operations and labels are untouched everywhere.
    pub fn backward(&mut self, root: Value)
        requires
            old(self).wf(),
            root.idx < old(self)@.len(),
        ensures
            final(self).wf(),
            final(self)@ == backward_spec(old(self)@, root.idx as int),
            final(self)@.len() == old(self)@.len(),
            forall|k: int|
                0 <= k < old(self)@.len() ==> {
                    let r = #[trigger] final(self)@[k];
                    r.value == old(self)@[k].value && r.op == old(self)@[k].op && r.label
                        == old(self)@[k].label
                },
            final(self)@[root.idx as int].grad == ONE_BITS,
            forall|k: int|
                0 <= k < old(self)@.len() && !reaches(old(self)@, root.idx as int, k) ==> (
                #[trigger] final(self)@[k]).grad == old(self)@[k].grad,
    {
        let n = self.values.len();
        let r = root.idx;
        let ghost nodes0 = self@;
        let ghost root_i = root.idx as int;

        // Phase one: mark the nodes the root reaches. Operands sit strictly
        // below their consumers, so one downward sweep from the root finds
        // them all.
        let mut marked: Vec<bool> = Vec::new();
        let mut t: usize = 0;
        while t < n
            invariant
                t <= n,
                marked@.len() == t,
                forall|q: int| 0 <= q < t ==> !(#[trigger] marked@[q]),
            decreases n - t,
        {
            marked.push(false);
            t += 1;
        }
        marked[r] = true;
        proof {
            assert(marked@ =~= init_marks(nodes0.len(), root_i));
        }
        let ghost m_final = reach_marks(nodes0, root_i);
        let mut i: usize = r + 1;
        while i > 0
            invariant
                *self == *old(self),
                self.wf(),
                nodes0 == self@,
                r == root.idx,
                r < n,
                n == nodes0.len(),
                i <= r + 1,
                marked@.len() == n,
                mark_sweep(nodes0, marked@, i as nat) == m_final,
            decreases i,
        {
            i -= 1;
            let ghost m0 = marked@;
            if marked[i] {
                let op = self.ops[i];
                proof {
                    assert(op == nodes0[i as int].op);
                    assert(op_wf(op, i as int));
                }
                match op {
                    Op::Leaf => {}
                    Op::Add(a, b) => {
                        marked[a] = true;
                        marked[b] = true;
                    }
                    Op::Mul(a, b) => {
                        marked[a] = true;
                        marked[b] = true;
                    }
                    Op::Pow(a, p) => {
                        marked[a] = true;
                        marked[p] = true;
                    }
                    Op::Exp(a) => {
                        marked[a] = true;
                    }
                    Op::Tanh(a) => {
                        marked[a] = true;
                    }
                }
                proof {
                    assert(marked@ =~= mark_operands(nodes0[i as int].op, m0));
                }
            }
        }
        proof {
            assert(marked@ == m_final);
        }

        // Seed the root: the derivative of the root with respect to itself
        // is one.
        self.grads[r] = crate::scalar::ONE_BITS;
        proof {
            assert(self@ =~= seeded(nodes0, root_i));
        }

        // Phase two: fire each marked node's local gradient rule, in
        // decreasing index order — a reverse topological order, so every
        // gradient is complete before it is read.
        let ghost target = backward_spec(nodes0, root_i);
        let mut i: usize = r + 1;
        while i > 0
            invariant
                r == root.idx,
                r < n,
                n == nodes0.len(),
                i <= r + 1,
                self.sync(),
                self@.len() == n,
                forall|q: int| 0 <= q < n ==> (#[trigger] self@[q]).op == nodes0[q].op,
                nodes_wf(self@),
                marked@.len() == n,
                marked@ == m_final,
                apply_sweep(self@, marked@, i as nat) == target,
            decreases i,
        {
            i -= 1;
            let ghost cur = self@;
            if marked[i] {
                let g = self.grads[i];
                let op = self.ops[i];
                proof {
                    assert(op == cur[i as int].op);
                    assert(op_wf(op, i as int));
                    assert(g == cur[i as int].grad);
                }
                match op {
                    Op::Leaf => {}
                    Op::Add(a, b) => {
                        let ga = self.grads[a];
                        self.grads[a] = fadd(ga, g);
                        let gb = self.grads[b];
                        self.grads[b] = fadd(gb, g);
                    }
                    Op::Mul(a, b) => {
                        let da = fmul(self.values[b], g);
                        let ga = self.grads[a];
                        self.grads[a] = fadd(ga, da);
                        let db = fmul(self.values[a], g);
                        let gb = self.grads[b];
                        self.grads[b] = fadd(gb, db);
                    }
                    Op::Pow(a, p) => {
                        let pm1 = fsub(self.values[p], ONE_BITS);
                        let da = fmul(fmul(self.values[p], fpow(self.values[a], pm1)), g);
                        let ga = self.grads[a];
                        self.grads[a] = fadd(ga, da);
                    }
                    Op::Exp(a) => {
                        let da = fmul(self.values[i], g);
                        let ga = self.grads[a];
                        self.grads[a] = fadd(ga, da);
                    }
                    Op::Tanh(a) => {
                        let vi = self.values[i];
                        let da = fmul(fsub(ONE_BITS, fmul(vi, vi)), g);
                        let ga = self.grads[a];
                        self.grads[a] = fadd(ga, da);
                    }
                }
                proof {
                    assert(self@ =~= apply_rule(cur, i as int));
                }
                proof {
                    assert forall|q: int| 0 <= q < n implies #[trigger] op_wf(self@[q].op, q) by {
                        assert(op_wf(cur[q].op, q));
                    }
                }
            }
        }
        proof {
            assert(self@ == target);
            lemma_backward_spec_preserves(nodes0, root_i);
            lemma_backward_spec_root(nodes0, root_i);
            lemma_backward_spec_untouched(nodes0, root_i);
        }
    }
}

} // verus!
