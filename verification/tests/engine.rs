use gradrs::Graph;

fn bits(x: f64) -> u64 {
    x.to_bits()
}

fn num(u: u64) -> f64 {
    f64::from_bits(u)
}

#[test]
fn forward_from_scalar() {
    let mut g = Graph::new();
    let a = g.from(bits(2.5));
    assert_eq!(num(g.data(a)), 2.5);
    assert_eq!(num(g.gradient(a)), 0.0);
}

#[test]
fn forward_add() {
    let mut g = Graph::new();
    let a = g.from(bits(3.0));
    let b = g.from(bits(4.0));
    let c = g.add(a, b);
    assert_eq!(num(g.data(c)), 7.0);
}

#[test]
fn forward_mul() {
    let mut g = Graph::new();
    let a = g.from(bits(3.0));
    let b = g.from(bits(4.0));
    let c = g.mul(a, b);
    assert_eq!(num(g.data(c)), 12.0);
}

#[test]
fn forward_neg() {
    let mut g = Graph::new();
    let a = g.from(bits(2.5));
    let n = g.neg(a);
    assert_eq!(num(g.data(n)), -2.5);
}

#[test]
fn forward_sub() {
    let mut g = Graph::new();
    let a = g.from(bits(5.0));
    let b = g.from(bits(2.0));
    let c = g.sub(a, b);
    assert_eq!(num(g.data(c)), 3.0);
}

#[test]
fn forward_div() {
    let mut g = Graph::new();
    let a = g.from(bits(3.0));
    let b = g.from(bits(2.0));
    let c = g.div(a, b);
    assert_eq!(num(g.data(c)), 1.5);
}

#[test]
fn forward_pow() {
    let mut g = Graph::new();
    let a = g.from(bits(3.0));
    let p = g.from(bits(2.0));
    let c = g.pow(a, p);
    assert_eq!(num(g.data(c)), 9.0);
}

#[test]
fn forward_exp() {
    let mut g = Graph::new();
    let z = g.from(bits(0.0));
    let e = g.exp(z);
    assert_eq!(num(g.data(e)), 1.0);
    let o = g.from(bits(1.0));
    let e1 = g.exp(o);
    assert!((num(g.data(e1)) - core::f64::consts::E).abs() < 1e-12);
}

#[test]
fn forward_tanh() {
    let mut g = Graph::new();
    let z = g.from(bits(0.0));
    let t = g.tanh(z);
    assert_eq!(num(g.data(t)), 0.0);
}

#[test]
fn forward_sum() {
    let mut g = Graph::new();
    let a = g.from(bits(1.0));
    let b = g.from(bits(2.0));
    let c = g.from(bits(3.0));
    let s = g.sum(&vec![a, b, c]);
    assert_eq!(num(g.data(s)), 6.0);
    let e = g.sum(&vec![]);
    assert_eq!(num(g.data(e)), 0.0);
}

#[test]
fn division_by_zero_flows() {
    let mut g = Graph::new();
    let a = g.from(bits(1.0));
    let z = g.from(bits(0.0));
    let q = g.div(a, z);
    assert!(num(g.data(q)).is_infinite());
    let w = g.from(bits(5.0));
    let s = g.add(q, w);
    assert!(num(g.data(s)).is_infinite());
}

#[test]
fn backward_on_leaf_seeds_one() {
    let mut g = Graph::new();
    let a = g.from(bits(4.0));
    g.backward(a);
    assert_eq!(num(g.gradient(a)), 1.0);
}

#[test]
fn backward_fanout_accumulates() {
    // A node used for both operands of a sum receives both contributions.
    let mut g = Graph::new();
    let a = g.from(bits(3.0));
    let d = g.add(a, a);
    g.backward(d);
    assert_eq!(num(g.gradient(d)), 1.0);
    assert_eq!(num(g.gradient(a)), 2.0);
}

#[test]
fn backward_chain_rule() {
    // e = a * b; d = e + c; l = d * f.
    let mut g = Graph::new();
    let a = g.from(bits(2.0));
    let b = g.from(bits(-3.0));
    let c = g.from(bits(10.0));
    let f = g.from(bits(-2.0));
    let e = g.mul(a, b);
    let d = g.add(e, c);
    let l = g.mul(d, f);
    assert_eq!(num(g.data(e)), -6.0);
    assert_eq!(num(g.data(d)), 4.0);
    assert_eq!(num(g.data(l)), -8.0);
    g.backward(l);
    assert_eq!(num(g.gradient(a)), 6.0);
    assert_eq!(num(g.gradient(b)), -4.0);
    assert_eq!(num(g.gradient(c)), -2.0);
    assert_eq!(num(g.gradient(f)), 4.0);
    assert_eq!(num(g.gradient(d)), -2.0);
    assert_eq!(num(g.gradient(l)), 1.0);
}

#[test]
fn backward_twice_doubles() {
    // Accumulators are not reset: a second pass over the same root adds its
    // contributions on top of the first, so the root's direct operands end
    // up doubled. Callers who want fresh gradients must rebuild the leaves.
    let mut g = Graph::new();
    let a = g.from(bits(3.0));
    let d = g.add(a, a);
    g.backward(d);
    assert_eq!(num(g.gradient(a)), 2.0);
    g.backward(d);
    assert_eq!(num(g.gradient(a)), 4.0);
    // The root's own gradient is seeded, not accumulated.
    assert_eq!(num(g.gradient(d)), 1.0);
}

#[test]
fn backward_twice_compounds_deeper_down() {
    // Below the root's direct operands the second pass propagates the
    // already-accumulated interior gradients, so stale accumulators
    // compound rather than double — the caller discipline the engine
    // documents: rebuild leaves, or zero gradients, between passes.
    let mut g = Graph::new();
    let a = g.from(bits(2.0));
    let b = g.from(bits(-3.0));
    let c = g.from(bits(10.0));
    let f = g.from(bits(-2.0));
    let e = g.mul(a, b);
    let d = g.add(e, c);
    let l = g.mul(d, f);
    g.backward(l);
    g.backward(l);
    // d sits directly under the root and doubles; a compounds beyond that.
    assert_eq!(num(g.gradient(d)), -4.0);
    assert_eq!(num(g.gradient(f)), 8.0);
    assert_eq!(num(g.gradient(a)), 24.0);
    assert_eq!(num(g.gradient(l)), 1.0);
}

#[test]
fn backward_diamond_fires_once() {
    // x -> {p, q} -> r: each rule fires exactly once even though x is
    // reachable from r along two paths.
    let mut g = Graph::new();
    let x = g.from(bits(3.0));
    let p = g.add(x, x);
    let q = g.mul(x, x);
    let r = g.mul(p, q);
    assert_eq!(num(g.data(r)), 54.0);
    g.backward(r);
    assert_eq!(num(g.gradient(p)), 9.0);
    assert_eq!(num(g.gradient(q)), 6.0);
    // dr/dx = q * 2 + p * 2x = 18 + 36; a double firing would inflate it.
    assert_eq!(num(g.gradient(x)), 54.0);
}

#[test]
fn backward_pow_rule() {
    // d(a^p)/da = p * a^(p-1); the exponent node receives no gradient.
    let mut g = Graph::new();
    let a = g.from(bits(3.0));
    let p = g.from(bits(2.0));
    let c = g.pow(a, p);
    g.backward(c);
    assert_eq!(num(g.gradient(a)), 6.0);
    assert_eq!(num(g.gradient(p)), 0.0);
}

#[test]
fn backward_exp_rule() {
    // d(e^a)/da is the node's own forward value.
    let mut g = Graph::new();
    let a = g.from(bits(1.0));
    let e = g.exp(a);
    g.backward(e);
    assert_eq!(num(g.gradient(a)), num(g.data(e)));
}

#[test]
fn backward_div_rule() {
    // d(a/b)/da = 1/b and d(a/b)/db = -a/b^2.
    let mut g = Graph::new();
    let a = g.from(bits(3.0));
    let b = g.from(bits(2.0));
    let c = g.div(a, b);
    g.backward(c);
    assert_eq!(num(g.gradient(a)), 0.5);
    assert_eq!(num(g.gradient(b)), -0.75);
}

#[test]
fn backward_sub_rule() {
    let mut g = Graph::new();
    let a = g.from(bits(5.0));
    let b = g.from(bits(2.0));
    let c = g.sub(a, b);
    g.backward(c);
    assert_eq!(num(g.gradient(a)), 1.0);
    assert_eq!(num(g.gradient(b)), -1.0);
}

#[test]
fn backward_through_sum_accumulates() {
    let mut g = Graph::new();
    let a = g.from(bits(1.5));
    let b = g.from(bits(-2.0));
    let s = g.sum(&vec![a, b, a]);
    g.backward(s);
    assert_eq!(num(g.gradient(a)), 2.0);
    assert_eq!(num(g.gradient(b)), 1.0);
}

#[test]
fn backward_leaves_unreached_nodes_alone() {
    let mut g = Graph::new();
    let a = g.from(bits(3.0));
    let b = g.from(bits(7.0));
    let c = g.mul(b, b);
    let d = g.add(a, a);
    g.backward(d);
    assert_eq!(num(g.gradient(a)), 2.0);
    assert_eq!(num(g.gradient(b)), 0.0);
    assert_eq!(num(g.gradient(c)), 0.0);
}

#[test]
fn tanh_stays_in_open_unit_interval() {
    // For moderate finite inputs the value is strictly inside (-1, 1) and
    // the local gradient 1 - tanh(x)^2 is strictly inside (0, 1].
    let inputs = [-5.0, -3.0, -0.5, 0.0, 0.25, 1.0, 4.0, 5.0];
    for &x in inputs.iter() {
        let mut g = Graph::new();
        let a = g.from(bits(x));
        let t = g.tanh(a);
        let tv = num(g.data(t));
        assert!(-1.0 < tv && tv < 1.0);
        g.backward(t);
        let da = num(g.gradient(a));
        assert!(0.0 < da && da <= 1.0);
    }
}

fn build_expression(g: &mut Graph, av: f64, bv: f64, cv: f64) -> (gradrs::Value, gradrs::Value, gradrs::Value, gradrs::Value) {
    let a = g.from(bits(av));
    let b = g.from(bits(bv));
    let c = g.from(bits(cv));
    let t1 = g.mul(a, b);
    let t2 = g.add(t1, c);
    let t3 = g.tanh(t2);
    let t4 = g.exp(t3);
    let out = g.div(t4, b);
    (a, b, c, out)
}

#[test]
fn analytic_gradient_matches_numeric() {
    // Central finite differences agree with the backward pass on every leaf.
    let (av, bv, cv) = (0.7, -1.3, 0.4);
    let h = 1e-5;
    let mut g = Graph::new();
    let (a, b, c, out) = build_expression(&mut g, av, bv, cv);
    let _ = out;
    g.backward(out);
    let grads = [num(g.gradient(a)), num(g.gradient(b)), num(g.gradient(c))];

    let eval = |av: f64, bv: f64, cv: f64| -> f64 {
        let mut g = Graph::new();
        let (_, _, _, out) = build_expression(&mut g, av, bv, cv);
        num(g.data(out))
    };
    let numeric = [
        (eval(av + h, bv, cv) - eval(av - h, bv, cv)) / (2.0 * h),
        (eval(av, bv + h, cv) - eval(av, bv - h, cv)) / (2.0 * h),
        (eval(av, bv, cv + h) - eval(av, bv, cv - h)) / (2.0 * h),
    ];
    for k in 0..3 {
        let scale = grads[k].abs().max(1.0);
        assert!(
            (grads[k] - numeric[k]).abs() <= 1e-3 * scale,
            "leaf {}: analytic {} vs numeric {}",
            k,
            grads[k],
            numeric[k]
        );
    }
}

#[test]
fn labels_attach_without_touching_values() {
    let mut g = Graph::new();
    let a = g.from(bits(2.0));
    let same = g.with_label(a, "x1");
    assert_eq!(same, a);
    assert_eq!(g.label(a), &Some("x1".to_string()));
    assert_eq!(num(g.data(a)), 2.0);
    assert_eq!(num(g.gradient(a)), 0.0);
    let b = g.from(bits(1.0));
    assert_eq!(g.label(b), &None);
}

#[test]
fn graph_len_counts_nodes() {
    let mut g = Graph::new();
    assert_eq!(g.len(), 0);
    let a = g.from(bits(1.0));
    let b = g.from(bits(2.0));
    let _ = g.add(a, b);
    assert_eq!(g.len(), 3);
    // neg appends two nodes: the minus-one leaf and the product.
    let _ = g.neg(a);
    assert_eq!(g.len(), 5);
}
