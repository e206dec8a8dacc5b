use gradrs::Graph;
use gradrs::Layer;
use gradrs::MLP;
use gradrs::Neuron;
use gradrs::Value;

fn to_bits(x: f64) -> u64 {
    x.to_bits()
}

fn to_num(u: u64) -> f64 {
    f64::from_bits(u)
}

fn leaves(g: &mut Graph, xs: &[f64]) -> Vec<Value> {
    xs.iter().map(|&x| g.from(to_bits(x))).collect()
}

#[test]
fn neuron_parameters_are_in_range() {
    let mut g = Graph::new();
    let n = Neuron::new(&mut g, 3);
    let ps = n.parameters();
    assert_eq!(ps.len(), 4);
    for &p in ps.iter() {
        let w = to_num(g.data(p));
        assert!((-1.0..1.0).contains(&w), "weight {} out of range", w);
        assert_eq!(to_num(g.gradient(p)), 0.0);
    }
}

#[test]
fn neuron_call_computes_weighted_tanh() {
    let mut g = Graph::new();
    let ws = leaves(&mut g, &[0.5, -2.0]);
    let bias = g.from(to_bits(0.25));
    let n = Neuron { weights: ws, bias };
    let xs = leaves(&mut g, &[2.0, 3.0]);
    let out = n.call(&mut g, &xs);
    let expected = (2.0 * 0.5 + 3.0 * (-2.0) + 0.25_f64).tanh();
    assert!((to_num(g.data(out)) - expected).abs() < 1e-12);
}

#[test]
fn neuron_call_stops_at_shorter_side() {
    let mut g = Graph::new();
    let ws = leaves(&mut g, &[0.5, -2.0]);
    let bias = g.from(to_bits(0.0));
    let n = Neuron { weights: ws, bias };
    let xs = leaves(&mut g, &[4.0]);
    let out = n.call(&mut g, &xs);
    let expected = (4.0 * 0.5_f64).tanh();
    assert!((to_num(g.data(out)) - expected).abs() < 1e-12);
}

#[test]
fn neuron_backward_reaches_weights() {
    let mut g = Graph::new();
    let ws = leaves(&mut g, &[0.5, -0.25]);
    let bias = g.from(to_bits(0.125));
    let n = Neuron { weights: ws.clone(), bias };
    let xs = leaves(&mut g, &[2.0, 4.0]);
    let out = n.call(&mut g, &xs);
    g.backward(out);
    let t = to_num(g.data(out));
    let local = 1.0 - t * t;
    assert_eq!(to_num(g.gradient(ws[0])), 2.0 * local);
    assert_eq!(to_num(g.gradient(ws[1])), 4.0 * local);
    assert_eq!(to_num(g.gradient(bias)), local);
}

#[test]
fn layer_runs_each_unit_on_the_same_inputs() {
    let mut g = Graph::new();
    let w0 = leaves(&mut g, &[1.0, 0.0]);
    let b0 = g.from(to_bits(0.0));
    let w1 = leaves(&mut g, &[0.0, -1.0]);
    let b1 = g.from(to_bits(0.5));
    let layer = Layer { neurons: vec![Neuron { weights: w0, bias: b0 }, Neuron { weights: w1, bias: b1 }] };
    let xs = leaves(&mut g, &[0.75, 0.25]);
    let outs = layer.call(&mut g, &xs);
    assert_eq!(outs.len(), 2);
    assert!((to_num(g.data(outs[0])) - 0.75_f64.tanh()).abs() < 1e-12);
    assert!((to_num(g.data(outs[1])) - 0.25_f64.tanh()).abs() < 1e-12);
}

#[test]
fn layer_new_shapes_and_parameters() {
    let mut g = Graph::new();
    let layer = Layer::new(&mut g, 2, 3);
    assert_eq!(layer.neurons().len(), 3);
    for n in layer.neurons().iter() {
        assert_eq!(n.weights.len(), 2);
    }
    let ps = layer.parameters();
    assert_eq!(ps.len(), 9);
    // Parameters come unit by unit: weights in order, then the bias.
    let n0 = &layer.neurons()[0];
    assert_eq!(ps[0], n0.weights[0]);
    assert_eq!(ps[1], n0.weights[1]);
    assert_eq!(ps[2], n0.bias);
}

#[test]
fn mlp_shapes_follow_requested_widths() {
    let mut g = Graph::new();
    let m = MLP::new(&mut g, 3, vec![4, 4, 1]);
    assert_eq!(m.layers.len(), 3);
    assert_eq!(m.layers[0].neurons().len(), 4);
    assert_eq!(m.layers[1].neurons().len(), 4);
    assert_eq!(m.layers[2].neurons().len(), 1);
    for n in m.layers[0].neurons().iter() {
        assert_eq!(n.weights.len(), 3);
    }
    for n in m.layers[1].neurons().iter() {
        assert_eq!(n.weights.len(), 4);
    }
    for n in m.layers[2].neurons().iter() {
        assert_eq!(n.weights.len(), 4);
    }
    assert_eq!(m.parameters().len(), 4 * 4 + 4 * 5 + 1 * 5);
}

#[test]
fn mlp_call_composes_layers() {
    let mut g = Graph::new();
    // One unit over two inputs, then one unit over that output.
    let w0 = leaves(&mut g, &[2.0, -1.0]);
    let b0 = g.from(to_bits(0.25));
    let first = Layer { neurons: vec![Neuron { weights: w0, bias: b0 }] };
    let w1 = leaves(&mut g, &[-0.5]);
    let b1 = g.from(to_bits(0.125));
    let second = Layer { neurons: vec![Neuron { weights: w1, bias: b1 }] };
    let m = MLP { layers: vec![first, second] };
    let xs = leaves(&mut g, &[0.5, 0.75]);
    let outs = m.call(&mut g, &xs);
    assert_eq!(outs.len(), 1);
    let h = (0.5 * 2.0 + 0.75 * (-1.0) + 0.25_f64).tanh();
    let expected = (h * (-0.5) + 0.125_f64).tanh();
    assert!((to_num(g.data(outs[0])) - expected).abs() < 1e-12);
    // The whole network output responds to backward.
    g.backward(outs[0]);
    assert_eq!(to_num(g.gradient(outs[0])), 1.0);
    assert!(to_num(g.gradient(xs[0])) != 0.0);
}

#[test]
fn mlp_with_no_layers_returns_inputs() {
    let mut g = Graph::new();
    let m = MLP { layers: vec![] };
    let xs = leaves(&mut g, &[1.5, -2.5]);
    let outs = m.call(&mut g, &xs);
    assert_eq!(outs.len(), 2);
    assert_eq!(to_num(g.data(outs[0])), 1.5);
    assert_eq!(to_num(g.data(outs[1])), -2.5);
}
