use autograd::nn::arrange;
use autograd::nn::loss;
use autograd::nn::parameter_count;
use autograd::nn::Parameters;
use autograd::Error;
use autograd::Graph;
use autograd::Layer;
use autograd::Mlp;
use autograd::Neuron;
use autograd::Operation;
use autograd::Scalar;
use autograd::Term;
use autograd::Value;
use rand::Rng;
use rand::SeedableRng;
use rand_chacha::ChaCha8Rng;

#[derive(Clone, Copy, Debug, PartialEq)]
struct Real(f64);

impl Scalar for Real {
    fn zero_value() -> Self {
        Real(0.0)
    }

    fn one_value() -> Self {
        Real(1.0)
    }

    fn sum(self, other: Self) -> Self {
        Real(self.0 + other.0)
    }

    fn difference(self, other: Self) -> Self {
        Real(self.0 - other.0)
    }

    fn product(self, other: Self) -> Self {
        Real(self.0 * other.0)
    }

    fn power(self, exponent: Self) -> Self {
        Real(self.0.powf(exponent.0))
    }

    fn tanh_value(self) -> Self {
        Real(self.0.tanh())
    }

    fn zero() -> Self {
        Real(0.0)
    }

    fn one() -> Self {
        Real(1.0)
    }

    fn plus(&self, other: &Self) -> Self {
        Real(self.0 + other.0)
    }

    fn minus(&self, other: &Self) -> Self {
        Real(self.0 - other.0)
    }

    fn times(&self, other: &Self) -> Self {
        Real(self.0 * other.0)
    }

    fn powf(&self, exponent: &Self) -> Self {
        Real(self.0.powf(exponent.0))
    }

    fn tanh(&self) -> Self {
        Real(self.0.tanh())
    }

    fn duplicate(&self) -> Self {
        *self
    }

    fn render(&self) -> String {
        format!("{}", self.0)
    }
}

#[test]
fn constant() {
    let mut g: Graph<Real> = Graph::new();
    let c = Value::new(&mut g, Real(5.0), "c");

    assert_eq!(5.0, c.value(&g).0);
    assert_eq!("c", c.label(&g));
}

#[test]
fn constant_starts_with_zero_gradient() {
    let mut g: Graph<Real> = Graph::new();
    let c = Value::new(&mut g, Real(5.0), "c");

    assert_eq!(0.0, c.gradient(&g).0);
    assert!(matches!(g.operations[c.index], Operation::Constant));
    assert_eq!(1, g.len());
}

#[test]
fn add() {
    let mut g: Graph<Real> = Graph::new();
    let a = Value::new(&mut g, Real(3.0), "a");
    let b = Value::new(&mut g, Real(5.0), "b");
    let c = a.add(&mut g, b);

    assert_eq!(8.0, c.value(&g).0);
    assert_eq!("(a + b)", c.label(&g));
}

#[test]
fn multiply() {
    let mut g: Graph<Real> = Graph::new();
    let a = Value::new(&mut g, Real(3.0), "a");
    let b = Value::new(&mut g, Real(5.0), "b");
    let c = a.mul(&mut g, b);

    assert_eq!(15.0, c.value(&g).0);
    assert_eq!("(a * b)", c.label(&g));
}

#[test]
fn subtract() {
    let mut g: Graph<Real> = Graph::new();
    let a = Value::new(&mut g, Real(3.0), "a");
    let b = Value::new(&mut g, Real(5.0), "b");
    let c = a.sub(&mut g, b);

    assert_eq!(-2.0, c.value(&g).0);
    assert_eq!("(a - b)", c.label(&g));
    assert!(matches!(g.operations[c.index], Operation::Subtract(0, 1)));
}

#[test]
fn negate() {
    let mut g: Graph<Real> = Graph::new();
    let a = Value::new(&mut g, Real(3.0), "a");
    let n = a.neg(&mut g);

    assert_eq!(-3.0, n.value(&g).0);
    assert_eq!("(a * -1)", n.label(&g));
    assert_eq!(3, g.len());
    assert_eq!(-1.0, g.values[1].0);
}

#[test]
fn hyperbolic_tangent() {
    let mut g: Graph<Real> = Graph::new();
    let a = Value::new(&mut g, Real(0.5), "n");
    let t = a.tanh(&mut g);

    assert_eq!(0.5f64.tanh(), t.value(&g).0);
    assert_eq!("tanh(n)", t.label(&g));
}

#[test]
fn power() {
    let mut g: Graph<Real> = Graph::new();
    let a = Value::new(&mut g, Real(3.0), "x");
    let p = a.pow(&mut g, Real(2.0));

    assert_eq!(9.0, p.value(&g).0);
    assert_eq!("x^2", p.label(&g));
    assert_eq!(0.0, p.gradient(&g).0);
}

#[test]
fn operands_are_left_untouched() {
    let mut g: Graph<Real> = Graph::new();
    let a = Value::new(&mut g, Real(3.0), "a");
    let b = Value::new(&mut g, Real(5.0), "b");
    let _ = a.mul(&mut g, b);
    let _ = a.tanh(&mut g);

    assert_eq!(3.0, a.value(&g).0);
    assert_eq!(0.0, a.gradient(&g).0);
    assert_eq!("a", a.label(&g));
    assert_eq!(5.0, b.value(&g).0);
    assert_eq!("b", b.label(&g));
}

#[test]
fn expression() {
    let mut g: Graph<Real> = Graph::new();
    let x1 = Value::new(&mut g, Real(2.0), "x1");
    let x2 = Value::new(&mut g, Real(0.0), "x2");

    let w1 = Value::new(&mut g, Real(-3.0), "w1");
    let w2 = Value::new(&mut g, Real(1.0), "w2");

    let b = Value::new(&mut g, Real(6.88137358), "b");

    let x1w1 = x1.mul(&mut g, w1);
    let x2w2 = x2.mul(&mut g, w2);

    let x1w1x2w2 = x1w1.add(&mut g, x2w2);
    let n = x1w1x2w2.add(&mut g, b);

    let o = n.tanh(&mut g);

    assert_eq!(o.value(&g).0, 0.707106777676776);
}

#[test]
fn backpropagation() {
    let mut g: Graph<Real> = Graph::new();
    let a = Value::new(&mut g, Real(-2.0), "a");
    let b = Value::new(&mut g, Real(3.0), "b");

    let d = a.clone().mul(&mut g, b.clone());
    let e = a.clone().add(&mut g, b.clone());
    let f = d.clone().mul(&mut g, e.clone());

    f.backpropagate(&mut g);

    assert_eq!(f.gradient(&g).0, 1.0);
    assert_eq!(e.gradient(&g).0, -6.0);
    assert_eq!(d.gradient(&g).0, 1.0);
    assert_eq!(a.gradient(&g).0, -3.0);
    assert_eq!(b.gradient(&g).0, -8.0);
}

#[test]
fn backpropagation_pow() {
    let mut g: Graph<Real> = Graph::new();
    let a = Value::new(&mut g, Real(3.0), "x");
    let b = a.clone().pow(&mut g, Real(2.0));

    b.backpropagate(&mut g);

    assert_eq!(a.gradient(&g).0, 6.0)
}

#[test]
fn backpropagation_sub() {
    let mut g: Graph<Real> = Graph::new();
    let a = Value::new(&mut g, Real(3.0), "a");
    let b = Value::new(&mut g, Real(2.0), "b");
    let c = a.clone().sub(&mut g, b.clone());

    let d = Value::new(&mut g, Real(3.0), "d");
    let e = Value::new(&mut g, Real(2.0), "e");
    let minus_one = Value::new(&mut g, Real(-1.0), "-1");
    let scaled = e.clone().mul(&mut g, minus_one);
    let f = d.clone().add(&mut g, scaled);

    c.backpropagate(&mut g);
    f.backpropagate(&mut g);

    assert_eq!(a.gradient(&g).0, d.gradient(&g).0);
    assert_eq!(b.gradient(&g).0, e.gradient(&g).0);
}

#[test]
fn subtraction_matches_negated_addition() {
    let mut g: Graph<Real> = Graph::new();
    let a = Value::new(&mut g, Real(7.0), "a");
    let b = Value::new(&mut g, Real(4.0), "b");
    let c = a.sub(&mut g, b);
    c.backpropagate(&mut g);

    let mut h: Graph<Real> = Graph::new();
    let p = Value::new(&mut h, Real(7.0), "a");
    let q = Value::new(&mut h, Real(4.0), "b");
    let negated = q.neg(&mut h);
    let f = p.add(&mut h, negated);
    f.backpropagate(&mut h);

    assert_eq!(a.gradient(&g).0, 1.0);
    assert_eq!(a.gradient(&g).0, p.gradient(&h).0);
    assert_eq!(b.gradient(&g).0, -negated.gradient(&h).0);
    assert_eq!(b.gradient(&g).0, q.gradient(&h).0);
}

#[test]
fn root_gradient_is_one_even_when_stale() {
    let mut g: Graph<Real> = Graph::new();
    let a = Value::new(&mut g, Real(2.0), "a");
    let b = a.tanh(&mut g);
    b.backpropagate(&mut g);
    b.backpropagate(&mut g);

    assert_eq!(b.gradient(&g).0, 1.0);
}

#[test]
fn backpropagation_tanh() {
    let mut g: Graph<Real> = Graph::new();
    let a = Value::new(&mut g, Real(0.0), "a");
    let b = a.tanh(&mut g);
    b.backpropagate(&mut g);

    assert_eq!(a.gradient(&g).0, 1.0);
}

#[test]
fn square_of_a_shared_node() {
    let mut g: Graph<Real> = Graph::new();
    let x = Value::new(&mut g, Real(2.0), "x");
    let p = x.mul(&mut g, x);
    p.backpropagate(&mut g);

    assert_eq!(x.gradient(&g).0, 4.0);
}

#[test]
fn diamond_gradients_wait_for_every_use() {
    let mut g: Graph<Real> = Graph::new();
    let x = Value::new(&mut g, Real(2.0), "x");
    let w = Value::new(&mut g, Real(3.0), "w");
    let u = x.mul(&mut g, w);
    let y = u.add(&mut g, u);
    let z = y.mul(&mut g, u);
    z.backpropagate(&mut g);

    // z = 2 u^2 with u = 6, so dz/du = 24, dz/dx = 72 and dz/dw = 48.
    assert_eq!(y.gradient(&g).0, 6.0);
    assert_eq!(u.gradient(&g).0, 24.0);
    assert_eq!(x.gradient(&g).0, 72.0);
    assert_eq!(w.gradient(&g).0, 48.0);
}

#[test]
fn doubled_node_collects_both_uses() {
    let mut g: Graph<Real> = Graph::new();
    let x = Value::new(&mut g, Real(5.0), "x");
    let y = x.add(&mut g, x);
    let three = Value::new(&mut g, Real(3.0), "3");
    let z = y.mul(&mut g, three);
    z.backpropagate(&mut g);

    assert_eq!(y.gradient(&g).0, 3.0);
    assert_eq!(x.gradient(&g).0, 6.0);
}

#[test]
fn nodes_outside_the_root_keep_their_gradient() {
    let mut g: Graph<Real> = Graph::new();
    let a = Value::new(&mut g, Real(1.0), "a");
    let b = Value::new(&mut g, Real(2.0), "b");
    let c = a.tanh(&mut g);
    let d = b.mul(&mut g, b);
    c.backpropagate(&mut g);

    assert_eq!(b.gradient(&g).0, 0.0);
    assert_eq!(d.gradient(&g).0, 0.0);
    assert_eq!(d.value(&g).0, 4.0);
}

#[test]
fn nudge_steps_against_the_gradient() {
    let mut g: Graph<Real> = Graph::new();
    let a = Value::new(&mut g, Real(3.0), "a");
    let b = Value::new(&mut g, Real(4.0), "b");
    let c = a.mul(&mut g, b);
    c.backpropagate(&mut g);
    a.nudge(&mut g, &Real(0.5));

    assert_eq!(a.value(&g).0, 1.0);
    assert_eq!(a.gradient(&g).0, 0.0);
    assert_eq!(b.value(&g).0, 4.0);
    assert_eq!(b.gradient(&g).0, 3.0);
}

fn inputs(g: &mut Graph<Real>, numbers: &[f64]) -> Vec<Value> {
    let mut handles = Vec::new();
    for (i, number) in numbers.iter().enumerate() {
        handles.push(Value::new(g, Real(*number), &format!("x_{}", i + 1)));
    }
    handles
}

fn unit(weights: &[f64], bias: f64) -> Parameters<Real> {
    Parameters { weights: weights.iter().map(|w| Real(*w)).collect(), bias: Real(bias) }
}

fn seeded(g: &mut Graph<Real>, inputs: usize, layer_sizes: &[usize], seed: u64) -> (Mlp, Vec<Real>) {
    let mut rng = ChaCha8Rng::seed_from_u64(seed);
    let count = parameter_count(inputs, layer_sizes).expect("the count fits");
    let numbers: Vec<Real> = (0..count).map(|_| Real(rng.gen_range(-1.0..=1.0))).collect();
    let mlp = Mlp::from_numbers(g, inputs, layer_sizes, &numbers).expect("the count matches");
    (mlp, numbers)
}

#[test]
fn neuron() {
    let mut g: Graph<Real> = Graph::new();
    let neuron = Neuron {
        weights: vec![
            Value::new(&mut g, Real(1.0), "w_1"),
            Value::new(&mut g, Real(0.5), "w_2"),
            Value::new(&mut g, Real(0.1), "w_3"),
        ],
        bias: Value::new(&mut g, Real(-0.3), "b"),
    };
    let x = [
        Value::new(&mut g, Real(1.0), "x_1"),
        Value::new(&mut g, Real(2.0), "x_2"),
        Value::new(&mut g, Real(3.0), "x_3"),
    ];

    let out = neuron.call(&mut g, &x).expect("neuron call should succeed");

    assert_eq!(out.value(&g).0, 0.9640275800758169)
}

#[test]
fn seeded_network_matches_direct_evaluation() {
    let mut g: Graph<Real> = Graph::new();
    let (mlp, numbers) = seeded(&mut g, 3, &[4, 4, 1], 1);
    let x = [
        Value::new(&mut g, Real(2.0), "x_1"),
        Value::new(&mut g, Real(3.0), "x_2"),
        Value::new(&mut g, Real(-1.0), "x_3"),
    ];

    let out = mlp.predict(&mut g, &x).expect("should calculate");

    let mut signal = vec![2.0f64, 3.0, -1.0];
    let mut at = 0;
    for size in [4usize, 4, 1] {
        let mut next = Vec::new();
        for _ in 0..size {
            let mut sum = numbers[at + signal.len()].0;
            for (w, s) in numbers[at..at + signal.len()].iter().zip(&signal) {
                sum = sum + w.0 * *s;
            }
            at += signal.len() + 1;
            next.push(sum.tanh());
        }
        signal = next;
    }
    assert_eq!(at, numbers.len());
    assert_eq!(out.len(), 1);
    assert_eq!(out[0].value(&g).0, signal[0]);
    assert!((out[0].value(&g).0 - -0.5146818780021741).abs() < 1e-12);
    assert_eq!(mlp.layers.len(), 3);
    assert_eq!(mlp.layers[1].neurons.len(), 4);
    assert_eq!(g.len(), 41 + 3 + 73);
}

#[test]
fn predict_rejects_two_inputs_for_three() {
    let mut g: Graph<Real> = Graph::new();
    let (mlp, _) = seeded(&mut g, 3, &[4, 4, 1], 1);
    let x = inputs(&mut g, &[2.0, 3.0]);
    let before = g.len();

    let out = mlp.predict(&mut g, &x);

    assert_eq!(out, Err(Error::DimensionMismatch(3, 2)));
    assert_eq!(g.len(), before);
}

#[test]
fn neuron_rejects_wrong_arity() {
    let mut g: Graph<Real> = Graph::new();
    let neuron = Neuron::new(&mut g, &[Real(1.0), Real(0.5)], &Real(0.0));
    let x = inputs(&mut g, &[1.0, 2.0, 3.0]);

    assert_eq!(neuron.call(&mut g, &x), Err(Error::DimensionMismatch(2, 3)));
    assert_eq!(g.len(), 6);
}

#[test]
fn layer_rejects_wrong_arity() {
    let mut g: Graph<Real> = Graph::new();
    let layer = Layer::new(&mut g, 2, &[unit(&[1.0, 0.5], 0.0)]);
    let x = inputs(&mut g, &[1.0]);

    assert_eq!(layer.call(&mut g, &x), Err(Error::DimensionMismatch(2, 1)));
}

#[test]
fn neuron_leaves_are_labelled_by_position() {
    let mut g: Graph<Real> = Graph::new();
    let neuron = Neuron::new(&mut g, &[Real(1.0), Real(0.5)], &Real(-0.3));

    assert_eq!(neuron.weights[0].label(&g), "w_0");
    assert_eq!(neuron.weights[1].label(&g), "w_1");
    assert_eq!(neuron.bias.label(&g), "b");
    assert_eq!(neuron.weights[1].value(&g).0, 0.5);
    assert_eq!(neuron.bias.value(&g).0, -0.3);
    assert_eq!(neuron.bias.gradient(&g).0, 0.0);
}

#[test]
fn neuron_adds_products_from_left_to_right() {
    let mut g: Graph<Real> = Graph::new();
    let neuron = Neuron::new(&mut g, &[Real(2.0), Real(-1.0)], &Real(0.5));
    let x = inputs(&mut g, &[3.0, 4.0]);

    let out = neuron.call(&mut g, &x).expect("arity matches");

    assert_eq!(out.value(&g).0, (0.5f64 + 2.0 * 3.0 + -1.0 * 4.0).tanh());
    assert_eq!(out.label(&g), "tanh(((b + (w_0 * x_1)) + (w_1 * x_2)))");
    assert_eq!(g.len(), 10);
}

#[test]
fn layer_gives_one_output_for_each_neuron() {
    let mut g: Graph<Real> = Graph::new();
    let layer = Layer::new(&mut g, 2, &[unit(&[1.0, 0.0], 0.0), unit(&[0.0, 1.0], 1.0)]);
    let x = inputs(&mut g, &[0.25, 0.5]);

    let out = layer.call(&mut g, &x).expect("arity matches");

    assert_eq!(out.len(), 2);
    assert_eq!(out[0].value(&g).0, 0.25f64.tanh());
    assert_eq!(out[1].value(&g).0, 1.5f64.tanh());
}

#[test]
fn network_threads_inputs_through_its_layers() {
    let mut g: Graph<Real> = Graph::new();
    let units = vec![vec![unit(&[1.0], 0.0), unit(&[-1.0], 0.0)], vec![unit(&[1.0, 1.0], 0.5)]];
    let mlp = Mlp::new(&mut g, 1, &units);
    let x = inputs(&mut g, &[0.75]);

    let out = mlp.predict(&mut g, &x).expect("arity matches");

    let first = 0.75f64.tanh();
    let second = (-0.75f64).tanh();
    assert_eq!(out.len(), 1);
    assert_eq!(out[0].value(&g).0, (0.5 + first + second).tanh());
}

#[test]
fn nudge_parameters_steps_every_weight_and_bias() {
    let mut g: Graph<Real> = Graph::new();
    let mlp = Mlp::new(&mut g, 1, &[vec![unit(&[2.0], 1.0)]]);
    let x = inputs(&mut g, &[0.0]);
    let out = mlp.predict(&mut g, &x).expect("arity matches");
    out[0].backpropagate(&mut g);

    let weight = mlp.layers[0].neurons[0].weights[0];
    let bias = mlp.layers[0].neurons[0].bias;
    let slope = 1.0 - 1.0f64.tanh().powf(2.0);
    assert_eq!(bias.gradient(&g).0, slope);
    assert_eq!(weight.gradient(&g).0, 0.0);
    assert_eq!(x[0].gradient(&g).0, 2.0 * slope);

    mlp.nudge_parameters(&mut g, &Real(0.5));

    assert_eq!(bias.value(&g).0, 1.0 - 0.5 * slope);
    assert_eq!(bias.gradient(&g).0, 0.0);
    assert_eq!(weight.value(&g).0, 2.0);
    assert_eq!(weight.gradient(&g).0, 0.0);
    assert_eq!(x[0].gradient(&g).0, 2.0 * slope);
}

#[test]
fn loss_sums_squared_differences() {
    let mut g: Graph<Real> = Graph::new();
    let targets = inputs(&mut g, &[1.0, -1.0]);
    let predicted = inputs(&mut g, &[0.5, 2.0]);

    let total = loss(&mut g, &targets, &predicted);

    assert_eq!(total.value(&g).0, 0.25 + 9.0);
    total.backpropagate(&mut g);
    assert_eq!(predicted[0].gradient(&g).0, -1.0);
    assert_eq!(predicted[1].gradient(&g).0, 6.0);
    assert_eq!(targets[1].gradient(&g).0, -6.0);
}

#[test]
fn loss_ignores_surplus_entries() {
    let mut g: Graph<Real> = Graph::new();
    let targets = inputs(&mut g, &[1.0, -1.0, 4.0]);
    let predicted = inputs(&mut g, &[3.0]);

    let total = loss(&mut g, &targets, &predicted);

    assert_eq!(total.value(&g).0, 4.0);
    assert_eq!(g.len(), 8);
}

#[test]
fn terms_record_the_formula_of_a_value() {
    let mut g: Graph<Term> = Graph::new();
    let a = Value::new(&mut g, Term::Unknown(0), "a");
    let b = Value::new(&mut g, Term::Unknown(1), "b");
    let c = a.add(&mut g, b);
    let d = c.tanh(&mut g);

    assert_eq!(
        *d.value(&g),
        Term::Tanh(Box::new(Term::Sum(Box::new(Term::Unknown(0)), Box::new(Term::Unknown(1)))))
    );
    assert_eq!(d.label(&g), "tanh((a + b))");
}

#[test]
fn terms_record_the_formula_of_a_gradient() {
    let mut g: Graph<Term> = Graph::new();
    let x = Value::new(&mut g, Term::Unknown(0), "x");
    let p = x.mul(&mut g, x);
    p.backpropagate(&mut g);

    let share = Term::Product(Box::new(Term::Unknown(0)), Box::new(Term::One));
    assert_eq!(*p.gradient(&g), Term::One);
    assert_eq!(
        *x.gradient(&g),
        Term::Sum(
            Box::new(Term::Sum(Box::new(Term::Zero), Box::new(share.duplicate()))),
            Box::new(share)
        )
    );
}

#[test]
fn terms_are_written_like_labels() {
    let two = Term::One.plus(&Term::One);
    let formula = Term::Unknown(3).minus(&Term::Zero).times(&two).powf(&two).tanh();

    assert_eq!(formula.render(), "tanh(((u3 - 0) * (1 + 1))^(1 + 1))");

    let mut g: Graph<Term> = Graph::new();
    let x = Value::new(&mut g, Term::Unknown(0), "x");
    let p = x.pow(&mut g, two);
    assert_eq!(p.label(&g), "x^(1 + 1)");
}

#[test]
fn unknowns_are_written_with_their_decimal_number() {
    assert_eq!(Term::Unknown(0).render(), "u0");
    assert_eq!(Term::Unknown(7).render(), "u7");
    assert_eq!(Term::Unknown(10).render(), "u10");
    assert_eq!(Term::Unknown(1205).render(), "u1205");
    assert_eq!(Term::Unknown(9876543210).render(), "u9876543210");
    assert_eq!(Term::Unknown(usize::MAX).render(), format!("u{}", usize::MAX));
}

#[test]
fn every_kind_of_term_is_written() {
    let x = Term::Unknown(42);
    assert_eq!(Term::Zero.render(), "0");
    assert_eq!(Term::One.render(), "1");
    assert_eq!(x.plus(&Term::One).render(), "(u42 + 1)");
    assert_eq!(x.minus(&Term::One).render(), "(u42 - 1)");
    assert_eq!(x.times(&Term::Zero).render(), "(u42 * 0)");
    assert_eq!(x.powf(&Term::One).render(), "u42^1");
    assert_eq!(x.tanh().render(), "tanh(u42)");
}

#[test]
fn network_without_layers_gives_its_inputs_back() {
    let mut g: Graph<Real> = Graph::new();
    let mlp = Mlp::from_numbers(&mut g, 2, &[], &[]).expect("no numbers are needed");
    let x = inputs(&mut g, &[1.0, 2.0]);

    let out = mlp.predict(&mut g, &x).expect("the count matches");

    assert_eq!(out.len(), 2);
    assert_eq!(out[0].value(&g).0, 1.0);
    assert_eq!(out[1].value(&g).0, 2.0);
    assert_eq!(out, x);
    assert_eq!(g.len(), 2);
    let one = inputs(&mut g, &[1.0]);
    assert_eq!(mlp.predict(&mut g, &one), Err(Error::DimensionMismatch(2, 1)));
}

#[test]
fn outputs_are_new_nodes() {
    let mut g: Graph<Real> = Graph::new();
    let (mlp, _) = seeded(&mut g, 3, &[4, 4, 1], 7);
    let x = inputs(&mut g, &[0.1, 0.2, 0.3]);
    let before = g.len();

    let out = mlp.predict(&mut g, &x).expect("the count matches");

    assert!(out.iter().all(|v| v.index >= before));
    assert!(out.iter().all(|v| v.gradient(&g).0 == 0.0));
}

#[test]
fn parameter_count_adds_one_bias_for_each_neuron() {
    assert_eq!(parameter_count(3, &[4, 4, 1]), Some(41));
    assert_eq!(parameter_count(3, &[]), Some(0));
    assert_eq!(parameter_count(0, &[2]), Some(2));
    assert_eq!(parameter_count(5, &[0, 3]), Some(3));
    assert_eq!(parameter_count(usize::MAX, &[1]), None);
    assert_eq!(parameter_count(1, &[usize::MAX]), None);
    assert_eq!(parameter_count(usize::MAX, &[0]), Some(0));
}

#[test]
fn numbers_are_cut_into_weights_then_bias() {
    let numbers: Vec<Real> = (1..=9).map(|n| Real(n as f64)).collect();

    let units = arrange(2, &[2, 1], &numbers).expect("nine numbers are needed");

    assert_eq!(units.len(), 2);
    assert_eq!(units[0].len(), 2);
    assert_eq!(units[0][0].weights, vec![Real(1.0), Real(2.0)]);
    assert_eq!(units[0][0].bias, Real(3.0));
    assert_eq!(units[0][1].weights, vec![Real(4.0), Real(5.0)]);
    assert_eq!(units[0][1].bias, Real(6.0));
    assert_eq!(units[1].len(), 1);
    assert_eq!(units[1][0].weights, vec![Real(7.0), Real(8.0)]);
    assert_eq!(units[1][0].bias, Real(9.0));
}

#[test]
fn a_wrong_count_of_numbers_builds_nothing() {
    let numbers: Vec<Real> = (1..=9).map(|n| Real(n as f64)).collect();
    let mut g: Graph<Real> = Graph::new();

    assert!(arrange(2, &[2, 1], &numbers[..8]).is_none());
    assert!(arrange(2, &[2, 2], &numbers).is_none());
    assert!(arrange(2, &[], &numbers).is_none());
    assert!(Mlp::from_numbers(&mut g, 2, &[2, 1], &numbers[..8]).is_none());
    assert_eq!(g.len(), 0);
    assert!(Mlp::from_numbers(&mut g, 2, &[2, 1], &numbers).is_some());
    assert_eq!(g.len(), 9);
}

#[test]
fn network_from_numbers_holds_them_in_order() {
    let numbers: Vec<Real> = (1..=9).map(|n| Real(n as f64)).collect();
    let mut g: Graph<Real> = Graph::new();

    let mlp = Mlp::from_numbers(&mut g, 2, &[2, 1], &numbers).expect("the count matches");

    assert_eq!(mlp.inputs, 2);
    assert_eq!(mlp.layers[0].inputs, 2);
    assert_eq!(mlp.layers[1].inputs, 2);
    assert_eq!(mlp.layers[0].neurons[1].weights[0].value(&g).0, 4.0);
    assert_eq!(mlp.layers[0].neurons[1].bias.value(&g).0, 6.0);
    assert_eq!(mlp.layers[1].neurons[0].weights[1].value(&g).0, 8.0);
    assert_eq!(mlp.layers[1].neurons[0].weights[1].label(&g), "w_1");
    assert_eq!(mlp.layers[1].neurons[0].bias.label(&g), "b");
}

#[test]
fn weights_beyond_the_ninth_are_labelled_in_decimal() {
    let mut g: Graph<Real> = Graph::new();
    let weights: Vec<Real> = (0..12).map(|n| Real(n as f64)).collect();
    let neuron = Neuron::new(&mut g, &weights, &Real(0.0));

    assert_eq!(neuron.weights[0].label(&g), "w_0");
    assert_eq!(neuron.weights[9].label(&g), "w_9");
    assert_eq!(neuron.weights[10].label(&g), "w_10");
    assert_eq!(neuron.weights[11].label(&g), "w_11");
}

#[test]
fn nudge_parameters_leaves_other_nodes_alone() {
    let mut g: Graph<Real> = Graph::new();
    let numbers: Vec<Real> = (1..=9).map(|n| Real(n as f64 / 10.0)).collect();
    let mlp = Mlp::from_numbers(&mut g, 2, &[2, 1], &numbers).expect("the count matches");
    let x = inputs(&mut g, &[0.5, -0.5]);
    let out = mlp.predict(&mut g, &x).expect("the count matches");
    out[0].backpropagate(&mut g);
    let values: Vec<f64> = g.values.iter().map(|v| v.0).collect();
    let gradients: Vec<f64> = g.gradients.iter().map(|v| v.0).collect();

    mlp.nudge_parameters(&mut g, &Real(0.25));

    for i in 0..g.len() {
        if i < 9 {
            assert_eq!(g.values[i].0, values[i] - 0.25 * gradients[i]);
            assert_eq!(g.gradients[i].0, 0.0);
        } else {
            assert_eq!(g.values[i].0, values[i]);
            assert_eq!(g.gradients[i].0, gradients[i]);
        }
    }
}
