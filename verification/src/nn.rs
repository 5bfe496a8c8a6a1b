//! A small feed-forward network built on the engine.
//!
//! Neurons, layers and networks hold handles to their weights and biases,
//! which are leaves of a graph. Evaluating one of them adds the nodes of the
//! forward computation to that graph and hands back the handles of the
//! outputs.
use vstd::prelude::*;
use crate::scalar::Scalar;
use crate::text::binary_text;
use crate::text::tanh_text;
use crate::text::append_decimal;
use crate::text::decimal_text;
use crate::text::weight_label;
use crate::text::weight_text;
use crate::value::is_power_label;
use crate::value::Graph;
use crate::value::Operation;
use crate::value::Value;

verus! {

/// What can go wrong when a network is evaluated.
#[derive(Debug, PartialEq, Eq)]
pub enum Error {
    /// The number of inputs expected, then the number given.
    DimensionMismatch(usize, usize),
}

/// One unit: a weight for each input, and a bias.
#[derive(Debug)]
pub struct Neuron {
    pub weights: Vec<Value>,
    pub bias: Value,
}

/// Neurons that all read the same inputs.
#[derive(Debug)]
pub struct Layer {
    pub inputs: usize,
    pub neurons: Vec<Neuron>,
}

/// Layers in a row, each reading what the one before it gives out.
#[derive(Debug)]
pub struct Mlp {
    pub inputs: usize,
    pub layers: Vec<Layer>,
}

/// The values of the nodes that `handles` name, in the order of the handles.
pub open spec fn picked<S>(values: Seq<S>, handles: Seq<Value>) -> Seq<S> {
    Seq::new(handles.len(), |i: int| values[handles[i].index as int])
}

/// Every handle names a node below `bound`.
pub open spec fn all_below(handles: Seq<Value>, bound: int) -> bool {
    forall|i: int| 0 <= i < handles.len() ==> (#[trigger] handles[i]).index < bound
}

/// The bias plus the first `k` products of a weight and its input, added
/// from left to right.
pub open spec fn weighted_sum<S: Scalar>(weights: Seq<S>, bias: S, xs: Seq<S>, k: nat) -> S
    decreases k,
{
    if k == 0 {
        bias
    } else {
        weighted_sum(weights, bias, xs, (k - 1) as nat).sum(weights[k - 1].product(xs[k - 1]))
    }
}

/// What a neuron with these weights and this bias gives for the inputs `xs`.
pub open spec fn activation<S: Scalar>(weights: Seq<S>, bias: S, xs: Seq<S>) -> S {
    weighted_sum(weights, bias, xs, weights.len()).tanh_value()
}

/// The node that carries the running sum of a neuron after `k` terms, when
/// the neuron's nodes start at `base`.
pub open spec fn carrier(bias: Value, base: int, k: int) -> int {
    if k == 0 {
        bias.index as int
    } else {
        base + 2 * k - 1
    }
}

/// The label of the weight at `position`: `w_` followed by the position in
/// decimal digits.
pub open spec fn is_weight_label(label: Seq<char>, position: usize) -> bool {
    label == weight_text(decimal_text(position as nat))
}

fn position_label(position: usize) -> (r: String)
    ensures
        is_weight_label(r@, position),
{
    let mut digits = String::new();
    append_decimal(&mut digits, position);
    assert(digits@ =~= decimal_text(position as nat));
    weight_label(digits.as_str())
}

impl Neuron {
    /// Weights and bias are nodes below `bound`.
    pub open spec fn below(&self, bound: int) -> bool {
        all_below(self.weights@, bound) && self.bias.index < bound
    }

    /// What the neuron gives for the inputs `xs` when its weights and bias
    /// have the values they have in `values`.
    pub open spec fn output<S: Scalar>(&self, values: Seq<S>, xs: Seq<S>) -> S {
        activation(picked(values, self.weights@), values[self.bias.index as int], xs)
    }

    /// `after` is `before` followed by the leaves of this neuron: one per
    /// weight, labelled by position, then the bias, labelled `b`.
    pub open spec fn planted<S: Scalar>(
        &self,
        before: Graph<S>,
        after: Graph<S>,
        weights: Seq<S>,
        bias: S,
    ) -> bool {
        let base = before.size();
        let n = weights.len() as int;
        &&& after.extends(before)
        &&& after.size() == base + n + 1
        &&& self.weights@.len() == n
        &&& self.bias.index == base + n
        &&& after.values@[base + n] == bias
        &&& after.labels@[base + n]@ == "b"@
        &&& forall|k: int| 0 <= k < n ==> (#[trigger] self.weights@[k]).index == base + k
        &&& forall|k: int| 0 <= k < n ==> #[trigger] after.values@[base + k] == weights[k]
        &&& forall|k: int|
            0 <= k < n ==> is_weight_label((#[trigger] after.labels@[base + k])@, k as usize)
        &&& forall|i: int|
            base <= i < after.size() ==> #[trigger] after.gradients@[i] == S::zero_value()
        &&& forall|i: int|
            base <= i < after.size() ==> #[trigger] after.operations@[i] == Operation::<
                S,
            >::Constant
    }

    /// `after` is `before` followed by the nodes of one evaluation on the
    /// inputs `x`: for each weight its product with the input and the sum so
    /// far, and at the end the hyperbolic tangent of the whole sum, which is
    /// `out`. All new gradients are zero.
    pub open spec fn wired<S: Scalar>(
        &self,
        before: Graph<S>,
        after: Graph<S>,
        x: Seq<Value>,
        out: Value,
    ) -> bool {
        let base = before.size();
        let n = self.weights@.len() as int;
        let ws = picked(before.values@, self.weights@);
        let xs = picked(before.values@, x);
        let bias = before.values@[self.bias.index as int];
        &&& after.extends(before)
        &&& after.size() == base + 2 * n + 1
        &&& out.index == base + 2 * n
        &&& after.values@[out.index as int] == self.output(before.values@, xs)
        &&& after.operations@[out.index as int] == Operation::<S>::HyperbolicTangent(
            carrier(self.bias, base, n) as usize,
        )
        &&& forall|k: int|
            0 <= k < n ==> #[trigger] after.operations@[base + 2 * k] == Operation::<S>::Multiply(
                self.weights@[k].index,
                x[k].index,
            )
        &&& forall|k: int|
            0 <= k < n ==> #[trigger] after.values@[base + 2 * k] == ws[k].product(xs[k])
        &&& forall|k: int|
            0 <= k < n ==> #[trigger] after.operations@[base + 2 * k + 1] == Operation::<S>::Add(
                carrier(self.bias, base, k) as usize,
                (base + 2 * k) as usize,
            )
        &&& forall|k: int|
            0 <= k < n ==> #[trigger] after.values@[base + 2 * k + 1] == weighted_sum(
                ws,
                bias,
                xs,
                (k + 1) as nat,
            )
        &&& forall|i: int|
            base <= i < after.size() ==> #[trigger] after.gradients@[i] == S::zero_value()
        &&& after.labels@[out.index as int]@ == tanh_text(
            after.labels@[carrier(self.bias, base, n)]@,
        )
        &&& forall|k: int|
            0 <= k < n ==> (#[trigger] after.labels@[base + 2 * k])@ == binary_text(
                after.labels@[self.weights@[k].index as int]@,
                " * "@,
                after.labels@[x[k].index as int]@,
            )
        &&& forall|k: int|
            0 <= k < n ==> (#[trigger] after.labels@[base + 2 * k + 1])@ == binary_text(
                after.labels@[carrier(self.bias, base, k)]@,
                " + "@,
                after.labels@[base + 2 * k]@,
            )
    }

    /// A neuron whose weights and bias are new leaves of `g` with the given
    /// values.
    pub fn new<S: Scalar>(g: &mut Graph<S>, weights: &[S], bias: &S) -> (r: Neuron)
        requires
            old(g).wf(),
        ensures
            final(g).wf(),
            r.below(final(g).size()),
            r.planted(*old(g), *final(g), weights@, *bias),
    {
        let ghost base = g.size();
        let mut handles: Vec<Value> = Vec::new();
        let mut k: usize = 0;
        while k < weights.len()
            invariant
                g.wf(),
                g.extends(*old(g)),
                base == old(g).size(),
                k <= weights@.len(),
                g.size() == base + k,
                handles@.len() == k,
                forall|j: int| 0 <= j < k ==> (#[trigger] handles@[j]).index == base + j,
                forall|j: int| 0 <= j < k ==> #[trigger] g.values@[base + j] == weights@[j],
                forall|j: int|
                    0 <= j < k ==> is_weight_label((#[trigger] g.labels@[base + j])@, j as usize),
                forall|i: int| base <= i < g.size() ==> #[trigger] g.gradients@[i] == S::zero_value(),
                forall|i: int|
                    base <= i < g.size() ==> #[trigger] g.operations@[i] == Operation::<S>::Constant,
            decreases weights@.len() - k,
        {
            let label = position_label(k);
            let leaf = Value::new(g, weights[k].duplicate(), label.as_str());
            handles.push(leaf);
            k += 1;
        }
        let bias = Value::new(g, bias.duplicate(), "b");
        Neuron { weights: handles, bias }
    }

    /// The neuron's output for the inputs `x`: the hyperbolic tangent of the
    /// bias plus each weight times its input.
    ///
    /// Fails, and leaves the graph alone, when the number of inputs is not
    /// the number of weights.
    pub fn call<S: Scalar>(&self, g: &mut Graph<S>, x: &[Value]) -> (r: Result<Value, Error>)
        requires
            old(g).wf(),
            self.below(old(g).size()),
            all_below(x@, old(g).size()),
        ensures
            final(g).wf(),
            x@.len() != self.weights@.len() ==> r == Err::<Value, Error>(
                Error::DimensionMismatch(self.weights@.len() as usize, x@.len() as usize),
            ) && *final(g) == *old(g),
            x@.len() == self.weights@.len() ==> r is Ok && self.wired(
                *old(g),
                *final(g),
                x@,
                r.unwrap(),
            ),
    {
        if x.len() != self.weights.len() {
            return Err(Error::DimensionMismatch(self.weights.len(), x.len()));
        }
        let ghost base = g.size();
        let ghost ws = picked(g.values@, self.weights@);
        let ghost xs = picked(g.values@, x@);
        let ghost b = g.values@[self.bias.index as int];
        let n = self.weights.len();
        let mut sum = self.bias;
        let mut k: usize = 0;
        while k < n
            invariant
                g.wf(),
                g.extends(*old(g)),
                base == old(g).size(),
                ws == picked(old(g).values@, self.weights@),
                xs == picked(old(g).values@, x@),
                b == old(g).values@[self.bias.index as int],
                self.below(base),
                all_below(x@, base),
                n == self.weights@.len(),
                n == x@.len(),
                k <= n,
                g.size() == base + 2 * k,
                sum.index == carrier(self.bias, base, k as int),
                g.values@[sum.index as int] == weighted_sum(ws, b, xs, k as nat),
                forall|j: int|
                    0 <= j < k ==> #[trigger] g.operations@[base + 2 * j] == Operation::<
                        S,
                    >::Multiply(self.weights@[j].index, x@[j].index),
                forall|j: int|
                    0 <= j < k ==> #[trigger] g.values@[base + 2 * j] == ws[j].product(xs[j]),
                forall|j: int|
                    0 <= j < k ==> #[trigger] g.operations@[base + 2 * j + 1] == Operation::<S>::Add(
                        carrier(self.bias, base, j) as usize,
                        (base + 2 * j) as usize,
                    ),
                forall|j: int|
                    0 <= j < k ==> #[trigger] g.values@[base + 2 * j + 1] == weighted_sum(
                        ws,
                        b,
                        xs,
                        (j + 1) as nat,
                    ),
                forall|i: int| base <= i < g.size() ==> #[trigger] g.gradients@[i] == S::zero_value(),
                forall|j: int|
                    0 <= j < k ==> (#[trigger] g.labels@[base + 2 * j])@ == binary_text(
                        g.labels@[self.weights@[j].index as int]@,
                        " * "@,
                        g.labels@[x@[j].index as int]@,
                    ),
                forall|j: int|
                    0 <= j < k ==> (#[trigger] g.labels@[base + 2 * j + 1])@ == binary_text(
                        g.labels@[carrier(self.bias, base, j)]@,
                        " + "@,
                        g.labels@[base + 2 * j]@,
                    ),
            decreases n - k,
        {
            let weight = self.weights[k];
            let input = x[k];
            assert(self.weights@[k as int].index < base);
            assert(x@[k as int].index < base);
            let term = weight.mul(g, input);
            sum = sum.add(g, term);
            k += 1;
        }
        let out = sum.tanh(g);
        Ok(out)
    }
}

/// Nodes below `bound` have the same values in `after` as in `before`, so
/// handles to them pick the same values from both.
pub proof fn lemma_picked_stable<S>(before: Seq<S>, after: Seq<S>, handles: Seq<Value>, bound: int)
    requires
        all_below(handles, bound),
        bound <= before.len(),
        bound <= after.len(),
        forall|i: int| 0 <= i < bound ==> after[i] == before[i],
    ensures
        picked(after, handles) == picked(before, handles),
{
    assert(picked(after, handles) =~= picked(before, handles));
}

/// The values that one neuron starts from.
pub struct Parameters<S> {
    pub weights: Vec<S>,
    pub bias: S,
}

/// The number of inputs that layer `l` reads in a network with `inputs`
/// inputs and the parameter values `units`.
pub open spec fn reads<S>(inputs: usize, units: Seq<Vec<Parameters<S>>>, l: int) -> int {
    if l == 0 {
        inputs as int
    } else {
        units[l - 1]@.len() as int
    }
}

/// Every neuron in `units` has one weight for each input of its layer.
pub open spec fn shaped<S>(inputs: usize, units: Seq<Vec<Parameters<S>>>) -> bool {
    forall|l: int, j: int|
        0 <= l < units.len() && 0 <= j < units[l]@.len() ==> (#[trigger] units[l]@[j]).weights@.len()
            == reads(inputs, units, l)
}

impl Neuron {
    /// The neuron's weights and bias are leaves of `g` with the values `p`
    /// and zero gradients; the weights are labelled by position and the
    /// bias is labelled `b`.
    pub open spec fn seated<S: Scalar>(&self, g: Graph<S>, p: Parameters<S>) -> bool {
        &&& self.below(g.size())
        &&& self.weights@.len() == p.weights@.len()
        &&& g.values@[self.bias.index as int] == p.bias
        &&& g.gradients@[self.bias.index as int] == S::zero_value()
        &&& g.labels@[self.bias.index as int]@ == "b"@
        &&& g.operations@[self.bias.index as int] == Operation::<S>::Constant
        &&& forall|k: int|
            0 <= k < self.weights@.len() ==> {
                let w = (#[trigger] self.weights@[k]).index as int;
                &&& g.values@[w] == p.weights@[k]
                &&& g.gradients@[w] == S::zero_value()
                &&& is_weight_label(g.labels@[w]@, k as usize)
                &&& g.operations@[w] == Operation::<S>::Constant
            }
    }
}

/// A neuron that was just planted is seated.
pub proof fn lemma_planted_is_seated<S: Scalar>(
    neuron: Neuron,
    before: Graph<S>,
    after: Graph<S>,
    p: Parameters<S>,
)
    requires
        before.wf(),
        after.wf(),
        neuron.planted(before, after, p.weights@, p.bias),
    ensures
        neuron.seated(after, p),
{
    let base = before.size();
    assert forall|k: int| 0 <= k < neuron.weights@.len() implies {
        let w = (#[trigger] neuron.weights@[k]).index as int;
        &&& after.values@[w] == p.weights@[k]
        &&& after.gradients@[w] == S::zero_value()
        &&& is_weight_label(after.labels@[w]@, k as usize)
        &&& after.operations@[w] == Operation::<S>::Constant
    } by {
        assert(neuron.weights@[k].index == base + k);
        assert(after.values@[base + k] == p.weights@[k]);
        assert(after.gradients@[base + k] == S::zero_value());
        assert(is_weight_label(after.labels@[base + k]@, k as usize));
        assert(after.operations@[base + k] == Operation::<S>::Constant);
    }
    assert(after.gradients@[base + p.weights@.len()] == S::zero_value());
    assert(after.operations@[base + p.weights@.len()] == Operation::<S>::Constant);
}

/// A seated neuron stays seated while the graph only grows.
pub proof fn lemma_seated_stable<S: Scalar>(
    neuron: Neuron,
    before: Graph<S>,
    after: Graph<S>,
    p: Parameters<S>,
)
    requires
        neuron.seated(before, p),
        after.extends(before),
    ensures
        neuron.seated(after, p),
{
    assert forall|k: int| 0 <= k < neuron.weights@.len() implies {
        let w = (#[trigger] neuron.weights@[k]).index as int;
        &&& after.values@[w] == p.weights@[k]
        &&& after.gradients@[w] == S::zero_value()
        &&& is_weight_label(after.labels@[w]@, k as usize)
        &&& after.operations@[w] == Operation::<S>::Constant
    } by {
        let w = neuron.weights@[k].index as int;
        assert(w < before.size());
        assert(after.values@[w] == before.values@[w]);
        assert(after.gradients@[w] == before.gradients@[w]);
        assert(after.labels@[w] == before.labels@[w]);
        assert(after.operations@[w] == before.operations@[w]);
    }
}

/// A seated layer stays seated while the graph only grows.
pub proof fn lemma_layer_seated_stable<S: Scalar>(
    layer: Layer,
    before: Graph<S>,
    after: Graph<S>,
    units: Seq<Parameters<S>>,
)
    requires
        layer.seated(before, units),
        after.extends(before),
    ensures
        layer.seated(after, units),
{
    assert forall|j: int| 0 <= j < units.len() implies (#[trigger] layer.neurons@[j]).seated(
        after,
        units[j],
    ) by {
        lemma_seated_stable(layer.neurons@[j], before, after, units[j]);
    }
}

impl Layer {
    /// The neurons hold the parameter values `units`, in order, in leaves of
    /// `g`.
    pub open spec fn seated<S: Scalar>(&self, g: Graph<S>, units: Seq<Parameters<S>>) -> bool {
        &&& self.neurons@.len() == units.len()
        &&& forall|j: int|
            0 <= j < units.len() ==> (#[trigger] self.neurons@[j]).seated(g, units[j])
    }

    /// Every weight and bias of the layer is a node below `bound`.
    pub open spec fn below(&self, bound: int) -> bool {
        forall|j: int| 0 <= j < self.neurons@.len() ==> (#[trigger] self.neurons@[j]).below(bound)
    }

    /// Every neuron has one weight for each input of the layer.
    pub open spec fn uniform(&self) -> bool {
        forall|j: int|
            0 <= j < self.neurons@.len() ==> (#[trigger] self.neurons@[j]).weights@.len()
                == self.inputs
    }

    /// What the layer gives for the inputs `xs`: the output of each neuron,
    /// in order.
    pub open spec fn outputs<S: Scalar>(&self, values: Seq<S>, xs: Seq<S>) -> Seq<S> {
        Seq::new(self.neurons@.len(), |j: int| self.neurons@[j].output(values, xs))
    }

    /// The graph goes through `stages` while the neurons are evaluated on
    /// the inputs `x` one after the other: neuron `j` takes it from stage
    /// `j` to stage `j + 1` and has the output `outs[j]`. The first stage is
    /// `before` and the last is `after`.
    pub open spec fn wired_through<S: Scalar>(
        &self,
        stages: Seq<Graph<S>>,
        before: Graph<S>,
        after: Graph<S>,
        x: Seq<Value>,
        outs: Seq<Value>,
    ) -> bool {
        &&& stages.len() == self.neurons@.len() + 1
        &&& outs.len() == self.neurons@.len()
        &&& stages[0] == before
        &&& stages[self.neurons@.len() as int] == after
        &&& forall|j: int|
            0 <= j < self.neurons@.len() ==> (#[trigger] self.neurons@[j]).wired(
                stages[j],
                stages[j + 1],
                x,
                outs[j],
            )
    }

    /// `after` is `before` followed by the nodes of one evaluation of every
    /// neuron on the inputs `x`, in the order of the neurons, and `outs` are
    /// the outputs.
    pub open spec fn wired<S: Scalar>(
        &self,
        before: Graph<S>,
        after: Graph<S>,
        x: Seq<Value>,
        outs: Seq<Value>,
    ) -> bool {
        exists|stages: Seq<Graph<S>>| #[trigger] self.wired_through(stages, before, after, x, outs)
    }

    /// The graph goes through `stages` while the neurons are planted one
    /// after the other with the values `units`: neuron `j` takes it from
    /// stage `j` to stage `j + 1`. The first stage is `before` and the last
    /// is `after`.
    pub open spec fn planted_through<S: Scalar>(
        &self,
        stages: Seq<Graph<S>>,
        before: Graph<S>,
        after: Graph<S>,
        units: Seq<Parameters<S>>,
    ) -> bool {
        &&& stages.len() == units.len() + 1
        &&& self.neurons@.len() == units.len()
        &&& stages[0] == before
        &&& stages[units.len() as int] == after
        &&& forall|j: int|
            0 <= j < units.len() ==> (#[trigger] self.neurons@[j]).planted(
                stages[j],
                stages[j + 1],
                units[j].weights@,
                units[j].bias,
            )
    }

    /// `after` is `before` followed by the leaves of the neurons, one
    /// neuron after the other, with the values `units`.
    pub open spec fn planted<S: Scalar>(
        &self,
        before: Graph<S>,
        after: Graph<S>,
        units: Seq<Parameters<S>>,
    ) -> bool {
        exists|stages: Seq<Graph<S>>| #[trigger] self.planted_through(stages, before, after, units)
    }

    /// A layer of new neurons that each read `inputs` inputs: one neuron for
    /// each entry of `units`, in order, planted in `g` with those values.
    pub fn new<S: Scalar>(g: &mut Graph<S>, inputs: usize, units: &[Parameters<S>]) -> (r: Layer)
        requires
            old(g).wf(),
            forall|j: int| 0 <= j < units@.len() ==> (#[trigger] units@[j]).weights@.len() == inputs,
        ensures
            final(g).wf(),
            final(g).extends(*old(g)),
            r.inputs == inputs,
            r.uniform(),
            r.planted(*old(g), *final(g), units@),
            r.seated(*final(g), units@),
            r.below(final(g).size()),
            forall|i: int|
                old(g).size() <= i < final(g).size() ==> #[trigger] final(g).operations@[i]
                    == Operation::<S>::Constant,
    {
        let mut neurons: Vec<Neuron> = Vec::new();
        let ghost mut stages: Seq<Graph<S>> = seq![*g];
        let mut j: usize = 0;
        while j < units.len()
            invariant
                g.wf(),
                g.extends(*old(g)),
                j <= units@.len(),
                neurons@.len() == j,
                stages.len() == j + 1,
                stages[0] == *old(g),
                stages[j as int] == *g,
                forall|i: int|
                    0 <= i < j ==> (#[trigger] neurons@[i]).planted(
                        stages[i],
                        stages[i + 1],
                        units@[i].weights@,
                        units@[i].bias,
                    ),
                forall|i: int| 0 <= i < units@.len() ==> (#[trigger] units@[i]).weights@.len() == inputs,
                forall|i: int| 0 <= i < j ==> (#[trigger] neurons@[i]).seated(*g, units@[i]),
                forall|i: int|
                    old(g).size() <= i < g.size() ==> #[trigger] g.operations@[i] == Operation::<
                        S,
                    >::Constant,
            decreases units@.len() - j,
        {
            let ghost middle = *g;
            let neuron = Neuron::new(g, units[j].weights.as_slice(), &units[j].bias);
            proof {
                assert forall|i: int| 0 <= i < j implies (#[trigger] neurons@[i]).seated(
                    *g,
                    units@[i],
                ) by {
                    lemma_seated_stable(neurons@[i], middle, *g, units@[i]);
                }
                lemma_planted_is_seated(neuron, middle, *g, units@[j as int]);
                stages = stages.push(*g);
            }
            neurons.push(neuron);
            j += 1;
        }
        let r = Layer { inputs, neurons };
        proof {
            assert(r.planted_through(stages, *old(g), *g, units@));
        }
        r
    }

    /// The outputs of all neurons for the inputs `x`, in the order of the
    /// neurons.
    ///
    /// Fails, and leaves the graph alone, when the number of inputs is not
    /// what the layer expects.
    pub fn call<S: Scalar>(&self, g: &mut Graph<S>, x: &[Value]) -> (r: Result<Vec<Value>, Error>)
        requires
            old(g).wf(),
            self.uniform(),
            self.below(old(g).size()),
            all_below(x@, old(g).size()),
        ensures
            final(g).wf(),
            x@.len() != self.inputs ==> r == Err::<Vec<Value>, Error>(
                Error::DimensionMismatch(self.inputs, x@.len() as usize),
            ) && *final(g) == *old(g),
            x@.len() == self.inputs ==> {
                &&& r is Ok
                &&& final(g).extends(*old(g))
                &&& r.unwrap()@.len() == self.neurons@.len()
                &&& all_below(r.unwrap()@, final(g).size())
                &&& forall|i: int|
                    0 <= i < r.unwrap()@.len() ==> old(g).size() <= (#[trigger] r.unwrap()@[i]).index
                &&& self.wired(*old(g), *final(g), x@, r.unwrap()@)
                &&& picked(final(g).values@, r.unwrap()@) == self.outputs(
                    old(g).values@,
                    picked(old(g).values@, x@),
                )
                &&& forall|i: int|
                    old(g).size() <= i < final(g).size() ==> #[trigger] final(g).gradients@[i]
                        == S::zero_value()
            },
    {
        if x.len() != self.inputs {
            return Err(Error::DimensionMismatch(self.inputs, x.len()));
        }
        let ghost base = g.size();
        let ghost xs = picked(g.values@, x@);
        let mut outs: Vec<Value> = Vec::new();
        let ghost mut stages: Seq<Graph<S>> = seq![*g];
        let mut j: usize = 0;
        while j < self.neurons.len()
            invariant
                g.wf(),
                g.extends(*old(g)),
                base == old(g).size(),
                stages.len() == j + 1,
                stages[0] == *old(g),
                stages[j as int] == *g,
                forall|i: int|
                    0 <= i < j ==> (#[trigger] self.neurons@[i]).wired(
                        stages[i],
                        stages[i + 1],
                        x@,
                        outs@[i],
                    ),
                xs == picked(old(g).values@, x@),
                self.uniform(),
                self.below(base),
                all_below(x@, base),
                x@.len() == self.inputs,
                j <= self.neurons@.len(),
                outs@.len() == j,
                all_below(outs@, g.size()),
                forall|i: int| 0 <= i < j ==> base <= (#[trigger] outs@[i]).index,
                forall|i: int|
                    0 <= i < j ==> g.values@[(#[trigger] outs@[i]).index as int]
                        == self.neurons@[i].output(old(g).values@, xs),
                forall|i: int| base <= i < g.size() ==> #[trigger] g.gradients@[i] == S::zero_value(),
            decreases self.neurons@.len() - j,
        {
            let ghost middle = *g;
            let neuron = &self.neurons[j];
            assert(self.neurons@[j as int].below(base));
            assert(self.neurons@[j as int].weights@.len() == self.inputs);
            let r = neuron.call(g, x);
            let out = r.unwrap();
            proof {
                lemma_picked_stable(old(g).values@, middle.values@, x@, base);
                lemma_picked_stable(old(g).values@, middle.values@, neuron.weights@, base);
                stages = stages.push(*g);
            }
            outs.push(out);
            j += 1;
        }
        proof {
            assert(picked(g.values@, outs@) =~= self.outputs(old(g).values@, xs));
            assert(self.wired_through(stages, *old(g), *g, x@, outs@));
        }
        Ok(outs)
    }
}

/// A vector with the handles of `x`, in order.
fn copied(x: &[Value]) -> (r: Vec<Value>)
    ensures
        r@ == x@,
{
    let mut r: Vec<Value> = Vec::new();
    let mut i: usize = 0;
    while i < x.len()
        invariant
            i <= x@.len(),
            r@ == x@.take(i as int),
        decreases x@.len() - i,
    {
        r.push(x[i]);
        assert(r@ =~= x@.take(i + 1));
        i += 1;
    }
    assert(x@.take(x@.len() as int) =~= x@);
    r
}

/// What the first `k` of `layers` give for the inputs `xs`, each layer
/// reading the outputs of the one before it.
pub open spec fn network_output<S: Scalar>(
    values: Seq<S>,
    layers: Seq<Layer>,
    xs: Seq<S>,
    k: nat,
) -> Seq<S>
    decreases k,
{
    if k == 0 {
        xs
    } else {
        layers[k - 1].outputs(values, network_output(values, layers, xs, (k - 1) as nat))
    }
}

impl Mlp {
    /// Every weight and bias of the network is a node below `bound`.
    pub open spec fn below(&self, bound: int) -> bool {
        forall|l: int| 0 <= l < self.layers@.len() ==> (#[trigger] self.layers@[l]).below(bound)
    }

    /// The first layer, if there is one, reads the network's inputs, every
    /// later layer reads as many inputs as the layer before it has neurons,
    /// and every neuron has one weight for each input of its layer.
    pub open spec fn chained(&self) -> bool {
        &&& self.layers@.len() > 0 ==> self.layers@[0].inputs == self.inputs
        &&& forall|l: int| 0 <= l < self.layers@.len() ==> (#[trigger] self.layers@[l]).uniform()
        &&& forall|l: int|
            0 < l < self.layers@.len() ==> (#[trigger] self.layers@[l]).inputs == self.layers@[l
                - 1].neurons@.len()
    }

    /// The number of outputs: the number of neurons in the last layer, or
    /// the number of inputs where there is no layer.
    pub open spec fn width(&self) -> int {
        if self.layers@.len() == 0 {
            self.inputs as int
        } else {
            self.layers@[self.layers@.len() - 1].neurons@.len() as int
        }
    }

    /// The number of values that go into layer `l`.
    pub open spec fn width_before(&self, l: int) -> int {
        if l == 0 {
            self.inputs as int
        } else {
            self.layers@[l - 1].neurons@.len() as int
        }
    }

    /// What the network gives for the inputs `xs` when its weights and
    /// biases have the values they have in `values`.
    pub open spec fn output<S: Scalar>(&self, values: Seq<S>, xs: Seq<S>) -> Seq<S> {
        network_output(values, self.layers@, xs, self.layers@.len())
    }

    /// The graph goes through `stages` while the inputs go through the
    /// layers: layer `l` reads `signals[l]`, takes the graph from stage `l`
    /// to stage `l + 1`, and gives out `signals[l + 1]`. The first stage is
    /// `before`, the last is `after`; the first signal is `x`, the last is
    /// `outs`.
    pub open spec fn wired_through<S: Scalar>(
        &self,
        stages: Seq<Graph<S>>,
        signals: Seq<Seq<Value>>,
        before: Graph<S>,
        after: Graph<S>,
        x: Seq<Value>,
        outs: Seq<Value>,
    ) -> bool {
        &&& stages.len() == self.layers@.len() + 1
        &&& signals.len() == self.layers@.len() + 1
        &&& stages[0] == before
        &&& stages[self.layers@.len() as int] == after
        &&& signals[0] == x
        &&& signals[self.layers@.len() as int] == outs
        &&& forall|l: int|
            0 <= l < self.layers@.len() ==> (#[trigger] self.layers@[l]).wired(
                stages[l],
                stages[l + 1],
                signals[l],
                signals[l + 1],
            )
    }

    /// `after` is `before` followed by the nodes of one evaluation of every
    /// layer in order, the first on the inputs `x` and each later one on the
    /// outputs of the layer before it, and `outs` are the outputs of the
    /// last layer.
    pub open spec fn wired<S: Scalar>(
        &self,
        before: Graph<S>,
        after: Graph<S>,
        x: Seq<Value>,
        outs: Seq<Value>,
    ) -> bool {
        exists|stages: Seq<Graph<S>>, signals: Seq<Seq<Value>>| #[trigger]
            self.wired_through(stages, signals, before, after, x, outs)
    }

    /// The layers hold the parameter values `units`, layer by layer and
    /// neuron by neuron, in leaves of `g`.
    pub open spec fn seated<S: Scalar>(&self, g: Graph<S>, units: Seq<Vec<Parameters<S>>>) -> bool {
        &&& self.layers@.len() == units.len()
        &&& forall|l: int|
            0 <= l < units.len() ==> (#[trigger] self.layers@[l]).seated(g, units[l]@)
    }

    /// The graph goes through `stages` while the layers are planted one
    /// after the other with the values `units`: layer `l` takes it from
    /// stage `l` to stage `l + 1`. The first stage is `before` and the last
    /// is `after`.
    pub open spec fn planted_through<S: Scalar>(
        &self,
        stages: Seq<Graph<S>>,
        before: Graph<S>,
        after: Graph<S>,
        units: Seq<Vec<Parameters<S>>>,
    ) -> bool {
        &&& stages.len() == units.len() + 1
        &&& self.layers@.len() == units.len()
        &&& stages[0] == before
        &&& stages[units.len() as int] == after
        &&& forall|l: int|
            0 <= l < units.len() ==> (#[trigger] self.layers@[l]).planted(
                stages[l],
                stages[l + 1],
                units[l]@,
            )
    }

    /// `after` is `before` followed by the leaves of the layers, one layer
    /// after the other, with the values `units`.
    pub open spec fn planted<S: Scalar>(
        &self,
        before: Graph<S>,
        after: Graph<S>,
        units: Seq<Vec<Parameters<S>>>,
    ) -> bool {
        exists|stages: Seq<Graph<S>>| #[trigger] self.planted_through(stages, before, after, units)
    }

    /// A new network that reads `inputs` inputs, with one layer for each
    /// entry of `units` and in each layer one neuron for each entry of that
    /// entry, planted in `g` with those values.
    pub fn new<S: Scalar>(g: &mut Graph<S>, inputs: usize, units: &[Vec<Parameters<S>>]) -> (r: Mlp)
        requires
            old(g).wf(),
            shaped(inputs, units@),
        ensures
            final(g).wf(),
            final(g).extends(*old(g)),
            r.inputs == inputs,
            r.planted(*old(g), *final(g), units@),
            r.seated(*final(g), units@),
            r.below(final(g).size()),
            r.chained(),
            forall|i: int|
                old(g).size() <= i < final(g).size() ==> #[trigger] final(g).operations@[i]
                    == Operation::<S>::Constant,
    {
        let mut layers: Vec<Layer> = Vec::new();
        let ghost mut stages: Seq<Graph<S>> = seq![*g];
        let mut l: usize = 0;
        while l < units.len()
            invariant
                g.wf(),
                g.extends(*old(g)),
                shaped(inputs, units@),
                l <= units@.len(),
                layers@.len() == l,
                stages.len() == l + 1,
                stages[0] == *old(g),
                stages[l as int] == *g,
                forall|i: int|
                    0 <= i < l ==> (#[trigger] layers@[i]).planted(
                        stages[i],
                        stages[i + 1],
                        units@[i]@,
                    ),
                forall|i: int| 0 <= i < l ==> (#[trigger] layers@[i]).seated(*g, units@[i]@),
                forall|i: int| 0 <= i < l ==> (#[trigger] layers@[i]).uniform(),
                forall|i: int| 0 <= i < l ==> (#[trigger] layers@[i]).inputs == reads(inputs, units@, i),
                forall|i: int|
                    old(g).size() <= i < g.size() ==> #[trigger] g.operations@[i] == Operation::<
                        S,
                    >::Constant,
            decreases units@.len() - l,
        {
            let ghost middle = *g;
            let width = if l == 0 {
                inputs
            } else {
                units[l - 1].len()
            };
            let layer = Layer::new(g, width, units[l].as_slice());
            proof {
                assert forall|i: int| 0 <= i < l implies (#[trigger] layers@[i]).seated(
                    *g,
                    units@[i]@,
                ) by {
                    lemma_layer_seated_stable(layers@[i], middle, *g, units@[i]@);
                }
                stages = stages.push(*g);
            }
            layers.push(layer);
            l += 1;
        }
        let r = Mlp { inputs, layers };
        proof {
            assert(r.planted_through(stages, *old(g), *g, units@));
            assert forall|i: int| 0 <= i < r.layers@.len() implies (#[trigger] r.layers@[i]).below(
                g.size(),
            ) by {
                assert(r.layers@[i].seated(*g, units@[i]@));
            }
            if units@.len() > 0 {
                assert forall|i: int| 0 < i < r.layers@.len() implies (#[trigger] r.layers@[i]).inputs
                    == r.layers@[i - 1].neurons@.len() by {
                    assert(r.layers@[i - 1].seated(*g, units@[i - 1]@));
                }
            }
        }
        r
    }

    /// The network's outputs for the inputs `x`: the inputs go through the
    /// layers in order. A network without layers gives its inputs back and
    /// adds nothing to the graph.
    ///
    /// Fails, and leaves the graph alone, when the number of inputs is not
    /// what the network expects.
    pub fn predict<S: Scalar>(&self, g: &mut Graph<S>, x: &[Value]) -> (r: Result<Vec<Value>, Error>)
        requires
            old(g).wf(),
            self.chained(),
            self.below(old(g).size()),
            all_below(x@, old(g).size()),
        ensures
            final(g).wf(),
            x@.len() != self.inputs ==> r == Err::<Vec<Value>, Error>(
                Error::DimensionMismatch(self.inputs, x@.len() as usize),
            ) && *final(g) == *old(g),
            x@.len() == self.inputs ==> {
                &&& r is Ok
                &&& final(g).extends(*old(g))
                &&& r.unwrap()@.len() == self.width()
                &&& all_below(r.unwrap()@, final(g).size())
                &&& self.layers@.len() == 0 ==> r.unwrap()@ == x@ && *final(g) == *old(g)
                &&& self.layers@.len() > 0 ==> forall|i: int|
                    0 <= i < r.unwrap()@.len() ==> old(g).size() <= (#[trigger] r.unwrap()@[i]).index
                &&& self.wired(*old(g), *final(g), x@, r.unwrap()@)
                &&& picked(final(g).values@, r.unwrap()@) == self.output(
                    old(g).values@,
                    picked(old(g).values@, x@),
                )
                &&& forall|i: int|
                    old(g).size() <= i < final(g).size() ==> #[trigger] final(g).gradients@[i]
                        == S::zero_value()
            },
    {
        if x.len() != self.inputs {
            return Err(Error::DimensionMismatch(self.inputs, x.len()));
        }
        let ghost base = g.size();
        let ghost xs = picked(g.values@, x@);
        let ghost mut stages: Seq<Graph<S>> = seq![*g];
        let ghost mut signals: Seq<Seq<Value>> = seq![x@];
        let mut current = copied(x);
        let mut l: usize = 0;
        while l < self.layers.len()
            invariant
                g.wf(),
                g.extends(*old(g)),
                base == old(g).size(),
                xs == picked(old(g).values@, x@),
                self.chained(),
                self.below(base),
                l <= self.layers@.len(),
                l == 0 ==> *g == *old(g) && current@ == x@,
                l > 0 ==> forall|i: int| 0 <= i < current@.len() ==> base <= (#[trigger] current@[i]).index,
                stages.len() == l + 1,
                signals.len() == l + 1,
                stages[0] == *old(g),
                stages[l as int] == *g,
                signals[0] == x@,
                signals[l as int] == current@,
                forall|i: int|
                    0 <= i < l ==> (#[trigger] self.layers@[i]).wired(
                        stages[i],
                        stages[i + 1],
                        signals[i],
                        signals[i + 1],
                    ),
                current@.len() == self.width_before(l as int),
                all_below(current@, g.size()),
                picked(g.values@, current@) == network_output(
                    old(g).values@,
                    self.layers@,
                    xs,
                    l as nat,
                ),
                forall|i: int| base <= i < g.size() ==> #[trigger] g.gradients@[i] == S::zero_value(),
            decreases self.layers@.len() - l,
        {
            let ghost middle = *g;
            let layer = &self.layers[l];
            assert(self.layers@[l as int].below(base));
            assert(self.layers@[l as int].uniform());
            assert(self.layers@[l as int].inputs == self.width_before(l as int));
            let next = layer.call(g, current.as_slice());
            proof {
                let reads = picked(middle.values@, current@);
                assert(layer.outputs(middle.values@, reads) =~= layer.outputs(
                    old(g).values@,
                    reads,
                )) by {
                    assert forall|j: int| 0 <= j < layer.neurons@.len() implies layer.neurons@[j].output(
                        middle.values@,
                        reads,
                    ) == layer.neurons@[j].output(old(g).values@, reads) by {
                        assert(layer.neurons@[j].below(base));
                        lemma_picked_stable(
                            old(g).values@,
                            middle.values@,
                            layer.neurons@[j].weights@,
                            base,
                        );
                    }
                }
            }
            current = next.unwrap();
            proof {
                stages = stages.push(*g);
                signals = signals.push(current@);
            }
            l += 1;
        }
        proof {
            assert(self.wired_through(stages, signals, *old(g), *g, x@, current@));
        }
        Ok(current)
    }
}

/// The number of inputs of layer `l` in a network with `inputs` inputs and
/// layers of the sizes `sizes`.
pub open spec fn fan_in(inputs: usize, sizes: Seq<usize>, l: int) -> int {
    if l == 0 {
        inputs as int
    } else {
        sizes[l - 1] as int
    }
}

/// How many numbers the first `k` layers take: for every neuron one for
/// each of its inputs, and one for its bias.
pub open spec fn demand(inputs: usize, sizes: Seq<usize>, k: nat) -> int
    decreases k,
{
    if k == 0 {
        0
    } else {
        demand(inputs, sizes, (k - 1) as nat) + sizes[k - 1] * (fan_in(inputs, sizes, k - 1) + 1)
    }
}

/// `p` holds the `width` numbers from position `at` as weights and the
/// number after them as bias.
pub open spec fn is_unit<S>(numbers: Seq<S>, at: int, width: int, p: Parameters<S>) -> bool {
    &&& 0 <= at
    &&& at + width < numbers.len()
    &&& p.weights@ == numbers.subrange(at, at + width)
    &&& p.bias == numbers[at + width]
}

/// `units` holds all of `numbers`, cut in order into the layers of the
/// sizes `sizes`: neuron after neuron, the weights of each before its bias.
pub open spec fn arranged<S>(
    inputs: usize,
    sizes: Seq<usize>,
    numbers: Seq<S>,
    units: Seq<Vec<Parameters<S>>>,
) -> bool {
    &&& units.len() == sizes.len()
    &&& numbers.len() == demand(inputs, sizes, sizes.len())
    &&& forall|l: int| 0 <= l < sizes.len() ==> (#[trigger] units[l])@.len() == sizes[l]
    &&& forall|l: int, j: int|
        0 <= l < sizes.len() && 0 <= j < sizes[l] ==> is_unit(
            numbers,
            demand(inputs, sizes, l as nat) + j * (fan_in(inputs, sizes, l) + 1),
            fan_in(inputs, sizes, l),
            #[trigger] units[l]@[j],
        )
}

/// The demand of the first layers never exceeds the demand of more layers.
pub proof fn lemma_demand_grows(inputs: usize, sizes: Seq<usize>, k: nat, n: nat)
    requires
        k <= n <= sizes.len(),
    ensures
        0 <= demand(inputs, sizes, k) <= demand(inputs, sizes, n),
    decreases n,
{
    if n > 0 {
        let rest = sizes[n - 1] * (fan_in(inputs, sizes, n - 1) + 1);
        assert(rest >= 0) by (nonlinear_arith)
            requires
                rest == sizes[n - 1] * (fan_in(inputs, sizes, n - 1) + 1),
                sizes[n - 1] >= 0,
                fan_in(inputs, sizes, n - 1) + 1 >= 0,
        ;
        if k < n {
            lemma_demand_grows(inputs, sizes, k, (n - 1) as nat);
        } else {
            lemma_demand_grows(inputs, sizes, (n - 1) as nat, (n - 1) as nat);
        }
    }
}

/// How many numbers a network with `inputs` inputs and layers of the sizes
/// `layer_sizes` takes; nothing where the count does not fit the machine's
/// word.
pub fn parameter_count(inputs: usize, layer_sizes: &[usize]) -> (r: Option<usize>)
    ensures
        r is Some <==> demand(inputs, layer_sizes@, layer_sizes@.len()) <= usize::MAX,
        r is Some ==> r.unwrap() == demand(inputs, layer_sizes@, layer_sizes@.len()),
{
    let ghost sizes = layer_sizes@;
    let mut total: usize = 0;
    let mut width: usize = inputs;
    let mut l: usize = 0;
    while l < layer_sizes.len()
        invariant
            sizes == layer_sizes@,
            l <= sizes.len(),
            total == demand(inputs, sizes, l as nat),
            width == fan_in(inputs, sizes, l as int),
        decreases sizes.len() - l,
    {
        let size = layer_sizes[l];
        proof {
            lemma_demand_grows(inputs, sizes, (l + 1) as nat, sizes.len() as nat);
            assert(demand(inputs, sizes, (l + 1) as nat) == total + size * (width + 1));
            assert(size * (width + 1) >= 0) by (nonlinear_arith)
                requires
                    size >= 0,
                    width + 1 >= 0,
            ;
            assert(size > 0 ==> size * (width + 1) >= width + 1) by (nonlinear_arith)
                requires
                    size >= 0,
                    width + 1 >= 0,
            ;
        }
        if size > 0 {
            let each = match width.checked_add(1) {
                Some(each) => each,
                None => {
                    return None;
                },
            };
            let layer = match size.checked_mul(each) {
                Some(layer) => layer,
                None => {
                    return None;
                },
            };
            total = match total.checked_add(layer) {
                Some(next) => next,
                None => {
                    return None;
                },
            };
        } else {
            assert(size * (width + 1) == 0) by (nonlinear_arith)
                requires
                    size == 0,
            ;
        }
        width = size;
        l += 1;
    }
    Some(total)
}

/// The unit cut from `numbers` at position `at`: `width` weights and a
/// bias.
fn cut_unit<S: Scalar>(numbers: &[S], at: usize, width: usize) -> (p: Parameters<S>)
    requires
        at + width < numbers@.len(),
    ensures
        is_unit(numbers@, at as int, width as int, p),
{
    let n = numbers.len();
    let mut weights: Vec<S> = Vec::new();
    let mut k: usize = 0;
    while k < width
        invariant
            n == numbers@.len(),
            at + width < numbers@.len(),
            k <= width,
            weights@ == numbers@.subrange(at as int, at + k),
        decreases width - k,
    {
        weights.push(numbers[at + k].duplicate());
        assert(weights@ =~= numbers@.subrange(at as int, at + k + 1));
        k += 1;
    }
    let bias = numbers[at + width].duplicate();
    Parameters { weights, bias }
}

/// The units of one layer of `size` neurons with `width` inputs each, cut
/// from `numbers` from position `at` on, and the position after them;
/// nothing where the numbers do not reach.
fn cut_layer<S: Scalar>(numbers: &[S], at: usize, width: usize, size: usize) -> (r: Option<
    (Vec<Parameters<S>>, usize),
>)
    requires
        at <= numbers@.len(),
    ensures
        r is Some <==> at + size * (width + 1) <= numbers@.len(),
        r is Some ==> r.unwrap().1 == at + size * (width + 1) && r.unwrap().0@.len() == size
            && forall|j: int|
            0 <= j < size ==> is_unit(
                numbers@,
                at + j * (width + 1),
                width as int,
                #[trigger] r.unwrap().0@[j],
            ),
{
    let mut layer: Vec<Parameters<S>> = Vec::new();
    let mut cursor: usize = at;
    let mut j: usize = 0;
    while j < size
        invariant
            j <= size,
            cursor == at + j * (width + 1),
            cursor <= numbers@.len(),
            layer@.len() == j,
            forall|i: int|
                0 <= i < j ==> is_unit(
                    numbers@,
                    at + i * (width + 1),
                    width as int,
                    #[trigger] layer@[i],
                ),
        decreases size - j,
    {
        assert((j + 1) * (width + 1) == j * (width + 1) + (width + 1)) by (nonlinear_arith);
        if numbers.len() - cursor <= width {
            assert((j + 1) * (width + 1) <= size * (width + 1)) by (nonlinear_arith)
                requires
                    j + 1 <= size,
                    width + 1 >= 0,
            ;
            return None;
        }
        let unit = cut_unit(numbers, cursor, width);
        layer.push(unit);
        cursor = cursor + width + 1;
        j += 1;
    }
    Some((layer, cursor))
}

/// Cuts a flat list of numbers into the units of a network with `inputs`
/// inputs and layers of the sizes `layer_sizes`: layer after layer, neuron
/// after neuron, the weights of each neuron before its bias. Nothing comes
/// back unless the list holds exactly as many numbers as the network takes.
pub fn arrange<S: Scalar>(inputs: usize, layer_sizes: &[usize], numbers: &[S]) -> (r: Option<
    Vec<Vec<Parameters<S>>>,
>)
    ensures
        r is Some <==> numbers@.len() == demand(inputs, layer_sizes@, layer_sizes@.len()),
        r is Some ==> arranged(inputs, layer_sizes@, numbers@, r.unwrap()@) && shaped(
            inputs,
            r.unwrap()@,
        ),
{
    let ghost sizes = layer_sizes@;
    let mut units: Vec<Vec<Parameters<S>>> = Vec::new();
    let mut cursor: usize = 0;
    let mut width: usize = inputs;
    let mut l: usize = 0;
    while l < layer_sizes.len()
        invariant
            sizes == layer_sizes@,
            l <= sizes.len(),
            cursor == demand(inputs, sizes, l as nat),
            cursor <= numbers@.len(),
            width == fan_in(inputs, sizes, l as int),
            units@.len() == l,
            forall|i: int| 0 <= i < l ==> (#[trigger] units@[i])@.len() == sizes[i],
            forall|i: int, j: int|
                0 <= i < l && 0 <= j < sizes[i] ==> is_unit(
                    numbers@,
                    demand(inputs, sizes, i as nat) + j * (fan_in(inputs, sizes, i) + 1),
                    fan_in(inputs, sizes, i),
                    #[trigger] units@[i]@[j],
                ),
        decreases sizes.len() - l,
    {
        let size = layer_sizes[l];
        proof {
            lemma_demand_grows(inputs, sizes, (l + 1) as nat, sizes.len() as nat);
            assert(demand(inputs, sizes, (l + 1) as nat) == cursor + size * (width + 1));
        }
        let layer = cut_layer(numbers, cursor, width, size);
        if layer.is_none() {
            return None;
        }
        let (layer, next) = layer.unwrap();
        units.push(layer);
        cursor = next;
        width = size;
        l += 1;
    }
    if cursor != numbers.len() {
        return None;
    }
    proof {
        assert forall|i: int, j: int|
            0 <= i < units@.len() && 0 <= j < units@[i]@.len() implies (#[trigger] units@[i]@[j]).weights@.len()
            == reads(inputs, units@, i) by {
            assert(is_unit(
                numbers@,
                demand(inputs, sizes, i as nat) + j * (fan_in(inputs, sizes, i) + 1),
                fan_in(inputs, sizes, i),
                units@[i]@[j],
            ));
            if i > 0 {
                assert(units@[i - 1]@.len() == sizes[i - 1]);
            }
        }
    }
    Some(units)
}

impl Mlp {
    /// A new network with `inputs` inputs and layers of the sizes
    /// `layer_sizes`, whose weights and biases are the numbers `numbers` in
    /// order: layer after layer, neuron after neuron, the weights of each
    /// neuron before its bias.
    ///
    /// Nothing comes back, and the graph stays as it is, unless the list
    /// holds exactly as many numbers as the network takes.
    pub fn from_numbers<S: Scalar>(
        g: &mut Graph<S>,
        inputs: usize,
        layer_sizes: &[usize],
        numbers: &[S],
    ) -> (r: Option<Mlp>)
        requires
            old(g).wf(),
        ensures
            final(g).wf(),
            final(g).extends(*old(g)),
            r is Some <==> numbers@.len() == demand(inputs, layer_sizes@, layer_sizes@.len()),
            r is None ==> *final(g) == *old(g),
            r is Some ==> {
                &&& r.unwrap().inputs == inputs
                &&& r.unwrap().chained()
                &&& r.unwrap().below(final(g).size())
                &&& exists|units: Seq<Vec<Parameters<S>>>|
                    {
                        &&& #[trigger] arranged(inputs, layer_sizes@, numbers@, units)
                        &&& r.unwrap().planted(*old(g), *final(g), units)
                        &&& r.unwrap().seated(*final(g), units)
                    }
                &&& forall|i: int|
                    old(g).size() <= i < final(g).size() ==> #[trigger] final(g).operations@[i]
                        == Operation::<S>::Constant
            },
    {
        match arrange(inputs, layer_sizes, numbers) {
            None => None,
            Some(units) => {
                let mlp = Mlp::new(g, inputs, units.as_slice());
                assert(arranged(inputs, layer_sizes@, numbers@, units@));
                Some(mlp)
            },
        }
    }
}

/// The values and gradients of a graph while its parameters are nudged.
pub struct Descent<S> {
    pub values: Seq<S>,
    pub gradients: Seq<S>,
}

/// One step of gradient descent on node `target`: its value decreases by
/// `rate` times its gradient, and its gradient returns to zero.
pub open spec fn stepped<S: Scalar>(d: Descent<S>, target: int, rate: S) -> Descent<S> {
    Descent {
        values: d.values.update(
            target,
            d.values[target].difference(rate.product(d.gradients[target])),
        ),
        gradients: d.gradients.update(target, S::zero_value()),
    }
}

/// The first `k` of `handles` are stepped, in order.
pub open spec fn stepped_all<S: Scalar>(
    d: Descent<S>,
    handles: Seq<Value>,
    rate: S,
    k: nat,
) -> Descent<S>
    decreases k,
{
    if k == 0 {
        d
    } else {
        stepped(stepped_all(d, handles, rate, (k - 1) as nat), handles[k - 1].index as int, rate)
    }
}

/// The first `k` of `neurons` are nudged, in order.
pub open spec fn nudged_neurons<S: Scalar>(
    d: Descent<S>,
    neurons: Seq<Neuron>,
    rate: S,
    k: nat,
) -> Descent<S>
    decreases k,
{
    if k == 0 {
        d
    } else {
        neurons[k - 1].nudged(nudged_neurons(d, neurons, rate, (k - 1) as nat), rate)
    }
}

/// The first `k` of `layers` are nudged, in order.
pub open spec fn nudged_layers<S: Scalar>(
    d: Descent<S>,
    layers: Seq<Layer>,
    rate: S,
    k: nat,
) -> Descent<S>
    decreases k,
{
    if k == 0 {
        d
    } else {
        layers[k - 1].nudged(nudged_layers(d, layers, rate, (k - 1) as nat), rate)
    }
}

impl Neuron {
    /// The bias is stepped, then the weights in order.
    pub open spec fn nudged<S: Scalar>(&self, d: Descent<S>, rate: S) -> Descent<S> {
        stepped_all(stepped(d, self.bias.index as int, rate), self.weights@, rate, self.weights@.len())
    }

    /// One step of gradient descent on the bias and on every weight.
    pub fn nudge_parameters<S: Scalar>(&self, g: &mut Graph<S>, rate: &S)
        requires
            old(g).wf(),
            self.below(old(g).size()),
        ensures
            final(g).wf(),
            final(g).size() == old(g).size(),
            final(g).labels@ == old(g).labels@,
            final(g).operations@ == old(g).operations@,
            (Descent { values: final(g).values@, gradients: final(g).gradients@ }) == self.nudged(
                (Descent { values: old(g).values@, gradients: old(g).gradients@ }),
                *rate,
            ),
    {
        self.bias.nudge(g, rate);
        let ghost start = Descent { values: g.values@, gradients: g.gradients@ };
        let mut k: usize = 0;
        while k < self.weights.len()
            invariant
                g.wf(),
                g.size() == old(g).size(),
                g.labels@ == old(g).labels@,
                g.operations@ == old(g).operations@,
                self.below(g.size()),
                k <= self.weights@.len(),
                (Descent { values: g.values@, gradients: g.gradients@ }) == stepped_all(
                    start,
                    self.weights@,
                    *rate,
                    k as nat,
                ),
            decreases self.weights@.len() - k,
        {
            let weight = self.weights[k];
            assert(self.weights@[k as int].index < g.size());
            weight.nudge(g, rate);
            k += 1;
        }
    }
}

impl Layer {
    /// The neurons are nudged in order.
    pub open spec fn nudged<S: Scalar>(&self, d: Descent<S>, rate: S) -> Descent<S> {
        nudged_neurons(d, self.neurons@, rate, self.neurons@.len())
    }

    /// One step of gradient descent on every weight and bias of the layer.
    pub fn nudge_parameters<S: Scalar>(&self, g: &mut Graph<S>, rate: &S)
        requires
            old(g).wf(),
            self.below(old(g).size()),
        ensures
            final(g).wf(),
            final(g).size() == old(g).size(),
            final(g).labels@ == old(g).labels@,
            final(g).operations@ == old(g).operations@,
            (Descent { values: final(g).values@, gradients: final(g).gradients@ }) == self.nudged(
                (Descent { values: old(g).values@, gradients: old(g).gradients@ }),
                *rate,
            ),
    {
        let ghost start = Descent { values: g.values@, gradients: g.gradients@ };
        let mut j: usize = 0;
        while j < self.neurons.len()
            invariant
                g.wf(),
                g.size() == old(g).size(),
                g.labels@ == old(g).labels@,
                g.operations@ == old(g).operations@,
                self.below(g.size()),
                j <= self.neurons@.len(),
                (Descent { values: g.values@, gradients: g.gradients@ }) == nudged_neurons(
                    start,
                    self.neurons@,
                    *rate,
                    j as nat,
                ),
            decreases self.neurons@.len() - j,
        {
            assert(self.neurons@[j as int].below(g.size()));
            self.neurons[j].nudge_parameters(g, rate);
            j += 1;
        }
    }
}

impl Mlp {
    /// The layers are nudged in order.
    pub open spec fn nudged<S: Scalar>(&self, d: Descent<S>, rate: S) -> Descent<S> {
        nudged_layers(d, self.layers@, rate, self.layers@.len())
    }

    /// One step of gradient descent on every weight and bias of the
    /// network: layer by layer, neuron by neuron, the bias first and then
    /// the weights. Each value decreases by `rate` times its gradient, and
    /// each gradient returns to zero.
    pub fn nudge_parameters<S: Scalar>(&self, g: &mut Graph<S>, rate: &S)
        requires
            old(g).wf(),
            self.below(old(g).size()),
        ensures
            final(g).wf(),
            final(g).size() == old(g).size(),
            final(g).labels@ == old(g).labels@,
            final(g).operations@ == old(g).operations@,
            (Descent { values: final(g).values@, gradients: final(g).gradients@ }) == self.nudged(
                (Descent { values: old(g).values@, gradients: old(g).gradients@ }),
                *rate,
            ),
    {
        let ghost start = Descent { values: g.values@, gradients: g.gradients@ };
        let mut l: usize = 0;
        while l < self.layers.len()
            invariant
                g.wf(),
                g.size() == old(g).size(),
                g.labels@ == old(g).labels@,
                g.operations@ == old(g).operations@,
                self.below(g.size()),
                l <= self.layers@.len(),
                (Descent { values: g.values@, gradients: g.gradients@ }) == nudged_layers(
                    start,
                    self.layers@,
                    *rate,
                    l as nat,
                ),
            decreases self.layers@.len() - l,
        {
            assert(self.layers@[l as int].below(g.size()));
            self.layers[l].nudge_parameters(g, rate);
            l += 1;
        }
    }
}

/// How many of the first `k` of `handles` name node `i`.
pub open spec fn named_in(handles: Seq<Value>, i: int, k: nat) -> nat
    decreases k,
{
    if k == 0 {
        0
    } else {
        named_in(handles, i, (k - 1) as nat) + if handles[k - 1].index == i {
            1nat
        } else {
            0nat
        }
    }
}

/// How many weights and biases of the first `k` of `neurons` name node `i`.
pub open spec fn named_in_neurons(neurons: Seq<Neuron>, i: int, k: nat) -> nat
    decreases k,
{
    if k == 0 {
        0
    } else {
        named_in_neurons(neurons, i, (k - 1) as nat) + neurons[k - 1].names(i)
    }
}

/// How many weights and biases of the first `k` of `layers` name node `i`.
pub open spec fn named_in_layers(layers: Seq<Layer>, i: int, k: nat) -> nat
    decreases k,
{
    if k == 0 {
        0
    } else {
        named_in_layers(layers, i, (k - 1) as nat) + layers[k - 1].names(i)
    }
}

impl Neuron {
    /// How many of the neuron's weights and bias name node `i`.
    pub open spec fn names(&self, i: int) -> nat {
        named_in(self.weights@, i, self.weights@.len()) + if self.bias.index == i {
            1nat
        } else {
            0nat
        }
    }
}

impl Layer {
    /// How many weights and biases of the layer name node `i`.
    pub open spec fn names(&self, i: int) -> nat {
        named_in_neurons(self.neurons@, i, self.neurons@.len())
    }
}

impl Mlp {
    /// How many weights and biases of the network name node `i`.
    pub open spec fn names(&self, i: int) -> nat {
        named_in_layers(self.layers@, i, self.layers@.len())
    }
}

/// What `after` holds in node `i` when `before` was nudged through
/// parameters of which `times` name the node: named by none, the node is as
/// it was; named by one, its value has gone down by `rate` times its
/// gradient and its gradient is zero. The lengths are the same.
pub open spec fn nudged_at<S: Scalar>(
    before: Descent<S>,
    after: Descent<S>,
    i: int,
    rate: S,
    times: nat,
) -> bool {
    &&& after.values.len() == before.values.len()
    &&& after.gradients.len() == before.gradients.len()
    &&& times == 0 ==> after.values[i] == before.values[i] && after.gradients[i]
        == before.gradients[i]
    &&& times == 1 ==> after.values[i] == before.values[i].difference(
        rate.product(before.gradients[i]),
    ) && after.gradients[i] == S::zero_value()
}

/// Stepping the first `k` of `handles` nudges node `i` as often as they
/// name it.
pub proof fn lemma_stepped_all_at<S: Scalar>(
    d: Descent<S>,
    handles: Seq<Value>,
    rate: S,
    k: nat,
    i: int,
)
    requires
        0 <= i < d.values.len(),
        d.gradients.len() == d.values.len(),
        k <= handles.len(),
        all_below(handles, d.values.len() as int),
    ensures
        nudged_at(d, stepped_all(d, handles, rate, k), i, rate, named_in(handles, i, k)),
    decreases k,
{
    if k > 0 {
        lemma_stepped_all_at(d, handles, rate, (k - 1) as nat, i);
        assert(handles[k - 1].index < d.values.len());
    }
}

/// Nudging a neuron nudges node `i` as often as the neuron names it.
pub proof fn lemma_neuron_nudged_at<S: Scalar>(neuron: Neuron, d: Descent<S>, rate: S, i: int)
    requires
        0 <= i < d.values.len(),
        d.gradients.len() == d.values.len(),
        neuron.below(d.values.len() as int),
    ensures
        nudged_at(d, neuron.nudged(d, rate), i, rate, neuron.names(i)),
{
    let first = stepped(d, neuron.bias.index as int, rate);
    lemma_stepped_all_at(first, neuron.weights@, rate, neuron.weights@.len(), i);
}

/// Nudging the first `k` of `neurons` nudges node `i` as often as they name
/// it.
pub proof fn lemma_neurons_nudged_at<S: Scalar>(
    neurons: Seq<Neuron>,
    d: Descent<S>,
    rate: S,
    k: nat,
    i: int,
)
    requires
        0 <= i < d.values.len(),
        d.gradients.len() == d.values.len(),
        k <= neurons.len(),
        forall|j: int| 0 <= j < neurons.len() ==> (#[trigger] neurons[j]).below(d.values.len() as int),
    ensures
        nudged_at(
            d,
            nudged_neurons(d, neurons, rate, k),
            i,
            rate,
            named_in_neurons(neurons, i, k),
        ),
    decreases k,
{
    if k > 0 {
        lemma_neurons_nudged_at(neurons, d, rate, (k - 1) as nat, i);
        let middle = nudged_neurons(d, neurons, rate, (k - 1) as nat);
        assert(neurons[k - 1].below(d.values.len() as int));
        lemma_neuron_nudged_at(neurons[k - 1], middle, rate, i);
    }
}

/// Nudging the first `k` of `layers` nudges node `i` as often as they name
/// it.
pub proof fn lemma_layers_nudged_at<S: Scalar>(
    layers: Seq<Layer>,
    d: Descent<S>,
    rate: S,
    k: nat,
    i: int,
)
    requires
        0 <= i < d.values.len(),
        d.gradients.len() == d.values.len(),
        k <= layers.len(),
        forall|l: int| 0 <= l < layers.len() ==> (#[trigger] layers[l]).below(d.values.len() as int),
    ensures
        nudged_at(d, nudged_layers(d, layers, rate, k), i, rate, named_in_layers(layers, i, k)),
    decreases k,
{
    if k > 0 {
        lemma_layers_nudged_at(layers, d, rate, (k - 1) as nat, i);
        let middle = nudged_layers(d, layers, rate, (k - 1) as nat);
        assert(layers[k - 1].below(d.values.len() as int));
        lemma_neurons_nudged_at(
            layers[k - 1].neurons@,
            middle,
            rate,
            layers[k - 1].neurons@.len(),
            i,
        );
    }
}

/// What one node holds after the parameters of a network were nudged: a
/// node that exactly one weight or bias names has its value lowered by
/// `rate` times its gradient and its gradient set to zero; a node that none
/// names is as it was.
pub proof fn lemma_nudge_parameters_at<S: Scalar>(mlp: Mlp, d: Descent<S>, rate: S, i: int)
    requires
        0 <= i < d.values.len(),
        d.gradients.len() == d.values.len(),
        mlp.below(d.values.len() as int),
    ensures
        nudged_at(d, mlp.nudged(d, rate), i, rate, mlp.names(i)),
{
    lemma_layers_nudged_at(mlp.layers@, d, rate, mlp.layers@.len(), i);
}

/// The sum of the first `k` squared differences between a prediction and
/// its target, added from left to right starting at zero.
pub open spec fn squared_error<S: Scalar>(targets: Seq<S>, predicted: Seq<S>, k: nat) -> S
    decreases k,
{
    if k == 0 {
        S::zero_value()
    } else {
        squared_error(targets, predicted, (k - 1) as nat).sum(
            predicted[k - 1].difference(targets[k - 1]).power(S::one_value().sum(S::one_value())),
        )
    }
}

/// The length of the shorter of two sequences.
pub open spec fn paired(a: nat, b: nat) -> nat {
    if a <= b {
        a
    } else {
        b
    }
}

/// The node that carries the running loss after `k` terms, when the nodes
/// of the loss start at `base`.
pub open spec fn tally(base: int, k: int) -> int {
    base + 3 * k
}

/// `after` is `before` followed by the nodes of the loss over the first `n`
/// pairs: a zero leaf labelled `0`, and then for each pair the difference
/// of prediction and target, its power with exponent one plus one, and the
/// sum so far.
pub open spec fn tallied<S: Scalar>(
    before: Graph<S>,
    after: Graph<S>,
    targets: Seq<Value>,
    predicted: Seq<Value>,
    n: int,
) -> bool {
    let base = before.size();
    let two = S::one_value().sum(S::one_value());
    &&& after.size() == base + 1 + 3 * n
    &&& after.values@[base] == S::zero_value()
    &&& after.operations@[base] == Operation::<S>::Constant
    &&& after.labels@[base]@ == "0"@
    &&& forall|k: int|
        0 <= k < n ==> #[trigger] after.operations@[tally(base, k) + 1] == Operation::<S>::Subtract(
            predicted[k].index,
            targets[k].index,
        )
    &&& forall|k: int|
        0 <= k < n ==> #[trigger] after.values@[tally(base, k) + 1] == before.values@[predicted[k].index as int].difference(
            before.values@[targets[k].index as int],
        )
    &&& forall|k: int|
        0 <= k < n ==> #[trigger] after.operations@[tally(base, k) + 2] == Operation::<S>::Power(
            (tally(base, k) + 1) as usize,
            two,
        )
    &&& forall|k: int|
        0 <= k < n ==> #[trigger] after.values@[tally(base, k) + 2] == after.values@[tally(base, k)
            + 1].power(two)
    &&& forall|k: int|
        0 <= k < n ==> #[trigger] after.operations@[tally(base, k) + 3] == Operation::<S>::Add(
            tally(base, k) as usize,
            (tally(base, k) + 2) as usize,
        )
    &&& forall|k: int|
        0 <= k < n ==> #[trigger] after.values@[tally(base, k) + 3] == after.values@[tally(base, k)].sum(
            after.values@[tally(base, k) + 2],
        )
    &&& forall|k: int|
        0 <= k < n ==> (#[trigger] after.labels@[tally(base, k) + 1])@ == binary_text(
            after.labels@[predicted[k].index as int]@,
            " - "@,
            after.labels@[targets[k].index as int]@,
        )
    &&& forall|k: int|
        0 <= k < n ==> is_power_label(
            (#[trigger] after.labels@[tally(base, k) + 2])@,
            after.labels@[tally(base, k) + 1]@,
            two,
        )
    &&& forall|k: int|
        0 <= k < n ==> (#[trigger] after.labels@[tally(base, k) + 3])@ == binary_text(
            after.labels@[tally(base, k)]@,
            " + "@,
            after.labels@[tally(base, k) + 2]@,
        )
}

/// The squared-error loss of `predicted` against `targets`: a new leaf
/// labelled `0`, to which the square of each difference is added in turn.
/// Where one list is longer than the other, its surplus is ignored.
pub fn loss<S: Scalar>(g: &mut Graph<S>, targets: &[Value], predicted: &[Value]) -> (r: Value)
    requires
        old(g).wf(),
        all_below(targets@, old(g).size()),
        all_below(predicted@, old(g).size()),
    ensures
        final(g).wf(),
        final(g).extends(*old(g)),
        final(g).contains(r),
        final(g).size() == old(g).size() + 1 + 3 * paired(targets@.len(), predicted@.len()),
        r.index == final(g).size() - 1,
        tallied(
            *old(g),
            *final(g),
            targets@,
            predicted@,
            paired(targets@.len(), predicted@.len()) as int,
        ),
        final(g).values@[r.index as int] == squared_error(
            picked(old(g).values@, targets@),
            picked(old(g).values@, predicted@),
            paired(targets@.len(), predicted@.len()),
        ),
        forall|i: int|
            old(g).size() <= i < final(g).size() ==> #[trigger] final(g).gradients@[i]
                == S::zero_value(),
{
    let ghost base = g.size();
    let ghost ts = picked(g.values@, targets@);
    let ghost ps = picked(g.values@, predicted@);
    let n = if targets.len() <= predicted.len() {
        targets.len()
    } else {
        predicted.len()
    };
    let mut sum = Value::new(g, S::zero(), "0");
    let mut k: usize = 0;
    while k < n
        invariant
            g.wf(),
            g.extends(*old(g)),
            base == old(g).size(),
            ts == picked(old(g).values@, targets@),
            ps == picked(old(g).values@, predicted@),
            all_below(targets@, base),
            all_below(predicted@, base),
            n == paired(targets@.len(), predicted@.len()),
            k <= n,
            g.size() == base + 1 + 3 * k,
            sum.index == g.size() - 1,
            tallied(*old(g), *g, targets@, predicted@, k as int),
            g.values@[sum.index as int] == squared_error(ts, ps, k as nat),
            forall|i: int| base <= i < g.size() ==> #[trigger] g.gradients@[i] == S::zero_value(),
        decreases n - k,
    {
        let target = targets[k];
        let guess = predicted[k];
        assert(targets@[k as int].index < base);
        assert(predicted@[k as int].index < base);
        let gap = guess.sub(g, target);
        let square = gap.pow(g, S::one().plus(&S::one()));
        sum = sum.add(g, square);
        k += 1;
    }
    sum
}

} // verus!
