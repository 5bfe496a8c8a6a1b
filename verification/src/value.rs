//! The computation graph and the handles to its nodes.
use vstd::prelude::*;
use crate::scalar::Scalar;
use crate::text::binary_label;
use crate::text::binary_text;
use crate::text::power_label;
use crate::text::power_text;
use crate::text::tanh_label;
use crate::text::tanh_text;

verus! {

/// How a node was produced. Operands are named by their index in the graph.
pub enum Operation<S> {
    /// A leaf: an input, a weight or a bias.
    Constant,
    Add(usize, usize),
    Subtract(usize, usize),
    Multiply(usize, usize),
    /// The operand raised to a fixed exponent, which is not itself a node.
    Power(usize, S),
    HyperbolicTangent(usize),
}

/// An arena of nodes. The four vectors run in parallel: position `i` of each
/// describes node `i`.
pub struct Graph<S> {
    pub values: Vec<S>,
    pub gradients: Vec<S>,
    pub labels: Vec<String>,
    pub operations: Vec<Operation<S>>,
}

/// A handle to one node of a graph.
#[derive(Clone, Copy, Debug, PartialEq, Eq)]
pub struct Value {
    pub index: usize,
}

/// Every operand of `operation` lies strictly below `bound`.
pub open spec fn operands_below<S>(operation: Operation<S>, bound: int) -> bool {
    match operation {
        Operation::Constant => true,
        Operation::Add(a, b) => a < bound && b < bound,
        Operation::Subtract(a, b) => a < bound && b < bound,
        Operation::Multiply(a, b) => a < bound && b < bound,
        Operation::Power(a, _) => a < bound,
        Operation::HyperbolicTangent(a) => a < bound,
    }
}

/// `label` is `base`, a caret, and then `exponent` as its type writes it.
pub open spec fn is_power_label<S: Scalar>(label: Seq<char>, base: Seq<char>, exponent: S) -> bool {
    exists|written: String| #[trigger]
        call_ensures(S::render, (&exponent,), written) && label == power_text(base, written@)
}

impl<S: Scalar> Graph<S> {
    /// The number of nodes.
    pub open spec fn size(&self) -> int {
        self.values@.len() as int
    }

    /// The vectors agree in length, and every node's operands were created
    /// before the node itself, so the graph has no cycle.
    pub open spec fn wf(&self) -> bool {
        &&& self.gradients@.len() == self.values@.len()
        &&& self.labels@.len() == self.values@.len()
        &&& self.operations@.len() == self.values@.len()
        &&& forall|i: int|
            0 <= i < self.operations@.len() ==> operands_below(#[trigger] self.operations@[i], i)
    }

    /// `v` names a node of this graph.
    pub open spec fn contains(&self, v: Value) -> bool {
        v.index < self.size()
    }

    /// This graph is `before` with one more node at the end, which has the
    /// given value, label and operation and a zero gradient. No earlier node
    /// differs in any respect.
    pub open spec fn grown_by(
        &self,
        before: Graph<S>,
        value: S,
        label: Seq<char>,
        operation: Operation<S>,
    ) -> bool {
        &&& self.values@ == before.values@.push(value)
        &&& self.gradients@ == before.gradients@.push(S::zero_value())
        &&& self.operations@ == before.operations@.push(operation)
        &&& self.labels@.len() == before.labels@.len() + 1
        &&& self.labels@.take(before.labels@.len() as int) == before.labels@
        &&& self.labels@[before.labels@.len() as int]@ == label
    }

    /// This graph begins with all of `before`, unchanged.
    pub open spec fn extends(&self, before: Graph<S>) -> bool {
        &&& before.size() <= self.size()
        &&& forall|i: int| 0 <= i < before.size() ==> self.values@[i] == before.values@[i]
        &&& forall|i: int| 0 <= i < before.size() ==> self.gradients@[i] == before.gradients@[i]
        &&& forall|i: int| 0 <= i < before.size() ==> self.operations@[i] == before.operations@[i]
        &&& forall|i: int| 0 <= i < before.size() ==> self.labels@[i] == before.labels@[i]
    }

    /// A graph without nodes.
    pub fn new() -> (g: Graph<S>)
        ensures
            g.wf(),
            g.size() == 0,
    {
        Graph { values: Vec::new(), gradients: Vec::new(), labels: Vec::new(), operations: Vec::new() }
    }

    /// The number of nodes.
    pub fn len(&self) -> (n: usize)
        ensures
            n == self.size(),
    {
        self.values.len()
    }

    /// Adds one node at the end and hands back its handle.
    pub fn grow(&mut self, value: S, label: String, operation: Operation<S>) -> (r: Value)
        requires
            old(self).wf(),
            operands_below(operation, old(self).size()),
        ensures
            final(self).wf(),
            final(self).grown_by(*old(self), value, label@, operation),
            final(self).extends(*old(self)),
            r.index == old(self).size(),
            final(self).contains(r),
    {
        let index = self.values.len();
        self.values.push(value);
        self.gradients.push(S::zero());
        self.labels.push(label);
        self.operations.push(operation);
        proof {
            assert(self.labels@.take(old(self).size()) =~= old(self).labels@);
        }
        Value { index }
    }
}

impl Value {
    /// A new leaf with the given value and label.
    pub fn new<S: Scalar>(g: &mut Graph<S>, value: S, label: &str) -> (r: Value)
        requires
            old(g).wf(),
        ensures
            final(g).wf(),
            final(g).grown_by(*old(g), value, label@, Operation::Constant),
            final(g).extends(*old(g)),
            r.index == old(g).size(),
            final(g).contains(r),
    {
        g.grow(value, label.to_owned(), Operation::Constant)
    }

    /// The node's value.
    pub fn value<'a, S: Scalar>(&self, g: &'a Graph<S>) -> (r: &'a S)
        requires
            g.wf(),
            g.contains(*self),
        ensures
            *r == g.values@[self.index as int],
    {
        &g.values[self.index]
    }

    /// The gradient accumulated in the node.
    pub fn gradient<'a, S: Scalar>(&self, g: &'a Graph<S>) -> (r: &'a S)
        requires
            g.wf(),
            g.contains(*self),
        ensures
            *r == g.gradients@[self.index as int],
    {
        &g.gradients[self.index]
    }

    /// The node's label.
    pub fn label<S: Scalar>(&self, g: &Graph<S>) -> (r: String)
        requires
            g.wf(),
            g.contains(*self),
        ensures
            r@ == g.labels@[self.index as int]@,
    {
        g.labels[self.index].clone()
    }

    /// The sum of two nodes, labelled `(a + b)`.
    pub fn add<S: Scalar>(self, g: &mut Graph<S>, rhs: Value) -> (r: Value)
        requires
            old(g).wf(),
            old(g).contains(self),
            old(g).contains(rhs),
        ensures
            final(g).wf(),
            final(g).grown_by(
                *old(g),
                old(g).values@[self.index as int].sum(old(g).values@[rhs.index as int]),
                binary_text(
                    old(g).labels@[self.index as int]@,
                    " + "@,
                    old(g).labels@[rhs.index as int]@,
                ),
                Operation::Add(self.index, rhs.index),
            ),
            final(g).extends(*old(g)),
            r.index == old(g).size(),
            final(g).contains(r),
    {
        let value = g.values[self.index].plus(&g.values[rhs.index]);
        let label = binary_label(g.labels[self.index].as_str(), " + ", g.labels[rhs.index].as_str());
        g.grow(value, label, Operation::Add(self.index, rhs.index))
    }

    /// The difference of two nodes, labelled `(a - b)`.
    pub fn sub<S: Scalar>(self, g: &mut Graph<S>, rhs: Value) -> (r: Value)
        requires
            old(g).wf(),
            old(g).contains(self),
            old(g).contains(rhs),
        ensures
            final(g).wf(),
            final(g).grown_by(
                *old(g),
                old(g).values@[self.index as int].difference(old(g).values@[rhs.index as int]),
                binary_text(
                    old(g).labels@[self.index as int]@,
                    " - "@,
                    old(g).labels@[rhs.index as int]@,
                ),
                Operation::Subtract(self.index, rhs.index),
            ),
            final(g).extends(*old(g)),
            r.index == old(g).size(),
            final(g).contains(r),
    {
        let value = g.values[self.index].minus(&g.values[rhs.index]);
        let label = binary_label(g.labels[self.index].as_str(), " - ", g.labels[rhs.index].as_str());
        g.grow(value, label, Operation::Subtract(self.index, rhs.index))
    }

    /// The product of two nodes, labelled `(a * b)`.
    pub fn mul<S: Scalar>(self, g: &mut Graph<S>, rhs: Value) -> (r: Value)
        requires
            old(g).wf(),
            old(g).contains(self),
            old(g).contains(rhs),
        ensures
            final(g).wf(),
            final(g).grown_by(
                *old(g),
                old(g).values@[self.index as int].product(old(g).values@[rhs.index as int]),
                binary_text(
                    old(g).labels@[self.index as int]@,
                    " * "@,
                    old(g).labels@[rhs.index as int]@,
                ),
                Operation::Multiply(self.index, rhs.index),
            ),
            final(g).extends(*old(g)),
            r.index == old(g).size(),
            final(g).contains(r),
    {
        let value = g.values[self.index].times(&g.values[rhs.index]);
        let label = binary_label(g.labels[self.index].as_str(), " * ", g.labels[rhs.index].as_str());
        g.grow(value, label, Operation::Multiply(self.index, rhs.index))
    }

    /// The negation of a node: its product with a new leaf labelled `-1`
    /// whose value is zero minus one.
    pub fn neg<S: Scalar>(self, g: &mut Graph<S>) -> (r: Value)
        requires
            old(g).wf(),
            old(g).contains(self),
        ensures
            final(g).wf(),
            final(g).extends(*old(g)),
            final(g).size() == old(g).size() + 2,
            r.index == old(g).size() + 1,
            final(g).contains(r),
            final(g).values@[old(g).size()] == S::zero_value().difference(S::one_value()),
            final(g).gradients@[old(g).size()] == S::zero_value(),
            final(g).labels@[old(g).size()]@ == "-1"@,
            final(g).operations@[old(g).size()] == Operation::<S>::Constant,
            final(g).values@[r.index as int] == old(g).values@[self.index as int].product(
                S::zero_value().difference(S::one_value()),
            ),
            final(g).gradients@[r.index as int] == S::zero_value(),
            final(g).labels@[r.index as int]@ == binary_text(
                old(g).labels@[self.index as int]@,
                " * "@,
                "-1"@,
            ),
            final(g).operations@[r.index as int] == Operation::<S>::Multiply(
                self.index,
                old(g).size() as usize,
            ),
    {
        let minus_one = Value::new(g, S::zero().minus(&S::one()), "-1");
        let r = self.mul(g, minus_one);
        r
    }

    /// The hyperbolic tangent of a node, labelled `tanh(a)`.
    pub fn tanh<S: Scalar>(self, g: &mut Graph<S>) -> (r: Value)
        requires
            old(g).wf(),
            old(g).contains(self),
        ensures
            final(g).wf(),
            final(g).grown_by(
                *old(g),
                old(g).values@[self.index as int].tanh_value(),
                tanh_text(old(g).labels@[self.index as int]@),
                Operation::HyperbolicTangent(self.index),
            ),
            final(g).extends(*old(g)),
            r.index == old(g).size(),
            final(g).contains(r),
    {
        let value = g.values[self.index].tanh();
        let label = tanh_label(g.labels[self.index].as_str());
        g.grow(value, label, Operation::HyperbolicTangent(self.index))
    }

    /// A node raised to a fixed exponent, labelled `a^exponent`.
    pub fn pow<S: Scalar>(self, g: &mut Graph<S>, exponent: S) -> (r: Value)
        requires
            old(g).wf(),
            old(g).contains(self),
        ensures
            final(g).wf(),
            final(g).grown_by(
                *old(g),
                old(g).values@[self.index as int].power(exponent),
                final(g).labels@[old(g).size()]@,
                Operation::Power(self.index, exponent),
            ),
            is_power_label(
                final(g).labels@[old(g).size()]@,
                old(g).labels@[self.index as int]@,
                exponent,
            ),
            final(g).extends(*old(g)),
            r.index == old(g).size(),
            final(g).contains(r),
    {
        let value = g.values[self.index].powf(&exponent);
        let written = exponent.render();
        let label = power_label(g.labels[self.index].as_str(), written.as_str());
        assert(is_power_label(label@, g.labels@[self.index as int]@, exponent)) by {
            assert(call_ensures(S::render, (&exponent,), written));
        }
        g.grow(value, label, Operation::Power(self.index, exponent))
    }

    /// One step of gradient descent on a node: its value decreases by
    /// `rate` times its gradient, and its gradient returns to zero.
    pub fn nudge<S: Scalar>(&self, g: &mut Graph<S>, rate: &S)
        requires
            old(g).wf(),
            old(g).contains(*self),
        ensures
            final(g).wf(),
            final(g).values@ == old(g).values@.update(
                self.index as int,
                old(g).values@[self.index as int].difference(
                    rate.product(old(g).gradients@[self.index as int]),
                ),
            ),
            final(g).gradients@ == old(g).gradients@.update(self.index as int, S::zero_value()),
            final(g).labels@ == old(g).labels@,
            final(g).operations@ == old(g).operations@,
    {
        let step = rate.times(&g.gradients[self.index]);
        let moved = g.values[self.index].minus(&step);
        g.values.set(self.index, moved);
        g.gradients.set(self.index, S::zero());
    }
}

} // verus!
