//! Backpropagation: one pass over the arena from the root down to node 0.
//!
//! Operands always have smaller indices than the node that uses them, so
//! walking the indices downwards visits every node after all the nodes that
//! use it. When a node is visited its gradient is therefore complete, and it
//! is pushed on to the node's operands exactly once.
use vstd::prelude::*;
use crate::scalar::Scalar;
use crate::value::operands_below;
use crate::value::Graph;
use crate::value::Operation;
use crate::value::Value;

verus! {

/// The state of a pass: the gradient accumulated in each node so far, and
/// whether the node has been found to feed into the root.
pub struct Pass<S> {
    pub gradients: Seq<S>,
    pub reached: Seq<bool>,
}

/// Adds `amount` to the gradient of `target` and marks it reached.
pub open spec fn credit<S: Scalar>(pass: Pass<S>, target: int, amount: S) -> Pass<S> {
    Pass {
        gradients: pass.gradients.update(target, pass.gradients[target].sum(amount)),
        reached: pass.reached.update(target, true),
    }
}

/// Subtracts `amount` from the gradient of `target` and marks it reached.
pub open spec fn debit<S: Scalar>(pass: Pass<S>, target: int, amount: S) -> Pass<S> {
    Pass {
        gradients: pass.gradients.update(target, pass.gradients[target].difference(amount)),
        reached: pass.reached.update(target, true),
    }
}

/// Node `i` hands its gradient on to its operands, each according to the
/// derivative of the node's operation. The left operand is served first. A
/// node that the root does not depend on hands on nothing.
pub open spec fn push_from<S: Scalar>(
    operations: Seq<Operation<S>>,
    values: Seq<S>,
    pass: Pass<S>,
    i: int,
) -> Pass<S> {
    let upstream = pass.gradients[i];
    if !pass.reached[i] {
        pass
    } else {
        match operations[i] {
            Operation::Constant => pass,
            Operation::Add(a, b) => credit(credit(pass, a as int, upstream), b as int, upstream),
            Operation::Subtract(a, b) => debit(
                credit(pass, a as int, upstream),
                b as int,
                upstream,
            ),
            Operation::Multiply(a, b) => credit(
                credit(pass, a as int, values[b as int].product(upstream)),
                b as int,
                values[a as int].product(upstream),
            ),
            Operation::Power(a, e) => credit(
                pass,
                a as int,
                e.product(values[a as int].power(e.difference(S::one_value()))).product(upstream),
            ),
            Operation::HyperbolicTangent(a) => credit(
                pass,
                a as int,
                S::one_value().difference(
                    values[i].power(S::one_value().sum(S::one_value())),
                ).product(upstream),
            ),
        }
    }
}

/// The nodes `n - 1`, `n - 2`, down to `0` push in that order.
pub open spec fn descend<S: Scalar>(
    operations: Seq<Operation<S>>,
    values: Seq<S>,
    pass: Pass<S>,
    n: nat,
) -> Pass<S>
    decreases n,
{
    if n == 0 {
        pass
    } else {
        descend(operations, values, push_from(operations, values, pass, n - 1), (n - 1) as nat)
    }
}

/// The state a pass starts from: the root's gradient is one, every other
/// gradient is what it was, and only the root is reached.
pub open spec fn seeded<S: Scalar>(gradients: Seq<S>, root: int) -> Pass<S> {
    Pass {
        gradients: gradients.update(root, S::one_value()),
        reached: Seq::new(gradients.len(), |i: int| i == root),
    }
}

/// The outcome of backpropagation from `root`.
pub open spec fn backward<S: Scalar>(
    operations: Seq<Operation<S>>,
    values: Seq<S>,
    gradients: Seq<S>,
    root: int,
) -> Pass<S> {
    descend(operations, values, seeded(gradients, root), (root + 1) as nat)
}

/// Every operand in `operations` lies below the node that uses it.
pub open spec fn acyclic<S>(operations: Seq<Operation<S>>) -> bool {
    forall|i: int| 0 <= i < operations.len() ==> operands_below(#[trigger] operations[i], i)
}

/// A descent through the nodes below `n` keeps the length of the state and
/// leaves the gradient and the mark of every node from `n - 1` upwards as
/// they were: gradients only ever flow to smaller indices.
pub proof fn lemma_descend_frame<S: Scalar>(
    operations: Seq<Operation<S>>,
    values: Seq<S>,
    pass: Pass<S>,
    n: nat,
)
    requires
        acyclic(operations),
        n <= operations.len(),
        pass.gradients.len() == operations.len(),
        pass.reached.len() == operations.len(),
    ensures
        descend(operations, values, pass, n).gradients.len() == pass.gradients.len(),
        descend(operations, values, pass, n).reached.len() == pass.reached.len(),
        forall|j: int|
            n <= j + 1 && 0 <= j < operations.len() ==> #[trigger] descend(
                operations,
                values,
                pass,
                n,
            ).gradients[j] == pass.gradients[j],
        forall|j: int|
            n <= j + 1 && 0 <= j < operations.len() ==> #[trigger] descend(
                operations,
                values,
                pass,
                n,
            ).reached[j] == pass.reached[j],
    decreases n,
{
    if n > 0 {
        let next = push_from(operations, values, pass, n - 1);
        let end = descend(operations, values, pass, n);
        assert(operands_below(operations[n - 1], n - 1));
        lemma_descend_frame(operations, values, next, (n - 1) as nat);
        assert(end == descend(operations, values, next, (n - 1) as nat));
        assert forall|j: int| n <= j + 1 && 0 <= j < operations.len() implies #[trigger] end.gradients[j]
            == pass.gradients[j] by {
            assert(next.gradients[j] == pass.gradients[j]);
        }
        assert forall|j: int| n <= j + 1 && 0 <= j < operations.len() implies #[trigger] end.reached[j]
            == pass.reached[j] by {
            assert(next.reached[j] == pass.reached[j]);
        }
    }
}

/// Self-seeding: after backpropagation the root's gradient is one, whatever
/// it was before, and no node above the root has changed.
pub proof fn lemma_backward_seeds_root<S: Scalar>(
    operations: Seq<Operation<S>>,
    values: Seq<S>,
    gradients: Seq<S>,
    root: int,
)
    requires
        acyclic(operations),
        gradients.len() == operations.len(),
        0 <= root < operations.len(),
    ensures
        backward(operations, values, gradients, root).gradients.len() == gradients.len(),
        backward(operations, values, gradients, root).gradients[root] == S::one_value(),
        forall|j: int|
            root < j < gradients.len() ==> backward(operations, values, gradients, root).gradients[j]
                == gradients[j],
{
    let start = seeded(gradients, root);
    let end = backward(operations, values, gradients, root);
    lemma_descend_frame(operations, values, start, (root + 1) as nat);
    assert(end.gradients[root] == start.gradients[root]);
    assert forall|j: int| root < j < gradients.len() implies end.gradients[j] == gradients[j] by {
        assert(end.gradients[j] == start.gradients[j]);
    }
}

/// The nodes `n - 1`, `n - 2`, down to `stop` push in that order.
pub open spec fn descend_until<S: Scalar>(
    operations: Seq<Operation<S>>,
    values: Seq<S>,
    pass: Pass<S>,
    n: nat,
    stop: nat,
) -> Pass<S>
    decreases n,
{
    if n <= stop {
        pass
    } else {
        descend_until(
            operations,
            values,
            push_from(operations, values, pass, n - 1),
            (n - 1) as nat,
            stop,
        )
    }
}

/// A descent can be cut in two at any node.
pub proof fn lemma_descend_split<S: Scalar>(
    operations: Seq<Operation<S>>,
    values: Seq<S>,
    pass: Pass<S>,
    n: nat,
    stop: nat,
)
    requires
        acyclic(operations),
        stop <= n <= operations.len(),
        pass.gradients.len() == operations.len(),
        pass.reached.len() == operations.len(),
    ensures
        descend(operations, values, pass, n) == descend(
            operations,
            values,
            descend_until(operations, values, pass, n, stop),
            stop,
        ),
        descend_until(operations, values, pass, n, stop).gradients.len() == operations.len(),
        descend_until(operations, values, pass, n, stop).reached.len() == operations.len(),
    decreases n,
{
    if n > stop {
        assert(operands_below(operations[n - 1], n - 1));
        lemma_descend_split(
            operations,
            values,
            push_from(operations, values, pass, n - 1),
            (n - 1) as nat,
            stop,
        );
    }
}

/// When a node takes its turn to push, its gradient is already what it will
/// be at the end of the pass: every node that uses it has pushed before,
/// and nothing that comes after can reach it.
pub proof fn lemma_gradient_complete_when_pushed<S: Scalar>(
    operations: Seq<Operation<S>>,
    values: Seq<S>,
    gradients: Seq<S>,
    root: int,
    j: int,
)
    requires
        acyclic(operations),
        gradients.len() == operations.len(),
        0 <= j <= root < operations.len(),
    ensures
        backward(operations, values, gradients, root).gradients[j] == descend_until(
            operations,
            values,
            seeded(gradients, root),
            (root + 1) as nat,
            (j + 1) as nat,
        ).gradients[j],
        backward(operations, values, gradients, root).reached[j] == descend_until(
            operations,
            values,
            seeded(gradients, root),
            (root + 1) as nat,
            (j + 1) as nat,
        ).reached[j],
{
    let start = seeded(gradients, root);
    let middle = descend_until(operations, values, start, (root + 1) as nat, (j + 1) as nat);
    lemma_descend_split(operations, values, start, (root + 1) as nat, (j + 1) as nat);
    lemma_descend_frame(operations, values, middle, (j + 1) as nat);
    let end = descend(operations, values, middle, (j + 1) as nat);
    assert(end.gradients[j] == middle.gradients[j]);
    assert(end.reached[j] == middle.reached[j]);
}

/// A descent never takes a mark away, and it leaves the gradient of every
/// node that is unmarked at its end as it was.
pub proof fn lemma_descend_marks<S: Scalar>(
    operations: Seq<Operation<S>>,
    values: Seq<S>,
    pass: Pass<S>,
    n: nat,
)
    requires
        acyclic(operations),
        n <= operations.len(),
        pass.gradients.len() == operations.len(),
        pass.reached.len() == operations.len(),
    ensures
        forall|j: int|
            0 <= j < operations.len() && pass.reached[j] ==> #[trigger] descend(
                operations,
                values,
                pass,
                n,
            ).reached[j],
        forall|j: int|
            0 <= j < operations.len() && !descend(operations, values, pass, n).reached[j]
                ==> #[trigger] descend(operations, values, pass, n).gradients[j]
                == pass.gradients[j],
    decreases n,
{
    if n > 0 {
        let next = push_from(operations, values, pass, n - 1);
        let end = descend(operations, values, pass, n);
        assert(operands_below(operations[n - 1], n - 1));
        lemma_descend_marks(operations, values, next, (n - 1) as nat);
        lemma_descend_frame(operations, values, next, (n - 1) as nat);
        assert(end == descend(operations, values, next, (n - 1) as nat));
        assert forall|j: int| 0 <= j < operations.len() && pass.reached[j] implies #[trigger] end.reached[j] by {
            assert(next.reached[j]);
        }
        assert forall|j: int| 0 <= j < operations.len() && !end.reached[j] implies #[trigger] end.gradients[j]
            == pass.gradients[j] by {
            assert(!next.reached[j]) by {
                if next.reached[j] {
                    assert(end.reached[j]);
                }
            }
            assert(end.gradients[j] == next.gradients[j]);
            assert(next.gradients[j] == pass.gradients[j]);
        }
    }
}

/// Backpropagation changes the gradient of no node that the pass does not
/// reach from the root.
pub proof fn lemma_unreached_keep_gradient<S: Scalar>(
    operations: Seq<Operation<S>>,
    values: Seq<S>,
    gradients: Seq<S>,
    root: int,
)
    requires
        acyclic(operations),
        gradients.len() == operations.len(),
        0 <= root < operations.len(),
    ensures
        backward(operations, values, gradients, root).reached[root],
        forall|j: int|
            0 <= j < operations.len() && !backward(operations, values, gradients, root).reached[j]
                ==> #[trigger] backward(operations, values, gradients, root).gradients[j]
                == gradients[j],
{
    let start = seeded(gradients, root);
    let end = backward(operations, values, gradients, root);
    lemma_descend_marks(operations, values, start, (root + 1) as nat);
    assert(start.reached[root]);
    assert(end.reached[root]);
    assert forall|j: int| 0 <= j < operations.len() && !end.reached[j] implies #[trigger] end.gradients[j]
        == gradients[j] by {
        assert(end.gradients[j] == start.gradients[j]);
        assert(j != root);
    }
}

/// Node `j` is an operand of `operation`.
pub open spec fn uses<S>(operation: Operation<S>, j: int) -> bool {
    match operation {
        Operation::Constant => false,
        Operation::Add(a, b) => a == j || b == j,
        Operation::Subtract(a, b) => a == j || b == j,
        Operation::Multiply(a, b) => a == j || b == j,
        Operation::Power(a, _) => a == j,
        Operation::HyperbolicTangent(a) => a == j,
    }
}

/// Some marked node from `n` up to the root uses `j`.
pub open spec fn used_from<S>(
    operations: Seq<Operation<S>>,
    marks: Seq<bool>,
    root: int,
    n: int,
    j: int,
) -> bool {
    exists|i: int| n <= i <= root && j < i && #[trigger] marks[i] && uses(operations[i], j)
}

/// If the marks of a state tell, for every node, whether it is the root or
/// is used by a node from `n` upwards that is marked at the end of the
/// descent, then at the end a node is marked exactly if it is the root or
/// is used by a marked node.
pub proof fn lemma_descend_reaches_operands<S: Scalar>(
    operations: Seq<Operation<S>>,
    values: Seq<S>,
    pass: Pass<S>,
    root: int,
    n: nat,
)
    requires
        acyclic(operations),
        0 <= root < operations.len(),
        n <= root + 1,
        pass.gradients.len() == operations.len(),
        pass.reached.len() == operations.len(),
        forall|j: int|
            0 <= j < operations.len() ==> (#[trigger] pass.reached[j] <==> (j == root || used_from(
                operations,
                descend(operations, values, pass, n).reached,
                root,
                n as int,
                j,
            ))),
    ensures
        forall|j: int|
            0 <= j < operations.len() ==> (#[trigger] descend(
                operations,
                values,
                pass,
                n,
            ).reached[j] <==> (j == root || used_from(
                operations,
                descend(operations, values, pass, n).reached,
                root,
                0,
                j,
            ))),
    decreases n,
{
    let end = descend(operations, values, pass, n);
    if n == 0 {
    } else {
        let m = n - 1;
        let next = push_from(operations, values, pass, m);
        assert(operands_below(operations[m], m));
        assert(end == descend(operations, values, next, m as nat));
        lemma_descend_frame(operations, values, pass, n);
        assert(end.reached[m] == pass.reached[m]);
        assert forall|j: int| 0 <= j < operations.len() implies (#[trigger] next.reached[j] <==> (j
            == root || used_from(operations, end.reached, root, m, j))) by {
            assert(next.reached[j] <==> (pass.reached[j] || (pass.reached[m] && uses(
                operations[m],
                j,
            ))));
            if used_from(operations, end.reached, root, n as int, j) {
                let i = choose|i: int|
                    n <= i <= root && j < i && #[trigger] end.reached[i] && uses(operations[i], j);
                assert(m <= i <= root && j < i && end.reached[i] && uses(operations[i], j));
            }
            if pass.reached[m] && uses(operations[m], j) {
                assert(m <= m <= root && j < m && end.reached[m] && uses(operations[m], j));
            }
            if used_from(operations, end.reached, root, m, j) {
                let i = choose|i: int|
                    m <= i <= root && j < i && #[trigger] end.reached[i] && uses(operations[i], j);
                if i != m {
                    assert(n <= i <= root && j < i && end.reached[i] && uses(operations[i], j));
                }
            }
        }
        lemma_descend_reaches_operands(operations, values, next, root, m as nat);
    }
}

/// Backpropagation reaches the root and, from every node it reaches, that
/// node's operands, and nothing else; and it changes the gradient of no
/// node that it does not reach.
pub proof fn lemma_backward_reaches_operands<S: Scalar>(
    operations: Seq<Operation<S>>,
    values: Seq<S>,
    gradients: Seq<S>,
    root: int,
)
    requires
        acyclic(operations),
        gradients.len() == operations.len(),
        0 <= root < operations.len(),
    ensures
        forall|j: int|
            0 <= j < operations.len() ==> (#[trigger] backward(
                operations,
                values,
                gradients,
                root,
            ).reached[j] <==> (j == root || used_from(
                operations,
                backward(operations, values, gradients, root).reached,
                root,
                0,
                j,
            ))),
        forall|j: int|
            0 <= j < operations.len() && !backward(operations, values, gradients, root).reached[j]
                ==> #[trigger] backward(operations, values, gradients, root).gradients[j]
                == gradients[j],
{
    let start = seeded(gradients, root);
    let end = backward(operations, values, gradients, root);
    assert forall|j: int| 0 <= j < operations.len() implies (#[trigger] start.reached[j] <==> (j
        == root || used_from(operations, end.reached, root, root + 1, j))) by {
    }
    lemma_descend_reaches_operands(operations, values, start, root, (root + 1) as nat);
    lemma_unreached_keep_gradient(operations, values, gradients, root);
}

/// What node `j` holds after node `i` has pushed, if it held `held` before
/// and the gradient of node `i` is `upstream`: for each operand place of
/// `i` that `j` fills, the derivative of `i` with respect to that operand
/// times `upstream` is added, the left place first.
pub open spec fn received<S: Scalar>(
    operations: Seq<Operation<S>>,
    values: Seq<S>,
    i: int,
    upstream: S,
    j: int,
    held: S,
) -> S {
    match operations[i] {
        Operation::Constant => held,
        Operation::Add(a, b) => {
            let left = if a == j {
                held.sum(upstream)
            } else {
                held
            };
            if b == j {
                left.sum(upstream)
            } else {
                left
            }
        },
        Operation::Subtract(a, b) => {
            let left = if a == j {
                held.sum(upstream)
            } else {
                held
            };
            if b == j {
                left.difference(upstream)
            } else {
                left
            }
        },
        Operation::Multiply(a, b) => {
            let left = if a == j {
                held.sum(values[b as int].product(upstream))
            } else {
                held
            };
            if b == j {
                left.sum(values[a as int].product(upstream))
            } else {
                left
            }
        },
        Operation::Power(a, e) => if a == j {
            held.sum(
                e.product(values[a as int].power(e.difference(S::one_value()))).product(upstream),
            )
        } else {
            held
        },
        Operation::HyperbolicTangent(a) => if a == j {
            held.sum(
                S::one_value().difference(
                    values[i].power(S::one_value().sum(S::one_value())),
                ).product(upstream),
            )
        } else {
            held
        },
    }
}

/// What node `j` has collected from the marked nodes from `n` up to the
/// root, the root's side first, when it started with `start` and the nodes
/// hold the gradients `gradients` when they push.
pub open spec fn collected<S: Scalar>(
    operations: Seq<Operation<S>>,
    values: Seq<S>,
    gradients: Seq<S>,
    marks: Seq<bool>,
    start: S,
    root: int,
    j: int,
    n: int,
) -> S
    decreases root + 1 - n,
{
    if n > root {
        start
    } else {
        let held = collected(operations, values, gradients, marks, start, root, j, n + 1);
        if marks[n] {
            received(operations, values, n, gradients[n], j, held)
        } else {
            held
        }
    }
}

/// If every node holds what it has collected from the nodes from `n`
/// upwards, taken with the gradients and marks they have at the end of the
/// descent, then at the end every node holds what it has collected from
/// all nodes.
pub proof fn lemma_descend_collects<S: Scalar>(
    operations: Seq<Operation<S>>,
    values: Seq<S>,
    pass: Pass<S>,
    starts: Seq<S>,
    root: int,
    n: nat,
)
    requires
        acyclic(operations),
        0 <= root < operations.len(),
        n <= root + 1,
        pass.gradients.len() == operations.len(),
        pass.reached.len() == operations.len(),
        starts.len() == operations.len(),
        forall|j: int|
            0 <= j < operations.len() ==> #[trigger] pass.gradients[j] == collected(
                operations,
                values,
                descend(operations, values, pass, n).gradients,
                descend(operations, values, pass, n).reached,
                starts[j],
                root,
                j,
                n as int,
            ),
    ensures
        forall|j: int|
            0 <= j < operations.len() ==> #[trigger] descend(
                operations,
                values,
                pass,
                n,
            ).gradients[j] == collected(
                operations,
                values,
                descend(operations, values, pass, n).gradients,
                descend(operations, values, pass, n).reached,
                starts[j],
                root,
                j,
                0,
            ),
    decreases n,
{
    let end = descend(operations, values, pass, n);
    if n > 0 {
        let m = n - 1;
        let next = push_from(operations, values, pass, m);
        assert(operands_below(operations[m], m));
        assert(end == descend(operations, values, next, m as nat));
        lemma_descend_frame(operations, values, pass, n);
        assert(end.reached[m] == pass.reached[m]);
        assert(end.gradients[m] == pass.gradients[m]);
        assert forall|j: int| 0 <= j < operations.len() implies #[trigger] next.gradients[j]
            == collected(operations, values, end.gradients, end.reached, starts[j], root, j, m) by {
            let held = collected(
                operations,
                values,
                end.gradients,
                end.reached,
                starts[j],
                root,
                j,
                n as int,
            );
            assert(pass.gradients[j] == held);
            assert(collected(operations, values, end.gradients, end.reached, starts[j], root, j, m)
                == if end.reached[m] {
                received(operations, values, m, end.gradients[m], j, held)
            } else {
                held
            });
        }
        lemma_descend_collects(operations, values, next, starts, root, m as nat);
    }
}

/// The gradient that backpropagation leaves in a node is what the node
/// held at the start (one for the root) plus one share from every use of
/// the node by a node that the pass reaches: the derivative of the user
/// with respect to that operand, times the user's own final gradient. The
/// shares are added in the order of the users, the root's side first.
pub proof fn lemma_backward_collects<S: Scalar>(
    operations: Seq<Operation<S>>,
    values: Seq<S>,
    gradients: Seq<S>,
    root: int,
)
    requires
        acyclic(operations),
        gradients.len() == operations.len(),
        0 <= root < operations.len(),
    ensures
        forall|j: int|
            0 <= j < operations.len() ==> #[trigger] backward(
                operations,
                values,
                gradients,
                root,
            ).gradients[j] == collected(
                operations,
                values,
                backward(operations, values, gradients, root).gradients,
                backward(operations, values, gradients, root).reached,
                seeded(gradients, root).gradients[j],
                root,
                j,
                0,
            ),
{
    let start = seeded(gradients, root);
    lemma_descend_collects(operations, values, start, start.gradients, root, (root + 1) as nat);
}

/// A descent in which no reached node below `n` has operands changes
/// nothing.
pub proof fn lemma_descend_over_leaves<S: Scalar>(
    operations: Seq<Operation<S>>,
    values: Seq<S>,
    pass: Pass<S>,
    n: nat,
)
    requires
        n <= operations.len(),
        pass.reached.len() == operations.len(),
        forall|i: int| 0 <= i < n && pass.reached[i] ==> operations[i] == Operation::<S>::Constant,
    ensures
        descend(operations, values, pass, n) == pass,
    decreases n,
{
    if n > 0 {
        lemma_descend_over_leaves(operations, values, pass, (n - 1) as nat);
    }
}

/// The graph with one more node at the end.
pub open spec fn with_node<S: Scalar>(
    operations: Seq<Operation<S>>,
    values: Seq<S>,
    gradients: Seq<S>,
    operation: Operation<S>,
    value: S,
) -> (Seq<Operation<S>>, Seq<S>, Seq<S>) {
    (operations.push(operation), values.push(value), gradients.push(S::zero_value()))
}

/// The graph with one more node at the end: `a - b`.
pub open spec fn with_difference<S: Scalar>(
    operations: Seq<Operation<S>>,
    values: Seq<S>,
    gradients: Seq<S>,
    a: usize,
    b: usize,
) -> (Seq<Operation<S>>, Seq<S>, Seq<S>) {
    with_node(
        operations,
        values,
        gradients,
        Operation::Subtract(a, b),
        values[a as int].difference(values[b as int]),
    )
}

/// The graph with three more nodes at the end: a leaf that holds zero minus
/// one, the product of `b` with that leaf, and the sum of `a` and that
/// product.
pub open spec fn with_negated_sum<S: Scalar>(
    operations: Seq<Operation<S>>,
    values: Seq<S>,
    gradients: Seq<S>,
    a: usize,
    b: usize,
) -> (Seq<Operation<S>>, Seq<S>, Seq<S>) {
    let n = operations.len() as int;
    let minus_one = S::zero_value().difference(S::one_value());
    let factor = with_node(operations, values, gradients, Operation::Constant, minus_one);
    let negated = with_node(
        factor.0,
        factor.1,
        factor.2,
        Operation::Multiply(b, n as usize),
        values[b as int].product(minus_one),
    );
    with_node(
        negated.0,
        negated.1,
        negated.2,
        Operation::Add(a, (n + 1) as usize),
        values[a as int].sum(values[b as int].product(minus_one)),
    )
}

/// Subtraction against addition of the negated operand, for two distinct
/// leaves `a` and `b`.
///
/// Backpropagation from `a - b` and from `a + b * (-1)` leave the same
/// gradient in `a`: what it held before, plus one. In `b` the first leaves
/// what it held minus one; the second leaves one (added to zero) in the
/// negated node and hands it to `b` multiplied by minus one.
pub proof fn lemma_subtract_and_negated_add_on_leaves<S: Scalar>(
    operations: Seq<Operation<S>>,
    values: Seq<S>,
    gradients: Seq<S>,
    a: usize,
    b: usize,
)
    requires
        values.len() == operations.len(),
        gradients.len() == operations.len(),
        operations.len() + 2 <= usize::MAX,
        a < operations.len(),
        b < operations.len(),
        a != b,
        operations[a as int] == Operation::<S>::Constant,
        operations[b as int] == Operation::<S>::Constant,
    ensures
        ({
            let n = operations.len() as int;
            let one = S::one_value();
            let minus_one = S::zero_value().difference(one);
            let direct = with_difference(operations, values, gradients, a, b);
            let detour = with_negated_sum(operations, values, gradients, a, b);
            let first = backward(direct.0, direct.1, direct.2, n).gradients;
            let second = backward(detour.0, detour.1, detour.2, n + 2).gradients;
            &&& first[a as int] == second[a as int]
            &&& first[a as int] == gradients[a as int].sum(one)
            &&& first[b as int] == gradients[b as int].difference(one)
            &&& second[n + 1] == S::zero_value().sum(one)
            &&& second[b as int] == gradients[b as int].sum(minus_one.product(second[n + 1]))
        }),
{
    let n = operations.len() as int;
    let one = S::one_value();
    let minus_one = S::zero_value().difference(one);
    let direct = with_difference(operations, values, gradients, a, b);
    let detour = with_negated_sum(operations, values, gradients, a, b);

    let d0 = seeded(direct.2, n);
    let d1 = push_from(direct.0, direct.1, d0, n);
    assert(backward(direct.0, direct.1, direct.2, n) == descend(direct.0, direct.1, d1, n as nat));
    lemma_descend_over_leaves(direct.0, direct.1, d1, n as nat);

    let e0 = seeded(detour.2, n + 2);
    let e1 = push_from(detour.0, detour.1, e0, n + 2);
    let e2 = push_from(detour.0, detour.1, e1, n + 1);
    let e3 = push_from(detour.0, detour.1, e2, n);
    assert(backward(detour.0, detour.1, detour.2, n + 2) == descend(
        detour.0,
        detour.1,
        e1,
        (n + 2) as nat,
    ));
    assert(descend(detour.0, detour.1, e1, (n + 2) as nat) == descend(
        detour.0,
        detour.1,
        e2,
        (n + 1) as nat,
    ));
    assert(descend(detour.0, detour.1, e2, (n + 1) as nat) == descend(
        detour.0,
        detour.1,
        e3,
        n as nat,
    ));
    assert(e3 == e2);
    lemma_descend_over_leaves(detour.0, detour.1, e3, n as nat);
}

/// In the number type `S`, zero added to one, or to minus one, changes
/// nothing, and one is neutral in a product with minus one on either side.
pub open spec fn zero_and_one_are_neutral<S: Scalar>() -> bool {
    let zero = S::zero_value();
    let one = S::one_value();
    let minus_one = zero.difference(one);
    &&& zero.sum(one) == one
    &&& zero.sum(minus_one) == minus_one
    &&& minus_one.product(one) == minus_one
    &&& one.product(minus_one) == minus_one
}

/// Subtraction against addition of the negated operand, for two distinct
/// leaves `a` and `b` whose gradients are zero, in a number type where zero
/// and one are neutral.
///
/// Backpropagation from `a - b` and from `a + b * (-1)` both leave one in
/// `a` and minus one in `b`; the second leaves one in the negated node, so
/// that the gradient of `b` is that of the negated node times minus one.
pub proof fn lemma_subtract_and_negated_add_on_fresh_leaves<S: Scalar>(
    operations: Seq<Operation<S>>,
    values: Seq<S>,
    gradients: Seq<S>,
    a: usize,
    b: usize,
)
    requires
        values.len() == operations.len(),
        gradients.len() == operations.len(),
        operations.len() + 2 <= usize::MAX,
        a < operations.len(),
        b < operations.len(),
        a != b,
        operations[a as int] == Operation::<S>::Constant,
        operations[b as int] == Operation::<S>::Constant,
        gradients[a as int] == S::zero_value(),
        gradients[b as int] == S::zero_value(),
        zero_and_one_are_neutral::<S>(),
    ensures
        ({
            let n = operations.len() as int;
            let one = S::one_value();
            let minus_one = S::zero_value().difference(one);
            let direct = with_difference(operations, values, gradients, a, b);
            let detour = with_negated_sum(operations, values, gradients, a, b);
            let first = backward(direct.0, direct.1, direct.2, n).gradients;
            let second = backward(detour.0, detour.1, detour.2, n + 2).gradients;
            &&& first[a as int] == one
            &&& second[a as int] == one
            &&& first[b as int] == minus_one
            &&& second[b as int] == minus_one
            &&& second[n + 1] == one
            &&& first[b as int] == second[n + 1].product(minus_one)
        }),
{
    lemma_subtract_and_negated_add_on_leaves(operations, values, gradients, a, b);
}

/// Two states hold the same gradient and the same mark for every node
/// below `n`.
pub open spec fn agree_below<S>(p: Pass<S>, q: Pass<S>, n: int) -> bool {
    &&& forall|j: int| 0 <= j < n ==> #[trigger] p.gradients[j] == q.gradients[j]
    &&& forall|j: int| 0 <= j < n ==> #[trigger] p.reached[j] == q.reached[j]
}

/// What a descent through the nodes below `n` leaves in those nodes depends
/// only on those nodes: two graphs that are the same below `n`, started
/// from states that agree below `n`, end in states that agree below `n`.
pub proof fn lemma_descend_depends_on_prefix<S: Scalar>(
    operations: Seq<Operation<S>>,
    values: Seq<S>,
    p: Pass<S>,
    other_operations: Seq<Operation<S>>,
    other_values: Seq<S>,
    q: Pass<S>,
    n: nat,
)
    requires
        acyclic(operations),
        acyclic(other_operations),
        n <= operations.len(),
        n <= other_operations.len(),
        p.gradients.len() == operations.len(),
        p.reached.len() == operations.len(),
        q.gradients.len() == other_operations.len(),
        q.reached.len() == other_operations.len(),
        forall|i: int| 0 <= i < n ==> #[trigger] operations[i] == other_operations[i],
        forall|i: int| 0 <= i < n ==> #[trigger] values[i] == other_values[i],
        agree_below(p, q, n as int),
    ensures
        agree_below(
            descend(operations, values, p, n),
            descend(other_operations, other_values, q, n),
            n as int,
        ),
    decreases n,
{
    if n > 0 {
        let m = n - 1;
        let p1 = push_from(operations, values, p, m);
        let q1 = push_from(other_operations, other_values, q, m);
        assert(operands_below(operations[m], m));
        assert(operands_below(other_operations[m], m));
        assert(operations[m] == other_operations[m]);
        assert(p.gradients[m] == q.gradients[m]);
        assert(p.reached[m] == q.reached[m]);
        assert(values[m] == other_values[m]);
        assert(agree_below(p1, q1, n as int)) by {
            assert forall|j: int| 0 <= j < n implies #[trigger] p1.gradients[j] == q1.gradients[j] by {
                assert(p.gradients[j] == q.gradients[j]);
            }
            assert forall|j: int| 0 <= j < n implies #[trigger] p1.reached[j] == q1.reached[j] by {
                assert(p.reached[j] == q.reached[j]);
            }
        }
        lemma_descend_depends_on_prefix(
            operations,
            values,
            p1,
            other_operations,
            other_values,
            q1,
            m as nat,
        );
        lemma_descend_frame(operations, values, p1, m as nat);
        lemma_descend_frame(other_operations, other_values, q1, m as nat);
        let p2 = descend(operations, values, p1, m as nat);
        let q2 = descend(other_operations, other_values, q1, m as nat);
        assert(descend(operations, values, p, n) == p2);
        assert(descend(other_operations, other_values, q, n) == q2);
        assert forall|j: int| 0 <= j < n implies #[trigger] p2.gradients[j] == q2.gradients[j] by {
            if j == m {
                assert(p2.gradients[m] == p1.gradients[m]);
                assert(q2.gradients[m] == q1.gradients[m]);
                assert(p1.gradients[m] == q1.gradients[m]);
            }
        }
        assert forall|j: int| 0 <= j < n implies #[trigger] p2.reached[j] == q2.reached[j] by {
            if j == m {
                assert(p2.reached[m] == p1.reached[m]);
                assert(q2.reached[m] == q1.reached[m]);
                assert(p1.reached[m] == q1.reached[m]);
            }
        }
    }
}

/// In the number type `S`, taking one away from a number gives what adding
/// minus one times the sum of zero and one gives.
pub open spec fn subtracting_one_adds_minus_one<S: Scalar>() -> bool {
    forall|x: S| #[trigger]
        x.difference(S::one_value()) == x.sum(
            S::zero_value().difference(S::one_value()).product(
                S::zero_value().sum(S::one_value()),
            ),
        )
}

/// Subtraction against addition of the negated operand, for any two nodes
/// `a` and `b`, in a number type where taking one away is adding minus one.
///
/// Backpropagation from `a - b` and from `a + b * (-1)` leave the same
/// gradient in `a`, in `b`, and in every other node that was there before.
pub proof fn lemma_subtract_and_negated_add<S: Scalar>(
    operations: Seq<Operation<S>>,
    values: Seq<S>,
    gradients: Seq<S>,
    a: usize,
    b: usize,
)
    requires
        acyclic(operations),
        values.len() == operations.len(),
        gradients.len() == operations.len(),
        operations.len() + 2 <= usize::MAX,
        a < operations.len(),
        b < operations.len(),
        subtracting_one_adds_minus_one::<S>(),
    ensures
        ({
            let n = operations.len() as int;
            let minus_one = S::zero_value().difference(S::one_value());
            let direct = with_difference(operations, values, gradients, a, b);
            let detour = with_negated_sum(operations, values, gradients, a, b);
            let first = backward(direct.0, direct.1, direct.2, n).gradients;
            let second = backward(detour.0, detour.1, detour.2, n + 2).gradients;
            forall|j: int| 0 <= j < n ==> #[trigger] first[j] == second[j]
        }),
{
    let n = operations.len() as int;
    let one = S::one_value();
    let minus_one = S::zero_value().difference(one);
    let direct = with_difference(operations, values, gradients, a, b);
    let detour = with_negated_sum(operations, values, gradients, a, b);

    let d0 = seeded(direct.2, n);
    let d1 = push_from(direct.0, direct.1, d0, n);
    assert(backward(direct.0, direct.1, direct.2, n) == descend(direct.0, direct.1, d1, n as nat));

    let e0 = seeded(detour.2, n + 2);
    let e1 = push_from(detour.0, detour.1, e0, n + 2);
    let e2 = push_from(detour.0, detour.1, e1, n + 1);
    let e3 = push_from(detour.0, detour.1, e2, n);
    assert(backward(detour.0, detour.1, detour.2, n + 2) == descend(
        detour.0,
        detour.1,
        e1,
        (n + 2) as nat,
    ));
    assert(descend(detour.0, detour.1, e1, (n + 2) as nat) == descend(
        detour.0,
        detour.1,
        e2,
        (n + 1) as nat,
    ));
    assert(descend(detour.0, detour.1, e2, (n + 1) as nat) == descend(
        detour.0,
        detour.1,
        e3,
        n as nat,
    ));
    assert(e3 == e2);

    let middle = gradients[a as int].sum(one);
    assert(e1.gradients[n + 1] == S::zero_value().sum(one));
    if a == b {
        assert(d1.gradients[b as int] == middle.difference(one));
        assert(e2.gradients[b as int] == middle.sum(minus_one.product(S::zero_value().sum(one))));
    } else {
        assert(d1.gradients[b as int] == gradients[b as int].difference(one));
        assert(e2.gradients[b as int] == gradients[b as int].sum(
            minus_one.product(S::zero_value().sum(one)),
        ));
        assert(d1.gradients[a as int] == middle);
        assert(e2.gradients[a as int] == middle);
    }
    assert(agree_below(d1, e3, n)) by {
        assert forall|j: int| 0 <= j < n implies #[trigger] d1.gradients[j] == e3.gradients[j] by {
            if j != a && j != b {
                assert(d1.gradients[j] == gradients[j]);
                assert(e3.gradients[j] == gradients[j]);
            }
        }
        assert forall|j: int| 0 <= j < n implies #[trigger] d1.reached[j] == e3.reached[j] by {
            assert(d1.reached[j] == (j == a || j == b));
            assert(e3.reached[j] == (j == a || j == b));
        }
    }
    assert(acyclic(direct.0)) by {
        assert forall|i: int| 0 <= i < direct.0.len() implies operands_below(
            #[trigger] direct.0[i],
            i,
        ) by {
            if i < n {
                assert(direct.0[i] == operations[i]);
            }
        }
    }
    assert(acyclic(detour.0)) by {
        assert forall|i: int| 0 <= i < detour.0.len() implies operands_below(
            #[trigger] detour.0[i],
            i,
        ) by {
            if i < n {
                assert(detour.0[i] == operations[i]);
            }
        }
    }
    lemma_descend_depends_on_prefix(
        direct.0,
        direct.1,
        d1,
        detour.0,
        detour.1,
        e3,
        n as nat,
    );
}

/// The square of a leaf `x`, built as the product of `x` with itself.
///
/// Backpropagation from the product adds the value of `x` times one to the
/// gradient of `x` twice, once for each use.
pub proof fn lemma_square_of_leaf<S: Scalar>(
    operations: Seq<Operation<S>>,
    values: Seq<S>,
    gradients: Seq<S>,
    x: usize,
)
    requires
        values.len() == operations.len(),
        gradients.len() == operations.len(),
        x < operations.len(),
        operations[x as int] == Operation::<S>::Constant,
    ensures
        ({
            let n = operations.len() as int;
            let square = with_node(
                operations,
                values,
                gradients,
                Operation::Multiply(x, x),
                values[x as int].product(values[x as int]),
            );
            let share = values[x as int].product(S::one_value());
            backward(square.0, square.1, square.2, n).gradients[x as int] == gradients[x as int].sum(
                share,
            ).sum(share)
        }),
{
    let n = operations.len() as int;
    let square = with_node(
        operations,
        values,
        gradients,
        Operation::Multiply(x, x),
        values[x as int].product(values[x as int]),
    );
    let s0 = seeded(square.2, n);
    let s1 = push_from(square.0, square.1, s0, n);
    assert(backward(square.0, square.1, square.2, n) == descend(square.0, square.1, s1, n as nat));
    lemma_descend_over_leaves(square.0, square.1, s1, n as nat);
}

/// Node `i` pushes its gradient to its operands.
fn push<S: Scalar>(g: &mut Graph<S>, reached: &mut Vec<bool>, i: usize)
    requires
        old(g).wf(),
        i < old(g).size(),
        old(reached)@.len() == old(g).size(),
    ensures
        final(g).wf(),
        final(g).values@ == old(g).values@,
        final(g).labels@ == old(g).labels@,
        final(g).operations@ == old(g).operations@,
        final(reached)@.len() == old(reached)@.len(),
        (Pass { gradients: final(g).gradients@, reached: final(reached)@ }) == push_from(
            old(g).operations@,
            old(g).values@,
            (Pass { gradients: old(g).gradients@, reached: old(reached)@ }),
            i as int,
        ),
{
    if !reached[i] {
        return ;
    }
    assert(operands_below(g.operations@[i as int], i as int));
    match &g.operations[i] {
        Operation::Constant => {},
        Operation::Add(a, b) => {
            let a: usize = *a;
            let b: usize = *b;
            let left = g.gradients[a].plus(&g.gradients[i]);
            g.gradients.set(a, left);
            reached.set(a, true);
            let right = g.gradients[b].plus(&g.gradients[i]);
            g.gradients.set(b, right);
            reached.set(b, true);
        },
        Operation::Subtract(a, b) => {
            let a: usize = *a;
            let b: usize = *b;
            let left = g.gradients[a].plus(&g.gradients[i]);
            g.gradients.set(a, left);
            reached.set(a, true);
            let right = g.gradients[b].minus(&g.gradients[i]);
            g.gradients.set(b, right);
            reached.set(b, true);
        },
        Operation::Multiply(a, b) => {
            let a: usize = *a;
            let b: usize = *b;
            let left = g.gradients[a].plus(&g.values[b].times(&g.gradients[i]));
            g.gradients.set(a, left);
            reached.set(a, true);
            let right = g.gradients[b].plus(&g.values[a].times(&g.gradients[i]));
            g.gradients.set(b, right);
            reached.set(b, true);
        },
        Operation::Power(a, e) => {
            let a: usize = *a;
            let slope = e.times(&g.values[a].powf(&e.minus(&S::one())));
            let inner = g.gradients[a].plus(&slope.times(&g.gradients[i]));
            g.gradients.set(a, inner);
            reached.set(a, true);
        },
        Operation::HyperbolicTangent(a) => {
            let a: usize = *a;
            let two = S::one().plus(&S::one());
            let slope = S::one().minus(&g.values[i].powf(&two));
            let inner = g.gradients[a].plus(&slope.times(&g.gradients[i]));
            g.gradients.set(a, inner);
            reached.set(a, true);
        },
    }
}

/// A vector of `n` times `false`.
fn unmarked(n: usize) -> (r: Vec<bool>)
    ensures
        r@ == Seq::new(n as nat, |i: int| false),
{
    let mut r: Vec<bool> = Vec::new();
    while r.len() < n
        invariant
            r@.len() <= n,
            forall|i: int| 0 <= i < r@.len() ==> !r@[i],
        decreases n - r@.len(),
    {
        r.push(false);
    }
    assert(r@ =~= Seq::new(n as nat, |i: int| false));
    r
}

impl Value {
    /// Computes the derivative of this node with respect to every node it
    /// depends on, and adds it to what that node's gradient held before.
    ///
    /// The root's own gradient is set to one. Then every node from the root
    /// downwards that the root depends on pushes its gradient to its
    /// operands, once, after all the nodes that use it have pushed theirs.
    /// Values, labels and operations stay as they are, and so does every
    /// node the root does not depend on.
    pub fn backpropagate<S: Scalar>(&self, g: &mut Graph<S>)
        requires
            old(g).wf(),
            old(g).contains(*self),
        ensures
            final(g).wf(),
            final(g).values@ == old(g).values@,
            final(g).labels@ == old(g).labels@,
            final(g).operations@ == old(g).operations@,
            final(g).gradients@ == backward(
                old(g).operations@,
                old(g).values@,
                old(g).gradients@,
                self.index as int,
            ).gradients,
            final(g).gradients@[self.index as int] == S::one_value(),
            forall|j: int|
                self.index < j < old(g).size() ==> final(g).gradients@[j] == old(g).gradients@[j],
    {
        let root = self.index;
        let mut reached = unmarked(g.values.len());
        reached.set(root, true);
        g.gradients.set(root, S::one());
        proof {
            assert(reached@ =~= seeded(old(g).gradients@, root as int).reached);
            lemma_backward_seeds_root(
                old(g).operations@,
                old(g).values@,
                old(g).gradients@,
                root as int,
            );
        }
        let mut i = root + 1;
        while i > 0
            invariant
                g.wf(),
                i <= root + 1,
                root < g.size(),
                reached@.len() == g.size(),
                g.values@ == old(g).values@,
                g.labels@ == old(g).labels@,
                g.operations@ == old(g).operations@,
                backward(old(g).operations@, old(g).values@, old(g).gradients@, root as int)
                    == descend(
                    old(g).operations@,
                    old(g).values@,
                    (Pass { gradients: g.gradients@, reached: reached@ }),
                    i as nat,
                ),
            decreases i,
        {
            i -= 1;
            push(g, &mut reached, i);
        }
    }
}

} // verus!
