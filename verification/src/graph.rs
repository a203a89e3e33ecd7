//! The operation graph: scalar nodes, the operations that extend the graph,
//! reverse-mode gradient propagation, and the gradient-descent update.

use vstd::prelude::*;
use crate::arith::{
    add_of, mul_of, sub_of, pow_of, relu_of, gt_of,
    add_bits, mul_bits, sub_bits, pow_bits, relu_bits, gt_bits,
    ZERO_BITS, ONE_BITS, NEG_ONE_BITS, TWO_BITS,
};

verus! {

/// The operation that produced a node, together with the arena indices of its
/// operand nodes. A `Leaf` was built directly from a constant and has no
/// operands. Every operand index is strictly smaller than the index of the
/// node that holds it, so the graph is acyclic by construction.
#[derive(Clone, Copy)]
pub enum Op {
    Leaf,
    Add { lhs: usize, rhs: usize },
    Mul { lhs: usize, rhs: usize },
    Pow { base: usize, exponent: usize },
    Relu { arg: usize },
}

/// One scalar node: its value, its accumulated derivative, and the operation
/// that produced it. Both scalars are IEEE-754 double-precision bit patterns.
#[derive(Clone, Copy)]
pub struct Node {
    pub value: u64,
    pub gradient: u64,
    pub op: Op,
}

/// A handle on a node of a `Graph`: the node's position in the arena.
/// Handles are only ever produced by the graph-building operations of the
/// graph that owns the node.
#[derive(Clone, Copy)]
pub struct Value {
    idx: usize,
}

impl Value {
    /// The position in the arena of the node this handle designates.
    pub closed spec fn id(self) -> usize {
        self.idx
    }
}

/// The arena that holds every node of one operation graph. Operations push
/// freshly constructed nodes and never mutate existing ones; gradient
/// propagation and the parameter update mutate nodes in place.
pub struct Graph {
    nodes: Vec<Node>,
}

/// Whether an operation stored at arena position `i` is well formed: every
/// operand index lies strictly below `i`.
pub open spec fn op_wf(op: Op, i: int) -> bool {
    match op {
        Op::Leaf => true,
        Op::Add { lhs, rhs } => lhs < i && rhs < i,
        Op::Mul { lhs, rhs } => lhs < i && rhs < i,
        Op::Pow { base, exponent } => base < i && exponent < i,
        Op::Relu { arg } => arg < i,
    }
}

/// Whether a node sequence is a well-formed graph: each node's operands lie
/// strictly below it, so operand edges can never form a cycle.
pub open spec fn wf_seq(nodes: Seq<Node>) -> bool {
    forall|i: int| 0 <= i < nodes.len() ==> op_wf(#[trigger] nodes[i].op, i)
}


/// Whether node `j` is reachable from node `i` along operand edges; every
/// node reaches itself. Reachability depends only on the operations, never
/// on the scalars the nodes hold.
pub open spec fn reaches(nodes: Seq<Node>, i: int, j: int) -> bool
    decreases i,
{
    i == j || match nodes[i].op {
        Op::Leaf => false,
        Op::Add { lhs, rhs } => (lhs < i && reaches(nodes, lhs as int, j)) || (rhs < i
            && reaches(nodes, rhs as int, j)),
        Op::Mul { lhs, rhs } => (lhs < i && reaches(nodes, lhs as int, j)) || (rhs < i
            && reaches(nodes, rhs as int, j)),
        Op::Pow { base, exponent } => (base < i && reaches(nodes, base as int, j)) || (exponent < i
            && reaches(nodes, exponent as int, j)),
        Op::Relu { arg } => arg < i && reaches(nodes, arg as int, j),
    }
}

/// The node sequence with the derivative accumulator of node `j` replaced by
/// `g`; everything else is untouched.
pub open spec fn upd_grad(nodes: Seq<Node>, j: int, g: u64) -> Seq<Node> {
    nodes.update(j, (Node { value: nodes[j].value, gradient: g, op: nodes[j].op }))
}

/// One application of the local derivative rule of node `i`: the node pushes
/// a contribution into each operand's accumulator, in operand order, reading
/// the accumulator again between the two pushes so that a node used as both
/// operands receives both contributions.
///
/// - `Add` pushes the node's own accumulated derivative into each operand.
/// - `Mul` pushes the other operand's value times the node's derivative.
/// - `Pow` pushes `exponent * base^(exponent - 1)` times the node's
///   derivative into the base alone; the exponent operand receives nothing.
/// - `Relu` pushes the node's derivative where the operand's value is
///   strictly positive, and a zero term otherwise.
/// - A leaf pushes nothing.
pub open spec fn contribute(nodes: Seq<Node>, i: int) -> Seq<Node> {
    let g = nodes[i].gradient;
    match nodes[i].op {
        Op::Leaf => nodes,
        Op::Add { lhs, rhs } => {
            let n1 = upd_grad(nodes, lhs as int, add_of(nodes[lhs as int].gradient, g));
            upd_grad(n1, rhs as int, add_of(n1[rhs as int].gradient, g))
        },
        Op::Mul { lhs, rhs } => {
            let n1 = upd_grad(
                nodes,
                lhs as int,
                add_of(nodes[lhs as int].gradient, mul_of(nodes[rhs as int].value, g)),
            );
            upd_grad(
                n1,
                rhs as int,
                add_of(n1[rhs as int].gradient, mul_of(n1[lhs as int].value, g)),
            )
        },
        Op::Pow { base, exponent } => {
            let b = nodes[base as int].value;
            let e = nodes[exponent as int].value;
            upd_grad(
                nodes,
                base as int,
                add_of(
                    nodes[base as int].gradient,
                    mul_of(mul_of(e, pow_of(b, sub_of(e, ONE_BITS))), g),
                ),
            )
        },
        Op::Relu { arg } => {
            let push = if gt_of(nodes[arg as int].value, ZERO_BITS) {
                mul_of(ONE_BITS, g)
            } else {
                ZERO_BITS
            };
            upd_grad(nodes, arg as int, add_of(nodes[arg as int].gradient, push))
        },
    }
}

/// The full propagation walk from node `i`: apply the local rule of `i`, then
/// walk into each operand in order. A node reachable along several paths is
/// walked once per path, so its accumulator receives the sum of the
/// contributions of every path.
pub open spec fn propagate(nodes: Seq<Node>, i: int) -> Seq<Node>
    decreases i,
{
    let c = contribute(nodes, i);
    match nodes[i].op {
        Op::Leaf => c,
        Op::Add { lhs, rhs } => if lhs < i && rhs < i {
            propagate(propagate(c, lhs as int), rhs as int)
        } else {
            c
        },
        Op::Mul { lhs, rhs } => if lhs < i && rhs < i {
            propagate(propagate(c, lhs as int), rhs as int)
        } else {
            c
        },
        Op::Pow { base, exponent } => if base < i && exponent < i {
            propagate(propagate(c, base as int), exponent as int)
        } else {
            c
        },
        Op::Relu { arg } => if arg < i {
            propagate(c, arg as int)
        } else {
            c
        },
    }
}

/// The reset phase: every node reachable from `r` has its accumulator set to
/// zero; every other node is untouched.
pub open spec fn cleared(nodes: Seq<Node>, r: int) -> Seq<Node> {
    Seq::new(
        nodes.len(),
        |j: int|
            (Node {
                value: nodes[j].value,
                gradient: if reaches(nodes, r, j) {
                    ZERO_BITS
                } else {
                    nodes[j].gradient
                },
                op: nodes[j].op,
            }),
    )
}

/// The seed phase: the root's accumulator is set to one, the derivative of
/// the root with respect to itself.
pub open spec fn seeded(nodes: Seq<Node>, r: int) -> Seq<Node> {
    upd_grad(nodes, r, ONE_BITS)
}

/// One whole backward pass from the root `r`: reset every reachable
/// accumulator to zero, seed the root with one, then propagate contributions
/// down the operand edges.
pub open spec fn backward(nodes: Seq<Node>, r: int) -> Seq<Node> {
    propagate(seeded(cleared(nodes, r), r), r)
}

/// Reachability is a function of the operations alone: two graphs with the
/// same operations agree on it everywhere.
pub proof fn lemma_reaches_ops_agree(a: Seq<Node>, b: Seq<Node>, i: int, j: int)
    requires
        a.len() == b.len(),
        forall|k: int| 0 <= k < a.len() ==> #[trigger] a[k].op == b[k].op,
        0 <= i < a.len(),
    ensures
        reaches(a, i, j) == reaches(b, i, j),
    decreases i,
{
    assert(a[i].op == b[i].op);
    match a[i].op {
        Op::Leaf => {},
        Op::Add { lhs, rhs } => {
            if lhs < i {
                lemma_reaches_ops_agree(a, b, lhs as int, j);
            }
            if rhs < i {
                lemma_reaches_ops_agree(a, b, rhs as int, j);
            }
        },
        Op::Mul { lhs, rhs } => {
            if lhs < i {
                lemma_reaches_ops_agree(a, b, lhs as int, j);
            }
            if rhs < i {
                lemma_reaches_ops_agree(a, b, rhs as int, j);
            }
        },
        Op::Pow { base, exponent } => {
            if base < i {
                lemma_reaches_ops_agree(a, b, base as int, j);
            }
            if exponent < i {
                lemma_reaches_ops_agree(a, b, exponent as int, j);
            }
        },
        Op::Relu { arg } => {
            if arg < i {
                lemma_reaches_ops_agree(a, b, arg as int, j);
            }
        },
    }
}

/// In a well-formed graph a walk along operand edges only ever descends:
/// whatever `i` reaches lies at or below `i`.
pub proof fn lemma_reaches_descends(nodes: Seq<Node>, i: int, j: int)
    requires
        wf_seq(nodes),
        0 <= i < nodes.len(),
        reaches(nodes, i, j),
    ensures
        j <= i,
    decreases i,
{
    if i != j {
        match nodes[i].op {
            Op::Leaf => {},
            Op::Add { lhs, rhs } => {
                if lhs < i && reaches(nodes, lhs as int, j) {
                    lemma_reaches_descends(nodes, lhs as int, j);
                } else {
                    lemma_reaches_descends(nodes, rhs as int, j);
                }
            },
            Op::Mul { lhs, rhs } => {
                if lhs < i && reaches(nodes, lhs as int, j) {
                    lemma_reaches_descends(nodes, lhs as int, j);
                } else {
                    lemma_reaches_descends(nodes, rhs as int, j);
                }
            },
            Op::Pow { base, exponent } => {
                if base < i && reaches(nodes, base as int, j) {
                    lemma_reaches_descends(nodes, base as int, j);
                } else {
                    lemma_reaches_descends(nodes, exponent as int, j);
                }
            },
            Op::Relu { arg } => {
                lemma_reaches_descends(nodes, arg as int, j);
            },
        }
    }
}

/// A graph with the same operations as a well-formed graph is well formed.
pub proof fn lemma_ops_preserve_wf(a: Seq<Node>, b: Seq<Node>)
    requires
        wf_seq(a),
        a.len() == b.len(),
        forall|k: int| 0 <= k < a.len() ==> #[trigger] a[k].op == b[k].op,
    ensures
        wf_seq(b),
{
    assert forall|k: int| 0 <= k < b.len() implies op_wf(#[trigger] b[k].op, k) by {
        assert(op_wf(a[k].op, k));
    }
}


/// The local rule touches neither values nor operations, and keeps the length.
pub proof fn lemma_contribute_shape(nodes: Seq<Node>, i: int)
    requires
        wf_seq(nodes),
        0 <= i < nodes.len(),
    ensures
        contribute(nodes, i).len() == nodes.len(),
        forall|j: int| 0 <= j < nodes.len() ==> #[trigger] contribute(nodes, i)[j].value
            == nodes[j].value,
        forall|j: int| 0 <= j < nodes.len() ==> #[trigger] contribute(nodes, i)[j].op
            == nodes[j].op,
{
    assert(op_wf(nodes[i].op, i));
}

/// The local rule of node `i` changes no accumulator outside the operands of
/// `i`; in particular it leaves node `i` itself and every node that `i` does
/// not reach untouched.
pub proof fn lemma_contribute_frame(nodes: Seq<Node>, i: int)
    requires
        wf_seq(nodes),
        0 <= i < nodes.len(),
    ensures
        forall|j: int|
            0 <= j < nodes.len() && (j == i || !reaches(nodes, i, j))
                ==> #[trigger] contribute(nodes, i)[j].gradient == nodes[j].gradient,
{
    assert(op_wf(nodes[i].op, i));
    assert forall|j: int|
        0 <= j < nodes.len() && (j == i || !reaches(nodes, i, j))
        implies #[trigger] contribute(nodes, i)[j].gradient == nodes[j].gradient by {
        match nodes[i].op {
            Op::Leaf => {},
            Op::Add { lhs, rhs } => {
                if j == lhs || j == rhs {
                    assert(reaches(nodes, lhs as int, j) || reaches(nodes, rhs as int, j));
                    assert(reaches(nodes, i, j));
                    assert(false);
                }
            },
            Op::Mul { lhs, rhs } => {
                if j == lhs || j == rhs {
                    assert(reaches(nodes, lhs as int, j) || reaches(nodes, rhs as int, j));
                    assert(reaches(nodes, i, j));
                    assert(false);
                }
            },
            Op::Pow { base, exponent } => {
                if j == base {
                    assert(reaches(nodes, base as int, j));
                    assert(reaches(nodes, i, j));
                    assert(false);
                }
            },
            Op::Relu { arg } => {
                if j == arg {
                    assert(reaches(nodes, arg as int, j));
                    assert(reaches(nodes, i, j));
                    assert(false);
                }
            },
        }
    }
}

/// A propagation walk touches neither values nor operations, and keeps the
/// length: it only accumulates derivatives.
pub proof fn lemma_propagate_shape(nodes: Seq<Node>, i: int)
    requires
        wf_seq(nodes),
        0 <= i < nodes.len(),
    ensures
        propagate(nodes, i).len() == nodes.len(),
        forall|j: int| 0 <= j < nodes.len() ==> #[trigger] propagate(nodes, i)[j].value
            == nodes[j].value,
        forall|j: int| 0 <= j < nodes.len() ==> #[trigger] propagate(nodes, i)[j].op
            == nodes[j].op,
    decreases i,
{
    assert(op_wf(nodes[i].op, i));
    lemma_contribute_shape(nodes, i);
    let c = contribute(nodes, i);
    lemma_ops_preserve_wf(nodes, c);
    match nodes[i].op {
        Op::Leaf => {},
        Op::Add { lhs, rhs } => {
            lemma_propagate_shape(c, lhs as int);
            let walked_a = propagate(c, lhs as int);
            lemma_ops_preserve_wf(c, walked_a);
            lemma_propagate_shape(walked_a, rhs as int);
        },
        Op::Mul { lhs, rhs } => {
            lemma_propagate_shape(c, lhs as int);
            let walked_a = propagate(c, lhs as int);
            lemma_ops_preserve_wf(c, walked_a);
            lemma_propagate_shape(walked_a, rhs as int);
        },
        Op::Pow { base, exponent } => {
            lemma_propagate_shape(c, base as int);
            let walked_a = propagate(c, base as int);
            lemma_ops_preserve_wf(c, walked_a);
            lemma_propagate_shape(walked_a, exponent as int);
        },
        Op::Relu { arg } => {
            lemma_propagate_shape(c, arg as int);
        },
    }
}

/// A propagation walk from node `i` changes no accumulator of the root of the
/// walk itself, nor of any node the root does not reach.
pub proof fn lemma_propagate_frame(nodes: Seq<Node>, i: int)
    requires
        wf_seq(nodes),
        0 <= i < nodes.len(),
    ensures
        forall|j: int|
            0 <= j < nodes.len() && (j == i || !reaches(nodes, i, j))
                ==> #[trigger] propagate(nodes, i)[j].gradient == nodes[j].gradient,
    decreases i, 1int,
{
    assert(op_wf(nodes[i].op, i));
    lemma_contribute_shape(nodes, i);
    lemma_contribute_frame(nodes, i);
    let c = contribute(nodes, i);
    lemma_ops_preserve_wf(nodes, c);
    match nodes[i].op {
        Op::Leaf => {},
        Op::Add { lhs, rhs } => {
            lemma_propagate_frame_two(nodes, i, lhs as int, rhs as int);
        },
        Op::Mul { lhs, rhs } => {
            lemma_propagate_frame_two(nodes, i, lhs as int, rhs as int);
        },
        Op::Pow { base, exponent } => {
            lemma_propagate_frame_two(nodes, i, base as int, exponent as int);
        },
        Op::Relu { arg } => {
            let a = arg as int;
            lemma_propagate_shape(c, a);
            lemma_propagate_frame(c, a);
            let walked_a = propagate(c, a);
            assert forall|j: int|
                0 <= j < nodes.len() && (j == i || !reaches(nodes, i, j))
                implies #[trigger] propagate(nodes, i)[j].gradient == nodes[j].gradient by {
                if j == i {
                    if reaches(c, a, j) {
                        lemma_reaches_descends(c, a, j);
                        assert(false);
                    }
                } else {
                    if reaches(c, a, j) {
                        lemma_reaches_ops_agree(nodes, c, a, j);
                        assert(reaches(nodes, a, j));
                        assert(reaches(nodes, i, j));
                        assert(false);
                    }
                }
                assert(walked_a[j].gradient == c[j].gradient);
                assert(c[j].gradient == nodes[j].gradient);
            }
        },
    }
}

/// The two-operand step of `lemma_propagate_frame`: after the local rule of
/// node `i`, the walks into the operands `a` and `b` change no accumulator of
/// `i` itself, nor of any node that `i` does not reach.
proof fn lemma_propagate_frame_two(nodes: Seq<Node>, i: int, a: int, b: int)
    requires
        wf_seq(nodes),
        0 <= i < nodes.len(),
        0 <= a < i,
        0 <= b < i,
        forall|j: int| #[trigger] reaches(nodes, i, j) == (i == j || reaches(nodes, a, j)
            || reaches(nodes, b, j)),
    ensures
        forall|j: int|
            0 <= j < nodes.len() && (j == i || !reaches(nodes, i, j))
                ==> #[trigger] propagate(propagate(contribute(nodes, i), a), b)[j].gradient
                == nodes[j].gradient,
    decreases i, 0int,
{
    lemma_contribute_shape(nodes, i);
    lemma_contribute_frame(nodes, i);
    let c = contribute(nodes, i);
    lemma_ops_preserve_wf(nodes, c);
    lemma_propagate_shape(c, a);
    lemma_propagate_frame(c, a);
    let walked_a = propagate(c, a);
    lemma_ops_preserve_wf(c, walked_a);
    lemma_propagate_shape(walked_a, b);
    lemma_propagate_frame(walked_a, b);
    let walked_b = propagate(walked_a, b);
    assert forall|k: int| 0 <= k < nodes.len() implies #[trigger] nodes[k].op == walked_a[k].op by {
        assert(c[k].op == nodes[k].op);
        assert(walked_a[k].op == c[k].op);
    }
    assert forall|j: int|
        0 <= j < nodes.len() && (j == i || !reaches(nodes, i, j))
        implies #[trigger] walked_b[j].gradient == nodes[j].gradient by {
        if j == i {
            if reaches(c, a, j) {
                lemma_reaches_descends(c, a, j);
                assert(false);
            }
            if reaches(walked_a, b, j) {
                lemma_reaches_descends(walked_a, b, j);
                assert(false);
            }
        } else {
            if reaches(c, a, j) {
                lemma_reaches_ops_agree(nodes, c, a, j);
                assert(reaches(nodes, a, j));
                assert(reaches(nodes, i, j));
                assert(false);
            }
            if reaches(walked_a, b, j) {
                lemma_reaches_ops_agree(nodes, walked_a, b, j);
                assert(reaches(nodes, b, j));
                assert(reaches(nodes, i, j));
                assert(false);
            }
        }
        assert(c[j].gradient == nodes[j].gradient);
        assert(walked_a[j].gradient == c[j].gradient);
        assert(walked_b[j].gradient == walked_a[j].gradient);
    }
}

/// Resetting node `i` and then everything its two operands `a` and `b` reach
/// resets exactly what `i` reaches.
proof fn lemma_clear_two(orig: Seq<Node>, i: int, a: int, b: int)
    requires
        wf_seq(orig),
        0 <= i < orig.len(),
        0 <= a < i,
        0 <= b < i,
        forall|j: int| #[trigger] reaches(orig, i, j) == (i == j || reaches(orig, a, j)
            || reaches(orig, b, j)),
    ensures
        cleared(cleared(upd_grad(orig, i, ZERO_BITS), a), b) =~= cleared(orig, i),
{
    let s1 = upd_grad(orig, i, ZERO_BITS);
    let s2 = cleared(s1, a);
    let s3 = cleared(s2, b);
    assert forall|k: int| 0 <= k < orig.len() implies #[trigger] orig[k].op == s1[k].op by {}
    assert forall|k: int| 0 <= k < orig.len() implies #[trigger] orig[k].op == s2[k].op by {}
    assert forall|j: int| 0 <= j < orig.len() implies s3[j] == cleared(orig, i)[j] by {
        lemma_reaches_ops_agree(orig, s1, a, j);
        lemma_reaches_ops_agree(orig, s2, b, j);
    }
}

/// Resetting node `i` and then everything its sole operand `a` reaches resets
/// exactly what `i` reaches.
proof fn lemma_clear_one(orig: Seq<Node>, i: int, a: int)
    requires
        wf_seq(orig),
        0 <= i < orig.len(),
        0 <= a < i,
        forall|j: int| #[trigger] reaches(orig, i, j) == (i == j || reaches(orig, a, j)),
    ensures
        cleared(upd_grad(orig, i, ZERO_BITS), a) =~= cleared(orig, i),
{
    let s1 = upd_grad(orig, i, ZERO_BITS);
    let s2 = cleared(s1, a);
    assert forall|k: int| 0 <= k < orig.len() implies #[trigger] orig[k].op == s1[k].op by {}
    assert forall|j: int| 0 <= j < orig.len() implies s2[j] == cleared(orig, i)[j] by {
        lemma_reaches_ops_agree(orig, s1, a, j);
    }
}

impl View for Graph {
    type V = Seq<Node>;

    closed spec fn view(&self) -> Seq<Node> {
        self.nodes@
    }
}

impl Graph {
    /// Whether this graph is well formed; every public operation preserves it.
    pub open spec fn wf(self) -> bool {
        wf_seq(self@)
    }

    /// Creates an empty graph.
    pub fn new() -> (g: Graph)
        ensures
            g@ =~= Seq::<Node>::empty(),
            g.wf(),
    {
        Graph { nodes: Vec::new() }
    }

    /// Creates a leaf node holding the scalar `x`, with a zero derivative
    /// accumulator.
    pub fn value(&mut self, x: u64) -> (v: Value)
        requires
            old(self).wf(),
        ensures
            final(self).wf(),
            v.id() == old(self)@.len(),
            final(self)@ =~= old(self)@.push(
                (Node { value: x, gradient: ZERO_BITS, op: Op::Leaf }),
            ),
    {
        let idx = self.nodes.len();
        self.nodes.push(Node { value: x, gradient: ZERO_BITS, op: Op::Leaf });
        Value { idx }
    }

    /// The scalar currently held by the node `v`.
    pub fn data(&self, v: Value) -> (r: u64)
        requires
            v.id() < self@.len(),
        ensures
            r == self@[v.id() as int].value,
    {
        self.nodes[v.idx].value
    }

    /// The derivative last accumulated into the node `v`; zero until a
    /// propagation pass has reached the node.
    pub fn gradient(&self, v: Value) -> (r: u64)
        requires
            v.id() < self@.len(),
        ensures
            r == self@[v.id() as int].gradient,
    {
        self.nodes[v.idx].gradient
    }

    /// Creates the node for the sum of `a` and `b`, its value computed
    /// eagerly from the operands' current values.
    pub fn add(&mut self, a: Value, b: Value) -> (v: Value)
        requires
            old(self).wf(),
            a.id() < old(self)@.len(),
            b.id() < old(self)@.len(),
        ensures
            final(self).wf(),
            v.id() == old(self)@.len(),
            final(self)@ =~= old(self)@.push(
                (Node {
                    value: add_of(old(self)@[a.id() as int].value, old(self)@[b.id() as int].value),
                    gradient: ZERO_BITS,
                    op: Op::Add { lhs: a.id(), rhs: b.id() },
                }),
            ),
    {
        let idx = self.nodes.len();
        let data = add_bits(self.nodes[a.idx].value, self.nodes[b.idx].value);
        self.nodes.push(Node {
            value: data,
            gradient: ZERO_BITS,
            op: Op::Add { lhs: a.idx, rhs: b.idx },
        });
        Value { idx }
    }

    /// Creates the node for the product of `a` and `b`, its value computed
    /// eagerly from the operands' current values.
    pub fn mul(&mut self, a: Value, b: Value) -> (v: Value)
        requires
            old(self).wf(),
            a.id() < old(self)@.len(),
            b.id() < old(self)@.len(),
        ensures
            final(self).wf(),
            v.id() == old(self)@.len(),
            final(self)@ =~= old(self)@.push(
                (Node {
                    value: mul_of(old(self)@[a.id() as int].value, old(self)@[b.id() as int].value),
                    gradient: ZERO_BITS,
                    op: Op::Mul { lhs: a.id(), rhs: b.id() },
                }),
            ),
    {
        let idx = self.nodes.len();
        let data = mul_bits(self.nodes[a.idx].value, self.nodes[b.idx].value);
        self.nodes.push(Node {
            value: data,
            gradient: ZERO_BITS,
            op: Op::Mul { lhs: a.idx, rhs: b.idx },
        });
        Value { idx }
    }

    /// Creates the node for `base` raised to the power `exponent`, its value
    /// computed eagerly from the operands' current values.
    pub fn pow(&mut self, base: Value, exponent: Value) -> (v: Value)
        requires
            old(self).wf(),
            base.id() < old(self)@.len(),
            exponent.id() < old(self)@.len(),
        ensures
            final(self).wf(),
            v.id() == old(self)@.len(),
            final(self)@ =~= old(self)@.push(
                (Node {
                    value: pow_of(old(self)@[base.id() as int].value, old(self)@[exponent.id() as int].value),
                    gradient: ZERO_BITS,
                    op: Op::Pow { base: base.id(), exponent: exponent.id() },
                }),
            ),
    {
        let idx = self.nodes.len();
        let data = pow_bits(self.nodes[base.idx].value, self.nodes[exponent.idx].value);
        self.nodes.push(Node {
            value: data,
            gradient: ZERO_BITS,
            op: Op::Pow { base: base.idx, exponent: exponent.idx },
        });
        Value { idx }
    }

    /// Creates the node for the rectified-linear image of `a`: the operand's
    /// value where it is strictly positive, zero otherwise.
    pub fn relu(&mut self, a: Value) -> (v: Value)
        requires
            old(self).wf(),
            a.id() < old(self)@.len(),
        ensures
            final(self).wf(),
            v.id() == old(self)@.len(),
            final(self)@ =~= old(self)@.push(
                (Node {
                    value: relu_of(old(self)@[a.id() as int].value),
                    gradient: ZERO_BITS,
                    op: Op::Relu { arg: a.id() },
                }),
            ),
    {
        let idx = self.nodes.len();
        let data = relu_bits(self.nodes[a.idx].value);
        self.nodes.push(Node {
            value: data,
            gradient: ZERO_BITS,
            op: Op::Relu { arg: a.idx },
        });
        Value { idx }
    }

    /// Creates the nodes for `a - b`. Subtraction is not a primitive
    /// operation: it expands to `a + (b * -1)`, introducing two hidden
    /// intermediate nodes (the `-1` leaf and the negated `b`), and the
    /// gradient flows through that expansion.
    pub fn subtract(&mut self, a: Value, b: Value) -> (v: Value)
        requires
            old(self).wf(),
            a.id() < old(self)@.len(),
            b.id() < old(self)@.len(),
        ensures
            final(self).wf(),
            v.id() == old(self)@.len() + 2,
            final(self)@.len() == old(self)@.len() + 3,
            final(self)@ =~= old(self)@
                .push((Node { value: NEG_ONE_BITS, gradient: ZERO_BITS, op: Op::Leaf }))
                .push(
                    (Node {
                        value: mul_of(old(self)@[b.id() as int].value, NEG_ONE_BITS),
                        gradient: ZERO_BITS,
                        op: Op::Mul { lhs: b.id(), rhs: (old(self)@.len() as usize) },
                    }),
                )
                .push(
                    (Node {
                        value: add_of(
                            old(self)@[a.id() as int].value,
                            mul_of(old(self)@[b.id() as int].value, NEG_ONE_BITS),
                        ),
                        gradient: ZERO_BITS,
                        op: Op::Add { lhs: a.id(), rhs: (old(self)@.len() + 1) as usize },
                    }),
                ),
    {
        let negative = self.value(NEG_ONE_BITS);
        let neg_b = self.mul(b, negative);
        self.add(a, neg_b)
    }

    /// Creates the nodes for the square of `v`: `v` raised to the power of a
    /// fresh `2.0` leaf, which propagation treats like any other exponent.
    pub fn squared(&mut self, a: Value) -> (v: Value)
        requires
            old(self).wf(),
            a.id() < old(self)@.len(),
        ensures
            final(self).wf(),
            v.id() == old(self)@.len() + 1,
            final(self)@ =~= old(self)@
                .push((Node { value: TWO_BITS, gradient: ZERO_BITS, op: Op::Leaf }))
                .push(
                    (Node {
                        value: pow_of(old(self)@[a.id() as int].value, TWO_BITS),
                        gradient: ZERO_BITS,
                        op: Op::Pow { base: a.id(), exponent: (old(self)@.len() as usize) },
                    }),
                ),
    {
        let exponent = self.value(TWO_BITS);
        self.pow(a, exponent)
    }


    /// The reset phase of a propagation pass: sets the accumulator of every
    /// node reachable from `v` back to zero. A node shared by several paths
    /// is visited once per path; resetting it to zero again is harmless.
    fn clear_gradients(&mut self, v: Value)
        requires
            old(self).wf(),
            v.id() < old(self)@.len(),
        ensures
            final(self).wf(),
            final(self)@ =~= cleared(old(self)@, v.id() as int),
        decreases v.id(),
    {
        let i = v.idx;
        let n = self.nodes[i];
        self.nodes[i] = Node { value: n.value, gradient: ZERO_BITS, op: n.op };
        proof {
            assert(op_wf(old(self)@[i as int].op, i as int));
            assert(self@ =~= upd_grad(old(self)@, i as int, ZERO_BITS));
            assert forall|k: int| 0 <= k < old(self)@.len() implies #[trigger] old(
                self,
            )@[k].op == self@[k].op by {}
            lemma_ops_preserve_wf(old(self)@, self@);
        }
        match n.op {
            Op::Leaf => {
                proof {
                    assert forall|j: int| 0 <= j < self@.len() implies self@[j] == cleared(
                        old(self)@,
                        i as int,
                    )[j] by {}
                    assert(self@ =~= cleared(old(self)@, i as int));
                }
            },
            Op::Add { lhs, rhs } => {
                self.clear_gradients(Value { idx: lhs });
                self.clear_gradients(Value { idx: rhs });
                proof {
                    assert forall|j: int| #[trigger] reaches(old(self)@, i as int, j) == (i as int
                        == j || reaches(old(self)@, lhs as int, j) || reaches(
                        old(self)@,
                        rhs as int,
                        j,
                    )) by {}
                    lemma_clear_two(old(self)@, i as int, lhs as int, rhs as int);
                    assert(self@ =~= cleared(old(self)@, i as int));
                }
            },
            Op::Mul { lhs, rhs } => {
                self.clear_gradients(Value { idx: lhs });
                self.clear_gradients(Value { idx: rhs });
                proof {
                    assert forall|j: int| #[trigger] reaches(old(self)@, i as int, j) == (i as int
                        == j || reaches(old(self)@, lhs as int, j) || reaches(
                        old(self)@,
                        rhs as int,
                        j,
                    )) by {}
                    lemma_clear_two(old(self)@, i as int, lhs as int, rhs as int);
                    assert(self@ =~= cleared(old(self)@, i as int));
                }
            },
            Op::Pow { base, exponent } => {
                self.clear_gradients(Value { idx: base });
                self.clear_gradients(Value { idx: exponent });
                proof {
                    assert forall|j: int| #[trigger] reaches(old(self)@, i as int, j) == (i as int
                        == j || reaches(old(self)@, base as int, j) || reaches(
                        old(self)@,
                        exponent as int,
                        j,
                    )) by {}
                    lemma_clear_two(old(self)@, i as int, base as int, exponent as int);
                    assert(self@ =~= cleared(old(self)@, i as int));
                }
            },
            Op::Relu { arg } => {
                self.clear_gradients(Value { idx: arg });
                proof {
                    assert forall|j: int| #[trigger] reaches(old(self)@, i as int, j) == (i as int
                        == j || reaches(old(self)@, arg as int, j)) by {}
                    lemma_clear_one(old(self)@, i as int, arg as int);
                    assert(self@ =~= cleared(old(self)@, i as int));
                }
            },
        }
    }

    /// The distribution phase of a propagation pass: applies the local
    /// derivative rule of the node `v` to push a contribution into each of
    /// its operands, then walks into each operand in order, exactly as
    /// `propagate` states it. A node reachable along several paths is walked
    /// once per path, and plain accumulation makes the redundant walks sum
    /// rather than double-count.
    pub fn compute_gradients_recursive(&mut self, v: Value)
        requires
            old(self).wf(),
            v.id() < old(self)@.len(),
        ensures
            final(self).wf(),
            final(self)@ =~= propagate(old(self)@, v.id() as int),
        decreases v.id(),
    {
        let i = v.idx;
        let n = self.nodes[i];
        let g = n.gradient;
        proof {
            assert(op_wf(old(self)@[i as int].op, i as int));
        }
        match n.op {
            Op::Leaf => {
                proof {
                    assert(self@ =~= propagate(old(self)@, i as int));
                }
            },
            Op::Add { lhs, rhs } => {
                let ln = self.nodes[lhs];
                self.nodes[lhs] = Node {
                    value: ln.value,
                    gradient: add_bits(ln.gradient, g),
                    op: ln.op,
                };
                let rn = self.nodes[rhs];
                self.nodes[rhs] = Node {
                    value: rn.value,
                    gradient: add_bits(rn.gradient, g),
                    op: rn.op,
                };
                proof {
                    assert(self@ =~= contribute(old(self)@, i as int));
                    lemma_contribute_shape(old(self)@, i as int);
                    lemma_ops_preserve_wf(old(self)@, self@);
                }
                self.compute_gradients_recursive(Value { idx: lhs });
                proof {
                    lemma_propagate_shape(contribute(old(self)@, i as int), lhs as int);
                }
                self.compute_gradients_recursive(Value { idx: rhs });
                proof {
                    assert(self@ =~= propagate(old(self)@, i as int));
                }
            },
            Op::Mul { lhs, rhs } => {
                let rv = self.nodes[rhs].value;
                let ln = self.nodes[lhs];
                self.nodes[lhs] = Node {
                    value: ln.value,
                    gradient: add_bits(ln.gradient, mul_bits(rv, g)),
                    op: ln.op,
                };
                let lv = self.nodes[lhs].value;
                let rn = self.nodes[rhs];
                self.nodes[rhs] = Node {
                    value: rn.value,
                    gradient: add_bits(rn.gradient, mul_bits(lv, g)),
                    op: rn.op,
                };
                proof {
                    assert(self@ =~= contribute(old(self)@, i as int));
                    lemma_contribute_shape(old(self)@, i as int);
                    lemma_ops_preserve_wf(old(self)@, self@);
                }
                self.compute_gradients_recursive(Value { idx: lhs });
                proof {
                    lemma_propagate_shape(contribute(old(self)@, i as int), lhs as int);
                }
                self.compute_gradients_recursive(Value { idx: rhs });
                proof {
                    assert(self@ =~= propagate(old(self)@, i as int));
                }
            },
            Op::Pow { base, exponent } => {
                let bv = self.nodes[base].value;
                let ev = self.nodes[exponent].value;
                let bn = self.nodes[base];
                let push = mul_bits(mul_bits(ev, pow_bits(bv, sub_bits(ev, ONE_BITS))), g);
                self.nodes[base] = Node {
                    value: bn.value,
                    gradient: add_bits(bn.gradient, push),
                    op: bn.op,
                };
                proof {
                    assert(self@ =~= contribute(old(self)@, i as int));
                    lemma_contribute_shape(old(self)@, i as int);
                    lemma_ops_preserve_wf(old(self)@, self@);
                }
                self.compute_gradients_recursive(Value { idx: base });
                proof {
                    lemma_propagate_shape(contribute(old(self)@, i as int), base as int);
                }
                self.compute_gradients_recursive(Value { idx: exponent });
                proof {
                    assert(self@ =~= propagate(old(self)@, i as int));
                }
            },
            Op::Relu { arg } => {
                let an = self.nodes[arg];
                let push = if gt_bits(an.value, ZERO_BITS) {
                    mul_bits(ONE_BITS, g)
                } else {
                    ZERO_BITS
                };
                self.nodes[arg] = Node {
                    value: an.value,
                    gradient: add_bits(an.gradient, push),
                    op: an.op,
                };
                proof {
                    assert(self@ =~= contribute(old(self)@, i as int));
                    lemma_contribute_shape(old(self)@, i as int);
                    lemma_ops_preserve_wf(old(self)@, self@);
                }
                self.compute_gradients_recursive(Value { idx: arg });
                proof {
                    assert(self@ =~= propagate(old(self)@, i as int));
                }
            },
        }
    }

    /// One whole backward pass from the differentiation root `v`: resets the
    /// accumulator of every node reachable from `v` to zero, seeds the root
    /// with one, then distributes contributions along the operand edges, as
    /// `backward` states it. The pass touches no value and no operation, and
    /// leaves the accumulator of every unreachable node alone.
    pub fn compute_gradients(&mut self, root: Value)
        requires
            old(self).wf(),
            root.id() < old(self)@.len(),
        ensures
            final(self).wf(),
            final(self)@ =~= backward(old(self)@, root.id() as int),
            final(self)@.len() == old(self)@.len(),
            forall|j: int| 0 <= j < old(self)@.len() ==> #[trigger] final(self)@[j].value
                == old(self)@[j].value,
            forall|j: int| 0 <= j < old(self)@.len() ==> #[trigger] final(self)@[j].op
                == old(self)@[j].op,
            final(self)@[root.id() as int].gradient == ONE_BITS,
    {
        let i = root.idx;
        self.clear_gradients(root);
        let n = self.nodes[i];
        self.nodes[i] = Node { value: n.value, gradient: ONE_BITS, op: n.op };
        proof {
            assert(self@ =~= seeded(cleared(old(self)@, i as int), i as int));
            assert forall|k: int| 0 <= k < old(self)@.len() implies #[trigger] old(
                self,
            )@[k].op == self@[k].op by {}
            lemma_ops_preserve_wf(old(self)@, self@);
        }
        self.compute_gradients_recursive(root);
        proof {
            let s = seeded(cleared(old(self)@, i as int), i as int);
            lemma_propagate_shape(s, i as int);
            lemma_propagate_frame(s, i as int);
            assert(self@ =~= backward(old(self)@, i as int));
            assert forall|j: int| 0 <= j < old(self)@.len() implies #[trigger] self@[j].value
                == old(self)@[j].value by {
                assert(self@[j].value == s[j].value);
            }
            assert forall|j: int| 0 <= j < old(self)@.len() implies #[trigger] self@[j].op
                == old(self)@[j].op by {
                assert(self@[j].op == s[j].op);
            }
            assert(s[i as int].gradient == ONE_BITS);
            assert(self@[i as int].gradient == ONE_BITS);
        }
    }


    /// The operand handles of the node `v`, in operand order; empty for a
    /// leaf. Every handle returned designates a node of this graph.
    pub fn operands(&self, v: Value) -> (ops: Vec<Value>)
        requires
            self.wf(),
            v.id() < self@.len(),
        ensures
            forall|k: int| 0 <= k < ops@.len() ==> #[trigger] ops@[k].id() < self@.len(),
            match self@[v.id() as int].op {
                Op::Leaf => ops@.len() == 0,
                Op::Add { lhs, rhs } => ops@.len() == 2 && ops@[0].id() == lhs && ops@[1].id()
                    == rhs,
                Op::Mul { lhs, rhs } => ops@.len() == 2 && ops@[0].id() == lhs && ops@[1].id()
                    == rhs,
                Op::Pow { base, exponent } => ops@.len() == 2 && ops@[0].id() == base
                    && ops@[1].id() == exponent,
                Op::Relu { arg } => ops@.len() == 1 && ops@[0].id() == arg,
            },
    {
        proof {
            assert(op_wf(self@[v.id() as int].op, v.id() as int));
        }
        let mut ops: Vec<Value> = Vec::new();
        match self.nodes[v.idx].op {
            Op::Leaf => {},
            Op::Add { lhs, rhs } => {
                ops.push(Value { idx: lhs });
                ops.push(Value { idx: rhs });
            },
            Op::Mul { lhs, rhs } => {
                ops.push(Value { idx: lhs });
                ops.push(Value { idx: rhs });
            },
            Op::Pow { base, exponent } => {
                ops.push(Value { idx: base });
                ops.push(Value { idx: exponent });
            },
            Op::Relu { arg } => {
                ops.push(Value { idx: arg });
            },
        }
        ops
    }

    /// Moves the value of `v` one gradient-descent step: the accumulated
    /// derivative, scaled by `learning_rate`, is subtracted from the value.
    /// Before any propagation pass the accumulator is zero, so the step
    /// applies a zero-magnitude update.
    pub fn learn(&mut self, v: Value, learning_rate: u64)
        requires
            old(self).wf(),
            v.id() < old(self)@.len(),
        ensures
            final(self).wf(),
            final(self)@ =~= old(self)@.update(
                v.id() as int,
                (Node {
                    value: sub_of(
                        old(self)@[v.id() as int].value,
                        mul_of(old(self)@[v.id() as int].gradient, learning_rate),
                    ),
                    gradient: old(self)@[v.id() as int].gradient,
                    op: old(self)@[v.id() as int].op,
                }),
            ),
    {
        let n = self.nodes[v.idx];
        self.nodes[v.idx] = Node {
            value: sub_bits(n.value, mul_bits(n.gradient, learning_rate)),
            gradient: n.gradient,
            op: n.op,
        };
    }
}

} // verus!
