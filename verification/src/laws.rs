//! Laws of the backward pass, stated over the specification model of the
//! graph and proved once for every well-formed graph.

use vstd::prelude::*;
use crate::arith::{add_of, mul_of, sub_of, pow_of, gt_of, ZERO_BITS, ONE_BITS, NEG_ONE_BITS};
use crate::graph::{
    Node, Op, op_wf, wf_seq, reaches, backward, cleared, seeded, contribute, propagate,
    lemma_propagate_shape, lemma_propagate_frame, lemma_contribute_shape,
    lemma_reaches_ops_agree, lemma_ops_preserve_wf,
};

verus! {

/// A backward pass involves only the nodes that contributed to the root: the
/// accumulator of every node the root does not reach is left exactly as it
/// was, and no value and no operation changes anywhere.
pub proof fn lemma_backward_frame(nodes: Seq<Node>, r: int)
    requires
        wf_seq(nodes),
        0 <= r < nodes.len(),
    ensures
        backward(nodes, r).len() == nodes.len(),
        forall|j: int| 0 <= j < nodes.len() ==> #[trigger] backward(nodes, r)[j].value
            == nodes[j].value,
        forall|j: int| 0 <= j < nodes.len() ==> #[trigger] backward(nodes, r)[j].op
            == nodes[j].op,
        forall|j: int|
            0 <= j < nodes.len() && !reaches(nodes, r, j)
                ==> #[trigger] backward(nodes, r)[j].gradient == nodes[j].gradient,
{
    let c = cleared(nodes, r);
    let s = seeded(c, r);
    assert forall|k: int| 0 <= k < nodes.len() implies #[trigger] nodes[k].op == s[k].op by {}
    lemma_ops_preserve_wf(nodes, s);
    lemma_propagate_shape(s, r);
    lemma_propagate_frame(s, r);
    assert(reaches(nodes, r, r));
    assert forall|j: int| 0 <= j < nodes.len() implies #[trigger] backward(nodes, r)[j].value
        == nodes[j].value && backward(nodes, r)[j].op == nodes[j].op by {
        assert(backward(nodes, r)[j].value == s[j].value);
        assert(backward(nodes, r)[j].op == s[j].op);
    }
    assert forall|j: int|
        0 <= j < nodes.len() && !reaches(nodes, r, j)
        implies #[trigger] backward(nodes, r)[j].gradient == nodes[j].gradient by {
        lemma_reaches_ops_agree(nodes, s, r, j);
        assert(j != r);
        assert(s[j].gradient == nodes[j].gradient);
        assert(backward(nodes, r)[j].gradient == s[j].gradient);
    }
}

/// After a backward pass the root's accumulator holds exactly one: the
/// derivative of the root with respect to itself.
pub proof fn lemma_backward_root(nodes: Seq<Node>, r: int)
    requires
        wf_seq(nodes),
        0 <= r < nodes.len(),
    ensures
        backward(nodes, r)[r].gradient == ONE_BITS,
{
    let c = cleared(nodes, r);
    let s = seeded(c, r);
    assert forall|k: int| 0 <= k < nodes.len() implies #[trigger] nodes[k].op == s[k].op by {}
    lemma_ops_preserve_wf(nodes, s);
    lemma_propagate_frame(s, r);
    assert(s[r].gradient == ONE_BITS);
}

/// Two backward passes from the same root with nothing in between produce the
/// same graph: the reset phase erases everything the first distribution phase
/// accumulated, so the second pass reproduces the first exactly.
pub proof fn lemma_backward_idempotent(nodes: Seq<Node>, r: int)
    requires
        wf_seq(nodes),
        0 <= r < nodes.len(),
    ensures
        backward(backward(nodes, r), r) == backward(nodes, r),
{
    let b = backward(nodes, r);
    lemma_backward_frame(nodes, r);
    assert forall|j: int| 0 <= j < nodes.len() implies cleared(b, r)[j] == cleared(
        nodes,
        r,
    )[j] by {
        lemma_reaches_ops_agree(nodes, b, r, j);
    }
    assert(cleared(b, r) =~= cleared(nodes, r));
}

/// Shared-node accumulation: a node used as both operands of an addition root
/// receives one unit contribution per path, so after a backward pass from the
/// root its accumulator holds zero plus one plus one — not a single unit.
pub proof fn lemma_backward_shared_operand(nodes: Seq<Node>, r: int, x: usize)
    requires
        wf_seq(nodes),
        0 <= r < nodes.len(),
        nodes[r].op == (Op::Add { lhs: x, rhs: x }),
    ensures
        backward(nodes, r)[x as int].gradient == add_of(add_of(ZERO_BITS, ONE_BITS), ONE_BITS),
{
    assert(op_wf(nodes[r].op, r));
    let c0 = cleared(nodes, r);
    let s = seeded(c0, r);
    assert(reaches(nodes, x as int, x as int));
    assert(reaches(nodes, r, x as int));
    assert forall|k: int| 0 <= k < nodes.len() implies #[trigger] nodes[k].op == s[k].op by {}
    lemma_ops_preserve_wf(nodes, s);
    assert(s[r].gradient == ONE_BITS);
    assert(s[x as int].gradient == ZERO_BITS);
    let c = contribute(s, r);
    assert(c[x as int].gradient == add_of(add_of(ZERO_BITS, ONE_BITS), ONE_BITS));
    lemma_contribute_shape(s, r);
    lemma_ops_preserve_wf(s, c);
    lemma_propagate_shape(c, x as int);
    lemma_propagate_frame(c, x as int);
    let walked_a = propagate(c, x as int);
    lemma_ops_preserve_wf(c, walked_a);
    lemma_propagate_frame(walked_a, x as int);
    assert(backward(nodes, r) == propagate(walked_a, x as int));
    assert(walked_a[x as int].gradient == c[x as int].gradient);
    assert(propagate(walked_a, x as int)[x as int].gradient == walked_a[x as int].gradient);
}

/// The power rule is one-sided: the exponent operand of a power root receives
/// no contribution, so after a backward pass from the root an exponent that
/// is not also reachable through the base holds a zero accumulator.
pub proof fn lemma_backward_pow_exponent(nodes: Seq<Node>, r: int, b: usize, e: usize)
    requires
        wf_seq(nodes),
        0 <= r < nodes.len(),
        nodes[r].op == (Op::Pow { base: b, exponent: e }),
        b != e,
        !reaches(nodes, b as int, e as int),
    ensures
        backward(nodes, r)[e as int].gradient == ZERO_BITS,
{
    assert(op_wf(nodes[r].op, r));
    let c0 = cleared(nodes, r);
    let s = seeded(c0, r);
    assert(reaches(nodes, e as int, e as int));
    assert(reaches(nodes, r, e as int));
    assert forall|k: int| 0 <= k < nodes.len() implies #[trigger] nodes[k].op == s[k].op by {}
    lemma_ops_preserve_wf(nodes, s);
    assert(s[e as int].gradient == ZERO_BITS);
    let c = contribute(s, r);
    assert(c[e as int].gradient == ZERO_BITS);
    lemma_contribute_shape(s, r);
    lemma_ops_preserve_wf(s, c);
    assert forall|k: int| 0 <= k < nodes.len() implies #[trigger] nodes[k].op == c[k].op by {
        assert(c[k].op == s[k].op);
    }
    lemma_propagate_shape(c, b as int);
    lemma_propagate_frame(c, b as int);
    let walked_a = propagate(c, b as int);
    assert(!reaches(c, b as int, e as int)) by {
        lemma_reaches_ops_agree(nodes, c, b as int, e as int);
    }
    assert(walked_a[e as int].gradient == ZERO_BITS);
    lemma_ops_preserve_wf(c, walked_a);
    lemma_propagate_frame(walked_a, e as int);
    assert(backward(nodes, r) == propagate(walked_a, e as int));
    assert(propagate(walked_a, e as int)[e as int].gradient == walked_a[e as int].gradient);
}


/// The addition rule: after a backward pass from an addition root whose two
/// operands are distinct and unreachable from one another, each operand's
/// accumulator holds zero plus one unit contribution.
pub proof fn lemma_backward_add_operands(nodes: Seq<Node>, r: int, a: usize, b: usize)
    requires
        wf_seq(nodes),
        0 <= r < nodes.len(),
        nodes[r].op == (Op::Add { lhs: a, rhs: b }),
        a != b,
        !reaches(nodes, a as int, b as int),
        !reaches(nodes, b as int, a as int),
    ensures
        backward(nodes, r)[a as int].gradient == add_of(ZERO_BITS, ONE_BITS),
        backward(nodes, r)[b as int].gradient == add_of(ZERO_BITS, ONE_BITS),
{
    assert(op_wf(nodes[r].op, r));
    let c0 = cleared(nodes, r);
    let s = seeded(c0, r);
    assert(reaches(nodes, a as int, a as int));
    assert(reaches(nodes, b as int, b as int));
    assert(reaches(nodes, r, a as int));
    assert(reaches(nodes, r, b as int));
    assert forall|k: int| 0 <= k < nodes.len() implies #[trigger] nodes[k].op == s[k].op by {}
    lemma_ops_preserve_wf(nodes, s);
    assert(s[r].gradient == ONE_BITS);
    assert(s[a as int].gradient == ZERO_BITS);
    assert(s[b as int].gradient == ZERO_BITS);
    let c = contribute(s, r);
    assert(c[a as int].gradient == add_of(ZERO_BITS, ONE_BITS));
    assert(c[b as int].gradient == add_of(ZERO_BITS, ONE_BITS));
    lemma_contribute_shape(s, r);
    lemma_ops_preserve_wf(s, c);
    assert forall|k: int| 0 <= k < nodes.len() implies #[trigger] nodes[k].op == c[k].op by {
        assert(c[k].op == s[k].op);
    }
    lemma_propagate_shape(c, a as int);
    lemma_propagate_frame(c, a as int);
    let walked_a = propagate(c, a as int);
    assert(!reaches(c, a as int, b as int)) by {
        lemma_reaches_ops_agree(nodes, c, a as int, b as int);
    }
    assert(walked_a[a as int].gradient == c[a as int].gradient);
    assert(walked_a[b as int].gradient == c[b as int].gradient);
    lemma_ops_preserve_wf(c, walked_a);
    lemma_propagate_frame(walked_a, b as int);
    assert(!reaches(walked_a, b as int, a as int)) by {
        assert forall|k: int| 0 <= k < nodes.len() implies #[trigger] nodes[k].op
            == walked_a[k].op by {
            assert(walked_a[k].op == c[k].op);
        }
        lemma_reaches_ops_agree(nodes, walked_a, b as int, a as int);
    }
    assert(backward(nodes, r) == propagate(walked_a, b as int));
    assert(propagate(walked_a, b as int)[a as int].gradient == walked_a[a as int].gradient);
    assert(propagate(walked_a, b as int)[b as int].gradient == walked_a[b as int].gradient);
}

/// The multiplication rule: after a backward pass from a product root whose
/// two operands are distinct and unreachable from one another, each operand's
/// accumulator holds zero plus the other operand's value times the unit seed.
pub proof fn lemma_backward_mul_operands(nodes: Seq<Node>, r: int, a: usize, b: usize)
    requires
        wf_seq(nodes),
        0 <= r < nodes.len(),
        nodes[r].op == (Op::Mul { lhs: a, rhs: b }),
        a != b,
        !reaches(nodes, a as int, b as int),
        !reaches(nodes, b as int, a as int),
    ensures
        backward(nodes, r)[a as int].gradient == add_of(
            ZERO_BITS,
            mul_of(nodes[b as int].value, ONE_BITS),
        ),
        backward(nodes, r)[b as int].gradient == add_of(
            ZERO_BITS,
            mul_of(nodes[a as int].value, ONE_BITS),
        ),
{
    assert(op_wf(nodes[r].op, r));
    let c0 = cleared(nodes, r);
    let s = seeded(c0, r);
    assert(reaches(nodes, a as int, a as int));
    assert(reaches(nodes, b as int, b as int));
    assert(reaches(nodes, r, a as int));
    assert(reaches(nodes, r, b as int));
    assert forall|k: int| 0 <= k < nodes.len() implies #[trigger] nodes[k].op == s[k].op by {}
    lemma_ops_preserve_wf(nodes, s);
    assert(s[r].gradient == ONE_BITS);
    assert(s[a as int].gradient == ZERO_BITS);
    assert(s[b as int].gradient == ZERO_BITS);
    assert(s[a as int].value == nodes[a as int].value);
    assert(s[b as int].value == nodes[b as int].value);
    let c = contribute(s, r);
    assert(c[a as int].gradient == add_of(ZERO_BITS, mul_of(nodes[b as int].value, ONE_BITS)));
    assert(c[b as int].gradient == add_of(ZERO_BITS, mul_of(nodes[a as int].value, ONE_BITS)));
    lemma_contribute_shape(s, r);
    lemma_ops_preserve_wf(s, c);
    assert forall|k: int| 0 <= k < nodes.len() implies #[trigger] nodes[k].op == c[k].op by {
        assert(c[k].op == s[k].op);
    }
    lemma_propagate_shape(c, a as int);
    lemma_propagate_frame(c, a as int);
    let walked_a = propagate(c, a as int);
    assert(!reaches(c, a as int, b as int)) by {
        lemma_reaches_ops_agree(nodes, c, a as int, b as int);
    }
    assert(walked_a[a as int].gradient == c[a as int].gradient);
    assert(walked_a[b as int].gradient == c[b as int].gradient);
    lemma_ops_preserve_wf(c, walked_a);
    lemma_propagate_frame(walked_a, b as int);
    assert(!reaches(walked_a, b as int, a as int)) by {
        assert forall|k: int| 0 <= k < nodes.len() implies #[trigger] nodes[k].op
            == walked_a[k].op by {
            assert(walked_a[k].op == c[k].op);
        }
        lemma_reaches_ops_agree(nodes, walked_a, b as int, a as int);
    }
    assert(backward(nodes, r) == propagate(walked_a, b as int));
    assert(propagate(walked_a, b as int)[a as int].gradient == walked_a[a as int].gradient);
    assert(propagate(walked_a, b as int)[b as int].gradient == walked_a[b as int].gradient);
}

/// The power rule on the base side: after a backward pass from a power root
/// with distinct, mutually unreachable operands, the base's accumulator holds
/// zero plus `exponent * base^(exponent - 1)` times the unit seed.
pub proof fn lemma_backward_pow_base(nodes: Seq<Node>, r: int, b: usize, e: usize)
    requires
        wf_seq(nodes),
        0 <= r < nodes.len(),
        nodes[r].op == (Op::Pow { base: b, exponent: e }),
        b != e,
        !reaches(nodes, b as int, e as int),
        !reaches(nodes, e as int, b as int),
    ensures
        backward(nodes, r)[b as int].gradient == add_of(
            ZERO_BITS,
            mul_of(
                mul_of(
                    nodes[e as int].value,
                    pow_of(nodes[b as int].value, sub_of(nodes[e as int].value, ONE_BITS)),
                ),
                ONE_BITS,
            ),
        ),
{
    assert(op_wf(nodes[r].op, r));
    let c0 = cleared(nodes, r);
    let s = seeded(c0, r);
    assert(reaches(nodes, b as int, b as int));
    assert(reaches(nodes, r, b as int));
    assert forall|k: int| 0 <= k < nodes.len() implies #[trigger] nodes[k].op == s[k].op by {}
    lemma_ops_preserve_wf(nodes, s);
    assert(s[r].gradient == ONE_BITS);
    assert(s[b as int].gradient == ZERO_BITS);
    let c = contribute(s, r);
    lemma_contribute_shape(s, r);
    lemma_ops_preserve_wf(s, c);
    assert forall|k: int| 0 <= k < nodes.len() implies #[trigger] nodes[k].op == c[k].op by {
        assert(c[k].op == s[k].op);
    }
    lemma_propagate_shape(c, b as int);
    lemma_propagate_frame(c, b as int);
    let walked_a = propagate(c, b as int);
    assert(walked_a[b as int].gradient == c[b as int].gradient);
    lemma_ops_preserve_wf(c, walked_a);
    lemma_propagate_frame(walked_a, e as int);
    assert(!reaches(walked_a, e as int, b as int)) by {
        assert forall|k: int| 0 <= k < nodes.len() implies #[trigger] nodes[k].op
            == walked_a[k].op by {
            assert(walked_a[k].op == c[k].op);
        }
        lemma_reaches_ops_agree(nodes, walked_a, e as int, b as int);
    }
    assert(backward(nodes, r) == propagate(walked_a, e as int));
    assert(propagate(walked_a, e as int)[b as int].gradient == walked_a[b as int].gradient);
}

/// The rectified-linear rule: after a backward pass from a rectification
/// root, the operand's accumulator holds zero plus the unit seed where the
/// operand's value is strictly positive, and zero plus a zero term otherwise.
pub proof fn lemma_backward_relu_operand(nodes: Seq<Node>, r: int, a: usize)
    requires
        wf_seq(nodes),
        0 <= r < nodes.len(),
        nodes[r].op == (Op::Relu { arg: a }),
    ensures
        backward(nodes, r)[a as int].gradient == add_of(
            ZERO_BITS,
            if gt_of(nodes[a as int].value, ZERO_BITS) {
                mul_of(ONE_BITS, ONE_BITS)
            } else {
                ZERO_BITS
            },
        ),
{
    assert(op_wf(nodes[r].op, r));
    let c0 = cleared(nodes, r);
    let s = seeded(c0, r);
    assert(reaches(nodes, a as int, a as int));
    assert(reaches(nodes, r, a as int));
    assert forall|k: int| 0 <= k < nodes.len() implies #[trigger] nodes[k].op == s[k].op by {}
    lemma_ops_preserve_wf(nodes, s);
    assert(s[r].gradient == ONE_BITS);
    assert(s[a as int].gradient == ZERO_BITS);
    assert(s[a as int].value == nodes[a as int].value);
    let c = contribute(s, r);
    lemma_contribute_shape(s, r);
    lemma_ops_preserve_wf(s, c);
    lemma_propagate_frame(c, a as int);
    assert(backward(nodes, r) == propagate(c, a as int));
    assert(propagate(c, a as int)[a as int].gradient == c[a as int].gradient);
}


/// Subtraction is not a primitive operation: `a - b` expands to
/// `a + (b * -1)` with two hidden intermediate nodes, and the gradient flows
/// through that expansion. After a backward pass from the expansion's root
/// over distinct leaf operands, the minuend has accumulated one unit
/// contribution and the subtrahend the unit contribution times minus one.
pub proof fn lemma_backward_subtract(nodes: Seq<Node>, r: int, a: usize, b: usize, m: usize, ng: usize)
    requires
        wf_seq(nodes),
        0 <= r < nodes.len(),
        nodes[r].op == (Op::Add { lhs: a, rhs: m }),
        nodes[m as int].op == (Op::Mul { lhs: b, rhs: ng }),
        nodes[a as int].op == Op::Leaf,
        nodes[b as int].op == Op::Leaf,
        nodes[ng as int].op == Op::Leaf,
        nodes[ng as int].value == NEG_ONE_BITS,
        a != b,
        a != ng,
        b != ng,
    ensures
        backward(nodes, r)[a as int].gradient == add_of(ZERO_BITS, ONE_BITS),
        backward(nodes, r)[b as int].gradient == add_of(
            ZERO_BITS,
            mul_of(NEG_ONE_BITS, add_of(ZERO_BITS, ONE_BITS)),
        ),
{
    assert(op_wf(nodes[r].op, r));
    assert(op_wf(nodes[m as int].op, m as int));
    let c0 = cleared(nodes, r);
    let s = seeded(c0, r);
    assert(reaches(nodes, a as int, a as int));
    assert(reaches(nodes, b as int, b as int));
    assert(reaches(nodes, ng as int, ng as int));
    assert(reaches(nodes, m as int, m as int));
    assert(reaches(nodes, m as int, b as int));
    assert(reaches(nodes, m as int, ng as int));
    assert(reaches(nodes, r, a as int));
    assert(reaches(nodes, r, m as int));
    assert(reaches(nodes, r, b as int));
    assert(reaches(nodes, r, ng as int));
    assert forall|k: int| 0 <= k < nodes.len() implies #[trigger] nodes[k].op == s[k].op by {}
    lemma_ops_preserve_wf(nodes, s);
    assert(s[r].gradient == ONE_BITS);
    assert(s[a as int].gradient == ZERO_BITS);
    assert(s[m as int].gradient == ZERO_BITS);
    assert(s[b as int].gradient == ZERO_BITS);
    assert(s[ng as int].gradient == ZERO_BITS);
    assert(s[ng as int].value == NEG_ONE_BITS);
    let c1 = contribute(s, r);
    assert(c1[a as int].gradient == add_of(ZERO_BITS, ONE_BITS));
    assert(c1[m as int].gradient == add_of(ZERO_BITS, ONE_BITS));
    assert(c1[a as int].op == Op::Leaf);
    assert(propagate(c1, a as int) == c1);
    let c2 = contribute(c1, m as int);
    assert(c2[b as int].gradient == add_of(
        ZERO_BITS,
        mul_of(NEG_ONE_BITS, add_of(ZERO_BITS, ONE_BITS)),
    ));
    assert(c2[b as int].op == Op::Leaf);
    assert(c2[ng as int].op == Op::Leaf);
    assert(propagate(c2, b as int) == c2);
    assert(propagate(c2, ng as int) == c2);
    assert(propagate(c1, m as int) == c2);
    assert(backward(nodes, r) == c2);
    assert(c2[a as int].gradient == c1[a as int].gradient);
}

} // verus!
