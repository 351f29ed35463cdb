use vstd::prelude::*;

use crate::graph::HintFn;
use crate::graph::Node;
use crate::graph::NodeId;
use crate::graph::all_constraints_ok;
use crate::graph::base_val;
use crate::graph::constraint_ok;
use crate::graph::failures_of;
use crate::graph::computed_val;
use crate::graph::has_operand;
use crate::graph::is_evaluation;
use crate::graph::lemma_computed_val_agrees;
use crate::graph::lemma_has_operand_bound;
use crate::graph::lemma_unvalued_operand_blocks;
use crate::graph::node_ok;
use crate::graph::node_wf_at;
use crate::graph::nodes_wf;

verus! {

proof fn lemma_values_agree_below<H: HintFn>(
    en: Seq<Node<H>>,
    inputs: Seq<(NodeId, u32)>,
    p1: Seq<Node<H>>,
    p2: Seq<Node<H>>,
    k: int,
)
    requires
        nodes_wf(en),
        is_evaluation(en, inputs, p1),
        is_evaluation(en, inputs, p2),
        0 <= k <= en.len(),
    ensures
        forall|i: int| 0 <= i < k ==> #[trigger] p1[i].value == p2[i].value,
    decreases k,
{
    if k > 0 {
        lemma_values_agree_below(en, inputs, p1, p2, k - 1);
        let i = k - 1;
        assert(node_ok(en, inputs, p1, i));
        assert(node_ok(en, inputs, p2, i));
        assert(node_wf_at(en, i));
        assert(p1[i].op == en[i].op);
        assert(p2[i].op == en[i].op);
        if base_val(en, inputs, i) is None {
            assert forall|j: int| 0 <= j < p1.len() && has_operand(p1[i].op, j)
                implies #[trigger] p1[j].value == p2[j].value by {
                lemma_has_operand_bound(p1[i].op, i, j);
            }
            lemma_computed_val_agrees(p1, p2, i);
        }
    }
}

/// Determinism and order-independence of evaluation. Any two outcomes of
/// value propagation over the same well-formed graph and the same input
/// assignment carry identical values on every node: the fixpoint is unique,
/// so repeated evaluation reproduces it exactly, and so does processing the
/// worklist in any other order.
pub proof fn lemma_evaluation_unique<H: HintFn>(
    en: Seq<Node<H>>,
    inputs: Seq<(NodeId, u32)>,
    p1: Seq<Node<H>>,
    p2: Seq<Node<H>>,
)
    requires
        nodes_wf(en),
        is_evaluation(en, inputs, p1),
        is_evaluation(en, inputs, p2),
    ensures
        forall|i: int| 0 <= i < en.len() ==> #[trigger] p1[i].value == p2[i].value,
{
    lemma_values_agree_below(en, inputs, p1, p2, en.len() as int);
}

/// The two faces of constraint checking agree: every constraint holds
/// exactly when the list of reported failures is empty.
pub proof fn lemma_failures_empty_iff_ok<H>(nodes: Seq<Node<H>>, cs: Seq<(NodeId, NodeId)>)
    ensures
        all_constraints_ok(nodes, cs) <==> failures_of(nodes, cs).len() == 0,
    decreases cs.len(),
{
    if cs.len() > 0 {
        lemma_failures_empty_iff_ok(nodes, cs.drop_last());
        if all_constraints_ok(nodes, cs) {
            assert forall|q: int| 0 <= q < cs.drop_last().len() implies constraint_ok(
                nodes,
                #[trigger] cs.drop_last()[q],
            ) by {
                assert(cs.drop_last()[q] == cs[q]);
                assert(constraint_ok(nodes, cs[q]));
            }
            assert(constraint_ok(nodes, cs.last()));
        } else if all_constraints_ok(nodes, cs.drop_last()) && constraint_ok(nodes, cs.last()) {
            assert forall|q: int| 0 <= q < cs.len() implies constraint_ok(
                nodes,
                #[trigger] cs[q],
            ) by {
                if q < cs.len() - 1 {
                    assert(cs[q] == cs.drop_last()[q]);
                    assert(constraint_ok(nodes, cs.drop_last()[q]));
                }
            }
        }
    }
}

/// Some node `w` with `0 <= w <= m` is an operand of `i` and depends on `j`.
pub open spec fn depends_via<H>(nodes: Seq<Node<H>>, i: int, j: int, m: int) -> bool
    decreases i, m + 1,
{
    0 <= i < nodes.len() && m < i && if m < 0 {
        false
    } else {
        (has_operand(nodes[i].op, m) && depends_on(nodes, m, j)) || depends_via(
            nodes,
            i,
            j,
            m - 1,
        )
    }
}

/// Node `i` depends on node `j`: `j` is an operand of `i`, directly or
/// through a chain of operands.
pub open spec fn depends_on<H>(nodes: Seq<Node<H>>, i: int, j: int) -> bool
    decreases i, i + 1,
{
    0 <= i < nodes.len() && (has_operand(nodes[i].op, j) || depends_via(nodes, i, j, i - 1))
}

/// Fetches, from a dependency through operands, one operand of `i` on the
/// chain towards `j`.
proof fn lemma_via_witness<H>(nodes: Seq<Node<H>>, i: int, j: int, m: int) -> (w: int)
    requires
        depends_via(nodes, i, j, m),
    ensures
        0 <= w <= m,
        w < i,
        has_operand(nodes[i].op, w),
        depends_on(nodes, w, j),
    decreases m,
{
    assert(m >= 0);
    if has_operand(nodes[i].op, m) && depends_on(nodes, m, j) {
        m
    } else {
        assert(depends_via(nodes, i, j, m - 1));
        lemma_via_witness(nodes, i, j, m - 1)
    }
}

/// A node depends on whatever one of its operands depends on.
proof fn lemma_via_construct<H>(nodes: Seq<Node<H>>, i: int, j: int, w: int, m: int)
    requires
        0 <= w <= m < i,
        0 <= i < nodes.len(),
        has_operand(nodes[i].op, w),
        depends_on(nodes, w, j),
    ensures
        depends_via(nodes, i, j, m),
    decreases m,
{
    if w < m {
        lemma_via_construct(nodes, i, j, w, m - 1);
    }
}

/// Unresolved values propagate: after evaluation, a node that depends on an
/// unresolved node, and whose dependency chain was given no value directly,
/// is itself unresolved. In particular everything downstream of an input that
/// was never assigned stays absent.
pub proof fn lemma_unresolved_propagates<H: HintFn>(
    en: Seq<Node<H>>,
    inputs: Seq<(NodeId, u32)>,
    post: Seq<Node<H>>,
    i: int,
    j: int,
)
    requires
        nodes_wf(en),
        is_evaluation(en, inputs, post),
        0 <= i < en.len(),
        0 <= j < en.len(),
        depends_on(en, i, j),
        post[j].value is None,
        forall|m: int|
            0 <= m < en.len() && (m == i || depends_on(en, i, m)) ==> (#[trigger] base_val(
                en,
                inputs,
                m,
            )) is None,
    ensures
        post[i].value is None,
    decreases i,
{
    assert(node_ok(en, inputs, post, i));
    assert(node_wf_at(en, i));
    assert(post[i].op == en[i].op);
    assert(base_val(en, inputs, i) is None);
    if has_operand(en[i].op, j) {
        lemma_unvalued_operand_blocks(post, i, j);
    } else {
        assert(depends_via(en, i, j, i - 1));
        let m = lemma_via_witness(en, i, j, i - 1);
        assert(depends_on(en, i, m));
        assert forall|m2: int|
            0 <= m2 < en.len() && (m2 == m || depends_on(en, m, m2)) implies (#[trigger] base_val(
            en,
            inputs,
            m2,
        )) is None by {
            if m2 != m {
                lemma_via_construct(en, i, m2, m, i - 1);
                assert(depends_on(en, i, m2));
            } else {
                assert(depends_on(en, i, m));
            }
            assert(base_val(en, inputs, m2) is None);
        }
        lemma_unresolved_propagates(en, inputs, post, m, j);
        lemma_unvalued_operand_blocks(post, i, m);
    }
}

} // verus!
