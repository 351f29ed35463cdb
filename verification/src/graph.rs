use vstd::prelude::*;

verus! {

/// Identifier of a node: its position in the builder's node list.
/// Identifiers are assigned in creation order and never reused.
#[derive(Clone, Copy, Debug, PartialEq, Eq, Structural)]
pub struct NodeId(pub usize);

/// A caller-supplied hint operation: a pure, deterministic mapping from an
/// ordered sequence of resolved operand values to one output value.
///
/// The evaluator never checks that a hint computes anything meaningful; a
/// caller typically validates it afterwards with an equality constraint
/// against a native computation. `hint_value` is the mathematical meaning of
/// the hint, and every implementation promises that `apply` agrees with it,
/// which is exactly the purity and determinism the evaluator assumes.
pub trait HintFn: Sized {
    /// The value this hint produces from the given resolved operand values.
    spec fn hint_value(&self, vals: Seq<u32>) -> u32;

    /// Computes the hint's value on concrete operand values.
    fn apply(&self, vals: &[u32]) -> (r: u32)
        ensures
            r == self.hint_value(vals@),
    ;
}

/// A hint that ignores its operands and produces zero. It serves graphs that
/// need no hints at all, fixing the hint type of their builder.
#[derive(Clone)]
pub struct ZeroHint;

impl HintFn for ZeroHint {
    open spec fn hint_value(&self, vals: Seq<u32>) -> u32 {
        0
    }

    fn apply(&self, vals: &[u32]) -> (r: u32) {
        0
    }
}

/// Operation of a derived node. A node with no operation is an input.
#[derive(Clone)]
pub enum Op<H> {
    /// A fixed value, known at construction time.
    Const(u32),
    /// Wraparound sum of the two operand nodes' values.
    Add(NodeId, NodeId),
    /// Wraparound product of the two operand nodes' values.
    Mul(NodeId, NodeId),
    /// A caller-supplied function of the listed operand nodes' values,
    /// applied in the given order.
    Hint(Vec<NodeId>, H),
}

/// One node of the graph: its identifier, its value once assigned or
/// computed, and its operation (`None` for an input node).
#[derive(Clone)]
pub struct Node<H> {
    pub id: NodeId,
    pub value: Option<u32>,
    pub op: Option<Op<H>>,
}

/// Addition modulo 2^32, the wraparound semantics of `Op::Add`.
pub open spec fn wrap_add(x: u32, y: u32) -> u32 {
    ((x + y) % 0x1_0000_0000) as u32
}

/// Multiplication modulo 2^32, the wraparound semantics of `Op::Mul`.
pub open spec fn wrap_mul(x: u32, y: u32) -> u32 {
    ((x * y) % 0x1_0000_0000) as u32
}

/// Every operand of `op` refers to a node created strictly before `bound`.
pub open spec fn op_wf<H>(op: Op<H>, bound: int) -> bool {
    match op {
        Op::Const(_) => true,
        Op::Add(a, b) => a.0 < bound && b.0 < bound,
        Op::Mul(a, b) => a.0 < bound && b.0 < bound,
        Op::Hint(ps, _) => forall|k: int| 0 <= k < ps@.len() ==> (#[trigger] ps@[k]).0 < bound,
    }
}

/// The node at position `i` carries the identifier `i`, and its operands all
/// point at earlier nodes. Operands below their owner make the dependency
/// relation acyclic: no cycle is representable.
pub open spec fn node_wf_at<H>(nodes: Seq<Node<H>>, i: int) -> bool {
    &&& nodes[i].id.0 == i
    &&& match nodes[i].op {
        Some(op) => op_wf(op, i),
        None => true,
    }
}

/// Well-formedness of a whole node list, as the construction API maintains it.
pub open spec fn nodes_wf<H>(nodes: Seq<Node<H>>) -> bool {
    forall|i: int| 0 <= i < nodes.len() ==> #[trigger] node_wf_at(nodes, i)
}

/// `post` has the same nodes as `en`: same length, same identifiers, same
/// operations. Evaluation changes values and nothing else.
pub open spec fn same_structure<H>(en: Seq<Node<H>>, post: Seq<Node<H>>) -> bool {
    &&& post.len() == en.len()
    &&& forall|i: int|
        0 <= i < en.len() ==> (#[trigger] post[i]).id == en[i].id && post[i].op == en[i].op
}

/// The value the input list assigns to node `i`: the value of the last pair
/// naming `i`, or `None` if no pair does.
pub open spec fn input_val(inputs: Seq<(NodeId, u32)>, i: int) -> Option<u32>
    decreases inputs.len(),
{
    if inputs.len() == 0 {
        None
    } else if inputs.last().0.0 == i {
        Some(inputs.last().1)
    } else {
        input_val(inputs.drop_last(), i)
    }
}

/// The value node `i` holds right after input assignment: the assigned input
/// value if the list names `i`, otherwise whatever value the node already had.
pub open spec fn base_val<H>(en: Seq<Node<H>>, inputs: Seq<(NodeId, u32)>, i: int) -> Option<
    u32,
> {
    if input_val(inputs, i) is Some {
        input_val(inputs, i)
    } else if 0 <= i < en.len() {
        en[i].value
    } else {
        None
    }
}

/// The current value of the node `p` refers to, `None` when `p` is dangling.
pub open spec fn operand_val<H>(nodes: Seq<Node<H>>, p: NodeId) -> Option<u32> {
    if p.0 < nodes.len() {
        nodes[p.0 as int].value
    } else {
        None
    }
}

/// The current values of a hint's operands, in declared order.
pub open spec fn hint_operand_vals<H>(nodes: Seq<Node<H>>, ps: Seq<NodeId>) -> Seq<Option<u32>> {
    ps.map(|k: int, p: NodeId| operand_val(nodes, p))
}

/// Every entry of `vs` holds a value.
pub open spec fn all_resolved(vs: Seq<Option<u32>>) -> bool {
    forall|k: int| 0 <= k < vs.len() ==> (#[trigger] vs[k]) is Some
}

/// The values inside `vs`, once all of them are known to be present.
pub open spec fn resolved_vals(vs: Seq<Option<u32>>) -> Seq<u32> {
    vs.map(|k: int, v: Option<u32>| v.unwrap())
}

/// What node `i`'s operation yields from the values the graph currently
/// holds: `None` when `i` is an input or some operand is still unresolved.
pub open spec fn computed_val<H: HintFn>(nodes: Seq<Node<H>>, i: int) -> Option<u32> {
    match nodes[i].op {
        None => None,
        Some(Op::Const(c)) => Some(c),
        Some(Op::Add(a, b)) => match (operand_val(nodes, a), operand_val(nodes, b)) {
            (Some(x), Some(y)) => Some(wrap_add(x, y)),
            _ => None,
        },
        Some(Op::Mul(a, b)) => match (operand_val(nodes, a), operand_val(nodes, b)) {
            (Some(x), Some(y)) => Some(wrap_mul(x, y)),
            _ => None,
        },
        Some(Op::Hint(ps, h)) => {
            let vs = hint_operand_vals(nodes, ps@);
            if all_resolved(vs) {
                Some(h.hint_value(resolved_vals(vs)))
            } else {
                None
            }
        },
    }
}

/// Node `i`'s operation lists node `j` as an operand.
pub open spec fn has_operand<H>(op: Option<Op<H>>, j: int) -> bool {
    match op {
        Some(Op::Add(a, b)) => a.0 == j || b.0 == j,
        Some(Op::Mul(a, b)) => a.0 == j || b.0 == j,
        Some(Op::Hint(ps, _)) => exists|k: int| 0 <= k < ps@.len() && (#[trigger] ps@[k]).0 == j,
        _ => false,
    }
}

/// Node `i` of `post` holds the value evaluation owes it: the assigned or
/// pre-existing value where there is one, and otherwise exactly what its
/// operation yields from the final values — so a derived node is resolved
/// if and only if all its operands are, and an input without an assignment
/// stays absent.
pub open spec fn node_ok<H: HintFn>(
    en: Seq<Node<H>>,
    inputs: Seq<(NodeId, u32)>,
    post: Seq<Node<H>>,
    i: int,
) -> bool {
    if base_val(en, inputs, i) is Some {
        post[i].value == base_val(en, inputs, i)
    } else {
        post[i].value == computed_val(post, i)
    }
}

/// `post` is the result of evaluating the graph `en` under the given input
/// assignment: the structure is untouched and every node holds exactly the
/// value the fixpoint of value propagation gives it.
pub open spec fn is_evaluation<H: HintFn>(
    en: Seq<Node<H>>,
    inputs: Seq<(NodeId, u32)>,
    post: Seq<Node<H>>,
) -> bool {
    &&& same_structure(en, post)
    &&& forall|i: int| 0 <= i < en.len() ==> #[trigger] node_ok(en, inputs, post, i)
}

/// The constraint `c` holds: the two nodes' values are equal, two absent
/// values counting as equal and an absent value never equalling a present one.
pub open spec fn constraint_ok<H>(nodes: Seq<Node<H>>, c: (NodeId, NodeId)) -> bool {
    operand_val(nodes, c.0) == operand_val(nodes, c.1)
}

/// Every constraint of `cs` holds of the given values.
pub open spec fn all_constraints_ok<H>(nodes: Seq<Node<H>>, cs: Seq<(NodeId, NodeId)>) -> bool {
    forall|q: int| 0 <= q < cs.len() ==> constraint_ok(nodes, #[trigger] cs[q])
}

/// The constraints of `cs` that do not hold, in order, each paired with the
/// two values that were compared.
pub open spec fn failures_of<H>(nodes: Seq<Node<H>>, cs: Seq<(NodeId, NodeId)>) -> Seq<
    (NodeId, Option<u32>, NodeId, Option<u32>),
>
    decreases cs.len(),
{
    if cs.len() == 0 {
        Seq::empty()
    } else {
        let rest = failures_of(nodes, cs.drop_last());
        let c = cs.last();
        if constraint_ok(nodes, c) {
            rest
        } else {
            rest.push((c.0, operand_val(nodes, c.0), c.1, operand_val(nodes, c.1)))
        }
    }
}

/// How many entries of `s` are still `false`.
pub open spec fn count_false(s: Seq<bool>) -> nat
    decreases s.len(),
{
    if s.len() == 0 {
        0
    } else {
        count_false(s.drop_last()) + (if s.last() {
            0nat
        } else {
            1nat
        })
    }
}

/// How many nodes of `s` still hold no value.
pub open spec fn num_unvalued<H>(nodes: Seq<Node<H>>) -> nat
    decreases nodes.len(),
{
    if nodes.len() == 0 {
        0
    } else {
        num_unvalued(nodes.drop_last()) + (if nodes.last().value is None {
            1nat
        } else {
            0nat
        })
    }
}

pub proof fn lemma_count_false_update(s: Seq<bool>, i: int, b: bool)
    requires
        0 <= i < s.len(),
    ensures
        count_false(s.update(i, b)) == count_false(s) + (if b {
            0int
        } else {
            1int
        }) - (if s[i] {
            0int
        } else {
            1int
        }),
    decreases s.len(),
{
    let s2 = s.update(i, b);
    if i == s.len() - 1 {
        assert(s2.drop_last() =~= s.drop_last());
    } else {
        assert(s2.drop_last() =~= s.drop_last().update(i, b));
        lemma_count_false_update(s.drop_last(), i, b);
    }
}

pub proof fn lemma_num_unvalued_update<H>(s: Seq<Node<H>>, i: int, x: Node<H>)
    requires
        0 <= i < s.len(),
    ensures
        num_unvalued(s.update(i, x)) == num_unvalued(s) + (if x.value is None {
            1int
        } else {
            0int
        }) - (if s[i].value is None {
            1int
        } else {
            0int
        }),
    decreases s.len(),
{
    let s2 = s.update(i, x);
    if i == s.len() - 1 {
        assert(s2.drop_last() =~= s.drop_last());
    } else {
        assert(s2.drop_last() =~= s.drop_last().update(i, x));
        lemma_num_unvalued_update(s.drop_last(), i, x);
    }
}

/// Evaluation touches only values, so it keeps the graph well-formed.
pub proof fn lemma_same_structure_wf<H>(en: Seq<Node<H>>, post: Seq<Node<H>>)
    requires
        nodes_wf(en),
        same_structure(en, post),
    ensures
        nodes_wf(post),
{
    assert forall|i: int| 0 <= i < post.len() implies #[trigger] node_wf_at(post, i) by {
        assert(node_wf_at(en, i));
    }
}

/// A well-formed operation only mentions operands below its owner.
pub proof fn lemma_has_operand_bound<H>(op: Option<Op<H>>, bound: int, j: int)
    requires
        match op {
            Some(o) => op_wf(o, bound),
            None => true,
        },
        has_operand(op, j),
    ensures
        j < bound,
{
    match op {
        Some(Op::Hint(ps, _)) => {
            let k = choose|k: int| 0 <= k < ps@.len() && (#[trigger] ps@[k]).0 == j;
            assert(ps@[k].0 < bound);
        },
        _ => {},
    }
}

/// What a node's operation yields depends only on the operation and on the
/// values of the nodes it lists as operands.
pub proof fn lemma_computed_val_agrees<H: HintFn>(c1: Seq<Node<H>>, c2: Seq<Node<H>>, i: int)
    requires
        0 <= i < c1.len(),
        c1.len() == c2.len(),
        c1[i].op == c2[i].op,
        forall|j: int|
            0 <= j < c1.len() && has_operand(c1[i].op, j) ==> #[trigger] c1[j].value
                == c2[j].value,
    ensures
        computed_val(c1, i) == computed_val(c2, i),
{
    match c1[i].op {
        None => {},
        Some(Op::Const(_)) => {},
        Some(Op::Add(a, b)) => {
            if a.0 < c1.len() {
                assert(has_operand(c1[i].op, a.0 as int));
            }
            if b.0 < c1.len() {
                assert(has_operand(c1[i].op, b.0 as int));
            }
            assert(operand_val(c1, a) == operand_val(c2, a));
            assert(operand_val(c1, b) == operand_val(c2, b));
        },
        Some(Op::Mul(a, b)) => {
            if a.0 < c1.len() {
                assert(has_operand(c1[i].op, a.0 as int));
            }
            if b.0 < c1.len() {
                assert(has_operand(c1[i].op, b.0 as int));
            }
            assert(operand_val(c1, a) == operand_val(c2, a));
            assert(operand_val(c1, b) == operand_val(c2, b));
        },
        Some(Op::Hint(ps, _)) => {
            assert forall|k: int| 0 <= k < ps@.len() implies hint_operand_vals(c1, ps@)[k]
                == hint_operand_vals(c2, ps@)[k] by {
                let p = ps@[k];
                if p.0 < c1.len() {
                    assert(has_operand(c1[i].op, p.0 as int));
                }
            }
            assert(hint_operand_vals(c1, ps@) =~= hint_operand_vals(c2, ps@));
        },
    }
}

/// A derived node with an unresolved operand cannot be computed.
pub proof fn lemma_unvalued_operand_blocks<H: HintFn>(c: Seq<Node<H>>, i: int, j: int)
    requires
        0 <= i < c.len(),
        0 <= j < c.len(),
        has_operand(c[i].op, j),
        c[j].value is None,
    ensures
        computed_val(c, i) is None,
{
    match c[i].op {
        Some(Op::Hint(ps, _)) => {
            let k = choose|k: int| 0 <= k < ps@.len() && (#[trigger] ps@[k]).0 == j;
            assert(hint_operand_vals(c, ps@)[k] is None);
        },
        _ => {},
    }
}

/// `wrap_add` agrees with the wraparound addition of the machine.
pub proof fn lemma_wrap_add_is_wrapping(x: u32, y: u32)
    ensures
        wrap_add(x, y) == vstd::wrapping::u32_specs::wrapping_add(x, y),
{
    if x + y > u32::MAX {
        vstd::arithmetic::div_mod::lemma_mod_multiples_vanish(
            1,
            x + y - 0x1_0000_0000,
            0x1_0000_0000,
        );
        vstd::arithmetic::div_mod::lemma_small_mod((x + y - 0x1_0000_0000) as nat, 0x1_0000_0000);
    } else {
        vstd::arithmetic::div_mod::lemma_small_mod((x + y) as nat, 0x1_0000_0000);
    }
}

/// `wrap_mul` agrees with the wraparound multiplication of the machine.
pub proof fn lemma_wrap_mul_is_wrapping(x: u32, y: u32)
    ensures
        wrap_mul(x, y) == vstd::wrapping::u32_specs::wrapping_mul(x, y),
{
}

} // verus!
