use vstd::prelude::*;

use crate::graph::HintFn;
use crate::graph::Node;
use crate::graph::NodeId;
use crate::graph::Op;
use crate::graph::all_constraints_ok;
use crate::graph::all_resolved;
use crate::graph::base_val;
use crate::graph::constraint_ok;
use crate::graph::failures_of;
use crate::graph::computed_val;
use crate::graph::count_false;
use crate::graph::has_operand;
use crate::graph::hint_operand_vals;
use crate::graph::is_evaluation;
use crate::graph::lemma_computed_val_agrees;
use crate::graph::lemma_count_false_update;
use crate::graph::lemma_has_operand_bound;
use crate::graph::lemma_num_unvalued_update;
use crate::graph::lemma_same_structure_wf;
use crate::graph::lemma_unvalued_operand_blocks;
use crate::graph::lemma_wrap_add_is_wrapping;
use crate::graph::lemma_wrap_mul_is_wrapping;
use crate::graph::node_ok;
use crate::graph::node_wf_at;
use crate::graph::nodes_wf;
use crate::graph::num_unvalued;
use crate::graph::op_wf;
use crate::graph::operand_val;
use crate::graph::resolved_vals;
use crate::graph::same_structure;

verus! {

/// Owns one computation graph: the node list (position equals identifier)
/// and the declared equality constraints, in declaration order.
pub struct Builder<H> {
    pub nodes: Vec<Node<H>>,
    pub constraints: Vec<(NodeId, NodeId)>,
}

/// The identifiers of a sequence of node handles, in order.
pub open spec fn ids_of<H>(parents: Seq<Node<H>>) -> Seq<NodeId> {
    parents.map(|k: int, p: Node<H>| p.id)
}

/// Propagation invariant: node `i` holds its assigned or pre-existing value
/// where there is one, and any value it gained since is justified by its
/// operation over the values the graph currently holds.
spec fn value_ok<H: HintFn>(
    en: Seq<Node<H>>,
    inputs: Seq<(NodeId, u32)>,
    cur: Seq<Node<H>>,
    i: int,
) -> bool {
    if base_val(en, inputs, i) is Some {
        cur[i].value == base_val(en, inputs, i)
    } else if cur[i].value is Some {
        cur[i].value == computed_val(cur, i)
    } else {
        true
    }
}

/// Node `i` is unresolved although its operation could compute right now.
spec fn ready_at<H: HintFn>(cur: Seq<Node<H>>, i: int) -> bool {
    cur[i].value is None && computed_val(cur, i) is Some
}

/// Removing the last element keeps every other element in the sequence.
proof fn lemma_contains_after_pop(wl: Seq<NodeId>, x: NodeId, popped: NodeId)
    requires
        wl.len() > 0,
        wl.contains(x),
        wl[wl.len() - 1] == popped,
        x != popped,
    ensures
        wl.drop_last().contains(x),
{
    let q = choose|q: int| 0 <= q < wl.len() && wl[q] == x;
    assert(wl.drop_last()[q] == x);
}

impl<H: HintFn> Builder<H> {
    /// The graph invariant the construction API maintains: nodes are stored
    /// at their own identifier and every operand points at an earlier node.
    pub open spec fn wf(self) -> bool {
        nodes_wf(self.nodes@)
    }

    /// Creates a builder with an empty graph: no nodes, no constraints.
    pub fn new() -> (r: Builder<H>)
        ensures
            r.nodes@.len() == 0,
            r.constraints@.len() == 0,
            r.wf(),
    {
        Builder { nodes: Vec::new(), constraints: Vec::new() }
    }

    /// Appends a node carrying the given operation, without a value, under
    /// the next fresh identifier, and returns that identifier.
    fn new_node(&mut self, op: Option<Op<H>>) -> (id: NodeId)
        requires
            old(self).wf(),
            match op {
                Some(o) => op_wf(o, old(self).nodes@.len() as int),
                None => true,
            },
        ensures
            final(self).wf(),
            id.0 == old(self).nodes@.len(),
            final(self).nodes@ == old(self).nodes@.push(Node { id, value: None, op }),
            final(self).constraints@ == old(self).constraints@,
    {
        let id = NodeId(self.nodes.len());
        self.nodes.push(Node { id, value: None, op });
        proof {
            assert forall|i: int| 0 <= i < self.nodes@.len() implies #[trigger] node_wf_at(
                self.nodes@,
                i,
            ) by {
                if i < self.nodes@.len() - 1 {
                    assert(node_wf_at(old(self).nodes@, i));
                }
            }
        }
        id
    }

    /// Creates an input node: no operation, no value. Its value must be
    /// supplied through `fill_nodes` before anything downstream can resolve.
    pub fn init(&mut self) -> (r: Node<H>)
        requires
            old(self).wf(),
        ensures
            final(self).wf(),
            final(self).constraints@ == old(self).constraints@,
            r.id.0 == old(self).nodes@.len(),
            r.value is None,
            r.op is None,
            final(self).nodes@ == old(self).nodes@.push(r),
    {
        let id = self.new_node(None);
        Node { id, value: None, op: None }
    }

    /// Creates a node that always evaluates to the given value.
    pub fn constant(&mut self, value: u32) -> (r: Node<H>)
        requires
            old(self).wf(),
        ensures
            final(self).wf(),
            final(self).constraints@ == old(self).constraints@,
            r.id.0 == old(self).nodes@.len(),
            r.value is None,
            r.op == Some(Op::<H>::Const(value)),
            final(self).nodes@ == old(self).nodes@.push(r),
    {
        let id = self.new_node(Some(Op::Const(value)));
        Node { id, value: None, op: Some(Op::Const(value)) }
    }

    /// Creates a node holding the wraparound sum of the two given nodes.
    pub fn add(&mut self, a: &Node<H>, b: &Node<H>) -> (r: Node<H>)
        requires
            old(self).wf(),
            a.id.0 < old(self).nodes@.len(),
            b.id.0 < old(self).nodes@.len(),
        ensures
            final(self).wf(),
            final(self).constraints@ == old(self).constraints@,
            r.id.0 == old(self).nodes@.len(),
            r.value is None,
            r.op == Some(Op::<H>::Add(a.id, b.id)),
            final(self).nodes@ == old(self).nodes@.push(r),
    {
        let id = self.new_node(Some(Op::Add(a.id, b.id)));
        Node { id, value: None, op: Some(Op::Add(a.id, b.id)) }
    }

    /// Creates a node holding the wraparound product of the two given nodes.
    pub fn mul(&mut self, a: &Node<H>, b: &Node<H>) -> (r: Node<H>)
        requires
            old(self).wf(),
            a.id.0 < old(self).nodes@.len(),
            b.id.0 < old(self).nodes@.len(),
        ensures
            final(self).wf(),
            final(self).constraints@ == old(self).constraints@,
            r.id.0 == old(self).nodes@.len(),
            r.value is None,
            r.op == Some(Op::<H>::Mul(a.id, b.id)),
            final(self).nodes@ == old(self).nodes@.push(r),
    {
        let id = self.new_node(Some(Op::Mul(a.id, b.id)));
        Node { id, value: None, op: Some(Op::Mul(a.id, b.id)) }
    }

    /// Records the declarative constraint that the two nodes' final values
    /// must be equal. Nothing is validated here; `check_constraints` compares
    /// the values once evaluation is done.
    pub fn assert_equal(&mut self, a: &Node<H>, b: &Node<H>)
        ensures
            final(self).nodes@ == old(self).nodes@,
            final(self).constraints@ == old(self).constraints@.push((a.id, b.id)),
    {
        self.constraints.push((a.id, b.id));
    }

    /// Creates a node whose value the given hint computes from the listed
    /// parents' values, in order, once all of them are resolved. The graph
    /// records the hint exactly; the handle returned carries a clone of it,
    /// and only the handle's identifier is significant.
    pub fn hint(&mut self, parents: Vec<Node<H>>, func: H) -> (r: Node<H>) where H: Clone
        requires
            old(self).wf(),
            forall|k: int|
                0 <= k < parents@.len() ==> (#[trigger] parents@[k]).id.0 < old(
                    self,
                ).nodes@.len(),
        ensures
            final(self).wf(),
            final(self).constraints@ == old(self).constraints@,
            final(self).nodes@.len() == old(self).nodes@.len() + 1,
            forall|i: int|
                0 <= i < old(self).nodes@.len() ==> final(self).nodes@[i] == old(self).nodes@[i],
            r.id.0 == old(self).nodes@.len(),
            r.value is None,
            r.op matches Some(Op::Hint(qs, _)) && qs@ == ids_of(parents@),
            final(self).nodes@.last().id == r.id,
            final(self).nodes@.last().value is None,
            final(self).nodes@.last().op matches Some(Op::Hint(ps, h)) && ps@ == ids_of(parents@)
                && h == func,
    {
        let mut ids: Vec<NodeId> = Vec::new();
        let mut ids2: Vec<NodeId> = Vec::new();
        let mut k: usize = 0;
        while k < parents.len()
            invariant
                k <= parents@.len(),
                ids@ == ids_of(parents@.take(k as int)),
                ids2@ == ids@,
            decreases parents@.len() - k,
        {
            let pid = parents[k].id;
            ids.push(pid);
            ids2.push(pid);
            proof {
                assert(ids_of(parents@.take(k + 1)) =~= ids_of(parents@.take(k as int)).push(
                    parents@[k as int].id,
                ));
            }
            k += 1;
        }
        proof {
            assert(parents@.take(parents@.len() as int) =~= parents@);
        }
        let func2 = func.clone();
        let id = self.new_node(Some(Op::Hint(ids, func)));
        Node { id, value: None, op: Some(Op::Hint(ids2, func2)) }
    }

    /// Evaluates the graph. First the given `(identifier, value)` pairs are
    /// assigned to their nodes, in order, a later pair for the same node
    /// winning and pairs naming unknown identifiers being ignored. Then a
    /// worklist seeded with every node repeatedly picks a node, computes its
    /// value once all its operands hold one, and wakes the nodes that depend
    /// on it, until no node can resolve any further. A node whose dependency
    /// chain is never fully supplied simply keeps no value; that is not an
    /// error. The result is the unique fixpoint of value propagation,
    /// whatever order the worklist was processed in.
    #[verifier::loop_isolation(false)]
    pub fn fill_nodes(&mut self, inputs: Vec<(NodeId, u32)>)
        requires
            old(self).wf(),
        ensures
            final(self).wf(),
            final(self).constraints@ == old(self).constraints@,
            is_evaluation(old(self).nodes@, inputs@, final(self).nodes@),
    {
        let ghost en = self.nodes@;
        let ghost cs0 = self.constraints@;
        let n = self.nodes.len();

        // Assign the supplied input values.
        let mut k: usize = 0;
        while k < inputs.len()
            invariant
                k <= inputs@.len(),
                self.nodes@.len() == n,
                same_structure(en, self.nodes@),
                self.constraints@ == cs0,
                forall|i: int|
                    0 <= i < n ==> (#[trigger] self.nodes@[i]).value == base_val(
                        en,
                        inputs@.take(k as int),
                        i,
                    ),
            decreases inputs@.len() - k,
        {
            let pair = inputs[k];
            let id = pair.0;
            let val = pair.1;
            let ghost prev = self.nodes@;
            if id.0 < n {
                self.nodes[id.0].value = Some(val);
            }
            proof {
                let kk = k as int;
                assert(inputs@.take(kk + 1).drop_last() =~= inputs@.take(kk));
                assert(inputs@.take(kk + 1).last() == inputs@[kk]);
                assert forall|i: int| 0 <= i < n implies (#[trigger] self.nodes@[i]).value
                    == base_val(en, inputs@.take(kk + 1), i) by {
                    assert(prev[i].value == base_val(en, inputs@.take(kk), i));
                }
            }
            k += 1;
        }
        proof {
            assert(inputs@.take(inputs@.len() as int) =~= inputs@);
        }
        // Seed the worklist with every node, none of them visited yet.
        let mut worklist: Vec<NodeId> = Vec::new();
        let mut j: usize = 0;
        while j < n
            invariant
                j <= n,
                worklist@.len() == j,
                forall|t: int| 0 <= t < j ==> (#[trigger] worklist@[t]) == NodeId(t as usize),
            decreases n - j,
        {
            worklist.push(NodeId(j));
            j += 1;
        }
        let mut visited: Vec<bool> = Vec::new();
        let mut m: usize = 0;
        while m < n
            invariant
                m <= n,
                visited@.len() == m,
                forall|t: int| 0 <= t < m ==> !(#[trigger] visited@[t]),
            decreases n - m,
        {
            visited.push(false);
            m += 1;
        }
        proof {
            assert forall|i: int| 0 <= i < n && ready_at(self.nodes@, i) implies
                worklist@.contains(NodeId(i as usize)) by {
                assert(worklist@[i] == NodeId(i as usize));
            }
        }
        // Propagate until no node can resolve any further.
        while worklist.len() > 0
            invariant
                self.nodes@.len() == n,
                visited@.len() == n,
                same_structure(en, self.nodes@),
                self.constraints@ == cs0,
                forall|t: int| 0 <= t < worklist@.len() ==> (#[trigger] worklist@[t]).0 < n,
                forall|i: int| 0 <= i < n ==> value_ok(en, inputs@, self.nodes@, i),
                forall|i: int|
                    0 <= i < n && ready_at(self.nodes@, i) ==> worklist@.contains(
                        NodeId(i as usize),
                    ),
                forall|i: int|
                    0 <= i < n && visited@[i] && (#[trigger] self.nodes@[i]).value is None
                        ==> computed_val(self.nodes@, i) is None,
            decreases num_unvalued(self.nodes@), count_false(visited@), worklist@.len(),
        {
            let ghost wl0 = worklist@;
            let ghost cur0 = self.nodes@;
            let ghost vis0 = visited@;
            let id = worklist.pop().unwrap();
            let idx = id.0;
            proof {
                assert(wl0[wl0.len() - 1] == id);
                assert(idx < n);
            }
            if visited[idx] {
                proof {
                    assert forall|i: int| 0 <= i < n && ready_at(self.nodes@, i) implies
                        worklist@.contains(NodeId(i as usize)) by {
                        if i == idx as int {
                            assert(visited@[i] && self.nodes@[i].value is None);
                            assert(false);
                        } else {
                            assert(wl0.contains(NodeId(i as usize)));
                            lemma_contains_after_pop(wl0, NodeId(i as usize), id);
                        }
                    }
                }
            } else if self.nodes[idx].value.is_some() {
                visited[idx] = true;
                proof {
                    lemma_count_false_update(vis0, idx as int, true);
                    assert forall|i: int| 0 <= i < n && ready_at(self.nodes@, i) implies
                        worklist@.contains(NodeId(i as usize)) by {
                        if i != idx as int {
                            assert(wl0.contains(NodeId(i as usize)));
                            lemma_contains_after_pop(wl0, NodeId(i as usize), id);
                        }
                    }
                }
            } else {
                let computed = self.compute_value(idx);
                match computed {
                    None => {
                        visited[idx] = true;
                        proof {
                            lemma_count_false_update(vis0, idx as int, true);
                            assert forall|i: int| 0 <= i < n && ready_at(self.nodes@, i) implies
                                worklist@.contains(NodeId(i as usize)) by {
                                if i != idx as int {
                                    assert(wl0.contains(NodeId(i as usize)));
                                    lemma_contains_after_pop(wl0, NodeId(i as usize), id);
                                }
                            }
                        }
                    },
                    Some(v) => {
                        self.nodes[idx].value = Some(v);
                        proof {
                            let ghost cur1 = self.nodes@;
                            let ii = idx as int;
                            lemma_num_unvalued_update(cur0, ii, cur1[ii]);
                            lemma_same_structure_wf(en, cur0);
                            assert(node_wf_at(cur0, ii));
                            assert forall|j: int|
                                0 <= j < n && has_operand(cur0[ii].op, j)
                                implies #[trigger] cur0[j].value == cur1[j].value by {
                                lemma_has_operand_bound(cur0[ii].op, ii, j);
                            }
                            lemma_computed_val_agrees(cur0, cur1, ii);
                            assert(computed_val(cur1, ii) == Some(v));
                            assert forall|i: int| 0 <= i < n implies value_ok(
                                en,
                                inputs@,
                                cur1,
                                i,
                            ) by {
                                assert(value_ok(en, inputs@, cur0, i));
                                if i == ii {
                                    assert(base_val(en, inputs@, ii) is None);
                                } else if base_val(en, inputs@, i) is None
                                    && cur1[i].value is Some {
                                    assert(cur0[i].value == cur1[i].value);
                                    assert(computed_val(cur0, i) == cur0[i].value);
                                    if has_operand(cur0[i].op, ii) {
                                        lemma_unvalued_operand_blocks(cur0, i, ii);
                                        assert(false);
                                    }
                                    assert forall|j: int|
                                        0 <= j < n && has_operand(cur0[i].op, j)
                                        implies #[trigger] cur0[j].value == cur1[j].value by {}
                                    lemma_computed_val_agrees(cur0, cur1, i);
                                }
                            }
                        }
                        let ghost cur1 = self.nodes@;
                        let ghost wl1 = worklist@;
                        proof {
                            assert forall|i: int|
                                0 <= i < n && ready_at(cur1, i) && !has_operand(
                                    cur1[i].op,
                                    idx as int,
                                ) implies wl1.contains(NodeId(i as usize)) by {
                                assert(cur0[i].value == cur1[i].value);
                                assert forall|j: int|
                                    0 <= j < n && has_operand(cur0[i].op, j)
                                    implies #[trigger] cur0[j].value == cur1[j].value by {}
                                lemma_computed_val_agrees(cur0, cur1, i);
                                assert(ready_at(cur0, i));
                                assert(wl0.contains(NodeId(i as usize)));
                                lemma_contains_after_pop(wl0, NodeId(i as usize), id);
                            }
                            assert forall|i: int|
                                0 <= i < n && visited@[i] && cur1[i].value is None
                                    && !has_operand(cur1[i].op, idx as int) implies computed_val(
                                cur1,
                                i,
                            ) is None by {
                                assert(cur0[i].value == cur1[i].value);
                                assert(computed_val(cur0, i) is None);
                                assert forall|j: int|
                                    0 <= j < n && has_operand(cur0[i].op, j)
                                    implies #[trigger] cur0[j].value == cur1[j].value by {}
                                lemma_computed_val_agrees(cur0, cur1, i);
                            }
                        }
                        // Wake every node that depends on the resolved one.
                        let mut t: usize = 0;
                        while t < n
                            invariant
                                t <= n,
                                self.nodes@ == cur1,
                                visited@.len() == n,
                                forall|q: int|
                                    0 <= q < worklist@.len() ==> (#[trigger] worklist@[q]).0 < n,
                                forall|i: int|
                                    0 <= i < t && has_operand(cur1[i].op, idx as int)
                                        ==> worklist@.contains(NodeId(i as usize)) && !visited@[i],
                                forall|i: int|
                                    0 <= i < n && ready_at(cur1, i) ==> worklist@.contains(
                                        NodeId(i as usize),
                                    ) || (has_operand(cur1[i].op, idx as int) && t <= i),
                                forall|i: int|
                                    0 <= i < n && visited@[i] && (#[trigger] cur1[i].value) is None
                                        ==> computed_val(cur1, i) is None || (has_operand(
                                        cur1[i].op,
                                        idx as int,
                                    ) && t <= i),
                            decreases n - t,
                        {
                            if self.op_mentions(t, idx) {
                                let ghost wls = worklist@;
                                worklist.push(NodeId(t));
                                visited[t] = false;
                                proof {
                                    assert forall|x: NodeId| wls.contains(x) implies
                                        worklist@.contains(x) by {
                                        let q = choose|q: int|
                                            0 <= q < wls.len() && wls[q] == x;
                                        assert(worklist@[q] == x);
                                    }
                                    assert(worklist@[worklist@.len() - 1] == NodeId(t));
                                }
                            }
                            t += 1;
                        }
                    },
                }
            }
        }
        proof {
            assert forall|i: int| 0 <= i < n implies #[trigger] node_ok(
                en,
                inputs@,
                self.nodes@,
                i,
            ) by {
                assert(value_ok(en, inputs@, self.nodes@, i));
                if base_val(en, inputs@, i) is None && self.nodes@[i].value is None {
                    if computed_val(self.nodes@, i) is Some {
                        assert(ready_at(self.nodes@, i));
                        assert(worklist@.contains(NodeId(i as usize)));
                        assert(false);
                    }
                }
            }
            lemma_same_structure_wf(en, self.nodes@);
        }
    }

    /// The value the node with the given identifier currently holds, `None`
    /// for an identifier this graph never issued.
    pub fn value_of(&self, id: NodeId) -> (r: Option<u32>)
        ensures
            r == operand_val(self.nodes@, id),
    {
        if id.0 < self.nodes.len() {
            self.nodes[id.0].value
        } else {
            None
        }
    }

    /// Attempts to compute node `idx` from the values the graph currently
    /// holds: exactly what its operation yields, `None` while an operand is
    /// still unresolved or the node is an input.
    fn compute_value(&self, idx: usize) -> (r: Option<u32>)
        requires
            idx < self.nodes@.len(),
        ensures
            r == computed_val(self.nodes@, idx as int),
    {
        let node = &self.nodes[idx];
        match &node.op {
            None => None,
            Some(Op::Const(c)) => Some(*c),
            Some(Op::Add(a, b)) => {
                let av = self.value_of(*a);
                let bv = self.value_of(*b);
                match (av, bv) {
                    (Some(x), Some(y)) => {
                        proof {
                            lemma_wrap_add_is_wrapping(x, y);
                        }
                        Some(x.wrapping_add(y))
                    },
                    _ => None,
                }
            },
            Some(Op::Mul(a, b)) => {
                let av = self.value_of(*a);
                let bv = self.value_of(*b);
                match (av, bv) {
                    (Some(x), Some(y)) => {
                        proof {
                            lemma_wrap_mul_is_wrapping(x, y);
                        }
                        Some(x.wrapping_mul(y))
                    },
                    _ => None,
                }
            },
            Some(Op::Hint(ps, h)) => {
                let ghost vs = hint_operand_vals(self.nodes@, ps@);
                let mut vals: Vec<u32> = Vec::new();
                let mut all = true;
                let mut k: usize = 0;
                while k < ps.len() && all
                    invariant
                        k <= ps@.len(),
                        vs == hint_operand_vals(self.nodes@, ps@),
                        all ==> vals@.len() == k,
                        all ==> forall|t: int|
                            0 <= t < k ==> (#[trigger] vs[t]) is Some && vals@[t] == vs[t].unwrap(),
                        !all ==> !all_resolved(vs),
                    decreases ps@.len() - k,
                {
                    match self.value_of(ps[k]) {
                        Some(v) => {
                            vals.push(v);
                        },
                        None => {
                            proof {
                                assert(vs[k as int] is None);
                            }
                            all = false;
                        },
                    }
                    k += 1;
                }
                if all {
                    proof {
                        assert(all_resolved(vs));
                        assert(vals@ =~= resolved_vals(vs));
                    }
                    Some(h.apply(vals.as_slice()))
                } else {
                    None
                }
            },
        }
    }

    /// Validates every declared equality constraint against the values the
    /// graph currently holds, in declaration order. Returns true exactly when
    /// every pair agrees; two absent values count as equal, an absent value
    /// never equals a present one. `constraint_failures` lists the pairs that
    /// disagree.
    pub fn check_constraints(&self) -> (r: bool)
        ensures
            r == all_constraints_ok(self.nodes@, self.constraints@),
    {
        let mut ok = true;
        let mut k: usize = 0;
        while k < self.constraints.len()
            invariant
                k <= self.constraints@.len(),
                ok == all_constraints_ok(self.nodes@, self.constraints@.take(k as int)),
            decreases self.constraints@.len() - k,
        {
            let c = self.constraints[k];
            let va = self.value_of(c.0);
            let vb = self.value_of(c.1);
            let same = match (va, vb) {
                (Some(x), Some(y)) => x == y,
                (None, None) => true,
                _ => false,
            };
            if !same {
                ok = false;
            }
            proof {
                let kk = k as int;
                assert(self.constraints@.take(kk + 1).drop_last() =~= self.constraints@.take(kk));
                assert forall|q: int| 0 <= q < kk + 1 && all_constraints_ok(
                    self.nodes@,
                    self.constraints@.take(kk),
                ) && same implies constraint_ok(
                    self.nodes@,
                    #[trigger] self.constraints@.take(kk + 1)[q],
                ) by {
                    if q < kk {
                        assert(constraint_ok(self.nodes@, self.constraints@.take(kk)[q]));
                    }
                }
                if !(same && all_constraints_ok(self.nodes@, self.constraints@.take(kk))) {
                    if !same {
                        assert(self.constraints@.take(kk + 1)[kk] == self.constraints@[kk]);
                        assert(!constraint_ok(self.nodes@, self.constraints@.take(kk + 1)[kk]));
                    } else {
                        let q = choose|q: int|
                            0 <= q < kk && !constraint_ok(
                                self.nodes@,
                                #[trigger] self.constraints@.take(kk)[q],
                            );
                        assert(self.constraints@.take(kk + 1)[q] == self.constraints@.take(kk)[q]);
                        assert(!constraint_ok(self.nodes@, self.constraints@.take(kk + 1)[q]));
                    }
                }
            }
            k += 1;
        }
        proof {
            assert(self.constraints@.take(self.constraints@.len() as int) =~= self.constraints@);
        }
        ok
    }

    /// The constraints that do not hold of the values the graph currently
    /// holds, in declaration order, each with the two compared values.
    pub fn constraint_failures(&self) -> (r: Vec<(NodeId, Option<u32>, NodeId, Option<u32>)>)
        ensures
            r@ == failures_of(self.nodes@, self.constraints@),
    {
        let mut r: Vec<(NodeId, Option<u32>, NodeId, Option<u32>)> = Vec::new();
        let mut k: usize = 0;
        while k < self.constraints.len()
            invariant
                k <= self.constraints@.len(),
                r@ == failures_of(self.nodes@, self.constraints@.take(k as int)),
            decreases self.constraints@.len() - k,
        {
            let c = self.constraints[k];
            let va = self.value_of(c.0);
            let vb = self.value_of(c.1);
            let same = match (va, vb) {
                (Some(x), Some(y)) => x == y,
                (None, None) => true,
                _ => false,
            };
            if !same {
                r.push((c.0, va, c.1, vb));
            }
            proof {
                let kk = k as int;
                assert(self.constraints@.take(kk + 1).drop_last() =~= self.constraints@.take(kk));
                assert(self.constraints@.take(kk + 1).last() == self.constraints@[kk]);
            }
            k += 1;
        }
        proof {
            assert(self.constraints@.take(self.constraints@.len() as int) =~= self.constraints@);
        }
        r
    }

    /// Whether node `t`'s operation lists the node `j` as an operand.
    fn op_mentions(&self, t: usize, j: usize) -> (r: bool)
        requires
            t < self.nodes@.len(),
        ensures
            r == has_operand(self.nodes@[t as int].op, j as int),
    {
        let node = &self.nodes[t];
        match &node.op {
            None => false,
            Some(Op::Const(_)) => false,
            Some(Op::Add(a, b)) => a.0 == j || b.0 == j,
            Some(Op::Mul(a, b)) => a.0 == j || b.0 == j,
            Some(Op::Hint(ps, _)) => {
                let mut found = false;
                let mut k: usize = 0;
                while k < ps.len()
                    invariant
                        k <= ps@.len(),
                        found == exists|q: int| 0 <= q < k && (#[trigger] ps@[q]).0 == j,
                    decreases ps@.len() - k,
                {
                    if ps[k].0 == j {
                        found = true;
                    }
                    k += 1;
                }
                found
            },
        }
    }
}

} // verus!
