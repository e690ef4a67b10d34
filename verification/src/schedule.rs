use vstd::prelude::*;
use crate::algorithm::Algorithm;
use crate::plan::{indices, NodeModel, plan_model, PlanNode};
use crate::plan_build::lemma_indices_push;
use crate::plan_laws::{forward, lemma_carriers_are_run, lemma_compiled_is_acyclic, runs};

verus! {

/// The evaluation order after node `node` has been asked for, when the
/// nodes in `done` have been evaluated already: nothing changes if `node`
/// is among them; otherwise its inputs are asked for one after the other
/// and `node` follows them.
pub open spec fn visit(plan: Seq<NodeModel>, node: int, done: Seq<int>) -> Seq<int>
    decreases
        plan.len() - node,
        if 0 <= node < plan.len() {
            plan[node].inputs.len() + 1
        } else {
            0
        },
{
    if 0 <= node < plan.len() && !done.contains(node) {
        visit_inputs(plan, node, 0, done).push(node)
    } else {
        done
    }
}

/// The evaluation order after the inputs of `node` from position `k` on
/// have been asked for.
pub open spec fn visit_inputs(plan: Seq<NodeModel>, node: int, k: int, done: Seq<int>) -> Seq<int>
    decreases
        plan.len() - node,
        if 0 <= node < plan.len() {
            plan[node].inputs.len() - k
        } else {
            0
        },
{
    if 0 <= node < plan.len() && 0 <= k < plan[node].inputs.len() {
        let input = plan[node].inputs[k];
        if node < input < plan.len() {
            visit_inputs(plan, node, k + 1, visit(plan, input, done))
        } else {
            visit_inputs(plan, node, k + 1, done)
        }
    } else {
        done
    }
}

/// The evaluation order after the first `k` nodes of the plan have been
/// asked for in index order.
pub open spec fn schedule_upto(plan: Seq<NodeModel>, k: int) -> Seq<int>
    decreases k,
{
    if k <= 0 {
        Seq::empty()
    } else {
        visit(plan, k - 1, schedule_upto(plan, k - 1))
    }
}

/// The order in which one block evaluates the nodes of a plan.
pub open spec fn schedule(plan: Seq<NodeModel>) -> Seq<int> {
    schedule_upto(plan, plan.len() as int)
}

/// `x` stands in `order` before position `p`.
pub open spec fn evaluated_before(order: Seq<int>, p: int, x: int) -> bool {
    exists|q: int| 0 <= q < p && q < order.len() && #[trigger] order[q] == x
}

/// `order` names nodes of the plan, names none twice, and names every
/// input of a node before the node itself.
pub open spec fn inputs_first(plan: Seq<NodeModel>, order: Seq<int>) -> bool {
    &&& forall|p: int| 0 <= p < order.len() ==> 0 <= #[trigger] order[p] < plan.len()
    &&& order.no_duplicates()
    &&& forall|p: int, j: int|
        0 <= p < order.len() && 0 <= j < plan[order[p]].inputs.len() ==> evaluated_before(
            order,
            p,
            #[trigger] plan[order[p]].inputs[j],
        )
}

/// `later` starts with `earlier`, and whatever it names beyond that is at
/// least `floor`.
pub open spec fn grows(earlier: Seq<int>, later: Seq<int>, floor: int) -> bool {
    &&& earlier.len() <= later.len()
    &&& forall|i: int| 0 <= i < earlier.len() ==> later[i] == earlier[i]
    &&& forall|i: int| earlier.len() <= i < later.len() ==> floor <= #[trigger] later[i]
}

proof fn lemma_grows_keeps(earlier: Seq<int>, later: Seq<int>, floor: int, x: int)
    requires
        grows(earlier, later, floor),
        earlier.contains(x),
    ensures
        later.contains(x),
{
    let i = choose|i: int| 0 <= i < earlier.len() && earlier[i] == x;
    assert(later[i] == x);
}

proof fn lemma_grows_new(earlier: Seq<int>, later: Seq<int>, floor: int, x: int)
    requires
        grows(earlier, later, floor),
        later.contains(x),
        x < floor,
    ensures
        earlier.contains(x),
{
    let i = choose|i: int| 0 <= i < later.len() && later[i] == x;
    if i >= earlier.len() {
        assert(floor <= later[i]);
    } else {
        assert(earlier[i] == x);
    }
}

/// Asking for a node keeps what was evaluated, evaluates the node, and
/// evaluates nothing with a smaller index; inputs stay first.
pub proof fn lemma_visit(plan: Seq<NodeModel>, node: int, done: Seq<int>)
    requires
        forward(plan),
        0 <= node < plan.len(),
        inputs_first(plan, done),
    ensures
        inputs_first(plan, visit(plan, node, done)),
        grows(done, visit(plan, node, done), node),
        visit(plan, node, done).contains(node),
    decreases plan.len() - node, plan[node].inputs.len() + 1,
{
    if !done.contains(node) {
        let below = visit_inputs(plan, node, 0, done);
        lemma_visit_inputs(plan, node, 0, done);
        let order = below.push(node);
        assert(order[below.len() as int] == node);
        if below.contains(node) {
            lemma_grows_new(done, below, node + 1, node);
        }
        assert(order.no_duplicates());
        assert forall|p: int, j: int|
            0 <= p < order.len() && 0 <= j < plan[order[p]].inputs.len() implies evaluated_before(
            order,
            p,
            #[trigger] plan[order[p]].inputs[j],
        ) by {
            let x = plan[order[p]].inputs[j];
            if p < below.len() {
                assert(order[p] == below[p]);
                assert(evaluated_before(below, p, plan[below[p]].inputs[j]));
                let q = choose|q: int| 0 <= q < p && q < below.len() && #[trigger] below[q] == x;
                assert(order[q] == x);
            } else {
                assert(below.contains(plan[node].inputs[j]));
                let q = choose|q: int| 0 <= q < below.len() && below[q] == x;
                assert(order[q] == x);
            }
        }
        assert forall|i: int| done.len() <= i < order.len() implies node <= #[trigger] order[i] by {
            if i < below.len() {
                assert(node + 1 <= below[i]);
            }
        }
    } else {
        let i = choose|i: int| 0 <= i < done.len() && done[i] == node;
        assert(done[i] == node);
    }
}

/// Asking for the inputs of a node from position `k` on keeps what was
/// evaluated, evaluates every input of the node, and evaluates nothing
/// with an index up to the node's own; inputs stay first.
pub proof fn lemma_visit_inputs(plan: Seq<NodeModel>, node: int, k: int, done: Seq<int>)
    requires
        forward(plan),
        0 <= node < plan.len(),
        0 <= k <= plan[node].inputs.len(),
        inputs_first(plan, done),
        forall|j: int| 0 <= j < k ==> done.contains(#[trigger] plan[node].inputs[j]),
    ensures
        inputs_first(plan, visit_inputs(plan, node, k, done)),
        grows(done, visit_inputs(plan, node, k, done), node + 1),
        forall|j: int|
            0 <= j < plan[node].inputs.len() ==> visit_inputs(plan, node, k, done).contains(
                #[trigger] plan[node].inputs[j],
            ),
    decreases plan.len() - node, plan[node].inputs.len() - k,
{
    if k < plan[node].inputs.len() {
        let input = plan[node].inputs[k];
        assert(node < input < plan.len());
        let next = visit(plan, input, done);
        lemma_visit(plan, input, done);
        assert forall|j: int| 0 <= j < k + 1 implies next.contains(
            #[trigger] plan[node].inputs[j],
        ) by {
            if j < k {
                lemma_grows_keeps(done, next, input, plan[node].inputs[j]);
            }
        }
        lemma_visit_inputs(plan, node, k + 1, next);
        let last = visit_inputs(plan, node, k + 1, next);
        assert forall|i: int| done.len() <= i < last.len() implies node + 1 <= #[trigger] last[i] by {
            if i < next.len() {
                assert(last[i] == next[i]);
                assert(input <= next[i]);
            }
        }
    }
}

/// After the first `k` nodes have been asked for, each of them has been
/// evaluated and inputs are first.
pub proof fn lemma_schedule_upto(plan: Seq<NodeModel>, k: int)
    requires
        forward(plan),
        0 <= k <= plan.len(),
    ensures
        inputs_first(plan, schedule_upto(plan, k)),
        forall|i: int| 0 <= i < k ==> schedule_upto(plan, k).contains(i),
    decreases k,
{
    if k > 0 {
        lemma_schedule_upto(plan, k - 1);
        let before = schedule_upto(plan, k - 1);
        lemma_visit(plan, k - 1, before);
        let now = visit(plan, k - 1, before);
        assert forall|i: int| 0 <= i < k implies now.contains(i) by {
            if i < k - 1 {
                lemma_grows_keeps(before, now, k - 1, i);
            }
        }
    }
}

/// The evaluation order of a plan without cycles names every node of the
/// plan exactly once and names every input of a node before the node
/// itself.
pub proof fn lemma_schedule_is_topological(plan: Seq<NodeModel>)
    requires
        forward(plan),
    ensures
        inputs_first(plan, schedule(plan)),
        schedule(plan).len() == plan.len(),
        forall|i: int| 0 <= i < plan.len() ==> schedule(plan).contains(i),
{
    lemma_schedule_upto(plan, plan.len() as int);
    let order = schedule(plan);
    let all = Set::new(|i: int| 0 <= i < plan.len());
    assert(order.to_set() =~= all) by {
        assert forall|x: int| order.to_set().contains(x) <==> all.contains(x) by {
            if order.to_set().contains(x) {
                let p = choose|p: int| 0 <= p < order.len() && order[p] == x;
                assert(0 <= order[p] < plan.len());
            }
            if all.contains(x) {
                assert(order.contains(x));
            }
        }
    }
    order.unique_seq_to_set();
    vstd::set_lib::lemma_int_range(0, plan.len() as int);
    assert(all =~= vstd::set_lib::set_int_range(0, plan.len() as int));
}

/// The flags mark exactly the nodes named in `done`.
pub open spec fn marks(visited: Seq<bool>, done: Seq<int>) -> bool {
    forall|i: int| 0 <= i < visited.len() ==> #[trigger] visited[i] == done.contains(i)
}

/// Asks for node `node_idx`: unless it is marked, its inputs are asked
/// for, then the node is appended to `order` and marked.
fn evaluate_node_recursive(
    plan: &Vec<PlanNode>,
    node_idx: usize,
    visited: &mut Vec<bool>,
    order: &mut Vec<usize>,
)
    requires
        forward(plan_model(plan@)),
        node_idx < plan.len(),
        old(visited).len() == plan.len(),
        marks(old(visited)@, indices(old(order)@)),
    ensures
        final(visited).len() == plan.len(),
        marks(final(visited)@, indices(final(order)@)),
        indices(final(order)@) == visit(
            plan_model(plan@),
            node_idx as int,
            indices(old(order)@),
        ),
    decreases plan.len() - node_idx,
{
    let ghost pm = plan_model(plan@);
    let ghost done = indices(order@);
    if visited[node_idx] {
        return ;
    }
    let inputs = &plan[node_idx].inputs;
    proof {
        assert(pm[node_idx as int].inputs == indices(inputs@));
    }
    let mut k: usize = 0;
    while k < inputs.len()
        invariant
            k <= inputs.len(),
            node_idx < plan.len(),
            pm == plan_model(plan@),
            forward(pm),
            pm[node_idx as int].inputs == indices(inputs@),
            visited.len() == plan.len(),
            marks(visited@, indices(order@)),
            visit_inputs(pm, node_idx as int, k as int, indices(order@)) == visit_inputs(
                pm,
                node_idx as int,
                0,
                done,
            ),
        decreases inputs.len() - k,
    {
        let input_idx = inputs[k];
        proof {
            assert(pm[node_idx as int].inputs[k as int] == input_idx as int);
            assert(node_idx < input_idx < plan.len());
        }
        evaluate_node_recursive(plan, input_idx, visited, order);
        k += 1;
    }
    let ghost below = indices(order@);
    let ghost flags = visited@;
    let ghost named = order@;
    visited.set(node_idx, true);
    order.push(node_idx);
    proof {
        lemma_indices_push(named, node_idx);
        assert forall|i: int| 0 <= i < visited@.len() implies #[trigger] visited@[i] == indices(
            order@,
        ).contains(i) by {
            if i == node_idx {
                assert(indices(order@)[below.len() as int] == i);
            } else {
                assert(visited@[i] == flags[i]);
                if below.contains(i) {
                    let q = choose|q: int| 0 <= q < below.len() && below[q] == i;
                    assert(indices(order@)[q] == i);
                }
                if indices(order@).contains(i) {
                    let q = choose|q: int|
                        0 <= q < indices(order@).len() && indices(order@)[q] == i;
                    assert(below[q] == i);
                }
            }
        }
    }
}

/// The first node of the plan that runs operator `op`, if any node does.
pub open spec fn first_node_of(plan: Seq<NodeModel>, op: int, node: int) -> bool {
    &&& 0 <= node < plan.len()
    &&& plan[node].op_index == op
    &&& forall|i: int| 0 <= i < node ==> (#[trigger] plan[i]).op_index != op
}

impl Algorithm {
    /// The order in which one block evaluates the nodes of the plan. Every
    /// node is named once, after all of its inputs.
    pub fn evaluation_order(&self) -> (order: Vec<usize>)
        requires
            self.wf(),
        ensures
            indices(order@) == schedule(self@.plan),
            inputs_first(self@.plan, indices(order@)),
            order@.len() == self@.plan.len(),
    {
        let plan = self.get_plan();
        let ghost pm = plan_model(plan@);
        proof {
            lemma_compiled_is_acyclic(self@.connections, indices(self@.carriers), self@.rules);
            lemma_schedule_is_topological(pm);
        }
        let n = plan.len();
        let mut visited: Vec<bool> = Vec::new();
        let mut i: usize = 0;
        while i < n
            invariant
                i <= n,
                visited.len() == i,
                forall|k: int| 0 <= k < i ==> !(#[trigger] visited@[k]),
            decreases n - i,
        {
            visited.push(false);
            i += 1;
        }
        let mut order: Vec<usize> = Vec::new();
        let mut node_idx: usize = 0;
        proof {
            assert(indices(order@) =~= Seq::<int>::empty());
        }
        while node_idx < n
            invariant
                node_idx <= n,
                n == plan.len(),
                pm == plan_model(plan@),
                forward(pm),
                visited.len() == n,
                marks(visited@, indices(order@)),
                indices(order@) == schedule_upto(pm, node_idx as int),
            decreases n - node_idx,
        {
            evaluate_node_recursive(plan, node_idx, &mut visited, &mut order);
            node_idx += 1;
        }
        proof {
            assert(pm.len() == n);
            assert(indices(order@).len() == order@.len());
        }
        order
    }

    /// For every carrier, in the order of the carrier list, the first node
    /// of the plan that runs it. The outputs of these nodes are what is
    /// heard.
    pub fn carrier_nodes(&self) -> (outputs: Vec<usize>)
        requires
            self.wf(),
        ensures
            outputs@.len() == self@.carriers.len(),
            forall|k: int|
                0 <= k < outputs@.len() ==> first_node_of(
                    self@.plan,
                    self@.carriers[k] as int,
                    #[trigger] outputs@[k] as int,
                ),
    {
        let plan = self.get_plan();
        let carriers = self.get_carrier_indices();
        let ghost pm = plan_model(plan@);
        let mut outputs: Vec<usize> = Vec::new();
        let mut k: usize = 0;
        while k < carriers.len()
            invariant
                k <= carriers.len(),
                self.wf(),
                carriers@ == self@.carriers,
                pm == plan_model(plan@),
                pm == self@.plan,
                outputs@.len() == k,
                forall|i: int|
                    0 <= i < k ==> first_node_of(pm, carriers@[i] as int, #[trigger] outputs@[i] as int),
            decreases carriers.len() - k,
        {
            let carrier = carriers[k];
            proof {
                assert(indices(carriers@)[k as int] == carrier as int);
                lemma_carriers_are_run(
                    self@.connections,
                    indices(self@.carriers),
                    self@.rules,
                    k as int,
                );
                assert(runs(pm, carrier as int));
            }
            let mut node_idx: usize = 0;
            while plan[node_idx].op_index != carrier
                invariant
                    node_idx < plan.len(),
                    pm == plan_model(plan@),
                    runs(pm, carrier as int),
                    forall|i: int| 0 <= i < node_idx ==> (#[trigger] pm[i]).op_index != carrier,
                decreases plan.len() - node_idx,
            {
                proof {
                    assert(pm[node_idx as int].op_index != carrier);
                    let w = choose|w: int| 0 <= w < pm.len() && (#[trigger] pm[w]).op_index == carrier;
                    assert(w > node_idx);
                }
                node_idx += 1;
            }
            proof {
                assert(pm[node_idx as int].op_index == carrier);
            }
            outputs.push(node_idx);
            k += 1;
        }
        outputs
    }
}

} // verus!
