use vstd::prelude::*;
use std::collections::HashMap;
use crate::plan::{
    AlgorithmError, apply_rules, attach, carriers_below, compiled, connected, feed_back,
    feed_back_once, FeedbackLoop, Graph, identity_table, indices, inputs_order, largest,
    lemma_slack_decreases, MAX_CYCLE_DEPTH, NodeModel, occurrences, plan_model, PlanNode,
    record_copies, refusal, relinked, slack, square, subgraph_order, table_model, unroll,
    unroll_carriers, unroll_sources,
};
use crate::plan_laws::{
    closed_order, copied_after, forward, graph_ok, lemma_apply_rules, lemma_carriers_are_run,
    lemma_compiled_is_acyclic, lemma_feed_back, lemma_record_copies, lemma_subgraph_order,
    lemma_unroll_carriers_shape, operators_below, runs,
};

verus! {

/// Reading indices as integers commutes with appending one.
pub proof fn lemma_indices_push(s: Seq<usize>, x: usize)
    ensures
        indices(s.push(x)) == indices(s).push(x as int),
{
    assert(indices(s.push(x)) =~= indices(s).push(x as int));
}

/// Taking the model of a plan commutes with appending a node.
pub proof fn lemma_plan_model_push(nodes: Seq<PlanNode>, node: PlanNode)
    ensures
        plan_model(nodes.push(node)) == plan_model(nodes).push(node@),
{
    assert(plan_model(nodes.push(node)) =~= plan_model(nodes).push(node@));
}

/// Counts how often `op` occurs in `path`.
fn count_on_path(path: &Vec<usize>, op: usize) -> (count: usize)
    ensures
        count == occurrences(indices(path@), op as int),
{
    let mut count: usize = 0;
    let mut i: usize = 0;
    while i < path.len()
        invariant
            i <= path.len(),
            count <= i,
            count == occurrences(indices(path@).take(i as int), op as int),
        decreases path.len() - i,
    {
        proof {
            let next = indices(path@).take(i + 1);
            assert(next.drop_last() =~= indices(path@).take(i as int));
            assert(next.last() == path@[i as int] as int);
        }
        if path[i] == op {
            count += 1;
        }
        i += 1;
    }
    proof {
        assert(indices(path@).take(path.len() as int) =~= indices(path@));
    }
    count
}

/// Visits operator `target_op_idx` depth first and appends the nodes of
/// the visit to `nodes`. Returns the index of the node created for the
/// operator itself, or `None` when the operator has used up its allowance
/// on the current path.
fn build_node_recursive(
    matrix: &Vec<Vec<bool>>,
    target_op_idx: usize,
    nodes: &mut Vec<PlanNode>,
    visited_path: &mut Vec<usize>,
) -> (root: Option<usize>)
    requires
        square(table_model(matrix@)),
        target_op_idx < matrix.len(),
    ensures
        final(visited_path)@ == old(visited_path)@,
        plan_model(final(nodes)@) == plan_model(old(nodes)@) + unroll(
            table_model(matrix@),
            target_op_idx as int,
            indices(old(visited_path)@),
            old(nodes).len() as int,
        ),
        root == if occurrences(indices(old(visited_path)@), target_op_idx as int)
            < MAX_CYCLE_DEPTH {
            Some(old(nodes).len())
        } else {
            None
        },
    decreases slack(indices(old(visited_path)@), matrix.len() as int),
{
    let ghost conn = table_model(matrix@);
    let ghost path = indices(visited_path@);
    let ghost before = plan_model(nodes@);
    let cycle_count = count_on_path(visited_path, target_op_idx);
    if cycle_count >= MAX_CYCLE_DEPTH {
        proof {
            assert(before + Seq::<NodeModel>::empty() =~= before);
        }
        return None;
    }
    visited_path.push(target_op_idx);
    let current_node_idx = nodes.len();
    nodes.push(PlanNode { op_index: target_op_idx, inputs: Vec::new() });
    let mut input_indices: Vec<usize> = Vec::new();
    let n = matrix.len();
    let ghost deeper = path.push(target_op_idx as int);
    let ghost whole = unroll_sources(conn, target_op_idx as int, deeper, 0, current_node_idx + 1);
    proof {
        lemma_indices_push(old(visited_path)@, target_op_idx);
        lemma_slack_decreases(path, target_op_idx as int, n as int);
        lemma_plan_model_push(old(nodes)@, nodes@[current_node_idx as int]);
        assert(plan_model(nodes@).skip(current_node_idx + 1) =~= Seq::<NodeModel>::empty());
        assert(plan_model(nodes@).take(current_node_idx as int) =~= before);
        assert(indices(input_indices@) =~= Seq::<int>::empty());
        assert(Seq::<NodeModel>::empty() + whole.nodes =~= whole.nodes);
        assert(Seq::<int>::empty() + whole.roots =~= whole.roots);
    }
    let mut source_idx: usize = 0;
    while source_idx < n
        invariant
            source_idx <= n,
            n == matrix.len(),
            conn == table_model(matrix@),
            square(conn),
            target_op_idx < n,
            deeper == path.push(target_op_idx as int),
            indices(visited_path@) == deeper,
            visited_path@ == old(visited_path)@.push(target_op_idx),
            slack(deeper, n as int) < slack(path, n as int),
            path == indices(old(visited_path)@),
            nodes.len() > current_node_idx,
            plan_model(nodes@).take(current_node_idx as int) == before,
            whole == unroll_sources(conn, target_op_idx as int, deeper, 0, current_node_idx + 1),
            whole.nodes == plan_model(nodes@).skip(current_node_idx + 1) + unroll_sources(
                conn,
                target_op_idx as int,
                deeper,
                source_idx as int,
                nodes.len() as int,
            ).nodes,
            whole.roots == indices(input_indices@) + unroll_sources(
                conn,
                target_op_idx as int,
                deeper,
                source_idx as int,
                nodes.len() as int,
            ).roots,
        decreases n - source_idx,
    {
        let ghost at = nodes.len() as int;
        let ghost so_far = plan_model(nodes@);
        let ghost here = unroll_sources(conn, target_op_idx as int, deeper, source_idx as int, at);
        proof {
            assert(conn[source_idx as int] == matrix@[source_idx as int]@);
            assert(conn[source_idx as int].len() == n);
        }
        if matrix[source_idx][target_op_idx] {
            let ghost first = unroll(conn, source_idx as int, deeper, at);
            let ghost rest = unroll_sources(
                conn,
                target_op_idx as int,
                deeper,
                source_idx + 1,
                at + first.len(),
            );
            let ghost roots_so_far = indices(input_indices@);
            assert(connected(conn, source_idx as int, target_op_idx as int));
            let input = build_node_recursive(matrix, source_idx, nodes, visited_path);
            proof {
                assert(plan_model(nodes@) == so_far + first);
                assert(plan_model(nodes@).take(current_node_idx as int) =~= so_far.take(
                    current_node_idx as int,
                ));
                assert(plan_model(nodes@).skip(current_node_idx + 1) + rest.nodes =~= so_far.skip(
                    current_node_idx + 1,
                ) + (first + rest.nodes));
                assert(nodes.len() == at + first.len()) by {
                    assert(plan_model(nodes@).len() == nodes@.len());
                    assert(so_far.len() == at);
                }
            }
            match input {
                Some(input_node_idx) => {
                    let ghost roots_before = input_indices@;
                    input_indices.push(input_node_idx);
                    proof {
                        lemma_indices_push(roots_before, input_node_idx);
                        assert(first.len() > 0);
                        assert(indices(input_indices@) + rest.roots =~= roots_so_far + (seq![at]
                            + rest.roots));
                    }
                },
                None => {
                    proof {
                        assert(first.len() == 0);
                    }
                },
            }
        }
        source_idx += 1;
    }
    let ghost filled = plan_model(nodes@);
    nodes.set(current_node_idx, PlanNode { op_index: target_op_idx, inputs: input_indices });
    visited_path.pop();
    proof {
        let below = unroll_sources(conn, target_op_idx as int, deeper, n as int, filled.len() as int);
        assert(whole.nodes =~= filled.skip(current_node_idx + 1));
        assert(whole.roots =~= indices(input_indices@));
        assert(visited_path@ =~= old(visited_path)@);
        let made = unroll(conn, target_op_idx as int, path, current_node_idx as int);
        assert(made == seq![NodeModel { op_index: target_op_idx as int, inputs: whole.roots }]
            + whole.nodes);
        assert(plan_model(nodes@) =~= before + made);
    }
    Some(current_node_idx)
}

/// The index table held by a hash map, read over the integers.
pub open spec fn live_model(table: Map<usize, usize>) -> Map<int, int> {
    Map::new(
        |k: int| 0 <= k <= usize::MAX && table.contains_key(k as usize),
        |k: int| table[k as usize] as int,
    )
}

/// Reading an index table over the integers commutes with inserting an
/// entry.
pub proof fn lemma_live_model_insert(table: Map<usize, usize>, k: usize, v: usize)
    ensures
        live_model(table.insert(k, v)) == live_model(table).insert(k as int, v as int),
{
    assert(live_model(table.insert(k, v)) =~= live_model(table).insert(k as int, v as int));
}

/// A copy of a list of plan indices.
fn copy_indices(list: &Vec<usize>) -> (copy: Vec<usize>)
    ensures
        copy@ == list@,
{
    let mut copy: Vec<usize> = Vec::new();
    let mut i: usize = 0;
    while i < list.len()
        invariant
            i <= list.len(),
            copy@ == list@.take(i as int),
        decreases list.len() - i,
    {
        copy.push(list[i]);
        proof {
            assert(list@.take(i + 1) =~= list@.take(i as int).push(list@[i as int]));
        }
        i += 1;
    }
    proof {
        assert(list@.take(list.len() as int) =~= list@);
    }
    copy
}

/// A copy of a plan.
fn copy_plan(nodes: &Vec<PlanNode>) -> (copy: Vec<PlanNode>)
    ensures
        plan_model(copy@) == plan_model(nodes@),
{
    let mut copy: Vec<PlanNode> = Vec::new();
    let mut i: usize = 0;
    while i < nodes.len()
        invariant
            i <= nodes.len(),
            plan_model(copy@) == plan_model(nodes@).take(i as int),
        decreases nodes.len() - i,
    {
        let ghost before = copy@;
        let node = PlanNode { op_index: nodes[i].op_index, inputs: copy_indices(&nodes[i].inputs) };
        copy.push(node);
        proof {
            lemma_plan_model_push(before, node);
            assert(plan_model(nodes@).take(i + 1) =~= plan_model(nodes@).take(i as int).push(
                nodes@[i as int]@,
            ));
        }
        i += 1;
    }
    proof {
        assert(plan_model(nodes@).take(nodes.len() as int) =~= plan_model(nodes@));
    }
    copy
}

/// Appends to `order` the entries of `base` reachable from `root`, in the
/// order in which a duplication pass copies them.
fn collect_subgraph(base: &Vec<PlanNode>, root: usize, order: &mut Vec<usize>)
    requires
        forward(plan_model(base@)),
        root < base.len(),
    ensures
        indices(final(order)@) == indices(old(order)@) + subgraph_order(
            plan_model(base@),
            root as int,
        ),
    decreases base.len() - root,
{
    let ghost bm = plan_model(base@);
    let ghost start = indices(order@);
    order.push(root);
    let inputs = &base[root].inputs;
    let mut k: usize = inputs.len();
    proof {
        lemma_indices_push(old(order)@, root);
        assert(bm[root as int].inputs == indices(inputs@));
        assert(start.push(root as int) + inputs_order(bm, root as int, k as int) =~= start
            + subgraph_order(bm, root as int));
    }
    while k > 0
        invariant
            k <= inputs.len(),
            root < base.len(),
            bm == plan_model(base@),
            forward(bm),
            bm[root as int].inputs == indices(inputs@),
            indices(order@) + inputs_order(bm, root as int, k as int) == start + subgraph_order(
                bm,
                root as int,
            ),
        decreases k,
    {
        let input = inputs[k - 1];
        let ghost so_far = indices(order@);
        proof {
            assert(bm[root as int].inputs[k - 1] == input as int);
            assert(root < input < base.len());
        }
        collect_subgraph(base, input, order);
        proof {
            assert(indices(order@) + inputs_order(bm, root as int, k - 1) =~= so_far
                + inputs_order(bm, root as int, k as int));
        }
        k -= 1;
    }
    proof {
        assert(indices(order@) + Seq::<int>::empty() =~= indices(order@));
    }
}

/// A copy of base entry `copied` whose inputs have not been linked yet.
pub open spec fn unlinked(base: Seq<NodeModel>, copied: int) -> NodeModel {
    NodeModel { op_index: base[copied].op_index, inputs: Seq::empty() }
}

/// The plan and index table held by the two containers of a build.
pub open spec fn graph_model(nodes: Seq<PlanNode>, live: Map<usize, usize>) -> Graph {
    Graph { nodes: plan_model(nodes), live: live_model(live) }
}

/// Looks up the most recent copy of base entry `copied`.
fn current_index(live: &HashMap<usize, usize>, copied: usize) -> (index: usize)
    requires
        live@.contains_key(copied),
    ensures
        index == live@[copied],
{
    broadcast use vstd::std_specs::hash::group_hash_axioms;

    let found = live.get(&copied);
    *found.unwrap()
}

/// The inputs of base entry `copied`, each redirected to the most recent
/// copy of the entry it names.
fn relink_inputs(base: &Vec<PlanNode>, copied: usize, live: &HashMap<usize, usize>) -> (linked:
    Vec<usize>)
    requires
        copied < base.len(),
        forall|j: int|
            0 <= j < base@[copied as int].inputs@.len() ==> live@.contains_key(
                #[trigger] base@[copied as int].inputs@[j],
            ),
    ensures
        indices(linked@) == relinked(
            plan_model(base@),
            live_model(live@),
            copied as int,
        ).inputs,
{
    let source = &base[copied].inputs;
    let ghost wanted = relinked(plan_model(base@), live_model(live@), copied as int).inputs;
    let mut linked: Vec<usize> = Vec::new();
    let mut j: usize = 0;
    while j < source.len()
        invariant
            j <= source.len(),
            copied < base.len(),
            source@ == base@[copied as int].inputs@,
            wanted == relinked(plan_model(base@), live_model(live@), copied as int).inputs,
            forall|i: int| 0 <= i < source@.len() ==> live@.contains_key(#[trigger] source@[i]),
            indices(linked@) == wanted.take(j as int),
        decreases source.len() - j,
    {
        let ghost before = linked@;
        let mapped = current_index(live, source[j]);
        linked.push(mapped);
        proof {
            lemma_indices_push(before, mapped);
            assert(wanted[j as int] == live_model(live@)[source@[j as int] as int]);
            assert(wanted.take(j + 1) =~= wanted.take(j as int).push(mapped as int));
        }
        j += 1;
    }
    proof {
        assert(wanted.take(source.len() as int) =~= wanted);
    }
    linked
}

/// One duplication pass of a feedback rule.
fn duplicate_once(
    base: &Vec<PlanNode>,
    from_node: usize,
    to_node: usize,
    nodes: &mut Vec<PlanNode>,
    live: &mut HashMap<usize, usize>,
    Ghost(n): Ghost<int>,
)
    requires
        forward(plan_model(base@)),
        operators_below(plan_model(base@), n),
        graph_ok(plan_model(base@), graph_model(old(nodes)@, old(live)@), n),
        from_node < base.len(),
        to_node < base.len(),
    ensures
        graph_model(final(nodes)@, final(live)@) == feed_back_once(
            plan_model(base@),
            graph_model(old(nodes)@, old(live)@),
            from_node as int,
            to_node as int,
        ),
{
    broadcast use vstd::std_specs::hash::group_hash_axioms;

    let ghost bm = plan_model(base@);
    let ghost g = graph_model(nodes@, live@);
    proof {
        assert(g.live.contains_key(from_node as int));
    }
    let target = current_index(live, from_node);
    let at = nodes.len();
    let mut order: Vec<usize> = Vec::new();
    collect_subgraph(base, to_node, &mut order);
    let ghost ord = indices(order@);
    proof {
        assert(Seq::<int>::empty() + subgraph_order(bm, to_node as int) =~= subgraph_order(
            bm,
            to_node as int,
        ));
        assert(indices(Seq::<usize>::empty()) =~= Seq::<int>::empty());
        assert(ord == subgraph_order(bm, to_node as int));
        lemma_subgraph_order(bm, to_node as int);
        assert(g.nodes + Seq::new(0, |q: int| unlinked(bm, ord[q])) =~= g.nodes);
    }
    let mut p: usize = 0;
    while p < order.len()
        invariant
            p <= order.len(),
            ord == indices(order@),
            bm == plan_model(base@),
            closed_order(bm, ord),
            nodes.len() == at + p,
            live_model(live@) == record_copies(g.live, ord, at as int, p as int),
            plan_model(nodes@) == g.nodes + Seq::new(p as nat, |q: int| unlinked(bm, ord[q])),
        decreases order.len() - p,
    {
        let copied = order[p];
        let ghost nodes_before = nodes@;
        let ghost live_before = live@;
        proof {
            assert(ord[p as int] == copied as int);
            assert(0 <= ord[p as int] < bm.len());
        }
        let new_idx = nodes.len();
        let blank = PlanNode { op_index: base[copied].op_index, inputs: Vec::new() };
        nodes.push(blank);
        live.insert(copied, new_idx);
        proof {
            lemma_plan_model_push(nodes_before, blank);
            lemma_live_model_insert(live_before, copied, new_idx);
            assert(indices(blank.inputs@) =~= Seq::<int>::empty());
            assert(blank@ == unlinked(bm, ord[p as int]));
            assert(g.nodes + Seq::new((p + 1) as nat, |q: int| unlinked(bm, ord[q])) =~= (g.nodes
                + Seq::new(p as nat, |q: int| unlinked(bm, ord[q]))).push(blank@));
        }
        p += 1;
    }
    let ghost lm = live_model(live@);
    proof {
        lemma_record_copies(g.live, ord, at as int, ord.len() as int);
        assert(g.nodes + Seq::new(
            ord.len(),
            |q: int|
                if q < 0 {
                    relinked(bm, lm, ord[q])
                } else {
                    unlinked(bm, ord[q])
                },
        ) =~= g.nodes + Seq::new(ord.len(), |q: int| unlinked(bm, ord[q])));
    }
    let mut p: usize = 0;
    while p < order.len()
        invariant
            p <= order.len(),
            ord == indices(order@),
            bm == plan_model(base@),
            closed_order(bm, ord),
            nodes.len() == at + order.len(),
            lm == live_model(live@),
            lm == record_copies(g.live, ord, at as int, ord.len() as int),
            forall|q: int| 0 <= q < ord.len() ==> lm.contains_key(#[trigger] ord[q]),
            plan_model(nodes@) == g.nodes + Seq::new(
                ord.len(),
                |q: int|
                    if q < p {
                        relinked(bm, lm, ord[q])
                    } else {
                        unlinked(bm, ord[q])
                    },
            ),
        decreases order.len() - p,
    {
        let copied = order[p];
        let ghost nodes_before = nodes@;
        proof {
            assert(ord[p as int] == copied as int);
            assert(0 <= ord[p as int] < bm.len());
            assert(bm[copied as int].inputs == indices(base@[copied as int].inputs@));
            assert forall|j: int|
                0 <= j < base@[copied as int].inputs@.len() implies live@.contains_key(
                #[trigger] base@[copied as int].inputs@[j],
            ) by {
                let x = bm[ord[p as int]].inputs[j];
                assert(x == base@[copied as int].inputs@[j] as int);
                assert(copied_after(ord, p as int, x));
                let q = choose|q: int| p < q < ord.len() && #[trigger] ord[q] == x;
                assert(lm.contains_key(ord[q]));
            }
        }
        let linked = relink_inputs(base, copied, live);
        let copy = PlanNode { op_index: base[copied].op_index, inputs: linked };
        nodes.set(at + p, copy);
        proof {
            assert(copy@ == relinked(bm, lm, ord[p as int]));
            assert(plan_model(nodes@) =~= plan_model(nodes_before).update(at + p, copy@));
            assert(plan_model(nodes@) =~= g.nodes + Seq::new(
                ord.len(),
                |q: int|
                    if q < p + 1 {
                        relinked(bm, lm, ord[q])
                    } else {
                        unlinked(bm, ord[q])
                    },
            ));
        }
        p += 1;
    }
    let ghost copies = Seq::new(ord.len(), |q: int| relinked(bm, lm, ord[q]));
    proof {
        assert(plan_model(nodes@) =~= g.nodes + copies);
        assert(0 <= g.live[from_node as int] < g.nodes.len());
    }
    let ghost nodes_before = nodes@;
    let mut extended = copy_indices(&nodes[target].inputs);
    extended.push(at);
    let grown = PlanNode { op_index: nodes[target].op_index, inputs: extended };
    nodes.set(target, grown);
    proof {
        lemma_indices_push(nodes_before[target as int].inputs@, at);
        assert(plan_model(nodes_before)[target as int] == g.nodes[target as int]);
        assert(grown@ == attach(g.nodes, target as int, at as int)[target as int]);
        assert(plan_model(nodes@) =~= plan_model(nodes_before).update(target as int, grown@));
        assert((g.nodes + copies).update(target as int, grown@) =~= g.nodes.update(
            target as int,
            grown@,
        ) + copies);
        assert(attach(g.nodes, target as int, at as int) =~= g.nodes.update(
            target as int,
            grown@,
        ));
        assert(plan_model(nodes@) =~= attach(g.nodes, target as int, at as int) + copies);
        assert(live_model(live@) =~= lm);
    }
}


/// The largest element of a non-empty list is one of its elements.
pub proof fn lemma_largest_is_member(s: Seq<usize>)
    requires
        s.len() > 0,
    ensures
        s.contains(largest(s)),
    decreases s.len(),
{
    if s.last() >= largest(s.drop_last()) {
        assert(s[s.len() - 1] == s.last());
    } else {
        lemma_largest_is_member(s.drop_last());
        let i = choose|i: int| 0 <= i < s.drop_last().len() && s.drop_last()[i] == largest(
            s.drop_last(),
        );
        assert(s[i] == largest(s));
    }
}
/// Whether every row of `matrix` is as long as the table has rows.
pub fn is_square(matrix: &Vec<Vec<bool>>) -> (ok: bool)
    ensures
        ok == square(table_model(matrix@)),
{
    let n = matrix.len();
    let mut i: usize = 0;
    while i < n
        invariant
            i <= n,
            n == matrix.len(),
            forall|r: int| 0 <= r < i ==> (#[trigger] table_model(matrix@)[r]).len() == n,
        decreases n - i,
    {
        if matrix[i].len() != n {
            proof {
                assert(table_model(matrix@)[i as int].len() != n);
            }
            return false;
        }
        i += 1;
    }
    true
}

/// The largest carrier of the list, or zero for an empty list.
pub fn largest_carrier(carriers: &Vec<usize>) -> (max: usize)
    ensures
        max == largest(carriers@),
        forall|i: int| 0 <= i < carriers@.len() ==> carriers@[i] <= max,
{
    let mut max: usize = 0;
    let mut i: usize = 0;
    while i < carriers.len()
        invariant
            i <= carriers.len(),
            max == largest(carriers@.take(i as int)),
            forall|k: int| 0 <= k < i ==> carriers@[k] <= max,
        decreases carriers.len() - i,
    {
        proof {
            assert(carriers@.take(i + 1).drop_last() =~= carriers@.take(i as int));
        }
        if carriers[i] >= max {
            max = carriers[i];
        }
        i += 1;
    }
    proof {
        assert(carriers@.take(carriers.len() as int) =~= carriers@);
    }
    max
}

/// Compiles a connectivity table, a carrier list and a list of feedback
/// rules into an evaluation plan.
///
/// The table must be square and every carrier must name one of its
/// operators; otherwise nothing is compiled and the reason is returned. A
/// feedback rule that names an entry outside the plan unrolled from the
/// carriers is skipped.
pub fn build_unrolled_graph(
    matrix: &Vec<Vec<bool>>,
    carriers: &Vec<usize>,
    feedback_loops: &Vec<FeedbackLoop>,
) -> (result: Result<Vec<PlanNode>, AlgorithmError>)
    ensures
        match refusal(table_model(matrix@), carriers@) {
            Some(reason) => result == Err::<Vec<PlanNode>, AlgorithmError>(reason),
            None => result is Ok && plan_model(result->Ok_0@) == compiled(
                table_model(matrix@),
                indices(carriers@),
                feedback_loops@,
            ),
        },
        result is Ok ==> forward(plan_model(result->Ok_0@)) && operators_below(
            plan_model(result->Ok_0@),
            matrix@.len() as int,
        ),
        result is Ok ==> forall|m: int|
            0 <= m < carriers@.len() ==> runs(
                plan_model(result->Ok_0@),
                #[trigger] carriers@[m] as int,
            ),
{
    broadcast use vstd::std_specs::hash::group_hash_axioms;

    let ghost conn = table_model(matrix@);
    let ghost wanted = indices(carriers@);
    let n = matrix.len();
    if !is_square(matrix) {
        return Err(AlgorithmError::MatrixNotSquare);
    }
    let max_carrier = largest_carrier(carriers);
    if carriers.len() > 0 && max_carrier >= n {
        proof {
            if carriers_below(carriers@, n as int) {
                lemma_largest_is_member(carriers@);
            }
        }
        return Err(AlgorithmError::CarrierOutOfBounds { carrier: max_carrier, operators: n });
    }
    let mut nodes: Vec<PlanNode> = Vec::new();
    let mut root_node_indices: HashMap<usize, usize> = HashMap::new();
    let mut c: usize = 0;
    proof {
        assert(plan_model(nodes@) =~= Seq::<NodeModel>::empty());
    }
    while c < carriers.len()
        invariant
            c <= carriers.len(),
            n == matrix.len(),
            conn == table_model(matrix@),
            wanted == indices(carriers@),
            square(conn),
            carriers_below(carriers@, n as int),
            plan_model(nodes@) == unroll_carriers(conn, wanted, c as int),
            forall|op: usize|
                root_node_indices@.contains_key(op) <==> wanted.take(c as int).contains(op as int),
        decreases carriers.len() - c,
    {
        let op_idx = carriers[c];
        let ghost seen = wanted.take(c as int);
        proof {
            assert(wanted[c as int] == op_idx as int);
            assert(wanted.take(c + 1) =~= seen.push(op_idx as int));
        }
        if !root_node_indices.contains_key(&op_idx) {
            let mut visited_path: Vec<usize> = Vec::new();
            proof {
                assert(indices(visited_path@) =~= Seq::<int>::empty());
            }
            let root = build_node_recursive(matrix, op_idx, &mut nodes, &mut visited_path);
            match root {
                Some(root_node_idx) => {
                    root_node_indices.insert(op_idx, root_node_idx);
                },
                None => {
                    proof {
                        assert(occurrences(Seq::<int>::empty(), op_idx as int) == 0);
                    }
                },
            }
        }
        proof {
            assert forall|op: usize|
                root_node_indices@.contains_key(op) <==> wanted.take(c + 1).contains(
                    op as int,
                ) by {
                let now = wanted.take(c + 1);
                if now.contains(op as int) {
                    let i = choose|i: int| 0 <= i < now.len() && #[trigger] now[i] == op as int;
                    if i < c {
                        assert(seen[i] == op as int);
                    }
                }
                if seen.contains(op as int) {
                    let i = choose|i: int| 0 <= i < seen.len() && #[trigger] seen[i] == op as int;
                    assert(now[i] == op as int);
                }
                if op == op_idx {
                    assert(now[c as int] == op as int);
                }
            }
        }
        c += 1;
    }
    let initial_nodes = copy_plan(&nodes);
    let ghost bm = plan_model(initial_nodes@);
    let initial_len = initial_nodes.len();
    proof {
        assert(bm.len() == initial_nodes@.len());
        assert(plan_model(nodes@).len() == nodes@.len());
        lemma_unroll_carriers_shape(conn, wanted, wanted.len() as int);
    }
    let mut node_index_mapping: HashMap<usize, usize> = HashMap::new();
    let mut i: usize = 0;
    proof {
        assert(live_model(node_index_mapping@) =~= identity_table(0));
    }
    while i < initial_len
        invariant
            i <= initial_len,
            live_model(node_index_mapping@) == identity_table(i as int),
        decreases initial_len - i,
    {
        let ghost before = node_index_mapping@;
        node_index_mapping.insert(i, i);
        proof {
            lemma_live_model_insert(before, i, i);
            assert(identity_table(i as int).insert(i as int, i as int) =~= identity_table(i + 1));
        }
        i += 1;
    }
    let mut r: usize = 0;
    proof {
        lemma_apply_rules(bm, feedback_loops@, 0, n as int);
    }
    while r < feedback_loops.len()
        invariant
            r <= feedback_loops.len(),
            bm == plan_model(initial_nodes@),
            initial_len == initial_nodes.len(),
            initial_len == bm.len(),
            forward(bm),
            operators_below(bm, n as int),
            graph_model(nodes@, node_index_mapping@) == apply_rules(
                bm,
                feedback_loops@,
                r as int,
            ),
        decreases feedback_loops.len() - r,
    {
        let loop_rule = feedback_loops[r];
        let ghost start = apply_rules(bm, feedback_loops@, r as int);
        proof {
            lemma_apply_rules(bm, feedback_loops@, r as int, n as int);
        }
        if loop_rule.from_node < initial_len && loop_rule.to_node < initial_len {
            let mut pass: usize = 0;
            while pass < loop_rule.count
                invariant
                    pass <= loop_rule.count,
                    bm == plan_model(initial_nodes@),
                    initial_len == initial_nodes.len(),
                    forward(bm),
                    operators_below(bm, n as int),
                    graph_ok(bm, start, n as int),
                    loop_rule.from_node < initial_len,
                    loop_rule.to_node < initial_len,
                    graph_model(nodes@, node_index_mapping@) == feed_back(
                        bm,
                        start,
                        loop_rule.from_node as int,
                        loop_rule.to_node as int,
                        pass as nat,
                    ),
                decreases loop_rule.count - pass,
            {
                proof {
                    lemma_feed_back(
                        bm,
                        start,
                        loop_rule.from_node as int,
                        loop_rule.to_node as int,
                        pass as nat,
                        n as int,
                    );
                }
                duplicate_once(
                    &initial_nodes,
                    loop_rule.from_node,
                    loop_rule.to_node,
                    &mut nodes,
                    &mut node_index_mapping,
                    Ghost(n as int),
                );
                pass += 1;
            }
        }
        r += 1;
    }
    proof {
        lemma_compiled_is_acyclic(conn, wanted, feedback_loops@);
        assert forall|m: int| 0 <= m < carriers@.len() implies runs(
            plan_model(nodes@),
            #[trigger] carriers@[m] as int,
        ) by {
            assert(wanted[m] == carriers@[m] as int);
            lemma_carriers_are_run(conn, wanted, feedback_loops@, m);
        }
    }
    Ok(nodes)
}

} // verus!
