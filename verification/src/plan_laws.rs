use vstd::prelude::*;
use crate::plan::{
    apply_rules, attach, compiled, feed_back, feed_back_once, FeedbackLoop, Graph,
    identity_table, inputs_order, lemma_slack_decreases, MAX_CYCLE_DEPTH, NodeModel,
    occurrences, record_copies, relinked, slack, subgraph_order, unroll, unroll_carriers,
    unroll_sources,
};

verus! {

/// Every input of every node of the block names a node that comes later
/// than the node itself and before plan index `end`, when the block starts
/// at plan index `at`.
pub open spec fn inputs_within(nodes: Seq<NodeModel>, at: int, end: int) -> bool {
    forall|i: int, j: int|
        0 <= i < nodes.len() && 0 <= j < nodes[i].inputs.len() ==> at + i
            < #[trigger] nodes[i].inputs[j] < end
}

/// Every input of every node names a later node of the plan. A plan with
/// this property has no cycle.
pub open spec fn forward(plan: Seq<NodeModel>) -> bool {
    inputs_within(plan, 0, plan.len() as int)
}

/// Every node of the plan runs one of the first `n` operators.
pub open spec fn operators_below(nodes: Seq<NodeModel>, n: int) -> bool {
    forall|i: int| 0 <= i < nodes.len() ==> 0 <= (#[trigger] nodes[i]).op_index < n
}

/// Some node of the plan runs operator `op`.
pub open spec fn runs(plan: Seq<NodeModel>, op: int) -> bool {
    exists|i: int| 0 <= i < plan.len() && (#[trigger] plan[i]).op_index == op
}

/// Two blocks laid out one after the other keep their inputs within the
/// same bounds.
pub proof fn lemma_inputs_within_concat(a: Seq<NodeModel>, b: Seq<NodeModel>, at: int, end: int)
    requires
        inputs_within(a, at, end),
        inputs_within(b, at + a.len(), end),
    ensures
        inputs_within(a + b, at, end),
{
    let c = a + b;
    assert forall|i: int, j: int| 0 <= i < c.len() && 0 <= j < c[i].inputs.len() implies at + i
        < #[trigger] c[i].inputs[j] < end by {
        if i < a.len() {
            assert(c[i] == a[i]);
            assert(at + i < a[i].inputs[j] < end);
        } else {
            assert(c[i] == b[i - a.len()]);
            assert(at + a.len() + (i - a.len()) < b[i - a.len()].inputs[j] < end);
        }
    }
}

/// Inputs that stay before `end` stay before anything later.
pub proof fn lemma_inputs_within_widen(a: Seq<NodeModel>, at: int, end: int, wider: int)
    requires
        inputs_within(a, at, end),
        end <= wider,
    ensures
        inputs_within(a, at, wider),
{
    assert forall|i: int, j: int| 0 <= i < a.len() && 0 <= j < a[i].inputs.len() implies at + i
        < #[trigger] a[i].inputs[j] < wider by {
        assert(at + i < a[i].inputs[j] < end);
    }
}

/// Two blocks that run the first `n` operators only do so together.
pub proof fn lemma_operators_below_concat(a: Seq<NodeModel>, b: Seq<NodeModel>, n: int)
    requires
        operators_below(a, n),
        operators_below(b, n),
    ensures
        operators_below(a + b, n),
{
    let c = a + b;
    assert forall|i: int| 0 <= i < c.len() implies 0 <= (#[trigger] c[i]).op_index < n by {
        if i < a.len() {
            assert(c[i] == a[i]);
        } else {
            assert(c[i] == b[i - a.len()]);
        }
    }
}

/// A visit lays out a block in which inputs point forward and stay inside
/// the block, whose nodes run operators of the table, and which starts
/// with a node for the visited operator.
pub proof fn lemma_unroll_shape(conn: Seq<Seq<bool>>, target: int, path: Seq<int>, at: int)
    ensures
        inputs_within(
            unroll(conn, target, path, at),
            at,
            at + unroll(conn, target, path, at).len(),
        ),
        operators_below(unroll(conn, target, path, at), conn.len() as int),
        unroll(conn, target, path, at).len() > 0 <==> (0 <= target < conn.len() && occurrences(
            path,
            target,
        ) < MAX_CYCLE_DEPTH),
        unroll(conn, target, path, at).len() > 0 ==> unroll(conn, target, path, at)[0].op_index
            == target,
    decreases slack(path, conn.len() as int), 0nat,
{
    if 0 <= target < conn.len() && occurrences(path, target) < MAX_CYCLE_DEPTH {
        lemma_slack_decreases(path, target, conn.len() as int);
        let below = unroll_sources(conn, target, path.push(target), 0, at + 1);
        lemma_unroll_sources_shape(conn, target, path.push(target), 0, at + 1);
        let head = seq![NodeModel { op_index: target, inputs: below.roots }];
        let end = at + 1 + below.nodes.len();
        assert(inputs_within(head, at, end)) by {
            assert forall|i: int, j: int|
                0 <= i < head.len() && 0 <= j < head[i].inputs.len() implies at + i
                < #[trigger] head[i].inputs[j] < end by {
                assert(head[i].inputs[j] == below.roots[j]);
            }
        }
        lemma_inputs_within_concat(head, below.nodes, at, end);
        assert(operators_below(head, conn.len() as int));
        lemma_operators_below_concat(head, below.nodes, conn.len() as int);
        assert((head + below.nodes)[0] == head[0]);
    }
}

/// The visits of a group of sources lay out a block in which inputs point
/// forward and stay inside the block; the roots lie inside the block.
pub proof fn lemma_unroll_sources_shape(
    conn: Seq<Seq<bool>>,
    target: int,
    path: Seq<int>,
    source: int,
    at: int,
)
    ensures
        inputs_within(
            unroll_sources(conn, target, path, source, at).nodes,
            at,
            at + unroll_sources(conn, target, path, source, at).nodes.len(),
        ),
        operators_below(unroll_sources(conn, target, path, source, at).nodes, conn.len() as int),
        forall|j: int|
            0 <= j < unroll_sources(conn, target, path, source, at).roots.len() ==> at
                <= #[trigger] unroll_sources(conn, target, path, source, at).roots[j] < at
                + unroll_sources(conn, target, path, source, at).nodes.len(),
    decreases slack(path, conn.len() as int), (conn.len() - source + 1) as nat,
{
    let all = unroll_sources(conn, target, path, source, at);
    if source < 0 || source >= conn.len() {
    } else if crate::plan::connected(conn, source, target) {
        let first = unroll(conn, source, path, at);
        let rest = unroll_sources(conn, target, path, source + 1, at + first.len());
        lemma_unroll_shape(conn, source, path, at);
        lemma_unroll_sources_shape(conn, target, path, source + 1, at + first.len());
        let end = at + first.len() + rest.nodes.len();
        lemma_inputs_within_widen(first, at, at + first.len(), end);
        lemma_inputs_within_concat(first, rest.nodes, at, end);
        lemma_operators_below_concat(first, rest.nodes, conn.len() as int);
        assert forall|j: int| 0 <= j < all.roots.len() implies at <= #[trigger] all.roots[j] < at
            + all.nodes.len() by {
            if first.len() > 0 {
                if j > 0 {
                    assert(all.roots[j] == rest.roots[j - 1]);
                }
            } else {
                assert(all.roots[j] == rest.roots[j]);
            }
        }
    } else {
        lemma_unroll_sources_shape(conn, target, path, source + 1, at);
    }
}

/// The plan unrolled from the carriers has forward inputs, runs operators
/// of the table only, and runs every carrier that names an operator of the
/// table.
pub proof fn lemma_unroll_carriers_shape(conn: Seq<Seq<bool>>, carriers: Seq<int>, k: int)
    requires
        0 <= k <= carriers.len(),
    ensures
        forward(unroll_carriers(conn, carriers, k)),
        operators_below(unroll_carriers(conn, carriers, k), conn.len() as int),
        forall|m: int|
            0 <= m < k && 0 <= carriers[m] < conn.len() ==> runs(
                unroll_carriers(conn, carriers, k),
                #[trigger] carriers[m],
            ),
    decreases k,
{
    if k > 0 {
        let before = unroll_carriers(conn, carriers, k - 1);
        let now = unroll_carriers(conn, carriers, k);
        let c = carriers[k - 1];
        lemma_unroll_carriers_shape(conn, carriers, k - 1);
        if carriers.take(k - 1).contains(c) {
            let earlier = carriers.take(k - 1);
            let m0 = choose|m0: int| 0 <= m0 < earlier.len() && #[trigger] earlier[m0] == c;
            assert(carriers[m0] == c);
        } else {
            let added = unroll(conn, c, Seq::empty(), before.len() as int);
            lemma_unroll_shape(conn, c, Seq::empty(), before.len() as int);
            lemma_inputs_within_widen(before, 0, before.len() as int, now.len() as int);
            lemma_inputs_within_concat(before, added, 0, now.len() as int);
            lemma_operators_below_concat(before, added, conn.len() as int);
            assert forall|m: int| 0 <= m < k && 0 <= carriers[m] < conn.len() implies runs(
                now,
                #[trigger] carriers[m],
            ) by {
                if m < k - 1 {
                    let i = choose|i: int|
                        0 <= i < before.len() && (#[trigger] before[i]).op_index == carriers[m];
                    assert(now[i] == before[i]);
                } else {
                    assert(added.len() > 0);
                    assert(now[before.len() as int] == added[0]);
                }
            }
        }
    }
}

/// Entry `x` is copied later in the pass than the entry at position `p`.
pub open spec fn copied_after(order: Seq<int>, p: int, x: int) -> bool {
    exists|q: int| p < q < order.len() && #[trigger] order[q] == x
}

/// Every position of `order` names an entry of `base`, and every input of
/// an entry in `order` is copied later in the pass than the entry itself.
pub open spec fn closed_order(base: Seq<NodeModel>, order: Seq<int>) -> bool {
    &&& forall|p: int| 0 <= p < order.len() ==> 0 <= #[trigger] order[p] < base.len()
    &&& forall|p: int, j: int|
        0 <= p < order.len() && 0 <= j < base[order[p]].inputs.len() ==> copied_after(
            order,
            p,
            #[trigger] base[order[p]].inputs[j],
        )
}

/// Two closed copy orders, one after the other, are a closed copy order.
pub proof fn lemma_closed_order_concat(base: Seq<NodeModel>, a: Seq<int>, b: Seq<int>)
    requires
        closed_order(base, a),
        closed_order(base, b),
    ensures
        closed_order(base, a + b),
{
    let c = a + b;
    assert forall|p: int| 0 <= p < c.len() implies 0 <= #[trigger] c[p] < base.len() by {
        if p < a.len() {
            assert(c[p] == a[p]);
        } else {
            assert(c[p] == b[p - a.len()]);
        }
    }
    assert forall|p: int, j: int|
        0 <= p < c.len() && 0 <= j < base[c[p]].inputs.len() implies copied_after(
        c,
        p,
        #[trigger] base[c[p]].inputs[j],
    ) by {
        let x = base[c[p]].inputs[j];
        if p < a.len() {
            assert(c[p] == a[p]);
            assert(copied_after(a, p, base[a[p]].inputs[j]));
            let q = choose|q: int| p < q < a.len() && #[trigger] a[q] == x;
            assert(c[q] == x);
        } else {
            let pb = p - a.len();
            assert(c[p] == b[pb]);
            assert(copied_after(b, pb, base[b[pb]].inputs[j]));
            let q = choose|q: int| pb < q < b.len() && #[trigger] b[q] == x;
            assert(c[q + a.len()] == x);
        }
    }
}

/// The copy order of a subgraph starts with its root and is closed.
pub proof fn lemma_subgraph_order(base: Seq<NodeModel>, root: int)
    requires
        forward(base),
        0 <= root < base.len(),
    ensures
        subgraph_order(base, root).len() > 0,
        subgraph_order(base, root)[0] == root,
        closed_order(base, subgraph_order(base, root)),
    decreases base.len() - root, base[root].inputs.len() + 1,
{
    let below = inputs_order(base, root, base[root].inputs.len() as int);
    lemma_inputs_order(base, root, base[root].inputs.len() as int);
    let order = seq![root] + below;
    assert(order == subgraph_order(base, root));
    assert(order[0] == root);
    assert forall|p: int| 0 <= p < order.len() implies 0 <= #[trigger] order[p] < base.len() by {
        if p > 0 {
            assert(order[p] == below[p - 1]);
        }
    }
    assert forall|p: int, j: int|
        0 <= p < order.len() && 0 <= j < base[order[p]].inputs.len() implies copied_after(
        order,
        p,
        #[trigger] base[order[p]].inputs[j],
    ) by {
        let x = base[order[p]].inputs[j];
        if p == 0 {
            assert(copied_after(below, -1, base[root].inputs[j]));
            let q = choose|q: int| -1 < q < below.len() && #[trigger] below[q] == x;
            assert(order[q + 1] == x);
        } else {
            assert(order[p] == below[p - 1]);
            assert(copied_after(below, p - 1, base[below[p - 1]].inputs[j]));
            let q = choose|q: int| p - 1 < q < below.len() && #[trigger] below[q] == x;
            assert(order[q + 1] == x);
        }
    }
}

/// The part of a copy order contributed by the first `k` inputs of an
/// entry is closed and holds each of those inputs.
pub proof fn lemma_inputs_order(base: Seq<NodeModel>, node: int, k: int)
    requires
        forward(base),
        0 <= node < base.len(),
        0 <= k <= base[node].inputs.len(),
    ensures
        closed_order(base, inputs_order(base, node, k)),
        forall|j: int|
            0 <= j < k ==> copied_after(
                inputs_order(base, node, k),
                -1,
                #[trigger] base[node].inputs[j],
            ),
    decreases base.len() - node, k,
{
    if k > 0 {
        let input = base[node].inputs[k - 1];
        assert(node < input < base.len());
        let first = subgraph_order(base, input);
        let rest = inputs_order(base, node, k - 1);
        let all = first + rest;
        assert(all == inputs_order(base, node, k));
        lemma_subgraph_order(base, input);
        lemma_inputs_order(base, node, k - 1);
        lemma_closed_order_concat(base, first, rest);
        assert forall|j: int| 0 <= j < k implies copied_after(
            all,
            -1,
            #[trigger] base[node].inputs[j],
        ) by {
            if j == k - 1 {
                assert(all[0] == input);
            } else {
                assert(copied_after(rest, -1, base[node].inputs[j]));
                let q = choose|q: int|
                    -1 < q < rest.len() && #[trigger] rest[q] == base[node].inputs[j];
                assert(all[q + first.len()] == base[node].inputs[j]);
            }
        }
    }
}

/// Recording the copies of a pass keeps every key of the table, moves a
/// key only to one of the new plan indices, and gives every copied entry a
/// new index no smaller than the one its position would give it.
pub proof fn lemma_record_copies(live: Map<int, int>, order: Seq<int>, at: int, k: int)
    requires
        0 <= k <= order.len(),
    ensures
        forall|x: int|
            live.contains_key(x) ==> #[trigger] record_copies(live, order, at, k).contains_key(x),
        forall|x: int| #[trigger]
            record_copies(live, order, at, k).contains_key(x) ==> (live.contains_key(x)
                && record_copies(live, order, at, k)[x] == live[x]) || (at <= record_copies(
                live,
                order,
                at,
                k,
            )[x] < at + k && exists|q: int| 0 <= q < k && #[trigger] order[q] == x),
        forall|q: int|
            0 <= q < k ==> record_copies(live, order, at, k).contains_key(#[trigger] order[q])
                && at + q <= record_copies(live, order, at, k)[order[q]] < at + k,
    decreases k,
{
    if k > 0 {
        lemma_record_copies(live, order, at, k - 1);
        let before = record_copies(live, order, at, k - 1);
        let now = record_copies(live, order, at, k);
        assert(now == before.insert(order[k - 1], at + k - 1));
        assert forall|x: int| #[trigger] now.contains_key(x) implies (live.contains_key(x)
            && now[x] == live[x]) || (at <= now[x] < at + k && exists|q: int|
            0 <= q < k && #[trigger] order[q] == x) by {
            if x == order[k - 1] {
            } else {
                assert(before.contains_key(x));
                if !(live.contains_key(x) && before[x] == live[x]) {
                    let q = choose|q: int| 0 <= q < k - 1 && #[trigger] order[q] == x;
                    assert(order[q] == x);
                }
            }
        }
        assert forall|q: int| 0 <= q < k implies now.contains_key(#[trigger] order[q]) && at + q
            <= now[order[q]] < at + k by {
            if q < k - 1 && order[q] != order[k - 1] {
                assert(before.contains_key(order[q]));
            }
        }
    }
}

/// The nodes of `later` start with nodes that run the operators of
/// `earlier`, position by position.
pub open spec fn keeps_operators(earlier: Seq<NodeModel>, later: Seq<NodeModel>) -> bool {
    &&& earlier.len() <= later.len()
    &&& forall|i: int| 0 <= i < earlier.len() ==> (#[trigger] later[i]).op_index == earlier[i].op_index
}

/// What holds of a plan under construction between duplication passes.
pub open spec fn graph_ok(base: Seq<NodeModel>, g: Graph, n: int) -> bool {
    &&& forward(g.nodes)
    &&& operators_below(g.nodes, n)
    &&& keeps_operators(base, g.nodes)
    &&& forall|k: int| g.live.contains_key(k) <==> 0 <= k < base.len()
    &&& forall|k: int| g.live.contains_key(k) ==> 0 <= #[trigger] g.live[k] < g.nodes.len()
}

/// One duplication pass keeps the plan well formed, keeps every node that
/// was there, and adds one node per entry of the copy order.
pub proof fn lemma_feed_back_once(base: Seq<NodeModel>, g: Graph, from: int, to: int, n: int)
    requires
        forward(base),
        operators_below(base, n),
        graph_ok(base, g, n),
        0 <= from < base.len(),
        0 <= to < base.len(),
    ensures
        graph_ok(base, feed_back_once(base, g, from, to), n),
        keeps_operators(g.nodes, feed_back_once(base, g, from, to).nodes),
        feed_back_once(base, g, from, to).nodes.len() == g.nodes.len() + subgraph_order(
            base,
            to,
        ).len(),
{
    let at = g.nodes.len() as int;
    let order = subgraph_order(base, to);
    let live = record_copies(g.live, order, at, order.len() as int);
    let after = feed_back_once(base, g, from, to);
    let target = g.live[from];
    let kept = attach(g.nodes, target, at);
    let copies = Seq::new(order.len(), |p: int| relinked(base, live, order[p]));
    let end = at + order.len();
    lemma_subgraph_order(base, to);
    lemma_record_copies(g.live, order, at, order.len() as int);
    assert(g.live.contains_key(from));
    assert(after.nodes == kept + copies);
    assert(inputs_within(kept, 0, end)) by {
        assert forall|i: int, j: int|
            0 <= i < kept.len() && 0 <= j < kept[i].inputs.len() implies 0 + i
            < #[trigger] kept[i].inputs[j] < end by {
            if i == target {
                if j < g.nodes[i].inputs.len() {
                    assert(kept[i].inputs[j] == g.nodes[i].inputs[j]);
                }
            } else {
                assert(kept[i].inputs[j] == g.nodes[i].inputs[j]);
            }
        }
    }
    assert(inputs_within(copies, at, end)) by {
        assert forall|p: int, j: int|
            0 <= p < copies.len() && 0 <= j < copies[p].inputs.len() implies at + p
            < #[trigger] copies[p].inputs[j] < end by {
            let x = base[order[p]].inputs[j];
            assert(copies[p].inputs[j] == live[x]);
            assert(copied_after(order, p, x));
            let q = choose|q: int| p < q < order.len() && #[trigger] order[q] == x;
            assert(live.contains_key(order[q]) && at + q <= live[order[q]] < end);
        }
    }
    lemma_inputs_within_concat(kept, copies, 0, end);
    assert(operators_below(kept, n)) by {
        assert forall|i: int| 0 <= i < kept.len() implies 0 <= (#[trigger] kept[i]).op_index
            < n by {
            assert(0 <= g.nodes[i].op_index < n);
        }
    }
    assert(operators_below(copies, n)) by {
        assert forall|p: int| 0 <= p < copies.len() implies 0 <= (#[trigger] copies[p]).op_index
            < n by {
            assert(0 <= order[p] < base.len());
            assert(0 <= base[order[p]].op_index < n);
        }
    }
    lemma_operators_below_concat(kept, copies, n);
    assert(keeps_operators(g.nodes, after.nodes)) by {
        assert forall|i: int| 0 <= i < g.nodes.len() implies (#[trigger] after.nodes[i]).op_index
            == g.nodes[i].op_index by {
            assert(after.nodes[i] == kept[i]);
        }
    }
    assert(keeps_operators(base, after.nodes)) by {
        assert forall|i: int| 0 <= i < base.len() implies (#[trigger] after.nodes[i]).op_index
            == base[i].op_index by {
            assert(after.nodes[i].op_index == g.nodes[i].op_index);
        }
    }
    assert forall|k: int| after.live.contains_key(k) <==> 0 <= k < base.len() by {
        if after.live.contains_key(k) {
            if !g.live.contains_key(k) {
                let q = choose|q: int| 0 <= q < order.len() && #[trigger] order[q] == k;
                assert(0 <= order[q] < base.len());
            }
        }
        if 0 <= k < base.len() {
            assert(g.live.contains_key(k));
        }
    }
    assert forall|k: int| after.live.contains_key(k) implies 0 <= #[trigger] after.live[k]
        < after.nodes.len() by {
        if g.live.contains_key(k) && after.live[k] == g.live[k] {
            assert(0 <= g.live[k] < g.nodes.len());
        }
    }
}

/// Any number of duplication passes of one rule keeps the plan well
/// formed and keeps every node that was there.
pub proof fn lemma_feed_back(
    base: Seq<NodeModel>,
    g: Graph,
    from: int,
    to: int,
    count: nat,
    n: int,
)
    requires
        forward(base),
        operators_below(base, n),
        graph_ok(base, g, n),
        0 <= from < base.len(),
        0 <= to < base.len(),
    ensures
        graph_ok(base, feed_back(base, g, from, to, count), n),
        keeps_operators(g.nodes, feed_back(base, g, from, to, count).nodes),
        feed_back(base, g, from, to, count).nodes.len() == g.nodes.len() + count
            * subgraph_order(base, to).len(),
    decreases count,
{
    if count > 0 {
        let before = feed_back(base, g, from, to, (count - 1) as nat);
        lemma_feed_back(base, g, from, to, (count - 1) as nat, n);
        lemma_feed_back_once(base, before, from, to, n);
        let after = feed_back_once(base, before, from, to);
        assert forall|i: int| 0 <= i < g.nodes.len() implies (#[trigger] after.nodes[i]).op_index
            == g.nodes[i].op_index by {
            assert(after.nodes[i].op_index == before.nodes[i].op_index);
        }
        assert(count * subgraph_order(base, to).len() == (count - 1) * subgraph_order(
            base,
            to,
        ).len() + subgraph_order(base, to).len()) by (nonlinear_arith);
    }
}

/// Applying feedback rules to a well-formed base plan gives a well-formed
/// plan that starts with nodes running the operators of the base plan.
pub proof fn lemma_apply_rules(base: Seq<NodeModel>, rules: Seq<FeedbackLoop>, k: int, n: int)
    requires
        forward(base),
        operators_below(base, n),
        0 <= k <= rules.len(),
    ensures
        graph_ok(base, apply_rules(base, rules, k), n),
    decreases k,
{
    if k > 0 {
        lemma_apply_rules(base, rules, k - 1, n);
        let g = apply_rules(base, rules, k - 1);
        let rule = rules[k - 1];
        if rule.from_node < base.len() && rule.to_node < base.len() {
            lemma_feed_back(
                base,
                g,
                rule.from_node as int,
                rule.to_node as int,
                rule.count as nat,
                n,
            );
        }
    } else {
        let g = Graph { nodes: base, live: identity_table(base.len() as int) };
        assert(apply_rules(base, rules, k) == g);
    }
}

/// In every compiled plan each input of a node names a later node of the
/// plan, so the plan has no cycle and every input index is in range.
pub proof fn lemma_compiled_is_acyclic(
    conn: Seq<Seq<bool>>,
    carriers: Seq<int>,
    rules: Seq<FeedbackLoop>,
)
    ensures
        forward(compiled(conn, carriers, rules)),
        operators_below(compiled(conn, carriers, rules), conn.len() as int),
{
    let base = unroll_carriers(conn, carriers, carriers.len() as int);
    lemma_unroll_carriers_shape(conn, carriers, carriers.len() as int);
    lemma_apply_rules(base, rules, rules.len() as int, conn.len() as int);
}

/// Every carrier that names an operator of the table is run by at least
/// one node of the compiled plan, whatever the feedback rules are.
pub proof fn lemma_carriers_are_run(
    conn: Seq<Seq<bool>>,
    carriers: Seq<int>,
    rules: Seq<FeedbackLoop>,
    m: int,
)
    requires
        0 <= m < carriers.len(),
        0 <= carriers[m] < conn.len(),
    ensures
        runs(compiled(conn, carriers, rules), carriers[m]),
{
    let base = unroll_carriers(conn, carriers, carriers.len() as int);
    lemma_unroll_carriers_shape(conn, carriers, carriers.len() as int);
    lemma_apply_rules(base, rules, rules.len() as int, conn.len() as int);
    assert(runs(base, carriers[m]));
    let i = choose|i: int| 0 <= i < base.len() && (#[trigger] base[i]).op_index == carriers[m];
    let plan = compiled(conn, carriers, rules);
    assert(plan[i].op_index == base[i].op_index);
}

} // verus!
