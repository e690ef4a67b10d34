use vstd::prelude::*;

verus! {

/// Number of times one operator may occur on a single modulation path before
/// the unrolling of a cycle stops.
pub const MAX_CYCLE_DEPTH: usize = 2;

/// One entry of an evaluation plan: the operator it runs and the plan
/// entries whose outputs modulate it.
#[derive(Debug, Clone, PartialEq, Eq)]
pub struct PlanNode {
    pub op_index: usize,
    pub inputs: Vec<usize>,
}

/// Mathematical value of a [`PlanNode`].
pub struct NodeModel {
    pub op_index: int,
    pub inputs: Seq<int>,
}

impl View for PlanNode {
    type V = NodeModel;

    open spec fn view(&self) -> NodeModel {
        NodeModel { op_index: self.op_index as int, inputs: indices(self.inputs@) }
    }
}

/// A request to splice `count` further copies of the subgraph rooted at plan
/// entry `to_node` into the inputs of plan entry `from_node`. Both indices
/// name entries of the plan as it stands before any rule is applied.
#[derive(Debug, Clone, Copy, PartialEq, Eq, Structural)]
pub struct FeedbackLoop {
    pub from_node: usize,
    pub to_node: usize,
    pub count: usize,
}

/// Why a connectivity table, a carrier list or a control request was
/// refused.
#[derive(Debug, Clone, Copy, PartialEq, Eq, Structural)]
pub enum AlgorithmError {
    /// Some row of the connectivity table is not as long as the table has
    /// rows.
    MatrixNotSquare,
    /// The largest carrier, `carrier`, names no operator of a table with
    /// `operators` rows.
    CarrierOutOfBounds { carrier: usize, operators: usize },
    /// An operator index names no operator of the table.
    OperatorOutOfBounds,
    /// The combined table does not have one row per operator and one
    /// column more than it has rows.
    ShapeMismatch,
    /// The carrier column of the combined table is all zero.
    NoCarriers,
}

/// A sequence of machine indices read as integers.
pub open spec fn indices(s: Seq<usize>) -> Seq<int> {
    s.map_values(|i: usize| i as int)
}

/// The mathematical plan held by a vector of nodes.
pub open spec fn plan_model(nodes: Seq<PlanNode>) -> Seq<NodeModel> {
    nodes.map_values(|n: PlanNode| n@)
}

/// The connectivity table held by a vector of rows.
pub open spec fn table_model(rows: Seq<Vec<bool>>) -> Seq<Seq<bool>> {
    rows.map_values(|r: Vec<bool>| r@)
}

/// Every row of `conn` is as long as the table has rows.
pub open spec fn square(conn: Seq<Seq<bool>>) -> bool {
    forall|i: int| 0 <= i < conn.len() ==> (#[trigger] conn[i]).len() == conn.len()
}

/// Operator `source` modulates operator `target`.
pub open spec fn connected(conn: Seq<Seq<bool>>, source: int, target: int) -> bool {
    0 <= source < conn.len() && 0 <= target < conn[source].len() && conn[source][target]
}

/// How often `op` occurs in `path`.
pub open spec fn occurrences(path: Seq<int>, op: int) -> nat
    decreases path.len(),
{
    if path.len() == 0 {
        0
    } else {
        occurrences(path.drop_last(), op) + if path.last() == op {
            1nat
        } else {
            0nat
        }
    }
}

/// How many more visits the path can take before every one of the first `n`
/// operators has used up its allowance.
pub open spec fn slack(path: Seq<int>, n: int) -> nat
    decreases n,
{
    if n <= 0 {
        0
    } else {
        slack(path, n - 1) + if occurrences(path, n - 1) < MAX_CYCLE_DEPTH {
            (MAX_CYCLE_DEPTH - occurrences(path, n - 1)) as nat
        } else {
            0nat
        }
    }
}

/// Visiting one more operator raises the count of that operator by one
/// and leaves every other count as it is.
pub proof fn lemma_occurrences_push(path: Seq<int>, visited: int, op: int)
    ensures
        occurrences(path.push(visited), op) == occurrences(path, op) + if visited == op {
            1nat
        } else {
            0nat
        },
{
    assert(path.push(visited).drop_last() =~= path);
}

/// Visiting something that is none of the first `n` operators leaves
/// their slack as it is.
pub proof fn lemma_slack_other(path: Seq<int>, visited: int, n: int)
    requires
        visited < 0 || visited >= n,
    ensures
        slack(path.push(visited), n) == slack(path, n),
    decreases n,
{
    if n > 0 {
        lemma_slack_other(path, visited, n - 1);
        lemma_occurrences_push(path, visited, n - 1);
    }
}

/// Visiting an operator that still has allowance uses up one unit of slack.
pub proof fn lemma_slack_decreases(path: Seq<int>, visited: int, n: int)
    requires
        0 <= visited < n,
        occurrences(path, visited) < MAX_CYCLE_DEPTH,
    ensures
        slack(path.push(visited), n) + 1 == slack(path, n),
    decreases n,
{
    lemma_occurrences_push(path, visited, n - 1);
    if visited == n - 1 {
        lemma_slack_other(path, visited, n - 1);
    } else {
        lemma_slack_decreases(path, visited, n - 1);
    }
}

/// Nodes created for a group of sources together with the plan indices of
/// the roots among them, in source order.
pub struct Unrolled {
    pub nodes: Seq<NodeModel>,
    pub roots: Seq<int>,
}

/// The nodes created by a depth-first visit of operator `target` when the
/// operators in `path` are being visited already and the first new node is
/// given plan index `at`.
///
/// A visit creates nothing when `target` already occurs
/// [`MAX_CYCLE_DEPTH`] times in `path`. Otherwise it creates one node for
/// `target`, followed by the nodes of the visits of every operator that
/// modulates `target`, in increasing operator order. No node is shared
/// between visits.
pub open spec fn unroll(conn: Seq<Seq<bool>>, target: int, path: Seq<int>, at: int) -> Seq<
    NodeModel,
>
    decreases slack(path, conn.len() as int), 0nat,
{
    if 0 <= target < conn.len() && occurrences(path, target) < MAX_CYCLE_DEPTH {
        proof {
            lemma_slack_decreases(path, target, conn.len() as int);
        }
        let below = unroll_sources(conn, target, path.push(target), 0, at + 1);
        seq![NodeModel { op_index: target, inputs: below.roots }] + below.nodes
    } else {
        Seq::empty()
    }
}

/// The visits of the operators `source`, `source + 1`, ... that modulate
/// `target`, laid out one after the other from plan index `at`.
pub open spec fn unroll_sources(
    conn: Seq<Seq<bool>>,
    target: int,
    path: Seq<int>,
    source: int,
    at: int,
) -> Unrolled
    decreases slack(path, conn.len() as int), (conn.len() - source + 1) as nat,
{
    if source < 0 || source >= conn.len() {
        Unrolled { nodes: Seq::empty(), roots: Seq::empty() }
    } else if connected(conn, source, target) {
        let first = unroll(conn, source, path, at);
        let rest = unroll_sources(conn, target, path, source + 1, at + first.len());
        Unrolled {
            nodes: first + rest.nodes,
            roots: if first.len() > 0 {
                seq![at] + rest.roots
            } else {
                rest.roots
            },
        }
    } else {
        unroll_sources(conn, target, path, source + 1, at)
    }
}

/// The plan after the first `k` carriers have been visited. A carrier that
/// is listed again later adds nothing.
pub open spec fn unroll_carriers(conn: Seq<Seq<bool>>, carriers: Seq<int>, k: int) -> Seq<
    NodeModel,
>
    decreases k,
{
    if k <= 0 {
        Seq::empty()
    } else {
        let before = unroll_carriers(conn, carriers, k - 1);
        if carriers.take(k - 1).contains(carriers[k - 1]) {
            before
        } else {
            before + unroll(conn, carriers[k - 1], Seq::empty(), before.len() as int)
        }
    }
}

/// The entries of `base` reachable from `root` through inputs, in the order
/// in which a duplication pass copies them: an entry first, then the
/// subgraphs of its inputs from the last input to the first.
pub open spec fn subgraph_order(base: Seq<NodeModel>, root: int) -> Seq<int>
    decreases
        base.len() - root,
        if 0 <= root < base.len() {
            base[root].inputs.len() + 1
        } else {
            0
        },
{
    if 0 <= root < base.len() {
        seq![root] + inputs_order(base, root, base[root].inputs.len() as int)
    } else {
        Seq::empty()
    }
}

/// The part of [`subgraph_order`] contributed by the first `k` inputs of
/// entry `node`.
pub open spec fn inputs_order(base: Seq<NodeModel>, node: int, k: int) -> Seq<int>
    decreases base.len() - node, k,
{
    if 0 <= node < base.len() && 0 < k <= base[node].inputs.len() {
        let input = base[node].inputs[k - 1];
        if node < input < base.len() {
            subgraph_order(base, input) + inputs_order(base, node, k - 1)
        } else {
            inputs_order(base, node, k - 1)
        }
    } else {
        Seq::empty()
    }
}

/// A plan under construction: its nodes, and for every entry of the base
/// plan the index of its most recent copy.
pub struct Graph {
    pub nodes: Seq<NodeModel>,
    pub live: Map<int, int>,
}

/// `live` after the first `k` entries of `order` have been copied to the
/// consecutive plan indices that start at `at`.
pub open spec fn record_copies(live: Map<int, int>, order: Seq<int>, at: int, k: int) -> Map<
    int,
    int,
>
    decreases k,
{
    if k <= 0 {
        live
    } else {
        record_copies(live, order, at, k - 1).insert(order[k - 1], at + k - 1)
    }
}

/// The copy of base entry `copied`: the same operator, with every input
/// redirected to the most recent copy of the entry it named.
pub open spec fn relinked(base: Seq<NodeModel>, live: Map<int, int>, copied: int) -> NodeModel {
    NodeModel {
        op_index: base[copied].op_index,
        inputs: base[copied].inputs.map_values(|i: int| live[i]),
    }
}

/// `nodes` with `input` appended to the inputs of entry `target`.
pub open spec fn attach(nodes: Seq<NodeModel>, target: int, input: int) -> Seq<NodeModel> {
    nodes.update(
        target,
        NodeModel { op_index: nodes[target].op_index, inputs: nodes[target].inputs.push(input) },
    )
}

/// One duplication pass of a feedback rule: the subgraph rooted at base
/// entry `to` is copied to the end of the plan, the copy of `to` becomes an
/// additional input of the most recent copy of `from`, and the copies
/// become the most recent ones.
pub open spec fn feed_back_once(base: Seq<NodeModel>, g: Graph, from: int, to: int) -> Graph {
    let at = g.nodes.len() as int;
    let order = subgraph_order(base, to);
    let live = record_copies(g.live, order, at, order.len() as int);
    Graph {
        nodes: attach(g.nodes, g.live[from], at) + Seq::new(
            order.len(),
            |p: int| relinked(base, live, order[p]),
        ),
        live,
    }
}

/// `count` duplication passes of one rule.
pub open spec fn feed_back(base: Seq<NodeModel>, g: Graph, from: int, to: int, count: nat) -> Graph
    decreases count,
{
    if count == 0 {
        g
    } else {
        feed_back_once(base, feed_back(base, g, from, to, (count - 1) as nat), from, to)
    }
}

/// The table in which every base entry is its own most recent copy.
pub open spec fn identity_table(n: int) -> Map<int, int> {
    Map::new(|k: int| 0 <= k < n, |k: int| k)
}

/// The plan after the first `k` feedback rules. A rule that names an entry
/// outside the base plan is skipped.
pub open spec fn apply_rules(base: Seq<NodeModel>, rules: Seq<FeedbackLoop>, k: int) -> Graph
    decreases k,
{
    if k <= 0 {
        Graph { nodes: base, live: identity_table(base.len() as int) }
    } else {
        let g = apply_rules(base, rules, k - 1);
        let rule = rules[k - 1];
        if rule.from_node < base.len() && rule.to_node < base.len() {
            feed_back(base, g, rule.from_node as int, rule.to_node as int, rule.count as nat)
        } else {
            g
        }
    }
}

/// The largest element of `s`, or zero when `s` is empty.
pub open spec fn largest(s: Seq<usize>) -> usize
    decreases s.len(),
{
    if s.len() == 0 {
        0
    } else if s.last() >= largest(s.drop_last()) {
        s.last()
    } else {
        largest(s.drop_last())
    }
}

/// Every carrier names an operator of a table with `n` rows.
pub open spec fn carriers_below(carriers: Seq<usize>, n: int) -> bool {
    forall|i: int| 0 <= i < carriers.len() ==> (#[trigger] carriers[i]) < n
}

/// Why the table and the carrier list cannot be compiled, if they cannot.
pub open spec fn refusal(conn: Seq<Seq<bool>>, carriers: Seq<usize>) -> Option<AlgorithmError> {
    if !square(conn) {
        Some(AlgorithmError::MatrixNotSquare)
    } else if !carriers_below(carriers, conn.len() as int) {
        Some(
            AlgorithmError::CarrierOutOfBounds {
                carrier: largest(carriers),
                operators: conn.len() as usize,
            },
        )
    } else {
        None
    }
}

/// The evaluation plan compiled from a connectivity table, a carrier list
/// and a list of feedback rules.
pub open spec fn compiled(conn: Seq<Seq<bool>>, carriers: Seq<int>, rules: Seq<FeedbackLoop>) -> Seq<
    NodeModel,
> {
    apply_rules(
        unroll_carriers(conn, carriers, carriers.len() as int),
        rules,
        rules.len() as int,
    ).nodes
}

} // verus!
