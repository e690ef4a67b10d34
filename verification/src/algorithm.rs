use vstd::prelude::*;
use crate::plan::{
    AlgorithmError, carriers_below, compiled, connected, FeedbackLoop, indices, NodeModel,
    plan_model, PlanNode, refusal, square, table_model,
};
use crate::plan_build::build_unrolled_graph;
use crate::plan_laws::{
    forward, lemma_carriers_are_run, lemma_compiled_is_acyclic, operators_below, runs,
};

verus! {

/// Mathematical value of an [`Algorithm`].
pub struct AlgorithmModel {
    /// `connections[s][t]` holds when operator `s` modulates operator `t`.
    pub connections: Seq<Seq<bool>>,
    /// The operators whose output is heard, in the order they were given.
    pub carriers: Seq<usize>,
    pub rules: Seq<FeedbackLoop>,
    pub plan: Seq<NodeModel>,
}

impl AlgorithmModel {
    /// The table is square, every carrier names one of its operators, and
    /// the plan is the one compiled from table, carriers and rules.
    pub open spec fn wf(self) -> bool {
        &&& square(self.connections)
        &&& carriers_below(self.carriers, self.connections.len() as int)
        &&& self.plan == compiled(self.connections, indices(self.carriers), self.rules)
    }

    /// The value with `rule` added behind the rules already there.
    pub open spec fn with_rule(self, rule: FeedbackLoop) -> AlgorithmModel {
        let rules = self.rules.push(rule);
        AlgorithmModel {
            rules,
            plan: compiled(self.connections, indices(self.carriers), rules),
            ..self
        }
    }

    /// The value with operator `from` modulating operator `to`.
    pub open spec fn with_connection(self, from: int, to: int) -> AlgorithmModel {
        let connections = self.connections.update(from, self.connections[from].update(to, true));
        AlgorithmModel {
            connections,
            plan: compiled(connections, indices(self.carriers), self.rules),
            ..self
        }
    }
}

/// The algorithm without feedback rules over the given table and carriers.
pub open spec fn fresh(connections: Seq<Seq<bool>>, carriers: Seq<usize>) -> AlgorithmModel {
    AlgorithmModel {
        connections,
        carriers,
        rules: Seq::empty(),
        plan: compiled(connections, indices(carriers), Seq::empty()),
    }
}

/// An `n` by `n` table in which `edge(s, t)` says whether `s` modulates `t`.
pub open spec fn table_of(n: int, edge: spec_fn(int, int) -> bool) -> Seq<Seq<bool>> {
    Seq::new(n as nat, |s: int| Seq::new(n as nat, |t: int| edge(s, t)))
}

/// The combined table read as numbers.
pub open spec fn combined_model(rows: Seq<Vec<u32>>) -> Seq<Seq<u32>> {
    rows.map_values(|r: Vec<u32>| r@)
}

/// The combined table has `n` rows of `n + 1` entries each.
pub open spec fn combined_shape(combined: Seq<Seq<u32>>, n: int) -> bool {
    &&& combined.len() == n
    &&& forall|i: int| 0 <= i < combined.len() ==> (#[trigger] combined[i]).len() == n + 1
}

/// The rows among the first `k` whose entry in the last column is set, in
/// increasing order.
pub open spec fn combined_carriers(combined: Seq<Seq<u32>>, k: int) -> Seq<usize>
    decreases k,
{
    if k <= 0 {
        Seq::empty()
    } else if combined[k - 1][combined.len() as int] >= 1 {
        combined_carriers(combined, k - 1).push((k - 1) as usize)
    } else {
        combined_carriers(combined, k - 1)
    }
}

/// The connectivity table held by the square part of the combined table.
pub open spec fn combined_connections(combined: Seq<Seq<u32>>) -> Seq<Seq<bool>> {
    table_of(combined.len() as int, |s: int, t: int| combined[s][t] >= 1)
}

/// Why a combined table is refused by an algorithm over `n` operators, if
/// it is.
pub open spec fn combined_refusal(combined: Seq<Seq<u32>>, n: int) -> Option<AlgorithmError> {
    if !combined_shape(combined, n) {
        Some(AlgorithmError::ShapeMismatch)
    } else if combined_carriers(combined, n).len() == 0 {
        Some(AlgorithmError::NoCarriers)
    } else {
        None
    }
}

/// The algorithm that results from handing a combined table to `before`: a
/// refused table leaves it as it is; an accepted one replaces the
/// connections and the carriers and drops every feedback rule.
///
/// An entry on the diagonal is an ordinary connection of an operator to
/// itself. It installs no feedback rule; the bounded unrolling of the
/// compiler turns it into a chain of two nodes.
pub open spec fn after_set_matrix(before: AlgorithmModel, combined: Seq<Seq<u32>>) -> AlgorithmModel {
    let n = before.connections.len() as int;
    if combined_refusal(combined, n) is Some {
        before
    } else {
        fresh(combined_connections(combined), combined_carriers(combined, n))
    }
}

/// The carriers read from the first `k` rows are at most `k` rows, each
/// below `k`.
pub proof fn lemma_combined_carriers_below(combined: Seq<Seq<u32>>, k: int)
    requires
        0 <= k <= usize::MAX,
    ensures
        carriers_below(combined_carriers(combined, k), k),
        combined_carriers(combined, k).len() <= k,
    decreases k,
{
    if k > 0 {
        lemma_combined_carriers_below(combined, k - 1);
        let before = combined_carriers(combined, k - 1);
        let now = combined_carriers(combined, k);
        assert forall|i: int| 0 <= i < now.len() implies (#[trigger] now[i]) < k by {
            if i < before.len() {
                assert(now[i] == before[i]);
            }
        }
    }
}

/// Handing the same combined table to an algorithm twice gives the same
/// algorithm, and so the same plan, byte for byte, as handing it once.
pub proof fn lemma_set_matrix_twice(before: AlgorithmModel, combined: Seq<Seq<u32>>)
    ensures
        after_set_matrix(after_set_matrix(before, combined), combined) == after_set_matrix(
            before,
            combined,
        ),
{
    let n = before.connections.len() as int;
    if combined_refusal(combined, n) is None {
        assert(combined_connections(combined).len() == n);
    }
}

/// The plan that results from a combined table depends on the table alone:
/// two algorithms over the same number of operators end with the same plan.
pub proof fn lemma_set_matrix_forgets(a: AlgorithmModel, b: AlgorithmModel, combined: Seq<Seq<u32>>)
    requires
        a.connections.len() == b.connections.len(),
        combined_refusal(combined, a.connections.len() as int) is None,
    ensures
        after_set_matrix(a, combined) == after_set_matrix(b, combined),
{
}

/// The `n` by `n` table whose connections are exactly the listed pairs of
/// source and target.
pub open spec fn edge_table(n: int, edges: Seq<(usize, usize)>) -> Seq<Seq<bool>> {
    table_of(n, |s: int, t: int| edges.contains((s as usize, t as usize)))
}

/// The algorithm over `n` unconnected operators that hears operator 0, if
/// there is one.
pub open spec fn simple_model(n: int) -> AlgorithmModel {
    fresh(
        edge_table(n, Seq::empty()),
        if n > 0 {
            seq![0usize]
        } else {
            Seq::empty()
        },
    )
}

/// Operator 1 modulates operator 0, which is heard.
pub open spec fn stack_2_model(n: int) -> AlgorithmModel {
    if n < 2 {
        simple_model(n)
    } else {
        fresh(edge_table(n, seq![(1usize, 0usize)]), seq![0usize])
    }
}

/// Operator 3 modulates operators 0 and 1, operator 2 modulates operator
/// 1, operators 0 and 1 are heard, and the node of operator 3 feeds back
/// into itself once.
pub open spec fn fanout_feedback_model(n: int) -> AlgorithmModel {
    if n < 4 {
        simple_model(n)
    } else {
        fresh(
            edge_table(n, seq![(3usize, 0usize), (3usize, 1usize), (2usize, 1usize)]),
            seq![0usize, 1usize],
        ).with_rule(FeedbackLoop { from_node: 3, to_node: 3, count: 1 })
    }
}

/// Operator 2 modulates operator 0 and operator 3 modulates operator 1;
/// operators 0 and 1 are heard.
pub open spec fn dual_stack_model(n: int) -> AlgorithmModel {
    if n < 4 {
        simple_model(n)
    } else {
        fresh(edge_table(n, seq![(2usize, 0usize), (3usize, 1usize)]), seq![0usize, 1usize])
    }
}

/// Operator 2 modulates operators 0 and 1, which are heard.
pub open spec fn fanout_model(n: int) -> AlgorithmModel {
    if n < 3 {
        simple_model(n)
    } else {
        fresh(edge_table(n, seq![(2usize, 0usize), (2usize, 1usize)]), seq![0usize, 1usize])
    }
}

/// Operator 0 modulates operator 1, which modulates operator 2, which is
/// heard; the subgraph of plan node 1 is fed back into plan node 2 once.
pub open spec fn stack_3_feedback_model(n: int) -> AlgorithmModel {
    if n < 3 {
        simple_model(n)
    } else {
        fresh(edge_table(n, seq![(0usize, 1usize), (1usize, 2usize)]), seq![2usize]).with_rule(
            FeedbackLoop { from_node: 2, to_node: 1, count: 1 },
        )
    }
}

/// Operator 0 is heard and its node feeds back into itself once.
pub open spec fn feedback_1_model(n: int) -> AlgorithmModel {
    if n < 1 {
        simple_model(n)
    } else {
        fresh(edge_table(n, Seq::empty()), seq![0usize]).with_rule(
            FeedbackLoop { from_node: 0, to_node: 0, count: 1 },
        )
    }
}

/// The modulation graph of the engine: which operator modulates which,
/// which operators are heard, the feedback rules, and the evaluation plan
/// compiled from the three.
pub struct Algorithm {
    matrix: Vec<Vec<bool>>,
    carriers: Vec<usize>,
    repeat_rules: Vec<FeedbackLoop>,
    unrolled_nodes: Vec<PlanNode>,
}

impl View for Algorithm {
    type V = AlgorithmModel;

    closed spec fn view(&self) -> AlgorithmModel {
        AlgorithmModel {
            connections: table_model(self.matrix@),
            carriers: self.carriers@,
            rules: self.repeat_rules@,
            plan: plan_model(self.unrolled_nodes@),
        }
    }
}

/// A table of `n` rows and `n` columns without any connection.
fn empty_table(n: usize) -> (matrix: Vec<Vec<bool>>)
    ensures
        table_model(matrix@) == table_of(n as int, |s: int, t: int| false),
{
    let mut matrix: Vec<Vec<bool>> = Vec::new();
    let mut s: usize = 0;
    while s < n
        invariant
            s <= n,
            matrix.len() == s,
            forall|i: int|
                0 <= i < s ==> (#[trigger] matrix@[i])@ =~= Seq::new(n as nat, |t: int| false),
        decreases n - s,
    {
        let mut row: Vec<bool> = Vec::new();
        let mut t: usize = 0;
        while t < n
            invariant
                t <= n,
                row@ =~= Seq::new(t as nat, |t: int| false),
            decreases n - t,
        {
            row.push(false);
            proof {
                assert(row@ =~= Seq::new((t + 1) as nat, |t: int| false));
            }
            t += 1;
        }
        matrix.push(row);
        s += 1;
    }
    proof {
        let wanted = table_of(n as int, |s: int, t: int| false);
        assert forall|i: int| 0 <= i < n implies table_model(matrix@)[i] == wanted[i] by {
            assert(matrix@[i]@ =~= wanted[i]);
        }
        assert(table_model(matrix@) =~= wanted);
    }
    matrix
}

/// Sets one entry of a table.
fn set_entry(matrix: &mut Vec<Vec<bool>>, source: usize, target: usize, value: bool)
    requires
        source < old(matrix).len(),
        target < old(matrix)@[source as int].len(),
    ensures
        table_model(final(matrix)@) == table_model(old(matrix)@).update(
            source as int,
            table_model(old(matrix)@)[source as int].update(target as int, value),
        ),
{
    let old_row = &matrix[source];
    let mut row: Vec<bool> = Vec::new();
    let mut t: usize = 0;
    while t < old_row.len()
        invariant
            t <= old_row.len(),
            target < old_row.len(),
            row@ == old_row@.update(target as int, value).take(t as int),
        decreases old_row.len() - t,
    {
        row.push(if t == target { value } else { old_row[t] });
        proof {
            let whole = old_row@.update(target as int, value);
            assert(whole.take(t + 1) =~= whole.take(t as int).push(whole[t as int]));
        }
        t += 1;
    }
    proof {
        let whole = old_row@.update(target as int, value);
        assert(whole.take(old_row.len() as int) =~= whole);
    }
    matrix.set(source, row);
    proof {
        assert(table_model(matrix@) =~= table_model(old(matrix)@).update(
            source as int,
            table_model(old(matrix)@)[source as int].update(target as int, value),
        ));
    }
}

/// A table of `n` rows and `n` columns with the listed connections.
fn table_with_edges(n: usize, edges: &Vec<(usize, usize)>) -> (matrix: Vec<Vec<bool>>)
    requires
        forall|k: int| 0 <= k < edges@.len() ==> (#[trigger] edges@[k]).0 < n && edges@[k].1 < n,
    ensures
        table_model(matrix@) == edge_table(n as int, edges@),
        square(table_model(matrix@)),
{
    let mut matrix = empty_table(n);
    let mut k: usize = 0;
    proof {
        assert(table_model(matrix@) =~~= edge_table(n as int, edges@.take(0)));
    }
    while k < edges.len()
        invariant
            k <= edges.len(),
            forall|i: int|
                0 <= i < edges@.len() ==> (#[trigger] edges@[i]).0 < n && edges@[i].1 < n,
            table_model(matrix@) == edge_table(n as int, edges@.take(k as int)),
        decreases edges.len() - k,
    {
        let (source, target) = edges[k];
        let ghost before = table_model(matrix@);
        proof {
            assert(edges@[k as int].0 < n && edges@[k as int].1 < n);
            assert(before.len() == matrix@.len());
            assert(before.len() == n);
            assert(before[source as int].len() == n);
            assert(matrix@[source as int]@ == before[source as int]);
        }
        set_entry(&mut matrix, source, target, true);
        proof {
            let seen = edges@.take(k as int);
            let now = edges@.take(k + 1);
            assert(now =~= seen.push((source, target)));
            let wanted = edge_table(n as int, now);
            assert forall|s: int| 0 <= s < n implies #[trigger] table_model(matrix@)[s]
                =~= wanted[s] by {
                assert forall|t: int| 0 <= t < n implies table_model(matrix@)[s][t]
                    == wanted[s][t] by {
                    let pair = (s as usize, t as usize);
                    if seen.contains(pair) {
                        let i = choose|i: int| 0 <= i < seen.len() && seen[i] == pair;
                        assert(now[i] == pair);
                    }
                    if now.contains(pair) {
                        let i = choose|i: int| 0 <= i < now.len() && now[i] == pair;
                        if i < k {
                            assert(seen[i] == pair);
                        }
                    }
                    if s == source && t == target {
                        assert(now[k as int] == pair);
                    }
                    assert(before[s][t] == seen.contains(pair));
                }
            }
            assert(table_model(matrix@) =~= wanted);
        }
        k += 1;
    }
    proof {
        assert(edges@.take(edges.len() as int) =~= edges@);
    }
    matrix
}

impl Algorithm {
    /// The invariant of the type.
    pub open spec fn wf(&self) -> bool {
        self@.wf()
    }

    /// Builds an algorithm without feedback rules and compiles its plan.
    ///
    /// A table that is not square, or a carrier that names no operator of
    /// the table, is refused.
    pub fn new(matrix: Vec<Vec<bool>>, carriers: Vec<usize>) -> (result: Result<
        Self,
        AlgorithmError,
    >)
        ensures
            match refusal(table_model(matrix@), carriers@) {
                Some(reason) => result is Err && result->Err_0 == reason,
                None => result is Ok && result->Ok_0.wf() && result->Ok_0@ == fresh(
                    table_model(matrix@),
                    carriers@,
                ),
            },
    {
        let repeat_rules: Vec<FeedbackLoop> = Vec::new();
        match build_unrolled_graph(&matrix, &carriers, &repeat_rules) {
            Ok(unrolled_nodes) => {
                proof {
                    assert(repeat_rules@ =~= Seq::<FeedbackLoop>::empty());
                }
                Ok(Algorithm { matrix, carriers, repeat_rules, unrolled_nodes })
            },
            Err(reason) => Err(reason),
        }
    }

    /// The algorithm over `num_operators` unconnected operators that hears
    /// operator 0, if there is one.
    pub fn simple(num_operators: usize) -> (algorithm: Self)
        ensures
            algorithm.wf(),
            algorithm@ == simple_model(num_operators as int),
    {
        let edges: Vec<(usize, usize)> = Vec::new();
        let matrix = table_with_edges(num_operators, &edges);
        let mut carriers: Vec<usize> = Vec::new();
        if num_operators > 0 {
            carriers.push(0);
        }
        proof {
            assert(edges@ =~= Seq::<(usize, usize)>::empty());
            if num_operators > 0 {
                assert(carriers@ =~= seq![0usize]);
            } else {
                assert(carriers@ =~= Seq::<usize>::empty());
            }
        }
        let mut algorithm = Algorithm {
            matrix,
            carriers,
            repeat_rules: Vec::new(),
            unrolled_nodes: Vec::new(),
        };
        algorithm.rebuild_unrolled_graph();
        proof {
            assert(algorithm.repeat_rules@ =~= Seq::<FeedbackLoop>::empty());
        }
        algorithm
    }

    /// The number of operators the algorithm connects.
    pub fn operator_count(&self) -> (n: usize)
        ensures
            n == self@.connections.len(),
    {
        self.matrix.len()
    }

    /// The operators that are heard, in the order they were given.
    pub fn get_carrier_indices(&self) -> (carriers: &Vec<usize>)
        ensures
            carriers@ == self@.carriers,
    {
        &self.carriers
    }

    /// The connectivity table: row `s`, column `t` holds when operator `s`
    /// modulates operator `t`.
    pub fn get_matrix(&self) -> (matrix: &Vec<Vec<bool>>)
        ensures
            table_model(matrix@) == self@.connections,
    {
        &self.matrix
    }

    /// The feedback rules, in the order they were added.
    pub fn get_repeat_rules(&self) -> (rules: &Vec<FeedbackLoop>)
        ensures
            rules@ == self@.rules,
    {
        &self.repeat_rules
    }

    /// The compiled evaluation plan.
    pub fn get_plan(&self) -> (plan: &Vec<PlanNode>)
        ensures
            plan_model(plan@) == self@.plan,
    {
        &self.unrolled_nodes
    }

    /// The plan of a well-formed algorithm has no cycle: every input of a
    /// node names a later node of the plan. Every node runs an operator of
    /// the table, and every carrier is run by some node.
    pub proof fn lemma_plan_is_sound(&self)
        requires
            self.wf(),
        ensures
            forward(self@.plan),
            operators_below(self@.plan, self@.connections.len() as int),
            forall|m: int|
                0 <= m < self@.carriers.len() ==> runs(
                    self@.plan,
                    #[trigger] self@.carriers[m] as int,
                ),
    {
        lemma_compiled_is_acyclic(self@.connections, indices(self@.carriers), self@.rules);
        assert forall|m: int| 0 <= m < self@.carriers.len() implies runs(
            self@.plan,
            #[trigger] self@.carriers[m] as int,
        ) by {
            assert(indices(self@.carriers)[m] == self@.carriers[m] as int);
            lemma_carriers_are_run(
                self@.connections,
                indices(self@.carriers),
                self@.rules,
                m,
            );
        }
    }

    /// The plan fits the machine's index type.
    pub proof fn lemma_plan_fits(&self)
        ensures
            self@.plan.len() <= usize::MAX,
            self@.connections.len() <= usize::MAX,
    {
        assert(self.unrolled_nodes@.len() == self.unrolled_nodes.len());
        assert(self.matrix@.len() == self.matrix.len());
    }

    /// The number of nodes of the compiled plan.
    pub fn length(&self) -> (n: usize)
        ensures
            n == self@.plan.len(),
    {
        self.unrolled_nodes.len()
    }

    /// Adds a feedback rule behind the rules already there and compiles the
    /// plan again.
    pub fn add_repeat_rule(&mut self, from_node: usize, to_node: usize, count: usize)
        requires
            old(self).wf(),
        ensures
            final(self).wf(),
            final(self)@ == old(self)@.with_rule(FeedbackLoop { from_node, to_node, count }),
    {
        self.repeat_rules.push(FeedbackLoop { from_node, to_node, count });
        self.rebuild_unrolled_graph();
    }

    /// Compiles the plan from the table, the carriers and the rules.
    fn rebuild_unrolled_graph(&mut self)
        requires
            square(old(self)@.connections),
            carriers_below(old(self)@.carriers, old(self)@.connections.len() as int),
        ensures
            final(self).wf(),
            final(self)@.connections == old(self)@.connections,
            final(self)@.carriers == old(self)@.carriers,
            final(self)@.rules == old(self)@.rules,
    {
        match build_unrolled_graph(&self.matrix, &self.carriers, &self.repeat_rules) {
            Ok(nodes) => {
                self.unrolled_nodes = nodes;
            },
            Err(_) => {
                self.unrolled_nodes.clear();
            },
        }
    }

    /// Lets operator `from_operator` modulate operator `to_operator` and
    /// compiles the plan again. Refused, with the algorithm unchanged, when
    /// either index names no operator.
    pub fn set_connection(&mut self, from_operator: usize, to_operator: usize) -> (result: Result<
        (),
        AlgorithmError,
    >)
        requires
            old(self).wf(),
        ensures
            final(self).wf(),
            from_operator < old(self)@.connections.len() && to_operator
                < old(self)@.connections.len() ==> result is Ok && final(self)@
                == old(self)@.with_connection(from_operator as int, to_operator as int),
            from_operator >= old(self)@.connections.len() || to_operator
                >= old(self)@.connections.len() ==> result == Err::<(), AlgorithmError>(
                AlgorithmError::OperatorOutOfBounds,
            ) && final(self)@ == old(self)@,
    {
        if from_operator >= self.matrix.len() || to_operator >= self.matrix.len() {
            return Err(AlgorithmError::OperatorOutOfBounds);
        }
        proof {
            assert(table_model(self.matrix@)[from_operator as int].len() == self.matrix.len());
        }
        set_entry(&mut self.matrix, from_operator, to_operator, true);
        proof {
            let now = table_model(self.matrix@);
            let before = table_model(old(self).matrix@);
            assert forall|i: int| 0 <= i < now.len() implies (#[trigger] now[i]).len()
                == now.len() by {
                assert(before[i].len() == before.len());
            }
        }
        self.rebuild_unrolled_graph();
        Ok(())
    }

    /// The operators other than `operator_index` that modulate it, in
    /// increasing order.
    pub fn get_modulator_indices(&self, operator_index: usize) -> (modulators: Vec<usize>)
        requires
            self.wf(),
        ensures
            modulators@ == modulators_among(
                self@.connections,
                operator_index as int,
                self@.connections.len() as int,
            ),
    {
        let mut modulator_indices: Vec<usize> = Vec::new();
        let n = self.matrix.len();
        if operator_index >= n {
            proof {
                lemma_no_modulators(self@.connections, operator_index as int, n as int);
            }
            return modulator_indices;
        }
        let mut i: usize = 0;
        while i < n
            invariant
                i <= n,
                n == self.matrix.len(),
                operator_index < n,
                self.wf(),
                modulator_indices@ == modulators_among(
                    self@.connections,
                    operator_index as int,
                    i as int,
                ),
            decreases n - i,
        {
            proof {
                assert(self@.connections[i as int] == self.matrix@[i as int]@);
                assert(self@.connections[i as int].len() == n);
            }
            if i != operator_index && self.matrix[i][operator_index] {
                modulator_indices.push(i);
            }
            i += 1;
        }
        modulator_indices
    }

    /// `n` unconnected operators of which operator 0, if there is one, is
    /// heard.
    pub fn default_simple(num_operators: usize) -> (result: Result<Self, AlgorithmError>)
        ensures
            result is Ok,
            result->Ok_0.wf(),
            result->Ok_0@ == simple_model(num_operators as int),
    {
        Ok(Self::simple(num_operators))
    }

    /// A two-operator stack: operator 1 modulates operator 0, which is
    /// heard. With fewer than two operators, the simple algorithm.
    pub fn default_stack_2(num_operators: usize) -> (result: Result<Self, AlgorithmError>)
        ensures
            result is Ok,
            result->Ok_0.wf(),
            result->Ok_0@ == stack_2_model(num_operators as int),
    {
        if num_operators < 2 {
            return Self::default_simple(num_operators);
        }
        let mut edges: Vec<(usize, usize)> = Vec::new();
        edges.push((1, 0));
        let mut carriers: Vec<usize> = Vec::new();
        carriers.push(0);
        proof {
            assert(edges@ =~= seq![(1usize, 0usize)]);
            assert(carriers@ =~= seq![0usize]);
        }
        let matrix = table_with_edges(num_operators, &edges);
        Self::new(matrix, carriers)
    }

    /// Operator 3 modulates both carriers, operator 2 one of them, and the
    /// node of operator 3 feeds back into itself once. With fewer than
    /// four operators, the simple algorithm.
    pub fn default_fanout_feedback(num_operators: usize) -> (result: Result<Self, AlgorithmError>)
        ensures
            result is Ok,
            result->Ok_0.wf(),
            result->Ok_0@ == fanout_feedback_model(num_operators as int),
    {
        if num_operators < 4 {
            return Self::default_simple(num_operators);
        }
        let mut edges: Vec<(usize, usize)> = Vec::new();
        edges.push((3, 0));
        edges.push((3, 1));
        edges.push((2, 1));
        let mut carriers: Vec<usize> = Vec::new();
        carriers.push(0);
        carriers.push(1);
        proof {
            assert(edges@ =~= seq![(3usize, 0usize), (3usize, 1usize), (2usize, 1usize)]);
            assert(carriers@ =~= seq![0usize, 1usize]);
        }
        let matrix = table_with_edges(num_operators, &edges);
        match Self::new(matrix, carriers) {
            Ok(built) => {
                let mut algo = built;
                algo.add_repeat_rule(3, 3, 1);
                Ok(algo)
            },
            Err(reason) => Err(reason),
        }
    }

    /// Two independent stacks: operator 2 over operator 0 and operator 3
    /// over operator 1. With fewer than four operators, the simple
    /// algorithm.
    pub fn default_dual_stack(num_operators: usize) -> (result: Result<Self, AlgorithmError>)
        ensures
            result is Ok,
            result->Ok_0.wf(),
            result->Ok_0@ == dual_stack_model(num_operators as int),
    {
        if num_operators < 4 {
            return Self::default_simple(num_operators);
        }
        let mut edges: Vec<(usize, usize)> = Vec::new();
        edges.push((2, 0));
        edges.push((3, 1));
        let mut carriers: Vec<usize> = Vec::new();
        carriers.push(0);
        carriers.push(1);
        proof {
            assert(edges@ =~= seq![(2usize, 0usize), (3usize, 1usize)]);
            assert(carriers@ =~= seq![0usize, 1usize]);
        }
        let matrix = table_with_edges(num_operators, &edges);
        Self::new(matrix, carriers)
    }

    /// One modulator, operator 2, over the two carriers 0 and 1. With
    /// fewer than three operators, the simple algorithm.
    pub fn default_fanout(num_operators: usize) -> (result: Result<Self, AlgorithmError>)
        ensures
            result is Ok,
            result->Ok_0.wf(),
            result->Ok_0@ == fanout_model(num_operators as int),
    {
        if num_operators < 3 {
            return Self::default_simple(num_operators);
        }
        let mut edges: Vec<(usize, usize)> = Vec::new();
        edges.push((2, 0));
        edges.push((2, 1));
        let mut carriers: Vec<usize> = Vec::new();
        carriers.push(0);
        carriers.push(1);
        proof {
            assert(edges@ =~= seq![(2usize, 0usize), (2usize, 1usize)]);
            assert(carriers@ =~= seq![0usize, 1usize]);
        }
        let matrix = table_with_edges(num_operators, &edges);
        Self::new(matrix, carriers)
    }

    /// A three-operator stack heard at operator 2, with the subgraph of
    /// plan node 1 fed back into plan node 2 once. With fewer than three
    /// operators, the simple algorithm.
    pub fn stack_3_feedback(num_operators: usize) -> (result: Result<Self, AlgorithmError>)
        ensures
            result is Ok,
            result->Ok_0.wf(),
            result->Ok_0@ == stack_3_feedback_model(num_operators as int),
    {
        if num_operators < 3 {
            return Self::default_simple(num_operators);
        }
        let mut edges: Vec<(usize, usize)> = Vec::new();
        edges.push((0, 1));
        edges.push((1, 2));
        let mut carriers: Vec<usize> = Vec::new();
        carriers.push(2);
        proof {
            assert(edges@ =~= seq![(0usize, 1usize), (1usize, 2usize)]);
            assert(carriers@ =~= seq![2usize]);
        }
        let matrix = table_with_edges(num_operators, &edges);
        match Self::new(matrix, carriers) {
            Ok(built) => {
                let mut algo = built;
                algo.add_repeat_rule(2, 1, 1);
                Ok(algo)
            },
            Err(reason) => Err(reason),
        }
    }

    /// A single carrier, operator 0, whose node feeds back into itself
    /// once. Without operators, the simple algorithm.
    pub fn default_feedback_1(num_operators: usize) -> (result: Result<Self, AlgorithmError>)
        ensures
            result is Ok,
            result->Ok_0.wf(),
            result->Ok_0@ == feedback_1_model(num_operators as int),
    {
        if num_operators < 1 {
            return Self::default_simple(num_operators);
        }
        let edges: Vec<(usize, usize)> = Vec::new();
        let mut carriers: Vec<usize> = Vec::new();
        carriers.push(0);
        proof {
            assert(edges@ =~= Seq::<(usize, usize)>::empty());
            assert(carriers@ =~= seq![0usize]);
        }
        let matrix = table_with_edges(num_operators, &edges);
        match Self::new(matrix, carriers) {
            Ok(built) => {
                let mut algo = built;
                algo.add_repeat_rule(0, 0, 1);
                Ok(algo)
            },
            Err(reason) => Err(reason),
        }
    }

    /// Whether every carrier is reported finished. `operator_finished`
    /// holds one flag per operator; a carrier without a flag counts as not
    /// finished.
    pub fn finished(&self, operator_finished: &[bool]) -> (done: bool)
        ensures
            done == forall|k: int|
                0 <= k < self@.carriers.len() ==> (#[trigger] self@.carriers[k])
                    < operator_finished@.len() && operator_finished@[self@.carriers[k] as int],
    {
        let mut k: usize = 0;
        while k < self.carriers.len()
            invariant
                k <= self.carriers.len(),
                forall|i: int|
                    0 <= i < k ==> (#[trigger] self.carriers@[i]) < operator_finished@.len()
                        && operator_finished@[self.carriers@[i] as int],
            decreases self.carriers.len() - k,
        {
            let carrier = self.carriers[k];
            if carrier >= operator_finished.len() || !operator_finished[carrier] {
                proof {
                    assert(self@.carriers[k as int] == carrier);
                }
                return false;
            }
            k += 1;
        }
        true
    }

    /// Replaces connections and carriers by those of a combined table and
    /// compiles the plan again.
    ///
    /// The table has one row per operator. In row `s`, column `t` is at
    /// least 1 when operator `s` modulates operator `t`, and the last
    /// column is at least 1 when operator `s` is a carrier. A table of
    /// another shape, or one without any carrier, is refused and leaves the
    /// algorithm as it is. An accepted table drops every feedback rule.
    pub fn set_matrix(&mut self, combined_matrix_from_ui: &[Vec<u32>]) -> (result: Result<
        (),
        AlgorithmError,
    >)
        requires
            old(self).wf(),
        ensures
            final(self).wf(),
            final(self)@ == after_set_matrix(old(self)@, combined_model(combined_matrix_from_ui@)),
            match combined_refusal(
                combined_model(combined_matrix_from_ui@),
                old(self)@.connections.len() as int,
            ) {
                Some(reason) => result == Err::<(), AlgorithmError>(reason),
                None => result is Ok,
            },
    {
        let ghost combined = combined_model(combined_matrix_from_ui@);
        let n = self.matrix.len();
        if combined_matrix_from_ui.len() != n {
            return Err(AlgorithmError::ShapeMismatch);
        }
        let mut i: usize = 0;
        while i < n
            invariant
                i <= n,
                *self == *old(self),
                old(self).wf(),
                n == self@.connections.len(),
                n == combined_matrix_from_ui@.len(),
                combined == combined_model(combined_matrix_from_ui@),
                forall|r: int| 0 <= r < i ==> (#[trigger] combined[r]).len() == n + 1,
            decreases n - i,
        {
            let width = combined_matrix_from_ui[i].len();
            if width == 0 || width - 1 != n {
                proof {
                    assert(combined[i as int].len() != n + 1);
                }
                return Err(AlgorithmError::ShapeMismatch);
            }
            i += 1;
        }
        let mut new_carriers: Vec<usize> = Vec::new();
        let mut i: usize = 0;
        while i < n
            invariant
                i <= n,
                *self == *old(self),
                old(self).wf(),
                n == self@.connections.len(),
                n == combined_matrix_from_ui@.len(),
                combined == combined_model(combined_matrix_from_ui@),
                combined_shape(combined, n as int),
                new_carriers@ == combined_carriers(combined, i as int),
            decreases n - i,
        {
            proof {
                assert(combined[i as int].len() == n + 1);
            }
            if combined_matrix_from_ui[i][n] >= 1 {
                new_carriers.push(i);
            }
            i += 1;
        }
        if new_carriers.len() == 0 {
            return Err(AlgorithmError::NoCarriers);
        }
        let mut matrix: Vec<Vec<bool>> = Vec::new();
        let mut s: usize = 0;
        while s < n
            invariant
                s <= n,
                n == combined_matrix_from_ui@.len(),
                combined == combined_model(combined_matrix_from_ui@),
                combined_shape(combined, n as int),
                matrix.len() == s,
                forall|r: int|
                    0 <= r < s ==> (#[trigger] matrix@[r])@ =~= Seq::new(
                        n as nat,
                        |t: int| combined[r][t] >= 1,
                    ),
            decreases n - s,
        {
            let mut row: Vec<bool> = Vec::new();
            let mut t: usize = 0;
            proof {
                assert(combined[s as int].len() == n + 1);
            }
            while t < n
                invariant
                    t <= n,
                    s < n,
                    n == combined_matrix_from_ui@.len(),
                    combined == combined_model(combined_matrix_from_ui@),
                    combined[s as int].len() == n + 1,
                    row@ =~= Seq::new(t as nat, |c: int| combined[s as int][c] >= 1),
                decreases n - t,
            {
                row.push(combined_matrix_from_ui[s][t] >= 1);
                proof {
                    assert(row@ =~= Seq::new((t + 1) as nat, |c: int| combined[s as int][c] >= 1));
                }
                t += 1;
            }
            matrix.push(row);
            s += 1;
        }
        proof {
            let wanted = combined_connections(combined);
            assert forall|r: int| 0 <= r < n implies table_model(matrix@)[r] == wanted[r] by {
                assert(matrix@[r]@ =~= wanted[r]);
            }
            assert(table_model(matrix@) =~= wanted);
            lemma_combined_carriers_below(combined, n as int);
        }
        self.matrix = matrix;
        self.carriers = new_carriers;
        self.repeat_rules.clear();
        proof {
            assert(self.repeat_rules@ =~= Seq::<FeedbackLoop>::empty());
            assert(square(table_model(self.matrix@)));
        }
        self.rebuild_unrolled_graph();
        Ok(())
    }
}

/// The operators below `k`, other than `target`, that modulate `target`,
/// in increasing order.
pub open spec fn modulators_among(conn: Seq<Seq<bool>>, target: int, k: int) -> Seq<usize>
    decreases k,
{
    if k <= 0 {
        Seq::empty()
    } else if k - 1 != target && connected(conn, k - 1, target) {
        modulators_among(conn, target, k - 1).push((k - 1) as usize)
    } else {
        modulators_among(conn, target, k - 1)
    }
}

/// An index that names no operator of a square table has no modulators.
pub proof fn lemma_no_modulators(conn: Seq<Seq<bool>>, target: int, k: int)
    requires
        square(conn),
        target >= conn.len(),
        0 <= k <= conn.len(),
    ensures
        modulators_among(conn, target, k) == Seq::<usize>::empty(),
    decreases k,
{
    if k > 0 {
        lemma_no_modulators(conn, target, k - 1);
    }
}

} // verus!
