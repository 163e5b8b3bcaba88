//! BPMN process graphs and the token flow through them: start and end events,
//! tasks that wait, and exclusive, inclusive, parallel and event-based gateways.

use vstd::prelude::*;
use crate::dmn::DmnTable;
use crate::json::{get_binding, insert_binding, lookup, JsonValue};
use crate::text::{has_prefix, same_text, starts_with};

verus! {

/// A sequence flow from one node to another, with an optional condition.
pub struct Connection {
    pub id: String,
    pub source_ref: String,
    pub target_ref: String,
    pub condition: Option<String>,
}

/// A node of a process graph.
pub struct GraphNode {
    pub id: String,
    pub node_type: String,
    pub name: String,
    pub decision_ref: Option<String>,
    pub map_decision_result: Option<String>,
    pub result_variable: Option<String>,
}

/// A process graph: its nodes by id, its sequence flows, the start node and the
/// decision tables that business rule tasks and conditions refer to.
pub struct GraphDefinition {
    pub id: String,
    pub name: String,
    pub nodes: Vec<(String, GraphNode)>,
    pub connections: Vec<Connection>,
    pub start_node_id: String,
    pub decisions: Option<Vec<(String, DmnTable)>>,
}

/// A running process: the tokens that are active and waiting, the nodes completed
/// so far, the process variables, and whether the process has completed.
pub struct ProcessInstance {
    pub id: String,
    pub process_id: String,
    pub active_activity_instances: Vec<String>,
    pub waiting_activity_instances: Vec<String>,
    pub completed_nodes: Vec<String>,
    pub variables: Vec<(String, JsonValue)>,
    pub completed: bool,
}

/// The number of sequence flows that end at `id`.
pub open spec fn inflow_count(conns: Seq<Connection>, id: Seq<char>) -> nat
    decreases conns.len(),
{
    if conns.len() == 0 {
        0
    } else {
        inflow_count(conns.drop_last(), id) + if conns.last().target_ref@ == id {
            1nat
        } else {
            0nat
        }
    }
}

/// Whether some sequence flow leads from `a` to `b`.
pub open spec fn is_edge(conns: Seq<Connection>, a: Seq<char>, b: Seq<char>) -> bool {
    exists|i: int| 0 <= i < conns.len() && conns[i].source_ref@ == a && conns[i].target_ref@ == b
}

/// Whether the `k`-th step of `p` follows a sequence flow.
pub open spec fn step_ok(conns: Seq<Connection>, p: Seq<Seq<char>>, k: int) -> bool {
    is_edge(conns, p[k], p[k + 1])
}

/// Whether `p` is a walk along sequence flows.
pub open spec fn is_walk(conns: Seq<Connection>, p: Seq<Seq<char>>) -> bool {
    forall|k: int| 0 <= k < p.len() - 1 ==> #[trigger] step_ok(conns, p, k)
}

/// Whether `target` can be reached from `source` along one or more sequence flows.
pub open spec fn reachable(conns: Seq<Connection>, source: Seq<char>, target: Seq<char>) -> bool {
    exists|p: Seq<Seq<char>>|
        #![trigger is_walk(conns, p)]
        p.len() >= 2 && p[0] == source && p.last() == target && is_walk(conns, p)
}

/// The number of sequence flows that end at `node_id`.
pub fn count_inflows(graph: &GraphDefinition, node_id: &str) -> (r: usize)
    ensures
        r == inflow_count(graph.connections@, node_id@),
{
    let conns = &graph.connections;
    let mut count: usize = 0;
    let mut i: usize = 0;
    while i < conns.len()
        invariant
            i <= conns@.len(),
            count == inflow_count(conns@.take(i as int), node_id@),
            count <= i,
        decreases conns.len() - i,
    {
        assert(conns@.take(i + 1).drop_last() =~= conns@.take(i as int));
        if same_text(conns[i].target_ref.as_str(), node_id) {
            count = count + 1;
        }
        i = i + 1;
    }
    assert(conns@.take(conns@.len() as int) =~= conns@);
    count
}


spec fn num_true(r: Seq<bool>) -> nat
    decreases r.len(),
{
    if r.len() == 0 {
        0
    } else {
        num_true(r.drop_last()) + if r.last() {
            1nat
        } else {
            0nat
        }
    }
}

proof fn lemma_num_true_bound(r: Seq<bool>)
    ensures
        num_true(r) <= r.len(),
    decreases r.len(),
{
    if r.len() > 0 {
        lemma_num_true_bound(r.drop_last());
    }
}

proof fn lemma_num_true_set(r: Seq<bool>, i: int)
    requires
        0 <= i < r.len(),
        !r[i],
    ensures
        num_true(r.update(i, true)) == num_true(r) + 1,
    decreases r.len(),
{
    let u = r.update(i, true);
    if i == r.len() - 1 {
        assert(u.drop_last() =~= r.drop_last());
    } else {
        assert(u.drop_last() =~= r.drop_last().update(i, true));
        lemma_num_true_set(r.drop_last(), i);
    }
}

/// The walk `p` extended by one more node `b`, reached along a flow from its end.
proof fn lemma_walk_push(conns: Seq<Connection>, p: Seq<Seq<char>>, b: Seq<char>)
    requires
        p.len() >= 1,
        is_walk(conns, p),
        is_edge(conns, p.last(), b),
    ensures
        is_walk(conns, p.push(b)),
{
    let q = p.push(b);
    assert forall|k: int| 0 <= k < q.len() - 1 implies #[trigger] step_ok(conns, q, k) by {
        if k < p.len() - 1 {
            assert(step_ok(conns, p, k));
        }
    }
}

/// The flows whose targets `reached` marks: each such target is reachable from
/// `source`; flows leaving `source` are marked.
spec fn reach_sound(conns: Seq<Connection>, source: Seq<char>, reached: Seq<bool>) -> bool {
    &&& reached.len() == conns.len()
    &&& forall|i: int|
        0 <= i < conns.len() && #[trigger] reached[i] ==> reachable(conns, source, conns[i].target_ref@)
    &&& forall|i: int|
        0 <= i < conns.len() && #[trigger] conns[i].source_ref@ == source ==> reached[i]
}

/// No flow that leaves the target of a marked flow is unmarked.
spec fn reach_closed(conns: Seq<Connection>, reached: Seq<bool>) -> bool {
    forall|i: int, j: int|
        0 <= i < conns.len() && 0 <= j < conns.len() && #[trigger] reached[j]
            && conns[j].target_ref@ == #[trigger] conns[i].source_ref@ ==> reached[i]
}

proof fn lemma_walk_marked(
    conns: Seq<Connection>,
    source: Seq<char>,
    reached: Seq<bool>,
    p: Seq<Seq<char>>,
    k: int,
)
    requires
        reach_sound(conns, source, reached),
        reach_closed(conns, reached),
        p.len() >= 2,
        p[0] == source,
        is_walk(conns, p),
        1 <= k < p.len(),
    ensures
        exists|i: int| 0 <= i < conns.len() && reached[i] && conns[i].target_ref@ == p[k],
    decreases k,
{
    assert(step_ok(conns, p, k - 1));
    let i = choose|i: int|
        0 <= i < conns.len() && conns[i].source_ref@ == p[k - 1] && conns[i].target_ref@ == p[k];
    if k == 1 {
        assert(reached[i]);
    } else {
        lemma_walk_marked(conns, source, reached, p, k - 1);
        let j = choose|j: int| 0 <= j < conns.len() && reached[j] && conns[j].target_ref@ == p[k - 1];
        assert(reached[i]);
    }
}

/// Whether `target` can be reached from `source` along one or more sequence flows.
pub fn has_path(graph: &GraphDefinition, source: &str, target: &str) -> (r: bool)
    ensures
        r == reachable(graph.connections@, source@, target@),
{
    let conns = &graph.connections;
    let n = conns.len();
    let mut reached: Vec<bool> = Vec::new();
    let mut i: usize = 0;
    while i < n
        invariant
            n == conns@.len(),
            i <= n,
            reached@.len() == i,
            forall|j: int|
                0 <= j < i ==> (#[trigger] reached@[j] <==> conns@[j].source_ref@ == source@),
        decreases n - i,
    {
        reached.push(same_text(conns[i].source_ref.as_str(), source));
        i = i + 1;
    }
    proof {
        assert forall|j: int|
            0 <= j < n && #[trigger] reached@[j] implies reachable(
            conns@,
            source@,
            conns@[j].target_ref@,
        ) by {
            let p = seq![source@, conns@[j].target_ref@];
            assert(step_ok(conns@, p, 0));
            assert(is_walk(conns@, p));
        }
    }
    let mut changed = true;
    while changed
        invariant
            n == conns@.len(),
            reach_sound(conns@, source@, reached@),
            !changed ==> reach_closed(conns@, reached@),
        decreases n - num_true(reached@), if changed { 1int } else { 0int },
    {
        changed = false;
        let ghost start_count = num_true(reached@);
        let mut i: usize = 0;
        while i < n
            invariant
                n == conns@.len(),
                i <= n,
                reach_sound(conns@, source@, reached@),
                num_true(reached@) >= start_count,
                changed ==> num_true(reached@) > start_count,
                !changed ==> forall|a: int, b: int|
                    0 <= a < i && 0 <= b < n && #[trigger] reached@[b] && conns@[b].target_ref@
                        == #[trigger] conns@[a].source_ref@ ==> reached@[a],
            decreases n - i,
        {
            if !reached[i] {
                let mut j: usize = 0;
                let mut found = false;
                while j < n
                    invariant
                        n == conns@.len(),
                        i < n,
                        j <= n,
                        reached@.len() == n,
                        !found ==> forall|b: int|
                            0 <= b < j && #[trigger] reached@[b] ==> conns@[b].target_ref@
                                != conns@[i as int].source_ref@,
                        found ==> exists|b: int|
                            0 <= b < n && reached@[b] && conns@[b].target_ref@
                                == conns@[i as int].source_ref@,
                    ensures
                        !found ==> forall|b: int|
                            0 <= b < n && #[trigger] reached@[b] ==> conns@[b].target_ref@
                                != conns@[i as int].source_ref@,
                        found ==> exists|b: int|
                            0 <= b < n && reached@[b] && conns@[b].target_ref@
                                == conns@[i as int].source_ref@,
                    decreases n - j,
                {
                    if reached[j] && same_text(
                        conns[j].target_ref.as_str(),
                        conns[i].source_ref.as_str(),
                    ) {
                        found = true;
                        break;
                    }
                    j = j + 1;
                }
                if found {
                    proof {
                        let b = choose|b: int|
                            0 <= b < n && reached@[b] && conns@[b].target_ref@
                                == conns@[i as int].source_ref@;
                        let p = choose|p: Seq<Seq<char>>|
                            #![trigger is_walk(conns@, p)]
                            p.len() >= 2 && p[0] == source@ && p.last() == conns@[b].target_ref@
                                && is_walk(conns@, p);
                        assert(is_edge(conns@, p.last(), conns@[i as int].target_ref@));
                        lemma_walk_push(conns@, p, conns@[i as int].target_ref@);
                        let q = p.push(conns@[i as int].target_ref@);
                        assert(q.len() >= 2 && q[0] == source@ && q.last() == conns@[
                            i as int
                        ].target_ref@);
                        lemma_num_true_set(reached@, i as int);
                    }
                    let ghost before = reached@;
                    reached.set(i, true);
                    proof {
                        assert(reached@ == before.update(i as int, true));
                        lemma_num_true_bound(reached@);
                    }
                    changed = true;
                } else {
                    assert forall|b: int| 0 <= b < n && #[trigger] reached@[b] implies conns@[b].target_ref@
                        != conns@[i as int].source_ref@ by {}
                }
            }
            proof {
                if !changed {
                    assert forall|a: int, b: int|
                        0 <= a < i + 1 && 0 <= b < n && #[trigger] reached@[b] && conns@[b].target_ref@
                            == #[trigger] conns@[a].source_ref@ implies reached@[a] by {
                        if a == i {
                        }
                    }
                }
            }
            i = i + 1;
        }
        proof {
            lemma_num_true_bound(reached@);
        }
    }
    let mut k: usize = 0;
    while k < n
        invariant
            conns@ == graph.connections@,
            n == conns@.len(),
            k <= n,
            reach_sound(conns@, source@, reached@),
            reach_closed(conns@, reached@),
            forall|b: int| 0 <= b < k && #[trigger] reached@[b] ==> conns@[b].target_ref@ != target@,
        decreases n - k,
    {
        if reached[k] && same_text(conns[k].target_ref.as_str(), target) {
            assert(reached@[k as int]);
            assert(reachable(conns@, source@, conns@[k as int].target_ref@));
            assert(conns@[k as int].target_ref@ == target@);
            assert(reachable(conns@, source@, target@));
            return true;
        }
        k = k + 1;
    }
    proof {
        if reachable(conns@, source@, target@) {
            let p = choose|p: Seq<Seq<char>>|
                #![trigger is_walk(conns@, p)]
                p.len() >= 2 && p[0] == source@ && p.last() == target@ && is_walk(conns@, p);
            lemma_walk_marked(conns@, source@, reached@, p, p.len() - 1);
            let b = choose|b: int|
                0 <= b < conns@.len() && reached@[b] && conns@[b].target_ref@ == p[p.len() - 1];
            assert(reached@[b]);
            assert(conns@[b].target_ref@ == target@);
        }
    }
    false
}


/// The views of a list of strings.
pub open spec fn strs(v: Seq<String>) -> Seq<Seq<char>> {
    v.map_values(|x: String| x@)
}

/// The sequence flows that leave `source`, in graph order.
pub open spec fn outgoing(conns: Seq<Connection>, source: Seq<char>) -> Seq<Connection>
    decreases conns.len(),
{
    if conns.len() == 0 {
        Seq::empty()
    } else if conns.last().source_ref@ == source {
        outgoing(conns.drop_last(), source).push(conns.last())
    } else {
        outgoing(conns.drop_last(), source)
    }
}

/// The targets of a list of flows.
pub open spec fn targets(flows: Seq<Connection>) -> Seq<Seq<char>> {
    flows.map_values(|c: Connection| c.target_ref@)
}

/// Appends to `instance`'s active tokens one token per flow leaving `source_ref`,
/// in graph order.
pub fn transition_outbound(graph: &GraphDefinition, instance: &mut ProcessInstance, source_ref: &str)
    ensures
        strs(final(instance).active_activity_instances@) == strs(
            old(instance).active_activity_instances@,
        ) + targets(outgoing(graph.connections@, source_ref@)),
        final(instance).waiting_activity_instances@ == old(instance).waiting_activity_instances@,
        final(instance).completed_nodes@ == old(instance).completed_nodes@,
        final(instance).variables@ == old(instance).variables@,
        final(instance).completed == old(instance).completed,
        final(instance).id@ == old(instance).id@,
        final(instance).process_id@ == old(instance).process_id@,
{
    let conns = &graph.connections;
    let mut i: usize = 0;
    while i < conns.len()
        invariant
            conns@ == graph.connections@,
            i <= conns@.len(),
            strs(instance.active_activity_instances@) == strs(
                old(instance).active_activity_instances@,
            ) + targets(outgoing(conns@.take(i as int), source_ref@)),
            instance.waiting_activity_instances@ == old(instance).waiting_activity_instances@,
            instance.completed_nodes@ == old(instance).completed_nodes@,
            instance.variables@ == old(instance).variables@,
            instance.completed == old(instance).completed,
            instance.id@ == old(instance).id@,
            instance.process_id@ == old(instance).process_id@,
        decreases conns.len() - i,
    {
        assert(conns@.take(i + 1).drop_last() =~= conns@.take(i as int));
        assert(conns@.take(i + 1).last() == conns@[i as int]);
        if same_text(conns[i].source_ref.as_str(), source_ref) {
            let t = conns[i].target_ref.clone();
            let ghost prev = instance.active_activity_instances@;
            instance.active_activity_instances.push(t);
            let ghost o = outgoing(conns@.take(i as int), source_ref@);
            assert(outgoing(conns@.take(i + 1), source_ref@) == o.push(conns@[i as int]));
            assert(targets(o.push(conns@[i as int])) =~= targets(o).push(conns@[i as int].target_ref@));
            assert(strs(prev.push(t)) =~= strs(prev).push(t@));
            assert(strs(instance.active_activity_instances@) =~= strs(
                old(instance).active_activity_instances@,
            ) + targets(outgoing(conns@.take(i + 1), source_ref@)));
        } else {
            assert(outgoing(conns@.take(i + 1), source_ref@) == outgoing(
                conns@.take(i as int),
                source_ref@,
            ));
        }
        i = i + 1;
    }
    assert(conns@.take(conns@.len() as int) =~= conns@);
}


/// The positions, in graph order, of the flows that leave `source`.
pub fn outgoing_indices(graph: &GraphDefinition, source: &str) -> (r: Vec<usize>)
    ensures
        r@.map_values(|i: usize| graph.connections@[i as int]) == outgoing(
            graph.connections@,
            source@,
        ),
        forall|k: int| 0 <= k < r@.len() ==> r@[k] < graph.connections@.len(),
{
    let conns = &graph.connections;
    let mut r: Vec<usize> = Vec::new();
    let mut i: usize = 0;
    while i < conns.len()
        invariant
            conns@ == graph.connections@,
            i <= conns@.len(),
            r@.map_values(|j: usize| conns@[j as int]) == outgoing(conns@.take(i as int), source@),
            forall|k: int| 0 <= k < r@.len() ==> r@[k] < i,
        decreases conns.len() - i,
    {
        assert(conns@.take(i + 1).drop_last() =~= conns@.take(i as int));
        assert(conns@.take(i + 1).last() == conns@[i as int]);
        if same_text(conns[i].source_ref.as_str(), source) {
            let ghost prev = r@;
            r.push(i);
            assert(r@.map_values(|j: usize| conns@[j as int]) =~= prev.map_values(
                |j: usize| conns@[j as int],
            ).push(conns@[i as int]));
        }
        i = i + 1;
    }
    assert(conns@.take(conns@.len() as int) =~= conns@);
    r
}

/// The position of the first outgoing flow, from `p` on, whose outcome is known
/// and true.
pub open spec fn first_true_from(outcomes: Seq<bool>, n: int, p: int) -> Option<int>
    decreases n - p,
{
    if p >= n {
        None
    } else if p < outcomes.len() && outcomes[p] {
        Some(p)
    } else {
        first_true_from(outcomes, n, p + 1)
    }
}

/// Where an exclusive gateway sends its token: along the first outgoing flow whose
/// condition holds, or else along the first outgoing flow.
pub open spec fn exclusive_targets(outs: Seq<Connection>, outcomes: Seq<bool>) -> Seq<Seq<char>> {
    match first_true_from(outcomes, outs.len() as int, 0) {
        Some(p) => seq![outs[p].target_ref@],
        None => if outs.len() > 0 {
            seq![outs[0].target_ref@]
        } else {
            Seq::empty()
        },
    }
}

/// The outgoing flows (among the first `n`) whose condition holds.
pub open spec fn chosen(outs: Seq<Connection>, outcomes: Seq<bool>, n: int) -> Seq<Connection>
    decreases n,
{
    if n <= 0 {
        Seq::empty()
    } else if n - 1 < outcomes.len() && outcomes[n - 1] {
        chosen(outs, outcomes, n - 1).push(outs[n - 1])
    } else {
        chosen(outs, outcomes, n - 1)
    }
}

/// Where an inclusive gateway sends tokens: along every outgoing flow whose
/// condition holds, or else along the first outgoing flow.
pub open spec fn inclusive_targets(outs: Seq<Connection>, outcomes: Seq<bool>) -> Seq<Seq<char>> {
    let t = targets(chosen(outs, outcomes, outs.len() as int));
    if t.len() > 0 {
        t
    } else if outs.len() > 0 {
        seq![outs[0].target_ref@]
    } else {
        Seq::empty()
    }
}

/// What the fields of a process instance other than its active tokens keep
/// across a gateway's transition.
pub open spec fn same_but_active(a: ProcessInstance, b: ProcessInstance) -> bool {
    &&& a.waiting_activity_instances@ == b.waiting_activity_instances@
    &&& a.completed_nodes@ == b.completed_nodes@
    &&& a.variables@ == b.variables@
    &&& a.completed == b.completed
    &&& a.id@ == b.id@
    &&& a.process_id@ == b.process_id@
}

/// Moves the token of the exclusive gateway `source_ref` on. `outcomes[p]` is the
/// outcome of the condition of the `p`-th flow leaving the gateway; conditions
/// are evaluated in order until one holds, so outcomes after it may be missing.
pub fn transition_exclusive(
    graph: &GraphDefinition,
    instance: &mut ProcessInstance,
    source_ref: &str,
    outcomes: &Vec<bool>,
)
    ensures
        host_record(*old(instance), *final(instance)),
        strs(final(instance).active_activity_instances@) == strs(
            old(instance).active_activity_instances@,
        ) + exclusive_targets(outgoing(graph.connections@, source_ref@), outcomes@),
        same_but_active(*final(instance), *old(instance)),
{
    let outs = outgoing_indices(graph, source_ref);
    let ghost flows = outgoing(graph.connections@, source_ref@);
    assert(outs@.len() == flows.len());
    let mut p: usize = 0;
    while p < outs.len()
        invariant
            outs@.map_values(|i: usize| graph.connections@[i as int]) == flows,
            outs@.len() == flows.len(),
            flows == outgoing(graph.connections@, source_ref@),
            forall|k: int| 0 <= k < outs@.len() ==> outs@[k] < graph.connections@.len(),
            p <= outs@.len(),
            first_true_from(outcomes@, outs@.len() as int, 0) == first_true_from(
                outcomes@,
                outs@.len() as int,
                p as int,
            ),
            *instance == *old(instance),
        decreases outs.len() - p,
    {
        if p < outcomes.len() && outcomes[p] {
            let t = graph.connections[outs[p]].target_ref.clone();
            assert(flows[p as int] == graph.connections@[outs@[p as int] as int]);
            let ghost prev = instance.active_activity_instances@;
            instance.active_activity_instances.push(t);
            assert(strs(prev.push(t)) =~= strs(prev).push(t@));
            assert(first_true_from(outcomes@, outs@.len() as int, p as int) == Some(p as int));
            assert(exclusive_targets(flows, outcomes@) == seq![t@]);
            assert(strs(prev).push(t@) =~= strs(prev) + seq![t@]);
            return;
        }
        p = p + 1;
    }
    if outs.len() > 0 {
        let t = graph.connections[outs[0]].target_ref.clone();
        assert(flows[0] == graph.connections@[outs@[0] as int]);
        let ghost prev = instance.active_activity_instances@;
        instance.active_activity_instances.push(t);
        assert(strs(prev.push(t)) =~= strs(prev).push(t@));
        assert(strs(prev).push(t@) =~= strs(prev) + seq![t@]);
    } else {
        assert(strs(instance.active_activity_instances@) =~= strs(
            old(instance).active_activity_instances@,
        ) + Seq::<Seq<char>>::empty());
    }
}

/// Moves the tokens of the inclusive gateway `source_ref` on. `outcomes[p]` is the
/// outcome of the condition of the `p`-th flow leaving the gateway.
pub fn transition_inclusive(
    graph: &GraphDefinition,
    instance: &mut ProcessInstance,
    source_ref: &str,
    outcomes: &Vec<bool>,
)
    ensures
        host_record(*old(instance), *final(instance)),
        strs(final(instance).active_activity_instances@) == strs(
            old(instance).active_activity_instances@,
        ) + inclusive_targets(outgoing(graph.connections@, source_ref@), outcomes@),
        same_but_active(*final(instance), *old(instance)),
{
    let outs = outgoing_indices(graph, source_ref);
    let ghost flows = outgoing(graph.connections@, source_ref@);
    assert(outs@.len() == flows.len());
    let mut p: usize = 0;
    let mut activated_any = false;
    while p < outs.len()
        invariant
            outs@.map_values(|i: usize| graph.connections@[i as int]) == flows,
            forall|k: int| 0 <= k < outs@.len() ==> outs@[k] < graph.connections@.len(),
            p <= outs@.len(),
            strs(instance.active_activity_instances@) == strs(
                old(instance).active_activity_instances@,
            ) + targets(chosen(flows, outcomes@, p as int)),
            activated_any == (chosen(flows, outcomes@, p as int).len() > 0),
            same_but_active(*instance, *old(instance)),
        decreases outs.len() - p,
    {
        if p < outcomes.len() && outcomes[p] {
            let t = graph.connections[outs[p]].target_ref.clone();
            assert(flows[p as int] == graph.connections@[outs@[p as int] as int]);
            let ghost prev = instance.active_activity_instances@;
            let ghost c = chosen(flows, outcomes@, p as int);
            instance.active_activity_instances.push(t);
            assert(chosen(flows, outcomes@, p + 1) == c.push(flows[p as int]));
            assert(targets(c.push(flows[p as int])) =~= targets(c).push(t@));
            assert(strs(prev.push(t)) =~= strs(prev).push(t@));
            activated_any = true;
        }
        p = p + 1;
    }
    if !activated_any {
        assert(targets(chosen(flows, outcomes@, p as int)) =~= Seq::<Seq<char>>::empty());
        if outs.len() > 0 {
            let t = graph.connections[outs[0]].target_ref.clone();
            assert(flows[0] == graph.connections@[outs@[0] as int]);
            let ghost prev = instance.active_activity_instances@;
            instance.active_activity_instances.push(t);
            assert(strs(prev.push(t)) =~= strs(prev).push(t@));
            assert(strs(prev).push(t@) =~= strs(prev) + seq![t@]);
            assert(strs(old(instance).active_activity_instances@) + Seq::<Seq<char>>::empty()
                =~= strs(old(instance).active_activity_instances@));
        } else {
            assert(strs(old(instance).active_activity_instances@) + Seq::<Seq<char>>::empty()
                =~= strs(old(instance).active_activity_instances@));
        }
    }
}


/// How often `x` occurs in `v`.
pub open spec fn count_in(v: Seq<Seq<char>>, x: Seq<char>) -> nat
    decreases v.len(),
{
    if v.len() == 0 {
        0
    } else {
        count_in(v.drop_last(), x) + if v.last() == x {
            1nat
        } else {
            0nat
        }
    }
}

/// `v` without any occurrence of `x`.
pub open spec fn without(v: Seq<Seq<char>>, x: Seq<char>) -> Seq<Seq<char>>
    decreases v.len(),
{
    if v.len() == 0 {
        v
    } else if v.last() == x {
        without(v.drop_last(), x)
    } else {
        without(v.drop_last(), x).push(v.last())
    }
}

/// Whether one of the tokens in `v`, other than one on `node` itself, can still
/// reach `node` along sequence flows.
pub open spec fn token_may_arrive(conns: Seq<Connection>, v: Seq<Seq<char>>, node: Seq<char>) -> bool {
    exists|i: int| 0 <= i < v.len() && v[i] != node && reachable(conns, v[i], node)
}

/// How often `x` occurs in `v`.
pub fn count_equal(v: &Vec<String>, x: &str) -> (r: usize)
    ensures
        r == count_in(strs(v@), x@),
{
    let mut c: usize = 0;
    let mut i: usize = 0;
    while i < v.len()
        invariant
            i <= v@.len(),
            c == count_in(strs(v@.take(i as int)), x@),
            c <= i,
        decreases v.len() - i,
    {
        assert(strs(v@.take(i + 1)).drop_last() =~= strs(v@.take(i as int)));
        if same_text(v[i].as_str(), x) {
            c = c + 1;
        }
        i = i + 1;
    }
    assert(v@.take(v@.len() as int) =~= v@);
    c
}

/// Removes every occurrence of `x` from `v`.
pub fn remove_all(v: &mut Vec<String>, x: &str)
    ensures
        strs(final(v)@) == without(strs(old(v)@), x@),
{
    let mut kept: Vec<String> = Vec::new();
    let mut i: usize = 0;
    while i < v.len()
        invariant
            v@ == old(v)@,
            i <= v@.len(),
            strs(kept@) == without(strs(v@.take(i as int)), x@),
        decreases v.len() - i,
    {
        assert(strs(v@.take(i + 1)).drop_last() =~= strs(v@.take(i as int)));
        assert(strs(v@.take(i + 1)).last() == v@[i as int]@);
        if !same_text(v[i].as_str(), x) {
            let ghost prev = kept@;
            kept.push(v[i].clone());
            assert(strs(kept@) =~= strs(prev).push(v@[i as int]@));
        }
        i = i + 1;
    }
    assert(v@.take(v@.len() as int) =~= v@);
    *v = kept;
}

/// Whether one of the tokens in `v`, other than one on `node`, can still reach
/// `node`.
pub fn any_may_arrive(graph: &GraphDefinition, v: &Vec<String>, node: &str) -> (r: bool)
    ensures
        r == token_may_arrive(graph.connections@, strs(v@), node@),
{
    let mut i: usize = 0;
    while i < v.len()
        invariant
            i <= v@.len(),
            forall|j: int|
                0 <= j < i ==> !(strs(v@)[j] != node@ && reachable(
                    graph.connections@,
                    strs(v@)[j],
                    node@,
                )),
        decreases v.len() - i,
    {
        if !same_text(v[i].as_str(), node) && has_path(graph, v[i].as_str(), node) {
            assert(strs(v@)[i as int] == v@[i as int]@);
            return true;
        }
        i = i + 1;
    }
    false
}

/// What is left to do for a node after its token has been taken.
#[derive(Debug, PartialEq, Eq, Structural)]
pub enum NextWork {
    /// Nothing: the node has been handled entirely.
    Nothing,
    /// Evaluate the conditions of the flows leaving an exclusive gateway, in order
    /// until one holds, and hand the outcomes to `transition_exclusive`.
    ExclusiveGateway,
    /// Evaluate the conditions of all flows leaving an inclusive gateway and hand
    /// the outcomes to `transition_inclusive`.
    InclusiveGateway,
    /// Call the service task's host API and hand the reply to
    /// `complete_service_task`.
    ServiceTask,
    /// Evaluate the task's decision table and hand the outcome to
    /// `complete_business_rule`.
    BusinessRuleTask,
}

/// The result of taking the next active token.
#[derive(Debug)]
pub enum Step {
    /// No token is active: the run is over.
    Idle,
    /// The token names no node of the graph; the run stops.
    NodeMissing(String),
    /// The token's node has been taken; what remains to be done for it.
    Processed(String, NextWork),
}

/// Whether a node type is one whose token waits for outside input.
pub open spec fn is_wait_type(ty: Seq<char>) -> bool {
    ty == "UserTask"@ || ty == "ReceiveTask"@ || ty == "IntermediateCatchEvent"@ || ty
        == "CallActivity"@
}

/// How taking the token `cur` of a node of type `ty` changes the active tokens
/// (`rest`, after `cur` was taken) and the waiting ones: the new active tokens, the
/// new waiting tokens, whether the process completes, and what remains to do.
pub open spec fn token_effect(
    conns: Seq<Connection>,
    ty: Seq<char>,
    cur: Seq<char>,
    rest: Seq<Seq<char>>,
    waiting: Seq<Seq<char>>,
) -> (Seq<Seq<char>>, Seq<Seq<char>>, bool, NextWork) {
    let outs = targets(outgoing(conns, cur));
    let inflows = inflow_count(conns, cur);
    if ty == "StartEvent"@ || ty == "EventBasedGateway"@ {
        (rest + outs, waiting, false, NextWork::Nothing)
    } else if ty == "ExclusiveGateway"@ {
        (rest, waiting, false, NextWork::ExclusiveGateway)
    } else if ty == "InclusiveGateway"@ {
        if inflows > 1 {
            if token_may_arrive(conns, rest, cur) || token_may_arrive(conns, waiting, cur) {
                (rest, waiting.push(cur), false, NextWork::Nothing)
            } else {
                (without(rest, cur), without(waiting, cur), false, NextWork::InclusiveGateway)
            }
        } else {
            (rest, waiting, false, NextWork::InclusiveGateway)
        }
    } else if ty == "ParallelGateway"@ {
        if inflows > 1 {
            if 1 + count_in(rest, cur) + count_in(waiting, cur) < inflows {
                (rest, waiting.push(cur), false, NextWork::Nothing)
            } else {
                (without(rest, cur) + outs, without(waiting, cur), false, NextWork::Nothing)
            }
        } else {
            (rest + outs, waiting, false, NextWork::Nothing)
        }
    } else if ty == "ServiceTask"@ {
        (rest, waiting, false, NextWork::ServiceTask)
    } else if ty == "BusinessRuleTask"@ {
        (rest, waiting, false, NextWork::BusinessRuleTask)
    } else if is_wait_type(ty) {
        (rest, waiting.push(cur), false, NextWork::Nothing)
    } else if ty == "EndEvent"@ {
        (rest, waiting, rest.len() == 0 && waiting.len() == 0, NextWork::Nothing)
    } else {
        (rest, waiting, false, NextWork::Nothing)
    }
}


/// What one call of `advance` from `a` to `b`, giving `r`, does: its contract.
pub open spec fn advance_post(graph: GraphDefinition, a: ProcessInstance, b: ProcessInstance, r: Step) -> bool {
    &&& advance_record(graph, a, b, r)
    &&& b.id@ == a.id@
    &&& b.process_id@ == a.process_id@
    &&& b.variables@ == a.variables@
    &&& a.active_activity_instances@.len() == 0 ==> r is Idle && b == a
    &&& a.active_activity_instances@.len() > 0 ==> ({
        let active = strs(a.active_activity_instances@);
        let cur = active[0];
        let rest = active.drop_first();
        let waiting = strs(a.waiting_activity_instances@);
        match lookup(graph.nodes@, cur) {
            None => {
                &&& r matches Step::NodeMissing(id) && id@ == cur
                &&& strs(b.active_activity_instances@) == rest
                &&& b.waiting_activity_instances@ == a.waiting_activity_instances@
                &&& b.completed_nodes@ == a.completed_nodes@
                &&& b.completed == a.completed
            },
            Some(node) => {
                let e = token_effect(graph.connections@, node.node_type@, cur, rest, waiting);
                &&& r matches Step::Processed(id, next) && id@ == cur && next == e.3
                &&& strs(b.completed_nodes@) == strs(a.completed_nodes@).push(cur)
                &&& strs(b.active_activity_instances@) == e.0
                &&& strs(b.waiting_activity_instances@) == e.1
                &&& b.completed == (a.completed || e.2)
            },
        }
    })
}

/// `without(v, x)` keeps no occurrence of `x`.
proof fn lemma_without_drops(v: Seq<Seq<char>>, x: Seq<char>)
    ensures
        forall|i: int| 0 <= i < without(v, x).len() ==> without(v, x)[i] != x,
    decreases v.len(),
{
    if v.len() > 0 {
        lemma_without_drops(v.drop_last(), x);
        let w = without(v.drop_last(), x);
        if v.last() != x {
            assert forall|i: int| 0 <= i < w.push(v.last()).len() implies w.push(v.last())[i] != x by {
                if i < w.len() {
                    assert(w.push(v.last())[i] == w[i]);
                }
            }
        }
    }
}

/// Parallel join law: a parallel gateway with several incoming flows waits
/// (its token parks on it) while fewer tokens than it has incoming flows have
/// arrived; once enough have, it fires: no token is left waiting on it, and one
/// token goes along each outgoing flow.
pub proof fn law_parallel_join(
    graph: GraphDefinition,
    a: ProcessInstance,
    b: ProcessInstance,
    r: Step,
    node: GraphNode,
)
    requires
        advance_post(graph, a, b, r),
        a.active_activity_instances@.len() > 0,
        lookup(graph.nodes@, a.active_activity_instances@[0]@) == Some(node),
        node.node_type@ == "ParallelGateway"@,
        inflow_count(graph.connections@, a.active_activity_instances@[0]@) > 1,
    ensures
        ({
            let cur = a.active_activity_instances@[0]@;
            let rest = strs(a.active_activity_instances@).drop_first();
            let waiting = strs(a.waiting_activity_instances@);
            let arrived = 1 + count_in(rest, cur) + count_in(waiting, cur);
            if arrived < inflow_count(graph.connections@, cur) {
                &&& strs(b.waiting_activity_instances@) == waiting.push(cur)
                &&& strs(b.active_activity_instances@) == rest
            } else {
                &&& forall|i: int|
                    0 <= i < b.waiting_activity_instances@.len()
                        ==> b.waiting_activity_instances@[i]@ != cur
                &&& strs(b.active_activity_instances@).len() >= targets(
                    outgoing(graph.connections@, cur),
                ).len()
                &&& strs(b.active_activity_instances@).subrange(
                    strs(b.active_activity_instances@).len() - targets(
                        outgoing(graph.connections@, cur),
                    ).len(),
                    strs(b.active_activity_instances@).len() as int,
                ) == targets(outgoing(graph.connections@, cur))
            }
        }),
{
    let active = strs(a.active_activity_instances@);
    let cur = active[0];
    let rest = active.drop_first();
    let waiting = strs(a.waiting_activity_instances@);
    reveal_strlit("ParallelGateway");
    reveal_strlit("StartEvent");
    reveal_strlit("EventBasedGateway");
    reveal_strlit("ExclusiveGateway");
    reveal_strlit("InclusiveGateway");
    let ty = node.node_type@;
    assert(ty.len() != "StartEvent"@.len());
    assert(ty.len() != "EventBasedGateway"@.len());
    assert(ty.len() != "ExclusiveGateway"@.len());
    assert(ty.len() != "InclusiveGateway"@.len());
    let outs = targets(outgoing(graph.connections@, cur));
    let e = token_effect(graph.connections@, ty, cur, rest, waiting);
    if 1 + count_in(rest, cur) + count_in(waiting, cur) >= inflow_count(graph.connections@, cur) {
        lemma_without_drops(waiting, cur);
        assert(e.1 == without(waiting, cur));
        assert forall|i: int| 0 <= i < b.waiting_activity_instances@.len() implies b.waiting_activity_instances@[i]@
            != cur by {
            assert(strs(b.waiting_activity_instances@)[i] == b.waiting_activity_instances@[i]@);
        }
        let w = without(rest, cur);
        assert(e.0 == w + outs);
        assert((w + outs).subrange(w.len() as int, (w + outs).len() as int) =~= outs);
    }
}

/// Exclusive gateway law: the token goes along the first outgoing flow whose
/// condition holds (and along no other flow); when none holds, along the first
/// outgoing flow.
pub proof fn law_exclusive_takes_first_true(
    graph: GraphDefinition,
    source: Seq<char>,
    outcomes: Seq<bool>,
    a: ProcessInstance,
    b: ProcessInstance,
    p: int,
)
    requires
        strs(b.active_activity_instances@) == strs(a.active_activity_instances@) + exclusive_targets(
            outgoing(graph.connections@, source),
            outcomes,
        ),
        0 <= p < outgoing(graph.connections@, source).len(),
        p < outcomes.len() && outcomes[p],
        forall|q: int| 0 <= q < p && q < outcomes.len() ==> !outcomes[q],
    ensures
        strs(b.active_activity_instances@) == strs(a.active_activity_instances@).push(
            outgoing(graph.connections@, source)[p].target_ref@,
        ),
{
    let outs = outgoing(graph.connections@, source);
    lemma_first_true_is(outcomes, outs.len() as int, 0, p);
    assert(seq![outs[p].target_ref@] =~= Seq::<Seq<char>>::empty().push(outs[p].target_ref@));
}

/// `first_true_from` finds `p` when `p` is the first holding outcome from `i`.
proof fn lemma_first_true_is(outcomes: Seq<bool>, n: int, i: int, p: int)
    requires
        0 <= i <= p < n,
        p < outcomes.len() && outcomes[p],
        forall|q: int| i <= q < p && q < outcomes.len() ==> !outcomes[q],
    ensures
        first_true_from(outcomes, n, i) == Some(p),
    decreases p - i,
{
    if i < p {
        lemma_first_true_is(outcomes, n, i + 1, p);
    }
}

/// Completion law: a step that completes the process leaves no token active
/// and none waiting. An end event reached while a task still waits (or another
/// token is still active) does not complete the process.
pub proof fn law_completion_leaves_no_tokens(
    graph: GraphDefinition,
    a: ProcessInstance,
    b: ProcessInstance,
    r: Step,
)
    requires
        advance_post(graph, a, b, r),
        b.completed,
        !a.completed,
    ensures
        b.active_activity_instances@.len() == 0,
        b.waiting_activity_instances@.len() == 0,
{
    let active = strs(a.active_activity_instances@);
    let cur = active[0];
    let node = lookup(graph.nodes@, cur)->Some_0;
    assert(strs(b.active_activity_instances@).len() == b.active_activity_instances@.len());
    assert(strs(b.waiting_activity_instances@).len() == b.waiting_activity_instances@.len());
}

/// Inclusive join law: an inclusive gateway with several incoming flows does
/// not fire while some other token, active or waiting, can still reach it; its
/// token waits on it instead, and the other tokens stay as they are.
pub proof fn law_inclusive_join_waits(
    graph: GraphDefinition,
    a: ProcessInstance,
    b: ProcessInstance,
    r: Step,
    node: GraphNode,
)
    requires
        advance_post(graph, a, b, r),
        a.active_activity_instances@.len() > 0,
        lookup(graph.nodes@, a.active_activity_instances@[0]@) == Some(node),
        node.node_type@ == "InclusiveGateway"@,
        inflow_count(graph.connections@, a.active_activity_instances@[0]@) > 1,
        (exists|t: int|
            1 <= t < a.active_activity_instances@.len()
                && a.active_activity_instances@[t]@ != a.active_activity_instances@[0]@
                && reachable(
                graph.connections@,
                a.active_activity_instances@[t]@,
                a.active_activity_instances@[0]@,
            )) || (exists|t: int|
            0 <= t < a.waiting_activity_instances@.len()
                && a.waiting_activity_instances@[t]@ != a.active_activity_instances@[0]@
                && reachable(
                graph.connections@,
                a.waiting_activity_instances@[t]@,
                a.active_activity_instances@[0]@,
            )),
    ensures
        r matches Step::Processed(id, next) && id@ == a.active_activity_instances@[0]@ && next
            == NextWork::Nothing,
        strs(b.waiting_activity_instances@) == strs(a.waiting_activity_instances@).push(
            a.active_activity_instances@[0]@,
        ),
        strs(b.active_activity_instances@) == strs(a.active_activity_instances@).drop_first(),
{
    let active = strs(a.active_activity_instances@);
    let cur = active[0];
    let rest = active.drop_first();
    let waiting = strs(a.waiting_activity_instances@);
    assert(cur == a.active_activity_instances@[0]@);
    reveal_strlit("InclusiveGateway");
    reveal_strlit("StartEvent");
    reveal_strlit("EventBasedGateway");
    reveal_strlit("ExclusiveGateway");
    let ty = node.node_type@;
    assert(ty.len() != "StartEvent"@.len());
    assert(ty.len() != "EventBasedGateway"@.len());
    assert(ty[0] != "ExclusiveGateway"@[0]);
    assert(ty != "StartEvent"@ && ty != "EventBasedGateway"@ && ty != "ExclusiveGateway"@);
    if exists|t: int|
        1 <= t < a.active_activity_instances@.len()
            && a.active_activity_instances@[t]@ != cur
            && reachable(graph.connections@, a.active_activity_instances@[t]@, cur) {
        let t = choose|t: int|
            1 <= t < a.active_activity_instances@.len()
                && a.active_activity_instances@[t]@ != cur
                && reachable(graph.connections@, a.active_activity_instances@[t]@, cur);
        assert(rest[t - 1] == a.active_activity_instances@[t]@);
        assert(token_may_arrive(graph.connections@, rest, cur));
    } else {
        let t = choose|t: int|
            0 <= t < a.waiting_activity_instances@.len()
                && a.waiting_activity_instances@[t]@ != cur
                && reachable(graph.connections@, a.waiting_activity_instances@[t]@, cur);
        assert(waiting[t] == a.waiting_activity_instances@[t]@);
        assert(token_may_arrive(graph.connections@, waiting, cur));
    }
    assert(token_may_arrive(graph.connections@, rest, cur) || token_may_arrive(
        graph.connections@,
        waiting,
        cur,
    ));
    let e = token_effect(graph.connections@, ty, cur, rest, waiting);
    assert(e.3 == NextWork::Nothing && e.1 == waiting.push(cur) && e.0 == rest);
}

/// Whether the step from `a` takes its first active token through a node that
/// completes the process (an end event reached with no other token left).
pub open spec fn finishes(graph: GraphDefinition, a: ProcessInstance) -> bool {
    let active = strs(a.active_activity_instances@);
    &&& active.len() > 0
    &&& match lookup(graph.nodes@, active[0]) {
        Some(node) => token_effect(
            graph.connections@,
            node.node_type@,
            active[0],
            active.drop_first(),
            strs(a.waiting_activity_instances@),
        ).2,
        None => false,
    }
}

/// What one call of `advance` from `a` to `b`, giving `r`, does to the record of
/// the run: a processed node is added to the completed nodes, and the process is
/// completed if it was or if the step finishes it.
pub open spec fn advance_record(graph: GraphDefinition, a: ProcessInstance, b: ProcessInstance, r: Step) -> bool {
    &&& b.completed == (a.completed || finishes(graph, a))
    &&& match r {
        Step::Processed(id, _) => strs(b.completed_nodes@) == strs(a.completed_nodes@).push(id@),
        _ => strs(b.completed_nodes@) == strs(a.completed_nodes@),
    }
}

/// What the host's work between steps (conditions, service calls, decisions)
/// leaves of the record of the run: the completed nodes and the completion flag.
pub open spec fn host_record(a: ProcessInstance, b: ProcessInstance) -> bool {
    &&& strs(b.completed_nodes@) == strs(a.completed_nodes@)
    &&& b.completed == a.completed
}

/// The ids of the nodes processed by the `advance` steps of a run, in order.
pub open spec fn processed_ids(steps: Seq<Option<Step>>) -> Seq<Seq<char>>
    decreases steps.len(),
{
    if steps.len() == 0 {
        Seq::empty()
    } else {
        let prev = processed_ids(steps.drop_last());
        match steps.last() {
            Some(Step::Processed(id, _)) => prev.push(id@),
            _ => prev,
        }
    }
}

/// The record of a whole run: a run alternates `advance` steps (`Some`, with
/// their results) and the host's work (`None`). Its completed nodes are those it
/// started with followed by the nodes processed, in the order their tokens were
/// taken; it is completed if it started so or if one of its steps finished it.
pub proof fn lemma_run_record(graph: GraphDefinition, trace: Seq<ProcessInstance>, steps: Seq<Option<Step>>)
    requires
        trace.len() == steps.len() + 1,
        forall|i: int|
            0 <= i < steps.len() ==> match #[trigger] steps[i] {
                Some(r) => advance_record(graph, trace[i], trace[i + 1], r),
                None => host_record(trace[i], trace[i + 1]),
            },
    ensures
        strs(trace.last().completed_nodes@) == strs(trace[0].completed_nodes@) + processed_ids(steps),
        trace.last().completed == (trace[0].completed || exists|i: int|
            0 <= i < steps.len() && steps[i] is Some && #[trigger] finishes(graph, trace[i])),
    decreases steps.len(),
{
    if steps.len() == 0 {
        assert(strs(trace[0].completed_nodes@) + Seq::<Seq<char>>::empty() =~= strs(
            trace[0].completed_nodes@,
        ));
    } else {
        let n = steps.len() - 1;
        let t = trace.drop_last();
        let st = steps.drop_last();
        assert forall|i: int| 0 <= i < st.len() implies match #[trigger] st[i] {
            Some(r) => advance_record(graph, t[i], t[i + 1], r),
            None => host_record(t[i], t[i + 1]),
        } by {
            assert(st[i] == steps[i]);
            assert(t[i] == trace[i] && t[i + 1] == trace[i + 1]);
        }
        lemma_run_record(graph, t, st);
        assert(t.last() == trace[n]);
        assert(t[0] == trace[0]);
        let step = steps[n];
        assert(trace.last() == trace[n + 1]);
        match step {
            Some(r) => {
                assert(advance_record(graph, trace[n], trace[n + 1], r));
                match r {
                    Step::Processed(id, _) => {
                        assert(processed_ids(steps) == processed_ids(st).push(id@));
                        assert(strs(trace[0].completed_nodes@) + processed_ids(steps) =~= (strs(
                            trace[0].completed_nodes@,
                        ) + processed_ids(st)).push(id@));
                    },
                    _ => {
                        assert(processed_ids(steps) == processed_ids(st));
                    },
                }
            },
            None => {
                assert(host_record(trace[n], trace[n + 1]));
                assert(processed_ids(steps) == processed_ids(st));
            },
        }
        let early = exists|i: int| 0 <= i < st.len() && st[i] is Some && #[trigger] finishes(graph, t[i]);
        let all = exists|i: int|
            0 <= i < steps.len() && steps[i] is Some && #[trigger] finishes(graph, trace[i]);
        if early {
            let i = choose|i: int| 0 <= i < st.len() && st[i] is Some && #[trigger] finishes(graph, t[i]);
            assert(steps[i] is Some && finishes(graph, trace[i]));
        }
        if all {
            let i = choose|i: int|
                0 <= i < steps.len() && steps[i] is Some && #[trigger] finishes(graph, trace[i]);
            if i < n {
                assert(st[i] is Some && finishes(graph, t[i]));
            }
        }
    }
}

/// Takes the next active token and handles its node as far as that needs no
/// outside work: the token is removed from the front of the active tokens and its
/// node recorded as completed; then the node type decides (see `token_effect`):
/// start events and event-based gateways pass the token on along every outgoing
/// flow; a parallel join waits until a token has arrived on each incoming flow;
/// an inclusive join waits while another token can still reach it; tasks that
/// wait for outside input park the token; an end event completes the process when
/// no token is left. A token naming no node stops the run.
pub fn advance(graph: &GraphDefinition, instance: &mut ProcessInstance) -> (r: Step)
    ensures
        advance_post(*graph, *old(instance), *final(instance), r),
        advance_record(*graph, *old(instance), *final(instance), r),
        final(instance).id@ == old(instance).id@,
        final(instance).process_id@ == old(instance).process_id@,
        final(instance).variables@ == old(instance).variables@,
        old(instance).active_activity_instances@.len() == 0 ==> r is Idle && *final(instance)
            == *old(instance),
        old(instance).active_activity_instances@.len() > 0 ==> ({
            let active = strs(old(instance).active_activity_instances@);
            let cur = active[0];
            let rest = active.drop_first();
            let waiting = strs(old(instance).waiting_activity_instances@);
            match lookup(graph.nodes@, cur) {
                None => {
                    &&& r matches Step::NodeMissing(id) && id@ == cur
                    &&& strs(final(instance).active_activity_instances@) == rest
                    &&& final(instance).waiting_activity_instances@
                        == old(instance).waiting_activity_instances@
                    &&& final(instance).completed_nodes@ == old(instance).completed_nodes@
                    &&& final(instance).completed == old(instance).completed
                },
                Some(node) => {
                    let e = token_effect(graph.connections@, node.node_type@, cur, rest, waiting);
                    &&& r matches Step::Processed(id, next) && id@ == cur && next == e.3
                    &&& strs(final(instance).completed_nodes@) == strs(
                        old(instance).completed_nodes@,
                    ).push(cur)
                    &&& strs(final(instance).active_activity_instances@) == e.0
                    &&& strs(final(instance).waiting_activity_instances@) == e.1
                    &&& final(instance).completed == (old(instance).completed || e.2)
                },
            }
        }),
{
    if instance.active_activity_instances.len() == 0 {
        return Step::Idle;
    }
    let ghost active = strs(old(instance).active_activity_instances@);
    let cur = instance.active_activity_instances.remove(0);
    proof {
        assert(strs(instance.active_activity_instances@) =~= active.drop_first());
    }
    let node = match get_binding(&graph.nodes, cur.as_str()) {
        None => {
            return Step::NodeMissing(cur);
        },
        Some(n) => n,
    };
    let ghost prev_done = instance.completed_nodes@;
    instance.completed_nodes.push(cur.clone());
    proof {
        assert(strs(instance.completed_nodes@) =~= strs(prev_done).push(cur@));
    }
    let ty = node.node_type.as_str();
    if same_text(ty, "StartEvent") || same_text(ty, "EventBasedGateway") {
        transition_outbound(graph, instance, cur.as_str());
        return Step::Processed(cur, NextWork::Nothing);
    }
    if same_text(ty, "ExclusiveGateway") {
        return Step::Processed(cur, NextWork::ExclusiveGateway);
    }
    if same_text(ty, "InclusiveGateway") {
        let inflows = count_inflows(graph, cur.as_str());
        if inflows > 1 {
            let may_arrive = any_may_arrive(graph, &instance.active_activity_instances, cur.as_str())
                || any_may_arrive(graph, &instance.waiting_activity_instances, cur.as_str());
            if may_arrive {
                let ghost prev = instance.waiting_activity_instances@;
                instance.waiting_activity_instances.push(cur.clone());
                assert(strs(instance.waiting_activity_instances@) =~= strs(prev).push(cur@));
                return Step::Processed(cur, NextWork::Nothing);
            }
            remove_all(&mut instance.waiting_activity_instances, cur.as_str());
            remove_all(&mut instance.active_activity_instances, cur.as_str());
        }
        return Step::Processed(cur, NextWork::InclusiveGateway);
    }
    if same_text(ty, "ParallelGateway") {
        let inflows = count_inflows(graph, cur.as_str());
        if inflows > 1 {
            let on_active = count_equal(&instance.active_activity_instances, cur.as_str());
            let on_waiting = count_equal(&instance.waiting_activity_instances, cur.as_str());
            assert(on_active <= instance.active_activity_instances@.len()) by {
                lemma_count_in_bound(strs(instance.active_activity_instances@), cur@);
            }
            assert(on_waiting <= instance.waiting_activity_instances@.len()) by {
                lemma_count_in_bound(strs(instance.waiting_activity_instances@), cur@);
            }
            if (on_active as u128) + (on_waiting as u128) + 1 < inflows as u128 {
                let ghost prev = instance.waiting_activity_instances@;
                instance.waiting_activity_instances.push(cur.clone());
                assert(strs(instance.waiting_activity_instances@) =~= strs(prev).push(cur@));
                return Step::Processed(cur, NextWork::Nothing);
            }
            remove_all(&mut instance.waiting_activity_instances, cur.as_str());
            remove_all(&mut instance.active_activity_instances, cur.as_str());
        }
        transition_outbound(graph, instance, cur.as_str());
        return Step::Processed(cur, NextWork::Nothing);
    }
    if same_text(ty, "ServiceTask") {
        return Step::Processed(cur, NextWork::ServiceTask);
    }
    if same_text(ty, "BusinessRuleTask") {
        return Step::Processed(cur, NextWork::BusinessRuleTask);
    }
    if same_text(ty, "UserTask") || same_text(ty, "ReceiveTask") || same_text(
        ty,
        "IntermediateCatchEvent",
    ) || same_text(ty, "CallActivity") {
        let ghost prev = instance.waiting_activity_instances@;
        instance.waiting_activity_instances.push(cur.clone());
        assert(strs(instance.waiting_activity_instances@) =~= strs(prev).push(cur@));
        return Step::Processed(cur, NextWork::Nothing);
    }
    if same_text(ty, "EndEvent") {
        if instance.active_activity_instances.len() == 0
            && instance.waiting_activity_instances.len() == 0 {
            instance.completed = true;
        }
        return Step::Processed(cur, NextWork::Nothing);
    }
    Step::Processed(cur, NextWork::Nothing)
}

proof fn lemma_count_in_bound(v: Seq<Seq<char>>, x: Seq<char>)
    ensures
        count_in(v, x) <= v.len(),
    decreases v.len(),
{
    if v.len() > 0 {
        lemma_count_in_bound(v.drop_last(), x);
    }
}


/// The value bound last to `key` in a list of bindings.
pub open spec fn lookup_last<V>(entries: Seq<(String, V)>, key: Seq<char>) -> Option<V>
    decreases entries.len(),
{
    if entries.len() == 0 {
        None
    } else if entries.last().0@ == key {
        Some(entries.last().1)
    } else {
        lookup_last(entries.drop_last(), key)
    }
}

/// The variables after applying `updates` in order to `vars`.
pub open spec fn merged(vars: Seq<(String, JsonValue)>, updates: Seq<(String, JsonValue)>, key: Seq<
    char,
>) -> Option<JsonValue> {
    match lookup_last(updates, key) {
        Some(v) => Some(v),
        None => lookup(vars, key),
    }
}

proof fn lemma_lookup_last_front(u: Seq<(String, JsonValue)>, key: Seq<char>)
    requires
        u.len() > 0,
    ensures
        lookup_last(u, key) == match lookup_last(u.drop_first(), key) {
            Some(v) => Some(v),
            None => if u[0].0@ == key {
                Some(u[0].1)
            } else {
                None
            },
        },
    decreases u.len(),
{
    if u.len() > 1 {
        lemma_lookup_last_front(u.drop_last(), key);
        assert(u.drop_last().drop_first() =~= u.drop_first().drop_last());
        assert(u.drop_last()[0] == u[0]);
        let df = u.drop_first();
        assert(df.last() == u.last());
        assert(df.len() > 0);
        if u.last().0@ == key {
            assert(lookup_last(u, key) == Some(u.last().1));
            assert(lookup_last(df, key) == Some(u.last().1));
        } else {
            assert(lookup_last(u, key) == lookup_last(u.drop_last(), key));
            assert(lookup_last(df, key) == lookup_last(df.drop_last(), key));
        }
    } else {
        assert(u.drop_first().len() == 0);
        assert(u.drop_last().len() == 0);
        assert(u.last() == u[0]);
    }
}

/// Applies `updates`, in order, to the bindings `vars`.
pub fn merge_bindings(vars: &mut Vec<(String, JsonValue)>, updates: Vec<(String, JsonValue)>)
    ensures
        forall|k: Seq<char>| #[trigger]
            lookup(final(vars)@, k) == merged(old(vars)@, updates@, k),
{
    let mut rest = updates;
    while rest.len() > 0
        invariant
            forall|k: Seq<char>| #[trigger]
                merged(old(vars)@, updates@, k) == merged(vars@, rest@, k),
        decreases rest.len(),
    {
        let ghost before_rest = rest@;
        let ghost before_vars = vars@;
        let (k, v) = rest.remove(0);
        proof {
            assert(rest@ == before_rest.drop_first());
        }
        let ghost kk = k@;
        insert_binding(vars, k, v);
        proof {
            assert forall|q: Seq<char>| #[trigger]
                merged(old(vars)@, updates@, q) == merged(vars@, rest@, q) by {
                lemma_lookup_last_front(before_rest, q);
                assert(merged(old(vars)@, updates@, q) == merged(before_vars, before_rest, q));
            }
        }
    }
}

/// A service task's reply from the host.
#[derive(Debug)]
pub enum ServiceReply {
    /// The host call failed: the token waits on the task.
    Failed,
    /// The host answered; with the variables it returned, if its answer was a
    /// JSON object.
    Replied(Option<Vec<(String, JsonValue)>>),
}

/// Finishes the service task `node_id` with the host's reply: a failed call parks
/// the token on the task; an answer updates the variables it carries and passes
/// the token on along every outgoing flow.
pub fn complete_service_task(
    graph: &GraphDefinition,
    instance: &mut ProcessInstance,
    node_id: &str,
    reply: ServiceReply,
)
    ensures
        host_record(*old(instance), *final(instance)),
        final(instance).completed_nodes@ == old(instance).completed_nodes@,
        final(instance).completed == old(instance).completed,
        final(instance).id@ == old(instance).id@,
        final(instance).process_id@ == old(instance).process_id@,
        match reply {
            ServiceReply::Failed => {
                &&& strs(final(instance).waiting_activity_instances@) == strs(
                    old(instance).waiting_activity_instances@,
                ).push(node_id@)
                &&& final(instance).active_activity_instances@
                    == old(instance).active_activity_instances@
                &&& final(instance).variables@ == old(instance).variables@
            },
            ServiceReply::Replied(updates) => {
                &&& strs(final(instance).active_activity_instances@) == strs(
                    old(instance).active_activity_instances@,
                ) + targets(outgoing(graph.connections@, node_id@))
                &&& final(instance).waiting_activity_instances@
                    == old(instance).waiting_activity_instances@
                &&& forall|k: Seq<char>|
                    #[trigger] lookup(final(instance).variables@, k) == match updates {
                        Some(u) => merged(old(instance).variables@, u@, k),
                        None => lookup(old(instance).variables@, k),
                    }
            },
        },
{
    match reply {
        ServiceReply::Failed => {
            let ghost prev = instance.waiting_activity_instances@;
            let id = String::from_str(node_id);
            instance.waiting_activity_instances.push(id);
            assert(strs(instance.waiting_activity_instances@) =~= strs(prev).push(node_id@));
        },
        ServiceReply::Replied(updates) => {
            match updates {
                Some(u) => {
                    merge_bindings(&mut instance.variables, u);
                },
                None => {},
            }
            transition_outbound(graph, instance, node_id);
        },
    }
}


/// The outcome of a business rule task's decision.
#[derive(Debug)]
pub enum DecisionOutcome {
    /// No decision was evaluated: the graph has no decision tables, the task
    /// names none, or the table it names is missing.
    Skipped,
    /// Evaluating the decision table failed, with this message.
    Failed(String),
    /// No rule of the table matched.
    NoMatch,
    /// The decision's outputs, by output name.
    Matched(Vec<(String, JsonValue)>),
}

/// Whether an optional string is present and equal to `lit`.
pub open spec fn opt_is(o: Option<String>, lit: Seq<char>) -> bool {
    o matches Some(s) && s@ == lit
}

/// The variables after a business rule task stored the decision outputs `res`:
/// into the task's result variable (its first output alone when the task maps a
/// single entry, else all outputs as an object), or each output under its own
/// name when the task names no result variable.
pub open spec fn rule_result_binding(
    node: GraphNode,
    vars: Seq<(String, JsonValue)>,
    res: Vec<(String, JsonValue)>,
    k: Seq<char>,
) -> Option<JsonValue> {
    match node.result_variable {
        Some(rv) => if k == rv@ {
            if opt_is(node.map_decision_result, "singleEntry"@) {
                if res@.len() > 0 {
                    Some(res@[0].1)
                } else {
                    lookup(vars, k)
                }
            } else {
                Some(JsonValue::Object(res))
            }
        } else {
            lookup(vars, k)
        },
        None => merged(vars, res@, k),
    }
}

/// The decision table that the business rule task `node` refers to, if the
/// graph has it.
pub fn decision_table_for<'a>(graph: &'a GraphDefinition, node: &GraphNode) -> (r: Option<
    &'a DmnTable,
>)
    ensures
        match (graph.decisions, node.decision_ref) {
            (Some(d), Some(name)) => match lookup(d@, name@) {
                Some(t) => r == Some(&t),
                None => r is None,
            },
            _ => r is None,
        },
{
    match &graph.decisions {
        None => None,
        Some(d) => match &node.decision_ref {
            None => None,
            Some(name) => get_binding(d, name.as_str()),
        },
    }
}

/// What completing the business rule task `node_id` with `outcome` does to the
/// process variables (`a` before, `b` after): its contract.
pub open spec fn business_rule_post(
    graph: GraphDefinition,
    a: ProcessInstance,
    b: ProcessInstance,
    node_id: Seq<char>,
    outcome: DecisionOutcome,
) -> bool {
    match (outcome, lookup(graph.nodes@, node_id)) {
        (DecisionOutcome::Matched(res), Some(node)) => forall|k: Seq<char>|
            #[trigger] lookup(b.variables@, k) == rule_result_binding(node, a.variables@, res, k),
        _ => b.variables@ == a.variables@,
    }
}

/// Result variable law: a business rule task with a result variable whose
/// decision mapping is not `singleEntry` (or is absent) stores all of the
/// decision's outputs, as one object, in that variable.
pub proof fn law_result_variable_holds_all_outputs(
    graph: GraphDefinition,
    a: ProcessInstance,
    b: ProcessInstance,
    node_id: Seq<char>,
    res: Vec<(String, JsonValue)>,
    node: GraphNode,
    rv: String,
)
    requires
        business_rule_post(graph, a, b, node_id, DecisionOutcome::Matched(res)),
        lookup(graph.nodes@, node_id) == Some(node),
        node.result_variable == Some(rv),
        !(node.map_decision_result matches Some(m) && m@ == "singleEntry"@),
    ensures
        lookup(b.variables@, rv@) == Some(JsonValue::Object(res)),
{
    assert(lookup(b.variables@, rv@) == rule_result_binding(node, a.variables@, res, rv@));
}

/// Single entry law: a business rule task with a result variable mapped as a
/// `singleEntry` stores one output of the decision in it (when there is one),
/// not the object of all outputs.
pub proof fn law_single_entry_holds_one_output(
    graph: GraphDefinition,
    a: ProcessInstance,
    b: ProcessInstance,
    node_id: Seq<char>,
    res: Vec<(String, JsonValue)>,
    node: GraphNode,
    rv: String,
)
    requires
        business_rule_post(graph, a, b, node_id, DecisionOutcome::Matched(res)),
        lookup(graph.nodes@, node_id) == Some(node),
        node.result_variable == Some(rv),
        node.map_decision_result matches Some(m) && m@ == "singleEntry"@,
        res@.len() > 0,
    ensures
        exists|i: int| 0 <= i < res@.len() && lookup(b.variables@, rv@) == Some(res@[i].1),
{
    assert(lookup(b.variables@, rv@) == rule_result_binding(node, a.variables@, res, rv@));
    assert(lookup(b.variables@, rv@) == Some(res@[0].1));
}

/// Finishes the business rule task `node_id` with its decision's outcome: matched
/// outputs are stored (see `rule_result_binding`), any other outcome leaves the
/// variables as they are; then the token passes on along every outgoing flow.
pub fn complete_business_rule(
    graph: &GraphDefinition,
    instance: &mut ProcessInstance,
    node_id: &str,
    outcome: DecisionOutcome,
)
    ensures
        business_rule_post(*graph, *old(instance), *final(instance), node_id@, outcome),
        host_record(*old(instance), *final(instance)),
        strs(final(instance).active_activity_instances@) == strs(
            old(instance).active_activity_instances@,
        ) + targets(outgoing(graph.connections@, node_id@)),
        final(instance).waiting_activity_instances@ == old(instance).waiting_activity_instances@,
        final(instance).completed_nodes@ == old(instance).completed_nodes@,
        final(instance).completed == old(instance).completed,
        final(instance).id@ == old(instance).id@,
        final(instance).process_id@ == old(instance).process_id@,
        match (outcome, lookup(graph.nodes@, node_id@)) {
            (DecisionOutcome::Matched(res), Some(node)) => forall|k: Seq<char>|
                #[trigger] lookup(final(instance).variables@, k) == rule_result_binding(
                    node,
                    old(instance).variables@,
                    res,
                    k,
                ),
            _ => final(instance).variables@ == old(instance).variables@,
        },
{
    match outcome {
        DecisionOutcome::Matched(res) => {
            match get_binding(&graph.nodes, node_id) {
                None => {},
                Some(node) => {
                    match &node.result_variable {
                        Some(rv) => {
                            let single = match &node.map_decision_result {
                                Some(m) => same_text(m.as_str(), "singleEntry"),
                                None => false,
                            };
                            if single {
                                let mut res = res;
                                if res.len() > 0 {
                                    let (_, v) = res.remove(0);
                                    insert_binding(&mut instance.variables, rv.clone(), v);
                                }
                            } else {
                                insert_binding(
                                    &mut instance.variables,
                                    rv.clone(),
                                    JsonValue::Object(res),
                                );
                            }
                        },
                        None => {
                            merge_bindings(&mut instance.variables, res);
                        },
                    }
                },
            }
        },
        _ => {},
    }
    transition_outbound(graph, instance, node_id);
}

/// Where the outcome of a flow's condition comes from.
#[derive(Debug)]
pub enum ConditionSource {
    /// The flow has no condition, or an empty one: it holds.
    Always,
    /// A `wasm:` condition: the host evaluates it for the flow's id.
    Host,
    /// The decision table bound to the flow's id decides it (its `result` output).
    Decision,
    /// Nothing decides it: it does not hold.
    Never,
}

/// Where the outcome of the condition of `conn` comes from.
pub fn condition_source(graph: &GraphDefinition, conn: &Connection) -> (r: ConditionSource)
    ensures
        match conn.condition {
            None => r is Always,
            Some(c) => if c@.len() == 0 {
                r is Always
            } else if starts_with(c@, "wasm:"@) {
                r is Host
            } else {
                match graph.decisions {
                    Some(d) => if lookup(d@, conn.id@) is Some {
                        r is Decision
                    } else {
                        r is Never
                    },
                    None => r is Never,
                }
            },
        },
{
    match &conn.condition {
        None => ConditionSource::Always,
        Some(c) => {
            if c.as_str().unicode_len() == 0 {
                ConditionSource::Always
            } else if has_prefix(c.as_str(), "wasm:") {
                ConditionSource::Host
            } else {
                match &graph.decisions {
                    Some(d) => match get_binding(d, conn.id.as_str()) {
                        Some(_) => ConditionSource::Decision,
                        None => ConditionSource::Never,
                    },
                    None => ConditionSource::Never,
                }
            }
        },
    }
}

/// Whether the host's reply to a `wasm:` condition makes it hold: the call
/// succeeded (`res` is the reply's length, not negative) and the reply is the
/// UTF-8 text `true`.
pub open spec fn host_condition_holds(res: i32, reply: Seq<u8>) -> bool {
    res >= 0 && reply.subrange(0, res as int) == seq![116u8, 114u8, 117u8, 101u8]
}

/// Whether the host's reply to a `wasm:` condition makes it hold.
pub fn flow_condition_holds(res: i32, reply: &[u8]) -> (r: bool)
    requires
        res < 0 || res as int <= reply@.len(),
    ensures
        r == host_condition_holds(res, reply@),
{
    if res < 0 || res != 4 {
        proof {
            if res >= 0 {
                assert(reply@.subrange(0, res as int).len() != 4);
            }
        }
        return false;
    }
    let r = reply[0] == 116u8 && reply[1] == 114u8 && reply[2] == 117u8 && reply[3] == 101u8;
    proof {
        if r {
            assert(reply@.subrange(0, 4) =~= seq![116u8, 114u8, 117u8, 101u8]);
        } else {
            if reply@.subrange(0, 4) == seq![116u8, 114u8, 117u8, 101u8] {
                assert(reply@.subrange(0, 4)[0] == reply@[0]);
                assert(reply@.subrange(0, 4)[1] == reply@[1]);
                assert(reply@.subrange(0, 4)[2] == reply@[2]);
                assert(reply@.subrange(0, 4)[3] == reply@[3]);
            }
        }
    }
    r
}

/// Whether a gateway's conditions, evaluated in flow order with these
/// `outcomes` so far, need no more evaluating: an exclusive gateway stops at the
/// first condition that holds; an inclusive one evaluates all of them.
pub fn conditions_settled(exclusive: bool, outcomes: &Vec<bool>) -> (r: bool)
    ensures
        r == (exclusive && outcomes@.len() > 0 && outcomes@.last()),
{
    exclusive && outcomes.len() > 0 && outcomes[outcomes.len() - 1]
}

/// Whether a decision outcome makes a flow's condition hold: its `result` output
/// is the boolean `true`.
pub open spec fn decision_holds(outcome: DecisionOutcome) -> bool {
    match outcome {
        DecisionOutcome::Matched(res) => lookup(res@, "result"@) == Some(JsonValue::Bool(true)),
        _ => false,
    }
}

/// Whether a decision outcome makes a flow's condition hold.
pub fn decision_truth(outcome: &DecisionOutcome) -> (r: bool)
    ensures
        r == decision_holds(*outcome),
{
    match outcome {
        DecisionOutcome::Matched(res) => match get_binding(res, "result") {
            Some(JsonValue::Bool(b)) => *b,
            _ => false,
        },
        _ => false,
    }
}

} // verus!
