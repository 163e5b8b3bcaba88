use wasmee::bpmn::{
    conditions_settled, flow_condition_holds,
    advance, complete_business_rule, complete_service_task, condition_source, count_inflows, decision_truth,
    has_path, transition_exclusive, transition_inclusive, transition_outbound, ConditionSource, Connection,
    DecisionOutcome, GraphDefinition, GraphNode, NextWork, ProcessInstance, ServiceReply, Step,
};
use wasmee::dmn::DmnTable;
use wasmee::json::JsonValue;

fn node(id: &str, ty: &str) -> (String, GraphNode) {
    (
        id.to_string(),
        GraphNode {
            id: id.to_string(),
            node_type: ty.to_string(),
            name: id.to_string(),
            decision_ref: None,
            map_decision_result: None,
            result_variable: None,
        },
    )
}

fn flow(id: &str, from: &str, to: &str, condition: Option<&str>) -> Connection {
    Connection {
        id: id.to_string(),
        source_ref: from.to_string(),
        target_ref: to.to_string(),
        condition: condition.map(|c| c.to_string()),
    }
}

fn graph(nodes: Vec<(String, GraphNode)>, connections: Vec<Connection>) -> GraphDefinition {
    GraphDefinition {
        id: "g".to_string(),
        name: "g".to_string(),
        nodes,
        connections,
        start_node_id: "start".to_string(),
        decisions: None,
    }
}

fn instance(active: &[&str]) -> ProcessInstance {
    ProcessInstance {
        id: "i".to_string(),
        process_id: "g".to_string(),
        active_activity_instances: active.iter().map(|s| s.to_string()).collect(),
        waiting_activity_instances: vec![],
        completed_nodes: vec![],
        variables: vec![],
        completed: false,
    }
}

/// start -> split (parallel) -> a, b (pass-through) -> join (parallel) -> end
fn diamond() -> GraphDefinition {
    graph(
        vec![
            node("start", "StartEvent"),
            node("split", "ParallelGateway"),
            node("a", "EventBasedGateway"),
            node("b", "EventBasedGateway"),
            node("join", "ParallelGateway"),
            node("end", "EndEvent"),
        ],
        vec![
            flow("f1", "start", "split", None),
            flow("f2", "split", "a", None),
            flow("f3", "split", "b", None),
            flow("f4", "a", "join", None),
            flow("f5", "b", "join", None),
            flow("f6", "join", "end", None),
        ],
    )
}

fn run_plain(g: &GraphDefinition, inst: &mut ProcessInstance) -> Vec<String> {
    let mut steps = vec![];
    loop {
        match advance(g, inst) {
            Step::Idle => break,
            Step::NodeMissing(id) => {
                steps.push(format!("missing {}", id));
                break;
            }
            Step::Processed(id, _) => steps.push(id),
        }
    }
    steps
}

#[test]
fn inflows_and_paths() {
    let g = diamond();
    assert_eq!(count_inflows(&g, "join"), 2);
    assert_eq!(count_inflows(&g, "start"), 0);
    assert!(has_path(&g, "start", "end"));
    assert!(has_path(&g, "a", "join"));
    assert!(!has_path(&g, "a", "b"));
    assert!(!has_path(&g, "end", "end"));
    let cyclic = graph(vec![], vec![flow("x", "p", "q", None), flow("y", "q", "p", None)]);
    assert!(has_path(&cyclic, "p", "p"));
}

#[test]
fn parallel_join_waits_for_every_branch() {
    let g = diamond();
    let mut inst = instance(&["start"]);
    let steps = run_plain(&g, &mut inst);
    assert_eq!(steps, vec!["start", "split", "a", "b", "join", "end"]);
    assert!(inst.completed);
    assert!(inst.waiting_activity_instances.is_empty());
    assert_eq!(inst.completed_nodes, steps);
}

#[test]
fn waiting_tasks_park_tokens() {
    let g = graph(
        vec![node("start", "StartEvent"), node("task", "UserTask"), node("end", "EndEvent")],
        vec![flow("f1", "start", "task", None), flow("f2", "task", "end", None)],
    );
    let mut inst = instance(&["start"]);
    run_plain(&g, &mut inst);
    assert_eq!(inst.waiting_activity_instances, vec!["task".to_string()]);
    assert!(!inst.completed);
}

#[test]
fn missing_nodes_stop_the_run() {
    let g = graph(vec![node("start", "StartEvent")], vec![flow("f1", "start", "ghost", None)]);
    let mut inst = instance(&["start"]);
    let steps = run_plain(&g, &mut inst);
    assert_eq!(steps, vec!["start".to_string(), "missing ghost".to_string()]);
    assert_eq!(inst.completed_nodes, vec!["start".to_string()]);
}

#[test]
fn gateways_report_their_pending_work() {
    let g = graph(
        vec![node("x", "ExclusiveGateway"), node("s", "ServiceTask"), node("r", "BusinessRuleTask")],
        vec![],
    );
    let mut inst = instance(&["x", "s", "r"]);
    assert!(matches!(advance(&g, &mut inst), Step::Processed(_, NextWork::ExclusiveGateway)));
    assert!(matches!(advance(&g, &mut inst), Step::Processed(_, NextWork::ServiceTask)));
    assert!(matches!(advance(&g, &mut inst), Step::Processed(_, NextWork::BusinessRuleTask)));
}

#[test]
fn exclusive_and_inclusive_choices() {
    let g = graph(
        vec![],
        vec![flow("c1", "gw", "a", Some("x > 1")), flow("c2", "gw", "b", None), flow("c3", "gw", "c", None)],
    );
    let mut inst = instance(&[]);
    transition_exclusive(&g, &mut inst, "gw", &vec![false, true]);
    assert_eq!(inst.active_activity_instances, vec!["b".to_string()]);
    let mut inst = instance(&[]);
    transition_exclusive(&g, &mut inst, "gw", &vec![false, false, false]);
    assert_eq!(inst.active_activity_instances, vec!["a".to_string()]);
    let mut inst = instance(&[]);
    transition_inclusive(&g, &mut inst, "gw", &vec![true, false, true]);
    assert_eq!(inst.active_activity_instances, vec!["a".to_string(), "c".to_string()]);
    let mut inst = instance(&[]);
    transition_inclusive(&g, &mut inst, "gw", &vec![false, false, false]);
    assert_eq!(inst.active_activity_instances, vec!["a".to_string()]);
    let mut inst = instance(&[]);
    transition_outbound(&g, &mut inst, "gw");
    assert_eq!(inst.active_activity_instances.len(), 3);
}

#[test]
fn inclusive_join_waits_while_tokens_can_arrive() {
    let g = graph(
        vec![node("a", "EventBasedGateway"), node("b", "EventBasedGateway"), node("j", "InclusiveGateway"), node("e", "EndEvent")],
        vec![flow("f1", "a", "j", None), flow("f2", "b", "j", None), flow("f3", "j", "e", None)],
    );
    let mut inst = instance(&["j", "b"]);
    assert!(matches!(advance(&g, &mut inst), Step::Processed(_, NextWork::Nothing)));
    assert_eq!(inst.waiting_activity_instances, vec!["j".to_string()]);
    advance(&g, &mut inst); // b -> j
    assert!(matches!(advance(&g, &mut inst), Step::Processed(_, NextWork::InclusiveGateway)));
    assert!(inst.waiting_activity_instances.is_empty());
}

#[test]
fn service_task_replies() {
    let g = graph(vec![], vec![flow("f", "s", "next", None)]);
    let mut inst = instance(&[]);
    inst.variables.push(("x".to_string(), JsonValue::Bool(false)));
    complete_service_task(&g, &mut inst, "s", ServiceReply::Failed);
    assert_eq!(inst.waiting_activity_instances, vec!["s".to_string()]);
    let updates = vec![("x".to_string(), JsonValue::Bool(true)), ("y".to_string(), JsonValue::Null)];
    complete_service_task(&g, &mut inst, "s", ServiceReply::Replied(Some(updates)));
    assert_eq!(inst.active_activity_instances, vec!["next".to_string()]);
    assert!(inst.variables.contains(&("x".to_string(), JsonValue::Bool(true))));
    assert!(inst.variables.contains(&("y".to_string(), JsonValue::Null)));
}

#[test]
fn business_rule_results() {
    let mut n = node("r", "BusinessRuleTask");
    n.1.result_variable = Some("res".to_string());
    n.1.map_decision_result = Some("singleEntry".to_string());
    let g = graph(vec![n], vec![flow("f", "r", "next", None)]);
    let mut inst = instance(&[]);
    let out = vec![("discount".to_string(), JsonValue::Number("10".to_string()))];
    complete_business_rule(&g, &mut inst, "r", DecisionOutcome::Matched(out));
    assert_eq!(inst.variables, vec![("res".to_string(), JsonValue::Number("10".to_string()))]);
    assert_eq!(inst.active_activity_instances, vec!["next".to_string()]);

    let g = graph(vec![node("r", "BusinessRuleTask")], vec![]);
    let mut inst = instance(&[]);
    let out = vec![("a".to_string(), JsonValue::Bool(true))];
    complete_business_rule(&g, &mut inst, "r", DecisionOutcome::Matched(out));
    assert_eq!(inst.variables, vec![("a".to_string(), JsonValue::Bool(true))]);
    complete_business_rule(&g, &mut inst, "r", DecisionOutcome::Failed("boom".to_string()));
    assert_eq!(inst.variables.len(), 1);
}

#[test]
fn condition_sources_and_decisions() {
    let mut g = graph(vec![], vec![]);
    assert!(matches!(condition_source(&g, &flow("f", "a", "b", None)), ConditionSource::Always));
    assert!(matches!(condition_source(&g, &flow("f", "a", "b", Some(""))), ConditionSource::Always));
    assert!(matches!(condition_source(&g, &flow("f", "a", "b", Some("wasm:check"))), ConditionSource::Host));
    assert!(matches!(condition_source(&g, &flow("f", "a", "b", Some("x"))), ConditionSource::Never));
    let t = DmnTable { id: "f".to_string(), hit_policy: String::new(), inputs: vec![], outputs: vec![], rules: vec![] };
    g.decisions = Some(vec![("f".to_string(), t)]);
    assert!(matches!(condition_source(&g, &flow("f", "a", "b", Some("x"))), ConditionSource::Decision));
    let yes = DecisionOutcome::Matched(vec![("result".to_string(), JsonValue::Bool(true))]);
    let no = DecisionOutcome::Matched(vec![("result".to_string(), JsonValue::Str("true".to_string()))]);
    assert!(decision_truth(&yes));
    assert!(!decision_truth(&no));
    assert!(!decision_truth(&DecisionOutcome::NoMatch));
}

#[test]
fn unknown_node_types_hold_the_token() {
    let g = graph(vec![node("t", "ScriptTask")], vec![flow("f", "t", "next", None)]);
    let mut inst = instance(&["t"]);
    assert!(matches!(advance(&g, &mut inst), Step::Processed(_, NextWork::Nothing)));
    assert!(inst.active_activity_instances.is_empty());
    assert!(inst.waiting_activity_instances.is_empty());
}

#[test]
fn host_condition_replies() {
    let mut buf = vec![0u8; 16];
    buf[..4].copy_from_slice(b"true");
    assert!(flow_condition_holds(4, &buf));
    assert!(!flow_condition_holds(3, &buf));
    assert!(!flow_condition_holds(-1, &buf));
    buf[..5].copy_from_slice(b"false");
    assert!(!flow_condition_holds(5, &buf));
}

#[test]
fn exclusive_gateways_stop_at_the_first_true_condition() {
    assert!(conditions_settled(true, &vec![false, true]));
    assert!(!conditions_settled(true, &vec![false]));
    assert!(!conditions_settled(true, &vec![]));
    assert!(!conditions_settled(false, &vec![true, true]));
}
