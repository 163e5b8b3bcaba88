use std::collections::HashMap;
use wasmee::engine::{
    calculate_deltas, deltas_fit, entry_args, entry_outcome, final_deltas, guest_range, hash_page, initial_page_hashes,
    num_pages, pages_to_grow, restore_memory, sandbox_limits, ArgKind, ArgValue, EntryOutcome, HostReply,
    OplogEntry, SandboxConfig, VMState, PAGE_SIZE,
};

fn vm(oplog: Vec<OplogEntry>) -> VMState {
    VMState {
        instance_id: "inst".to_string(),
        call_index: 0,
        oplog,
        page_hashes: HashMap::new(),
        checkpoints: vec![],
    }
}

fn memory(pages: usize, fill: u8) -> Vec<u8> {
    vec![fill; pages * PAGE_SIZE]
}

#[test]
fn fnv1a_values() {
    assert_eq!(hash_page(b""), 14695981039346656037);
    assert_eq!(hash_page(b"a"), 0xaf63dc4c8601ec8c);
    assert_eq!(hash_page(b"foobar"), 0x85944171f73967e8);
}

#[test]
fn deltas_cover_new_and_changed_pages_only() {
    let mut mem = memory(3, 0);
    mem.extend_from_slice(&[1, 2, 3]);
    assert_eq!(num_pages(mem.len()), 4);
    let (all, hashes) = calculate_deltas(&mem, &HashMap::new());
    assert_eq!(all.len(), 4);
    assert_eq!(hashes.len(), 4);
    assert_eq!(all[&3], vec![1, 2, 3]);
    assert_eq!(hashes[&0], hash_page(&mem[..PAGE_SIZE]));

    let mut changed = mem.clone();
    changed[PAGE_SIZE + 5] = 9;
    let (d, _) = calculate_deltas(&changed, &hashes);
    assert_eq!(d.keys().copied().collect::<Vec<i32>>(), vec![1]);
    assert_eq!(d[&1], changed[PAGE_SIZE..2 * PAGE_SIZE].to_vec());
}

#[test]
fn restore_applies_deltas_over_base() {
    let base = memory(1, 7);
    let mut deltas = HashMap::new();
    deltas.insert(2, vec![5u8; 10]);
    let r = restore_memory(&base, &deltas);
    assert_eq!(r.len(), 3 * PAGE_SIZE);
    assert!(r[..PAGE_SIZE].iter().all(|&b| b == 7));
    assert!(r[PAGE_SIZE..2 * PAGE_SIZE].iter().all(|&b| b == 0));
    assert_eq!(&r[2 * PAGE_SIZE..2 * PAGE_SIZE + 10], &[5u8; 10]);
    assert!(r[2 * PAGE_SIZE + 10..].iter().all(|&b| b == 0));
    assert_eq!(restore_memory(&base, &HashMap::new()), base);
}

#[test]
fn snapshot_round_trip() {
    let base = memory(2, 1);
    let mut current = memory(3, 1);
    current[10] = 42;
    current[2 * PAGE_SIZE + 3] = 43;
    let (_, base_hashes) = calculate_deltas(&base, &HashMap::new());
    let (deltas, _) = calculate_deltas(&current, &base_hashes);
    assert_eq!(deltas.len(), 2);
    assert!(deltas_fit(base.len(), &deltas));
    assert_eq!(restore_memory(&base, &deltas), current);
    assert_eq!(final_deltas(&base, &current), deltas);
    let (restored, hashes) = initial_page_hashes(&base, &deltas);
    assert_eq!(restored, current);
    assert_eq!(hashes.len(), 3);
}

#[test]
fn sandbox_defaults() {
    assert_eq!(sandbox_limits(None), (10_000_000, 32));
    assert_eq!(sandbox_limits(Some(&SandboxConfig { max_fuel: 0, max_memory_mb: 0 })), (10_000_000, 32));
    assert_eq!(sandbox_limits(Some(&SandboxConfig { max_fuel: 5, max_memory_mb: 64 })), (5, 64));
}

#[test]
fn guest_ranges() {
    assert_eq!(guest_range(0, 4, 4), Some((0, 4)));
    assert_eq!(guest_range(2, 3, 4), None);
    assert_eq!(guest_range(-1, 1, 4), None);
    assert_eq!(guest_range(1, -1, 4), None);
    assert_eq!(guest_range(4, 0, 4), Some((4, 4)));
}

#[test]
fn live_time_is_logged_and_replayed() {
    let mut state = vm(vec![]);
    assert_eq!(state.host_get_time(-123), -123);
    assert_eq!(state.call_index, 1);
    assert_eq!(state.oplog.len(), 1);
    assert_eq!(state.oplog[0].call_index, 1);
    assert_eq!(state.oplog[0].api_name, "host_get_time");
    assert_eq!(state.oplog[0].response_payload, b"-123".to_vec());

    let mut replay = vm(state.oplog);
    assert_eq!(replay.host_get_time(999), -123);
    assert_eq!(replay.oplog.len(), 1);
    // A logged answer that is no number reads as 0.
    let mut bad = vm(vec![OplogEntry {
        call_index: 1,
        api_name: "host_get_time".to_string(),
        request_payload: vec![],
        response_payload: b"soon".to_vec(),
    }]);
    assert_eq!(bad.host_get_time(5), 0);
}

#[test]
fn api_calls_are_logged_and_replayed() {
    let mut state = vm(vec![]);
    match state.host_call_api("test_api".to_string(), b"hello".to_vec(), 1024) {
        HostReply::Respond(b) => assert_eq!(b, b"resp_for_hello_call_1".to_vec()),
        other => panic!("unexpected {:?}", other),
    }
    match state.host_call_api("test_api".to_string(), b"world".to_vec(), 1024) {
        HostReply::Respond(b) => assert_eq!(b, b"resp_for_world_call_2".to_vec()),
        other => panic!("unexpected {:?}", other),
    }
    assert_eq!(state.oplog.len(), 2);
    assert_eq!(state.oplog[1].request_payload, b"world".to_vec());

    let mut replay = vm(state.oplog);
    match replay.host_call_api("test_api".to_string(), b"changed".to_vec(), 1024) {
        HostReply::Respond(b) => assert_eq!(b, b"resp_for_hello_call_1".to_vec()),
        other => panic!("unexpected {:?}", other),
    }
    assert!(matches!(replay.host_call_api("test_api".to_string(), vec![], 3), HostReply::Status(-2)));
    assert_eq!(replay.oplog.len(), 2);
}

#[test]
fn unknown_api_and_small_buffers() {
    let mut state = vm(vec![]);
    assert!(matches!(state.host_call_api("other".to_string(), vec![], 1024), HostReply::Status(-3)));
    assert!(matches!(state.host_call_api("test_api".to_string(), b"x".to_vec(), 5), HostReply::Status(-2)));
    assert_eq!(state.oplog.len(), 0);
    assert_eq!(state.call_index, 2);
}

#[test]
fn checkpoints_record_memory_and_log_length() {
    let mut state = vm(vec![]);
    state.host_get_time(1);
    let mem = memory(1, 3);
    state.checkpoint(mem.clone());
    assert_eq!(state.checkpoints.len(), 1);
    assert_eq!(state.checkpoints[0].memory, mem);
    assert_eq!(state.checkpoints[0].oplog_len, 1);
    assert_eq!(state.page_hashes[&0], hash_page(&mem));
}

#[test]
fn entry_arguments_and_outcomes() {
    let args = entry_args(&[1, u64::MAX, 7], &vec![ArgKind::I32, ArgKind::I64, ArgKind::Other, ArgKind::I32]);
    assert_eq!(args, vec![ArgValue::I32(1), ArgValue::I64(-1), ArgValue::I64(7), ArgValue::I32(0)]);
    assert_eq!(entry_outcome(Some(-4)), EntryOutcome::Failed(-4));
    assert_eq!(entry_outcome(Some(12)), EntryOutcome::Respond(12));
    assert_eq!(entry_outcome(Some(0)), EntryOutcome::Empty);
    assert_eq!(entry_outcome(None), EntryOutcome::Empty);
}

#[test]
fn memory_growth() {
    assert_eq!(pages_to_grow(3 * PAGE_SIZE + 1, 2), 2);
    assert_eq!(pages_to_grow(PAGE_SIZE, 2), 0);
    assert_eq!(pages_to_grow(0, 0), 0);
}

#[test]
fn final_deltas_without_base_are_all_pages() {
    let mem = memory(2, 0);
    let d = final_deltas(&[], &mem);
    assert_eq!(d.len(), 2);
}

#[test]
fn which_deltas_fit() {
    let mut d = HashMap::new();
    d.insert(0, vec![0u8; 10]);
    assert!(deltas_fit(PAGE_SIZE, &d));
    d.insert(2, vec![0u8; 10]);
    d.insert(0, vec![0u8; 200_000]);
    assert!(!deltas_fit(0, &d));
    assert!(deltas_fit(200_000, &d));
    let mut neg = HashMap::new();
    neg.insert(-1, vec![]);
    assert!(!deltas_fit(0, &neg));
    let mut top = HashMap::new();
    top.insert(i32::MAX, vec![]);
    assert!(!deltas_fit(0, &top));
    assert!(deltas_fit(0, &HashMap::new()));
}

#[test]
fn snapshot_round_trip_from_a_partial_base() {
    let base = vec![4u8; 100];
    let mut current = memory(2, 0);
    current[..100].copy_from_slice(&base);
    current[PAGE_SIZE + 1] = 8;
    let (_, base_hashes) = calculate_deltas(&base, &HashMap::new());
    let (deltas, _) = calculate_deltas(&current, &base_hashes);
    assert_eq!(deltas.len(), 2);
    assert_eq!(restore_memory(&base, &deltas), current);
}

#[test]
fn deltas_against_own_hashes_are_empty() {
    let mut mem = memory(2, 1);
    mem[3] = 9;
    let (_, h) = calculate_deltas(&mem, &HashMap::new());
    let (d, h2) = calculate_deltas(&mem, &h);
    assert!(d.is_empty());
    assert_eq!(h2, h);
}
