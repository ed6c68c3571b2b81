use span_ledger::{
    create_registered_span, exit_span, SpanEntry, TracingProxy, MAX_SPANS_LEN, WASM_NAME_KEY,
    WASM_TARGET_KEY, WASM_TRACE_IDENTIFIER,
};

#[test]
fn well_known_constants_are_stable() {
    assert_eq!(WASM_TRACE_IDENTIFIER, "WASM_TRACE");
    assert_eq!(WASM_TARGET_KEY, "proxied_wasm_target");
    assert_eq!(WASM_NAME_KEY, "proxied_wasm_name");
    assert_eq!(MAX_SPANS_LEN, 1000);
}

#[test]
fn ids_strictly_increasing_from_one() {
    let mut p = TracingProxy::new();
    let mut prev: u64 = 0;
    for k in 1..=10u64 {
        let (id, evicted) = p.create_span("t", "n");
        assert_eq!(id, k);
        assert!(id > prev);
        assert!(evicted.is_none());
        prev = id;
    }
    assert_eq!(p.next_id(), 10);
}

#[test]
fn lifo_round_trip_leaves_ledger_empty() {
    let mut p = TracingProxy::new();
    for k in 1..=5u64 {
        let (id, evicted) = p.create_span("target", "name");
        assert_eq!(id, k);
        assert!(evicted.is_none());
        let closed = p.exit_span(id);
        assert_eq!(closed.len(), 1);
        assert_eq!(closed[0].id, id);
        assert!(closed[0].is_valid_trace);
        assert_eq!(p.len(), 0);
    }
    assert_eq!(p.len(), 0);
    assert_eq!(p.next_id(), 5);
}

#[test]
fn eviction_drops_oldest_and_invalidates_it() {
    let mut p = TracingProxy::new();
    for _ in 0..MAX_SPANS_LEN {
        let (_, evicted) = p.create_span("t", "n");
        assert!(evicted.is_none());
    }
    assert_eq!(p.len(), MAX_SPANS_LEN);
    let (id, evicted) = p.create_span("t", "n");
    assert_eq!(id, (MAX_SPANS_LEN as u64) + 1);
    let evicted: SpanEntry = evicted.expect("the oldest entry is evicted");
    assert_eq!(evicted.id, 1);
    assert!(!evicted.is_valid_trace);
    assert_eq!(p.len(), MAX_SPANS_LEN);
    let (_, evicted2) = p.create_span("t", "n");
    let evicted2 = evicted2.expect("the next-oldest entry is evicted");
    assert_eq!(evicted2.id, 2);
    assert!(!evicted2.is_valid_trace);
    assert_eq!(p.len(), MAX_SPANS_LEN);
}

#[test]
fn mismatched_exit_force_closes_intervening_entries() {
    let mut p = TracingProxy::new();
    p.create_span("t", "a");
    p.create_span("t", "b");
    p.create_span("t", "c");
    let closed = p.exit_span(1);
    assert_eq!(closed.len(), 3);
    // Entries popped above the requested one are force-closed and
    // invalidated.
    assert_eq!(closed[0].id, 3);
    assert!(!closed[0].is_valid_trace);
    assert_eq!(closed[1].id, 2);
    assert!(!closed[1].is_valid_trace);
    // The requested entry itself is closed without forced invalidation.
    assert_eq!(closed[2].id, 1);
    assert!(closed[2].is_valid_trace);
    assert_eq!(p.len(), 0);
}

#[test]
fn exit_unknown_id_on_empty_ledger_is_a_noop() {
    let mut p = TracingProxy::new();
    let closed = p.exit_span(42);
    assert!(closed.is_empty());
    assert_eq!(p.len(), 0);
    assert_eq!(p.next_id(), 0);
}

#[test]
fn teardown_closes_and_invalidates_every_open_span() {
    let mut p = TracingProxy::new();
    for _ in 0..4 {
        p.create_span("t", "n");
    }
    let closed = p.teardown();
    assert_eq!(closed.len(), 4);
    let ids: Vec<u64> = closed.iter().map(|e| e.id).collect();
    assert_eq!(ids, vec![4, 3, 2, 1]);
    assert!(closed.iter().all(|e| !e.is_valid_trace));
    assert_eq!(p.len(), 0);
}

#[test]
fn second_exit_of_a_closed_id_finds_nothing() {
    let mut p = TracingProxy::new();
    let (id, _) = p.create_span("t", "n");
    let first = p.exit_span(id);
    assert_eq!(first.len(), 1);
    assert_eq!(first[0].id, id);
    let second = p.exit_span(id);
    assert!(second.is_empty());
    assert_eq!(p.len(), 0);
}

#[test]
fn second_exit_behaves_as_not_found_with_spans_still_open() {
    let mut p = TracingProxy::new();
    p.create_span("t", "a");
    p.create_span("t", "b");
    let first = p.exit_span(2);
    assert_eq!(first.len(), 1);
    assert!(first[0].is_valid_trace);
    // The id is gone, so the second exit behaves exactly as "not found"
    // does: the remaining entries are drained and invalidated.
    let second = p.exit_span(2);
    assert_eq!(second.len(), 1);
    assert_eq!(second[0].id, 1);
    assert!(!second[0].is_valid_trace);
    assert_eq!(p.len(), 0);
}

#[test]
fn exit_with_unknown_id_drains_and_invalidates() {
    let mut p = TracingProxy::new();
    p.create_span("t", "a");
    p.create_span("t", "b");
    let closed = p.exit_span(5);
    assert_eq!(closed.len(), 2);
    assert_eq!(closed[0].id, 2);
    assert!(!closed[0].is_valid_trace);
    assert_eq!(closed[1].id, 1);
    assert!(!closed[1].is_valid_trace);
    assert_eq!(p.len(), 0);
}

#[test]
fn entries_carry_target_and_name() {
    let mut p = TracingProxy::new();
    let (id, _) = p.create_span("wasm_target_x", "span_name_y");
    let closed = p.exit_span(id);
    assert_eq!(closed.len(), 1);
    assert_eq!(closed[0].target, "wasm_target_x");
    assert_eq!(closed[0].name, "span_name_y");
}

#[test]
fn free_functions_drive_the_ledger() {
    let mut p = TracingProxy::new();
    let id1 = create_registered_span(&mut p, "t", "a");
    let id2 = create_registered_span(&mut p, "t", "b");
    assert_eq!(id1, 1);
    assert_eq!(id2, 2);
    assert_eq!(p.len(), 2);
    exit_span(&mut p, id2);
    assert_eq!(p.len(), 1);
    exit_span(&mut p, id1);
    assert_eq!(p.len(), 0);
    exit_span(&mut p, id1);
    assert_eq!(p.len(), 0);
}
