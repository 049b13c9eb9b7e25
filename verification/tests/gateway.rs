use dynamo_serving::gateway::peers::{
    authority, live_peer_ips, peer_delta, peer_endpoint, peer_ips, replica_sync_port, PeerEndpoint,
    PeerSlice, PortError, SlicePort, REPLICA_AGG_PORT_NAME,
};
use dynamo_serving::gateway::pods::{
    pod_is_ready, pod_matches, raw_worker_from_pod, ready_workers, resolve_endpoint, strip_scheme,
    IdentifiedPod, PodCondition, PodInfo, PoolState, RawWorker,
};
use dynamo_serving::gateway::pool::{parse_pool_state, JsonNumber, JsonValue};
use dynamo_serving::gateway::router::{
    cache_salt, endpoint_in_subset, plan_pick, ready_worker_ids, route_selected, routing_headers,
    subset_worker_ids, tenant_id_header, PickPlan, PickRefusal,
};
use dynamo_serving::gateway::reservations::{settle_selection, ReservationBook};
use dynamo_serving::gateway::topology::{
    build_registration, check_batched_tokens, copy_registration, own_pod_ip, registration_equal, RegistrationDefaults, SelectorConfigError,
    StandaloneConfig, SyncAction, WorkerCatalog,
};

// ---------------------------------------------------------------------------
// Routing helpers

#[test]
fn tenant_id_header_is_case_insensitive_and_trims() {
    let headers = vec![("X-Tenant-Id".to_string(), "  tenant-a  ".to_string())];
    assert_eq!(tenant_id_header(&headers), Some("tenant-a".to_string()));
}

#[test]
fn tenant_id_header_absent_or_empty_is_none() {
    assert_eq!(tenant_id_header(&[]), None);
    let empty = vec![("x-tenant-id".to_string(), "   ".to_string())];
    assert_eq!(tenant_id_header(&empty), None);
}

#[test]
fn tenant_id_header_uses_the_first_matching_header() {
    let headers = vec![
        ("accept".to_string(), "x".to_string()),
        ("X-TENANT-ID".to_string(), "\u{3000}first\t".to_string()),
        ("x-tenant-id".to_string(), "second".to_string()),
    ];
    assert_eq!(tenant_id_header(&headers), Some("first".to_string()));
}

#[test]
fn endpoint_in_subset_matches_ip_port_or_bare_ip() {
    let candidates: Vec<String> = ["10.0.0.1:8000", "10.0.0.2"].iter().map(|s| s.to_string()).collect();
    // Full ip:port match.
    assert!(endpoint_in_subset("10.0.0.1:8000", &candidates));
    // Bare-ip match (subset lists just the IP).
    assert!(endpoint_in_subset("10.0.0.2:8000", &candidates));
    // Subset pinned a full ip:port, so a different port on that IP does NOT match.
    assert!(!endpoint_in_subset("10.0.0.1:9999", &candidates));
    // Unrelated endpoint does not match.
    assert!(!endpoint_in_subset("10.0.0.3:8000", &candidates));
}

#[test]
fn routing_headers_name_the_worker_in_decimal() {
    let headers = routing_headers(18_446_744_073_709_551_615);
    assert_eq!(
        headers,
        vec![
            ("x-dynamo-worker-instance-id".to_string(), "18446744073709551615".to_string()),
            ("x-dynamo-routing-mode".to_string(), "aggregated".to_string()),
        ]
    );
    assert_eq!(routing_headers(0)[0].1, "0");
}

// ---------------------------------------------------------------------------
// Peer discovery

fn slice_with(ips: &[&str], terminating: bool, address_type: &str) -> PeerSlice {
    PeerSlice {
        name: None,
        address_type: address_type.to_string(),
        endpoints: ips
            .iter()
            .map(|ip| PeerEndpoint { addresses: vec![ip.to_string()], terminating: Some(terminating) })
            .collect(),
        ports: None,
    }
}

fn slice_with_replica_port(port: Option<i32>) -> PeerSlice {
    let mut slice = slice_with(&["10.0.0.1"], false, "IPv4");
    slice.name = Some("epp-peers-abc".to_string());
    slice.ports = Some(vec![SlicePort { name: Some(REPLICA_AGG_PORT_NAME.to_string()), port }]);
    slice
}

#[test]
fn peer_ips_keeps_non_terminating() {
    let slices = [slice_with(&["10.0.0.1", "10.0.0.2"], false, "IPv4")];
    let ips = peer_ips(&slices, false);
    assert!(ips.contains(&"10.0.0.1".to_string()));
    assert!(ips.contains(&"10.0.0.2".to_string()));
}

#[test]
fn peer_ips_drops_terminating() {
    let slices = [slice_with(&["10.0.0.9"], true, "IPv4")];
    assert!(peer_ips(&slices, false).is_empty());
}

#[test]
fn peer_ips_filters_by_address_family() {
    let slices = [slice_with(&["10.0.0.1"], false, "IPv4"), slice_with(&["fd00::1"], false, "IPv6")];
    let v4 = peer_ips(&slices, false);
    assert_eq!(v4.len(), 1);
    assert!(v4.contains(&"10.0.0.1".to_string()));

    let v6 = peer_ips(&slices, true);
    assert_eq!(v6.len(), 1);
    assert!(v6.contains(&"fd00::1".to_string()));
}

#[test]
fn peer_ips_are_sorted_and_distinct() {
    let slices = [
        slice_with(&["10.0.0.3", "10.0.0.1"], false, "ipv4"),
        slice_with(&["10.0.0.1", ""], false, "IPv4"),
        slice_with(&["10.0.0.2"], false, "IPv4"),
    ];
    assert_eq!(peer_ips(&slices, false), vec!["10.0.0.1", "10.0.0.2", "10.0.0.3"]);
}

#[test]
fn live_peers_exclude_self_and_other_family() {
    let slices = [slice_with(&["10.0.0.1", "10.0.0.2"], false, "IPv4"), slice_with(&["fd00::1"], false, "IPv6")];
    assert_eq!(live_peer_ips(&slices, "10.0.0.2"), vec!["10.0.0.1"]);
    assert!(live_peer_ips(&slices, "fd00::1").is_empty());
}

#[test]
fn peer_delta_splits_added_and_removed() {
    let live: Vec<String> = vec!["a".into(), "b".into()];
    let known: Vec<String> = vec!["b".into(), "c".into()];
    let (added, removed) = peer_delta(&live, &known);
    assert_eq!(added, vec!["a"]);
    assert_eq!(removed, vec!["c"]);
}

#[test]
fn authority_brackets_ipv6_only() {
    assert_eq!(authority("10.0.0.1", 9092), "10.0.0.1:9092");
    assert_eq!(authority("fd00::1", 9092), "[fd00::1]:9092");
}

#[test]
fn peer_endpoint_is_a_tcp_url() {
    assert_eq!(peer_endpoint("fd00::1", 1), "tcp://[fd00::1]:1");
}

#[test]
fn resolves_replica_agg_named_port() {
    let slices = [slice_with_replica_port(Some(9092)), slice_with_replica_port(Some(9092))];
    assert_eq!(replica_sync_port(&slices).unwrap(), 9092);
}

#[test]
fn rejects_missing_replica_agg_named_port() {
    let slices = [slice_with(&["10.0.0.1"], false, "IPv4")];
    let error = replica_sync_port(&slices).unwrap_err().message();
    assert!(error.contains(REPLICA_AGG_PORT_NAME));
}

#[test]
fn rejects_inconsistent_replica_agg_named_ports() {
    let slices = [slice_with_replica_port(Some(9092)), slice_with_replica_port(Some(9093))];
    let error = replica_sync_port(&slices).unwrap_err().message();
    assert!(error.contains("inconsistent ports"));
    assert!(error.ends_with("{9092, 9093}"));
}

#[test]
fn replica_port_errors_in_check_order() {
    assert!(matches!(replica_sync_port(&[]), Err(PortError::NoSlices)));
    let mut dup = slice_with_replica_port(Some(1));
    dup.ports.as_mut().unwrap().push(SlicePort { name: Some("replica-agg".into()), port: None });
    assert!(matches!(replica_sync_port(&[dup]), Err(PortError::DuplicatePort { .. })));
    assert!(matches!(replica_sync_port(&[slice_with_replica_port(None)]), Err(PortError::NoPortNumber { .. })));
    let err = replica_sync_port(&[slice_with_replica_port(Some(-5))]).unwrap_err();
    assert_eq!(err.message(), "EndpointSlice epp-peers-abc named port \"replica-agg\" has invalid port -5");
    assert!(matches!(replica_sync_port(&[slice_with_replica_port(Some(70_000))]), Err(PortError::InvalidPort { raw: 70_000, .. })));
    assert!(matches!(replica_sync_port(&[slice_with_replica_port(Some(0))]), Err(PortError::ZeroPort)));
    let unnamed = slice_with(&["10.0.0.1"], false, "IPv4");
    assert_eq!(
        replica_sync_port(&[unnamed]).unwrap_err().message(),
        "EndpointSlice <unnamed> does not expose named port \"replica-agg\""
    );
}

// ---------------------------------------------------------------------------
// Pod discovery

fn pool() -> PoolState {
    PoolState { match_labels: vec![("app".to_string(), "vllm-qwen".to_string())], target_port: 8000 }
}

fn pod(name: &str, ip: Option<&str>, ready: Option<bool>, labels: &[(&str, &str)]) -> PodInfo {
    PodInfo {
        name: Some(name.to_string()),
        labels: Some(labels.iter().map(|(k, v)| (k.to_string(), v.to_string())).collect()),
        terminating: false,
        conditions: ready.map(|r| {
            vec![PodCondition { kind: "Ready".to_string(), status: if r { "True" } else { "False" }.to_string() }]
        }),
        pod_ip: ip.map(|s| s.to_string()),
    }
}

#[test]
fn ready_selected_pod_maps_to_worker() {
    let w = raw_worker_from_pod(
        &pod("vllm-0", Some("10.0.0.1"), Some(true), &[("app", "vllm-qwen")]),
        &pool(),
        5557,
        Some(5560),
        42,
    )
    .expect("ready, selected pod should map");
    assert_eq!(w.worker_id, 42);
    assert_eq!(w.http_endpoint, "http://10.0.0.1:8000");
    assert_eq!(w.kv_events_endpoint, "tcp://10.0.0.1:5557");
    assert_eq!(w.replay_endpoint.as_deref(), Some("tcp://10.0.0.1:5560"));
    assert_eq!(w.stable_routing_id, "vllm-0");
}

#[test]
fn pod_not_matching_selector_is_skipped() {
    assert!(raw_worker_from_pod(
        &pod("other-0", Some("10.0.0.1"), Some(true), &[("app", "something-else")]),
        &pool(),
        5557,
        None,
        1,
    )
    .is_none());
}

#[test]
fn not_ready_pod_is_skipped() {
    assert!(raw_worker_from_pod(
        &pod("vllm-0", Some("10.0.0.1"), Some(false), &[("app", "vllm-qwen")]),
        &pool(),
        5557,
        None,
        1,
    )
    .is_none());
}

#[test]
fn terminating_pod_is_skipped() {
    let mut p = pod("vllm-0", Some("10.0.0.1"), Some(true), &[("app", "vllm-qwen")]);
    p.terminating = true;
    assert!(raw_worker_from_pod(&p, &pool(), 5557, None, 1).is_none());
}

#[test]
fn pod_without_ip_is_skipped() {
    assert!(raw_worker_from_pod(&pod("vllm-0", None, Some(true), &[("app", "vllm-qwen")]), &pool(), 5557, None, 1)
        .is_none());
}

#[test]
fn pod_readiness_and_selection_edges() {
    let mut p = pod("vllm-0", Some(""), Some(true), &[("app", "vllm-qwen"), ("role", "x")]);
    assert!(pod_is_ready(&p));
    assert!(pod_matches(&p, &pool().match_labels));
    assert!(raw_worker_from_pod(&p, &pool(), 1, None, 1).is_none());
    p.labels = None;
    assert!(!pod_matches(&p, &pool().match_labels));
    assert!(pod_matches(&p, &Vec::new()));
    p.conditions = None;
    assert!(!pod_is_ready(&p));
}

#[test]
fn strip_scheme_drops_http_or_https() {
    assert_eq!(strip_scheme("http://10.0.0.1:8000"), "10.0.0.1:8000");
    assert_eq!(strip_scheme("https://h:1"), "h:1");
    assert_eq!(strip_scheme("tcp://h:1"), "tcp://h:1");
}

fn identified(name: &str, ip: &str, ready: bool, id: u64) -> IdentifiedPod {
    IdentifiedPod { pod: pod(name, Some(ip), Some(ready), &[("app", "vllm-qwen")]), worker_id: id }
}

#[test]
fn ready_workers_and_endpoints_follow_the_pool() {
    let pods = vec![identified("a", "10.0.0.1", true, 1), identified("b", "10.0.0.2", false, 2), identified("c", "10.0.0.3", true, 3)];
    let workers: Vec<RawWorker> = ready_workers(&pods, &Some(pool()), 5557, None);
    assert_eq!(workers.iter().map(|w| w.worker_id).collect::<Vec<_>>(), vec![1, 3]);
    assert!(ready_workers(&pods, &None, 5557, None).is_empty());
    assert_eq!(resolve_endpoint(&pods, &Some(pool()), 5557, None, 3), Some("10.0.0.3:8000".to_string()));
    assert_eq!(resolve_endpoint(&pods, &Some(pool()), 5557, None, 2), None);
    assert_eq!(ready_worker_ids(&pods, &Some(pool()), 5557, None), vec![1, 3]);
}

#[test]
fn law_every_ready_worker_resolves_and_only_those() {
    let pods = vec![
        identified("a", "10.0.0.1", true, 1),
        identified("b", "10.0.0.2", false, 2),
        identified("c", "10.0.0.3", true, 3),
        identified("d", "10.0.0.4", true, 1),
    ];
    let ids = ready_worker_ids(&pods, &Some(pool()), 5557, None);
    assert_eq!(ids, vec![1, 3]);
    for id in 0..5u64 {
        let resolved = resolve_endpoint(&pods, &Some(pool()), 5557, None, id);
        assert_eq!(resolved.is_some(), ids.contains(&id));
    }
    assert_eq!(resolve_endpoint(&pods, &Some(pool()), 5557, None, 1), Some("10.0.0.1:8000".to_string()));
}

#[test]
fn pick_plans_honor_readiness_subsets_and_body() {
    let pods = vec![identified("a", "10.0.0.1", true, 1), identified("c", "10.0.0.3", true, 3)];
    let pl = Some(pool());
    assert!(matches!(plan_pick(false, &pods, &pl, 1, None, &[], false), Err(PickRefusal::ReflectorNotReady)));
    assert!(matches!(plan_pick(true, &pods, &None, 1, None, &[], false), Err(PickRefusal::NoEndpoints)));
    let subset = vec!["10.0.0.3".to_string()];
    assert_eq!(subset_worker_ids(&vec![1, 3], &subset, &pods, &pl, 1, None), vec![3]);
    match plan_pick(true, &pods, &pl, 1, None, &subset, true) {
        Ok(PickPlan::Direct { worker_id, endpoint }) => {
            assert_eq!(worker_id, 3);
            assert_eq!(endpoint, "10.0.0.3:8000");
        }
        _ => panic!("expected a direct pick"),
    }
    match plan_pick(true, &pods, &pl, 1, None, &[], false) {
        Ok(PickPlan::Select { allowed }) => assert_eq!(allowed, vec![1, 3]),
        _ => panic!("expected a selection"),
    }
    let outside = vec!["10.9.9.9".to_string()];
    assert!(matches!(plan_pick(true, &pods, &pl, 1, None, &outside, false), Err(PickRefusal::NoEndpoints)));
}

// ---------------------------------------------------------------------------
// InferencePool parsing

fn s(v: &str) -> JsonValue {
    JsonValue::String(v.to_string())
}

fn obj(members: Vec<(&str, JsonValue)>) -> JsonValue {
    JsonValue::Object(members.into_iter().map(|(k, v)| (k.to_string(), v)).collect())
}

fn num(n: u64) -> JsonValue {
    JsonValue::Number(JsonNumber::PosInt(n))
}

fn pool_json(labels: Vec<(&str, JsonValue)>, ports: Option<Vec<u64>>) -> JsonValue {
    let mut spec = vec![("selector", obj(vec![("matchLabels", obj(labels))]))];
    if let Some(ports) = ports {
        spec.push(("targetPorts", JsonValue::Array(ports.into_iter().map(|p| obj(vec![("number", num(p))])).collect())));
    }
    obj(vec![("spec", obj(spec))])
}

#[test]
fn parses_v1_target_ports() {
    let data = pool_json(vec![("app", s("vllm-qwen"))], Some(vec![8000]));
    let st = parse_pool_state(&data).expect("v1 pool should parse");
    assert_eq!(st.target_port, 8000);
    assert_eq!(st.label("app").unwrap(), "vllm-qwen");
}

#[test]
fn parses_multiple_match_labels() {
    let data = pool_json(vec![("app", s("vllm-qwen")), ("role", s("decode"))], Some(vec![8000]));
    let st = parse_pool_state(&data).expect("v1 pool should parse");
    assert_eq!(st.target_port, 8000);
    assert_eq!(st.match_labels.len(), 2);
}

#[test]
fn v1alpha2_target_port_number_is_rejected() {
    let data = obj(vec![(
        "spec",
        obj(vec![
            ("selector", obj(vec![("matchLabels", obj(vec![("app", s("vllm-qwen"))]))])),
            ("targetPortNumber", num(8000)),
        ]),
    )]);
    assert!(parse_pool_state(&data).is_none());
}

#[test]
fn empty_selector_is_rejected() {
    let data = pool_json(vec![], Some(vec![8000]));
    assert!(parse_pool_state(&data).is_none());
}

#[test]
fn missing_target_port_is_rejected() {
    let data = pool_json(vec![("app", s("x"))], None);
    assert!(parse_pool_state(&data).is_none());
}

#[test]
fn multi_port_pool_is_rejected() {
    let data = pool_json(vec![("app", s("vllm-qwen"))], Some(vec![8000, 8001]));
    assert!(parse_pool_state(&data).is_none());
}

#[test]
fn empty_target_ports_is_rejected() {
    let data = pool_json(vec![("app", s("vllm-qwen"))], Some(vec![]));
    assert!(parse_pool_state(&data).is_none());
}

#[test]
fn pool_ports_must_be_nonzero_u16_and_labels_strings() {
    assert!(parse_pool_state(&pool_json(vec![("app", s("x"))], Some(vec![0]))).is_none());
    assert!(parse_pool_state(&pool_json(vec![("app", s("x"))], Some(vec![65_536]))).is_none());
    assert!(parse_pool_state(&pool_json(vec![("app", num(1))], Some(vec![80]))).is_none());
    let st = parse_pool_state(&pool_json(vec![("app", num(1)), ("b", s("y"))], Some(vec![65_535]))).unwrap();
    assert_eq!(st.match_labels, vec![("b".to_string(), "y".to_string())]);
    assert_eq!(st.target_port, 65_535);
}

// ---------------------------------------------------------------------------
// Registration

fn defaults() -> RegistrationDefaults {
    RegistrationDefaults {
        model_name: "Qwen/Qwen3-0.6B".to_string(),
        block_size: 16,
        data_parallel_size: 1,
        total_kv_blocks: Some(1000),
        max_num_batched_tokens: None,
    }
}

fn raw_worker(id: u64, ip: &str) -> RawWorker {
    RawWorker {
        worker_id: id,
        pod_name: format!("vllm-{id}"),
        pod_ip: ip.to_string(),
        http_endpoint: format!("http://{ip}:8000"),
        kv_events_endpoint: format!("tcp://{ip}:5557"),
        replay_endpoint: None,
        stable_routing_id: format!("vllm-{id}"),
    }
}

#[test]
fn registration_maps_env_and_endpoints() {
    let reg = build_registration(&raw_worker(7, "10.0.0.1"), &defaults());
    assert_eq!(reg.worker_id, 7);
    assert_eq!(reg.model_name, "Qwen/Qwen3-0.6B");
    assert_eq!(reg.endpoint, "http://10.0.0.1:8000");
    assert_eq!(reg.block_size, 16);
    assert_eq!(reg.data_parallel_size, 1);
    assert_eq!(reg.kv_events_endpoint(0).unwrap(), "tcp://10.0.0.1:5557");
    assert_eq!(reg.total_kv_blocks, Some(1000));
    assert_eq!(reg.stable_routing_id.as_deref(), Some("vllm-7"));
}

#[test]
fn registration_defaults_come_from_the_config() {
    let cfg = StandaloneConfig {
        model_name: "m".to_string(),
        block_size: 32,
        data_parallel_size: 2,
        total_kv_blocks: None,
        max_num_batched_tokens: Some(8192),
    };
    let d = RegistrationDefaults::from_config(&cfg);
    assert_eq!(d.model_name, "m");
    assert_eq!((d.block_size, d.data_parallel_size, d.total_kv_blocks, d.max_num_batched_tokens), (32, 2, None, Some(8192)));
}

#[test]
fn catalog_skips_unchanged_workers_and_finds_stale_ones() {
    let mut catalog = WorkerCatalog::new();
    let a = build_registration(&raw_worker(1, "10.0.0.1"), &defaults());
    let b = build_registration(&raw_worker(2, "10.0.0.2"), &defaults());
    assert!(catalog.needs_upsert(&a));
    catalog.record(a.clone());
    catalog.record(b.clone());
    assert!(!catalog.needs_upsert(&a));
    let moved = build_registration(&raw_worker(1, "10.0.0.9"), &defaults());
    assert!(catalog.needs_upsert(&moved));
    assert_eq!(catalog.stale_ids(&[1]), vec![2]);
    catalog.forget(2);
    assert!(catalog.stale_ids(&[1]).is_empty());
    assert!(catalog.needs_upsert(&b));
}

#[test]
fn catalog_sync_upserts_then_deletes_and_is_idempotent() {
    let mut catalog = WorkerCatalog::new();
    let a = build_registration(&raw_worker(1, "10.0.0.1"), &defaults());
    let b = build_registration(&raw_worker(2, "10.0.0.2"), &defaults());
    let c = build_registration(&raw_worker(3, "10.0.0.3"), &defaults());
    catalog.record(c.clone());
    let desired = vec![a.clone(), b.clone()];
    let mut applied = Vec::new();
    while let Some(action) = catalog.next_sync_action(&desired) {
        applied.push(action);
        match action {
            SyncAction::Upsert(i) => catalog.record(desired[i].clone()),
            SyncAction::Delete(id) => catalog.forget(id),
        }
    }
    assert_eq!(applied, vec![SyncAction::Upsert(0), SyncAction::Upsert(1), SyncAction::Delete(3)]);
    assert_eq!(catalog.next_sync_action(&desired), None);

    let moved = build_registration(&raw_worker(1, "10.0.0.9"), &defaults());
    let shadowed = vec![b.clone(), moved.clone(), a.clone()];
    assert_eq!(catalog.next_sync_action(&shadowed), Some(SyncAction::Upsert(1)));
    catalog.record(moved);
    assert_eq!(catalog.next_sync_action(&shadowed), None);
}

#[test]
fn catalog_sync_plan_reaches_desired_and_a_second_plan_is_empty() {
    let mut catalog = WorkerCatalog::new();
    let a = build_registration(&raw_worker(1, "10.0.0.1"), &defaults());
    let b = build_registration(&raw_worker(2, "10.0.0.2"), &defaults());
    let c = build_registration(&raw_worker(3, "10.0.0.3"), &defaults());
    let moved = build_registration(&raw_worker(2, "10.0.0.8"), &defaults());
    catalog.record(b.clone());
    catalog.record(c.clone());
    let desired = vec![a.clone(), moved.clone()];
    let plan = catalog.sync_to(&desired);
    assert_eq!(plan, vec![SyncAction::Upsert(0), SyncAction::Upsert(1), SyncAction::Delete(3)]);
    assert!(!catalog.needs_upsert(&a));
    assert!(!catalog.needs_upsert(&moved));
    assert!(catalog.needs_upsert(&b));
    assert_eq!(catalog.stale_ids(&[1, 2]), Vec::<u64>::new());
    assert!(catalog.sync_to(&desired).is_empty());
    let copy = copy_registration(&moved);
    assert!(registration_equal(&copy, &moved));
    assert!(!registration_equal(&copy, &b));

    let mut stepwise = WorkerCatalog::new();
    stepwise.record(c.clone());
    stepwise.apply_sync_action(&desired, SyncAction::Upsert(1));
    assert!(!stepwise.needs_upsert(&moved));
    stepwise.apply_sync_action(&desired, SyncAction::Delete(3));
    assert!(stepwise.needs_upsert(&c));
    assert_eq!(stepwise.sync_to(&desired), vec![SyncAction::Upsert(0)]);
}

#[test]
fn bookings_are_freed_once_and_stale_choices_release_theirs() {
    let mut book = ReservationBook::new();
    let r1 = "req-1".to_owned();
    let r2 = "req-2".to_owned();
    book.book(r1.clone(), "res-a".to_owned());
    book.book(r2.clone(), "res-b".to_owned());
    assert_eq!(book.reservation_of(&r1), Some("res-a".to_owned()));
    book.book(r1.clone(), "res-c".to_owned());
    assert_eq!(book.reservation_of(&r1), Some("res-c".to_owned()));
    assert_eq!(book.release(&r1), Some("res-c".to_owned()));
    assert_eq!(book.release(&r1), None);
    assert_eq!(book.reservation_of(&r1), None);
    assert_eq!(book.reservation_of(&r2), Some("res-b".to_owned()));

    let pods = vec![identified("a", "10.0.0.1", true, 1), identified("b", "10.0.0.2", false, 2)];
    let routed = settle_selection(&mut book, &r2, &pods, &Some(pool()), 5557, None, 1).unwrap();
    assert_eq!(routed, ("10.0.0.1:8000".to_owned(), routing_headers(1)));
    assert_eq!(book.reservation_of(&r2), Some("res-b".to_owned()));
    let stale = settle_selection(&mut book, &r2, &pods, &Some(pool()), 5557, None, 2);
    assert_eq!(stale, Err((PickRefusal::NoEndpoints, Some("res-b".to_owned()))));
    assert_eq!(book.reservation_of(&r2), None);
    let unbooked = settle_selection(&mut book, &r2, &pods, &None, 5557, None, 1);
    assert_eq!(unbooked, Err((PickRefusal::NoEndpoints, None)));
}

#[test]
fn selected_worker_routes_to_its_current_endpoint_or_is_stale() {
    let pods = vec![identified("a", "10.0.0.1", true, 1), identified("b", "10.0.0.2", false, 2)];
    let (endpoint, headers) = route_selected(&pods, &Some(pool()), 5557, None, 1).unwrap();
    assert_eq!(endpoint, "10.0.0.1:8000");
    assert_eq!(headers, routing_headers(1));
    assert_eq!(route_selected(&pods, &Some(pool()), 5557, None, 2), Err(PickRefusal::NoEndpoints));
    assert_eq!(route_selected(&pods, &None, 5557, None, 1), Err(PickRefusal::NoEndpoints));
}

#[test]
fn tenant_header_overrides_the_body_cache_salt() {
    let tenant = vec![("X-Tenant-Id".to_string(), "  tenant-a ".to_string())];
    let blank = vec![("x-tenant-id".to_string(), "   ".to_string())];
    assert_eq!(cache_salt(&tenant, Some("body".to_string())), Some("tenant-a".to_string()));
    assert_eq!(cache_salt(&blank, Some("body".to_string())), Some("body".to_string()));
    assert_eq!(cache_salt(&[], None), None);
}

#[test]
fn selector_start_checks_batched_tokens_and_pod_ip() {
    assert_eq!(check_batched_tokens(false, None), Ok(()));
    assert_eq!(check_batched_tokens(true, Some(8192)), Ok(()));
    assert_eq!(check_batched_tokens(true, Some(0)), Err(SelectorConfigError::MissingBatchedTokens));
    assert_eq!(check_batched_tokens(true, None), Err(SelectorConfigError::MissingBatchedTokens));
    assert_eq!(own_pod_ip(Some(" 10.0.0.7\n")), Ok("10.0.0.7".to_string()));
    assert_eq!(own_pod_ip(Some("   ")), Err(SelectorConfigError::MissingPodIp));
    assert_eq!(own_pod_ip(None), Err(SelectorConfigError::MissingPodIp));
    assert!(SelectorConfigError::MissingPodIp.message().starts_with("DYN_EPP_PEER_SERVICE is set but POD_IP is unavailable"));
    assert!(SelectorConfigError::MissingBatchedTokens.message().starts_with("DYN_EPP_MAX_NUM_BATCHED_TOKENS is required"));
}
