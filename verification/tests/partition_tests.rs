use promql_search::coordinator::{plan_search, plan_search_now, Plan, Query, SearchConfig};
use promql_search::nodes::{order_nodes, Node};
use promql_search::partition::partition_range;
use promql_search::value::SearchError;

fn cfg(lookback: i64, max_points: i64, recency: i64) -> SearchConfig {
    SearchConfig {
        lookback_micros: lookback,
        max_points_per_series: max_points,
        recency_window_micros: recency,
        query_timeout_secs: 30,
        max_message_size_mb: 16,
        result_cache_enabled: true,
    }
}

fn query(start: i64, end: i64, step: i64) -> Query {
    Query {
        org_id: "org".to_string(),
        query_text: "up".to_string(),
        start,
        end,
        step,
        no_cache: false,
        timeout_secs: 30,
    }
}

fn node(id: u64, addr: &str) -> Node {
    Node { id, addr: addr.to_string() }
}

#[test]
fn one_hour_four_workers_covers_exactly() {
    // 1 hour in microseconds, 1 minute step, lookback equal to the step
    let parts = partition_range(0, 3_600_000_000, 60_000_000, 60_000_000, 4, 0, 0);
    assert!(parts.len() <= 4);
    let mut total: i64 = 0;
    for p in &parts {
        total += p.end - p.start;
    }
    assert_eq!(total, 3_600_000_000);
    // 60 steps over 4 workers: each worker span is 15 minutes
    assert_eq!(parts.len(), 4);
    assert_eq!((parts[0].start, parts[0].end), (0, 900_000_000));
    assert_eq!((parts[1].start, parts[1].end), (900_000_000, 1_800_000_000));
    assert_eq!((parts[2].start, parts[2].end), (1_800_000_000, 2_700_000_000));
    assert_eq!((parts[3].start, parts[3].end), (2_700_000_000, 3_600_000_000));
}

#[test]
fn partitions_chain_and_clip_to_end() {
    // 10 units, partition step 4 (ceil -> 3 steps over 2 workers: span 8)
    let parts = partition_range(0, 10, 4, 1, 2, 0, 0);
    assert_eq!(parts.len(), 2);
    assert_eq!((parts[0].start, parts[0].end), (0, 8));
    assert_eq!((parts[1].start, parts[1].end), (8, 10));
}

#[test]
fn degenerate_range_yields_single_partition() {
    let parts = partition_range(5, 5, 10, 10, 3, 0, 0);
    assert_eq!(parts.len(), 1);
    assert_eq!((parts[0].start, parts[0].end), (5, 5));
}

#[test]
fn short_range_uses_fewer_partitions_than_workers() {
    // one step fits the whole range: a single partition, many idle workers
    let parts = partition_range(0, 50, 100, 1, 8, 0, 0);
    assert!(parts.len() <= 8);
    assert_eq!(parts[0].start, 0);
    assert_eq!(parts.last().unwrap().end, 50);
}

#[test]
fn need_wal_marks_recent_partitions_only() {
    // now = 1000, recency window 100: threshold 900
    let parts = partition_range(0, 1000, 250, 1, 4, 1000, 100);
    for p in &parts {
        assert_eq!(p.need_wal, p.end >= 900, "partition [{}, {}]", p.start, p.end);
    }
    assert!(parts.iter().any(|p| p.need_wal));
    assert!(parts.iter().any(|p| !p.need_wal));
}

#[test]
fn too_many_points_is_rejected_before_planning() {
    // (end - start) / step = 1000 points > 500 allowed
    let c = cfg(1, 500, 0);
    let q = query(0, 1000, 1);
    let nodes = vec![node(1, "a:9000")];
    match plan_search(&c, &q, &nodes, 0) {
        Err(SearchError::TooManyPoints) => {},
        _ => panic!("expected TooManyPoints"),
    }
}

#[test]
fn points_at_the_cap_are_accepted() {
    let c = cfg(1, 1000, 0);
    let q = query(0, 1000, 1);
    let nodes = vec![node(1, "a:9000")];
    assert!(plan_search(&c, &q, &nodes, 0).is_ok());
}

#[test]
fn empty_node_set_fails_before_partitioning() {
    let c = cfg(1, 1000, 0);
    let q = query(0, 100, 1);
    let nodes: Vec<Node> = Vec::new();
    match plan_search(&c, &q, &nodes, 0) {
        Err(SearchError::NoWorkersAvailable) => {},
        _ => panic!("expected NoWorkersAvailable"),
    }
}

#[test]
fn plan_pairs_partitions_with_ordered_nodes() {
    let c = cfg(1, 10_000, 0);
    let q = query(0, 100, 1);
    let nodes = vec![node(7, "c:9000"), node(3, "a:9000"), node(5, "a:9000"), node(4, "b:9000")];
    let Plan { nodes: ordered, partitions } = plan_search(&c, &q, &nodes, 0).unwrap();
    // duplicates by address removed, ordered by id
    assert_eq!(ordered.len(), 3);
    assert!(ordered.windows(2).all(|w| w[0].id <= w[1].id));
    let addrs: Vec<&str> = ordered.iter().map(|n| n.addr.as_str()).collect();
    assert!(addrs.contains(&"a:9000") && addrs.contains(&"b:9000") && addrs.contains(&"c:9000"));
    assert!(partitions.len() <= ordered.len());
    assert_eq!(partitions[0].start, 0);
    assert_eq!(partitions.last().unwrap().end, 100);
}

#[test]
fn planning_against_the_wall_clock() {
    // a range far in the past: with the real clock it cannot fall inside
    // a one-second recency window
    let c = cfg(1, 10_000, 1_000_000);
    let q = query(0, 100, 1);
    let nodes = vec![node(1, "a:9000")];
    let plan = plan_search_now(&c, &q, &nodes).unwrap();
    assert_eq!(plan.partitions[0].start, 0);
    assert_eq!(plan.partitions.last().unwrap().end, 100);
    assert!(plan.partitions.iter().all(|p| !p.need_wal));
}

#[test]
fn order_nodes_keeps_one_node_per_address() {
    let nodes = vec![node(9, "x:1"), node(2, "y:1"), node(4, "x:1")];
    let ordered = order_nodes(&nodes);
    assert_eq!(ordered.len(), 2);
    assert!(ordered[0].id <= ordered[1].id);
    assert_ne!(ordered[0].addr, ordered[1].addr);
}
