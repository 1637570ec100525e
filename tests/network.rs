use valve_search::{
    complete_distances, condense, connect_neighbors_min, create_valve_graph, remove_valve,
    visit_max_pressures, visit_max_pressures_2, BuildError, Network, Record, Walker,
};

fn record(name: &str, flow: u32, neighbors: &[&str]) -> Record {
    (
        name.to_string(),
        flow,
        neighbors.iter().map(|s| s.to_string()).collect(),
    )
}

/// Start -- X -- A -- B, every tunnel of length 1 and every valve taking 1 to
/// open; X releases nothing, so that Start and A end up 2 apart.
fn small_records() -> Vec<Record> {
    vec![
        record("AA", 0, &["XX"]),
        record("XX", 0, &["AA", "BA"]),
        record("BA", 10, &["XX", "BB"]),
        record("BB", 5, &["BA"]),
    ]
}

fn prepared(records: Vec<Record>) -> (Network, usize) {
    let mut g = create_valve_graph(records, 1, 1).unwrap();
    let start = g.node_of(&"AA".to_string()).unwrap();
    condense(&mut g, start);
    assert!(complete_distances(&mut g));
    (g, start)
}

fn single(g: &Network, start: usize, time: u32) -> u32 {
    let mut visited = vec![false; g.valves.len()];
    visited[start] = true;
    let r = visit_max_pressures(g, &mut visited, start, time);
    let mut expected = vec![false; g.valves.len()];
    expected[start] = true;
    assert_eq!(visited, expected);
    r
}

fn dual(g: &Network, start: usize, time1: u32, time2: u32) -> u32 {
    let mut visited = vec![false; g.valves.len()];
    visited[start] = true;
    visit_max_pressures_2(g, &mut visited, start, time1, start, time2)
}

#[test]
fn build_joins_both_ways() {
    let g = create_valve_graph(small_records(), 3, 2).unwrap();
    assert_eq!(g.valves.len(), 4);
    assert_eq!(g.valves[2].name, "BA");
    assert_eq!(g.valves[2].flow_rate, 10);
    assert_eq!(g.valves[2].turn_time, 2);
    assert_eq!(g.dist[0][1], Some(3));
    assert_eq!(g.dist[1][0], Some(3));
    assert_eq!(g.dist[3][2], Some(3));
    assert_eq!(g.dist[0][2], None);
    assert_eq!(g.dist[0][0], None);
}

#[test]
fn build_one_sided_listing_still_joins() {
    let g = create_valve_graph(vec![record("AA", 0, &["BB"]), record("BB", 1, &[])], 1, 1).unwrap();
    assert_eq!(g.dist[1][0], Some(1));
    assert_eq!(g.dist[0][1], Some(1));
}

#[test]
fn build_rejects_duplicate_name() {
    let r = create_valve_graph(vec![record("AA", 0, &[]), record("AA", 3, &[])], 1, 1);
    assert_eq!(r.err(), Some(BuildError::DuplicateName));
}

#[test]
fn build_rejects_unknown_neighbor() {
    let r = create_valve_graph(vec![record("AA", 0, &["ZZ"]), record("BB", 3, &[])], 1, 1);
    assert_eq!(r.err(), Some(BuildError::UnknownNeighbor));
}

#[test]
fn build_empty() {
    let g = create_valve_graph(Vec::new(), 1, 1).unwrap();
    assert!(g.valves.is_empty());
    assert!(g.dist.is_empty());
}

#[test]
fn node_of_finds_names() {
    let g = create_valve_graph(small_records(), 1, 1).unwrap();
    assert_eq!(g.node_of(&"BB".to_string()), Some(3));
    assert_eq!(g.node_of(&"QQ".to_string()), None);
}

#[test]
fn connect_neighbors_keeps_shorter_tunnel() {
    let mut g = create_valve_graph(
        vec![
            record("AA", 1, &["BB", "CC"]),
            record("BB", 0, &["CC"]),
            record("CC", 1, &[]),
        ],
        4,
        1,
    )
    .unwrap();
    g.dist[0][2] = Some(10);
    g.dist[2][0] = Some(10);
    connect_neighbors_min(&mut g, 1, false);
    assert_eq!(g.dist[0][2], Some(8));
    assert_eq!(g.dist[2][0], Some(8));
    assert_eq!(g.dist[0][0], None);
    g.dist[0][2] = Some(3);
    connect_neighbors_min(&mut g, 1, true);
    assert_eq!(g.dist[0][2], Some(3));
    assert_eq!(g.dist[0][0], Some(8));
}

#[test]
fn remove_valve_drops_its_tunnels() {
    let mut g = create_valve_graph(small_records(), 1, 1).unwrap();
    remove_valve(&mut g, 1);
    assert!(g.dist[1].iter().all(|d| d.is_none()));
    assert!(g.dist.iter().all(|row| row[1].is_none()));
    assert_eq!(g.dist[2][3], Some(1));
}

#[test]
fn condense_removes_zero_flow_except_start() {
    let mut g = create_valve_graph(small_records(), 1, 1).unwrap();
    condense(&mut g, 0);
    assert!(g.dist[1].iter().all(|d| d.is_none()));
    assert!(g.dist.iter().all(|row| row[1].is_none()));
    assert_eq!(g.dist[0][2], Some(2));
    assert_eq!(g.dist[2][0], Some(2));
    assert_eq!(g.dist[2][3], Some(1));
    assert_eq!(g.dist[0][3], None);
}

#[test]
fn condense_keeps_distances_of_a_chain() {
    let records = vec![
        record("AA", 0, &["B1"]),
        record("B1", 0, &["B2"]),
        record("B2", 0, &["CC"]),
        record("CC", 7, &["D1"]),
        record("D1", 0, &["EE"]),
        record("EE", 2, &[]),
    ];
    let (g, start) = prepared(records);
    assert_eq!(g.dist[start][3], Some(3));
    assert_eq!(g.dist[3][5], Some(2));
    assert_eq!(g.dist[start][5], Some(5));
    assert_eq!(g.dist[5][start], Some(5));
}

#[test]
fn complete_distances_fills_every_pair() {
    let (g, start) = prepared(small_records());
    assert_eq!(g.dist[start][2], Some(2));
    assert_eq!(g.dist[start][3], Some(3));
    assert_eq!(g.dist[3][start], Some(3));
    assert_eq!(g.dist[2][3], Some(1));
    for i in 0..4 {
        assert_eq!(g.dist[i][i], None);
    }
}

#[test]
fn complete_distances_is_idempotent() {
    let records = vec![
        record("AA", 0, &["BB", "CC"]),
        record("BB", 4, &["CC", "DD"]),
        record("CC", 0, &["DD"]),
        record("DD", 9, &["EE"]),
        record("EE", 1, &[]),
    ];
    let (mut g, _) = prepared(records);
    let once = g.dist.clone();
    assert!(complete_distances(&mut g));
    assert_eq!(g.dist, once);
}

#[test]
fn complete_distances_refuses_lengths_that_may_not_fit() {
    let mut g = create_valve_graph(
        vec![record("AA", 0, &["BB"]), record("BB", 1, &[])],
        u32::MAX,
        1,
    )
    .unwrap();
    let before = g.dist.clone();
    assert!(!complete_distances(&mut g));
    assert_eq!(g.dist, before);
}

#[test]
fn single_agent_example() {
    let (g, start) = prepared(small_records());
    assert_eq!(single(&g, start, 10), 95);
}

#[test]
fn single_agent_no_time() {
    let (g, start) = prepared(small_records());
    assert_eq!(single(&g, start, 0), 0);
    assert_eq!(single(&g, start, 3), 0);
    assert_eq!(single(&g, start, 4), 10);
}

#[test]
fn single_agent_more_time_never_less() {
    let (g, start) = prepared(small_records());
    let mut last = 0;
    for t in 0..30 {
        let r = single(&g, start, t);
        assert!(r >= last);
        last = r;
    }
}

#[test]
fn single_agent_caps_at_u32_max() {
    let (g, start) = prepared(vec![record("AA", 0, &["BB"]), record("BB", u32::MAX, &[])]);
    assert_eq!(single(&g, start, 100), u32::MAX);
}

#[test]
fn dual_agent_example() {
    let (g, start) = prepared(small_records());
    assert_eq!(dual(&g, start, 10, 10), 100);
}

#[test]
fn dual_agent_one_idle_matches_single() {
    let (g, start) = prepared(small_records());
    assert_eq!(dual(&g, start, 10, 0), 95);
    assert_eq!(dual(&g, start, 0, 10), 95);
}

#[test]
fn dual_agent_at_least_single() {
    let records = vec![
        record("AA", 0, &["BB", "CC", "DD"]),
        record("BB", 13, &["CC", "EE"]),
        record("CC", 2, &["DD"]),
        record("DD", 20, &["EE"]),
        record("EE", 3, &[]),
    ];
    let (g, start) = prepared(records);
    for t in 0..15 {
        assert!(dual(&g, start, t, t) >= single(&g, start, t));
    }
}

#[test]
fn dual_agent_restores_visited() {
    let (g, start) = prepared(small_records());
    let mut visited = vec![false; g.valves.len()];
    visited[start] = true;
    let before = visited.clone();
    visit_max_pressures_2(&g, &mut visited, start, 10, start, 10);
    assert_eq!(visited, before);
}

#[test]
fn walker_holds_its_fields() {
    let w = Walker { time: 5u32, location: 2usize };
    assert_eq!(w.time, 5);
    assert_eq!(w.location, 2);
}
