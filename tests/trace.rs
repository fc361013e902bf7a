use tracekit::dag_tracer::{DagTracer, Direction, TraceRow, TransferRecord};
use tracekit::error::SdtError;

fn rec(s: &str, d: &str) -> TransferRecord {
    TransferRecord { source_id: Some(s.to_string()), dest_id: Some(d.to_string()) }
}

fn ids(v: &[&str]) -> Vec<String> {
    v.iter().map(|s| s.to_string()).collect()
}

/// Sum over paths of the elementwise product of the transfers' factors.
fn factors_of(row: &TraceRow, factors: &[[f64; 4]]) -> [f64; 4] {
    let mut total = [0.0f64; 4];
    for p in &row.paths {
        let mut prod = [1.0f64; 4];
        for &e in p {
            for j in 0..4 {
                prod[j] *= factors[e][j];
            }
        }
        for j in 0..4 {
            total[j] += prod[j];
        }
    }
    total
}

fn close(a: [f64; 4], b: [f64; 4]) -> bool {
    (0..4).all(|j| (a[j] - b[j]).abs() < 1e-9)
}

fn find<'a>(rows: &'a [TraceRow], traced: &str, dir: Direction) -> &'a TraceRow {
    rows.iter().find(|r| r.traced_id == traced && r.direction == dir).expect("row present")
}

#[test]
fn chain_trace_end_to_end() {
    let records = vec![rec("A", "B"), rec("B", "C")];
    let factors = [[0.5, 0.6, 1.0, 1.0], [0.4, 0.3, 1.0, 1.0]];
    let t = DagTracer::from_transfers(&records).unwrap();
    let rows = t.trace(&ids(&["A"]));
    assert_eq!(rows.len(), 3);
    assert_eq!(rows[0].direction, Direction::Identity);
    assert_eq!(rows[0].origin_id, "A");
    assert_eq!(rows[0].traced_id, "A");
    assert!(close(factors_of(&rows[0], &factors), [1.0, 1.0, 1.0, 1.0]));
    let b = find(&rows, "B", Direction::Forward);
    assert!(close(factors_of(b, &factors), [0.5, 0.6, 1.0, 1.0]));
    let c = find(&rows, "C", Direction::Forward);
    assert_eq!(c.paths, vec![vec![0usize, 1usize]]);
    assert!(close(factors_of(c, &factors), [0.2, 0.18, 1.0, 1.0]));
    assert!(rows.iter().all(|r| r.direction != Direction::Backward));
    assert!(rows.iter().all(|r| r.origin_id == "A"));
}

#[test]
fn unknown_origin_gives_identity_row_only() {
    let t = DagTracer::from_transfers(&vec![rec("A", "B")]).unwrap();
    let rows = t.trace(&ids(&["Z"]));
    assert_eq!(rows.len(), 1);
    assert_eq!(rows[0].origin_id, "Z");
    assert_eq!(rows[0].traced_id, "Z");
    assert_eq!(rows[0].direction, Direction::Identity);
    assert_eq!(rows[0].paths, vec![Vec::<usize>::new()]);
}

#[test]
fn empty_graph_traces_identity() {
    let t = DagTracer::from_transfers(&vec![]).unwrap();
    let rows = t.trace(&ids(&["A"]));
    assert_eq!(rows.len(), 1);
    assert_eq!(rows[0].direction, Direction::Identity);
}

#[test]
fn self_loop_origin_is_not_traced_to_itself() {
    let t = DagTracer::from_transfers(&vec![rec("Z", "Z")]).unwrap();
    let rows = t.trace(&ids(&["Z"]));
    assert_eq!(rows.len(), 1);
    assert_eq!(rows[0].direction, Direction::Identity);
}

#[test]
fn two_disjoint_paths_add_up() {
    let records = vec![rec("A", "B"), rec("A", "C"), rec("B", "D"), rec("C", "D")];
    let factors = [[0.5, 0.5, 1.0, 1.0], [0.5, 0.5, 1.0, 1.0], [0.2, 0.4, 1.0, 1.0], [0.6, 0.8, 1.0, 1.0]];
    let t = DagTracer::from_transfers(&records).unwrap();
    let rows = t.trace(&ids(&["A"]));
    let d = find(&rows, "D", Direction::Forward);
    assert_eq!(d.paths.len(), 2);
    let p1 = 0.5 * 0.2;
    let p2 = 0.5 * 0.6;
    assert!(close(factors_of(d, &factors), [p1 + p2, 0.5 * 0.4 + 0.5 * 0.8, 2.0, 2.0]));
    assert_eq!(rows.len(), 4);
}

#[test]
fn backward_rows_for_ancestors() {
    let records = vec![rec("A", "B"), rec("B", "C")];
    let factors = [[1.0, 1.0, 0.5, 0.25], [1.0, 1.0, 0.5, 0.5]];
    let t = DagTracer::from_transfers(&records).unwrap();
    let rows = t.trace(&ids(&["C"]));
    assert_eq!(rows.len(), 3);
    let b = find(&rows, "B", Direction::Backward);
    assert!(close(factors_of(b, &factors), [1.0, 1.0, 0.5, 0.5]));
    let a = find(&rows, "A", Direction::Backward);
    assert!(close(factors_of(a, &factors), [1.0, 1.0, 0.25, 0.125]));
    assert!(rows.iter().all(|r| r.direction != Direction::Forward));
}

#[test]
fn middle_node_has_both_directions() {
    let t = DagTracer::from_transfers(&vec![rec("A", "B"), rec("B", "C")]).unwrap();
    let rows = t.trace(&ids(&["B"]));
    assert_eq!(rows.len(), 3);
    assert_eq!(rows[0].direction, Direction::Identity);
    assert_eq!(rows[1].direction, Direction::Forward);
    assert_eq!(rows[1].traced_id, "C");
    assert_eq!(rows[2].direction, Direction::Backward);
    assert_eq!(rows[2].traced_id, "A");
}

#[test]
fn cycle_terminates_with_simple_paths() {
    let t = DagTracer::from_transfers(&vec![rec("A", "B"), rec("B", "A")]).unwrap();
    let rows = t.trace(&ids(&["A"]));
    assert_eq!(rows.len(), 3);
    let f = find(&rows, "B", Direction::Forward);
    assert_eq!(f.paths, vec![vec![0usize]]);
    let b = find(&rows, "B", Direction::Backward);
    assert_eq!(b.paths, vec![vec![1usize]]);
}

#[test]
fn parallel_edges_count_one_node_path() {
    let t = DagTracer::from_transfers(&vec![rec("A", "B"), rec("A", "B")]).unwrap();
    let rows = t.trace(&ids(&["A"]));
    assert_eq!(rows.len(), 2);
    assert_eq!(rows[1].paths.len(), 1);
    assert_eq!(rows[1].paths[0].len(), 1);
}

#[test]
fn repeated_origins_repeat_blocks() {
    let t = DagTracer::from_transfers(&vec![rec("A", "B")]).unwrap();
    let rows = t.trace(&ids(&["A", "X", "A"]));
    assert_eq!(rows.len(), 5);
    assert_eq!(rows[0].origin_id, "A");
    assert_eq!(rows[2].origin_id, "X");
    assert_eq!(rows[3].origin_id, "A");
    assert_eq!(rows[3].direction, Direction::Identity);
    assert_eq!(rows[4].traced_id, "B");
}

#[test]
fn null_source_is_refused() {
    let records = vec![rec("A", "B"), TransferRecord { source_id: None, dest_id: Some("C".to_string()) }];
    assert!(matches!(DagTracer::from_transfers(&records), Err(SdtError::InvalidData(_))));
}

#[test]
fn null_dest_is_refused() {
    let records = vec![TransferRecord { source_id: Some("A".to_string()), dest_id: None }];
    assert!(matches!(DagTracer::from_transfers(&records), Err(SdtError::InvalidData(_))));
}
