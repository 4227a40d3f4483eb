//! The workload: transitive closure and cycle labelling.

use ddengine::program::{build_program, ProgramHandle, Update};
use ddengine::scc::{
    dest, edge_value, scc_program, src, Connected, Edge, StronglyConnected, REL_CONNECTED,
    REL_EDGE, REL_STRONGLY_CONNECTED,
};
use ddengine::value::Value;

fn handle() -> ProgramHandle {
    build_program(scc_program(64)).ok().expect("the workload program builds")
}

fn insert_edge(s: u32, d: u32) -> Update {
    Update::Insert { relid: REL_EDGE, v: edge_value(&Edge { src: s, dest: d }) }
}

fn delete_edge(s: u32, d: u32) -> Update {
    Update::DeleteValue { relid: REL_EDGE, v: edge_value(&Edge { src: s, dest: d }) }
}

fn pair(a: u64, b: u64) -> Value {
    Value::Tup(vec![Value::Int(a), Value::Int(b)])
}

fn rows(h: &ProgramHandle, relid: usize) -> Vec<(Value, i64)> {
    h.snapshot(relid).expect("relation exists").entries
}

#[test]
fn accessors() {
    let e = Edge { src: 7, dest: 9 };
    assert_eq!(src(&e), 7);
    assert_eq!(dest(&e), 9);
    let c = Connected { src: 1, dest: 2 };
    let s = StronglyConnected { node: 1, regime: 1 };
    assert_eq!(c, Connected { src: 1, dest: 2 });
    assert_eq!(s.regime, 1);
}

#[test]
fn transitive_closure_of_a_path() {
    let mut h = handle();
    let ups = vec![insert_edge(1, 2), insert_edge(2, 3)];
    h.apply_transaction(&ups).ok().expect("transaction applies");
    let connected = rows(&h, REL_CONNECTED);
    assert_eq!(
        connected,
        vec![(pair(1, 2), 1), (pair(1, 3), 1), (pair(2, 3), 1)],
    );
    // no cycle: no node is strongly connected
    assert_eq!(rows(&h, REL_STRONGLY_CONNECTED).len(), 0);
}

#[test]
fn two_cycle_regime_is_least_node() {
    let mut h = handle();
    let ups = vec![insert_edge(1, 2), insert_edge(2, 1)];
    h.apply_transaction(&ups).ok().expect("transaction applies");
    // closure of the cycle: both arcs and both self-paths
    assert_eq!(
        rows(&h, REL_CONNECTED),
        vec![
            (pair(1, 1), 1),
            (pair(1, 2), 1),
            (pair(2, 1), 1),
            (pair(2, 2), 1),
        ],
    );
    // both nodes fall to regime 1
    assert_eq!(
        rows(&h, REL_STRONGLY_CONNECTED),
        vec![(pair(1, 1), 1), (pair(2, 1), 1)],
    );
}

#[test]
fn two_cycle_regime_is_insertion_order_independent() {
    let mut h1 = handle();
    h1.apply_transaction(&vec![insert_edge(1, 2), insert_edge(2, 1)])
        .ok()
        .expect("transaction applies");
    let mut h2 = handle();
    h2.apply_transaction(&vec![insert_edge(2, 1)]).ok().expect("transaction applies");
    h2.apply_transaction(&vec![insert_edge(1, 2)]).ok().expect("transaction applies");
    assert_eq!(rows(&h1, REL_STRONGLY_CONNECTED), rows(&h2, REL_STRONGLY_CONNECTED));
    assert_eq!(rows(&h1, REL_CONNECTED), rows(&h2, REL_CONNECTED));
}

#[test]
fn triangle_cycle() {
    let mut h = handle();
    let ups = vec![insert_edge(2, 3), insert_edge(3, 1), insert_edge(1, 2)];
    h.apply_transaction(&ups).ok().expect("transaction applies");
    let sc = rows(&h, REL_STRONGLY_CONNECTED);
    assert_eq!(sc, vec![(pair(1, 1), 1), (pair(2, 1), 1), (pair(3, 1), 1)]);
}

#[test]
fn breaking_the_cycle_retracts_the_labels() {
    let mut h = handle();
    h.apply_transaction(&vec![insert_edge(1, 2), insert_edge(2, 1)])
        .ok()
        .expect("transaction applies");
    assert_eq!(rows(&h, REL_STRONGLY_CONNECTED).len(), 2);
    let dm = h
        .apply_transaction(&vec![delete_edge(2, 1)])
        .ok()
        .expect("transaction applies");
    // the cycle is gone: both labels retract
    assert_eq!(rows(&h, REL_STRONGLY_CONNECTED).len(), 0);
    assert_eq!(rows(&h, REL_CONNECTED), vec![(pair(1, 2), 1)]);
    let d = dm.try_get_rel(REL_STRONGLY_CONNECTED).expect("observed relation changed");
    assert_eq!(d.rows.len(), 2);
    assert!(d.rows.iter().all(|(_, w)| *w == -1));
}
