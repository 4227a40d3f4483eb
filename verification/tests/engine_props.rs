//! Transaction-cycle behaviour: idempotence, inverses, batch invariance,
//! distinctness, error reporting.

use ddengine::delta::{delta_commands, DeltaCommand};
use ddengine::program::{
    build_program, EngineError, GraphError, Node, Program, ProgramHandle, RelationDecl, Update,
};
use ddengine::scc::{
    edge_value, relid2name, scc_program, Edge, Relations, REL_CONNECTED, REL_EDGE,
    REL_STRONGLY_CONNECTED,
};
use ddengine::value::{Shape, Value};

fn handle() -> ProgramHandle {
    build_program(scc_program(64)).ok().expect("the workload program builds")
}

fn insert_edge(s: u32, d: u32) -> Update {
    Update::Insert { relid: REL_EDGE, v: edge_value(&Edge { src: s, dest: d }) }
}

fn delete_edge(s: u32, d: u32) -> Update {
    Update::DeleteValue { relid: REL_EDGE, v: edge_value(&Edge { src: s, dest: d }) }
}

fn rows(h: &ProgramHandle, relid: usize) -> Vec<(Value, i64)> {
    h.snapshot(relid).expect("relation exists").entries
}

#[test]
fn empty_batch_is_idempotent() {
    let mut h = handle();
    h.apply_transaction(&vec![insert_edge(1, 2), insert_edge(2, 1)])
        .ok()
        .expect("transaction applies");
    let edges_before = rows(&h, REL_EDGE);
    let connected_before = rows(&h, REL_CONNECTED);
    let sc_before = rows(&h, REL_STRONGLY_CONNECTED);
    let dm = h.apply_transaction(&vec![]).ok().expect("empty transaction applies");
    assert_eq!(dm.rel_count(), 0);
    assert_eq!(rows(&h, REL_EDGE), edges_before);
    assert_eq!(rows(&h, REL_CONNECTED), connected_before);
    assert_eq!(rows(&h, REL_STRONGLY_CONNECTED), sc_before);
}

#[test]
fn insert_then_delete_is_an_inverse() {
    let mut h = handle();
    h.apply_transaction(&vec![insert_edge(5, 6)]).ok().expect("transaction applies");
    let edges_before = rows(&h, REL_EDGE);
    let connected_before = rows(&h, REL_CONNECTED);
    let mut ho = handle();
    ho.register_observer(REL_CONNECTED);
    ho.register_observer(REL_EDGE);
    ho.apply_transaction(&vec![insert_edge(5, 6)]).ok().expect("transaction applies");

    let d1 = ho
        .apply_transaction(&vec![insert_edge(6, 7)])
        .ok()
        .expect("insert applies");
    let d2 = ho
        .apply_transaction(&vec![delete_edge(6, 7)])
        .ok()
        .expect("delete applies");
    // the store is back to its pre-insert content
    assert_eq!(rows(&ho, REL_EDGE), edges_before);
    assert_eq!(rows(&ho, REL_CONNECTED), connected_before);
    // and the second report is the exact negation of the first
    assert_eq!(d1.rel_count(), d2.rel_count());
    for (rid, d) in d1.entries.iter() {
        let back = d2.try_get_rel(*rid).expect("same relations changed back");
        assert_eq!(d.rows.len(), back.rows.len());
        for i in 0..d.rows.len() {
            assert_eq!(d.rows[i].0, back.rows[i].0);
            assert_eq!(d.rows[i].1, -back.rows[i].1);
        }
    }
}

#[test]
fn batches_compose() {
    let u1 = vec![insert_edge(1, 2), insert_edge(2, 3)];
    let u2 = vec![insert_edge(3, 1), insert_edge(9, 9)];
    let mut split = handle();
    split.apply_transaction(&u1).ok().expect("first batch applies");
    split.apply_transaction(&u2).ok().expect("second batch applies");
    let mut joined = handle();
    let mut all = u1;
    all.extend(u2);
    joined.apply_transaction(&all).ok().expect("joined batch applies");
    for rid in [REL_CONNECTED, REL_EDGE, REL_STRONGLY_CONNECTED] {
        assert_eq!(rows(&split, rid), rows(&joined, rid));
    }
}

#[test]
fn distinct_relation_holds_a_set() {
    let mut h = handle();
    // (1,3) is derivable directly and through 2
    h.apply_transaction(&vec![insert_edge(1, 2), insert_edge(2, 3), insert_edge(1, 3)])
        .ok()
        .expect("transaction applies");
    let connected = rows(&h, REL_CONNECTED);
    assert!(connected.iter().all(|(_, w)| *w == 1));
    let pair13 = Value::Tup(vec![Value::Int(1), Value::Int(3)]);
    assert!(connected.iter().any(|(v, _)| *v == pair13));
    // dropping one derivation keeps the fact
    h.apply_transaction(&vec![delete_edge(1, 3)]).ok().expect("transaction applies");
    assert!(rows(&h, REL_CONNECTED).iter().any(|(v, _)| *v == pair13));
    // dropping the last derivation removes it with net weight zero
    h.apply_transaction(&vec![delete_edge(2, 3)]).ok().expect("transaction applies");
    assert!(!rows(&h, REL_CONNECTED).iter().any(|(v, _)| *v == pair13));
}

#[test]
fn input_weights_accumulate_but_outputs_stay_sets() {
    let mut h = handle();
    // the same edge twice in one batch: net input weight two
    h.apply_transaction(&vec![insert_edge(4, 5), insert_edge(4, 5)])
        .ok()
        .expect("transaction applies");
    let edge45 = || Value::Tup(vec![Value::Int(4), Value::Int(5)]);
    assert_eq!(rows(&h, REL_EDGE), vec![(edge45(), 2)]);
    assert_eq!(rows(&h, REL_CONNECTED), vec![(edge45(), 1)]);
    // one retraction leaves one copy; the closure is unchanged
    h.apply_transaction(&vec![delete_edge(4, 5)]).ok().expect("transaction applies");
    assert_eq!(rows(&h, REL_EDGE), vec![(edge45(), 1)]);
    assert_eq!(rows(&h, REL_CONNECTED), vec![(edge45(), 1)]);
    // the second retraction empties the store
    h.apply_transaction(&vec![delete_edge(4, 5)]).ok().expect("transaction applies");
    assert_eq!(rows(&h, REL_EDGE).len(), 0);
    assert_eq!(rows(&h, REL_CONNECTED).len(), 0);
}

#[test]
fn unknown_relation_is_rejected() {
    let mut h = handle();
    let bad_id = Update::Insert { relid: 17, v: Value::Int(1) };
    assert!(matches!(h.apply_transaction(&vec![bad_id]), Err(EngineError::UnknownRelation)));
    // a derived relation is not an input either
    let derived = Update::Insert {
        relid: REL_CONNECTED,
        v: edge_value(&Edge { src: 1, dest: 2 }),
    };
    assert!(matches!(h.apply_transaction(&vec![derived]), Err(EngineError::UnknownRelation)));
    assert_eq!(rows(&h, REL_EDGE).len(), 0);
}

#[test]
fn schema_mismatch_rolls_back() {
    let mut h = handle();
    let ill_shaped = Update::Insert { relid: REL_EDGE, v: Value::Int(5) };
    let ups = vec![insert_edge(1, 2), ill_shaped];
    assert!(matches!(h.apply_transaction(&ups), Err(EngineError::SchemaMismatch)));
    // atomic: the well-shaped update of the failed batch did not land
    assert_eq!(rows(&h, REL_EDGE).len(), 0);
}

#[test]
fn exhausted_round_budget_is_reported() {
    let mut h = build_program(scc_program(1)).ok().expect("builds with a tiny budget");
    let ups = vec![insert_edge(1, 2), insert_edge(2, 3)];
    assert!(matches!(h.apply_transaction(&ups), Err(EngineError::ResourceLimit)));
    assert_eq!(rows(&h, REL_EDGE).len(), 0);
}

#[test]
fn zero_round_budget_is_malformed() {
    assert!(matches!(build_program(scc_program(0)), Err(GraphError::MalformedGraph)));
}

#[test]
fn undeclared_relations_are_malformed() {
    // a derived relation owned by no node
    let prog = Program {
        rels: vec![RelationDecl {
            name: "Orphan".to_string(),
            input: false,
            distinct: false,
            track: false,
            shape: Shape::Free,
            arrangements: vec![],
            rules: vec![],
        }],
        nodes: vec![],
        rounds: 8,
    };
    assert!(matches!(build_program(prog), Err(GraphError::MalformedGraph)));
    // a node naming an undeclared relation
    let prog2 = Program { rels: vec![], nodes: vec![Node::Rel(0)], rounds: 8 };
    assert!(matches!(build_program(prog2), Err(GraphError::MalformedGraph)));
}

#[test]
fn observers_receive_deltas() {
    let mut h = handle();
    assert!(h.register_observer(REL_CONNECTED));
    assert!(!h.register_observer(99));
    let dm = h
        .apply_transaction(&vec![insert_edge(1, 2)])
        .ok()
        .expect("transaction applies");
    let dc = dm.try_get_rel(REL_CONNECTED).expect("closure changed");
    assert_eq!(dc.rows.len(), 1);
    assert_eq!(dc.rows[0].1, 1);
    // StronglyConnected is observed from the start but did not change
    assert!(dm.try_get_rel(REL_STRONGLY_CONNECTED).is_none());
}

#[test]
fn unit_deltas_render_as_commands() {
    let mut h = handle();
    h.register_observer(REL_CONNECTED);
    let dm = h
        .apply_transaction(&vec![insert_edge(1, 2), insert_edge(2, 1)])
        .ok()
        .expect("transaction applies");
    let d = dm.try_get_rel(REL_CONNECTED).expect("closure changed");
    let cmds = delta_commands(d).expect("a distinct relation's delta has unit weights");
    assert_eq!(cmds.len(), 4);
    assert!(cmds.iter().all(|c| matches!(c, DeltaCommand::Insert(_))));
    let dm2 = h
        .apply_transaction(&vec![delete_edge(2, 1)])
        .ok()
        .expect("transaction applies");
    let d2 = dm2.try_get_rel(REL_CONNECTED).expect("closure changed");
    let cmds2 = delta_commands(d2).expect("unit weights");
    assert!(cmds2.iter().all(|c| matches!(c, DeltaCommand::Delete(_))));
}

#[test]
fn snapshots_and_names() {
    let h = handle();
    assert!(h.snapshot(REL_STRONGLY_CONNECTED).is_some());
    assert!(h.snapshot(3).is_none());
    assert_eq!(relid2name(REL_EDGE), Some("Edge"));
    assert_eq!(relid2name(REL_CONNECTED), Some("Connected"));
    assert_eq!(relid2name(REL_STRONGLY_CONNECTED), Some("StronglyConnected"));
    assert_eq!(relid2name(9), None);
    assert!(Relations::Edge.is_input());
    assert!(!Relations::Connected.is_input());
    assert!(Relations::StronglyConnected.is_output());
    assert!(!Relations::Edge.is_output());
    assert_eq!(Relations::Connected.rel_id(), REL_CONNECTED);
    assert_eq!(Relations::try_from_relid(REL_EDGE), Some(Relations::Edge));
    assert_eq!(Relations::try_from_relid(5), None);
}
