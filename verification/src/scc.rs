//! The strongly-connected-components workload, expressed through the
//! engine's primitives.
//!
//! `Edge` is the input relation.  `Connected` is its transitive closure,
//! kept at set semantics and computed by a recursive rule joining edges
//! against already-known paths.  `StronglyConnected` assigns every node on
//! a cycle a regime: the least node reachable in both directions, found by
//! a semijoin of paths with their reversals and a grouped minimum.

use vstd::prelude::*;

use crate::expr::Expr;
use crate::program::{arr_wf, distinct_ids, find_node, node_defines, node_wf, nrels, prog_wf,
    rel_available, rule_wf, stage_wf, stages_wf, Node, Program, RelationDecl};
use crate::rules::{ArrKind, ArrangementDecl, Reducer, Rule, Source, Stage};
use crate::value::{Shape, Val, Value, lemma_vals_of};

verus! {

/// A path: `dest` is reachable from `src`.
#[derive(Clone, Copy, Debug, PartialEq, Eq, PartialOrd, Ord, Hash, Default, Structural)]
pub struct Connected {
    pub src: u32,
    pub dest: u32,
}

/// An input edge of the graph.
#[derive(Clone, Copy, Debug, PartialEq, Eq, PartialOrd, Ord, Hash, Default, Structural)]
pub struct Edge {
    pub src: u32,
    pub dest: u32,
}

/// A node on a cycle with its regime: the least mutually reachable node.
#[derive(Clone, Copy, Debug, PartialEq, Eq, PartialOrd, Ord, Hash, Default, Structural)]
pub struct StronglyConnected {
    pub node: u32,
    pub regime: u32,
}

pub fn src(edge: &Edge) -> (r: u32)
    ensures
        r == edge.src,
{
    edge.src
}

pub fn dest(edge: &Edge) -> (r: u32)
    ensures
        r == edge.dest,
{
    edge.dest
}

/// Id of the `Connected` relation.
pub const REL_CONNECTED: usize = 0;

/// Id of the `Edge` relation.
pub const REL_EDGE: usize = 1;

/// Id of the `StronglyConnected` relation.
pub const REL_STRONGLY_CONNECTED: usize = 2;

/// The model of a two-field row.
pub open spec fn pair_val(a: u32, b: u32) -> Val {
    Val::Tup(seq![Val::Int(a as int), Val::Int(b as int)])
}

/// Build a two-field row value.
pub fn pair_row(a: u32, b: u32) -> (r: Value)
    ensures
        r@ == pair_val(a, b),
{
    let mut fields: Vec<Value> = Vec::new();
    fields.push(Value::Int(a as u64));
    fields.push(Value::Int(b as u64));
    let r = Value::Tup(fields);
    proof {
        lemma_vals_of(r->Tup_0@);
        assert(crate::value::vals_of(r->Tup_0@) =~= seq![Val::Int(a as int), Val::Int(b as int)]);
    }
    r
}

/// The row an `Edge` contributes to its relation.
pub fn edge_value(e: &Edge) -> (r: Value)
    ensures
        r@ == pair_val(e.src, e.dest),
{
    pair_row(e.src, e.dest)
}

/// The row of a `Connected` fact.
pub fn connected_value(c: &Connected) -> (r: Value)
    ensures
        r@ == pair_val(c.src, c.dest),
{
    pair_row(c.src, c.dest)
}

/// The row of a `StronglyConnected` fact.
pub fn strongly_connected_value(s: &StronglyConnected) -> (r: Value)
    ensures
        r@ == pair_val(s.node, s.regime),
{
    pair_row(s.node, s.regime)
}

/// The name of a relation of the workload program.
pub fn relid2name(rid: usize) -> (r: Option<&'static str>)
    ensures
        (rid == REL_CONNECTED || rid == REL_EDGE || rid == REL_STRONGLY_CONNECTED) == (
        r is Some),
{
    if rid == REL_CONNECTED {
        Some("Connected")
    } else if rid == REL_EDGE {
        Some("Edge")
    } else if rid == REL_STRONGLY_CONNECTED {
        Some("StronglyConnected")
    } else {
        None
    }
}

/// The relations of the workload program, by name.
#[derive(Clone, Copy, Debug, PartialEq, Eq, Hash, Structural)]
pub enum Relations {
    Connected,
    Edge,
    StronglyConnected,
}

impl Relations {
    /// The id the relation carries in the program.
    pub fn rel_id(&self) -> (r: usize)
        ensures
            *self is Connected ==> r == REL_CONNECTED,
            *self is Edge ==> r == REL_EDGE,
            *self is StronglyConnected ==> r == REL_STRONGLY_CONNECTED,
    {
        match self {
            Relations::Connected => REL_CONNECTED,
            Relations::Edge => REL_EDGE,
            Relations::StronglyConnected => REL_STRONGLY_CONNECTED,
        }
    }

    /// Whether the relation is fed from outside.
    pub fn is_input(&self) -> (b: bool)
        ensures
            b == (*self is Edge),
    {
        match self {
            Relations::Edge => true,
            _ => false,
        }
    }

    /// Whether the relation's changes are reported to observers.
    pub fn is_output(&self) -> (b: bool)
        ensures
            b == (*self is StronglyConnected),
    {
        match self {
            Relations::StronglyConnected => true,
            _ => false,
        }
    }

    /// The relation with the given id, if any.
    pub fn try_from_relid(rid: usize) -> (r: Option<Relations>)
        ensures
            rid == REL_CONNECTED ==> r == Some(Relations::Connected),
            rid == REL_EDGE ==> r == Some(Relations::Edge),
            rid == REL_STRONGLY_CONNECTED ==> r == Some(Relations::StronglyConnected),
            rid > REL_STRONGLY_CONNECTED ==> r is None,
    {
        if rid == REL_CONNECTED {
            Some(Relations::Connected)
        } else if rid == REL_EDGE {
            Some(Relations::Edge)
        } else if rid == REL_STRONGLY_CONNECTED {
            Some(Relations::StronglyConnected)
        } else {
            None
        }
    }
}

fn field(idx: usize) -> (e: Expr)
    ensures
        e == Expr::Proj(Box::new(Expr::Var), idx),
{
    Expr::Proj(Box::new(Expr::Var), idx)
}

/// The shape both input rows and derived rows of this program share:
/// a pair of integers.
fn pair_shape() -> Shape {
    let mut fs: Vec<Shape> = Vec::new();
    fs.push(Shape::Int);
    fs.push(Shape::Int);
    Shape::Tup(fs)
}

/// The resolved relation/rule/arrangement graph of the workload.
///
/// `rounds` bounds the fixpoint iteration of the recursive closure; any
/// value at least the longest path length plus two suffices.
pub fn scc_program(rounds: u64) -> (prog: Program)
    ensures
        prog.rounds == rounds,
        prog.rels@.len() == 3,
        prog.rels@[REL_CONNECTED as int].input == false,
        prog.rels@[REL_CONNECTED as int].distinct == true,
        prog.rels@[REL_EDGE as int].input == true,
        prog.rels@[REL_STRONGLY_CONNECTED as int].input == false,
        prog.rels@[REL_STRONGLY_CONNECTED as int].distinct == true,
        prog.rels@[REL_STRONGLY_CONNECTED as int].track == true,
        rounds >= 1 ==> crate::program::prog_wf(prog),
{
    // Connected(src, dest) :- Edge(src, dest).
    let copy_edges = Rule {
        source: Source::Rel(REL_EDGE),
        stages: {
            let mut sts: Vec<Stage> = Vec::new();
            sts.push(Stage::FilterMap { out: Expr::Var });
            sts
        },
    };
    // Connected(src, dest) :- Edge(src, mid), Connected(mid, dest):
    // edges arranged by head meet paths arranged by tail.
    let extend_paths = Rule {
        source: Source::Arr(REL_EDGE, 0),
        stages: {
            let mut sts: Vec<Stage> = Vec::new();
            let mut out_fields: Vec<Expr> = Vec::new();
            out_fields.push(Expr::Proj(Box::new(field(1)), 0));
            out_fields.push(Expr::Proj(Box::new(field(2)), 1));
            sts.push(
                Stage::Join { rel: REL_CONNECTED, arr: 0, out: Expr::MkTup(out_fields) },
            );
            sts
        },
    };
    let connected = RelationDecl {
        name: String::from_str("Connected"),
        input: false,
        distinct: true,
        track: false,
        shape: pair_shape(),
        arrangements: {
            let mut arrs: Vec<ArrangementDecl> = Vec::new();
            // paths by source, for the closure join
            arrs.push(
                ArrangementDecl {
                    kind: ArrKind::Keyed { key: field(0), val: Expr::Var },
                    queryable: false,
                },
            );
            // paths by (dest, src), the reversal key
            let mut rev: Vec<Expr> = Vec::new();
            rev.push(field(1));
            rev.push(field(0));
            arrs.push(
                ArrangementDecl {
                    kind: ArrKind::Keyed { key: Expr::MkTup(rev), val: Expr::Var },
                    queryable: false,
                },
            );
            // path presence, for the semijoin
            arrs.push(
                ArrangementDecl { kind: ArrKind::Members { key: Expr::Var }, queryable: false },
            );
            arrs
        },
        rules: {
            let mut rls: Vec<Rule> = Vec::new();
            rls.push(copy_edges);
            rls.push(extend_paths);
            rls
        },
    };
    let edge = RelationDecl {
        name: String::from_str("Edge"),
        input: true,
        distinct: false,
        track: false,
        shape: pair_shape(),
        arrangements: {
            let mut arrs: Vec<ArrangementDecl> = Vec::new();
            // edges by destination, feeding the closure join
            arrs.push(
                ArrangementDecl {
                    kind: ArrKind::Keyed { key: field(1), val: Expr::Var },
                    queryable: false,
                },
            );
            arrs
        },
        rules: Vec::new(),
    };
    // StronglyConnected(node, regime) :- Connected(node, dest),
    //     Connected(dest, node), regime = min dest grouped by node.
    let label_cycles = Rule {
        source: Source::Arr(REL_CONNECTED, 1),
        stages: {
            let mut sts: Vec<Stage> = Vec::new();
            // keep paths whose reversal is also a path; pass the path on
            sts.push(Stage::Semijoin { rel: REL_CONNECTED, arr: 2, out: field(1) });
            // group the surviving paths by their source node
            sts.push(Stage::Arrange { key: field(0), val: Expr::Var });
            // the least (node, dest) pair of a group has the least dest
            sts.push(Stage::Aggregate { agg: Reducer::Min });
            // (node, (node, least dest)) becomes (node, regime)
            let mut out_fields: Vec<Expr> = Vec::new();
            out_fields.push(field(0));
            out_fields.push(Expr::Proj(Box::new(field(1)), 1));
            sts.push(Stage::FilterMap { out: Expr::MkTup(out_fields) });
            sts
        },
    };
    let strongly_connected = RelationDecl {
        name: String::from_str("StronglyConnected"),
        input: false,
        distinct: true,
        track: true,
        shape: pair_shape(),
        arrangements: Vec::new(),
        rules: {
            let mut rls: Vec<Rule> = Vec::new();
            rls.push(label_cycles);
            rls
        },
    };
    let mut rels: Vec<RelationDecl> = Vec::new();
    rels.push(connected);
    rels.push(edge);
    rels.push(strongly_connected);
    let mut nodes: Vec<Node> = Vec::new();
    let mut cycle: Vec<usize> = Vec::new();
    cycle.push(REL_CONNECTED);
    nodes.push(Node::Cycle(cycle));
    nodes.push(Node::Rel(REL_STRONGLY_CONNECTED));
    let prog = Program { rels, nodes, rounds };
    proof {
        if rounds >= 1 {
            lemma_scc_program_wf(prog);
        }
    }
    prog
}

/// The workload description passes every well-formedness rule, so
/// building it can only fail on a zero round budget.
proof fn lemma_scc_program_wf(prog: Program)
    requires
        prog.rounds >= 1,
        prog.rels@.len() == 3,
        prog.nodes@.len() == 2,
        prog.nodes@[0] matches Node::Cycle(ms) && ms@ =~= seq![REL_CONNECTED],
        prog.nodes@[1] == Node::Rel(REL_STRONGLY_CONNECTED),
        !prog.rels@[0].input,
        prog.rels@[1].input,
        !prog.rels@[2].input,
        prog.rels@[0].arrangements@.len() == 3,
        prog.rels@[0].arrangements@[0].kind is Keyed,
        prog.rels@[0].arrangements@[1].kind is Keyed,
        prog.rels@[0].arrangements@[2].kind is Members,
        prog.rels@[1].arrangements@.len() == 1,
        prog.rels@[1].arrangements@[0].kind is Keyed,
        prog.rels@[0].rules@.len() == 2,
        prog.rels@[0].rules@[0].source == Source::Rel(REL_EDGE),
        prog.rels@[0].rules@[0].stages@.len() == 1,
        prog.rels@[0].rules@[0].stages@[0] matches Stage::FilterMap { .. },
        prog.rels@[0].rules@[1].source == Source::Arr(REL_EDGE, 0),
        prog.rels@[0].rules@[1].stages@.len() == 1,
        prog.rels@[0].rules@[1].stages@[0] matches Stage::Join { rel: 0, arr: 0, .. },
        prog.rels@[1].rules@.len() == 0,
        prog.rels@[2].rules@.len() == 1,
        prog.rels@[2].rules@[0].source == Source::Arr(REL_CONNECTED, 1),
        prog.rels@[2].rules@[0].stages@.len() == 4,
        prog.rels@[2].rules@[0].stages@[0] matches Stage::Semijoin { rel: 0, arr: 2, .. },
        prog.rels@[2].rules@[0].stages@[1] matches Stage::Arrange { .. },
        prog.rels@[2].rules@[0].stages@[2] matches Stage::Aggregate { .. },
        prog.rels@[2].rules@[0].stages@[3] matches Stage::FilterMap { .. },
    ensures
        crate::program::prog_wf(prog),
{
    let nodes = prog.nodes@;
    let ms = prog.nodes@[0]->Cycle_0@;
    reveal_with_fuel(find_node, 4);
    // which node owns each relation
    assert(nodes.subrange(1, 2) =~= seq![nodes[1]]);
    assert(nodes.subrange(1, 2).subrange(1, 1) =~= Seq::<Node>::empty());
    assert(node_defines(nodes[0], 0)) by {
        assert(ms[0] == REL_CONNECTED);
    }
    assert(find_node(nodes, 0) == Some(0int));
    assert(!node_defines(nodes[0], 1)) by {
        assert forall|j: int| 0 <= j < ms.len() implies ms[j] as int != 1 by {
            assert(ms[j] == REL_CONNECTED);
        }
    }
    assert(!node_defines(nodes[1], 1));
    assert(find_node(nodes, 1) is None);
    assert(!node_defines(nodes[0], 2)) by {
        assert forall|j: int| 0 <= j < ms.len() implies ms[j] as int != 2 by {
            assert(ms[j] == REL_CONNECTED);
        }
    }
    assert(node_defines(nodes[1], 2));
    assert(find_node(nodes, 2) == Some(1int));
    // every rule is well-placed
    reveal_with_fuel(stages_wf, 6);
    assert(rel_available(prog, 0, 0));
    assert(rel_available(prog, 1, 0));
    assert(rel_available(prog, 0, 1));
    let r0 = prog.rels@[0].rules@[0];
    assert(rule_wf(prog, r0, 0)) by {
        assert(r0.stages@.subrange(1, 1) =~= Seq::<Stage>::empty());
        assert(stage_wf(prog, r0.stages@[0], 0, false));
    }
    let r1 = prog.rels@[0].rules@[1];
    assert(rule_wf(prog, r1, 0)) by {
        assert(r1.stages@.subrange(1, 1) =~= Seq::<Stage>::empty());
        assert(arr_wf(prog, 1, 0, true));
        assert(arr_wf(prog, 0, 0, true));
        assert(stage_wf(prog, r1.stages@[0], 0, true));
    }
    let r2 = prog.rels@[2].rules@[0];
    assert(rule_wf(prog, r2, 1)) by {
        let sts = r2.stages@;
        assert(sts.subrange(1, 4).subrange(1, 3) =~= sts.subrange(2, 4));
        assert(sts.subrange(2, 4).subrange(1, 2) =~= sts.subrange(3, 4));
        assert(sts.subrange(3, 4).subrange(1, 1) =~= Seq::<Stage>::empty());
        assert(sts.subrange(1, 4)[0] == sts[1]);
        assert(sts.subrange(2, 4)[0] == sts[2]);
        assert(sts.subrange(3, 4)[0] == sts[3]);
        assert(arr_wf(prog, 0, 1, true));
        assert(arr_wf(prog, 0, 2, false));
        assert(stage_wf(prog, sts[0], 1, true));
        assert(stage_wf(prog, sts[1], 1, false));
        assert(stage_wf(prog, sts[2], 1, true));
        assert(stage_wf(prog, sts[3], 1, true));
        assert(stages_wf(prog, sts.subrange(1, 4), 1, false));
    }
    // the nodes own exactly the derived relations
    assert(node_wf(prog, nodes[0], 0)) by {
        assert(distinct_ids(ms));
        assert forall|j: int| 0 <= j < ms.len() implies (ms[j] as int) < nrels(prog)
            && !prog.rels@[ms[j] as int].input && find_node(nodes, ms[j] as int) == Some(
            0int,
        ) by {
            assert(ms[j] == REL_CONNECTED);
        }
    }
    assert(node_wf(prog, nodes[1], 1));
    assert forall|r: int|
        0 <= r < nrels(prog) && (#[trigger] prog.rels@[r]).input implies prog.rels@[
        r
    ].rules@.len() == 0 && find_node(nodes, r) is None by {
        assert(r == 1);
    }
    assert forall|r: int|
        0 <= r < nrels(prog) && !(#[trigger] prog.rels@[r]).input implies find_node(
        nodes,
        r,
    ) is Some by {
        assert(r == 0 || r == 2);
    }
    assert forall|k: int| 0 <= k < nodes.len() implies node_wf(
        prog,
        #[trigger] nodes[k],
        k,
    ) by {
        assert(k == 0 || k == 1);
    }
    assert forall|r: int, j: int|
        0 <= r < nrels(prog) && 0 <= j < prog.rels@[r].rules@.len() implies (match find_node(
        nodes,
        r,
    ) {
        Some(k) => rule_wf(prog, #[trigger] prog.rels@[r].rules@[j], k),
        None => true,
    }) by {
        if r == 0 {
            assert(j == 0 || j == 1);
        } else if r == 2 {
            assert(j == 0);
        }
    }
}

} // verus!
