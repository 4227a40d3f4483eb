//! The program: relations, rules, strata and the transaction cycle.
//!
//! A program declares its relations (inputs fed from outside, derived
//! relations owned by rules), their arrangements, and a node list — the
//! stratification: a plain node computes its relation once, a cycle node
//! iterates its mutually recursive relations to a fixpoint, within a
//! configured round budget.  A transaction folds an update batch into the
//! input relations, re-derives every relation node by node, and reports
//! the net change of each observed relation.  The whole evaluation is a
//! function of the program and the input contents alone, so re-running it
//! on unchanged inputs reproduces the same state.

use vstd::prelude::*;

use crate::bag::{Bag, add_fits, bag_add, bag_from, bag_wf, from_fits, coerce_distinct, rows_of,
    raw_rows_of, rows_bounded, bag_absorb, bag_clone, bag_coerce};
use crate::delta::{Delta, DeltaMap, bag_diff, delta_between};
use crate::expr::Expr;
use crate::rules::{ArrKind, ArrangementDecl, Reducer, Rule, Source, Stage, agg_fits, agg_rows,
    arr_stream, arrange_stream, fmap_stream, join_stream, semijoin_stream, arr_exec, arrange_exec,
    fmap_exec, join_exec, semijoin_exec, agg_exec};
use crate::value::{Shape, Val, Value, shape_check, shape_matches, value_clone};

verus! {

/// A relation of the program.
pub struct RelationDecl {
    /// Human-readable name.
    pub name: String,
    /// Fed from outside; no rules produce it.
    pub input: bool,
    /// Output kept at set semantics: weights coerced to one.
    pub distinct: bool,
    /// An observer watches this relation: its change is reported.
    pub track: bool,
    /// Declared shape of its values.
    pub shape: Shape,
    /// Indexes over its content.
    pub arrangements: Vec<ArrangementDecl>,
    /// Rules producing this relation.
    pub rules: Vec<Rule>,
}

/// One evaluation node, in dependency order.
pub enum Node {
    /// A relation computed once per transaction.
    Rel(usize),
    /// Mutually recursive relations iterated together to a fixpoint.
    Cycle(Vec<usize>),
}

/// A resolved relation/rule/arrangement graph.
pub struct Program {
    pub rels: Vec<RelationDecl>,
    pub nodes: Vec<Node>,
    /// Fixpoint round budget per cycle node.
    pub rounds: u64,
}

/// Why a transaction was rejected; the store is unchanged in every case.
pub enum EngineError {
    /// An update names a relation id that is not a declared input relation.
    UnknownRelation,
    /// An update's value does not have the relation's declared shape.
    SchemaMismatch,
    /// A net weight left the stored range, or a cycle node did not reach a
    /// fixpoint within the round budget.
    ResourceLimit,
}

/// Why a program description was rejected at build time.
pub enum GraphError {
    /// A rule or node references an undeclared relation or arrangement,
    /// stages are mis-chained, a node is out of dependency order, or the
    /// round budget is zero.
    MalformedGraph,
}

/// The atomic unit of change: one value added to or removed from one
/// input relation.
pub enum Update {
    Insert { relid: usize, v: Value },
    DeleteValue { relid: usize, v: Value },
}

pub open spec fn upd_relid(u: Update) -> int {
    match u {
        Update::Insert { relid, .. } => relid as int,
        Update::DeleteValue { relid, .. } => relid as int,
    }
}

pub open spec fn upd_val(u: Update) -> Val {
    match u {
        Update::Insert { v, .. } => v@,
        Update::DeleteValue { v, .. } => v@,
    }
}

pub open spec fn upd_weight(u: Update) -> int {
    match u {
        Update::Insert { .. } => 1,
        Update::DeleteValue { .. } => -1,
    }
}

pub open spec fn nrels(prog: Program) -> int {
    prog.rels@.len() as int
}

/// The models of a stored contents vector, one row sequence per relation.
pub open spec fn views_of(s: Seq<Bag>) -> Seq<Seq<(Val, int)>> {
    Seq::new(s.len(), |i: int| s[i]@)
}

/// The update names a declared input relation.
pub open spec fn update_known(prog: Program, u: Update) -> bool {
    0 <= upd_relid(u) < nrels(prog) && prog.rels@[upd_relid(u)].input
}

/// The update names a declared input relation and its value has the
/// relation's shape.
pub open spec fn update_valid(prog: Program, u: Update) -> bool {
    update_known(prog, u) && shape_matches(prog.rels@[upd_relid(u)].shape, upd_val(u))
}

/// The first update a validation pass rejects.
pub open spec fn first_invalid(prog: Program, ups: Seq<Update>) -> Option<Update>
    decreases ups.len(),
{
    if ups.len() == 0 {
        None
    } else if !update_valid(prog, ups[0]) {
        Some(ups[0])
    } else {
        first_invalid(prog, ups.subrange(1, ups.len() as int))
    }
}

pub open spec fn updates_valid(prog: Program, ups: Seq<Update>) -> bool {
    first_invalid(prog, ups) is None
}

/// Fold an update batch into the contents, in order; `None` when a net
/// weight leaves the stored range.
pub open spec fn upd_fold(c: Seq<Seq<(Val, int)>>, ups: Seq<Update>) -> Option<
    Seq<Seq<(Val, int)>>,
>
    decreases ups.len(),
{
    if ups.len() == 0 {
        Some(c)
    } else {
        let r = upd_relid(ups[0]);
        let v = upd_val(ups[0]);
        let w = upd_weight(ups[0]);
        if 0 <= r < c.len() && add_fits(c[r], v, w) {
            upd_fold(c.update(r, bag_add(c[r], v, w)), ups.subrange(1, ups.len() as int))
        } else {
            None
        }
    }
}

/// The keyed stream of arrangement `arr` of relation `rel` (empty when
/// the indices are out of range).
pub open spec fn arr_lookup(prog: Program, c: Seq<Seq<(Val, int)>>, rel: int, arr: int) -> Seq<
    (Val, int),
> {
    if 0 <= rel < c.len() && rel < nrels(prog) && 0 <= arr
        < prog.rels@[rel].arrangements@.len() {
        arr_stream(prog.rels@[rel].arrangements@[arr].kind, c[rel])
    } else {
        Seq::empty()
    }
}

/// The stream a rule source yields.
pub open spec fn source_stream(prog: Program, c: Seq<Seq<(Val, int)>>, src: Source) -> Seq<
    (Val, int),
> {
    match src {
        Source::Rel(r) => if 0 <= r < c.len() {
            c[r as int]
        } else {
            Seq::empty()
        },
        Source::Arr(r, a) => arr_lookup(prog, c, r as int, a as int),
    }
}

/// Fold a transient stream into a fresh canonical sequence; `None` when a
/// net weight leaves the stored range.
pub open spec fn consolidate(raw: Seq<(Val, int)>) -> Option<Seq<(Val, int)>> {
    if from_fits(Seq::empty(), raw) {
        Some(bag_from(Seq::empty(), raw))
    } else {
        None
    }
}

/// One stage applied to a consolidated stream.
pub open spec fn stage_sem(prog: Program, c: Seq<Seq<(Val, int)>>, st: Stage, cur: Seq<
    (Val, int),
>) -> Option<Seq<(Val, int)>> {
    match st {
        Stage::FilterMap { out } => consolidate(fmap_stream(out, cur)),
        Stage::Arrange { key, val } => consolidate(arrange_stream(key, val, cur)),
        Stage::Join { rel, arr, out } => consolidate(
            join_stream(cur, arr_lookup(prog, c, rel as int, arr as int), out),
        ),
        Stage::Semijoin { rel, arr, out } => consolidate(
            semijoin_stream(cur, arr_lookup(prog, c, rel as int, arr as int), out),
        ),
        Stage::Aggregate { agg } => if agg_fits(agg, cur) {
            consolidate(agg_rows(agg, cur))
        } else {
            None
        },
    }
}

pub open spec fn stages_sem(prog: Program, c: Seq<Seq<(Val, int)>>, stages: Seq<Stage>, cur: Seq<
    (Val, int),
>) -> Option<Seq<(Val, int)>>
    decreases stages.len(),
{
    if stages.len() == 0 {
        Some(cur)
    } else {
        match stage_sem(prog, c, stages[0], cur) {
            None => None,
            Some(nxt) => stages_sem(prog, c, stages.subrange(1, stages.len() as int), nxt),
        }
    }
}

/// A whole rule: its source stream pushed through its stages.
pub open spec fn rule_sem(prog: Program, c: Seq<Seq<(Val, int)>>, rl: Rule) -> Option<
    Seq<(Val, int)>,
> {
    match rl.source {
        Source::Rel(_) => stages_sem(prog, c, rl.stages@, source_stream(prog, c, rl.source)),
        Source::Arr(_, _) => match consolidate(source_stream(prog, c, rl.source)) {
            None => None,
            Some(cur) => stages_sem(prog, c, rl.stages@, cur),
        },
    }
}

/// Union of the outputs of a relation's rules, folded in order.
pub open spec fn rules_fold(prog: Program, c: Seq<Seq<(Val, int)>>, rls: Seq<Rule>, acc: Seq<
    (Val, int),
>) -> Option<Seq<(Val, int)>>
    decreases rls.len(),
{
    if rls.len() == 0 {
        Some(acc)
    } else {
        match rule_sem(prog, c, rls[0]) {
            None => None,
            Some(rb) => if from_fits(acc, rb) {
                rules_fold(prog, c, rls.subrange(1, rls.len() as int), bag_from(acc, rb))
            } else {
                None
            },
        }
    }
}

/// The content a derived relation takes from the current state.
pub open spec fn relation_state(prog: Program, c: Seq<Seq<(Val, int)>>, r: int) -> Option<
    Seq<(Val, int)>,
> {
    if 0 <= r < nrels(prog) {
        match rules_fold(prog, c, prog.rels@[r].rules@, Seq::empty()) {
            None => None,
            Some(u) => Some(
                if prog.rels@[r].distinct {
                    coerce_distinct(u)
                } else {
                    u
                },
            ),
        }
    } else {
        None
    }
}

/// New contents for every member of a cycle node, all computed from the
/// same current state.
pub open spec fn members_states(prog: Program, c: Seq<Seq<(Val, int)>>, ms: Seq<usize>) -> Option<
    Seq<Seq<(Val, int)>>,
>
    decreases ms.len(),
{
    if ms.len() == 0 {
        Some(Seq::empty())
    } else {
        match relation_state(prog, c, ms[0] as int) {
            None => None,
            Some(b) => match members_states(prog, c, ms.subrange(1, ms.len() as int)) {
                None => None,
                Some(rest) => Some(seq![b] + rest),
            },
        }
    }
}

pub open spec fn write_members(c: Seq<Seq<(Val, int)>>, ms: Seq<usize>, states: Seq<
    Seq<(Val, int)>,
>) -> Seq<Seq<(Val, int)>>
    decreases ms.len(),
{
    if ms.len() == 0 || states.len() == 0 {
        c
    } else {
        write_members(
            c.update(ms[0] as int, states[0]),
            ms.subrange(1, ms.len() as int),
            states.subrange(1, states.len() as int),
        )
    }
}

/// One round of a cycle node.
pub open spec fn node_step(prog: Program, c: Seq<Seq<(Val, int)>>, ms: Seq<usize>) -> Option<
    Seq<Seq<(Val, int)>>,
> {
    match members_states(prog, c, ms) {
        None => None,
        Some(sts) => Some(write_members(c, ms, sts)),
    }
}

/// Iterate a cycle node until a round changes nothing; `None` when the
/// budget runs out first or a round fails.
pub open spec fn node_eval(prog: Program, c: Seq<Seq<(Val, int)>>, ms: Seq<usize>, n: nat) -> Option<
    Seq<Seq<(Val, int)>>,
>
    decreases n,
{
    if n == 0 {
        None
    } else {
        match node_step(prog, c, ms) {
            None => None,
            Some(c2) => if c2 == c {
                Some(c)
            } else {
                node_eval(prog, c2, ms, (n - 1) as nat)
            },
        }
    }
}

pub open spec fn nodes_eval(prog: Program, c: Seq<Seq<(Val, int)>>, nodes: Seq<Node>) -> Option<
    Seq<Seq<(Val, int)>>,
>
    decreases nodes.len(),
{
    if nodes.len() == 0 {
        Some(c)
    } else {
        let stepped = match nodes[0] {
            Node::Rel(r) => match relation_state(prog, c, r as int) {
                None => None,
                Some(b) => Some(c.update(r as int, b)),
            },
            Node::Cycle(ms) => node_eval(prog, c, ms@, prog.rounds as nat),
        };
        match stepped {
            None => None,
            Some(c2) => nodes_eval(prog, c2, nodes.subrange(1, nodes.len() as int)),
        }
    }
}

/// The contents with every derived relation reset to empty.
pub open spec fn reset_derived(prog: Program, c: Seq<Seq<(Val, int)>>) -> Seq<Seq<(Val, int)>> {
    Seq::new(
        c.len(),
        |i: int|
            if i < nrels(prog) && prog.rels@[i].input {
                c[i]
            } else {
                Seq::empty()
            },
    )
}

/// Re-derive every relation from the input contents, node by node.
pub open spec fn rederive(prog: Program, c: Seq<Seq<(Val, int)>>) -> Option<Seq<Seq<(Val, int)>>> {
    nodes_eval(prog, reset_derived(prog, c), prog.nodes@)
}

/// The report: each observed relation that changed, in ascending id
/// order, with its signed difference.
pub open spec fn deltas_from(
    obs: Seq<bool>,
    oldc: Seq<Seq<(Val, int)>>,
    newc: Seq<Seq<(Val, int)>>,
    r: int,
) -> Seq<(int, Seq<(Val, int)>)>
    decreases obs.len() - r,
{
    if r < 0 || r >= obs.len() || r >= oldc.len() || r >= newc.len() {
        Seq::empty()
    } else {
        let rest = deltas_from(obs, oldc, newc, r + 1);
        if obs[r] && bag_diff(newc[r], oldc[r]).len() != 0 {
            seq![(r, bag_diff(newc[r], oldc[r]))] + rest
        } else {
            rest
        }
    }
}

/// A whole transaction: fold the updates into the inputs, re-derive, and
/// report the change of the observed relations against the
/// pre-transaction state.  `None` when a resource bound is hit; update
/// validity is judged separately.
pub open spec fn txn_eval(
    prog: Program,
    obs: Seq<bool>,
    c: Seq<Seq<(Val, int)>>,
    ups: Seq<Update>,
) -> Option<(Seq<Seq<(Val, int)>>, Seq<(int, Seq<(Val, int)>)>)> {
    match upd_fold(c, ups) {
        None => None,
        Some(c1) => match rederive(prog, c1) {
            None => None,
            Some(c2) => Some((c2, deltas_from(obs, c, c2, 0))),
        },
    }
}

/// Whether a node owns relation `r`.
pub open spec fn node_defines(nd: Node, r: int) -> bool {
    match nd {
        Node::Rel(x) => x as int == r,
        Node::Cycle(ms) => exists|j: int| 0 <= j < ms@.len() && ms@[j] as int == r,
    }
}

/// The index of the node owning relation `r`, if any.
pub open spec fn find_node(nodes: Seq<Node>, r: int) -> Option<int>
    decreases nodes.len(),
{
    if nodes.len() == 0 {
        None
    } else if node_defines(nodes[0], r) {
        Some(0int)
    } else {
        match find_node(nodes.subrange(1, nodes.len() as int), r) {
            Some(k) => Some(k + 1),
            None => None,
        }
    }
}

/// Relation `s` may be read by rules evaluated in node `k`: it is an
/// input, or it is owned by node `k` or an earlier one.
pub open spec fn rel_available(prog: Program, s: int, k: int) -> bool {
    0 <= s < nrels(prog) && (prog.rels@[s].input || (match find_node(prog.nodes@, s) {
        Some(j) => j <= k,
        None => false,
    }))
}

/// Arrangement `a` of relation `r` exists and has the expected kind
/// (`keyed` selects a map arrangement, otherwise a set arrangement).
pub open spec fn arr_wf(prog: Program, r: int, a: int, keyed: bool) -> bool {
    &&& 0 <= r < nrels(prog)
    &&& 0 <= a < prog.rels@[r].arrangements@.len()
    &&& keyed == prog.rels@[r].arrangements@[a].kind is Keyed
}

/// Whether a stage leaves the stream keyed.
pub open spec fn stage_keyed_after(st: Stage) -> bool {
    match st {
        Stage::Arrange { .. } => true,
        Stage::Aggregate { .. } => true,
        _ => false,
    }
}

/// A stage is well-placed in node `k` with the given stream keyedness.
pub open spec fn stage_wf(prog: Program, st: Stage, k: int, keyed: bool) -> bool {
    match st {
        Stage::FilterMap { .. } => true,
        Stage::Arrange { .. } => true,
        Stage::Join { rel, arr, .. } => keyed && arr_wf(prog, rel as int, arr as int, true)
            && rel_available(prog, rel as int, k),
        Stage::Semijoin { rel, arr, .. } => keyed && arr_wf(prog, rel as int, arr as int, false)
            && rel_available(prog, rel as int, k),
        Stage::Aggregate { .. } => keyed,
    }
}

pub open spec fn stages_wf(prog: Program, sts: Seq<Stage>, k: int, keyed: bool) -> bool
    decreases sts.len(),
{
    if sts.len() == 0 {
        true
    } else {
        stage_wf(prog, sts[0], k, keyed) && stages_wf(
            prog,
            sts.subrange(1, sts.len() as int),
            k,
            stage_keyed_after(sts[0]),
        )
    }
}

/// A rule evaluated in node `k` reads only available relations, with
/// correctly chained stages.
pub open spec fn rule_wf(prog: Program, rl: Rule, k: int) -> bool {
    match rl.source {
        Source::Rel(r) => rel_available(prog, r as int, k) && stages_wf(prog, rl.stages@, k, false),
        Source::Arr(r, a) => rel_available(prog, r as int, k) && arr_wf(
            prog,
            r as int,
            a as int,
            true,
        ) && stages_wf(prog, rl.stages@, k, true),
    }
}

pub open spec fn distinct_ids(ms: Seq<usize>) -> bool {
    forall|i: int, j: int| 0 <= i < j < ms.len() ==> ms[i] != ms[j]
}

/// The node at index `k` owns only derived relations, each of which finds
/// this node as its owner.
pub open spec fn node_wf(prog: Program, nd: Node, k: int) -> bool {
    match nd {
        Node::Rel(r) => (r as int) < nrels(prog) && !prog.rels@[r as int].input && find_node(
            prog.nodes@,
            r as int,
        ) == Some(k),
        Node::Cycle(ms) => ms@.len() > 0 && distinct_ids(ms@) && forall|j: int|
            0 <= j < ms@.len() ==> (ms@[j] as int) < nrels(prog) && !prog.rels@[
                ms@[j] as int
            ].input && find_node(prog.nodes@, ms@[j] as int) == Some(k),
    }
}

/// The program description is well-formed.
pub open spec fn prog_wf(prog: Program) -> bool {
    &&& prog.rounds >= 1
    &&& forall|r: int|
        0 <= r < nrels(prog) && (#[trigger] prog.rels@[r]).input ==> prog.rels@[r].rules@.len()
            == 0 && find_node(prog.nodes@, r) is None
    &&& forall|r: int|
        0 <= r < nrels(prog) && !(#[trigger] prog.rels@[r]).input ==> find_node(
            prog.nodes@,
            r,
        ) is Some
    &&& forall|k: int| 0 <= k < prog.nodes@.len() ==> node_wf(prog, #[trigger] prog.nodes@[k], k)
    &&& forall|r: int, j: int|
        0 <= r < nrels(prog) && 0 <= j < prog.rels@[r].rules@.len() ==> (match find_node(
            prog.nodes@,
            r,
        ) {
            Some(k) => rule_wf(prog, #[trigger] prog.rels@[r].rules@[j], k),
            None => true,
        })
}

/// A node's members are declared, derived, and pairwise distinct.
pub open spec fn node_members_ok(prog: Program, nd: Node) -> bool {
    match nd {
        Node::Rel(r) => (r as int) < nrels(prog) && !prog.rels@[r as int].input,
        Node::Cycle(ms) => distinct_ids(ms@) && forall|j: int|
            0 <= j < ms@.len() ==> (ms@[j] as int) < nrels(prog) && !prog.rels@[
                ms@[j] as int
            ].input,
    }
}

pub proof fn lemma_members_states_len(
    prog: Program,
    c: Seq<Seq<(Val, int)>>,
    ms: Seq<usize>,
    sts: Seq<Seq<(Val, int)>>,
)
    requires
        members_states(prog, c, ms) == Some(sts),
    ensures
        sts.len() == ms.len(),
        forall|j: int|
            0 <= j < ms.len() ==> relation_state(prog, c, ms[j] as int) == Some(#[trigger] sts[j]),
    decreases ms.len(),
{
    if ms.len() > 0 {
        let tailm = ms.subrange(1, ms.len() as int);
        let b = relation_state(prog, c, ms[0] as int)->Some_0;
        let rest = members_states(prog, c, tailm)->Some_0;
        lemma_members_states_len(prog, c, tailm, rest);
        assert forall|j: int| 0 <= j < ms.len() implies relation_state(prog, c, ms[j] as int)
            == Some(#[trigger] sts[j]) by {
            if j > 0 {
                assert(sts[j] == rest[j - 1]);
                assert(tailm[j - 1] == ms[j]);
            }
        }
    }
}

/// Writing distinct members changes exactly those members.
pub proof fn lemma_write_members_frame(
    c: Seq<Seq<(Val, int)>>,
    ms: Seq<usize>,
    sts: Seq<Seq<(Val, int)>>,
)
    requires
        distinct_ids(ms),
        sts.len() == ms.len(),
        forall|j: int| 0 <= j < ms.len() ==> (#[trigger] ms[j]) < c.len(),
    ensures
        write_members(c, ms, sts).len() == c.len(),
        forall|j: int|
            0 <= j < ms.len() ==> write_members(c, ms, sts)[#[trigger] ms[j] as int] == sts[j],
        forall|i: int|
            0 <= i < c.len() && (forall|j: int| 0 <= j < ms.len() ==> (#[trigger] ms[j]) as int
                != i) ==> write_members(c, ms, sts)[i] == c[i],
    decreases ms.len(),
{
    if ms.len() > 0 && sts.len() > 0 {
        let c1 = c.update(ms[0] as int, sts[0]);
        let tailm = ms.subrange(1, ms.len() as int);
        let tails = sts.subrange(1, sts.len() as int);
        lemma_write_members_frame(c1, tailm, tails);
        let w = write_members(c, ms, sts);
        assert forall|j: int| 0 <= j < ms.len() implies w[#[trigger] ms[j] as int] == sts[j] by {
            if j == 0 {
                assert forall|t: int| 0 <= t < tailm.len() implies (#[trigger] tailm[t]) as int
                    != ms[0] as int by {
                    assert(tailm[t] == ms[t + 1]);
                }
                assert(w[ms[0] as int] == c1[ms[0] as int]);
            } else {
                assert(tailm[j - 1] == ms[j]);
            }
        }
        assert forall|i: int|
            0 <= i < c.len() && (forall|j: int| 0 <= j < ms.len() ==> (#[trigger] ms[j]) as int
                != i) implies w[i] == c[i] by {
            assert(ms[0] as int != i);
            assert(c1[i] == c[i]);
            assert forall|t: int| 0 <= t < tailm.len() implies (#[trigger] tailm[t]) as int
                != i by {
                assert(tailm[t] == ms[t + 1]);
            }
            assert(w[i] == c1[i]);
        }
    }
}

/// A round that recomputes every member to its current value leaves the
/// contents unchanged.
pub proof fn lemma_write_members_stable(
    c: Seq<Seq<(Val, int)>>,
    ms: Seq<usize>,
    sts: Seq<Seq<(Val, int)>>,
)
    requires
        distinct_ids(ms),
        sts.len() == ms.len(),
        forall|j: int| 0 <= j < ms.len() ==> (#[trigger] ms[j]) < c.len(),
        forall|j: int| 0 <= j < ms.len() ==> sts[j] == c[#[trigger] ms[j] as int],
    ensures
        write_members(c, ms, sts) == c,
{
    lemma_write_members_frame(c, ms, sts);
    let w = write_members(c, ms, sts);
    assert forall|i: int| 0 <= i < c.len() implies w[i] == c[i] by {
        if exists|j: int| 0 <= j < ms.len() && (#[trigger] ms[j]) as int == i {
            let j = choose|j: int| 0 <= j < ms.len() && (#[trigger] ms[j]) as int == i;
            assert(w[ms[j] as int] == sts[j]);
        }
    }
    assert(w =~= c);
}

/// Node evaluation writes only the node's members; in particular it
/// leaves every input relation as it was.
pub proof fn lemma_node_step_frame(
    prog: Program,
    c: Seq<Seq<(Val, int)>>,
    ms: Seq<usize>,
    c2: Seq<Seq<(Val, int)>>,
)
    requires
        node_step(prog, c, ms) == Some(c2),
        distinct_ids(ms),
        forall|j: int| 0 <= j < ms.len() ==> (#[trigger] ms[j]) < c.len(),
    ensures
        c2.len() == c.len(),
        forall|i: int|
            0 <= i < c.len() && (forall|j: int| 0 <= j < ms.len() ==> (#[trigger] ms[j]) as int
                != i) ==> c2[i] == c[i],
{
    let sts = members_states(prog, c, ms)->Some_0;
    lemma_members_states_len(prog, c, ms, sts);
    lemma_write_members_frame(c, ms, sts);
}

pub proof fn lemma_node_eval_frame(
    prog: Program,
    c: Seq<Seq<(Val, int)>>,
    ms: Seq<usize>,
    n: nat,
    c2: Seq<Seq<(Val, int)>>,
)
    requires
        node_eval(prog, c, ms, n) == Some(c2),
        distinct_ids(ms),
        forall|j: int| 0 <= j < ms.len() ==> (#[trigger] ms[j]) < c.len(),
    ensures
        c2.len() == c.len(),
        forall|i: int|
            0 <= i < c.len() && (forall|j: int| 0 <= j < ms.len() ==> (#[trigger] ms[j]) as int
                != i) ==> c2[i] == c[i],
    decreases n,
{
    let cs = node_step(prog, c, ms)->Some_0;
    lemma_node_step_frame(prog, c, ms, cs);
    if cs == c {
    } else {
        lemma_node_eval_frame(prog, cs, ms, (n - 1) as nat, c2);
    }
}

/// Evaluating the node list never touches an input relation.
pub proof fn lemma_nodes_eval_inputs(
    prog: Program,
    c: Seq<Seq<(Val, int)>>,
    nodes: Seq<Node>,
    c2: Seq<Seq<(Val, int)>>,
)
    requires
        nodes_eval(prog, c, nodes) == Some(c2),
        nrels(prog) <= c.len(),
        forall|k: int| 0 <= k < nodes.len() ==> node_members_ok(prog, #[trigger] nodes[k]),
    ensures
        c2.len() == c.len(),
        forall|i: int| 0 <= i < nrels(prog) && (#[trigger] prog.rels@[i]).input ==> c2[i] == c[i],
    decreases nodes.len(),
{
    if nodes.len() > 0 {
        assert(node_members_ok(prog, nodes[0]));
        let stepped = match nodes[0] {
            Node::Rel(r) => match relation_state(prog, c, r as int) {
                None => None,
                Some(b) => Some(c.update(r as int, b)),
            },
            Node::Cycle(ms) => node_eval(prog, c, ms@, prog.rounds as nat),
        };
        let cm = stepped->Some_0;
        match nodes[0] {
            Node::Rel(r) => {
                assert(cm.len() == c.len());
            },
            Node::Cycle(ms) => {
                lemma_node_eval_frame(prog, c, ms@, prog.rounds as nat, cm);
            },
        }
        let tail = nodes.subrange(1, nodes.len() as int);
        assert forall|k: int| 0 <= k < tail.len() implies node_members_ok(
            prog,
            #[trigger] tail[k],
        ) by {
            assert(tail[k] == nodes[k + 1]);
        }
        lemma_nodes_eval_inputs(prog, cm, tail, c2);
        assert forall|i: int| 0 <= i < nrels(prog) && (#[trigger] prog.rels@[i]).input implies c2[i]
            == c[i] by {
            match nodes[0] {
                Node::Rel(r) => {
                    assert(cm[i] == c[i]);
                },
                Node::Cycle(ms) => {
                    assert forall|j: int| 0 <= j < ms@.len() implies (#[trigger] ms@[j]) as int
                        != i by {
                        assert(!prog.rels@[ms@[j] as int].input);
                    }
                    assert(cm[i] == c[i]);
                },
            }
        }
    }
}

/// Re-deriving an already derived state reproduces it: the evaluation
/// depends on the input relations alone.
pub proof fn lemma_derive_idempotent(
    prog: Program,
    c: Seq<Seq<(Val, int)>>,
    c2: Seq<Seq<(Val, int)>>,
)
    requires
        prog_wf(prog),
        rederive(prog, c) == Some(c2),
        nrels(prog) <= c.len(),
    ensures
        c2.len() == c.len(),
        forall|i: int| 0 <= i < nrels(prog) && (#[trigger] prog.rels@[i]).input ==> c2[i] == c[i],
        rederive(prog, c2) == Some(c2),
{
    assert forall|k: int| 0 <= k < prog.nodes@.len() implies node_members_ok(
        prog,
        #[trigger] prog.nodes@[k],
    ) by {
        assert(node_wf(prog, prog.nodes@[k], k));
    }
    lemma_nodes_eval_inputs(prog, reset_derived(prog, c), prog.nodes@, c2);
    assert forall|i: int| 0 <= i < nrels(prog) && (#[trigger] prog.rels@[i]).input implies c2[i]
        == c[i] by {
        assert(reset_derived(prog, c)[i] == c[i]);
    }
    assert(reset_derived(prog, c2) =~= reset_derived(prog, c));
}

/// Filter-map, semijoin and aggregate streams keep their weights within
/// the transient bound when the input stream is canonical.
proof fn lemma_fmap_bounded(out: Expr, s: Seq<(Val, int)>)
    requires
        forall|i: int| 0 <= i < s.len() ==> crate::bag::i64_fits((#[trigger] s[i]).1),
    ensures
        rows_bounded(fmap_stream(out, s)),
    decreases s.len(),
{
    if s.len() > 0 {
        let rest = fmap_stream(out, s.subrange(1, s.len() as int));
        lemma_fmap_bounded(out, s.subrange(1, s.len() as int));
        let r = fmap_stream(out, s);
        assert forall|i: int| 0 <= i < r.len() implies crate::bag::raw_fits(
            (#[trigger] r[i]).1,
        ) by {
            if crate::expr::eval_expr(out, s[0].0) is Some {
                if i > 0 {
                    assert(r[i] == rest[i - 1]);
                }
            } else {
                assert(r[i] == rest[i]);
            }
        }
    }
}

proof fn lemma_semijoin_bounded(left: Seq<(Val, int)>, rkeys: Seq<(Val, int)>, out: Expr)
    requires
        forall|i: int| 0 <= i < left.len() ==> crate::bag::i64_fits((#[trigger] left[i]).1),
    ensures
        rows_bounded(semijoin_stream(left, rkeys, out)),
    decreases left.len(),
{
    if left.len() > 0 {
        let tail = left.subrange(1, left.len() as int);
        lemma_semijoin_bounded(tail, rkeys, out);
        let rest = semijoin_stream(tail, rkeys, out);
        let r = semijoin_stream(left, rkeys, out);
        assert forall|i: int| 0 <= i < r.len() implies crate::bag::raw_fits(
            (#[trigger] r[i]).1,
        ) by {
            if r.len() == rest.len() + 1 {
                if i > 0 {
                    assert(r[i] == rest[i - 1]);
                }
            } else {
                assert(r =~= rest);
            }
        }
    }
}

proof fn lemma_agg_bounded(agg: Reducer, s: Seq<(Val, int)>)
    ensures
        rows_bounded(agg_rows(agg, s)),
    decreases s.len(),
{
    if s.len() > 0 {
        match crate::rules::key_of(s[0].0) {
            None => {
                lemma_agg_bounded(agg, s.subrange(1, s.len() as int));
            },
            Some(k) => {
                crate::rules::lemma_drop_group_len(s, k);
                let rem = crate::rules::drop_group(s, k);
                lemma_agg_bounded(agg, rem);
                let rest = agg_rows(agg, rem);
                let r = agg_rows(agg, s);
                assert forall|i: int| 0 <= i < r.len() implies crate::bag::raw_fits(
                    (#[trigger] r[i]).1,
                ) by {
                    if r.len() == rest.len() + 1 {
                        if i > 0 {
                            assert(r[i] == rest[i - 1]);
                        }
                    } else {
                        assert(r =~= rest);
                    }
                }
            },
        }
    }
}

/// Widen a stored stream to a transient one.
fn widen_rows(rows: &Vec<(Value, i64)>, i: usize) -> (r: Vec<(Value, i128)>)
    requires
        i <= rows.len(),
    ensures
        raw_rows_of(r@) == rows_of(rows@).subrange(i as int, rows@.len() as int),
        rows_bounded(raw_rows_of(r@)),
    decreases rows.len() - i,
{
    let ghost tail = rows_of(rows@).subrange(i as int, rows@.len() as int);
    if i == rows.len() {
        let r: Vec<(Value, i128)> = Vec::new();
        proof {
            assert(raw_rows_of(r@) =~= tail);
        }
        r
    } else {
        proof {
            assert(tail[0] == (rows@[i as int].0@, rows@[i as int].1 as int));
            assert(tail.subrange(1, tail.len() as int) =~= rows_of(rows@).subrange(
                i + 1,
                rows@.len() as int,
            ));
        }
        let mut rest = widen_rows(rows, i + 1);
        let ghost rest0 = rest@;
        let mut r: Vec<(Value, i128)> = Vec::new();
        r.push((value_clone(&rows[i].0), rows[i].1 as i128));
        r.append(&mut rest);
        proof {
            assert(raw_rows_of(rest0).len() == rest0.len());
            assert forall|t: int| 0 <= t < r@.len() implies raw_rows_of(r@)[t] == tail[t] by {
                if t > 0 {
                    assert(r@[t] == rest0[t - 1]);
                    assert(raw_rows_of(rest0)[t - 1] == (rest0[t - 1].0@, rest0[t - 1].1 as int));
                }
            }
            assert(raw_rows_of(r@) =~= tail);
        }
        r
    }
}

/// Consolidate a bounded transient stream into a fresh bag.
fn consolidate_exec(raw: &Vec<(Value, i128)>) -> (r: Option<Bag>)
    requires
        rows_bounded(raw_rows_of(raw@)),
    ensures
        match r {
            Some(b) => consolidate(raw_rows_of(raw@)) == Some(b@) && b.wf(),
            None => consolidate(raw_rows_of(raw@)) is None,
        },
{
    let empty = Bag::new();
    bag_absorb(&empty, raw)
}

/// All bags of a stored contents vector are canonical.
pub open spec fn contents_wf(s: Seq<Bag>) -> bool {
    forall|i: int| 0 <= i < s.len() ==> (#[trigger] s[i]).wf()
}

/// The keyed stream of one arrangement of the current contents.
fn arr_lookup_exec(prog: &Program, c: &Vec<Bag>, rel: usize, arr: usize) -> (r: Vec<(Value, i64)>)
    ensures
        rows_of(r@) == arr_lookup(*prog, views_of(c@), rel as int, arr as int),
{
    if rel < c.len() && rel < prog.rels.len() && arr < prog.rels[rel].arrangements.len() {
        let r = arr_exec(&prog.rels[rel].arrangements[arr].kind, &c[rel]);
        proof {
            assert(views_of(c@)[rel as int] == c@[rel as int]@);
        }
        r
    } else {
        let r: Vec<(Value, i64)> = Vec::new();
        proof {
            assert(rows_of(r@) =~= Seq::<(Val, int)>::empty());
        }
        r
    }
}

/// One stage applied to the current consolidated stream.
fn stage_exec(prog: &Program, c: &Vec<Bag>, st: &Stage, cur: &Bag) -> (r: Option<Bag>)
    requires
        cur.wf(),
    ensures
        match r {
            Some(b) => stage_sem(*prog, views_of(c@), *st, cur@) == Some(b@) && b.wf(),
            None => stage_sem(*prog, views_of(c@), *st, cur@) is None,
        },
{
    proof {
        assert(rows_of(cur.entries@).subrange(0, cur.entries@.len() as int) =~= cur@);
    }
    match st {
        Stage::FilterMap { out } => {
            let raw = fmap_exec(out, &cur.entries, 0);
            proof {
                lemma_fmap_bounded(*out, cur@);
            }
            consolidate_exec(&raw)
        },
        Stage::Arrange { key, val } => {
            let rows = arrange_exec(key, val, &cur.entries, 0);
            let raw = widen_rows(&rows, 0);
            proof {
                assert(rows_of(rows@).subrange(0, rows@.len() as int) =~= rows_of(rows@));
            }
            consolidate_exec(&raw)
        },
        Stage::Join { rel, arr, out } => {
            let right = arr_lookup_exec(prog, c, *rel, *arr);
            let raw = join_exec(&cur.entries, 0, &right, out);
            consolidate_exec(&raw)
        },
        Stage::Semijoin { rel, arr, out } => {
            let rkeys = arr_lookup_exec(prog, c, *rel, *arr);
            let raw = semijoin_exec(&cur.entries, 0, &rkeys, out);
            proof {
                lemma_semijoin_bounded(cur@, rows_of(rkeys@), *out);
            }
            consolidate_exec(&raw)
        },
        Stage::Aggregate { agg } => {
            match agg_exec(agg, &cur.entries) {
                None => None,
                Some(raw) => {
                    proof {
                        lemma_agg_bounded(*agg, cur@);
                    }
                    consolidate_exec(&raw)
                },
            }
        },
    }
}

/// The remaining stages of a rule, applied in order.
fn stages_exec(prog: &Program, c: &Vec<Bag>, stages: &Vec<Stage>, i: usize, cur: Bag) -> (r:
    Option<Bag>)
    requires
        i <= stages.len(),
        cur.wf(),
    ensures
        match r {
            Some(b) => stages_sem(
                *prog,
                views_of(c@),
                stages@.subrange(i as int, stages@.len() as int),
                cur@,
            ) == Some(b@) && b.wf(),
            None => stages_sem(
                *prog,
                views_of(c@),
                stages@.subrange(i as int, stages@.len() as int),
                cur@,
            ) is None,
        },
    decreases stages.len() - i,
{
    let ghost tail = stages@.subrange(i as int, stages@.len() as int);
    if i == stages.len() {
        Some(cur)
    } else {
        proof {
            assert(tail[0] == stages@[i as int]);
            assert(tail.subrange(1, tail.len() as int) =~= stages@.subrange(
                i + 1,
                stages@.len() as int,
            ));
        }
        match stage_exec(prog, c, &stages[i], &cur) {
            None => None,
            Some(nxt) => stages_exec(prog, c, stages, i + 1, nxt),
        }
    }
}

/// One whole rule evaluated on the current contents.
fn rule_exec(prog: &Program, c: &Vec<Bag>, rl: &Rule) -> (r: Option<Bag>)
    requires
        contents_wf(c@),
    ensures
        match r {
            Some(b) => rule_sem(*prog, views_of(c@), *rl) == Some(b@) && b.wf(),
            None => rule_sem(*prog, views_of(c@), *rl) is None,
        },
{
    match &rl.source {
        Source::Rel(sr) => {
            let cur = if *sr < c.len() {
                proof {
                    assert(views_of(c@)[*sr as int] == c@[*sr as int]@);
                }
                bag_clone(&c[*sr])
            } else {
                Bag::new()
            };
            proof {
                assert(cur.wf());
                assert(rl.stages@.subrange(0, rl.stages@.len() as int) =~= rl.stages@);
            }
            stages_exec(prog, c, &rl.stages, 0, cur)
        },
        Source::Arr(sr, sa) => {
            let rows = arr_lookup_exec(prog, c, *sr, *sa);
            let raw = widen_rows(&rows, 0);
            proof {
                assert(rows_of(rows@).subrange(0, rows@.len() as int) =~= rows_of(rows@));
            }
            proof {
                assert(rl.stages@.subrange(0, rl.stages@.len() as int) =~= rl.stages@);
            }
            match consolidate_exec(&raw) {
                None => None,
                Some(cur) => stages_exec(prog, c, &rl.stages, 0, cur),
            }
        },
    }
}

/// The union of the outputs of a relation's remaining rules.
fn rules_exec(prog: &Program, c: &Vec<Bag>, rls: &Vec<Rule>, j: usize, acc: Bag) -> (r: Option<
    Bag,
>)
    requires
        j <= rls.len(),
        contents_wf(c@),
        acc.wf(),
    ensures
        match r {
            Some(b) => rules_fold(
                *prog,
                views_of(c@),
                rls@.subrange(j as int, rls@.len() as int),
                acc@,
            ) == Some(b@) && b.wf(),
            None => rules_fold(
                *prog,
                views_of(c@),
                rls@.subrange(j as int, rls@.len() as int),
                acc@,
            ) is None,
        },
    decreases rls.len() - j,
{
    let ghost tail = rls@.subrange(j as int, rls@.len() as int);
    if j == rls.len() {
        Some(acc)
    } else {
        proof {
            assert(tail[0] == rls@[j as int]);
            assert(tail.subrange(1, tail.len() as int) =~= rls@.subrange(
                j + 1,
                rls@.len() as int,
            ));
        }
        match rule_exec(prog, c, &rls[j]) {
            None => None,
            Some(rb) => {
                let raw = widen_rows(&rb.entries, 0);
                proof {
                    assert(rows_of(rb.entries@).subrange(0, rb.entries@.len() as int) =~= rb@);
                }
                match bag_absorb(&acc, &raw) {
                    None => None,
                    Some(merged) => rules_exec(prog, c, rls, j + 1, merged),
                }
            },
        }
    }
}

/// The content a derived relation takes from the current contents.
fn relation_exec(prog: &Program, c: &Vec<Bag>, r: usize) -> (res: Option<Bag>)
    requires
        contents_wf(c@),
    ensures
        match res {
            Some(b) => relation_state(*prog, views_of(c@), r as int) == Some(b@) && b.wf(),
            None => relation_state(*prog, views_of(c@), r as int) is None,
        },
{
    if r < prog.rels.len() {
        proof {
            assert(prog.rels@[r as int].rules@.subrange(
                0,
                prog.rels@[r as int].rules@.len() as int,
            ) =~= prog.rels@[r as int].rules@);
        }
        match rules_exec(prog, c, &prog.rels[r].rules, 0, Bag::new()) {
            None => None,
            Some(u) => {
                proof {
                }
                if prog.rels[r].distinct {
                    Some(bag_coerce(&u))
                } else {
                    Some(u)
                }
            },
        }
    } else {
        None
    }
}

/// New states for the members of a cycle node from index `j` on, all
/// computed from the same contents snapshot.
fn members_exec(prog: &Program, c: &Vec<Bag>, ms: &Vec<usize>, j: usize) -> (r: Option<Vec<Bag>>)
    requires
        j <= ms.len(),
        contents_wf(c@),
    ensures
        match r {
            Some(sts) => members_states(
                *prog,
                views_of(c@),
                ms@.subrange(j as int, ms@.len() as int),
            ) == Some(views_of(sts@)) && contents_wf(sts@),
            None => members_states(
                *prog,
                views_of(c@),
                ms@.subrange(j as int, ms@.len() as int),
            ) is None,
        },
    decreases ms.len() - j,
{
    let ghost tail = ms@.subrange(j as int, ms@.len() as int);
    if j == ms.len() {
        let sts: Vec<Bag> = Vec::new();
        proof {
            assert(views_of(sts@) =~= Seq::<Seq<(Val, int)>>::empty());
        }
        Some(sts)
    } else {
        proof {
            assert(tail[0] == ms@[j as int]);
            assert(tail.subrange(1, tail.len() as int) =~= ms@.subrange(
                j + 1,
                ms@.len() as int,
            ));
        }
        match relation_exec(prog, c, ms[j]) {
            None => None,
            Some(b) => {
                match members_exec(prog, c, ms, j + 1) {
                    None => None,
                    Some(mut rest) => {
                        let ghost rest0 = rest@;
                        let ghost bv = b@;
                        let mut out: Vec<Bag> = Vec::new();
                        out.push(b);
                        out.append(&mut rest);
                        proof {
                            assert(views_of(rest0).len() == rest0.len());
                            assert forall|t: int| 0 <= t < out@.len() implies views_of(out@)[t]
                                == (seq![bv] + views_of(rest0))[t] by {
                                if t > 0 {
                                    assert(out@[t] == rest0[t - 1]);
                                    assert(views_of(rest0)[t - 1] == rest0[t - 1]@);
                                }
                            }
                            assert(views_of(out@) =~= seq![bv] + views_of(rest0));
                        }
                        Some(out)
                    },
                }
            },
        }
    }
}

/// Whether every member's recomputed state equals its current content.
fn check_stable(cur: &Vec<Bag>, ms: &Vec<usize>, sts: &Vec<Bag>) -> (r: bool)
    requires
        sts@.len() == ms@.len(),
        forall|j: int| 0 <= j < ms@.len() ==> (#[trigger] ms@[j]) < cur@.len(),
    ensures
        r == (forall|u: int|
            0 <= u < ms@.len() ==> views_of(sts@)[u] == views_of(cur@)[#[trigger] ms@[u] as int]),
{
    let mut t: usize = 0;
    let mut stable = true;
    while t < ms.len()
        invariant
            t <= ms.len(),
            sts@.len() == ms@.len(),
            forall|j: int| 0 <= j < ms@.len() ==> (#[trigger] ms@[j]) < cur@.len(),
            stable == (forall|u: int|
                0 <= u < t ==> views_of(sts@)[u] == views_of(cur@)[#[trigger] ms@[u] as int]),
        decreases ms.len() - t,
    {
        proof {
            assert(views_of(sts@)[t as int] == sts@[t as int]@);
            assert(views_of(cur@)[ms@[t as int] as int] == cur@[ms@[t as int] as int]@);
        }
        if !crate::bag::bag_eq(&sts[t], &cur[ms[t]]) {
            stable = false;
        }
        t = t + 1;
    }
    stable
}

/// Store each member's new state into the contents.
fn write_back(cc: &mut Vec<Bag>, ms: &Vec<usize>, sts: &Vec<Bag>)
    requires
        distinct_ids(ms@),
        sts@.len() == ms@.len(),
        forall|j: int| 0 <= j < ms@.len() ==> (#[trigger] ms@[j]) < old(cc)@.len(),
        contents_wf(old(cc)@),
        contents_wf(sts@),
    ensures
        views_of(final(cc)@) == write_members(views_of(old(cc)@), ms@, views_of(sts@)),
        final(cc)@.len() == old(cc)@.len(),
        contents_wf(final(cc)@),
{
    let ghost curv = views_of(cc@);
    let ghost stsv = views_of(sts@);
    proof {
        lemma_write_members_frame(curv, ms@, stsv);
    }
    let mut t2: usize = 0;
    while t2 < ms.len()
        invariant
            t2 <= ms.len(),
            distinct_ids(ms@),
            sts@.len() == ms@.len(),
            cc@.len() == curv.len(),
            contents_wf(cc@),
            contents_wf(sts@),
            stsv == views_of(sts@),
            forall|j: int| 0 <= j < ms@.len() ==> (#[trigger] ms@[j]) < cc@.len(),
            forall|u: int| 0 <= u < t2 ==> views_of(cc@)[#[trigger] ms@[u] as int] == stsv[u],
            forall|i: int|
                0 <= i < cc@.len() && (forall|j: int|
                    0 <= j < t2 ==> (#[trigger] ms@[j]) as int != i) ==> views_of(cc@)[i]
                    == curv[i],
        decreases ms.len() - t2,
    {
        let b = bag_clone(&sts[t2]);
        proof {
            assert(views_of(sts@)[t2 as int] == sts@[t2 as int]@);
        }
        cc.set(ms[t2], b);
        t2 = t2 + 1;
        proof {
            assert forall|u: int| 0 <= u < t2 implies views_of(cc@)[#[trigger] ms@[u] as int]
                == stsv[u] by {
                if u < t2 - 1 {
                    assert(ms@[u] != ms@[t2 - 1]);
                }
            }
        }
    }
    proof {
        let written = write_members(curv, ms@, stsv);
        assert forall|i: int| 0 <= i < cc@.len() implies views_of(cc@)[i] == written[i] by {
            if exists|j: int| 0 <= j < ms@.len() && (#[trigger] ms@[j]) as int == i {
                let j = choose|j: int| 0 <= j < ms@.len() && (#[trigger] ms@[j]) as int == i;
                assert(views_of(cc@)[ms@[j] as int] == stsv[j]);
                assert(written[ms@[j] as int] == stsv[j]);
            } else {
                assert forall|j: int| 0 <= j < ms@.len() implies (#[trigger] ms@[j]) as int
                    != i by {}
                assert(views_of(cc@)[i] == curv[i]);
                assert(written[i] == curv[i]);
            }
        }
        assert(views_of(cc@) =~= written);
    }
}

/// Iterate a cycle node in place until a round changes nothing, within
/// the round budget.
#[verifier::loop_isolation(false)]
fn cycle_exec(prog: &Program, cc: &mut Vec<Bag>, ms: &Vec<usize>) -> (ok: bool)
    requires
        contents_wf(old(cc)@),
        distinct_ids(ms@),
        forall|j: int| 0 <= j < ms@.len() ==> (#[trigger] ms@[j]) < old(cc)@.len(),
    ensures
        ok ==> node_eval(*prog, views_of(old(cc)@), ms@, prog.rounds as nat) == Some(
            views_of(final(cc)@),
        ) && contents_wf(final(cc)@) && final(cc)@.len() == old(cc)@.len(),
        !ok ==> node_eval(*prog, views_of(old(cc)@), ms@, prog.rounds as nat) is None,
{
    let ghost entry = views_of(cc@);
    let mut round: u64 = 0;
    while round < prog.rounds
        invariant
            round <= prog.rounds,
            contents_wf(cc@),
            cc@.len() == entry.len(),
            distinct_ids(ms@),
            forall|j: int| 0 <= j < ms@.len() ==> (#[trigger] ms@[j]) < cc@.len(),
            node_eval(*prog, entry, ms@, prog.rounds as nat) == node_eval(
                *prog,
                views_of(cc@),
                ms@,
                (prog.rounds - round) as nat,
            ),
        decreases prog.rounds - round,
    {
        let ghost curv = views_of(cc@);
        let ghost n = (prog.rounds - round) as nat;
        proof {
            assert(ms@.subrange(0, ms@.len() as int) =~= ms@);
        }
        match members_exec(prog, cc, ms, 0) {
            None => {
                proof {
                    assert(node_step(*prog, curv, ms@) is None);
                    assert(node_eval(*prog, curv, ms@, n) is None);
                }
                return false;
            },
            Some(sts) => {
                let ghost stsv = views_of(sts@);
                proof {
                    lemma_members_states_len(*prog, curv, ms@, stsv);
                    assert(sts@.len() == ms@.len());
                    assert(node_step(*prog, curv, ms@) == Some(write_members(curv, ms@, stsv)));
                }
                if check_stable(cc, ms, &sts) {
                    proof {
                        lemma_write_members_stable(curv, ms@, stsv);
                        assert(node_eval(*prog, curv, ms@, n) == Some(curv));
                    }
                    return true;
                }
                proof {
                    lemma_write_members_frame(curv, ms@, stsv);
                    let written = write_members(curv, ms@, stsv);
                    let u = choose|u: int|
                        0 <= u < ms@.len() && stsv[u] != curv[#[trigger] ms@[u] as int];
                    assert(written[ms@[u] as int] == stsv[u]);
                    assert(written != curv);
                    assert(node_eval(*prog, curv, ms@, n) == node_eval(
                        *prog,
                        written,
                        ms@,
                        (n - 1) as nat,
                    ));
                }
                write_back(cc, ms, &sts);
                round = round + 1;
            },
        }
    }
    false
}

/// Evaluate the node list in place, in order.
#[verifier::loop_isolation(false)]
fn nodes_exec(prog: &Program, cc: &mut Vec<Bag>) -> (ok: bool)
    requires
        prog_wf(*prog),
        contents_wf(old(cc)@),
        old(cc)@.len() == nrels(*prog),
    ensures
        ok ==> nodes_eval(*prog, views_of(old(cc)@), prog.nodes@) == Some(views_of(final(cc)@))
            && contents_wf(final(cc)@) && final(cc)@.len() == old(cc)@.len(),
        !ok ==> nodes_eval(*prog, views_of(old(cc)@), prog.nodes@) is None,
{
    let ghost entry = views_of(cc@);
    let mut k: usize = 0;
    proof {
        assert(prog.nodes@.subrange(0, prog.nodes@.len() as int) =~= prog.nodes@);
    }
    while k < prog.nodes.len()
        invariant
            k <= prog.nodes.len(),
            prog_wf(*prog),
            contents_wf(cc@),
            cc@.len() == nrels(*prog),
            cc@.len() == entry.len(),
            nodes_eval(*prog, entry, prog.nodes@) == nodes_eval(
                *prog,
                views_of(cc@),
                prog.nodes@.subrange(k as int, prog.nodes@.len() as int),
            ),
        decreases prog.nodes.len() - k,
    {
        let ghost tail = prog.nodes@.subrange(k as int, prog.nodes@.len() as int);
        proof {
            assert(tail[0] == prog.nodes@[k as int]);
            assert(tail.subrange(1, tail.len() as int) =~= prog.nodes@.subrange(
                k + 1,
                prog.nodes@.len() as int,
            ));
            assert(node_wf(*prog, prog.nodes@[k as int], k as int));
        }
        match &prog.nodes[k] {
            Node::Rel(rid) => {
                match relation_exec(prog, cc, *rid) {
                    None => {
                        return false;
                    },
                    Some(b) => {
                        let ghost curv = views_of(cc@);
                        let ghost bv = b@;
                        cc.set(*rid, b);
                        proof {
                            assert(views_of(cc@) =~= curv.update(*rid as int, bv));
                        }
                    },
                }
            },
            Node::Cycle(ms) => {
                if !cycle_exec(prog, cc, ms) {
                    return false;
                }
            },
        }
        k = k + 1;
    }
    proof {
        assert(prog.nodes@.subrange(prog.nodes@.len() as int, prog.nodes@.len() as int) =~= Seq::<
            Node,
        >::empty());
    }
    true
}

/// A built program instance: the immutable description, the current
/// contents of every relation, and which relations are observed.
pub struct ProgramHandle {
    pub prog: Program,
    pub contents: Vec<Bag>,
    pub observed: Vec<bool>,
}

impl ProgramHandle {
    pub open spec fn contents_view(&self) -> Seq<Seq<(Val, int)>> {
        views_of(self.contents@)
    }

    /// The handle invariant: a valid description, canonical contents, and
    /// derived relations that are exactly the evaluation of the inputs.
    pub open spec fn wf(&self) -> bool {
        &&& prog_wf(self.prog)
        &&& self.contents@.len() == nrels(self.prog)
        &&& self.observed@.len() == nrels(self.prog)
        &&& contents_wf(self.contents@)
        &&& rederive(self.prog, self.contents_view()) == Some(self.contents_view())
    }

    /// The current content of one relation.
    pub fn snapshot(&self, relid: usize) -> (r: Option<Bag>)
        requires
            self.wf(),
        ensures
            match r {
                Some(b) => relid < nrels(self.prog) && b@ == self.contents_view()[relid as int]
                    && b.wf(),
                None => relid >= nrels(self.prog),
            },
    {
        if relid < self.contents.len() {
            proof {
                assert(self.contents_view()[relid as int] == self.contents@[relid as int]@);
            }
            Some(bag_clone(&self.contents[relid]))
        } else {
            None
        }
    }

    /// Observe one more relation: from the next transaction on, its net
    /// change is reported in the delta map.
    pub fn register_observer(&mut self, relid: usize) -> (ok: bool)
        requires
            old(self).wf(),
        ensures
            final(self).wf(),
            final(self).prog == old(self).prog,
            final(self).contents@ == old(self).contents@,
            ok == (relid < nrels(old(self).prog)),
            ok ==> final(self).observed@ == old(self).observed@.update(relid as int, true),
            !ok ==> final(self).observed@ == old(self).observed@,
    {
        if relid < self.observed.len() {
            self.observed.set(relid, true);
            true
        } else {
            false
        }
    }

    /// Apply one transaction: validate the update batch, fold it into the
    /// input relations, re-derive every relation to a fixpoint in node
    /// order, and report the net change of every observed relation.  On
    /// any error the store is exactly as before the call.
    pub fn apply_transaction(&mut self, updates: &Vec<Update>) -> (r: Result<
        DeltaMap,
        EngineError,
    >)
        requires
            old(self).wf(),
        ensures
            final(self).wf(),
            final(self).prog == old(self).prog,
            final(self).observed@ == old(self).observed@,
            r is Ok <==> (updates_valid(old(self).prog, updates@) && txn_eval(
                old(self).prog,
                old(self).observed@,
                old(self).contents_view(),
                updates@,
            ) is Some),
            match r {
                Ok(dm) => txn_eval(
                    old(self).prog,
                    old(self).observed@,
                    old(self).contents_view(),
                    updates@,
                ) == Some((final(self).contents_view(), dm@)),
                Err(e) => final(self).contents_view() == old(self).contents_view() && (match e {
                    EngineError::UnknownRelation => first_invalid(
                        old(self).prog,
                        updates@,
                    ) matches Some(u) && !update_known(old(self).prog, u),
                    EngineError::SchemaMismatch => first_invalid(
                        old(self).prog,
                        updates@,
                    ) matches Some(u) && update_known(old(self).prog, u),
                    EngineError::ResourceLimit => updates_valid(old(self).prog, updates@)
                        && txn_eval(
                        old(self).prog,
                        old(self).observed@,
                        old(self).contents_view(),
                        updates@,
                    ) is None,
                }),
            },
    {
        let ghost c0 = self.contents_view();
        match validate_updates(&self.prog, updates) {
            Err(e) => {
                return Err(e);
            },
            Ok(()) => {},
        }
        let mut scratch = clone_contents(&self.contents);
        proof {
            assert(views_of(scratch@) =~= c0);
            lemma_valid_updates_known(self.prog, updates@);
        }
        if !fold_updates(&self.prog, &mut scratch, updates) {
            return Err(EngineError::ResourceLimit);
        }
        let ghost folded = views_of(scratch@);
        let mut work = reset_exec(&self.prog, &scratch);
        proof {
            assert(views_of(work@) =~= reset_derived(self.prog, folded));
        }
        if !nodes_exec(&self.prog, &mut work) {
            return Err(EngineError::ResourceLimit);
        }
        let ghost newc = views_of(work@);
        proof {
            assert(rederive(self.prog, folded) == Some(newc));
        }
        let dm = build_deltas(&self.observed, &self.contents, &work);
        proof {
            lemma_derive_idempotent(self.prog, folded, newc);
        }
        self.contents = work;
        Ok(dm)
    }
}

/// Every update of a batch that validates names a declared input relation.
proof fn lemma_valid_updates_known(prog: Program, ups: Seq<Update>)
    requires
        first_invalid(prog, ups) is None,
    ensures
        forall|u: int| 0 <= u < ups.len() ==> update_valid(prog, #[trigger] ups[u]),
    decreases ups.len(),
{
    if ups.len() > 0 {
        lemma_valid_updates_known(prog, ups.subrange(1, ups.len() as int));
        assert forall|u: int| 0 <= u < ups.len() implies update_valid(prog, #[trigger] ups[u]) by {
            if u > 0 {
                assert(ups[u] == ups.subrange(1, ups.len() as int)[u - 1]);
            }
        }
    }
}

/// Reject the first update that names an unknown relation or carries a
/// mis-shaped value.
#[verifier::loop_isolation(false)]
fn validate_updates(prog: &Program, updates: &Vec<Update>) -> (r: Result<(), EngineError>)
    ensures
        match r {
            Ok(()) => updates_valid(*prog, updates@),
            Err(e) => match e {
                EngineError::UnknownRelation => first_invalid(*prog, updates@) matches Some(u)
                    && !update_known(*prog, u),
                EngineError::SchemaMismatch => first_invalid(*prog, updates@) matches Some(u)
                    && update_known(*prog, u),
                EngineError::ResourceLimit => false,
            },
        },
{
    let ghost ups = updates@;
    let mut i: usize = 0;
    proof {
        assert(ups.subrange(0, ups.len() as int) =~= ups);
    }
    while i < updates.len()
        invariant
            i <= updates.len(),
            first_invalid(*prog, ups) == first_invalid(
                *prog,
                ups.subrange(i as int, ups.len() as int),
            ),
        decreases updates.len() - i,
    {
        let ghost tail = ups.subrange(i as int, ups.len() as int);
        proof {
            assert(tail[0] == ups[i as int]);
            assert(tail.subrange(1, tail.len() as int) =~= ups.subrange(
                i + 1,
                ups.len() as int,
            ));
        }
        let (relid, v) = match &updates[i] {
            Update::Insert { relid, v } => (*relid, v),
            Update::DeleteValue { relid, v } => (*relid, v),
        };
        if relid >= prog.rels.len() || !prog.rels[relid].input {
            return Err(EngineError::UnknownRelation);
        }
        if !shape_check(&prog.rels[relid].shape, v) {
            return Err(EngineError::SchemaMismatch);
        }
        i = i + 1;
    }
    proof {
        assert(ups.subrange(ups.len() as int, ups.len() as int) =~= Seq::<Update>::empty());
    }
    Ok(())
}

/// A deep copy of the whole contents vector.
#[verifier::loop_isolation(false)]
fn clone_contents(contents: &Vec<Bag>) -> (r: Vec<Bag>)
    requires
        contents_wf(contents@),
    ensures
        r@.len() == contents@.len(),
        views_of(r@) == views_of(contents@),
        contents_wf(r@),
{
    let mut out: Vec<Bag> = Vec::new();
    let mut t: usize = 0;
    while t < contents.len()
        invariant
            t <= contents@.len(),
            out@.len() == t,
            forall|u: int| 0 <= u < t ==> (#[trigger] out@[u])@ == contents@[u]@,
            forall|u: int| 0 <= u < t ==> (#[trigger] out@[u]).wf(),
        decreases contents.len() - t,
    {
        out.push(bag_clone(&contents[t]));
        t = t + 1;
    }
    proof {
        assert(views_of(out@) =~= views_of(contents@));
    }
    out
}

/// Fold a validated update batch into the contents, in order.
#[verifier::loop_isolation(false)]
fn fold_updates(prog: &Program, cc: &mut Vec<Bag>, updates: &Vec<Update>) -> (ok: bool)
    requires
        old(cc)@.len() == nrels(*prog),
        contents_wf(old(cc)@),
        forall|u: int|
            0 <= u < updates@.len() ==> 0 <= upd_relid(#[trigger] updates@[u]) < nrels(*prog),
    ensures
        ok ==> upd_fold(views_of(old(cc)@), updates@) == Some(views_of(final(cc)@))
            && contents_wf(final(cc)@) && final(cc)@.len() == old(cc)@.len(),
        !ok ==> upd_fold(views_of(old(cc)@), updates@) is None,
{
    let ghost ups = updates@;
    let ghost c0 = views_of(cc@);
    let mut j: usize = 0;
    proof {
        assert(ups.subrange(0, ups.len() as int) =~= ups);
    }
    while j < updates.len()
        invariant
            j <= updates.len(),
            cc@.len() == nrels(*prog),
            contents_wf(cc@),
            upd_fold(c0, ups) == upd_fold(
                views_of(cc@),
                ups.subrange(j as int, ups.len() as int),
            ),
        decreases updates.len() - j,
    {
        let ghost tail = ups.subrange(j as int, ups.len() as int);
        let ghost cv = views_of(cc@);
        proof {
            assert(tail[0] == ups[j as int]);
            assert(tail.subrange(1, tail.len() as int) =~= ups.subrange(
                j + 1,
                ups.len() as int,
            ));
        }
        let (relid, v, w): (usize, &Value, i128) = match &updates[j] {
            Update::Insert { relid, v } => (*relid, v, 1i128),
            Update::DeleteValue { relid, v } => (*relid, v, -1i128),
        };
        proof {
            assert(cv[relid as int] == cc@[relid as int]@);
        }
        match crate::bag::bag_upsert(&cc[relid], v, w) {
            None => {
                return false;
            },
            Some(b) => {
                let ghost bv = b@;
                cc.set(relid, b);
                proof {
                    assert(views_of(cc@) =~= cv.update(
                        relid as int,
                        bag_add(cv[relid as int], upd_val(ups[j as int]), upd_weight(
                            ups[j as int],
                        )),
                    ));
                }
            },
        }
        j = j + 1;
    }
    proof {
        assert(ups.subrange(ups.len() as int, ups.len() as int) =~= Seq::<Update>::empty());
    }
    true
}

/// A fresh contents vector with the inputs kept and every derived
/// relation reset to empty.
#[verifier::loop_isolation(false)]
fn reset_exec(prog: &Program, cc: &Vec<Bag>) -> (r: Vec<Bag>)
    requires
        cc@.len() == nrels(*prog),
        contents_wf(cc@),
    ensures
        views_of(r@) == reset_derived(*prog, views_of(cc@)),
        r@.len() == nrels(*prog),
        contents_wf(r@),
{
    let ghost folded = views_of(cc@);
    let mut work: Vec<Bag> = Vec::new();
    let mut t2: usize = 0;
    while t2 < prog.rels.len()
        invariant
            t2 <= prog.rels@.len(),
            work@.len() == t2,
            forall|u: int|
                0 <= u < t2 ==> (#[trigger] work@[u])@ == reset_derived(*prog, folded)[u],
            forall|u: int| 0 <= u < t2 ==> (#[trigger] work@[u]).wf(),
        decreases prog.rels.len() - t2,
    {
        if prog.rels[t2].input {
            proof {
                assert(folded[t2 as int] == cc@[t2 as int]@);
            }
            work.push(bag_clone(&cc[t2]));
        } else {
            work.push(Bag::new());
        }
        t2 = t2 + 1;
    }
    proof {
        assert(views_of(work@) =~= reset_derived(*prog, folded));
    }
    work
}

/// Collect the non-empty differences of the observed relations.
#[verifier::loop_isolation(false)]
fn build_deltas(observed: &Vec<bool>, oldc: &Vec<Bag>, newc: &Vec<Bag>) -> (dm: DeltaMap)
    requires
        observed@.len() <= oldc@.len(),
        observed@.len() <= newc@.len(),
    ensures
        dm@ == deltas_from(observed@, views_of(oldc@), views_of(newc@), 0),
{
    let ghost ov = views_of(oldc@);
    let ghost nv = views_of(newc@);
    let mut dm = DeltaMap::new();
    let mut rr: usize = 0;
    proof {
        assert(dm@ + deltas_from(observed@, ov, nv, 0) =~= deltas_from(observed@, ov, nv, 0));
    }
    while rr < observed.len()
        invariant
            rr <= observed@.len(),
            deltas_from(observed@, ov, nv, 0) == dm@ + deltas_from(observed@, ov, nv, rr as int),
        decreases observed.len() - rr,
    {
        let ghost dmv = dm@;
        if observed[rr] {
            proof {
                assert(nv[rr as int] == newc@[rr as int]@);
                assert(ov[rr as int] == oldc@[rr as int]@);
            }
            let d = delta_between(&newc[rr], &oldc[rr]);
            if d.row_count() > 0 {
                let ghost dv = d@;
                dm.entries.push((rr, d));
                proof {
                    assert(dm@ =~= dmv.push((rr as int, dv)));
                    assert(dmv.push((rr as int, dv)) + deltas_from(observed@, ov, nv, rr + 1)
                        =~= dmv + (seq![(rr as int, dv)] + deltas_from(observed@, ov, nv, rr + 1)));
                }
            }
        }
        rr = rr + 1;
    }
    proof {
        assert(deltas_from(observed@, ov, nv, observed@.len() as int) =~= Seq::<
            (int, Seq<(Val, int)>),
        >::empty());
        assert(dm@ + Seq::<(int, Seq<(Val, int)>)>::empty() =~= dm@);
    }
    dm
}

#[verifier::loop_isolation(false)]
fn node_defines_exec(nd: &Node, r: usize) -> (b: bool)
    ensures
        b == node_defines(*nd, r as int),
{
    match nd {
        Node::Rel(x) => *x == r,
        Node::Cycle(ms) => {
            let mut j: usize = 0;
            while j < ms.len()
                invariant
                    j <= ms@.len(),
                    forall|t: int| 0 <= t < j ==> (#[trigger] ms@[t]) != r,
                decreases ms.len() - j,
            {
                if ms[j] == r {
                    proof {
                        assert(0 <= j < ms@.len() && ms@[j as int] as int == r as int);
                    }
                    return true;
                }
                j = j + 1;
            }
            proof {
                if node_defines(*nd, r as int) {
                    let t = choose|t: int| 0 <= t < ms@.len() && ms@[t] as int == r as int;
                    assert(ms@[t] != r);
                }
            }
            false
        },
    }
}

#[verifier::loop_isolation(false)]
fn find_node_exec(nodes: &Vec<Node>, r: usize) -> (res: Option<usize>)
    ensures
        match res {
            Some(k) => find_node(nodes@, r as int) == Some(k as int),
            None => find_node(nodes@, r as int) is None,
        },
{
    let mut k: usize = 0;
    proof {
        assert(nodes@.subrange(0, nodes@.len() as int) =~= nodes@);
    }
    while k < nodes.len()
        invariant
            k <= nodes@.len(),
            find_node(nodes@, r as int) == (match find_node(
                nodes@.subrange(k as int, nodes@.len() as int),
                r as int,
            ) {
                Some(j) => Some(j + k),
                None => None,
            }),
        decreases nodes.len() - k,
    {
        let ghost tail = nodes@.subrange(k as int, nodes@.len() as int);
        proof {
            assert(tail[0] == nodes@[k as int]);
            assert(tail.subrange(1, tail.len() as int) =~= nodes@.subrange(
                k + 1,
                nodes@.len() as int,
            ));
        }
        if node_defines_exec(&nodes[k], r) {
            return Some(k);
        }
        k = k + 1;
    }
    proof {
        assert(nodes@.subrange(nodes@.len() as int, nodes@.len() as int) =~= Seq::<
            Node,
        >::empty());
    }
    None
}

fn rel_available_exec(prog: &Program, sr: usize, k: usize) -> (b: bool)
    ensures
        b == rel_available(*prog, sr as int, k as int),
{
    if sr >= prog.rels.len() {
        return false;
    }
    if prog.rels[sr].input {
        return true;
    }
    match find_node_exec(&prog.nodes, sr) {
        Some(j) => j <= k,
        None => false,
    }
}

fn arr_check(prog: &Program, rr: usize, a: usize, keyed: bool) -> (b: bool)
    ensures
        b == arr_wf(*prog, rr as int, a as int, keyed),
{
    if rr >= prog.rels.len() || a >= prog.rels[rr].arrangements.len() {
        return false;
    }
    match &prog.rels[rr].arrangements[a].kind {
        ArrKind::Keyed { .. } => keyed,
        ArrKind::Members { .. } => !keyed,
    }
}

#[verifier::loop_isolation(false)]
fn stages_check(prog: &Program, sts: &Vec<Stage>, i: usize, k: usize, keyed: bool) -> (b: bool)
    requires
        i <= sts.len(),
    ensures
        b == stages_wf(*prog, sts@.subrange(i as int, sts@.len() as int), k as int, keyed),
    decreases sts.len() - i,
{
    let ghost tail = sts@.subrange(i as int, sts@.len() as int);
    if i == sts.len() {
        true
    } else {
        proof {
            assert(tail[0] == sts@[i as int]);
            assert(tail.subrange(1, tail.len() as int) =~= sts@.subrange(
                i + 1,
                sts@.len() as int,
            ));
        }
        let head_ok = match &sts[i] {
            Stage::FilterMap { .. } => true,
            Stage::Arrange { .. } => true,
            Stage::Join { rel, arr, .. } => keyed && arr_check(prog, *rel, *arr, true)
                && rel_available_exec(prog, *rel, k),
            Stage::Semijoin { rel, arr, .. } => keyed && arr_check(prog, *rel, *arr, false)
                && rel_available_exec(prog, *rel, k),
            Stage::Aggregate { .. } => keyed,
        };
        if !head_ok {
            return false;
        }
        let nxt_keyed = match &sts[i] {
            Stage::Arrange { .. } => true,
            Stage::Aggregate { .. } => true,
            _ => false,
        };
        stages_check(prog, sts, i + 1, k, nxt_keyed)
    }
}

fn rule_check(prog: &Program, rl: &Rule, k: usize) -> (b: bool)
    ensures
        b == rule_wf(*prog, *rl, k as int),
{
    proof {
        assert(rl.stages@.subrange(0, rl.stages@.len() as int) =~= rl.stages@);
    }
    match &rl.source {
        Source::Rel(sr) => rel_available_exec(prog, *sr, k) && stages_check(
            prog,
            &rl.stages,
            0,
            k,
            false,
        ),
        Source::Arr(sr, sa) => rel_available_exec(prog, *sr, k) && arr_check(prog, *sr, *sa, true)
            && stages_check(prog, &rl.stages, 0, k, true),
    }
}

#[verifier::loop_isolation(false)]
fn distinct_check(ms: &Vec<usize>) -> (b: bool)
    ensures
        b == distinct_ids(ms@),
{
    let mut i: usize = 0;
    while i < ms.len()
        invariant
            i <= ms@.len(),
            forall|x: int, y: int| 0 <= x < y < ms@.len() && x < i ==> ms@[x] != ms@[y],
        decreases ms.len() - i,
    {
        let mut j: usize = i + 1;
        while j < ms.len()
            invariant
                i < j <= ms@.len() || (i + 1 == j && j > ms@.len()),
                i < ms@.len(),
                forall|y: int| i < y < j ==> ms@[i as int] != ms@[y],
            decreases ms.len() - j,
        {
            if ms[i] == ms[j] {
                return false;
            }
            j = j + 1;
        }
        i = i + 1;
    }
    true
}

#[verifier::loop_isolation(false)]
fn node_check(prog: &Program, nd: &Node, k: usize) -> (b: bool)
    ensures
        b == node_wf(*prog, *nd, k as int),
{
    match nd {
        Node::Rel(rr) => {
            if *rr >= prog.rels.len() || prog.rels[*rr].input {
                return false;
            }
            match find_node_exec(&prog.nodes, *rr) {
                Some(j) => j == k,
                None => false,
            }
        },
        Node::Cycle(ms) => {
            if ms.len() == 0 {
                return false;
            }
            if !distinct_check(ms) {
                return false;
            }
            let mut j: usize = 0;
            while j < ms.len()
                invariant
                    j <= ms@.len(),
                    forall|t: int|
                        0 <= t < j ==> ((#[trigger] ms@[t]) as int) < nrels(*prog) && !prog.rels@[
                            ms@[t] as int
                        ].input && find_node(prog.nodes@, ms@[t] as int) == Some(k as int),
                decreases ms.len() - j,
            {
                if ms[j] >= prog.rels.len() || prog.rels[ms[j]].input {
                    return false;
                }
                let fine = match find_node_exec(&prog.nodes, ms[j]) {
                    Some(x) => x == k,
                    None => false,
                };
                if !fine {
                    return false;
                }
                j = j + 1;
            }
            true
        },
    }
}

/// Check a whole program description against the well-formedness rules.
#[verifier::loop_isolation(false)]
pub fn prog_check(prog: &Program) -> (b: bool)
    ensures
        b == prog_wf(*prog),
{
    if prog.rounds < 1 {
        return false;
    }
    let mut r: usize = 0;
    while r < prog.rels.len()
        invariant
            r <= prog.rels@.len(),
            forall|t: int|
                0 <= t < r && (#[trigger] prog.rels@[t]).input ==> prog.rels@[t].rules@.len() == 0
                    && find_node(prog.nodes@, t) is None,
            forall|t: int|
                0 <= t < r && !(#[trigger] prog.rels@[t]).input ==> find_node(
                    prog.nodes@,
                    t,
                ) is Some,
            forall|t: int, j: int|
                0 <= t < r && 0 <= j < prog.rels@[t].rules@.len() ==> (match find_node(
                    prog.nodes@,
                    t,
                ) {
                    Some(k) => rule_wf(*prog, #[trigger] prog.rels@[t].rules@[j], k),
                    None => true,
                }),
        decreases prog.rels.len() - r,
    {
        let fr = find_node_exec(&prog.nodes, r);
        if prog.rels[r].input {
            if prog.rels[r].rules.len() != 0 {
                return false;
            }
            if fr.is_some() {
                return false;
            }
        } else {
            if fr.is_none() {
                return false;
            }
        }
        match fr {
            Some(k) => {
                let mut j: usize = 0;
                while j < prog.rels[r].rules.len()
                    invariant
                        r < prog.rels@.len(),
                        j <= prog.rels@[r as int].rules@.len(),
                        find_node(prog.nodes@, r as int) == Some(k as int),
                        forall|t: int|
                            0 <= t < j ==> rule_wf(
                                *prog,
                                #[trigger] prog.rels@[r as int].rules@[t],
                                k as int,
                            ),
                    decreases prog.rels@[r as int].rules@.len() - j,
                {
                    if !rule_check(prog, &prog.rels[r].rules[j], k) {
                        return false;
                    }
                    j = j + 1;
                }
            },
            None => {},
        }
        r = r + 1;
    }
    let mut k: usize = 0;
    while k < prog.nodes.len()
        invariant
            k <= prog.nodes@.len(),
            forall|t: int| 0 <= t < k ==> node_wf(*prog, #[trigger] prog.nodes@[t], t),
        decreases prog.nodes.len() - k,
    {
        if !node_check(prog, &prog.nodes[k], k) {
            return false;
        }
        k = k + 1;
    }
    true
}

/// All-empty contents for `n` relations.
pub open spec fn empty_contents(n: int) -> Seq<Seq<(Val, int)>> {
    Seq::new(n as nat, |i: int| Seq::<(Val, int)>::empty())
}

/// Build a program instance: validate the description and start from the
/// all-empty state, which a well-formed program derives to itself.  The
/// observer set starts from the relations declared observed.
pub fn build_program(prog: Program) -> (r: Result<ProgramHandle, GraphError>)
    ensures
        r is Ok <==> prog_wf(prog),
        match r {
            Ok(h) => {
                &&& h.prog == prog
                &&& h.wf()
                &&& h.contents_view() == empty_contents(nrels(prog))
                &&& h.observed@.len() == nrels(prog)
                &&& forall|t: int|
                    0 <= t < nrels(prog) ==> h.observed@[t] == prog.rels@[t].track
            },
            Err(_) => !prog_wf(prog),
        },
{
    if !prog_check(&prog) {
        return Err(GraphError::MalformedGraph);
    }
    let mut work: Vec<Bag> = Vec::new();
    let mut observed: Vec<bool> = Vec::new();
    let mut t: usize = 0;
    while t < prog.rels.len()
        invariant
            t <= prog.rels@.len(),
            work@.len() == t,
            observed@.len() == t,
            forall|u: int| 0 <= u < t ==> (#[trigger] work@[u])@ == Seq::<(Val, int)>::empty(),
            forall|u: int| 0 <= u < t ==> (#[trigger] work@[u]).wf(),
            forall|u: int| 0 <= u < t ==> (#[trigger] observed@[u]) == prog.rels@[u].track,
        decreases prog.rels.len() - t,
    {
        work.push(Bag::new());
        observed.push(prog.rels[t].track);
        t = t + 1;
    }
    let ghost empties = empty_contents(nrels(prog));
    proof {
        assert(views_of(work@) =~= empties);
        assert(reset_derived(prog, empties) =~= empties);
        lemma_derive_empty(prog);
    }
    if !nodes_exec(&prog, &mut work) {
        // a well-formed program always derives the empty state
        return Err(GraphError::MalformedGraph);
    }
    let ghost newc = views_of(work@);
    proof {
        assert(rederive(prog, empties) == Some(newc));
        assert(newc == empties);
        lemma_derive_idempotent(prog, empties, newc);
    }
    Ok(ProgramHandle { prog, contents: work, observed })
}

/// On an all-empty state every stream, stage and rule yields nothing, so
/// a well-formed program always derives the empty state: building a
/// program fails only on a malformed description.
proof fn lemma_streams_empty(out: Expr, key: Expr, val: Expr, agg: Reducer) {
    let e = Seq::<(Val, int)>::empty();
    assert(fmap_stream(out, e) =~= e);
    assert(arrange_stream(key, val, e) =~= e);
    assert(agg_rows(agg, e) =~= e);
    assert(agg_fits(agg, e));
}

proof fn lemma_consolidate_empty() {
    let e = Seq::<(Val, int)>::empty();
    assert(from_fits(e, e));
    assert(bag_from(e, e) == e);
    assert(consolidate(e) == Some(e));
}

proof fn lemma_stage_empty(prog: Program, c: Seq<Seq<(Val, int)>>, st: Stage)
    requires
        forall|i: int| 0 <= i < c.len() ==> (#[trigger] c[i]).len() == 0,
    ensures
        stage_sem(prog, c, st, Seq::empty()) == Some(Seq::<(Val, int)>::empty()),
{
    let e = Seq::<(Val, int)>::empty();
    lemma_consolidate_empty();
    match st {
        Stage::FilterMap { out } => {
            assert(fmap_stream(out, e) =~= e);
        },
        Stage::Arrange { key, val } => {
            assert(arrange_stream(key, val, e) =~= e);
        },
        Stage::Join { rel, arr, out } => {
            assert(join_stream(e, arr_lookup(prog, c, rel as int, arr as int), out) =~= e);
        },
        Stage::Semijoin { rel, arr, out } => {
            assert(semijoin_stream(e, arr_lookup(prog, c, rel as int, arr as int), out) =~= e);
        },
        Stage::Aggregate { agg } => {
            assert(agg_rows(agg, e) =~= e);
            assert(agg_fits(agg, e));
        },
    }
}

proof fn lemma_stages_empty(prog: Program, c: Seq<Seq<(Val, int)>>, sts: Seq<Stage>)
    requires
        forall|i: int| 0 <= i < c.len() ==> (#[trigger] c[i]).len() == 0,
    ensures
        stages_sem(prog, c, sts, Seq::empty()) == Some(Seq::<(Val, int)>::empty()),
    decreases sts.len(),
{
    if sts.len() > 0 {
        lemma_stage_empty(prog, c, sts[0]);
        lemma_stages_empty(prog, c, sts.subrange(1, sts.len() as int));
    }
}

proof fn lemma_rule_empty(prog: Program, c: Seq<Seq<(Val, int)>>, rl: Rule)
    requires
        forall|i: int| 0 <= i < c.len() ==> (#[trigger] c[i]).len() == 0,
    ensures
        rule_sem(prog, c, rl) == Some(Seq::<(Val, int)>::empty()),
{
    let e = Seq::<(Val, int)>::empty();
    lemma_stages_empty(prog, c, rl.stages@);
    lemma_consolidate_empty();
    match rl.source {
        Source::Rel(r) => {
            if 0 <= r < c.len() {
                assert(c[r as int] =~= e);
            }
        },
        Source::Arr(r, a) => {
            let rr = r as int;
            let aa = a as int;
            if 0 <= rr < c.len() && rr < nrels(prog) && 0 <= aa < prog.rels@[
                rr
            ].arrangements@.len() {
                assert(c[rr] =~= e);
                match prog.rels@[rr].arrangements@[aa].kind {
                    ArrKind::Keyed { key, val } => {
                        assert(arrange_stream(key, val, e) =~= e);
                    },
                    ArrKind::Members { key } => {
                        assert(fmap_stream(key, e) =~= e);
                    },
                }
            }
        },
    }
}

proof fn lemma_rules_empty(prog: Program, c: Seq<Seq<(Val, int)>>, rls: Seq<Rule>)
    requires
        forall|i: int| 0 <= i < c.len() ==> (#[trigger] c[i]).len() == 0,
    ensures
        rules_fold(prog, c, rls, Seq::empty()) == Some(Seq::<(Val, int)>::empty()),
    decreases rls.len(),
{
    if rls.len() > 0 {
        lemma_rule_empty(prog, c, rls[0]);
        lemma_consolidate_empty();
        lemma_rules_empty(prog, c, rls.subrange(1, rls.len() as int));
    }
}

proof fn lemma_relation_state_empty(prog: Program, c: Seq<Seq<(Val, int)>>, r: int)
    requires
        forall|i: int| 0 <= i < c.len() ==> (#[trigger] c[i]).len() == 0,
        0 <= r < nrels(prog),
    ensures
        relation_state(prog, c, r) == Some(Seq::<(Val, int)>::empty()),
{
    lemma_rules_empty(prog, c, prog.rels@[r].rules@);
    assert(coerce_distinct(Seq::<(Val, int)>::empty()) == Seq::<(Val, int)>::empty());
}

proof fn lemma_members_states_empty(prog: Program, c: Seq<Seq<(Val, int)>>, ms: Seq<usize>)
    requires
        forall|i: int| 0 <= i < c.len() ==> (#[trigger] c[i]).len() == 0,
        forall|j: int| 0 <= j < ms.len() ==> ((#[trigger] ms[j]) as int) < nrels(prog),
    ensures
        members_states(prog, c, ms) matches Some(sts) && sts.len() == ms.len() && (forall|j: int|
            0 <= j < ms.len() ==> (#[trigger] members_states(prog, c, ms)->Some_0[j]).len() == 0),
    decreases ms.len(),
{
    if ms.len() > 0 {
        lemma_relation_state_empty(prog, c, ms[0] as int);
        let tail = ms.subrange(1, ms.len() as int);
        lemma_members_states_empty(prog, c, tail);
        let rest = members_states(prog, c, tail)->Some_0;
        let sts = members_states(prog, c, ms)->Some_0;
        assert forall|j: int| 0 <= j < ms.len() implies (#[trigger] sts[j]).len() == 0 by {
            if j > 0 {
                assert(sts[j] == rest[j - 1]);
            }
        }
    }
}

proof fn lemma_derive_empty(prog: Program)
    requires
        prog_wf(prog),
    ensures
        rederive(prog, empty_contents(nrels(prog))) == Some(empty_contents(nrels(prog))),
{
    let c = empty_contents(nrels(prog));
    assert(reset_derived(prog, c) =~= c);
    assert(prog.nodes@.subrange(0, prog.nodes@.len() as int) =~= prog.nodes@);
    lemma_nodes_eval_empty(prog, c, prog.nodes@, 0);
}

proof fn lemma_nodes_eval_empty(
    prog: Program,
    c: Seq<Seq<(Val, int)>>,
    nodes: Seq<Node>,
    k0: int,
)
    requires
        prog_wf(prog),
        c.len() == nrels(prog),
        forall|i: int| 0 <= i < c.len() ==> (#[trigger] c[i]).len() == 0,
        0 <= k0 <= prog.nodes@.len(),
        nodes == prog.nodes@.subrange(k0, prog.nodes@.len() as int),
    ensures
        nodes_eval(prog, c, nodes) == Some(c),
    decreases nodes.len(),
{
    if nodes.len() > 0 {
        assert(nodes[0] == prog.nodes@[k0]);
        assert(node_wf(prog, prog.nodes@[k0], k0));
        match nodes[0] {
            Node::Rel(r) => {
                lemma_relation_state_empty(prog, c, r as int);
                assert(c[r as int] =~= Seq::<(Val, int)>::empty());
                assert(c.update(r as int, Seq::<(Val, int)>::empty()) =~= c);
            },
            Node::Cycle(ms) => {
                lemma_members_states_empty(prog, c, ms@);
                let sts = members_states(prog, c, ms@)->Some_0;
                assert forall|j: int| 0 <= j < ms@.len() implies sts[j] == c[
                    #[trigger] ms@[j] as int
                ] by {
                    assert(sts[j].len() == 0);
                    assert(c[ms@[j] as int] =~= sts[j]);
                }
                lemma_write_members_stable(c, ms@, sts);
                assert(node_step(prog, c, ms@) == Some(c));
                assert(node_eval(prog, c, ms@, prog.rounds as nat) == Some(c));
            },
        }
        assert(nodes.subrange(1, nodes.len() as int) =~= prog.nodes@.subrange(
            k0 + 1,
            prog.nodes@.len() as int,
        ));
        lemma_nodes_eval_empty(
            prog,
            c,
            nodes.subrange(1, nodes.len() as int),
            k0 + 1,
        );
    }
}

} // verus!
