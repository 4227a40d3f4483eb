//! Rules: transform pipelines over weighted row streams.
//!
//! A rule reads one relation (or one of its arrangements) and pushes its
//! rows through a chain of stages; the final stream is folded into the
//! target relation.  Keyed streams are streams of two-element tuples
//! `(key, payload)`; an arrange stage produces them and join, semijoin and
//! aggregate stages consume them.  A join multiplies the weights of the
//! matched rows, a semijoin filters by key presence and leaves weights
//! unchanged, and an aggregate reduces each key's positively weighted
//! group to at most one output row of weight one.

use vstd::prelude::*;

use crate::expr::{Expr, eval, eval_expr};
use crate::value::{Cmp, Val, Value, cmp_val, lemma_vals_of, vals_of, value_clone, value_cmp, value_eq};
use crate::bag::{Bag, key_in, raw_rows_of, rows_bounded, rows_of};

verus! {

/// Group reduction applied by an aggregate stage.
pub enum Reducer {
    /// Least payload in the structural value order.
    Min,
    /// Greatest payload in the structural value order.
    Max,
    /// Number of rows, weights summed.
    Count,
}

/// How an arrangement indexes its relation.
pub enum ArrKind {
    /// Key and payload per row: feeds joins (a map arrangement).
    Keyed { key: Expr, val: Expr },
    /// Key presence only: feeds semijoins (a set arrangement).
    Members { key: Expr },
}

/// A named index over one relation's content.
pub struct ArrangementDecl {
    pub kind: ArrKind,
    /// Whether external consumers may look the arrangement up.
    pub queryable: bool,
}

/// Where a rule reads its rows from.
pub enum Source {
    /// A relation's content.
    Rel(usize),
    /// Arrangement `1` of relation `0`, as a keyed stream.
    Arr(usize, usize),
}

/// One stage of a rule pipeline.
pub enum Stage {
    /// Map each row through an expression, dropping rows it misses.
    FilterMap { out: Expr },
    /// Re-key a stream into `(key, payload)` tuples.
    Arrange { key: Expr, val: Expr },
    /// Match a keyed stream against a map arrangement of another relation;
    /// `out` sees `(key, payload, matched payload)`.
    Join { rel: usize, arr: usize, out: Expr },
    /// Keep keyed rows whose key appears in a set arrangement of another
    /// relation; `out` sees `(key, payload)`.
    Semijoin { rel: usize, arr: usize, out: Expr },
    /// Group a keyed stream by key and reduce each group.
    Aggregate { agg: Reducer },
}

/// A rule: a source and a stage chain; its output feeds the relation that
/// owns it.
pub struct Rule {
    pub source: Source,
    pub stages: Vec<Stage>,
}

/// Filter-map over a stream, weights untouched.
pub open spec fn fmap_stream(out: Expr, s: Seq<(Val, int)>) -> Seq<(Val, int)>
    decreases s.len(),
{
    if s.len() == 0 {
        Seq::empty()
    } else {
        let rest = fmap_stream(out, s.subrange(1, s.len() as int));
        match eval_expr(out, s[0].0) {
            Some(u) => seq![(u, s[0].1)] + rest,
            None => rest,
        }
    }
}

/// Re-key a stream: rows where both expressions evaluate become
/// `(key, payload)` tuples, the rest drop out.
pub open spec fn arrange_stream(key: Expr, val: Expr, s: Seq<(Val, int)>) -> Seq<(Val, int)>
    decreases s.len(),
{
    if s.len() == 0 {
        Seq::empty()
    } else {
        let rest = arrange_stream(key, val, s.subrange(1, s.len() as int));
        match (eval_expr(key, s[0].0), eval_expr(val, s[0].0)) {
            (Some(k), Some(u)) => seq![(Val::Tup(seq![k, u]), s[0].1)] + rest,
            _ => rest,
        }
    }
}

/// The keyed stream an arrangement derives from its relation's content.
pub open spec fn arr_stream(kind: ArrKind, c: Seq<(Val, int)>) -> Seq<(Val, int)> {
    match kind {
        ArrKind::Keyed { key, val } => arrange_stream(key, val, c),
        ArrKind::Members { key } => fmap_stream(key, c),
    }
}

/// The key of a keyed row: the first field of a two-element tuple.
pub open spec fn key_of(v: Val) -> Option<Val> {
    match v {
        Val::Tup(xs) => if xs.len() == 2 {
            Some(xs[0])
        } else {
            None
        },
        _ => None,
    }
}

/// The payload of a keyed row: the second field of a two-element tuple.
pub open spec fn payload_of(v: Val) -> Option<Val> {
    match v {
        Val::Tup(xs) => if xs.len() == 2 {
            Some(xs[1])
        } else {
            None
        },
        _ => None,
    }
}

/// All matches of one keyed row against an arrangement stream: for every
/// arranged row sharing the key, `out` applied to
/// `(key, payload, matched payload)`, with the weights multiplied.
pub open spec fn join_one(l: (Val, int), right: Seq<(Val, int)>, out: Expr) -> Seq<(Val, int)>
    decreases right.len(),
{
    if right.len() == 0 {
        Seq::empty()
    } else {
        let rest = join_one(l, right.subrange(1, right.len() as int), out);
        match (key_of(l.0), payload_of(l.0), key_of(right[0].0), payload_of(right[0].0)) {
            (Some(k), Some(lv), Some(k2), Some(rv)) => if k == k2 {
                match eval_expr(out, Val::Tup(seq![k, lv, rv])) {
                    Some(u) => seq![(u, l.1 * right[0].1)] + rest,
                    None => rest,
                }
            } else {
                rest
            },
            _ => rest,
        }
    }
}

/// Join a keyed stream against an arrangement stream.
pub open spec fn join_stream(left: Seq<(Val, int)>, right: Seq<(Val, int)>, out: Expr) -> Seq<
    (Val, int),
>
    decreases left.len(),
{
    if left.len() == 0 {
        Seq::empty()
    } else {
        join_one(left[0], right, out) + join_stream(
            left.subrange(1, left.len() as int),
            right,
            out,
        )
    }
}

/// Keep the keyed rows whose key appears in the arrangement stream,
/// weights unchanged; `out` sees `(key, payload)`.
pub open spec fn semijoin_stream(left: Seq<(Val, int)>, rkeys: Seq<(Val, int)>, out: Expr) -> Seq<
    (Val, int),
>
    decreases left.len(),
{
    if left.len() == 0 {
        Seq::empty()
    } else {
        let rest = semijoin_stream(left.subrange(1, left.len() as int), rkeys, out);
        match (key_of(left[0].0), payload_of(left[0].0)) {
            (Some(k), Some(lv)) => if key_in(rkeys, k) {
                match eval_expr(out, Val::Tup(seq![k, lv])) {
                    Some(u) => seq![(u, left[0].1)] + rest,
                    None => rest,
                }
            } else {
                rest
            },
            _ => rest,
        }
    }
}

/// The positively weighted rows of one key's group.
pub open spec fn take_group(s: Seq<(Val, int)>, k: Val) -> Seq<(Val, int)>
    decreases s.len(),
{
    if s.len() == 0 {
        Seq::empty()
    } else {
        let rest = take_group(s.subrange(1, s.len() as int), k);
        if key_of(s[0].0) == Some(k) && s[0].1 > 0 {
            seq![s[0]] + rest
        } else {
            rest
        }
    }
}

/// The keyed rows of every other key.
pub open spec fn drop_group(s: Seq<(Val, int)>, k: Val) -> Seq<(Val, int)>
    decreases s.len(),
{
    if s.len() == 0 {
        Seq::empty()
    } else {
        let rest = drop_group(s.subrange(1, s.len() as int), k);
        match key_of(s[0].0) {
            Some(k2) => if k2 == k {
                rest
            } else {
                seq![s[0]] + rest
            },
            None => rest,
        }
    }
}

pub proof fn lemma_drop_group_len(s: Seq<(Val, int)>, k: Val)
    ensures
        drop_group(s, k).len() <= s.len(),
        s.len() > 0 && key_of(s[0].0) == Some(k) ==> drop_group(s, k).len() < s.len(),
    decreases s.len(),
{
    if s.len() > 0 {
        lemma_drop_group_len(s.subrange(1, s.len() as int), k);
    }
}

/// Least payload of a group in the structural value order.
pub open spec fn group_min(g: Seq<(Val, int)>) -> Option<Val>
    decreases g.len(),
{
    if g.len() == 0 {
        None
    } else {
        let rest = group_min(g.subrange(1, g.len() as int));
        match payload_of(g[0].0) {
            None => rest,
            Some(p) => match rest {
                None => Some(p),
                Some(q) => if cmp_val(p, q) == Cmp::Lt {
                    Some(p)
                } else {
                    Some(q)
                },
            },
        }
    }
}

/// Greatest payload of a group in the structural value order.
pub open spec fn group_max(g: Seq<(Val, int)>) -> Option<Val>
    decreases g.len(),
{
    if g.len() == 0 {
        None
    } else {
        let rest = group_max(g.subrange(1, g.len() as int));
        match payload_of(g[0].0) {
            None => rest,
            Some(p) => match rest {
                None => Some(p),
                Some(q) => if cmp_val(p, q) == Cmp::Gt {
                    Some(p)
                } else {
                    Some(q)
                },
            },
        }
    }
}

/// Summed weight of a group.
pub open spec fn group_count(g: Seq<(Val, int)>) -> int
    decreases g.len(),
{
    if g.len() == 0 {
        0
    } else {
        g[0].1 + group_count(g.subrange(1, g.len() as int))
    }
}

/// What a reducer yields for one group; `None` for an empty group.
pub open spec fn reduce_group(agg: Reducer, g: Seq<(Val, int)>) -> Option<Val> {
    match agg {
        Reducer::Min => group_min(g),
        Reducer::Max => group_max(g),
        Reducer::Count => if g.len() > 0 {
            Some(Val::Int(group_count(g)))
        } else {
            None
        },
    }
}

/// Aggregate a keyed stream: one `(key, reduced)` row of weight one per
/// key whose positively weighted group is non-empty.
pub open spec fn agg_rows(agg: Reducer, s: Seq<(Val, int)>) -> Seq<(Val, int)>
    decreases s.len(),
    via agg_rows_dec
{
    if s.len() == 0 {
        Seq::empty()
    } else {
        match key_of(s[0].0) {
            None => agg_rows(agg, s.subrange(1, s.len() as int)),
            Some(k) => {
                let g = take_group(s, k);
                let rem = drop_group(s, k);
                match reduce_group(agg, g) {
                    Some(u) => seq![(Val::Tup(seq![k, u]), 1int)] + agg_rows(agg, rem),
                    None => agg_rows(agg, rem),
                }
            },
        }
    }
}

#[via_fn]
proof fn agg_rows_dec(agg: Reducer, s: Seq<(Val, int)>) {
    if s.len() > 0 {
        match key_of(s[0].0) {
            Some(k) => {
                lemma_drop_group_len(s, k);
            },
            None => {},
        }
    }
}

/// Every count an aggregate would emit fits a 64-bit value.
pub open spec fn agg_fits(agg: Reducer, s: Seq<(Val, int)>) -> bool
    decreases s.len(),
    via agg_fits_dec
{
    if !(agg is Count) {
        true
    } else if s.len() == 0 {
        true
    } else {
        match key_of(s[0].0) {
            None => agg_fits(agg, s.subrange(1, s.len() as int)),
            Some(k) => {
                group_count(take_group(s, k)) <= 0xffff_ffff_ffff_ffff && agg_fits(
                    agg,
                    drop_group(s, k),
                )
            },
        }
    }
}

#[via_fn]
proof fn agg_fits_dec(agg: Reducer, s: Seq<(Val, int)>) {
    if s.len() > 0 {
        match key_of(s[0].0) {
            Some(k) => {
                lemma_drop_group_len(s, k);
            },
            None => {},
        }
    }
}

/// Filter-map the suffix of a stored stream starting at `i`, as a
/// transient stream.
pub fn fmap_exec(out: &Expr, s: &Vec<(Value, i64)>, i: usize) -> (r: Vec<(Value, i128)>)
    requires
        i <= s.len(),
    ensures
        raw_rows_of(r@) == fmap_stream(*out, rows_of(s@).subrange(i as int, s@.len() as int)),
    decreases s.len() - i,
{
    let ghost tail = rows_of(s@).subrange(i as int, s@.len() as int);
    if i == s.len() {
        let r: Vec<(Value, i128)> = Vec::new();
        proof {
            assert(raw_rows_of(r@) =~= fmap_stream(*out, tail));
        }
        r
    } else {
        proof {
            assert(tail[0] == (s@[i as int].0@, s@[i as int].1 as int));
            assert(tail.subrange(1, tail.len() as int) =~= rows_of(s@).subrange(
                i + 1,
                s@.len() as int,
            ));
        }
        let mut rest = fmap_exec(out, s, i + 1);
        match eval(out, &s[i].0) {
            None => rest,
            Some(u) => {
                let ghost rest0 = rest@;
                let mut r: Vec<(Value, i128)> = Vec::new();
                r.push((u, s[i].1 as i128));
                r.append(&mut rest);
                proof {
                    assert(raw_rows_of(rest0).len() == rest0.len());
                    assert(raw_rows_of(r@) =~= fmap_stream(*out, tail));
                }
                r
            },
        }
    }
}

/// As `fmap_exec`, but keeping the stored weight width: used to derive
/// set-arrangement streams.
pub fn fmap_keys_exec(out: &Expr, s: &Vec<(Value, i64)>, i: usize) -> (r: Vec<(Value, i64)>)
    requires
        i <= s.len(),
    ensures
        rows_of(r@) == fmap_stream(*out, rows_of(s@).subrange(i as int, s@.len() as int)),
    decreases s.len() - i,
{
    let ghost tail = rows_of(s@).subrange(i as int, s@.len() as int);
    if i == s.len() {
        let r: Vec<(Value, i64)> = Vec::new();
        proof {
            assert(rows_of(r@) =~= fmap_stream(*out, tail));
        }
        r
    } else {
        proof {
            assert(tail[0] == (s@[i as int].0@, s@[i as int].1 as int));
            assert(tail.subrange(1, tail.len() as int) =~= rows_of(s@).subrange(
                i + 1,
                s@.len() as int,
            ));
        }
        let mut rest = fmap_keys_exec(out, s, i + 1);
        match eval(out, &s[i].0) {
            None => rest,
            Some(u) => {
                let ghost rest0 = rest@;
                let mut r: Vec<(Value, i64)> = Vec::new();
                r.push((u, s[i].1));
                r.append(&mut rest);
                proof {
                    assert(rows_of(rest0).len() == rest0.len());
                    assert(rows_of(r@) =~= fmap_stream(*out, tail));
                }
                r
            },
        }
    }
}

/// Build the two-element tuple value `(k, u)`.
fn pair_value(k: Value, u: Value) -> (r: Value)
    ensures
        r@ == Val::Tup(seq![k@, u@]),
        key_of(r@) == Some(k@),
        payload_of(r@) == Some(u@),
{
    let ghost kk = k@;
    let ghost uu = u@;
    let mut fields: Vec<Value> = Vec::new();
    fields.push(k);
    fields.push(u);
    let r = Value::Tup(fields);
    proof {
        lemma_vals_of(r->Tup_0@);
        assert(vals_of(r->Tup_0@) =~= seq![kk, uu]);
    }
    r
}

/// Re-key the suffix of a stored stream starting at `i`.
pub fn arrange_exec(key: &Expr, val: &Expr, s: &Vec<(Value, i64)>, i: usize) -> (r: Vec<
    (Value, i64),
>)
    requires
        i <= s.len(),
    ensures
        rows_of(r@) == arrange_stream(*key, *val, rows_of(s@).subrange(i as int, s@.len() as int)),
    decreases s.len() - i,
{
    let ghost tail = rows_of(s@).subrange(i as int, s@.len() as int);
    if i == s.len() {
        let r: Vec<(Value, i64)> = Vec::new();
        proof {
            assert(rows_of(r@) =~= arrange_stream(*key, *val, tail));
        }
        r
    } else {
        proof {
            assert(tail[0] == (s@[i as int].0@, s@[i as int].1 as int));
            assert(tail.subrange(1, tail.len() as int) =~= rows_of(s@).subrange(
                i + 1,
                s@.len() as int,
            ));
        }
        let mut rest = arrange_exec(key, val, s, i + 1);
        let ka = eval(key, &s[i].0);
        let ua = eval(val, &s[i].0);
        match (ka, ua) {
            (Some(k), Some(u)) => {
                let pv = pair_value(k, u);
                let ghost rest0 = rest@;
                let mut r: Vec<(Value, i64)> = Vec::new();
                r.push((pv, s[i].1));
                r.append(&mut rest);
                proof {
                    assert(rows_of(rest0).len() == rest0.len());
                    assert(rows_of(r@) =~= arrange_stream(*key, *val, tail));
                }
                r
            },
            _ => rest,
        }
    }
}

/// The keyed stream an arrangement derives from a relation's content.
pub fn arr_exec(kind: &ArrKind, b: &Bag) -> (r: Vec<(Value, i64)>)
    ensures
        rows_of(r@) == arr_stream(*kind, b@),
{
    proof {
        assert(rows_of(b.entries@).subrange(0, b.entries@.len() as int) =~= b@);
    }
    match kind {
        ArrKind::Keyed { key, val } => arrange_exec(key, val, &b.entries, 0),
        ArrKind::Members { key } => fmap_keys_exec(key, &b.entries, 0),
    }
}

/// The key and payload of a keyed row, cloned; `None` when the row is not
/// a two-element tuple.
fn split_pair(v: &Value) -> (r: Option<(Value, Value)>)
    ensures
        match r {
            Some(kp) => key_of(v@) == Some(kp.0@) && payload_of(v@) == Some(kp.1@),
            None => key_of(v@) is None && payload_of(v@) is None,
        },
{
    match v {
        Value::Tup(xs) => {
            proof {
                lemma_vals_of(xs@);
            }
            if xs.len() == 2 {
                Some((value_clone(&xs[0]), value_clone(&xs[1])))
            } else {
                None
            }
        },
        _ => None,
    }
}

/// Matches of one keyed row against the suffix of an arrangement stream.
fn join_one_exec(lv: &Value, lw: i64, right: &Vec<(Value, i64)>, j: usize, out: &Expr) -> (r: Vec<
    (Value, i128),
>)
    requires
        j <= right.len(),
    ensures
        raw_rows_of(r@) == join_one(
            (lv@, lw as int),
            rows_of(right@).subrange(j as int, right@.len() as int),
            *out,
        ),
        rows_bounded(raw_rows_of(r@)),
    decreases right.len() - j,
{
    let ghost tail = rows_of(right@).subrange(j as int, right@.len() as int);
    if j == right.len() {
        let r: Vec<(Value, i128)> = Vec::new();
        proof {
            assert(raw_rows_of(r@) =~= join_one((lv@, lw as int), tail, *out));
        }
        r
    } else {
        proof {
            assert(tail[0] == (right@[j as int].0@, right@[j as int].1 as int));
            assert(tail.subrange(1, tail.len() as int) =~= rows_of(right@).subrange(
                j + 1,
                right@.len() as int,
            ));
        }
        let mut rest = join_one_exec(lv, lw, right, j + 1, out);
        let lkp = split_pair(lv);
        let rkp = split_pair(&right[j].0);
        match (lkp, rkp) {
            (Some((lk, lp)), Some((rk, rp))) => {
                if value_eq(&lk, &rk) {
                    let ghost kk = lk@;
                    let ghost pp = lp@;
                    let ghost qq = rp@;
                    let mut env_fields: Vec<Value> = Vec::new();
                    env_fields.push(lk);
                    env_fields.push(lp);
                    env_fields.push(rp);
                    let env = Value::Tup(env_fields);
                    proof {
                        lemma_vals_of(env->Tup_0@);
                        assert(vals_of(env->Tup_0@) =~= seq![kk, pp, qq]);
                        assert(env@ == Val::Tup(seq![kk, pp, qq]));
                    }
                    match eval(out, &env) {
                        Some(u) => {
                            let ghost rest0 = rest@;
                            let w2 = right[j].1;
                            proof {
                                assert((lw as i128) * (w2 as i128) == (lw as int) * (
                                w2 as int)) by (nonlinear_arith);
                                assert((-0x4000_0000_0000_0000_0000_0000_0000_0000 <= (lw as int)
                                    * (w2 as int)) && ((lw as int) * (w2 as int)
                                    <= 0x4000_0000_0000_0000_0000_0000_0000_0000))
                                    by (nonlinear_arith)
                                    requires
                                        (-0x8000_0000_0000_0000 <= (lw as int)) && ((lw as int)
                                            < 0x8000_0000_0000_0000),
                                        (-0x8000_0000_0000_0000 <= (w2 as int)) && ((w2 as int)
                                            < 0x8000_0000_0000_0000),
                                ;
                            }
                            let w = (lw as i128) * (w2 as i128);
                            let mut r: Vec<(Value, i128)> = Vec::new();
                            r.push((u, w));
                            r.append(&mut rest);
                            proof {
                                assert(raw_rows_of(rest0).len() == rest0.len());
                                assert(raw_rows_of(r@) =~= join_one((lv@, lw as int), tail, *out));
                            }
                            r
                        },
                        None => rest,
                    }
                } else {
                    rest
                }
            },
            _ => rest,
        }
    }
}

/// Join the suffix of a keyed stream against an arrangement stream.
pub fn join_exec(left: &Vec<(Value, i64)>, i: usize, right: &Vec<(Value, i64)>, out: &Expr) -> (r:
    Vec<(Value, i128)>)
    requires
        i <= left.len(),
    ensures
        raw_rows_of(r@) == join_stream(
            rows_of(left@).subrange(i as int, left@.len() as int),
            rows_of(right@),
            *out,
        ),
        rows_bounded(raw_rows_of(r@)),
    decreases left.len() - i,
{
    let ghost tail = rows_of(left@).subrange(i as int, left@.len() as int);
    if i == left.len() {
        let r: Vec<(Value, i128)> = Vec::new();
        proof {
            assert(raw_rows_of(r@) =~= join_stream(tail, rows_of(right@), *out));
        }
        r
    } else {
        proof {
            assert(tail[0] == (left@[i as int].0@, left@[i as int].1 as int));
            assert(tail.subrange(1, tail.len() as int) =~= rows_of(left@).subrange(
                i + 1,
                left@.len() as int,
            ));
            assert(rows_of(right@).subrange(0, right@.len() as int) =~= rows_of(right@));
        }
        let mut first = join_one_exec(&left[i].0, left[i].1, right, 0, out);
        let ghost first0 = first@;
        let mut rest = join_exec(left, i + 1, right, out);
        let ghost rest0 = rest@;
        first.append(&mut rest);
        proof {
            assert(raw_rows_of(first0).len() == first0.len());
            assert(raw_rows_of(rest0).len() == rest0.len());
            assert(raw_rows_of(first@) =~= raw_rows_of(first0) + raw_rows_of(rest0));
            assert(raw_rows_of(first@) =~= join_stream(tail, rows_of(right@), *out));
        }
        first
    }
}

/// Whether a key appears in an arrangement stream.
fn key_present(rows: &Vec<(Value, i64)>, k: &Value) -> (r: bool)
    ensures
        r == key_in(rows_of(rows@), k@),
{
    let mut j: usize = 0;
    while j < rows.len()
        invariant
            j <= rows.len(),
            forall|t: int| 0 <= t < j ==> (#[trigger] rows_of(rows@)[t]).0 != k@,
        decreases rows.len() - j,
    {
        proof {
            assert(rows_of(rows@)[j as int] == (rows@[j as int].0@, rows@[j as int].1 as int));
        }
        if value_eq(&rows[j].0, k) {
            proof {
                assert(rows_of(rows@)[j as int].0 == k@);
            }
            return true;
        }
        j = j + 1;
    }
    proof {
        if key_in(rows_of(rows@), k@) {
            let t = choose|t: int| 0 <= t < rows_of(rows@).len() && rows_of(rows@)[t].0 == k@;
            assert(rows_of(rows@)[t].0 != k@);
        }
    }
    false
}

/// Semijoin the suffix of a keyed stream against a set-arrangement stream.
pub fn semijoin_exec(left: &Vec<(Value, i64)>, i: usize, rkeys: &Vec<(Value, i64)>, out: &Expr) -> (
    r: Vec<(Value, i128)>)
    requires
        i <= left.len(),
    ensures
        raw_rows_of(r@) == semijoin_stream(
            rows_of(left@).subrange(i as int, left@.len() as int),
            rows_of(rkeys@),
            *out,
        ),
    decreases left.len() - i,
{
    let ghost tail = rows_of(left@).subrange(i as int, left@.len() as int);
    if i == left.len() {
        let r: Vec<(Value, i128)> = Vec::new();
        proof {
            assert(raw_rows_of(r@) =~= semijoin_stream(tail, rows_of(rkeys@), *out));
        }
        r
    } else {
        proof {
            assert(tail[0] == (left@[i as int].0@, left@[i as int].1 as int));
            assert(tail.subrange(1, tail.len() as int) =~= rows_of(left@).subrange(
                i + 1,
                left@.len() as int,
            ));
        }
        let mut rest = semijoin_exec(left, i + 1, rkeys, out);
        match split_pair(&left[i].0) {
            None => rest,
            Some((k, p)) => {
                if key_present(rkeys, &k) {
                    let ghost kk = k@;
                    let ghost pp = p@;
                    let env = pair_value(k, p);
                    match eval(out, &env) {
                        Some(u) => {
                            let ghost rest0 = rest@;
                            let mut r: Vec<(Value, i128)> = Vec::new();
                            r.push((u, left[i].1 as i128));
                            r.append(&mut rest);
                            proof {
                                assert(raw_rows_of(rest0).len() == rest0.len());
                                assert(raw_rows_of(r@) =~= semijoin_stream(
                                    tail,
                                    rows_of(rkeys@),
                                    *out,
                                ));
                            }
                            r
                        },
                        None => rest,
                    }
                } else {
                    rest
                }
            },
        }
    }
}

/// Whether a row value is a keyed pair, and whether its key equals `k`.
fn row_pair_key_eq(v: &Value, k: &Value) -> (r: (bool, bool))
    ensures
        r.0 == (key_of(v@) is Some),
        r.0 ==> r.1 == (key_of(v@) == Some(k@)),
{
    match v {
        Value::Tup(xs) => {
            proof {
                lemma_vals_of(xs@);
            }
            if xs.len() == 2 {
                (true, value_eq(&xs[0], k))
            } else {
                (false, false)
            }
        },
        _ => (false, false),
    }
}

/// The positively weighted rows of key `k` in the suffix starting at `i`.
fn take_exec(rows: &Vec<(Value, i64)>, i: usize, k: &Value) -> (r: Vec<(Value, i64)>)
    requires
        i <= rows.len(),
    ensures
        rows_of(r@) == take_group(rows_of(rows@).subrange(i as int, rows@.len() as int), k@),
    decreases rows.len() - i,
{
    let ghost tail = rows_of(rows@).subrange(i as int, rows@.len() as int);
    if i == rows.len() {
        let r: Vec<(Value, i64)> = Vec::new();
        proof {
            assert(rows_of(r@) =~= take_group(tail, k@));
        }
        r
    } else {
        proof {
            assert(tail[0] == (rows@[i as int].0@, rows@[i as int].1 as int));
            assert(tail.subrange(1, tail.len() as int) =~= rows_of(rows@).subrange(
                i + 1,
                rows@.len() as int,
            ));
        }
        let mut rest = take_exec(rows, i + 1, k);
        let pk = row_pair_key_eq(&rows[i].0, k);
        if pk.0 && pk.1 && rows[i].1 > 0 {
            let ghost rest0 = rest@;
            let mut r: Vec<(Value, i64)> = Vec::new();
            r.push((value_clone(&rows[i].0), rows[i].1));
            r.append(&mut rest);
            proof {
                assert(rows_of(rest0).len() == rest0.len());
                assert(rows_of(r@) =~= take_group(tail, k@));
            }
            r
        } else {
            rest
        }
    }
}

/// The keyed rows of every key but `k` in the suffix starting at `i`.
fn drop_exec(rows: &Vec<(Value, i64)>, i: usize, k: &Value) -> (r: Vec<(Value, i64)>)
    requires
        i <= rows.len(),
    ensures
        rows_of(r@) == drop_group(rows_of(rows@).subrange(i as int, rows@.len() as int), k@),
    decreases rows.len() - i,
{
    let ghost tail = rows_of(rows@).subrange(i as int, rows@.len() as int);
    if i == rows.len() {
        let r: Vec<(Value, i64)> = Vec::new();
        proof {
            assert(rows_of(r@) =~= drop_group(tail, k@));
        }
        r
    } else {
        proof {
            assert(tail[0] == (rows@[i as int].0@, rows@[i as int].1 as int));
            assert(tail.subrange(1, tail.len() as int) =~= rows_of(rows@).subrange(
                i + 1,
                rows@.len() as int,
            ));
        }
        let mut rest = drop_exec(rows, i + 1, k);
        let pk = row_pair_key_eq(&rows[i].0, k);
        if pk.0 && !pk.1 {
            let ghost rest0 = rest@;
            let mut r: Vec<(Value, i64)> = Vec::new();
            r.push((value_clone(&rows[i].0), rows[i].1));
            r.append(&mut rest);
            proof {
                assert(rows_of(rest0).len() == rest0.len());
                assert(rows_of(r@) =~= drop_group(tail, k@));
            }
            r
        } else {
            rest
        }
    }
}

/// The cloned payload of a keyed row, when it is one.
fn payload_exec(v: &Value) -> (r: Option<Value>)
    ensures
        match r {
            Some(p) => payload_of(v@) == Some(p@),
            None => payload_of(v@) is None,
        },
{
    match v {
        Value::Tup(xs) => {
            proof {
                lemma_vals_of(xs@);
            }
            if xs.len() == 2 {
                Some(value_clone(&xs[1]))
            } else {
                None
            }
        },
        _ => None,
    }
}

/// Least payload of a group's suffix, in the structural value order.
fn group_min_exec(g: &Vec<(Value, i64)>, i: usize) -> (r: Option<Value>)
    requires
        i <= g.len(),
    ensures
        ({
            let tail = rows_of(g@).subrange(i as int, g@.len() as int);
            match r {
                Some(p) => group_min(tail) == Some(p@),
                None => group_min(tail) is None,
            }
        }),
    decreases g.len() - i,
{
    let ghost tail = rows_of(g@).subrange(i as int, g@.len() as int);
    if i == g.len() {
        None
    } else {
        proof {
            assert(tail[0] == (g@[i as int].0@, g@[i as int].1 as int));
            assert(tail.subrange(1, tail.len() as int) =~= rows_of(g@).subrange(
                i + 1,
                g@.len() as int,
            ));
        }
        let rest = group_min_exec(g, i + 1);
        match payload_exec(&g[i].0) {
            None => rest,
            Some(p) => match rest {
                None => Some(p),
                Some(q) => {
                    if value_cmp(&p, &q) == Cmp::Lt {
                        Some(p)
                    } else {
                        Some(q)
                    }
                },
            },
        }
    }
}

/// Greatest payload of a group's suffix, in the structural value order.
fn group_max_exec(g: &Vec<(Value, i64)>, i: usize) -> (r: Option<Value>)
    requires
        i <= g.len(),
    ensures
        ({
            let tail = rows_of(g@).subrange(i as int, g@.len() as int);
            match r {
                Some(p) => group_max(tail) == Some(p@),
                None => group_max(tail) is None,
            }
        }),
    decreases g.len() - i,
{
    let ghost tail = rows_of(g@).subrange(i as int, g@.len() as int);
    if i == g.len() {
        None
    } else {
        proof {
            assert(tail[0] == (g@[i as int].0@, g@[i as int].1 as int));
            assert(tail.subrange(1, tail.len() as int) =~= rows_of(g@).subrange(
                i + 1,
                g@.len() as int,
            ));
        }
        let rest = group_max_exec(g, i + 1);
        match payload_exec(&g[i].0) {
            None => rest,
            Some(p) => match rest {
                None => Some(p),
                Some(q) => {
                    if value_cmp(&p, &q) == Cmp::Gt {
                        Some(p)
                    } else {
                        Some(q)
                    }
                },
            },
        }
    }
}

/// Summed weight of a group's suffix.
fn group_count_exec(g: &Vec<(Value, i64)>, i: usize) -> (r: i128)
    requires
        i <= g.len(),
    ensures
        r == group_count(rows_of(g@).subrange(i as int, g@.len() as int)),
        -((g@.len() - i) as int * 0x8000_0000_0000_0000) <= r <= (g@.len() - i) as int
            * 0x8000_0000_0000_0000,
    decreases g.len() - i,
{
    let ghost tail = rows_of(g@).subrange(i as int, g@.len() as int);
    if i == g.len() {
        proof {
            assert(group_count(tail) == 0);
        }
        0
    } else {
        proof {
            assert(tail[0] == (g@[i as int].0@, g@[i as int].1 as int));
            assert(tail.subrange(1, tail.len() as int) =~= rows_of(g@).subrange(
                i + 1,
                g@.len() as int,
            ));
        }
        let rest = group_count_exec(g, i + 1);
        let ghost m: int = 0x8000_0000_0000_0000;
        let ghost n: int = (g@.len() - i) as int;
        proof {
            assert(n * m == (n - 1) * m + m) by (nonlinear_arith);
            assert(n * m <= 0x10000_0000_0000_0000 * m) by (nonlinear_arith)
                requires
                    0 < n <= 0x10000_0000_0000_0000,
                    m == 0x8000_0000_0000_0000,
            ;
        }
        g[i].1 as i128 + rest
    }
}

/// Aggregate a canonical keyed stream; `None` when some group count
/// exceeds the 64-bit range.
pub fn agg_exec(agg: &Reducer, rows: &Vec<(Value, i64)>) -> (r: Option<Vec<(Value, i128)>>)
    ensures
        match r {
            Some(o) => agg_fits(*agg, rows_of(rows@)) && raw_rows_of(o@) == agg_rows(
                *agg,
                rows_of(rows@),
            ),
            None => !agg_fits(*agg, rows_of(rows@)),
        },
    decreases rows@.len(),
{
    let ghost whole = rows_of(rows@);
    if rows.len() == 0 {
        let o: Vec<(Value, i128)> = Vec::new();
        proof {
            assert(raw_rows_of(o@) =~= agg_rows(*agg, whole));
        }
        Some(o)
    } else {
        let key = match &rows[0].0 {
            Value::Tup(xs) => {
                proof {
                    lemma_vals_of(xs@);
                }
                if xs.len() == 2 {
                    Some(value_clone(&xs[0]))
                } else {
                    None
                }
            },
            _ => None,
        };
        match key {
            None => {
                // a malformed row aggregates to nothing
                let mut tail_rows: Vec<(Value, i64)> = Vec::new();
                let mut j: usize = 1;
                while j < rows.len()
                    invariant
                        1 <= j <= rows.len(),
                        tail_rows@.len() == j - 1,
                        rows_of(tail_rows@) =~= rows_of(rows@).subrange(1, j as int),
                    decreases rows.len() - j,
                {
                    tail_rows.push((value_clone(&rows[j].0), rows[j].1));
                    j = j + 1;
                    proof {
                        assert(rows_of(tail_rows@) =~= rows_of(rows@).subrange(1, j as int));
                    }
                }
                proof {
                    assert(rows_of(tail_rows@) =~= whole.subrange(1, whole.len() as int));
                }
                agg_exec(agg, &tail_rows)
            },
            Some(k) => {
                proof {
                    assert(whole[0] == (rows@[0].0@, rows@[0].1 as int));
                    assert(key_of(whole[0].0) == Some(k@));
                    assert(whole.subrange(0, whole.len() as int) =~= whole);
                }
                let g = take_exec(rows, 0, &k);
                let rem = drop_exec(rows, 0, &k);
                proof {
                    lemma_drop_group_len(whole, k@);
                    assert(rows_of(rem@).len() == rem@.len());
                }
                let reduced: Option<Value> = match agg {
                    Reducer::Min => {
                        let m = group_min_exec(&g, 0);
                        proof {
                            assert(rows_of(g@).subrange(0, g@.len() as int) =~= rows_of(g@));
                        }
                        m
                    },
                    Reducer::Max => {
                        let m = group_max_exec(&g, 0);
                        proof {
                            assert(rows_of(g@).subrange(0, g@.len() as int) =~= rows_of(g@));
                        }
                        m
                    },
                    Reducer::Count => {
                        let n = group_count_exec(&g, 0);
                        proof {
                            assert(rows_of(g@).subrange(0, g@.len() as int) =~= rows_of(g@));
                        }
                        if n > 0xffff_ffff_ffff_ffffi128 {
                            proof {
                                assert(!agg_fits(*agg, whole));
                            }
                            return None;
                        }
                        if g.len() == 0 {
                            None
                        } else {
                            proof {
                                lemma_take_group_nonneg(whole, k@);
                                assert(rows_of(g@)[0] == (g@[0].0@, g@[0].1 as int));
                            }
                            Some(Value::Int(n as u64))
                        }
                    },
                };
                match agg_exec(agg, &rem) {
                    None => None,
                    Some(mut tail_out) => {
                        match reduced {
                            None => {
                                proof {
                                    assert(raw_rows_of(tail_out@) == agg_rows(*agg, whole));
                                }
                                Some(tail_out)
                            },
                            Some(u) => {
                                let out_v = pair_value(k, u);
                                let ghost tail0 = tail_out@;
                                let mut o: Vec<(Value, i128)> = Vec::new();
                                o.push((out_v, 1i128));
                                o.append(&mut tail_out);
                                proof {
                                    assert(raw_rows_of(tail0).len() == tail0.len());
                                    assert(raw_rows_of(o@) =~= agg_rows(*agg, whole));
                                }
                                Some(o)
                            },
                        }
                    },
                }
            },
        }
    }
}

/// Every row a group keeps carries positive weight, so the group's summed
/// weight is non-negative.
pub proof fn lemma_take_group_nonneg(s: Seq<(Val, int)>, k: Val)
    ensures
        forall|i: int| 0 <= i < take_group(s, k).len() ==> (#[trigger] take_group(s, k)[i]).1 > 0,
        group_count(take_group(s, k)) >= 0,
    decreases s.len(),
{
    if s.len() > 0 {
        lemma_take_group_nonneg(s.subrange(1, s.len() as int), k);
        let rest = take_group(s.subrange(1, s.len() as int), k);
        let r = take_group(s, k);
        if key_of(s[0].0) == Some(k) && s[0].1 > 0 {
            assert forall|i: int| 0 <= i < r.len() implies (#[trigger] r[i]).1 > 0 by {
                if i > 0 {
                    assert(r[i] == rest[i - 1]);
                }
            }
        }
        lemma_group_count_nonneg(r);
    }
}

proof fn lemma_group_count_nonneg(g: Seq<(Val, int)>)
    requires
        forall|i: int| 0 <= i < g.len() ==> (#[trigger] g[i]).1 > 0,
    ensures
        group_count(g) >= 0,
    decreases g.len(),
{
    if g.len() > 0 {
        lemma_group_count_nonneg(g.subrange(1, g.len() as int));
    }
}

} // verus!
