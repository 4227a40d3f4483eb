//! Global laws of the transaction cycle.
//!
//! Each law is stated over the specification functions that the engine's
//! contracts use, so it holds of every store the engine can reach: an
//! empty batch changes nothing and reports nothing; an insert followed by
//! its deletion restores the store and negates the report; transactions
//! compose, so splitting a batch does not change the final state; and a
//! distinct relation always holds a set.

use vstd::prelude::*;

use crate::bag::{bag_add, bag_wf, coerce_distinct, lemma_bag_add_cancel, lemma_bag_add_weight,
    lemma_weight_range, add_fits, weight_of, i64_fits};
use crate::delta::{bag_diff, lemma_diff_antisym, lemma_diff_self, neg_rows};
use crate::program::{Program, Update, deltas_from, rederive, lemma_derive_idempotent, nrels,
    prog_wf, txn_eval, upd_fold, upd_relid, upd_val, upd_weight, update_valid, updates_valid,
    first_invalid, reset_derived};
use crate::value::Val;

verus! {

/// Every relation's model rows are canonical.
pub open spec fn contents_canonical(c: Seq<Seq<(Val, int)>>) -> bool {
    forall|i: int| 0 <= i < c.len() ==> bag_wf(#[trigger] c[i])
}

/// A delta report with every row weight negated.
pub open spec fn neg_deltas(d: Seq<(int, Seq<(Val, int)>)>) -> Seq<(int, Seq<(Val, int)>)> {
    Seq::new(d.len(), |i: int| (d[i].0, neg_rows(d[i].1)))
}

proof fn lemma_deltas_self(obs: Seq<bool>, c: Seq<Seq<(Val, int)>>, r: int)
    ensures
        deltas_from(obs, c, c, r) == Seq::<(int, Seq<(Val, int)>)>::empty(),
    decreases obs.len() - r,
{
    if 0 <= r && r < obs.len() && r < c.len() {
        lemma_diff_self(c[r]);
        lemma_deltas_self(obs, c, r + 1);
    }
}

/// Swapping old and new state negates the whole report.
proof fn lemma_deltas_antisym(
    obs: Seq<bool>,
    a: Seq<Seq<(Val, int)>>,
    b: Seq<Seq<(Val, int)>>,
    r: int,
)
    requires
        a.len() == b.len(),
    ensures
        deltas_from(obs, b, a, r) == neg_deltas(deltas_from(obs, a, b, r)),
    decreases obs.len() - r,
{
    if r < 0 || r >= obs.len() || r >= a.len() || r >= b.len() {
        assert(deltas_from(obs, b, a, r) =~= neg_deltas(deltas_from(obs, a, b, r)));
    } else {
        lemma_deltas_antisym(obs, a, b, r + 1);
        lemma_diff_antisym(b[r], a[r]);
        assert(bag_diff(a[r], b[r]).len() == bag_diff(b[r], a[r]).len()) by {
            assert(bag_diff(a[r], b[r]) == neg_rows(bag_diff(b[r], a[r])));
        }
        assert(deltas_from(obs, b, a, r) =~= neg_deltas(deltas_from(obs, a, b, r)));
    }
}

/// An empty update batch leaves every relation exactly as it was and
/// reports an empty delta map.
pub proof fn law_empty_transaction(
    prog: Program,
    obs: Seq<bool>,
    c: Seq<Seq<(Val, int)>>,
    ups: Seq<Update>,
)
    requires
        ups.len() == 0,
        rederive(prog, c) == Some(c),
    ensures
        txn_eval(prog, obs, c, ups) == Some((c, Seq::<(int, Seq<(Val, int)>)>::empty())),
{
    assert(upd_fold(c, ups) == Some(c));
    lemma_deltas_self(obs, c, 0);
}

/// Inserting a value and then deleting it in the next transaction
/// restores the pre-insert store, and the second report is the exact
/// negation of the first.
pub proof fn law_insert_delete(
    prog: Program,
    obs: Seq<bool>,
    c: Seq<Seq<(Val, int)>>,
    r: usize,
    v: crate::value::Value,
    c1: Seq<Seq<(Val, int)>>,
    d1: Seq<(int, Seq<(Val, int)>)>,
)
    requires
        prog_wf(prog),
        c.len() == nrels(prog),
        contents_canonical(c),
        rederive(prog, c) == Some(c),
        0 <= r < nrels(prog),
        prog.rels@[r as int].input,
        txn_eval(prog, obs, c, seq![Update::Insert { relid: r, v: v }]) == Some((c1, d1)),
    ensures
        txn_eval(prog, obs, c1, seq![Update::DeleteValue { relid: r, v: v }]) == Some(
            (c, neg_deltas(d1)),
        ),
{
    let ins = seq![Update::Insert { relid: r, v: v }];
    let del = seq![Update::DeleteValue { relid: r, v: v }];
    let vv = v@;
    reveal_with_fuel(upd_fold, 3);
    // unfold the insert transaction
    assert(ins.subrange(1, 1) =~= Seq::<Update>::empty());
    assert(del.subrange(1, 1) =~= Seq::<Update>::empty());
    let ca = c.update(r as int, bag_add(c[r as int], vv, 1));
    assert(upd_fold(c, ins) == Some(ca));
    assert(add_fits(c[r as int], vv, 1));
    assert(rederive(prog, ca) == Some(c1));
    assert(d1 == deltas_from(obs, c, c1, 0));
    // derived state keeps the inputs of the folded state
    lemma_derive_idempotent(prog, ca, c1);
    assert(c1[r as int] == ca[r as int]);
    assert(c1[r as int] == bag_add(c[r as int], vv, 1));
    // the deletion fits and cancels the insertion
    lemma_bag_add_weight(c[r as int], vv, 1, vv);
    lemma_weight_range(c[r as int], vv);
    assert(weight_of(c1[r as int], vv) == weight_of(c[r as int], vv) + 1);
    assert(add_fits(c1[r as int], vv, -1));
    lemma_bag_add_cancel(c[r as int], vv, 1);
    let cb = c1.update(r as int, bag_add(c1[r as int], vv, -1));
    assert(cb[r as int] == c[r as int]);
    assert(upd_fold(c1, del) == Some(cb));
    // the restored inputs re-derive to the original state
    assert(reset_derived(prog, cb) =~= reset_derived(prog, c)) by {
        assert forall|i: int| 0 <= i < cb.len() implies reset_derived(prog, cb)[i]
            == reset_derived(prog, c)[i] by {
            if i < nrels(prog) && prog.rels@[i].input {
                if i != r as int {
                    assert(cb[i] == c1[i]);
                    assert(c1[i] == ca[i]);
                    assert(ca[i] == c[i]);
                }
            }
        }
    }
    assert(rederive(prog, cb) == Some(c));
    lemma_deltas_antisym(obs, c, c1, 0);
}

proof fn lemma_upd_fold_concat(c: Seq<Seq<(Val, int)>>, u1: Seq<Update>, u2: Seq<Update>)
    ensures
        upd_fold(c, u1 + u2) == (match upd_fold(c, u1) {
            Some(c1) => upd_fold(c1, u2),
            None => None,
        }),
    decreases u1.len(),
{
    if u1.len() == 0 {
        assert(u1 + u2 =~= u2);
    } else {
        assert((u1 + u2)[0] == u1[0]);
        assert((u1 + u2).subrange(1, (u1 + u2).len() as int) =~= u1.subrange(
            1,
            u1.len() as int,
        ) + u2);
        let rr = upd_relid(u1[0]);
        if 0 <= rr < c.len() && add_fits(c[rr], upd_val(u1[0]), upd_weight(u1[0])) {
            lemma_upd_fold_concat(
                c.update(rr, bag_add(c[rr], upd_val(u1[0]), upd_weight(u1[0]))),
                u1.subrange(1, u1.len() as int),
                u2,
            );
        }
    }
}

/// Folding a batch of valid updates changes input relations only, and
/// its outcome depends on the input relations alone.
proof fn lemma_upd_fold_agree(
    prog: Program,
    a: Seq<Seq<(Val, int)>>,
    b: Seq<Seq<(Val, int)>>,
    ups: Seq<Update>,
)
    requires
        a.len() == b.len(),
        nrels(prog) <= a.len(),
        forall|u: int| 0 <= u < ups.len() ==> update_valid(prog, #[trigger] ups[u]),
        forall|i: int| 0 <= i < nrels(prog) && (#[trigger] prog.rels@[i]).input ==> a[i] == b[i],
    ensures
        (upd_fold(a, ups) is Some) == (upd_fold(b, ups) is Some),
        (upd_fold(a, ups) is Some) ==> {
            let ra = upd_fold(a, ups)->Some_0;
            let rb = upd_fold(b, ups)->Some_0;
            &&& ra.len() == a.len()
            &&& rb.len() == b.len()
            &&& forall|i: int|
                0 <= i < nrels(prog) && (#[trigger] prog.rels@[i]).input ==> ra[i] == rb[i]
            &&& forall|i: int|
                0 <= i < a.len() && !(0 <= i < nrels(prog) && prog.rels@[i].input) ==> ra[i]
                    == a[i] && rb[i] == b[i]
        },
    decreases ups.len(),
{
    if ups.len() > 0 {
        let u = ups[0];
        assert(update_valid(prog, u));
        let rr = upd_relid(u);
        assert(a[rr] == b[rr]);
        let a1 = a.update(rr, bag_add(a[rr], upd_val(u), upd_weight(u)));
        let b1 = b.update(rr, bag_add(b[rr], upd_val(u), upd_weight(u)));
        let tail = ups.subrange(1, ups.len() as int);
        assert forall|t: int| 0 <= t < tail.len() implies update_valid(
            prog,
            #[trigger] tail[t],
        ) by {
            assert(tail[t] == ups[t + 1]);
        }
        if add_fits(a[rr], upd_val(u), upd_weight(u)) {
            lemma_upd_fold_agree(prog, a1, b1, tail);
        }
    }
}

/// Transactions compose: applying two batches in two transactions ends
/// in the same state as applying their concatenation in one, and the
/// combined report is the difference against the earliest state.  In
/// particular a sequence of transactions is equivalent to one batch.
pub proof fn law_batch_composition(
    prog: Program,
    obs: Seq<bool>,
    c: Seq<Seq<(Val, int)>>,
    u1: Seq<Update>,
    u2: Seq<Update>,
    c1: Seq<Seq<(Val, int)>>,
    d1: Seq<(int, Seq<(Val, int)>)>,
    c2: Seq<Seq<(Val, int)>>,
    d2: Seq<(int, Seq<(Val, int)>)>,
)
    requires
        prog_wf(prog),
        c.len() == nrels(prog),
        updates_valid(prog, u1),
        updates_valid(prog, u2),
        txn_eval(prog, obs, c, u1) == Some((c1, d1)),
        txn_eval(prog, obs, c1, u2) == Some((c2, d2)),
    ensures
        txn_eval(prog, obs, c, u1 + u2) == Some((c2, deltas_from(obs, c, c2, 0))),
{
    let ca = upd_fold(c, u1)->Some_0;
    assert(upd_fold(c, u1) == Some(ca));
    assert(rederive(prog, ca) == Some(c1));
    lemma_valid_all(prog, u1);
    lemma_valid_all(prog, u2);
    lemma_upd_fold_len(c, u1);
    lemma_derive_idempotent(prog, ca, c1);
    // fold the second batch over the first fold's result instead of the
    // derived state: the input relations agree
    let cb = upd_fold(c1, u2)->Some_0;
    assert(upd_fold(c1, u2) == Some(cb));
    lemma_upd_fold_agree(prog, c1, ca, u2);
    let cb2 = upd_fold(ca, u2)->Some_0;
    lemma_upd_fold_concat(c, u1, u2);
    assert(upd_fold(c, u1 + u2) == Some(cb2));
    // both fold results re-derive identically
    assert(reset_derived(prog, cb2) =~= reset_derived(prog, cb)) by {
        lemma_upd_fold_len(c1, u2);
        lemma_upd_fold_len(ca, u2);
        assert forall|i: int| 0 <= i < cb2.len() implies reset_derived(prog, cb2)[i]
            == reset_derived(prog, cb)[i] by {
            if i < nrels(prog) && prog.rels@[i].input {
                assert(cb[i] == cb2[i]);
            }
        }
    }
    assert(rederive(prog, cb2) == rederive(prog, cb));
    assert(rederive(prog, cb) == Some(c2));
}

proof fn lemma_valid_all(prog: Program, ups: Seq<Update>)
    requires
        first_invalid(prog, ups) is None,
    ensures
        forall|u: int| 0 <= u < ups.len() ==> update_valid(prog, #[trigger] ups[u]),
    decreases ups.len(),
{
    if ups.len() > 0 {
        lemma_valid_all(prog, ups.subrange(1, ups.len() as int));
        assert forall|u: int| 0 <= u < ups.len() implies update_valid(prog, #[trigger] ups[u]) by {
            if u > 0 {
                assert(ups[u] == ups.subrange(1, ups.len() as int)[u - 1]);
            }
        }
    }
}

proof fn lemma_upd_fold_len(c: Seq<Seq<(Val, int)>>, ups: Seq<Update>)
    requires
        upd_fold(c, ups) is Some,
    ensures
        upd_fold(c, ups)->Some_0.len() == c.len(),
    decreases ups.len(),
{
    if ups.len() > 0 {
        let rr = upd_relid(ups[0]);
        lemma_upd_fold_len(
            c.update(rr, bag_add(c[rr], upd_val(ups[0]), upd_weight(ups[0]))),
            ups.subrange(1, ups.len() as int),
        );
    }
}

/// A relation marked distinct always holds a set: every row of its
/// derived content carries weight exactly one.
pub proof fn law_distinct_is_set(prog: Program, c: Seq<Seq<(Val, int)>>, r: int)
    requires
        0 <= r < nrels(prog),
        prog.rels@[r].distinct,
        crate::program::relation_state(prog, c, r) is Some,
    ensures
        forall|j: int|
            0 <= j < crate::program::relation_state(prog, c, r)->Some_0.len() ==> (
            #[trigger] crate::program::relation_state(prog, c, r)->Some_0[j]).1 == 1,
{
    let u = crate::program::rules_fold(prog, c, prog.rels@[r].rules@, Seq::empty())->Some_0;
    lemma_coerce_unit(u);
}

/// The reported change of a relation that holds sets is itself made of
/// unit rows: comparing two states whose rows all carry weight one gives
/// a difference whose rows carry weight one or minus one.
pub proof fn law_set_delta_units(a: Seq<(Val, int)>, b: Seq<(Val, int)>)
    requires
        forall|i: int| 0 <= i < a.len() ==> (#[trigger] a[i]).1 == 1,
        forall|i: int| 0 <= i < b.len() ==> (#[trigger] b[i]).1 == 1,
    ensures
        forall|i: int|
            0 <= i < bag_diff(a, b).len() ==> (#[trigger] bag_diff(a, b)[i]).1 == 1 || bag_diff(
                a,
                b,
            )[i].1 == -1,
{
    crate::delta::lemma_diff_unit(a, b);
}

proof fn lemma_coerce_unit(s: Seq<(Val, int)>)
    ensures
        forall|j: int|
            0 <= j < coerce_distinct(s).len() ==> (#[trigger] coerce_distinct(s)[j]).1 == 1,
    decreases s.len(),
{
    if s.len() > 0 {
        let rest = coerce_distinct(s.subrange(1, s.len() as int));
        lemma_coerce_unit(s.subrange(1, s.len() as int));
        let cd = coerce_distinct(s);
        assert forall|j: int| 0 <= j < cd.len() implies (#[trigger] cd[j]).1 == 1 by {
            if s[0].1 > 0 {
                if j > 0 {
                    assert(cd[j] == rest[j - 1]);
                }
            } else {
                assert(cd[j] == rest[j]);
            }
        }
    }
}

} // verus!
