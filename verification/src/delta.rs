//! Per-transaction change reporting.
//!
//! A `Delta` records the net change of one relation across a transaction:
//! the signed difference between its new and old canonical contents.  A
//! `DeltaMap` collects the non-empty deltas of every observed relation and
//! is handed to the caller when the transaction commits.  Delta weights are
//! differences of two stored weights, so they are carried as 128-bit
//! integers and never overflow.

use vstd::prelude::*;

use crate::bag::{Bag, raw_rows_of};
use crate::value::{Cmp, Val, Value, cmp_val, lemma_cmp_val_eq, lemma_cmp_val_flip,
    lemma_cmp_val_refl, value_clone, value_cmp};

verus! {

/// Rows with every weight negated.
pub open spec fn neg_rows(s: Seq<(Val, int)>) -> Seq<(Val, int)> {
    Seq::new(s.len(), |i: int| (s[i].0, -s[i].1))
}

/// Signed difference of two canonical row sequences: the rows one would
/// add to `b` to obtain `a`, in ascending key order.
pub open spec fn bag_diff(a: Seq<(Val, int)>, b: Seq<(Val, int)>) -> Seq<(Val, int)>
    decreases a.len() + b.len(),
{
    if a.len() == 0 && b.len() == 0 {
        Seq::empty()
    } else if b.len() == 0 {
        a
    } else if a.len() == 0 {
        neg_rows(b)
    } else if cmp_val(a[0].0, b[0].0) == Cmp::Lt {
        seq![a[0]] + bag_diff(a.subrange(1, a.len() as int), b)
    } else if cmp_val(a[0].0, b[0].0) == Cmp::Gt {
        seq![(b[0].0, -b[0].1)] + bag_diff(a, b.subrange(1, b.len() as int))
    } else {
        let rest = bag_diff(a.subrange(1, a.len() as int), b.subrange(1, b.len() as int));
        if a[0].1 - b[0].1 == 0 {
            rest
        } else {
            seq![(a[0].0, a[0].1 - b[0].1)] + rest
        }
    }
}

/// A state compared against itself has changed nowhere.
pub proof fn lemma_diff_self(a: Seq<(Val, int)>)
    ensures
        bag_diff(a, a) == Seq::<(Val, int)>::empty(),
    decreases a.len(),
{
    if a.len() > 0 {
        lemma_cmp_val_refl(a[0].0);
        lemma_diff_self(a.subrange(1, a.len() as int));
    }
}

/// Swapping the states negates the difference.
pub proof fn lemma_diff_antisym(a: Seq<(Val, int)>, b: Seq<(Val, int)>)
    ensures
        bag_diff(b, a) == neg_rows(bag_diff(a, b)),
    decreases a.len() + b.len(),
{
    if a.len() == 0 && b.len() == 0 {
        assert(bag_diff(b, a) =~= neg_rows(bag_diff(a, b)));
    } else if b.len() == 0 {
        assert(bag_diff(b, a) =~= neg_rows(bag_diff(a, b)));
    } else if a.len() == 0 {
        assert(bag_diff(b, a) =~= neg_rows(bag_diff(a, b)));
    } else {
        lemma_cmp_val_flip(a[0].0, b[0].0);
        if cmp_val(a[0].0, b[0].0) == Cmp::Lt {
            lemma_diff_antisym(a.subrange(1, a.len() as int), b);
            assert(bag_diff(b, a) =~= neg_rows(bag_diff(a, b)));
        } else if cmp_val(a[0].0, b[0].0) == Cmp::Gt {
            lemma_diff_antisym(a, b.subrange(1, b.len() as int));
            assert(bag_diff(b, a) =~= neg_rows(bag_diff(a, b)));
        } else {
            lemma_cmp_val_eq(a[0].0, b[0].0);
            lemma_diff_antisym(a.subrange(1, a.len() as int), b.subrange(1, b.len() as int));
            assert(bag_diff(b, a) =~= neg_rows(bag_diff(a, b)));
        }
    }
}

/// If every weight on both sides is one, every difference row carries
/// weight one or minus one.
pub proof fn lemma_diff_unit(a: Seq<(Val, int)>, b: Seq<(Val, int)>)
    requires
        forall|i: int| 0 <= i < a.len() ==> (#[trigger] a[i]).1 == 1,
        forall|i: int| 0 <= i < b.len() ==> (#[trigger] b[i]).1 == 1,
    ensures
        forall|i: int|
            0 <= i < bag_diff(a, b).len() ==> (#[trigger] bag_diff(a, b)[i]).1 == 1 || bag_diff(
                a,
                b,
            )[i].1 == -1,
    decreases a.len() + b.len(),
{
    let r = bag_diff(a, b);
    if a.len() == 0 && b.len() == 0 {
    } else if b.len() == 0 {
        assert forall|i: int| 0 <= i < r.len() implies (#[trigger] r[i]).1 == 1 || r[i].1
            == -1 by {
            assert(r[i] == a[i]);
        }
    } else if a.len() == 0 {
        assert forall|i: int| 0 <= i < r.len() implies (#[trigger] r[i]).1 == 1 || r[i].1
            == -1 by {
            assert(r[i] == (b[i].0, -b[i].1));
        }
    } else if cmp_val(a[0].0, b[0].0) == Cmp::Lt {
        lemma_diff_unit(a.subrange(1, a.len() as int), b);
        assert forall|i: int| 0 <= i < r.len() implies (#[trigger] r[i]).1 == 1 || r[i].1
            == -1 by {
            if i > 0 {
                assert(r[i] == bag_diff(a.subrange(1, a.len() as int), b)[i - 1]);
            }
        }
    } else if cmp_val(a[0].0, b[0].0) == Cmp::Gt {
        lemma_diff_unit(a, b.subrange(1, b.len() as int));
        assert forall|i: int| 0 <= i < r.len() implies (#[trigger] r[i]).1 == 1 || r[i].1
            == -1 by {
            if i > 0 {
                assert(r[i] == bag_diff(a, b.subrange(1, b.len() as int))[i - 1]);
            }
        }
    } else {
        lemma_diff_unit(a.subrange(1, a.len() as int), b.subrange(1, b.len() as int));
        assert(r == bag_diff(a.subrange(1, a.len() as int), b.subrange(1, b.len() as int)));
    }
}

/// The net change of one relation across a transaction.
pub struct Delta {
    pub rows: Vec<(Value, i128)>,
}

impl View for Delta {
    type V = Seq<(Val, int)>;

    open spec fn view(&self) -> Seq<(Val, int)> {
        raw_rows_of(self.rows@)
    }
}

impl Delta {
    pub fn row_count(&self) -> (n: usize)
        ensures
            n == self@.len(),
    {
        self.rows.len()
    }
}

/// Difference of the suffixes of two stored row sequences.
fn diff_from(a: &Vec<(Value, i64)>, b: &Vec<(Value, i64)>, i: usize, j: usize) -> (r: Vec<
    (Value, i128),
>)
    requires
        i <= a.len(),
        j <= b.len(),
    ensures
        raw_rows_of(r@) == bag_diff(
            crate::bag::rows_of(a@).subrange(i as int, a@.len() as int),
            crate::bag::rows_of(b@).subrange(j as int, b@.len() as int),
        ),
    decreases a.len() - i + b.len() - j,
{
    let ghost sa = crate::bag::rows_of(a@).subrange(i as int, a@.len() as int);
    let ghost sb = crate::bag::rows_of(b@).subrange(j as int, b@.len() as int);
    proof {
        if i < a.len() {
            assert(sa[0] == (a@[i as int].0@, a@[i as int].1 as int));
            assert(sa.subrange(1, sa.len() as int) =~= crate::bag::rows_of(a@).subrange(
                i + 1,
                a@.len() as int,
            ));
        }
        if j < b.len() {
            assert(sb[0] == (b@[j as int].0@, b@[j as int].1 as int));
            assert(sb.subrange(1, sb.len() as int) =~= crate::bag::rows_of(b@).subrange(
                j + 1,
                b@.len() as int,
            ));
        }
    }
    if i == a.len() && j == b.len() {
        let r: Vec<(Value, i128)> = Vec::new();
        proof {
            assert(raw_rows_of(r@) =~= bag_diff(sa, sb));
        }
        r
    } else if j == b.len() {
        let mut rest = diff_from(a, b, i + 1, j);
        let ghost rest0 = rest@;
        let mut r: Vec<(Value, i128)> = Vec::new();
        r.push((value_clone(&a[i].0), a[i].1 as i128));
        r.append(&mut rest);
        proof {
            assert(r@ =~= seq![(r@[0].0, r@[0].1)] + rest0);
            assert(raw_rows_of(rest0).len() == rest0.len());
            assert(raw_rows_of(r@) =~= seq![sa[0]] + raw_rows_of(rest0));
            assert(bag_diff(sa, sb) =~= seq![sa[0]] + bag_diff(
                sa.subrange(1, sa.len() as int),
                sb,
            ));
            assert(raw_rows_of(r@) =~= bag_diff(sa, sb));
        }
        r
    } else if i == a.len() {
        let mut rest = diff_from(a, b, i, j + 1);
        let ghost rest0 = rest@;
        let mut r: Vec<(Value, i128)> = Vec::new();
        let nw = -(b[j].1 as i128);
        r.push((value_clone(&b[j].0), nw));
        r.append(&mut rest);
        proof {
            assert(raw_rows_of(rest0).len() == rest0.len());
            assert(raw_rows_of(r@) =~= seq![(sb[0].0, -sb[0].1)] + raw_rows_of(rest0));
            assert(bag_diff(sa, sb.subrange(1, sb.len() as int)) =~= neg_rows(
                sb.subrange(1, sb.len() as int),
            ));
            assert(bag_diff(sa, sb) =~= seq![(sb[0].0, -sb[0].1)] + bag_diff(
                sa,
                sb.subrange(1, sb.len() as int),
            ));
            assert(raw_rows_of(r@) =~= bag_diff(sa, sb));
        }
        r
    } else {
        let c = value_cmp(&a[i].0, &b[j].0);
        if c == Cmp::Lt {
            let mut rest = diff_from(a, b, i + 1, j);
            let ghost rest0 = rest@;
            let mut r: Vec<(Value, i128)> = Vec::new();
            r.push((value_clone(&a[i].0), a[i].1 as i128));
            r.append(&mut rest);
            proof {
                assert(raw_rows_of(rest0).len() == rest0.len());
                assert(raw_rows_of(r@) =~= seq![sa[0]] + raw_rows_of(rest0));
                assert(raw_rows_of(r@) =~= bag_diff(sa, sb));
            }
            r
        } else if c == Cmp::Gt {
            let mut rest = diff_from(a, b, i, j + 1);
            let ghost rest0 = rest@;
            let mut r: Vec<(Value, i128)> = Vec::new();
            let nw = -(b[j].1 as i128);
            r.push((value_clone(&b[j].0), nw));
            r.append(&mut rest);
            proof {
                assert(raw_rows_of(rest0).len() == rest0.len());
                assert(raw_rows_of(r@) =~= seq![(sb[0].0, -sb[0].1)] + raw_rows_of(rest0));
                assert(raw_rows_of(r@) =~= bag_diff(sa, sb));
            }
            r
        } else {
            let d = a[i].1 as i128 - b[j].1 as i128;
            let mut rest = diff_from(a, b, i + 1, j + 1);
            if d == 0 {
                rest
            } else {
                let ghost rest0 = rest@;
                let mut r: Vec<(Value, i128)> = Vec::new();
                r.push((value_clone(&a[i].0), d));
                r.append(&mut rest);
                proof {
                    assert(raw_rows_of(rest0).len() == rest0.len());
                    assert(raw_rows_of(r@) =~= seq![(sa[0].0, sa[0].1 - sb[0].1)] + raw_rows_of(
                        rest0,
                    ));
                    assert(raw_rows_of(r@) =~= bag_diff(sa, sb));
                }
                r
            }
        }
    }
}

/// The signed difference between a new and an old relation state.
pub fn delta_between(new_state: &Bag, old_state: &Bag) -> (r: Delta)
    ensures
        r@ == bag_diff(new_state@, old_state@),
{
    let rows = diff_from(&new_state.entries, &old_state.entries, 0, 0);
    proof {
        assert(crate::bag::rows_of(new_state.entries@).subrange(
            0,
            new_state.entries@.len() as int,
        ) =~= new_state@);
        assert(crate::bag::rows_of(old_state.entries@).subrange(
            0,
            old_state.entries@.len() as int,
        ) =~= old_state@);
    }
    Delta { rows }
}

/// Lookup in an ascending association of relation deltas.
pub open spec fn dm_find(s: Seq<(int, Seq<(Val, int)>)>, rid: int) -> Option<Seq<(Val, int)>>
    decreases s.len(),
{
    if s.len() == 0 {
        None
    } else if s[0].0 == rid {
        Some(s[0].1)
    } else {
        dm_find(s.subrange(1, s.len() as int), rid)
    }
}

/// The per-transaction report: each observed relation with a non-empty
/// change, keyed by relation id.
pub struct DeltaMap {
    pub entries: Vec<(usize, Delta)>,
}

impl View for DeltaMap {
    type V = Seq<(int, Seq<(Val, int)>)>;

    open spec fn view(&self) -> Seq<(int, Seq<(Val, int)>)> {
        Seq::new(self.entries@.len(), |i: int| (self.entries@[i].0 as int, self.entries@[i].1@))
    }
}

impl DeltaMap {
    pub fn new() -> (r: DeltaMap)
        ensures
            r@ == Seq::<(int, Seq<(Val, int)>)>::empty(),
    {
        let r = DeltaMap { entries: Vec::new() };
        proof {
            assert(r@ =~= Seq::<(int, Seq<(Val, int)>)>::empty());
        }
        r
    }

    pub fn rel_count(&self) -> (n: usize)
        ensures
            n == self@.len(),
    {
        self.entries.len()
    }

    /// The recorded change of one relation, if it changed at all.
    pub fn try_get_rel(&self, relid: usize) -> (r: Option<&Delta>)
        ensures
            match r {
                Some(d) => dm_find(self@, relid as int) == Some(d@),
                None => dm_find(self@, relid as int) is None,
            },
    {
        proof {
            assert(self@.subrange(0, self@.len() as int) =~= self@);
        }
        let mut i: usize = 0;
        while i < self.entries.len()
            invariant
                i <= self.entries.len(),
                dm_find(self@, relid as int) == dm_find(
                    self@.subrange(i as int, self@.len() as int),
                    relid as int,
                ),
            decreases self.entries.len() - i,
        {
            let ghost tail = self@.subrange(i as int, self@.len() as int);
            proof {
                assert(tail[0] == self@[i as int]);
                assert(tail.subrange(1, tail.len() as int) =~= self@.subrange(
                    i + 1,
                    self@.len() as int,
                ));
            }
            if self.entries[i].0 == relid {
                return Some(&self.entries[i].1);
            }
            i = i + 1;
        }
        proof {
            assert(self@.subrange(self@.len() as int, self@.len() as int) =~= Seq::<
                (int, Seq<(Val, int)>),
            >::empty());
        }
        None
    }
}

/// One outward command derived from a delta row: an insertion or a
/// deletion of a value.
pub enum DeltaCommand {
    Insert(Value),
    Delete(Value),
}

/// Render a delta whose rows all carry weight one or minus one as a list
/// of insert and delete commands, in delta order; `None` when some row
/// carries another weight.
pub fn delta_commands(d: &Delta) -> (r: Option<Vec<DeltaCommand>>)
    ensures
        match r {
            Some(cmds) => {
                &&& cmds@.len() == d@.len()
                &&& forall|i: int|
                    0 <= i < d@.len() ==> ((#[trigger] d@[i]).1 == 1 || d@[i].1 == -1)
                &&& forall|i: int|
                    0 <= i < d@.len() ==> ((#[trigger] cmds@[i]) matches DeltaCommand::Insert(v)
                        ==> d@[i].1 == 1 && v@ == d@[i].0)
                &&& forall|i: int|
                    0 <= i < d@.len() ==> ((#[trigger] cmds@[i]) matches DeltaCommand::Delete(v)
                        ==> d@[i].1 == -1 && v@ == d@[i].0)
            },
            None => exists|i: int| 0 <= i < d@.len() && (#[trigger] d@[i]).1 != 1 && d@[i].1 != -1,
        },
{
    let mut out: Vec<DeltaCommand> = Vec::new();
    let mut i: usize = 0;
    while i < d.rows.len()
        invariant
            i <= d.rows.len(),
            out@.len() == i,
            forall|k: int| 0 <= k < i ==> ((#[trigger] d@[k]).1 == 1 || d@[k].1 == -1),
            forall|k: int|
                0 <= k < i ==> ((#[trigger] out@[k]) matches DeltaCommand::Insert(v) ==> d@[k].1
                    == 1 && v@ == d@[k].0),
            forall|k: int|
                0 <= k < i ==> ((#[trigger] out@[k]) matches DeltaCommand::Delete(v) ==> d@[k].1
                    == -1 && v@ == d@[k].0),
        decreases d.rows.len() - i,
    {
        let w = d.rows[i].1;
        if w == 1 {
            out.push(DeltaCommand::Insert(value_clone(&d.rows[i].0)));
        } else if w == -1 {
            out.push(DeltaCommand::Delete(value_clone(&d.rows[i].0)));
        } else {
            proof {
                assert(d@[i as int].1 == w as int);
            }
            return None;
        }
        i = i + 1;
    }
    Some(out)
}

} // verus!
