//! Weighted multisets: the materialized content of a relation.
//!
//! A `Bag` holds rows as `(value, weight)` pairs in a canonical form: keys
//! strictly ascending in the structural value order, every weight non-zero
//! and within the signed 64-bit range.  Two bags hold the same multiset
//! exactly when their row sequences are equal, so multiset equality is plain
//! sequence equality of the models.
//!
//! Transient streams produced by rule stages carry 128-bit weights (a join
//! multiplies two stored weights); folding a stream into a bag checks that
//! every net weight stays within the stored range.

use vstd::prelude::*;

use crate::value::{Cmp, Val, Value, cmp_val, lemma_cmp_val_eq, lemma_cmp_val_flip,
    lemma_cmp_val_refl, lemma_cmp_val_trans, value_clone, value_cmp, value_eq};

verus! {

/// Model of a stored row sequence.
pub open spec fn rows_of(s: Seq<(Value, i64)>) -> Seq<(Val, int)> {
    Seq::new(s.len(), |i: int| (s[i].0@, s[i].1 as int))
}

/// Model of a transient row stream.
pub open spec fn raw_rows_of(s: Seq<(Value, i128)>) -> Seq<(Val, int)> {
    Seq::new(s.len(), |i: int| (s[i].0@, s[i].1 as int))
}

pub open spec fn i64_fits(w: int) -> bool {
    -0x8000_0000_0000_0000 <= w < 0x8000_0000_0000_0000
}

/// Bound on the weight of a transient row: the product of two stored
/// weights in magnitude.
pub open spec fn raw_fits(w: int) -> bool {
    -0x4000_0000_0000_0000_0000_0000_0000_0000 <= w
        <= 0x4000_0000_0000_0000_0000_0000_0000_0000
}

pub open spec fn rows_bounded(rows: Seq<(Val, int)>) -> bool {
    forall|i: int| 0 <= i < rows.len() ==> raw_fits((#[trigger] rows[i]).1)
}

/// Canonical form: strictly ascending keys, non-zero stored weights.
pub open spec fn bag_wf(s: Seq<(Val, int)>) -> bool {
    &&& forall|i: int|
        0 <= i < s.len() ==> (#[trigger] s[i]).1 != 0 && i64_fits(s[i].1)
    &&& forall|i: int, j: int|
        0 <= i < j < s.len() ==> cmp_val(#[trigger] s[i].0, #[trigger] s[j].0) == Cmp::Lt
}

/// Net weight of a value in a row sequence (0 when absent).
pub open spec fn weight_of(s: Seq<(Val, int)>, v: Val) -> int
    decreases s.len(),
{
    if s.len() == 0 {
        0
    } else if s[0].0 == v {
        s[0].1
    } else {
        weight_of(s.subrange(1, s.len() as int), v)
    }
}

pub open spec fn key_in(s: Seq<(Val, int)>, k: Val) -> bool {
    exists|i: int| 0 <= i < s.len() && s[i].0 == k
}

/// Add `w` copies of `v` to a canonical row sequence, keeping it canonical
/// (a net weight of zero removes the row).
pub open spec fn bag_add(s: Seq<(Val, int)>, v: Val, w: int) -> Seq<(Val, int)>
    decreases s.len(),
{
    if s.len() == 0 {
        if w == 0 {
            s
        } else {
            seq![(v, w)]
        }
    } else if cmp_val(v, s[0].0) == Cmp::Lt {
        if w == 0 {
            s
        } else {
            seq![(v, w)] + s
        }
    } else if cmp_val(v, s[0].0) == Cmp::Eq {
        if s[0].1 + w == 0 {
            s.subrange(1, s.len() as int)
        } else {
            seq![(s[0].0, s[0].1 + w)] + s.subrange(1, s.len() as int)
        }
    } else {
        seq![s[0]] + bag_add(s.subrange(1, s.len() as int), v, w)
    }
}

/// The add stays within the stored weight range.
pub open spec fn add_fits(s: Seq<(Val, int)>, v: Val, w: int) -> bool {
    i64_fits(weight_of(s, v) + w)
}

/// Fold a row stream into a canonical row sequence, front to back.
pub open spec fn bag_from(s: Seq<(Val, int)>, rows: Seq<(Val, int)>) -> Seq<(Val, int)>
    decreases rows.len(),
{
    if rows.len() == 0 {
        s
    } else {
        bag_from(bag_add(s, rows[0].0, rows[0].1), rows.subrange(1, rows.len() as int))
    }
}

/// Every intermediate net weight of the fold stays within the stored range.
pub open spec fn from_fits(s: Seq<(Val, int)>, rows: Seq<(Val, int)>) -> bool
    decreases rows.len(),
{
    if rows.len() == 0 {
        true
    } else {
        add_fits(s, rows[0].0, rows[0].1) && from_fits(
            bag_add(s, rows[0].0, rows[0].1),
            rows.subrange(1, rows.len() as int),
        )
    }
}

/// Set semantics: keep each positively weighted row once, drop the rest.
pub open spec fn coerce_distinct(s: Seq<(Val, int)>) -> Seq<(Val, int)>
    decreases s.len(),
{
    if s.len() == 0 {
        s
    } else {
        let rest = coerce_distinct(s.subrange(1, s.len() as int));
        if s[0].1 > 0 {
            seq![(s[0].0, 1int)] + rest
        } else {
            rest
        }
    }
}

pub proof fn lemma_weight_absent(s: Seq<(Val, int)>, v: Val)
    requires
        forall|j: int| 0 <= j < s.len() ==> (#[trigger] s[j]).0 != v,
    ensures
        weight_of(s, v) == 0,
    decreases s.len(),
{
    if s.len() > 0 {
        lemma_weight_absent(s.subrange(1, s.len() as int), v);
    }
}

/// A value strictly below the first key of a canonical sequence is absent.
pub proof fn lemma_weight_below(s: Seq<(Val, int)>, v: Val)
    requires
        bag_wf(s),
        s.len() > 0,
        cmp_val(v, s[0].0) == Cmp::Lt,
    ensures
        weight_of(s, v) == 0,
{
    assert forall|j: int| 0 <= j < s.len() implies (#[trigger] s[j]).0 != v by {
        if s[j].0 == v {
            if j == 0 {
                lemma_cmp_val_refl(v);
            } else {
                lemma_cmp_val_trans(v, s[0].0, s[j].0);
                lemma_cmp_val_refl(v);
            }
        }
    }
    lemma_weight_absent(s, v);
}

/// Adding keeps the sequence canonical, and introduces no key but `v`.
pub proof fn lemma_bag_add_wf(s: Seq<(Val, int)>, v: Val, w: int)
    requires
        bag_wf(s),
        add_fits(s, v, w),
    ensures
        bag_wf(bag_add(s, v, w)),
        forall|j: int|
            0 <= j < bag_add(s, v, w).len() ==> (#[trigger] bag_add(s, v, w)[j]).0 == v || key_in(
                s,
                bag_add(s, v, w)[j].0,
            ),
    decreases s.len(),
{
    let r = bag_add(s, v, w);
    if s.len() == 0 {
    } else {
        let rest = s.subrange(1, s.len() as int);
        assert(bag_wf(rest));
        if cmp_val(v, s[0].0) == Cmp::Lt {
            lemma_weight_below(s, v);
            if w != 0 {
                assert forall|i: int, j: int| 0 <= i < j < r.len() implies cmp_val(
                    #[trigger] r[i].0,
                    #[trigger] r[j].0,
                ) == Cmp::Lt by {
                    if i == 0 && j > 1 {
                        lemma_cmp_val_trans(v, s[0].0, s[j - 1].0);
                    }
                }
                assert forall|j: int| 0 <= j < r.len() implies (#[trigger] r[j]).0 == v || key_in(
                    s,
                    r[j].0,
                ) by {
                    if j > 0 {
                        assert(r[j] == s[j - 1]);
                    }
                }
            } else {
                assert forall|j: int| 0 <= j < r.len() implies (#[trigger] r[j]).0 == v || key_in(
                    s,
                    r[j].0,
                ) by {
                    assert(r[j] == s[j]);
                }
            }
        } else if cmp_val(v, s[0].0) == Cmp::Eq {
            lemma_cmp_val_eq(v, s[0].0);
            assert(weight_of(s, v) == s[0].1);
            if s[0].1 + w == 0 {
                assert forall|j: int| 0 <= j < r.len() implies (#[trigger] r[j]).0 == v || key_in(
                    s,
                    r[j].0,
                ) by {
                    assert(r[j] == s[j + 1]);
                }
            } else {
                assert forall|j: int| 0 <= j < r.len() implies (#[trigger] r[j]).0 == v || key_in(
                    s,
                    r[j].0,
                ) by {
                    if j > 0 {
                        assert(r[j] == s[j]);
                    }
                }
            }
        } else {
            assert(weight_of(s, v) == weight_of(rest, v)) by {
                if s[0].0 == v {
                    lemma_cmp_val_refl(v);
                }
            }
            lemma_bag_add_wf(rest, v, w);
            let t = bag_add(rest, v, w);
            lemma_cmp_val_flip(v, s[0].0);
            assert forall|i: int, j: int| 0 <= i < j < r.len() implies cmp_val(
                #[trigger] r[i].0,
                #[trigger] r[j].0,
            ) == Cmp::Lt by {
                if i == 0 {
                    assert(r[j] == t[j - 1]);
                    if t[j - 1].0 == v {
                        assert(cmp_val(s[0].0, v) == Cmp::Lt);
                    } else {
                        let k = choose|k: int| 0 <= k < rest.len() && rest[k].0 == t[j - 1].0;
                        assert(rest[k] == s[k + 1]);
                    }
                } else {
                    assert(r[i] == t[i - 1] && r[j] == t[j - 1]);
                }
            }
            assert forall|j: int| 0 <= j < r.len() implies (#[trigger] r[j]).0 == v || key_in(
                s,
                r[j].0,
            ) by {
                if j == 0 {
                    assert(s[0].0 == r[0].0);
                } else {
                    assert(r[j] == t[j - 1]);
                    if t[j - 1].0 != v {
                        let k = choose|k: int| 0 <= k < rest.len() && rest[k].0 == t[j - 1].0;
                        assert(s[k + 1].0 == r[j].0);
                    }
                }
            }
        }
    }
}

/// Adding `w` copies of `v` changes exactly the net weight of `v`.
pub proof fn lemma_bag_add_weight(s: Seq<(Val, int)>, v: Val, w: int, u: Val)
    requires
        bag_wf(s),
    ensures
        weight_of(bag_add(s, v, w), u) == weight_of(s, u) + (if u == v {
            w
        } else {
            0int
        }),
    decreases s.len(),
{
    reveal_with_fuel(weight_of, 3);
    let r = bag_add(s, v, w);
    let ghost goal = weight_of(s, u) + (if u == v { w } else { 0int });
    if s.len() == 0 {
        if w != 0 && u != v {
            assert(r.subrange(1, 1) =~= Seq::<(Val, int)>::empty());
        }
        assert(weight_of(r, u) == goal);
    } else {
        let rest = s.subrange(1, s.len() as int);
        assert(bag_wf(rest));
        if cmp_val(v, s[0].0) == Cmp::Lt {
            if w == 0 {
            } else {
                assert(r.subrange(1, r.len() as int) =~= s);
                if u == v {
                    lemma_weight_below(s, v);
                } else {
                    assert(r[0].0 != u);
                }
            }
            assert(weight_of(r, u) == goal);
        } else if cmp_val(v, s[0].0) == Cmp::Eq {
            lemma_cmp_val_eq(v, s[0].0);
            if s[0].1 + w == 0 {
                if u == v {
                    if rest.len() > 0 {
                        assert(rest[0] == s[1]);
                        assert(cmp_val(s[0].0, s[1].0) == Cmp::Lt);
                        lemma_weight_below(rest, v);
                    }
                }
            } else {
                assert(r.subrange(1, r.len() as int) =~= rest);
                if u == v {
                } else {
                    assert(r[0].0 != u);
                }
            }
        } else {
            lemma_bag_add_weight(rest, v, w, u);
            assert(r.subrange(1, r.len() as int) =~= bag_add(rest, v, w));
            if s[0].0 == v {
                lemma_cmp_val_refl(v);
            }
            assert(weight_of(s, u) == (if s[0].0 == u { s[0].1 } else { weight_of(rest, u) }));
            assert(r[0] == s[0]);
            assert(weight_of(r, u) == (if s[0].0 == u { s[0].1 } else { weight_of(bag_add(rest, v, w), u) }));
        }
    }
}

/// Adding and then removing the same rows restores a canonical sequence.
pub proof fn lemma_bag_add_cancel(s: Seq<(Val, int)>, v: Val, w: int)
    requires
        bag_wf(s),
    ensures
        bag_add(bag_add(s, v, w), v, -w) == s,
    decreases s.len(),
{
    let r = bag_add(s, v, w);
    lemma_cmp_val_refl(v);
    if s.len() == 0 {
        if w != 0 {
            assert(bag_add(r, v, -w) =~= s);
        }
    } else {
        let rest = s.subrange(1, s.len() as int);
        assert(bag_wf(rest));
        if cmp_val(v, s[0].0) == Cmp::Lt {
            if w == 0 {
            } else {
                assert(r[0] == (v, w));
                assert(r.subrange(1, r.len() as int) =~= s);
                assert(bag_add(r, v, -w) =~= s);
            }
        } else if cmp_val(v, s[0].0) == Cmp::Eq {
            lemma_cmp_val_eq(v, s[0].0);
            if s[0].1 + w == 0 {
                // the row was removed; re-adding `-w` restores it in front
                if rest.len() > 0 {
                    assert(cmp_val(s[0].0, rest[0].0) == Cmp::Lt);
                }
                assert(bag_add(rest, v, -w) =~= s);
            } else {
                assert(r[0] == (s[0].0, s[0].1 + w));
                assert(r.subrange(1, r.len() as int) =~= rest);
                assert(bag_add(r, v, -w) =~= s);
            }
        } else {
            lemma_bag_add_cancel(rest, v, w);
            assert(r[0] == s[0]);
            assert(r.subrange(1, r.len() as int) =~= bag_add(rest, v, w));
            assert(bag_add(r, v, -w) =~= seq![s[0]] + bag_add(bag_add(rest, v, w), v, -w));
            assert(bag_add(r, v, -w) =~= s);
        }
    }
}

/// Folding a concatenation is folding the parts in turn.
pub proof fn lemma_bag_from_concat(s: Seq<(Val, int)>, r1: Seq<(Val, int)>, r2: Seq<(Val, int)>)
    ensures
        bag_from(s, r1 + r2) == bag_from(bag_from(s, r1), r2),
        from_fits(s, r1 + r2) == (from_fits(s, r1) && from_fits(bag_from(s, r1), r2)),
    decreases r1.len(),
{
    if r1.len() == 0 {
        assert(r1 + r2 =~= r2);
    } else {
        let s2 = bag_add(s, r1[0].0, r1[0].1);
        assert((r1 + r2)[0] == r1[0]);
        assert((r1 + r2).subrange(1, (r1 + r2).len() as int) =~= r1.subrange(
            1,
            r1.len() as int,
        ) + r2);
        lemma_bag_from_concat(s2, r1.subrange(1, r1.len() as int), r2);
    }
}

pub proof fn lemma_bag_from_snoc(s: Seq<(Val, int)>, rows: Seq<(Val, int)>, v: Val, w: int)
    ensures
        bag_from(s, rows.push((v, w))) == bag_add(bag_from(s, rows), v, w),
        from_fits(s, rows.push((v, w))) == (from_fits(s, rows) && add_fits(
            bag_from(s, rows),
            v,
            w,
        )),
{
    let one = seq![(v, w)];
    assert(rows.push((v, w)) =~= rows + one);
    lemma_bag_from_concat(s, rows, one);
    let b = bag_from(s, rows);
    assert(one[0] == (v, w));
    assert(one.subrange(1, 1) =~= Seq::<(Val, int)>::empty());
    assert(bag_from(b, one) == bag_from(bag_add(b, v, w), one.subrange(1, 1)));
    assert(bag_from(bag_add(b, v, w), Seq::<(Val, int)>::empty()) == bag_add(b, v, w));
    assert(from_fits(b, one) == (add_fits(b, v, w) && from_fits(
        bag_add(b, v, w),
        one.subrange(1, 1),
    )));
    assert(from_fits(bag_add(b, v, w), Seq::<(Val, int)>::empty()));
}

/// Set coercion keeps canonical form and gives every row weight one.
pub proof fn lemma_coerce_wf(s: Seq<(Val, int)>)
    requires
        bag_wf(s),
    ensures
        bag_wf(coerce_distinct(s)),
        forall|j: int|
            0 <= j < coerce_distinct(s).len() ==> (#[trigger] coerce_distinct(s)[j]).1 == 1
                && key_in(s, coerce_distinct(s)[j].0),
    decreases s.len(),
{
    let r = coerce_distinct(s);
    if s.len() > 0 {
        let rest = s.subrange(1, s.len() as int);
        assert(bag_wf(rest));
        lemma_coerce_wf(rest);
        let t = coerce_distinct(rest);
        assert forall|j: int| 0 <= j < r.len() implies (#[trigger] r[j]).1 == 1 && key_in(
            s,
            r[j].0,
        ) by {
            if s[0].1 > 0 {
                if j > 0 {
                    assert(r[j] == t[j - 1]);
                    let k = choose|k: int| 0 <= k < rest.len() && rest[k].0 == t[j - 1].0;
                    assert(s[k + 1].0 == r[j].0);
                } else {
                    assert(s[0].0 == r[0].0);
                }
            } else {
                assert(r[j] == t[j]);
                let k = choose|k: int| 0 <= k < rest.len() && rest[k].0 == t[j].0;
                assert(s[k + 1].0 == r[j].0);
            }
        }
        assert forall|i: int, j: int| 0 <= i < j < r.len() implies cmp_val(
            #[trigger] r[i].0,
            #[trigger] r[j].0,
        ) == Cmp::Lt by {
            if s[0].1 > 0 {
                if i == 0 {
                    assert(r[j] == t[j - 1]);
                    let k = choose|k: int| 0 <= k < rest.len() && rest[k].0 == t[j - 1].0;
                    assert(rest[k] == s[k + 1]);
                } else {
                    assert(r[i] == t[i - 1] && r[j] == t[j - 1]);
                }
            } else {
                assert(r[i] == t[i] && r[j] == t[j]);
            }
        }
    }
}

/// A relation's materialized content: a canonical weighted multiset.
pub struct Bag {
    pub entries: Vec<(Value, i64)>,
}

impl View for Bag {
    type V = Seq<(Val, int)>;

    open spec fn view(&self) -> Seq<(Val, int)> {
        rows_of(self.entries@)
    }
}

impl Bag {
    pub open spec fn wf(&self) -> bool {
        bag_wf(self@)
    }

    /// The empty multiset.
    pub fn new() -> (r: Bag)
        ensures
            r@ == Seq::<(Val, int)>::empty(),
            r.wf(),
    {
        let r = Bag { entries: Vec::new() };
        proof {
            assert(r@ =~= Seq::<(Val, int)>::empty());
        }
        r
    }

    pub fn row_count(&self) -> (n: usize)
        ensures
            n == self@.len(),
    {
        self.entries.len()
    }
}

/// Copy the rows of a stored sequence from index `i` on.
fn rows_clone_from(entries: &Vec<(Value, i64)>, i: usize) -> (r: Vec<(Value, i64)>)
    requires
        i <= entries.len(),
    ensures
        rows_of(r@) == rows_of(entries@).subrange(i as int, entries@.len() as int),
    decreases entries.len() - i,
{
    if i == entries.len() {
        let r: Vec<(Value, i64)> = Vec::new();
        proof {
            assert(rows_of(r@) =~= rows_of(entries@).subrange(i as int, entries@.len() as int));
        }
        r
    } else {
        let v = value_clone(&entries[i].0);
        let w = entries[i].1;
        let mut rest = rows_clone_from(entries, i + 1);
        let ghost rest0 = rest@;
        let mut r: Vec<(Value, i64)> = Vec::new();
        r.push((v, w));
        r.append(&mut rest);
        proof {
            assert(r@ =~= seq![(v, w)] + rest0);
            assert(rows_of(rest0).len() == rest0.len());
            assert(rows_of(r@).len() == rows_of(entries@).subrange(
                i as int,
                entries@.len() as int,
            ).len());
            assert(rows_of(r@)[0] == (v@, w as int));
            assert(v@ == entries@[i as int].0@);
            assert forall|k: int| 0 <= k < r@.len() implies rows_of(r@)[k] == rows_of(
                entries@,
            ).subrange(i as int, entries@.len() as int)[k] by {
                if k > 0 {
                    assert(r@[k] == rest0[k - 1]);
                    assert(rows_of(rest0)[k - 1] == (rest0[k - 1].0@, rest0[k - 1].1 as int));
                }
            }
            assert(rows_of(r@) =~= rows_of(entries@).subrange(i as int, entries@.len() as int));
        }
        r
    }
}

/// Deep copy of a bag.
pub fn bag_clone(b: &Bag) -> (r: Bag)
    ensures
        r@ == b@,
{
    let rows = rows_clone_from(&b.entries, 0);
    proof {
        assert(rows_of(b.entries@).subrange(0, b.entries@.len() as int) =~= b@);
    }
    Bag { entries: rows }
}

/// Add `w` copies of `v` to the suffix of a canonical row sequence starting
/// at `i`; `None` when the net weight of `v` would leave the stored range.
fn bag_add_from(entries: &Vec<(Value, i64)>, i: usize, v: &Value, w: i128) -> (r: Option<
    Vec<(Value, i64)>,
>)
    requires
        i <= entries.len(),
        bag_wf(rows_of(entries@).subrange(i as int, entries@.len() as int)),
        raw_fits(w as int),
    ensures
        ({
            let suffix = rows_of(entries@).subrange(i as int, entries@.len() as int);
            match r {
                Some(out) => add_fits(suffix, v@, w as int) && rows_of(out@) == bag_add(
                    suffix,
                    v@,
                    w as int,
                ),
                None => !add_fits(suffix, v@, w as int),
            }
        }),
    decreases entries.len() - i,
{
    let ghost suffix = rows_of(entries@).subrange(i as int, entries@.len() as int);
    proof {
        reveal_with_fuel(weight_of, 2);
    }
    if i == entries.len() {
        if w == 0 {
            let out: Vec<(Value, i64)> = Vec::new();
            proof {
                assert(rows_of(out@) =~= bag_add(suffix, v@, w as int));
            }
            Some(out)
        } else if -0x8000_0000_0000_0000i128 <= w && w <= 0x7fff_ffff_ffff_ffffi128 {
            let mut out: Vec<(Value, i64)> = Vec::new();
            out.push((value_clone(v), w as i64));
            proof {
                assert(rows_of(out@) =~= bag_add(suffix, v@, w as int));
            }
            Some(out)
        } else {
            None
        }
    } else {
        proof {
            assert(suffix[0] == (entries@[i as int].0@, entries@[i as int].1 as int));
        }
        let c = value_cmp(v, &entries[i].0);
        if c == Cmp::Lt {
            proof {
                lemma_weight_below(suffix, v@);
            }
            if w == 0 {
                Some(rows_clone_from(entries, i))
            } else if -0x8000_0000_0000_0000i128 <= w && w <= 0x7fff_ffff_ffff_ffffi128 {
                let mut rest = rows_clone_from(entries, i);
                let mut out: Vec<(Value, i64)> = Vec::new();
                out.push((value_clone(v), w as i64));
                out.append(&mut rest);
                proof {
                    assert(rows_of(out@) =~= bag_add(suffix, v@, w as int));
                }
                Some(out)
            } else {
                None
            }
        } else if c == Cmp::Eq {
            proof {
                lemma_cmp_val_eq(v@, suffix[0].0);
            }
            let nw = entries[i].1 as i128 + w;
            if nw == 0 {
                let out = rows_clone_from(entries, i + 1);
                proof {
                    assert(rows_of(out@) =~= bag_add(suffix, v@, w as int));
                }
                Some(out)
            } else if -0x8000_0000_0000_0000i128 <= nw && nw <= 0x7fff_ffff_ffff_ffffi128 {
                let key = value_clone(&entries[i].0);
                let mut rest = rows_clone_from(entries, i + 1);
                let ghost rest0 = rest@;
                let mut out: Vec<(Value, i64)> = Vec::new();
                out.push((key, nw as i64));
                out.append(&mut rest);
                proof {
                    assert(out@ =~= seq![(key, nw as i64)] + rest0);
                    assert(rows_of(rest0).len() == rest0.len());
                    assert(rows_of(rest0) == suffix.subrange(1, suffix.len() as int));
                    assert(rows_of(out@)[0] == (key@, nw as int));
                    assert(bag_add(suffix, v@, w as int) == seq![(suffix[0].0, suffix[0].1 + w)]
                        + suffix.subrange(1, suffix.len() as int));
                    assert forall|k: int| 0 <= k < out@.len() implies rows_of(out@)[k] == bag_add(
                        suffix,
                        v@,
                        w as int,
                    )[k] by {
                        if k > 0 {
                            assert(out@[k] == rest0[k - 1]);
                            assert(rows_of(rest0)[k - 1] == (rest0[k - 1].0@, rest0[k - 1].1 as int));
                        }
                    }
                    assert(rows_of(out@) =~= bag_add(suffix, v@, w as int));
                }
                Some(out)
            } else {
                None
            }
        } else {
            let ghost suffix1 = rows_of(entries@).subrange(i + 1, entries@.len() as int);
            proof {
                assert(suffix1 =~= suffix.subrange(1, suffix.len() as int));
                assert(bag_wf(suffix1));
                if suffix[0].0 == v@ {
                    lemma_cmp_val_refl(v@);
                }
            }
            match bag_add_from(entries, i + 1, v, w) {
                None => None,
                Some(mut tail) => {
                    let mut out: Vec<(Value, i64)> = Vec::new();
                    out.push((value_clone(&entries[i].0), entries[i].1));
                    out.append(&mut tail);
                    proof {
                        assert(rows_of(out@) =~= bag_add(suffix, v@, w as int));
                    }
                    Some(out)
                },
            }
        }
    }
}

/// Fold a transient row stream into a bag; `None` when some intermediate
/// net weight leaves the stored range.
pub fn bag_absorb(b: &Bag, rows: &Vec<(Value, i128)>) -> (r: Option<Bag>)
    requires
        b.wf(),
        rows_bounded(raw_rows_of(rows@)),
    ensures
        ({
            let raw = raw_rows_of(rows@);
            match r {
                Some(out) => from_fits(b@, raw) && out@ == bag_from(b@, raw) && out.wf(),
                None => !from_fits(b@, raw),
            }
        }),
{
    let ghost raw = raw_rows_of(rows@);
    let mut cur = bag_clone(b);
    let mut j: usize = 0;
    proof {
        assert(raw.subrange(0, 0) =~= Seq::<(Val, int)>::empty());
        assert(cur@ == bag_from(b@, raw.subrange(0, 0)));
    }
    while j < rows.len()
        invariant
            j <= rows.len(),
            b.wf(),
            raw == raw_rows_of(rows@),
            rows_bounded(raw),
            cur@ == bag_from(b@, raw.subrange(0, j as int)),
            from_fits(b@, raw.subrange(0, j as int)),
            bag_wf(cur@),
        decreases rows.len() - j,
    {
        let ghost prefix = raw.subrange(0, j as int);
        proof {
            assert(raw[j as int] == (rows@[j as int].0@, rows@[j as int].1 as int));
            assert(rows_of(cur.entries@).subrange(0, cur.entries@.len() as int) =~= cur@);
            lemma_bag_from_snoc(b@, prefix, raw[j as int].0, raw[j as int].1);
            assert(raw.subrange(0, j + 1) =~= prefix.push(raw[j as int]));
        }
        match bag_add_from(&cur.entries, 0, &rows[j].0, rows[j].1) {
            None => {
                proof {
                    assert(!from_fits(b@, raw.subrange(0, j + 1)));
                    assert(raw =~= raw.subrange(0, j + 1) + raw.subrange(j + 1, raw.len() as int));
                    lemma_bag_from_concat(
                        b@,
                        raw.subrange(0, j + 1),
                        raw.subrange(j + 1, raw.len() as int),
                    );
                }
                return None;
            },
            Some(out) => {
                proof {
                    lemma_bag_add_wf(cur@, raw[j as int].0, raw[j as int].1);
                }
                cur = Bag { entries: out };
            },
        }
        j = j + 1;
    }
    proof {
        assert(raw.subrange(0, raw.len() as int) =~= raw);
    }
    Some(cur)
}

/// Set-coerce the suffix of a canonical row sequence starting at `i`.
fn coerce_from(entries: &Vec<(Value, i64)>, i: usize) -> (r: Vec<(Value, i64)>)
    requires
        i <= entries.len(),
    ensures
        rows_of(r@) == coerce_distinct(
            rows_of(entries@).subrange(i as int, entries@.len() as int),
        ),
    decreases entries.len() - i,
{
    let ghost suffix = rows_of(entries@).subrange(i as int, entries@.len() as int);
    if i == entries.len() {
        let r: Vec<(Value, i64)> = Vec::new();
        proof {
            assert(rows_of(r@) =~= coerce_distinct(suffix));
        }
        r
    } else {
        proof {
            assert(suffix[0] == (entries@[i as int].0@, entries@[i as int].1 as int));
            assert(suffix.subrange(1, suffix.len() as int) =~= rows_of(entries@).subrange(
                i + 1,
                entries@.len() as int,
            ));
        }
        let mut rest = coerce_from(entries, i + 1);
        if entries[i].1 > 0 {
            let mut out: Vec<(Value, i64)> = Vec::new();
            out.push((value_clone(&entries[i].0), 1i64));
            out.append(&mut rest);
            proof {
                assert(rows_of(out@) =~= coerce_distinct(suffix));
            }
            out
        } else {
            rest
        }
    }
}

/// Replace a bag's content by its set coercion: every positively weighted
/// row once with weight one, the rest dropped.
pub fn bag_coerce(b: &Bag) -> (r: Bag)
    requires
        b.wf(),
    ensures
        r@ == coerce_distinct(b@),
        r.wf(),
{
    let rows = coerce_from(&b.entries, 0);
    proof {
        assert(rows_of(b.entries@).subrange(0, b.entries@.len() as int) =~= b@);
        lemma_coerce_wf(b@);
    }
    Bag { entries: rows }
}

/// Whether two bags hold the same multiset (their canonical models are
/// equal row for row).
pub fn bag_eq(a: &Bag, b: &Bag) -> (r: bool)
    ensures
        r == (a@ == b@),
{
    if a.entries.len() != b.entries.len() {
        proof {
            assert(rows_of(a.entries@).len() != rows_of(b.entries@).len());
        }
        return false;
    }
    let mut i: usize = 0;
    while i < a.entries.len()
        invariant
            i <= a.entries.len(),
            a.entries@.len() == b.entries@.len(),
            forall|t: int| 0 <= t < i ==> (#[trigger] a@[t]) == b@[t],
        decreases a.entries.len() - i,
    {
        proof {
            assert(a@[i as int] == (a.entries@[i as int].0@, a.entries@[i as int].1 as int));
            assert(b@[i as int] == (b.entries@[i as int].0@, b.entries@[i as int].1 as int));
        }
        if !value_eq(&a.entries[i].0, &b.entries[i].0) {
            proof {
                assert(a@[i as int].0 != b@[i as int].0);
            }
            return false;
        }
        if a.entries[i].1 != b.entries[i].1 {
            proof {
                assert(a@[i as int].1 != b@[i as int].1);
            }
            return false;
        }
        i = i + 1;
    }
    proof {
        assert(a@ =~= b@);
    }
    true
}

/// Add `w` copies of `v` to a bag; `None` when the net weight of `v`
/// would leave the stored range.
pub fn bag_upsert(b: &Bag, v: &Value, w: i128) -> (r: Option<Bag>)
    requires
        b.wf(),
        raw_fits(w as int),
    ensures
        match r {
            Some(out) => add_fits(b@, v@, w as int) && out@ == bag_add(b@, v@, w as int)
                && out.wf(),
            None => !add_fits(b@, v@, w as int),
        },
{
    proof {
        assert(rows_of(b.entries@).subrange(0, b.entries@.len() as int) =~= b@);
    }
    match bag_add_from(&b.entries, 0, v, w) {
        None => None,
        Some(entries) => {
            proof {
                lemma_bag_add_wf(b@, v@, w as int);
            }
            Some(Bag { entries })
        },
    }
}

/// The net weight of any value in a canonical sequence is a stored
/// weight or zero, so it lies within the stored range.
pub proof fn lemma_weight_range(s: Seq<(Val, int)>, v: Val)
    requires
        bag_wf(s),
    ensures
        i64_fits(weight_of(s, v)),
    decreases s.len(),
{
    reveal_with_fuel(weight_of, 2);
    if s.len() > 0 {
        if s[0].0 == v {
        } else {
            let rest = s.subrange(1, s.len() as int);
            assert(bag_wf(rest));
            lemma_weight_range(rest, v);
        }
    }
}

} // verus!
