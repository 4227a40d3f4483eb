//! Values: the dynamically shaped rows that relations hold.
//!
//! Every row of every relation is a `Value`: an integer, a byte string, or a
//! tuple of nested values.  Values are compared by a structural total order,
//! so they can serve as multiset elements and grouping keys.  `Val` is the
//! mathematical model of a value; contracts speak of `Val` through the view
//! operator.

use vstd::prelude::*;

verus! {

/// Result of a three-way structural comparison.
#[derive(Clone, Copy, Debug, PartialEq, Eq, Structural)]
pub enum Cmp {
    Lt,
    Eq,
    Gt,
}

/// A dynamically shaped value: integer, byte string, or tuple of values.
#[derive(Debug, PartialEq, Eq, Hash)]
pub enum Value {
    Int(u64),
    Str(Vec<u8>),
    Tup(Vec<Value>),
}

/// Mathematical model of a `Value`.
#[verifier::ext_equal]
pub enum Val {
    Int(int),
    Str(Seq<u8>),
    Tup(Seq<Val>),
}

pub open spec fn val_of(v: Value) -> Val
    decreases v,
{
    match v {
        Value::Int(n) => Val::Int(n as int),
        Value::Str(s) => Val::Str(s@),
        Value::Tup(vs) => Val::Tup(vals_of(vs@)),
    }
}

pub open spec fn vals_of(s: Seq<Value>) -> Seq<Val>
    decreases s,
{
    if s.len() == 0 {
        Seq::empty()
    } else {
        seq![val_of(s[0])] + vals_of(s.subrange(1, s.len() as int))
    }
}

impl View for Value {
    type V = Val;

    open spec fn view(&self) -> Val {
        val_of(*self)
    }
}

/// Rank of a value's shape; values of different shapes order by rank.
pub open spec fn tag_of(v: Val) -> int {
    match v {
        Val::Int(_) => 0,
        Val::Str(_) => 1,
        Val::Tup(_) => 2,
    }
}

pub open spec fn cmp_int(a: int, b: int) -> Cmp {
    if a < b {
        Cmp::Lt
    } else if a == b {
        Cmp::Eq
    } else {
        Cmp::Gt
    }
}

pub open spec fn flip(c: Cmp) -> Cmp {
    match c {
        Cmp::Lt => Cmp::Gt,
        Cmp::Eq => Cmp::Eq,
        Cmp::Gt => Cmp::Lt,
    }
}

/// Lexicographic order on byte strings.
pub open spec fn cmp_bytes(a: Seq<u8>, b: Seq<u8>) -> Cmp
    decreases a.len(),
{
    if a.len() == 0 && b.len() == 0 {
        Cmp::Eq
    } else if a.len() == 0 {
        Cmp::Lt
    } else if b.len() == 0 {
        Cmp::Gt
    } else if cmp_int(a[0] as int, b[0] as int) == Cmp::Eq {
        cmp_bytes(a.subrange(1, a.len() as int), b.subrange(1, b.len() as int))
    } else {
        cmp_int(a[0] as int, b[0] as int)
    }
}

/// The structural total order on values: by shape rank, then integers by
/// magnitude, byte strings and tuples lexicographically.
pub open spec fn cmp_val(a: Val, b: Val) -> Cmp
    decreases a,
{
    match (a, b) {
        (Val::Int(x), Val::Int(y)) => cmp_int(x, y),
        (Val::Str(x), Val::Str(y)) => cmp_bytes(x, y),
        (Val::Tup(x), Val::Tup(y)) => cmp_vals(x, y),
        _ => cmp_int(tag_of(a), tag_of(b)),
    }
}

/// Lexicographic order on value sequences.
pub open spec fn cmp_vals(a: Seq<Val>, b: Seq<Val>) -> Cmp
    decreases a,
{
    if a.len() == 0 && b.len() == 0 {
        Cmp::Eq
    } else if a.len() == 0 {
        Cmp::Lt
    } else if b.len() == 0 {
        Cmp::Gt
    } else if cmp_val(a[0], b[0]) == Cmp::Eq {
        cmp_vals(a.subrange(1, a.len() as int), b.subrange(1, b.len() as int))
    } else {
        cmp_val(a[0], b[0])
    }
}

pub proof fn lemma_vals_of(s: Seq<Value>)
    ensures
        vals_of(s).len() == s.len(),
        forall|i: int| 0 <= i < s.len() ==> vals_of(s)[i] == val_of(s[i]),
    decreases s.len(),
{
    if s.len() > 0 {
        lemma_vals_of(s.subrange(1, s.len() as int));
    }
}

pub proof fn lemma_cmp_bytes_refl(a: Seq<u8>)
    ensures
        cmp_bytes(a, a) == Cmp::Eq,
    decreases a.len(),
{
    if a.len() > 0 {
        lemma_cmp_bytes_refl(a.subrange(1, a.len() as int));
    }
}

pub proof fn lemma_cmp_bytes_eq(a: Seq<u8>, b: Seq<u8>)
    requires
        cmp_bytes(a, b) == Cmp::Eq,
    ensures
        a == b,
    decreases a.len(),
{
    if a.len() == 0 {
        assert(a =~= b);
    } else {
        lemma_cmp_bytes_eq(a.subrange(1, a.len() as int), b.subrange(1, b.len() as int));
        assert(a.len() == b.len());
        assert forall|i: int| 0 <= i < a.len() implies a[i] == b[i] by {
            if i > 0 {
                assert(a[i] == a.subrange(1, a.len() as int)[i - 1]);
                assert(b[i] == b.subrange(1, b.len() as int)[i - 1]);
            }
        }
        assert(a =~= b);
    }
}

pub proof fn lemma_cmp_bytes_flip(a: Seq<u8>, b: Seq<u8>)
    ensures
        cmp_bytes(b, a) == flip(cmp_bytes(a, b)),
    decreases a.len(),
{
    if a.len() > 0 && b.len() > 0 {
        lemma_cmp_bytes_flip(a.subrange(1, a.len() as int), b.subrange(1, b.len() as int));
    }
}

pub proof fn lemma_cmp_bytes_trans(a: Seq<u8>, b: Seq<u8>, c: Seq<u8>)
    requires
        cmp_bytes(a, b) == Cmp::Lt,
        cmp_bytes(b, c) == Cmp::Lt,
    ensures
        cmp_bytes(a, c) == Cmp::Lt,
    decreases a.len(),
{
    if a.len() > 0 {
        if cmp_int(a[0] as int, b[0] as int) == Cmp::Eq && cmp_int(
            b[0] as int,
            c[0] as int,
        ) == Cmp::Eq {
            lemma_cmp_bytes_trans(
                a.subrange(1, a.len() as int),
                b.subrange(1, b.len() as int),
                c.subrange(1, c.len() as int),
            );
        }
    }
}

/// A value that orders strictly below another has a shape rank no greater
/// than the other's.
pub proof fn lemma_cmp_val_lt_tags(a: Val, b: Val)
    requires
        cmp_val(a, b) == Cmp::Lt,
    ensures
        tag_of(a) <= tag_of(b),
{
}

pub proof fn lemma_cmp_val_refl(a: Val)
    ensures
        cmp_val(a, a) == Cmp::Eq,
    decreases a,
{
    match a {
        Val::Int(_) => {},
        Val::Str(x) => {
            lemma_cmp_bytes_refl(x);
        },
        Val::Tup(x) => {
            lemma_cmp_vals_refl(x);
        },
    }
}

pub proof fn lemma_cmp_vals_refl(a: Seq<Val>)
    ensures
        cmp_vals(a, a) == Cmp::Eq,
    decreases a,
{
    if a.len() > 0 {
        lemma_cmp_val_refl(a[0]);
        lemma_cmp_vals_refl(a.subrange(1, a.len() as int));
    }
}

/// Comparison is exact: two values compare as equal only when they are equal.
pub proof fn lemma_cmp_val_eq(a: Val, b: Val)
    requires
        cmp_val(a, b) == Cmp::Eq,
    ensures
        a == b,
    decreases a,
{
    match (a, b) {
        (Val::Int(_), Val::Int(_)) => {},
        (Val::Str(x), Val::Str(y)) => {
            lemma_cmp_bytes_eq(x, y);
        },
        (Val::Tup(x), Val::Tup(y)) => {
            lemma_cmp_vals_eq(x, y);
            assert(a =~= b);
        },
        _ => {},
    }
}

pub proof fn lemma_cmp_vals_eq(a: Seq<Val>, b: Seq<Val>)
    requires
        cmp_vals(a, b) == Cmp::Eq,
    ensures
        a == b,
    decreases a,
{
    if a.len() == 0 {
        assert(a =~= b);
    } else {
        lemma_cmp_val_eq(a[0], b[0]);
        lemma_cmp_vals_eq(a.subrange(1, a.len() as int), b.subrange(1, b.len() as int));
        assert(a.len() == b.len());
        assert forall|i: int| 0 <= i < a.len() implies a[i] == b[i] by {
            if i > 0 {
                assert(a[i] == a.subrange(1, a.len() as int)[i - 1]);
                assert(b[i] == b.subrange(1, b.len() as int)[i - 1]);
            }
        }
        assert(a =~= b);
    }
}

pub proof fn lemma_cmp_val_flip(a: Val, b: Val)
    ensures
        cmp_val(b, a) == flip(cmp_val(a, b)),
    decreases a,
{
    match (a, b) {
        (Val::Int(_), Val::Int(_)) => {},
        (Val::Str(x), Val::Str(y)) => {
            lemma_cmp_bytes_flip(x, y);
        },
        (Val::Tup(x), Val::Tup(y)) => {
            lemma_cmp_vals_flip(x, y);
        },
        _ => {},
    }
}

pub proof fn lemma_cmp_vals_flip(a: Seq<Val>, b: Seq<Val>)
    ensures
        cmp_vals(b, a) == flip(cmp_vals(a, b)),
    decreases a,
{
    if a.len() > 0 && b.len() > 0 {
        lemma_cmp_val_flip(a[0], b[0]);
        if cmp_val(a[0], b[0]) == Cmp::Eq {
            lemma_cmp_val_eq(a[0], b[0]);
            lemma_cmp_vals_flip(a.subrange(1, a.len() as int), b.subrange(1, b.len() as int));
        }
    }
}

/// The strict order on values is transitive.
pub proof fn lemma_cmp_val_trans(a: Val, b: Val, c: Val)
    requires
        cmp_val(a, b) == Cmp::Lt,
        cmp_val(b, c) == Cmp::Lt,
    ensures
        cmp_val(a, c) == Cmp::Lt,
    decreases a,
{
    lemma_cmp_val_lt_tags(a, b);
    lemma_cmp_val_lt_tags(b, c);
    if tag_of(a) == tag_of(c) {
        match (a, b, c) {
            (Val::Int(_), Val::Int(_), Val::Int(_)) => {},
            (Val::Str(x), Val::Str(y), Val::Str(z)) => {
                lemma_cmp_bytes_trans(x, y, z);
            },
            (Val::Tup(x), Val::Tup(y), Val::Tup(z)) => {
                lemma_cmp_vals_trans(x, y, z);
            },
            _ => {},
        }
    }
}

pub proof fn lemma_cmp_vals_trans(a: Seq<Val>, b: Seq<Val>, c: Seq<Val>)
    requires
        cmp_vals(a, b) == Cmp::Lt,
        cmp_vals(b, c) == Cmp::Lt,
    ensures
        cmp_vals(a, c) == Cmp::Lt,
    decreases a,
{
    if a.len() == 0 {
    } else {
        let ca = cmp_val(a[0], b[0]);
        let cb = cmp_val(b[0], c[0]);
        if ca == Cmp::Eq && cb == Cmp::Eq {
            lemma_cmp_val_eq(a[0], b[0]);
            lemma_cmp_val_eq(b[0], c[0]);
            lemma_cmp_vals_trans(
                a.subrange(1, a.len() as int),
                b.subrange(1, b.len() as int),
                c.subrange(1, c.len() as int),
            );
        } else if ca == Cmp::Eq {
            lemma_cmp_val_eq(a[0], b[0]);
        } else if cb == Cmp::Eq {
            lemma_cmp_val_eq(b[0], c[0]);
        } else {
            lemma_cmp_val_trans(a[0], b[0], c[0]);
        }
    }
}

/// Compare two values in the structural total order.
pub fn value_cmp(a: &Value, b: &Value) -> (r: Cmp)
    ensures
        r == cmp_val(a@, b@),
    decreases a,
{
    match (a, b) {
        (Value::Int(x), Value::Int(y)) => {
            if x < y {
                Cmp::Lt
            } else if x == y {
                Cmp::Eq
            } else {
                Cmp::Gt
            }
        },
        (Value::Str(x), Value::Str(y)) => {
            let r = bytes_cmp_from(x, y, 0);
            proof {
                assert(x@.subrange(0, x@.len() as int) =~= x@);
                assert(y@.subrange(0, y@.len() as int) =~= y@);
            }
            r
        },
        (Value::Tup(x), Value::Tup(y)) => {
            let r = values_cmp_from(x, y, 0);
            proof {
                lemma_vals_of(x@);
                lemma_vals_of(y@);
                assert(vals_of(x@).subrange(0, x@.len() as int) =~= vals_of(x@));
                assert(vals_of(y@).subrange(0, y@.len() as int) =~= vals_of(y@));
            }
            r
        },
        (Value::Int(_), _) => Cmp::Lt,
        (_, Value::Int(_)) => Cmp::Gt,
        (Value::Str(_), Value::Tup(_)) => Cmp::Lt,
        (Value::Tup(_), Value::Str(_)) => Cmp::Gt,
    }
}

fn bytes_cmp_from(a: &Vec<u8>, b: &Vec<u8>, i: usize) -> (r: Cmp)
    requires
        i <= a.len(),
        i <= b.len(),
    ensures
        r == cmp_bytes(a@.subrange(i as int, a@.len() as int), b@.subrange(i as int, b@.len() as int)),
    decreases a.len() - i,
{
    let ghost sa = a@.subrange(i as int, a@.len() as int);
    let ghost sb = b@.subrange(i as int, b@.len() as int);
    if i == a.len() && i == b.len() {
        Cmp::Eq
    } else if i == a.len() {
        Cmp::Lt
    } else if i == b.len() {
        Cmp::Gt
    } else if a[i] == b[i] {
        let r = bytes_cmp_from(a, b, i + 1);
        proof {
            assert(sa.subrange(1, sa.len() as int) =~= a@.subrange(i + 1, a@.len() as int));
            assert(sb.subrange(1, sb.len() as int) =~= b@.subrange(i + 1, b@.len() as int));
        }
        r
    } else if a[i] < b[i] {
        Cmp::Lt
    } else {
        Cmp::Gt
    }
}

fn values_cmp_from(a: &Vec<Value>, b: &Vec<Value>, i: usize) -> (r: Cmp)
    requires
        i <= a.len(),
        i <= b.len(),
    ensures
        r == cmp_vals(
            vals_of(a@).subrange(i as int, a@.len() as int),
            vals_of(b@).subrange(i as int, b@.len() as int),
        ),
    decreases a@, a.len() - i,
{
    proof {
        lemma_vals_of(a@);
        lemma_vals_of(b@);
    }
    let ghost sa = vals_of(a@).subrange(i as int, a@.len() as int);
    let ghost sb = vals_of(b@).subrange(i as int, b@.len() as int);
    if i == a.len() && i == b.len() {
        Cmp::Eq
    } else if i == a.len() {
        Cmp::Lt
    } else if i == b.len() {
        Cmp::Gt
    } else {
        let c = value_cmp(&a[i], &b[i]);
        if c == Cmp::Eq {
            let r = values_cmp_from(a, b, i + 1);
            proof {
                assert(sa.subrange(1, sa.len() as int) =~= vals_of(a@).subrange(
                    i + 1,
                    a@.len() as int,
                ));
                assert(sb.subrange(1, sb.len() as int) =~= vals_of(b@).subrange(
                    i + 1,
                    b@.len() as int,
                ));
            }
            r
        } else {
            c
        }
    }
}

/// Structural equality test, exact with respect to the model.
pub fn value_eq(a: &Value, b: &Value) -> (r: bool)
    ensures
        r == (a@ == b@),
{
    let c = value_cmp(a, b);
    proof {
        if c == Cmp::Eq {
            lemma_cmp_val_eq(a@, b@);
        } else {
            if a@ == b@ {
                lemma_cmp_val_refl(a@);
            }
        }
    }
    c == Cmp::Eq
}

/// Deep copy of a value; the copy has the same model.
pub fn value_clone(v: &Value) -> (r: Value)
    ensures
        r@ == v@,
    decreases v,
{
    match v {
        Value::Int(n) => Value::Int(*n),
        Value::Str(s) => {
            let mut out: Vec<u8> = Vec::new();
            let mut i: usize = 0;
            while i < s.len()
                invariant
                    i <= s.len(),
                    out@ == s@.subrange(0, i as int),
                decreases s.len() - i,
            {
                out.push(s[i]);
                i = i + 1;
                proof {
                    assert(out@ =~= s@.subrange(0, i as int));
                }
            }
            proof {
                assert(s@.subrange(0, s@.len() as int) =~= s@);
            }
            Value::Str(out)
        },
        Value::Tup(vs) => {
            let out = values_clone_from(vs, 0);
            proof {
                lemma_vals_of(vs@);
                lemma_vals_of(out@);
                assert(vals_of(out@) =~= vals_of(vs@));
            }
            Value::Tup(out)
        },
    }
}

/// Deep copy of the suffix of a value vector starting at `i`.
fn values_clone_from(vs: &Vec<Value>, i: usize) -> (r: Vec<Value>)
    requires
        i <= vs.len(),
    ensures
        r@.len() == vs@.len() - i,
        forall|j: int| 0 <= j < r@.len() ==> val_of(#[trigger] r@[j]) == val_of(vs@[i + j]),
    decreases vs@, vs.len() - i,
{
    if i == vs.len() {
        Vec::new()
    } else {
        let c = value_clone(&vs[i]);
        let mut rest = values_clone_from(vs, i + 1);
        rest.insert(0, c);
        rest
    }
}

/// The declared shape of a relation's values.
pub enum Shape {
    /// Any value.
    Free,
    /// An integer.
    Int,
    /// A byte string.
    Str,
    /// A tuple with one shape per field.
    Tup(Vec<Shape>),
}

/// Whether a value has the given shape.
pub open spec fn shape_matches(sh: Shape, v: Val) -> bool
    decreases sh,
{
    match sh {
        Shape::Free => true,
        Shape::Int => v is Int,
        Shape::Str => v is Str,
        Shape::Tup(fs) => match v {
            Val::Tup(xs) => xs.len() == fs@.len() && shapes_match(fs@, xs),
            _ => false,
        },
    }
}

pub open spec fn shapes_match(fs: Seq<Shape>, xs: Seq<Val>) -> bool
    decreases fs,
{
    if fs.len() == 0 {
        true
    } else {
        xs.len() > 0 && shape_matches(fs[0], xs[0]) && shapes_match(
            fs.subrange(1, fs.len() as int),
            xs.subrange(1, xs.len() as int),
        )
    }
}

/// Check a value against a shape.
pub fn shape_check(sh: &Shape, v: &Value) -> (r: bool)
    ensures
        r == shape_matches(*sh, v@),
    decreases sh,
{
    match (sh, v) {
        (Shape::Free, _) => true,
        (Shape::Int, Value::Int(_)) => true,
        (Shape::Str, Value::Str(_)) => true,
        (Shape::Tup(fs), Value::Tup(xs)) => {
            proof {
                lemma_vals_of(xs@);
            }
            if fs.len() != xs.len() {
                false
            } else {
                let r = shapes_check_from(fs, xs, 0);
                proof {
                    assert(fs@.subrange(0, fs@.len() as int) =~= fs@);
                    assert(vals_of(xs@).subrange(0, xs@.len() as int) =~= vals_of(xs@));
                }
                r
            }
        },
        (Shape::Int, _) => false,
        (Shape::Str, _) => false,
        (Shape::Tup(_), _) => false,
    }
}

fn shapes_check_from(fs: &Vec<Shape>, xs: &Vec<Value>, i: usize) -> (r: bool)
    requires
        i <= fs.len(),
        fs.len() == xs.len(),
    ensures
        r == shapes_match(
            fs@.subrange(i as int, fs@.len() as int),
            vals_of(xs@).subrange(i as int, xs@.len() as int),
        ),
    decreases fs@, fs.len() - i,
{
    proof {
        lemma_vals_of(xs@);
    }
    let ghost tf = fs@.subrange(i as int, fs@.len() as int);
    let ghost tx = vals_of(xs@).subrange(i as int, xs@.len() as int);
    if i == fs.len() {
        true
    } else {
        proof {
            assert(tf[0] == fs@[i as int]);
            assert(tx[0] == vals_of(xs@)[i as int]);
            assert(tf.subrange(1, tf.len() as int) =~= fs@.subrange(i + 1, fs@.len() as int));
            assert(tx.subrange(1, tx.len() as int) =~= vals_of(xs@).subrange(
                i + 1,
                xs@.len() as int,
            ));
        }
        if shape_check(&fs[i], &xs[i]) {
            shapes_check_from(fs, xs, i + 1)
        } else {
            false
        }
    }
}

} // verus!
