//! Projection expressions.
//!
//! Rule stages carry small total expressions instead of arbitrary closures:
//! an expression projects tuple fields, rebuilds tuples and embeds
//! constants.  Evaluation is partial — projecting a missing field or a
//! non-tuple yields nothing — and a filter-map stage drops rows whose
//! expression does not evaluate, which is how predicates are expressed.

use vstd::prelude::*;

use crate::value::{Val, Value, val_of, vals_of, lemma_vals_of, value_clone};

verus! {

/// An expression over one input value.
pub enum Expr {
    /// The input value itself.
    Var,
    /// A constant.
    Lit(Value),
    /// Field `k` of the tuple the inner expression yields.
    Proj(Box<Expr>, usize),
    /// A tuple built from the given expressions.
    MkTup(Vec<Expr>),
}

/// Evaluate an expression on an input value; `None` when a projection
/// misses.
pub open spec fn eval_expr(e: Expr, v: Val) -> Option<Val>
    decreases e,
{
    match e {
        Expr::Var => Some(v),
        Expr::Lit(c) => Some(val_of(c)),
        Expr::Proj(inner, k) => match eval_expr(*inner, v) {
            Some(Val::Tup(xs)) => if k < xs.len() {
                Some(xs[k as int])
            } else {
                None
            },
            _ => None,
        },
        Expr::MkTup(es) => match eval_exprs(es@, v) {
            Some(xs) => Some(Val::Tup(xs)),
            None => None,
        },
    }
}

pub open spec fn eval_exprs(es: Seq<Expr>, v: Val) -> Option<Seq<Val>>
    decreases es,
{
    if es.len() == 0 {
        Some(Seq::empty())
    } else {
        match eval_expr(es[0], v) {
            Some(x) => match eval_exprs(es.subrange(1, es.len() as int), v) {
                Some(xs) => Some(seq![x] + xs),
                None => None,
            },
            None => None,
        }
    }
}

/// Evaluate an expression on a value.
pub fn eval(e: &Expr, v: &Value) -> (r: Option<Value>)
    ensures
        match r {
            Some(out) => eval_expr(*e, v@) == Some(out@),
            None => eval_expr(*e, v@) is None,
        },
    decreases e,
{
    match e {
        Expr::Var => Some(value_clone(v)),
        Expr::Lit(c) => Some(value_clone(c)),
        Expr::Proj(inner, k) => {
            match eval(inner, v) {
                Some(Value::Tup(xs)) => {
                    if *k < xs.len() {
                        proof {
                            lemma_vals_of(xs@);
                        }
                        Some(value_clone(&xs[*k]))
                    } else {
                        proof {
                            lemma_vals_of(xs@);
                        }
                        None
                    }
                },
                _ => None,
            }
        },
        Expr::MkTup(es) => {
            match eval_from(es, 0, v) {
                Some(xs) => {
                    proof {
                        lemma_vals_of(xs@);
                        assert(eval_exprs(es@.subrange(0, es@.len() as int), v@) == eval_exprs(
                            es@,
                            v@,
                        )) by {
                            assert(es@.subrange(0, es@.len() as int) =~= es@);
                        }
                    }
                    Some(Value::Tup(xs))
                },
                None => {
                    proof {
                        assert(es@.subrange(0, es@.len() as int) =~= es@);
                    }
                    None
                },
            }
        },
    }
}

/// Evaluate the expressions of a tuple constructor from index `i` on.
fn eval_from(es: &Vec<Expr>, i: usize, v: &Value) -> (r: Option<Vec<Value>>)
    requires
        i <= es.len(),
    ensures
        ({
            let tail = es@.subrange(i as int, es@.len() as int);
            match r {
                Some(xs) => eval_exprs(tail, v@) == Some(vals_of(xs@)),
                None => eval_exprs(tail, v@) is None,
            }
        }),
    decreases es@, es.len() - i,
{
    let ghost tail = es@.subrange(i as int, es@.len() as int);
    if i == es.len() {
        let xs: Vec<Value> = Vec::new();
        proof {
            lemma_vals_of(xs@);
            assert(vals_of(xs@) =~= Seq::<Val>::empty());
        }
        Some(xs)
    } else {
        proof {
            assert(tail[0] == es@[i as int]);
            assert(tail.subrange(1, tail.len() as int) =~= es@.subrange(
                i + 1,
                es@.len() as int,
            ));
        }
        match eval(&es[i], v) {
            None => None,
            Some(x) => {
                match eval_from(es, i + 1, v) {
                    None => None,
                    Some(mut rest) => {
                        let ghost rest0 = rest@;
                        let mut xs: Vec<Value> = Vec::new();
                        xs.push(x);
                        xs.append(&mut rest);
                        proof {
                            lemma_vals_of(xs@);
                            lemma_vals_of(rest0);
                            assert(xs@ =~= seq![xs@[0]] + rest0);
                            assert(vals_of(xs@) =~= seq![xs@[0]@] + vals_of(rest0));
                        }
                        Some(xs)
                    },
                }
            },
        }
    }
}

} // verus!
