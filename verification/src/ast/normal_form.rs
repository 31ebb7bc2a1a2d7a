//! What reduction leads to.
use crate::ast::reducer::{contract, reduce_comp, reduce_value, reduce_values, reduced, reduces};
use crate::ast::term::{Comp, Value};
use vstd::prelude::*;

verus! {

/// Whether a value holds no applied lambda and no forced thunk.
pub open spec fn normal_value(v: Value) -> bool
    decreases v,
{
    match v {
        Value::Thunk { t, .. } => normal(*t),
        _ => true,
    }
}

/// Whether a sequence of values holds no applied lambda and no forced thunk.
pub open spec fn normal_values(vs: Seq<Value>) -> bool
    decreases vs,
{
    forall|i: int| 0 <= i < vs.len() ==> normal_value(#[trigger] vs[i])
}

/// Whether a computation holds no applied lambda and no forced thunk.
pub open spec fn normal(c: Comp) -> bool
    decreases c,
{
    match c {
        Comp::Redex { function, args } => {
            &&& !(*function is Lambda)
            &&& normal(*function)
            &&& normal_values(args)
        },
        Comp::Return { value } => normal_value(value),
        Comp::Force { thunk, .. } => !(thunk is Thunk) && normal_value(thunk),
        Comp::Def { .. } => true,
        Comp::PrimitiveCall { args, .. } => normal_values(args),
        Comp::Lambda { body, .. } => normal(*body),
    }
}

proof fn lemma_reduced_normal_value(fuel: nat, n: nat, v: Value)
    requires
        reduce_value(fuel, n, v) is Some,
    ensures
        normal_value((reduce_value(fuel, n, v)->0).0),
    decreases fuel, v,
{
    if let Value::Thunk { t, .. } = v {
        lemma_reduced_normal(fuel, n, *t);
    }
}

proof fn lemma_reduced_normal_values(fuel: nat, n: nat, vs: Seq<Value>)
    requires
        reduce_values(fuel, n, vs) is Some,
    ensures
        normal_values((reduce_values(fuel, n, vs)->0).0),
    decreases fuel, vs,
{
    if vs.len() > 0 {
        let (front, n1) = reduce_values(fuel, n, vs.drop_last())->0;
        lemma_reduced_normal_values(fuel, n, vs.drop_last());
        lemma_reduced_normal_value(fuel, n1, vs.last());
        let new = (reduce_values(fuel, n, vs)->0).0;
        assert forall|i: int| 0 <= i < new.len() implies normal_value(#[trigger] new[i]) by {
            if i < front.len() {
                assert(new[i] == front[i]);
            }
        }
    }
}

proof fn lemma_reduced_normal(fuel: nat, n: nat, c: Comp)
    requires
        reduce_comp(fuel, n, c) is Some,
    ensures
        normal((reduce_comp(fuel, n, c)->0).0),
    decreases fuel, c,
{
    match c {
        Comp::Redex { function, args } => {
            let (f, n1) = reduce_comp(fuel, n, *function)->0;
            let (vs, n2) = reduce_values(fuel, n1, args)->0;
            lemma_reduced_normal(fuel, n, *function);
            lemma_reduced_normal_values(fuel, n1, args);
            if let Comp::Lambda { args: params, body, may_have_complex_effects } = f {
                let (next, n3) = contract(n2, params, *body, may_have_complex_effects, vs);
                lemma_reduced_normal((fuel - 1) as nat, n3, next);
            }
        },
        Comp::Return { value } => {
            lemma_reduced_normal_value(fuel, n, value);
        },
        Comp::Force { thunk, .. } => {
            lemma_reduced_normal_value(fuel, n, thunk);
            let (v, n1) = reduce_value(fuel, n, thunk)->0;
            if let Value::Thunk { t, .. } = v {
                lemma_reduced_normal((fuel - 1) as nat, n1, *t);
            }
        },
        Comp::Def { .. } => {},
        Comp::PrimitiveCall { args, .. } => {
            lemma_reduced_normal_values(fuel, n, args);
        },
        Comp::Lambda { body, .. } => {
            lemma_reduced_normal(fuel, n, *body);
        },
    }
}

proof fn lemma_normal_unchanged_value(fuel: nat, n: nat, v: Value)
    requires
        normal_value(v),
    ensures
        reduce_value(fuel, n, v) == Some((v, n)),
    decreases v,
{
    if let Value::Thunk { t, .. } = v {
        lemma_normal_unchanged(fuel, n, *t);
    }
}

proof fn lemma_normal_unchanged_values(fuel: nat, n: nat, vs: Seq<Value>)
    requires
        normal_values(vs),
    ensures
        reduce_values(fuel, n, vs) == Some((vs, n)),
    decreases vs,
{
    if vs.len() > 0 {
        assert(normal_values(vs.drop_last()));
        assert(normal_value(vs[vs.len() - 1]));
        lemma_normal_unchanged_values(fuel, n, vs.drop_last());
        lemma_normal_unchanged_value(fuel, n, vs.last());
        assert(vs.drop_last().push(vs.last()) =~= vs);
    } else {
        assert(vs =~= Seq::empty());
    }
}

/// Reduction takes no step and uses no index where there is no applied lambda and no forced thunk.
pub proof fn lemma_normal_unchanged(fuel: nat, n: nat, c: Comp)
    requires
        normal(c),
    ensures
        reduce_comp(fuel, n, c) == Some((c, n)),
    decreases c,
{
    match c {
        Comp::Redex { function, args } => {
            lemma_normal_unchanged(fuel, n, *function);
            lemma_normal_unchanged_values(fuel, n, args);
        },
        Comp::Return { value } => {
            lemma_normal_unchanged_value(fuel, n, value);
        },
        Comp::Force { thunk, .. } => {
            lemma_normal_unchanged_value(fuel, n, thunk);
        },
        Comp::Def { .. } => {},
        Comp::PrimitiveCall { args, .. } => {
            lemma_normal_unchanged_values(fuel, n, args);
        },
        Comp::Lambda { body, .. } => {
            lemma_normal_unchanged(fuel, n, *body);
        },
    }
}

proof fn lemma_reduce_fuel_value(fuel: nat, more: nat, n: nat, v: Value)
    requires
        reduce_value(fuel, n, v) is Some,
        fuel <= more,
    ensures
        reduce_value(more, n, v) == reduce_value(fuel, n, v),
    decreases fuel, v,
{
    if let Value::Thunk { t, .. } = v {
        lemma_reduce_fuel(fuel, more, n, *t);
    }
}

proof fn lemma_reduce_fuel_values(fuel: nat, more: nat, n: nat, vs: Seq<Value>)
    requires
        reduce_values(fuel, n, vs) is Some,
        fuel <= more,
    ensures
        reduce_values(more, n, vs) == reduce_values(fuel, n, vs),
    decreases fuel, vs,
{
    if vs.len() > 0 {
        let (front, n1) = reduce_values(fuel, n, vs.drop_last())->0;
        lemma_reduce_fuel_values(fuel, more, n, vs.drop_last());
        lemma_reduce_fuel_value(fuel, more, n1, vs.last());
    }
}

/// A computation that is reduced within some number of steps is reduced to the same within more.
pub proof fn lemma_reduce_fuel(fuel: nat, more: nat, n: nat, c: Comp)
    requires
        reduce_comp(fuel, n, c) is Some,
        fuel <= more,
    ensures
        reduce_comp(more, n, c) == reduce_comp(fuel, n, c),
    decreases fuel, c,
{
    match c {
        Comp::Redex { function, args } => {
            let (f, n1) = reduce_comp(fuel, n, *function)->0;
            let (vs, n2) = reduce_values(fuel, n1, args)->0;
            lemma_reduce_fuel(fuel, more, n, *function);
            lemma_reduce_fuel_values(fuel, more, n1, args);
            if let Comp::Lambda { args: params, body, may_have_complex_effects } = f {
                let (next, n3) = contract(n2, params, *body, may_have_complex_effects, vs);
                lemma_reduce_fuel((fuel - 1) as nat, (more - 1) as nat, n3, next);
            }
        },
        Comp::Return { value } => {
            lemma_reduce_fuel_value(fuel, more, n, value);
        },
        Comp::Force { thunk, .. } => {
            let (v, n1) = reduce_value(fuel, n, thunk)->0;
            lemma_reduce_fuel_value(fuel, more, n, thunk);
            if let Value::Thunk { t, .. } = v {
                lemma_reduce_fuel((fuel - 1) as nat, (more - 1) as nat, n1, *t);
            }
        },
        Comp::Def { .. } => {},
        Comp::PrimitiveCall { args, .. } => {
            lemma_reduce_fuel_values(fuel, more, n, args);
        },
        Comp::Lambda { body, .. } => {
            lemma_reduce_fuel(fuel, more, n, *body);
        },
    }
}

/// What a computation is reduced to does not depend on the number of steps that are allowed.
pub proof fn lemma_reduced(fuel: nat, n: nat, c: Comp)
    requires
        reduce_comp(fuel, n, c) is Some,
    ensures
        reduces(n, c),
        reduce_comp(fuel, n, c) == Some(reduced(n, c)),
{
    let chosen = choose|fuel: nat| (#[trigger] reduce_comp(fuel, n, c)) is Some;
    if fuel <= chosen {
        lemma_reduce_fuel(fuel, chosen, n, c);
    } else {
        lemma_reduce_fuel(chosen, fuel, n, c);
    }
}

/// Reduction leaves no applied lambda and no forced thunk, and reducing once more changes nothing.
pub proof fn lemma_reduced_is_normal(n: nat, c: Comp)
    requires
        reduces(n, c),
    ensures
        normal(reduced(n, c).0),
        reduces(reduced(n, c).1, reduced(n, c).0),
        reduced(reduced(n, c).1, reduced(n, c).0) == reduced(n, c),
{
    let fuel = choose|fuel: nat| (#[trigger] reduce_comp(fuel, n, c)) is Some;
    let (r, n1) = reduced(n, c);
    lemma_reduced_normal(fuel, n, c);
    lemma_normal_unchanged(0, n1, r);
    lemma_reduced(0, n1, r);
}

} // verus!
