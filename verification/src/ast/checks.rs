//! Tests of whether definitions can be optimized.
use crate::ast::free_var::free_in_comp;
use crate::ast::lifter::{
    below, captures_below, captures_below_in_value, captures_below_in_values, is_call,
    lifts_in_comp, lifts_in_value, lifts_in_values, params_fit,
};
use crate::ast::primitive_functions::PrimitiveFunctions;
use crate::ast::signature::{liftable, renamable, FunctionDefinition};
use crate::ast::specializer::{calls_fit, calls_fit_in_value, calls_fit_in_values};
use crate::ast::term::{value, values, CTerm, VTerm, VType};
use crate::ast::usage::{
    add_counts, count_binders, is_count, lemma_top_of_params, lemma_top_of_params_below,
};
use vstd::prelude::*;

verus! {

/// Whether the calls of primitive functions in `v` fit.
fn check_calls_in_value(primitives: &PrimitiveFunctions, v: &VTerm) -> (r: bool)
    ensures
        r == calls_fit_in_value(primitives@, v@),
    decreases v,
{
    match v {
        VTerm::Thunk { t, .. } => check_calls(primitives, t),
        _ => true,
    }
}

/// Whether the calls of primitive functions in `vs` fit.
fn check_calls_in_values(primitives: &PrimitiveFunctions, vs: &Vec<VTerm>) -> (r: bool)
    ensures
        r == calls_fit_in_values(primitives@, values(vs@)),
    decreases vs,
{
    let ghost all = values(vs@);
    for i in 0..vs.len()
        invariant
            all == values(vs@),
            forall|j: int| 0 <= j < i ==> calls_fit_in_value(primitives@, #[trigger] all[j]),
    {
        assert(all[i as int] == value(vs@[i as int]));
        if !check_calls_in_value(primitives, &vs[i]) {
            assert(!calls_fit_in_value(primitives@, all[i as int]));
            return false;
        }
    }
    true
}

/// Whether the calls of primitive functions in `c` fit.
pub fn check_calls(primitives: &PrimitiveFunctions, c: &CTerm) -> (r: bool)
    ensures
        r == calls_fit(primitives@, c@),
    decreases c,
{
    match c {
        CTerm::Redex { function, args } => {
            if !check_calls(primitives, function) || !check_calls_in_values(primitives, args) {
                return false;
            }
            match &**function {
                CTerm::Def { name, may_have_complex_effects } => {
                    match primitives.get(name.as_str()) {
                        Some(primitive) => {
                            let arity = primitive.arg_types.len();
                            args.len() == arity || (args.len() < arity
                                && !*may_have_complex_effects)
                        },
                        None => true,
                    }
                },
                _ => true,
            }
        },
        CTerm::Return { value } => check_calls_in_value(primitives, value),
        CTerm::Force { thunk, .. } => check_calls_in_value(primitives, thunk),
        CTerm::Def { .. } => true,
        CTerm::PrimitiveCall { args, .. } => check_calls_in_values(primitives, args),
        CTerm::Lambda { body, .. } => check_calls(primitives, body),
    }
}

/// Whether the free variables of `c` are less than `bound`.
fn check_free_vars(bound: usize, c: &CTerm) -> (r: bool)
    ensures
        r == below(free_in_comp(c@), bound as nat),
{
    let free_vars = c.free_vars();
    let ghost free = free_in_comp(c@);
    for i in 0..free_vars.len()
        invariant
            free == free_in_comp(c@),
            forall|x: usize| #[trigger] free_vars@.contains(x) <==> free.contains(x),
            forall|j: int| 0 <= j < i ==> #[trigger] free_vars@[j] < bound,
    {
        if free_vars[i] >= bound {
            assert(free_vars@.contains(free_vars@[i as int]));
            assert(free.contains(free_vars@[i as int]));
            return false;
        }
    }
    assert forall|x: usize| #[trigger] free.contains(x) implies x < bound by {
        assert(free_vars@.contains(x));
    }
    true
}

/// Whether all of `params` are less than `bound`.
fn check_params(bound: usize, params: &Vec<(usize, VType)>) -> (r: bool)
    ensures
        r == (forall|i: int| 0 <= i < params@.len() ==> (#[trigger] params@[i]).0 < bound),
{
    for i in 0..params.len()
        invariant
            forall|j: int| 0 <= j < i ==> (#[trigger] params@[j]).0 < bound,
    {
        if params[i].0 >= bound {
            assert(params@[i as int].0 >= bound);
            return false;
        }
    }
    true
}

/// Whether `c` is a plain call or a lambda.
fn is_call_or_lambda(c: &CTerm) -> (r: bool)
    ensures
        r == (is_call(c@) || c@ is Lambda),
{
    match c {
        CTerm::Def { .. } => true,
        CTerm::Redex { function, .. } => {
            assert(function@ is Def <==> **function is Def);
            matches!(**function, CTerm::Def { .. })
        },
        CTerm::Lambda { .. } => true,
        _ => false,
    }
}

/// Whether everything lifted out of `v` captures only variables less than `bound`.
fn check_captures_in_value(bound: usize, v: &VTerm) -> (r: bool)
    ensures
        r == captures_below_in_value(bound as nat, v@),
    decreases v,
{
    match v {
        VTerm::Thunk { t, .. } => {
            check_captures(bound, t) && (is_call_or_lambda(t) || check_free_vars(bound, t))
        },
        _ => true,
    }
}

/// Whether everything lifted out of `vs` captures only variables less than `bound`.
fn check_captures_in_values(bound: usize, vs: &Vec<VTerm>) -> (r: bool)
    ensures
        r == captures_below_in_values(bound as nat, values(vs@)),
    decreases vs,
{
    let ghost all = values(vs@);
    for i in 0..vs.len()
        invariant
            all == values(vs@),
            forall|j: int| 0 <= j < i ==> captures_below_in_value(bound as nat, #[trigger] all[j]),
    {
        assert(all[i as int] == value(vs@[i as int]));
        if !check_captures_in_value(bound, &vs[i]) {
            assert(!captures_below_in_value(bound as nat, all[i as int]));
            return false;
        }
    }
    true
}

/// Whether everything lifted out of `c` captures only variables less than `bound`, and there is an
/// index after each parameter of a lambda.
fn check_captures(bound: usize, c: &CTerm) -> (r: bool)
    ensures
        r == captures_below(bound as nat, c@),
    decreases c,
{
    match c {
        CTerm::Redex { function, args } => check_captures(bound, function)
            && check_captures_in_values(bound, args),
        CTerm::Return { value } => check_captures_in_value(bound, value),
        CTerm::Force { thunk, .. } => check_captures_in_value(bound, thunk),
        CTerm::Def { .. } => true,
        CTerm::PrimitiveCall { args, .. } => check_captures_in_values(bound, args),
        CTerm::Lambda { args, body, .. } => {
            proof {
                lemma_top_of_params(args@);
                if forall|i: int| 0 <= i < args@.len() ==> (#[trigger] args@[i]).0 < usize::MAX {
                    lemma_top_of_params_below(args@, usize::MAX as nat);
                }
            }
            check_captures(bound, body) && check_free_vars(bound, c) && check_params(
                usize::MAX,
                args,
            )
        },
    }
}

/// The number of definitions that are lifted out of `v`.
fn count_lifts_in_value(v: &VTerm) -> (r: Option<usize>)
    ensures
        is_count(r, lifts_in_value(v@)),
    decreases v,
{
    match v {
        VTerm::Thunk { t, .. } => {
            let inner = count_lifts(t);
            if is_call_or_lambda(t) {
                inner
            } else {
                add_counts(inner, Some(1))
            }
        },
        _ => Some(0),
    }
}

/// The number of definitions that are lifted out of `vs`.
fn count_lifts_in_values(vs: &Vec<VTerm>) -> (r: Option<usize>)
    ensures
        is_count(r, lifts_in_values(values(vs@))),
    decreases vs,
{
    let ghost all = values(vs@);
    let mut r: Option<usize> = Some(0);
    for i in 0..vs.len()
        invariant
            all == values(vs@),
            is_count(r, lifts_in_values(all.take(i as int))),
    {
        assert(all.take(i + 1).drop_last() =~= all.take(i as int));
        assert(all.take(i + 1).last() == value(vs@[i as int]));
        r = add_counts(r, count_lifts_in_value(&vs[i]));
    }
    assert(all.take(vs@.len() as int) =~= all);
    r
}

/// The number of definitions that are lifted out of `c`, or `None` if it does not fit in a machine
/// word.
fn count_lifts(c: &CTerm) -> (r: Option<usize>)
    ensures
        is_count(r, lifts_in_comp(c@)),
    decreases c,
{
    match c {
        CTerm::Redex { function, args } => add_counts(
            count_lifts(function),
            count_lifts_in_values(args),
        ),
        CTerm::Return { value } => count_lifts_in_value(value),
        CTerm::Force { thunk, .. } => count_lifts_in_value(thunk),
        CTerm::Def { .. } => Some(0),
        CTerm::PrimitiveCall { args, .. } => count_lifts_in_values(args),
        CTerm::Lambda { body, .. } => add_counts(count_lifts(body), Some(1)),
    }
}

/// Whether there are indexes enough for the binders of `def`.
pub fn check_renamable(def: &FunctionDefinition) -> (r: bool)
    ensures
        r == renamable(def@),
{
    add_counts(Some(def.args.len()), count_binders(&def.body)).is_some()
}

/// Whether thunks and lambdas can be lifted out of `def`.
pub fn check_liftable(def: &FunctionDefinition) -> (r: bool)
    ensures
        r == liftable(def@),
{
    let fits = check_params(def.var_bound, &def.args);
    assert(def@.args == def.args@);
    assert(fits == params_fit(def@));
    fits && check_captures(def.var_bound, &def.body) && count_lifts(&def.body).is_some()
}

} // verus!
