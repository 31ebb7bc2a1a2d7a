//! Reduction captures no variable: what it puts in for a parameter means the same where it is put.
use crate::ast::binding::{
    bound_in_comp, bound_in_definition, bound_in_value, bound_in_values, has_distinct_vars,
    indexes_of, lemma_parts_distinct,
};
use crate::ast::copying::{
    fresh, lemma_bound_contracted, lemma_bound_reduced, lemma_bound_reduced_value,
    lemma_bound_reduced_values, lemma_once_each, lemma_reduced_vars_fit, lemma_times_concat,
    lemma_times_once, times,
};
use crate::ast::free_var::{bound_by, free_in_comp, free_in_value, free_in_values};
use crate::ast::lifter::below;
use crate::ast::normal_form::lemma_reduced;
use crate::ast::reducer::{
    contract, lemma_reduce_counts, lemma_reduce_counts_value, lemma_reduce_counts_values,
    reduce_comp, reduce_value, reduce_values,
};
use crate::ast::scope::{
    all_below, avoids, closed_definition, free_in_bindings, lemma_bound_within,
    lemma_bound_within_value, lemma_captures_within, lemma_captures_within_value,
    lemma_contracted_within, lemma_free_contracted, lemma_free_in_values, lemma_free_reduced_comp,
    lemma_free_reduced_value, lemma_free_reduced_values, lemma_pair_up, lemma_reduced_within_comp,
    lemma_reduced_within_value, lemma_reduced_within_values, lemma_within_more,
    lemma_within_more_values, vars_fit, within, within_value, within_values,
};
use crate::ast::signature::{first_unused, reducible, Definition};
use crate::ast::substitutor::pair_up;
use crate::ast::term::{Comp, VType, Value};
use crate::ast::usage::lesser;
use vstd::prelude::*;

verus! {

/// Whether the binders `bound` are distinct, and none of them is among the variables `free`.
pub open spec fn apart(bound: Seq<usize>, free: Set<usize>) -> bool {
    &&& bound.no_duplicates()
    &&& forall|x: usize| #[trigger] bound.contains(x) ==> !free.contains(x)
}

/// Whether the binders of a value are distinct, and none of them is free in it.
pub open spec fn hygienic_value(v: Value) -> bool {
    apart(bound_in_value(v), free_in_value(v))
}

/// Whether the binders of a sequence of values are distinct, and none of them is free in it.
pub open spec fn hygienic_values(vs: Seq<Value>) -> bool {
    apart(bound_in_values(vs), free_in_values(vs))
}

/// Whether the binders of a computation are distinct, and none of them is free in it.
pub open spec fn hygienic(c: Comp) -> bool {
    apart(bound_in_comp(c), free_in_comp(c))
}

/// Whether no step of the reduction of `v` captures a variable; see [`captures_nothing`].
pub open spec fn captures_nothing_in_value(fuel: nat, n: nat, v: Value) -> bool
    decreases fuel, v,
{
    match v {
        Value::Thunk { t, .. } => captures_nothing(fuel, n, *t),
        _ => true,
    }
}

/// Whether no step of the reduction of `vs` captures a variable; see [`captures_nothing`].
pub open spec fn captures_nothing_in_values(fuel: nat, n: nat, vs: Seq<Value>) -> bool
    decreases fuel, vs,
{
    if vs.len() == 0 {
        true
    } else {
        &&& captures_nothing_in_values(fuel, n, vs.drop_last())
        &&& match reduce_values(fuel, n, vs.drop_last()) {
            Some((_, n1)) => captures_nothing_in_value(fuel, n1, vs.last()),
            None => true,
        }
    }
}

/// Whether no step of the reduction of `c` captures a variable: wherever a lambda is applied, no
/// binder of its body is replaced, or free in a value that is put in.
pub open spec fn captures_nothing(fuel: nat, n: nat, c: Comp) -> bool
    decreases fuel, c,
{
    match c {
        Comp::Redex { function, args } => {
            &&& captures_nothing(fuel, n, *function)
            &&& match reduce_comp(fuel, n, *function) {
                Some((f, n1)) => {
                    &&& captures_nothing_in_values(fuel, n1, args)
                    &&& match reduce_values(fuel, n1, args) {
                        Some((vs, n2)) => match f {
                            Comp::Lambda { args: params, body, may_have_complex_effects } => {
                                let k = lesser(vs.len(), params.len());
                                let (next, n3) = contract(
                                    n2,
                                    params,
                                    *body,
                                    may_have_complex_effects,
                                    vs,
                                );
                                &&& avoids(pair_up(params, vs, k), bound_in_comp(*body))
                                &&& fuel > 0 ==> captures_nothing((fuel - 1) as nat, n3, next)
                            },
                            _ => true,
                        },
                        None => true,
                    }
                },
                None => true,
            }
        },
        Comp::Return { value } => captures_nothing_in_value(fuel, n, value),
        Comp::Force { thunk, .. } => {
            &&& captures_nothing_in_value(fuel, n, thunk)
            &&& match reduce_value(fuel, n, thunk) {
                Some((Value::Thunk { t, .. }, n1)) => fuel > 0 ==> captures_nothing(
                    (fuel - 1) as nat,
                    n1,
                    *t,
                ),
                _ => true,
            }
        },
        Comp::Def { .. } => true,
        Comp::PrimitiveCall { args, .. } => captures_nothing_in_values(fuel, n, args),
        Comp::Lambda { body, .. } => captures_nothing(fuel, n, *body),
    }
}

/// Binders that are apart from variables occur once, and not among these.
proof fn lemma_apart_once(x: usize, bound: Seq<usize>, free: Set<usize>)
    requires
        apart(bound, free),
    ensures
        times(x, bound) <= 1,
        times(x, bound) > 0 ==> !free.contains(x),
        times(x, bound) > 0 <==> bound.contains(x),
{
    broadcast use vstd::seq_lib::group_to_multiset_ensures;

    lemma_times_once(x, bound);
}

/// What is among the binders and variables of a part is so among all.
proof fn lemma_apart_part(
    bound: Seq<usize>,
    free: Set<usize>,
    part: Seq<usize>,
    part_free: Set<usize>,
)
    requires
        apart(bound, free),
        forall|x: usize| #[trigger] times(x, part) <= times(x, bound),
        forall|x: usize| #[trigger]
            part_free.contains(x) ==> free.contains(x) || times(x, part) == 0,
    ensures
        apart(part, part_free),
{
    broadcast use vstd::seq_lib::group_to_multiset_ensures;

    assert forall|x: usize| #[trigger] times(x, part) <= 1 by {
        lemma_apart_once(x, bound, free);
    }
    lemma_once_each(part);
    assert forall|x: usize| #[trigger] part.contains(x) implies !part_free.contains(x) by {
        lemma_apart_once(x, bound, free);
        assert(times(x, part) > 0);
    }
}

/// Binders and variables stay apart where variables become fewer, and only unused binders are
/// added, each once.
proof fn lemma_apart_reduced(
    n: nat,
    m: nat,
    bound: Seq<usize>,
    free: Set<usize>,
    new_bound: Seq<usize>,
    new_free: Set<usize>,
)
    requires
        apart(bound, free),
        all_below(n, bound),
        below(free, n),
        forall|x: usize| #[trigger] times(x, new_bound) <= times(x, bound) + fresh(n, m, x),
        new_free.subset_of(free),
    ensures
        apart(new_bound, new_free),
{
    broadcast use vstd::seq_lib::group_to_multiset_ensures;

    assert forall|x: usize| #[trigger] times(x, new_bound) <= 1 by {
        lemma_apart_once(x, bound, free);
        if n <= x {
            assert(!bound.contains(x));
        }
    }
    lemma_once_each(new_bound);
    assert forall|x: usize| #[trigger] new_bound.contains(x) implies !new_free.contains(x) by {
        lemma_apart_once(x, bound, free);
        assert(times(x, new_bound) > 0);
        if new_free.contains(x) {
            assert(free.contains(x));
        }
    }
}

/// The body of a hygienic lambda is hygienic.
proof fn lemma_hygienic_body(params: Seq<(usize, VType)>, body: Comp, effects: bool)
    requires
        hygienic(
            Comp::Lambda {
                args: params,
                body: Box::new(body),
                may_have_complex_effects: effects,
            },
        ),
    ensures
        hygienic(body),
        forall|x: usize| #[trigger]
            bound_in_comp(body).contains(x) ==> !bound_by(params).contains(x),
{
    let c = Comp::Lambda {
        args: params,
        body: Box::new(body),
        may_have_complex_effects: effects,
    };
    let inner = bound_in_comp(body);
    assert(bound_in_comp(c) == indexes_of(params) + inner);
    assert forall|x: usize| #[trigger] inner.contains(x) implies !bound_by(params).contains(x) by {
        broadcast use vstd::seq_lib::group_to_multiset_ensures;

        lemma_times_concat(x, indexes_of(params), inner);
        lemma_apart_once(x, bound_in_comp(c), free_in_comp(c));
        assert(times(x, inner) > 0);
        if bound_by(params).contains(x) {
            let i = choose|i: int| 0 <= i < params.len() && (#[trigger] params[i]).0 == x;
            assert(indexes_of(params)[i] == x);
            assert(indexes_of(params).contains(x));
            assert(times(x, indexes_of(params)) > 0);
        }
    }
    assert forall|x: usize| #[trigger] times(x, inner) <= times(x, bound_in_comp(c)) by {
        lemma_times_concat(x, indexes_of(params), inner);
    }
    assert forall|x: usize| #[trigger] free_in_comp(body).contains(x) implies free_in_comp(
        c,
    ).contains(x) || times(x, inner) == 0 by {
        broadcast use vstd::seq_lib::group_to_multiset_ensures;

        if times(x, inner) > 0 {
            assert(inner.contains(x));
            assert(!bound_by(params).contains(x));
        }
    }
    lemma_apart_part(bound_in_comp(c), free_in_comp(c), inner, free_in_comp(body));
}

/// The parts of a hygienic application are hygienic.
proof fn lemma_hygienic_parts(function: Comp, args: Seq<Value>)
    requires
        hygienic(Comp::Redex { function: Box::new(function), args }),
    ensures
        hygienic(function),
        hygienic_values(args),
{
    let c = Comp::Redex { function: Box::new(function), args };
    assert(bound_in_comp(c) == bound_in_comp(function) + bound_in_values(args));
    assert forall|x: usize| #[trigger]
        times(x, bound_in_comp(function)) <= times(x, bound_in_comp(c)) by {
        lemma_times_concat(x, bound_in_comp(function), bound_in_values(args));
    }
    assert forall|x: usize| #[trigger]
        times(x, bound_in_values(args)) <= times(x, bound_in_comp(c)) by {
        lemma_times_concat(x, bound_in_comp(function), bound_in_values(args));
    }
    lemma_apart_part(
        bound_in_comp(c),
        free_in_comp(c),
        bound_in_comp(function),
        free_in_comp(function),
    );
    lemma_apart_part(
        bound_in_comp(c),
        free_in_comp(c),
        bound_in_values(args),
        free_in_values(args),
    );
}

/// The values of a hygienic sequence are hygienic.
proof fn lemma_hygienic_last(vs: Seq<Value>)
    requires
        hygienic_values(vs),
        vs.len() > 0,
    ensures
        hygienic_values(vs.drop_last()),
        hygienic_value(vs.last()),
{
    let front = bound_in_values(vs.drop_last());
    let last = bound_in_value(vs.last());
    assert(bound_in_values(vs) == front + last);
    assert forall|x: usize| #[trigger] times(x, front) <= times(x, bound_in_values(vs)) by {
        lemma_times_concat(x, front, last);
    }
    assert forall|x: usize| #[trigger] times(x, last) <= times(x, bound_in_values(vs)) by {
        lemma_times_concat(x, front, last);
    }
    lemma_apart_part(
        bound_in_values(vs),
        free_in_values(vs),
        front,
        free_in_values(vs.drop_last()),
    );
    lemma_apart_part(bound_in_values(vs), free_in_values(vs), last, free_in_value(vs.last()));
}

/// Applying a lambda captures nothing, where the application is hygienic.
proof fn lemma_application_avoids(
    params: Seq<(usize, VType)>,
    body: Comp,
    effects: bool,
    args: Seq<Value>,
)
    requires
        hygienic(
            Comp::Redex {
                function: Box::new(
                    Comp::Lambda {
                        args: params,
                        body: Box::new(body),
                        may_have_complex_effects: effects,
                    },
                ),
                args,
            },
        ),
    ensures
        avoids(pair_up(params, args, lesser(args.len(), params.len())), bound_in_comp(body)),
{
    let lambda = Comp::Lambda {
        args: params,
        body: Box::new(body),
        may_have_complex_effects: effects,
    };
    let c = Comp::Redex { function: Box::new(lambda), args };
    let k = lesser(args.len(), params.len());
    let bindings = pair_up(params, args, k);
    let bound = bound_in_comp(body);
    lemma_hygienic_parts(lambda, args);
    lemma_hygienic_body(params, body, effects);
    lemma_pair_up(params, args, k);
    assert forall|i: int| 0 <= i < bound.len() implies !bindings.contains_key(#[trigger] bound[i])
        && !free_in_bindings(bindings, bound[i]) by {
        let x = bound[i];
        assert(bound.contains(x));
        if bindings.contains_key(x) {
            assert(bound_by(params.take(k as int)).contains(x));
            let j = choose|j: int|
                0 <= j < params.take(k as int).len() && (#[trigger] params.take(k as int)[j]).0
                    == x;
            assert(params[j].0 == x);
            assert(bound_by(params).contains(x));
        }
        if free_in_bindings(bindings, x) {
            let y = choose|y: usize| #[trigger]
                bindings.contains_key(y) && free_in_value(bindings[y]).contains(x);
            let j = choose|j: int| 0 <= j < k && #[trigger] args[j] == bindings[y];
            assert(free_in_value(args[j]).contains(x));
            lemma_free_in_values(args, x);
            assert(free_in_comp(c).contains(x));
            let front = indexes_of(params) + bound;
            assert(front[params.len() + i] == x);
            assert(bound_in_comp(c)[params.len() + i] == x);
            assert(bound_in_comp(c).contains(x));
        }
    }
}

proof fn lemma_captures_nothing_in_value(fuel: nat, n: nat, v: Value)
    requires
        hygienic_value(v),
        within_value(n, v),
        reduce_value(fuel, n, v) is Some,
        (reduce_value(fuel, n, v)->0).1 <= usize::MAX,
    ensures
        captures_nothing_in_value(fuel, n, v),
    decreases fuel, v,
{
    if let Value::Thunk { t, .. } = v {
        lemma_captures_nothing_in_comp(fuel, n, *t);
    }
}

proof fn lemma_captures_nothing_in_values(fuel: nat, n: nat, vs: Seq<Value>)
    requires
        hygienic_values(vs),
        within_values(n, vs),
        reduce_values(fuel, n, vs) is Some,
        (reduce_values(fuel, n, vs)->0).1 <= usize::MAX,
    ensures
        captures_nothing_in_values(fuel, n, vs),
    decreases fuel, vs,
{
    if vs.len() > 0 {
        let front = vs.drop_last();
        let (_, n1) = reduce_values(fuel, n, front)->0;
        lemma_hygienic_last(vs);
        assert(within_values(n, front));
        assert(within_value(n, vs[vs.len() - 1]));
        lemma_reduce_counts_values(fuel, n, front);
        lemma_reduce_counts_value(fuel, n1, vs.last());
        lemma_within_more_values(n, n1, vs);
        assert(within_value(n1, vs[vs.len() - 1]));
        lemma_captures_nothing_in_values(fuel, n, front);
        lemma_captures_nothing_in_value(fuel, n1, vs.last());
    }
}

proof fn lemma_captures_nothing_in_comp(fuel: nat, n: nat, c: Comp)
    requires
        hygienic(c),
        within(n, c),
        reduce_comp(fuel, n, c) is Some,
        (reduce_comp(fuel, n, c)->0).1 <= usize::MAX,
    ensures
        captures_nothing(fuel, n, c),
    decreases fuel, c,
{
    match c {
        Comp::Redex { function, args } => {
            let (f, n1) = reduce_comp(fuel, n, *function)->0;
            let (vs, n2) = reduce_values(fuel, n1, args)->0;
            lemma_reduce_counts(fuel, n, *function);
            lemma_reduce_counts_values(fuel, n1, args);
            lemma_within_more_values(n, n1, args);
            lemma_hygienic_parts(*function, args);
            if let Comp::Lambda { args: params, body, may_have_complex_effects } = f {
                let (next, n3) = contract(n2, params, *body, may_have_complex_effects, vs);
                lemma_reduce_counts((fuel - 1) as nat, n3, next);
                lemma_captures_nothing_in_comp(fuel, n, *function);
                lemma_captures_nothing_in_values(fuel, n1, args);
                lemma_step_is_hygienic(fuel, n, *function, args);
                lemma_captures_nothing_in_comp((fuel - 1) as nat, n3, next);
            } else {
                lemma_captures_nothing_in_comp(fuel, n, *function);
                lemma_captures_nothing_in_values(fuel, n1, args);
            }
        },
        Comp::Return { value } => {
            lemma_captures_nothing_in_value(fuel, n, value);
        },
        Comp::Force { thunk, .. } => {
            let (v, n1) = reduce_value(fuel, n, thunk)->0;
            lemma_reduce_counts_value(fuel, n, thunk);
            if let Value::Thunk { t, .. } = v {
                lemma_reduce_counts((fuel - 1) as nat, n1, *t);
                lemma_captures_nothing_in_value(fuel, n, thunk);
                lemma_forced_is_hygienic(fuel, n, thunk);
                lemma_captures_nothing_in_comp((fuel - 1) as nat, n1, *t);
            } else {
                lemma_captures_nothing_in_value(fuel, n, thunk);
            }
        },
        Comp::Def { .. } => {},
        Comp::PrimitiveCall { args, .. } => {
            lemma_captures_nothing_in_values(fuel, n, args);
        },
        Comp::Lambda { args, body, may_have_complex_effects } => {
            lemma_hygienic_body(args, *body, may_have_complex_effects);
            lemma_captures_nothing_in_comp(fuel, n, *body);
        },
    }
}

/// A thunk that is hygienic is so after it was reduced.
proof fn lemma_forced_is_hygienic(fuel: nat, n: nat, v: Value)
    requires
        hygienic_value(v),
        within_value(n, v),
        reduce_value(fuel, n, v) is Some,
        (reduce_value(fuel, n, v)->0).1 <= usize::MAX,
    ensures
        hygienic_value((reduce_value(fuel, n, v)->0).0),
        within_value((reduce_value(fuel, n, v)->0).1, (reduce_value(fuel, n, v)->0).0),
{
    let (new, n1) = reduce_value(fuel, n, v)->0;
    lemma_reduce_counts_value(fuel, n, v);
    lemma_bound_within_value(n, v);
    lemma_captures_within_value(n, v);
    lemma_free_reduced_value(fuel, n, v);
    lemma_reduced_within_value(fuel, n, v);
    assert forall|x: usize| #[trigger] times(x, bound_in_value(new)) <= times(x, bound_in_value(v))
        + fresh(n, n1, x) by {
        lemma_bound_reduced_value(x, fuel, n, v);
    }
    lemma_apart_reduced(
        n,
        n1,
        bound_in_value(v),
        free_in_value(v),
        bound_in_value(new),
        free_in_value(new),
    );
}

/// An application that is hygienic is so after its parts were reduced, and after the step that it
/// takes if a lambda is applied. That step captures nothing.
proof fn lemma_step_is_hygienic(fuel: nat, n: nat, function: Comp, args: Seq<Value>)
    requires
        ({
            let (f, n1) = reduce_comp(fuel, n, function)->0;
            let (vs, n2) = reduce_values(fuel, n1, args)->0;
            &&& hygienic(Comp::Redex { function: Box::new(function), args })
            &&& within(n, function)
            &&& within_values(n, args)
            &&& reduce_comp(fuel, n, function) is Some
            &&& reduce_values(fuel, n1, args) is Some
            &&& f is Lambda
            &&& contract(
                n2,
                f->Lambda_args,
                *f->Lambda_body,
                f->Lambda_may_have_complex_effects,
                vs,
            ).1 <= usize::MAX
        }),
    ensures
        ({
            let (f, n1) = reduce_comp(fuel, n, function)->0;
            let (vs, n2) = reduce_values(fuel, n1, args)->0;
            let params = f->Lambda_args;
            let body = *f->Lambda_body;
            let (next, n3) = contract(
                n2,
                params,
                body,
                f->Lambda_may_have_complex_effects,
                vs,
            );
            &&& avoids(pair_up(params, vs, lesser(vs.len(), params.len())), bound_in_comp(body))
            &&& hygienic(next)
            &&& within(n3, next)
        }),
{
    let c = Comp::Redex { function: Box::new(function), args };
    let (f, n1) = reduce_comp(fuel, n, function)->0;
    let (vs, n2) = reduce_values(fuel, n1, args)->0;
    let params = f->Lambda_args;
    let body = *f->Lambda_body;
    let effects = f->Lambda_may_have_complex_effects;
    let (next, n3) = contract(n2, params, body, effects, vs);
    let r = Comp::Redex { function: Box::new(f), args: vs };
    assert(within(n, c));
    lemma_reduce_counts(fuel, n, function);
    lemma_reduce_counts_values(fuel, n1, args);
    lemma_within_more_values(n, n1, args);
    lemma_bound_within(n, c);
    lemma_captures_within(n, c);
    lemma_free_reduced_comp(fuel, n, function);
    lemma_free_reduced_values(fuel, n1, args);
    lemma_reduced_within_comp(fuel, n, function);
    lemma_reduced_within_values(fuel, n1, args);
    lemma_within_more(n1, n2, f);
    assert(within(n2, r));
    assert(bound_in_comp(c) == bound_in_comp(function) + bound_in_values(args));
    assert(bound_in_comp(r) == bound_in_comp(f) + bound_in_values(vs));
    assert forall|x: usize| #[trigger] times(x, bound_in_comp(r)) <= times(x, bound_in_comp(c))
        + fresh(n, n2, x) by {
        lemma_bound_reduced(x, fuel, n, function);
        lemma_bound_reduced_values(x, fuel, n1, args);
        lemma_times_concat(x, bound_in_comp(function), bound_in_values(args));
        lemma_times_concat(x, bound_in_comp(f), bound_in_values(vs));
    }
    lemma_apart_reduced(
        n,
        n2,
        bound_in_comp(c),
        free_in_comp(c),
        bound_in_comp(r),
        free_in_comp(r),
    );
    lemma_application_avoids(params, body, effects, vs);
    lemma_bound_within(n2, r);
    lemma_captures_within(n2, r);
    lemma_contracted_within(n2, params, body, effects, vs);
    assert(bound_in_comp(f) == indexes_of(params) + bound_in_comp(body));
    assert forall|x: usize| #[trigger] times(x, bound_in_comp(next)) <= times(x, bound_in_comp(r))
        + fresh(n2, n3, x) by {
        lemma_bound_contracted(x, n2, params, body, effects, vs);
        lemma_times_concat(x, bound_in_comp(f), bound_in_values(vs));
        lemma_times_concat(x, indexes_of(params), bound_in_comp(body));
    }
    assert forall|x: usize| free_in_comp(next).contains(x) implies free_in_comp(r).contains(x) by {
        lemma_free_contracted(n2, params, body, effects, vs, x);
    }
    lemma_apart_reduced(
        n2,
        n3,
        bound_in_comp(r),
        free_in_comp(r),
        bound_in_comp(next),
        free_in_comp(next),
    );
}

/// Reduction captures no variable, where all local variables are distinct and all indexes from `n`
/// on are unused: no binder of the body of an applied lambda is replaced, or free in a value that
/// is put in. Afterwards all local variables are distinct again.
pub proof fn lemma_reduction_captures_nothing(fuel: nat, n: nat, c: Comp)
    requires
        hygienic(c),
        within(n, c),
        reduce_comp(fuel, n, c) is Some,
        (reduce_comp(fuel, n, c)->0).1 <= usize::MAX,
    ensures
        captures_nothing(fuel, n, c),
        hygienic((reduce_comp(fuel, n, c)->0).0),
{
    let (new, m) = reduce_comp(fuel, n, c)->0;
    lemma_reduce_counts(fuel, n, c);
    lemma_captures_nothing_in_comp(fuel, n, c);
    lemma_bound_within(n, c);
    lemma_captures_within(n, c);
    lemma_free_reduced_comp(fuel, n, c);
    assert forall|x: usize| #[trigger] times(x, bound_in_comp(new)) <= times(x, bound_in_comp(c))
        + fresh(n, m, x) by {
        lemma_bound_reduced(x, fuel, n, c);
    }
    lemma_apart_reduced(
        n,
        m,
        bound_in_comp(c),
        free_in_comp(c),
        bound_in_comp(new),
        free_in_comp(new),
    );
}

/// The reduction of a definition that binds all its variables captures none, where these are
/// distinct and less than its `var_bound`.
pub proof fn lemma_reduced_definition_captures_nothing(fuel: nat, def: Definition)
    requires
        has_distinct_vars(def),
        closed_definition(def),
        vars_fit(def),
        reducible(def),
        reduce_comp(fuel, first_unused(def), def.body) is Some,
    ensures
        captures_nothing(fuel, first_unused(def), def.body),
{
    let n = first_unused(def);
    let bound = bound_in_comp(def.body);
    let params = indexes_of(def.args);
    lemma_reduced_vars_fit(def);
    lemma_reduced(fuel, n, def.body);
    lemma_parts_distinct(params, bound);
    assert forall|x: usize| #[trigger] bound.contains(x) implies !free_in_comp(def.body).contains(
        x,
    ) by {
        let i = bound.index_of(x);
        if free_in_comp(def.body).contains(x) {
            assert(bound_by(def.args).contains(x));
            let j = choose|j: int| 0 <= j < def.args.len() && (#[trigger] def.args[j]).0 == x;
            let all = bound_in_definition(def);
            assert(all[j] == x);
            assert(all[params.len() + i] == x);
        }
    }
    lemma_reduction_captures_nothing(fuel, n, def.body);
}

} // verus!
