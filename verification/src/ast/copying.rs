//! What reduction copies.
//!
//! Reduction puts an argument in place of every use of a parameter. Where it copies binders, these
//! are numbered anew, such that all local variables stay distinct. Where it copies nothing at all,
//! it comes to an end.
use crate::ast::binding::{
    bound_in_comp, bound_in_definition, bound_in_value, bound_in_values, has_distinct_vars,
    indexes_from, indexes_of, lemma_bound_len_value, lemma_bound_renamed, lemma_bound_simplified,
};
use crate::ast::normal_form::lemma_reduced;
use crate::ast::reducer::{
    applied, contract, copies_no_binder, lemma_reduce_counts, lemma_reduce_counts_value,
    lemma_reduce_counts_values, reduce_comp, reduce_value, reduce_values, reduced, reduces,
};
use crate::ast::redundancy::{simplify_comp, simplify_value, simplify_values};
use crate::ast::renamer::binders_in_comp;
use crate::ast::scope::{
    lemma_bound_within, lemma_reduced_within, lemma_top_within, vars_fit, within,
};
use crate::ast::signature::{first_unused, reducible, reduce_definition, Definition};
use crate::ast::substitutor::{pair_up, substitute, substitute_in_value, substitute_in_values};
use crate::ast::term::{Comp, VType, Value};
use crate::ast::usage::{
    lemma_top_of_params, lemma_top_of_params_below, lesser, uses, uses_in_value, uses_in_values,
};
use vstd::prelude::*;
use vstd::seq_lib::lemma_multiset_commutative;

verus! {

/// How often `x` occurs in `s`.
pub open spec fn times(x: usize, s: Seq<usize>) -> nat {
    s.to_multiset().count(x)
}

/// What occurs in two sequences occurs as often in both together.
pub proof fn lemma_times_concat(x: usize, s: Seq<usize>, t: Seq<usize>)
    ensures
        times(x, s + t) == times(x, s) + times(x, t),
{
    lemma_multiset_commutative(s, t);
}

/// Nothing occurs in an empty sequence.
pub proof fn lemma_times_empty(x: usize, s: Seq<usize>)
    requires
        s.len() == 0,
    ensures
        times(x, s) == 0,
{
    broadcast use vstd::seq_lib::group_to_multiset_ensures;

    assert(!s.contains(x));
}

/// What occurs no more often than in a sequence without duplicates has none.
pub proof fn lemma_times_distinct(s: Seq<usize>, t: Seq<usize>)
    requires
        t.no_duplicates(),
        forall|x: usize| times(x, s) <= #[trigger] times(x, t),
    ensures
        s.no_duplicates(),
{
    t.lemma_multiset_has_no_duplicates();
    assert forall|x: usize| s.to_multiset().contains(x) implies s.to_multiset().count(x) == 1 by {
        assert(times(x, s) <= times(x, t));
    }
    s.lemma_multiset_has_no_duplicates_conv();
}

/// The sum of the weights of the values that a substitution puts into a value.
spec fn brought_into_value(w: spec_fn(Value) -> nat, bindings: Map<usize, Value>, v: Value) -> nat
    decreases v,
{
    match v {
        Value::Var { index } => if bindings.contains_key(index) {
            w(bindings[index])
        } else {
            0
        },
        Value::Int { .. } => 0,
        Value::Thunk { t, .. } => brought(w, bindings, *t),
    }
}

/// The sum of the weights of the values that a substitution puts into a sequence of values.
spec fn brought_into_values(
    w: spec_fn(Value) -> nat,
    bindings: Map<usize, Value>,
    vs: Seq<Value>,
) -> nat
    decreases vs,
{
    if vs.len() == 0 {
        0
    } else {
        brought_into_values(w, bindings, vs.drop_last()) + brought_into_value(
            w,
            bindings,
            vs.last(),
        )
    }
}

/// The sum of the weights of the values that a substitution puts into a computation.
spec fn brought(w: spec_fn(Value) -> nat, bindings: Map<usize, Value>, c: Comp) -> nat
    decreases c,
{
    match c {
        Comp::Redex { function, args } => brought(w, bindings, *function) + brought_into_values(
            w,
            bindings,
            args,
        ),
        Comp::Return { value } => brought_into_value(w, bindings, value),
        Comp::Force { thunk, .. } => brought_into_value(w, bindings, thunk),
        Comp::Def { .. } => 0,
        Comp::PrimitiveCall { args, .. } => brought_into_values(w, bindings, args),
        Comp::Lambda { body, .. } => brought(w, bindings, *body),
    }
}

/// The sum of the weights of `vs`.
spec fn total(w: spec_fn(Value) -> nat, vs: Seq<Value>) -> nat
    decreases vs.len(),
{
    if vs.len() == 0 {
        0
    } else {
        total(w, vs.drop_last()) + w(vs.last())
    }
}

/// The weight of what one more binding brings, of which `n` uses are left.
spec fn weight_once(w: spec_fn(Value) -> nat, a: Value, n: nat) -> nat {
    if n == 0 {
        0
    } else {
        w(a)
    }
}

proof fn lemma_brought_insert_value(
    w: spec_fn(Value) -> nat,
    m: Map<usize, Value>,
    p: usize,
    a: Value,
    v: Value,
)
    requires
        uses_in_value(p, v) <= 1 || w(a) == 0,
    ensures
        brought_into_value(w, m.insert(p, a), v) <= brought_into_value(w, m, v) + weight_once(
            w,
            a,
            uses_in_value(p, v),
        ),
    decreases v,
{
    if let Value::Thunk { t, .. } = v {
        lemma_brought_insert(w, m, p, a, *t);
    }
}

proof fn lemma_brought_insert_values(
    w: spec_fn(Value) -> nat,
    m: Map<usize, Value>,
    p: usize,
    a: Value,
    vs: Seq<Value>,
)
    requires
        uses_in_values(p, vs) <= 1 || w(a) == 0,
    ensures
        brought_into_values(w, m.insert(p, a), vs) <= brought_into_values(w, m, vs) + weight_once(
            w,
            a,
            uses_in_values(p, vs),
        ),
    decreases vs,
{
    if vs.len() > 0 {
        lemma_brought_insert_values(w, m, p, a, vs.drop_last());
        lemma_brought_insert_value(w, m, p, a, vs.last());
    }
}

/// One more binding brings its weight no more than once, if it is used no more than once or has no
/// weight.
proof fn lemma_brought_insert(
    w: spec_fn(Value) -> nat,
    m: Map<usize, Value>,
    p: usize,
    a: Value,
    c: Comp,
)
    requires
        uses(p, c) <= 1 || w(a) == 0,
    ensures
        brought(w, m.insert(p, a), c) <= brought(w, m, c) + weight_once(w, a, uses(p, c)),
    decreases c,
{
    match c {
        Comp::Redex { function, args } => {
            lemma_brought_insert(w, m, p, a, *function);
            lemma_brought_insert_values(w, m, p, a, args);
        },
        Comp::Return { value } => {
            lemma_brought_insert_value(w, m, p, a, value);
        },
        Comp::Force { thunk, .. } => {
            lemma_brought_insert_value(w, m, p, a, thunk);
        },
        Comp::Def { .. } => {},
        Comp::PrimitiveCall { args, .. } => {
            lemma_brought_insert_values(w, m, p, a, args);
        },
        Comp::Lambda { body, .. } => {
            lemma_brought_insert(w, m, p, a, *body);
        },
    }
}

proof fn lemma_brought_none_value(w: spec_fn(Value) -> nat, v: Value)
    ensures
        brought_into_value(w, Map::empty(), v) == 0,
    decreases v,
{
    if let Value::Thunk { t, .. } = v {
        lemma_brought_none(w, *t);
    }
}

proof fn lemma_brought_none_values(w: spec_fn(Value) -> nat, vs: Seq<Value>)
    ensures
        brought_into_values(w, Map::empty(), vs) == 0,
    decreases vs,
{
    if vs.len() > 0 {
        lemma_brought_none_values(w, vs.drop_last());
        lemma_brought_none_value(w, vs.last());
    }
}

/// Without bindings nothing is brought.
proof fn lemma_brought_none(w: spec_fn(Value) -> nat, c: Comp)
    ensures
        brought(w, Map::empty(), c) == 0,
    decreases c,
{
    match c {
        Comp::Redex { function, args } => {
            lemma_brought_none(w, *function);
            lemma_brought_none_values(w, args);
        },
        Comp::Return { value } => {
            lemma_brought_none_value(w, value);
        },
        Comp::Force { thunk, .. } => {
            lemma_brought_none_value(w, thunk);
        },
        Comp::Def { .. } => {},
        Comp::PrimitiveCall { args, .. } => {
            lemma_brought_none_values(w, args);
        },
        Comp::Lambda { body, .. } => {
            lemma_brought_none(w, *body);
        },
    }
}

/// The arguments are brought no more than once each.
proof fn lemma_brought_pairs(
    w: spec_fn(Value) -> nat,
    params: Seq<(usize, VType)>,
    args: Seq<Value>,
    k: nat,
    body: Comp,
)
    requires
        k <= params.len(),
        k <= args.len(),
        forall|i: int|
            0 <= i < k ==> uses((#[trigger] params[i]).0, body) <= 1 || w(args[i]) == 0,
    ensures
        brought(w, pair_up(params, args, k), body) <= total(w, args.take(k as int)),
    decreases k,
{
    if k == 0 {
        lemma_brought_none(w, body);
    } else {
        let less = (k - 1) as nat;
        lemma_brought_pairs(w, params, args, less, body);
        assert(uses(params[less as int].0, body) <= 1 || w(args[less as int]) == 0);
        lemma_brought_insert(
            w,
            pair_up(params, args, less),
            params[less as int].0,
            args[less as int],
            body,
        );
        assert(args.take(k as int).drop_last() =~= args.take(less as int));
    }
}

proof fn lemma_total_concat(w: spec_fn(Value) -> nat, vs: Seq<Value>, more: Seq<Value>)
    ensures
        total(w, vs + more) == total(w, vs) + total(w, more),
    decreases more.len(),
{
    if more.len() == 0 {
        assert(vs + more =~= vs);
    } else {
        lemma_total_concat(w, vs, more.drop_last());
        assert((vs + more).drop_last() =~= vs + more.drop_last());
    }
}

/// How often a value binds `x`.
spec fn binding_weight(x: usize) -> spec_fn(Value) -> nat {
    |v: Value| times(x, bound_in_value(v))
}

proof fn lemma_total_bound(x: usize, vs: Seq<Value>)
    ensures
        total(binding_weight(x), vs) == times(x, bound_in_values(vs)),
    decreases vs.len(),
{
    if vs.len() == 0 {
        lemma_times_empty(x, bound_in_values(vs));
    } else {
        lemma_total_bound(x, vs.drop_last());
        lemma_times_concat(x, bound_in_values(vs.drop_last()), bound_in_value(vs.last()));
    }
}

proof fn lemma_bound_substituted_value(x: usize, bindings: Map<usize, Value>, v: Value)
    ensures
        times(x, bound_in_value(substitute_in_value(bindings, v))) == times(x, bound_in_value(v))
            + brought_into_value(binding_weight(x), bindings, v),
    decreases v,
{
    match v {
        Value::Thunk { t, .. } => {
            lemma_bound_substituted(x, bindings, *t);
        },
        _ => {
            lemma_times_empty(x, bound_in_value(v));
        },
    }
}

proof fn lemma_bound_substituted_values(x: usize, bindings: Map<usize, Value>, vs: Seq<Value>)
    ensures
        times(x, bound_in_values(substitute_in_values(bindings, vs))) == times(
            x,
            bound_in_values(vs),
        ) + brought_into_values(binding_weight(x), bindings, vs),
    decreases vs,
{
    let new = substitute_in_values(bindings, vs);
    if vs.len() > 0 {
        lemma_bound_substituted_values(x, bindings, vs.drop_last());
        lemma_bound_substituted_value(x, bindings, vs.last());
        assert(new.drop_last() =~= substitute_in_values(bindings, vs.drop_last()));
        lemma_times_concat(x, bound_in_values(vs.drop_last()), bound_in_value(vs.last()));
        lemma_times_concat(x, bound_in_values(new.drop_last()), bound_in_value(new.last()));
    }
}

/// A substitution adds the binders of the values that it puts in.
proof fn lemma_bound_substituted(x: usize, bindings: Map<usize, Value>, c: Comp)
    ensures
        times(x, bound_in_comp(substitute(bindings, c))) == times(x, bound_in_comp(c)) + brought(
            binding_weight(x),
            bindings,
            c,
        ),
    decreases c,
{
    match c {
        Comp::Redex { function, args } => {
            lemma_bound_substituted(x, bindings, *function);
            lemma_bound_substituted_values(x, bindings, args);
            lemma_times_concat(x, bound_in_comp(*function), bound_in_values(args));
            lemma_times_concat(
                x,
                bound_in_comp(substitute(bindings, *function)),
                bound_in_values(substitute_in_values(bindings, args)),
            );
        },
        Comp::Return { value } => {
            lemma_bound_substituted_value(x, bindings, value);
        },
        Comp::Force { thunk, .. } => {
            lemma_bound_substituted_value(x, bindings, thunk);
        },
        Comp::Def { .. } => {},
        Comp::PrimitiveCall { args, .. } => {
            lemma_bound_substituted_values(x, bindings, args);
        },
        Comp::Lambda { args, body, .. } => {
            lemma_bound_substituted(x, bindings, *body);
            lemma_times_concat(x, indexes_of(args), bound_in_comp(*body));
            lemma_times_concat(x, indexes_of(args), bound_in_comp(substitute(bindings, *body)));
        },
    }
}

/// Applying a lambda adds no binder, if it copies none.
proof fn lemma_bound_applied(
    x: usize,
    params: Seq<(usize, VType)>,
    body: Comp,
    effects: bool,
    args: Seq<Value>,
)
    requires
        copies_no_binder(params, body, args),
    ensures
        times(x, bound_in_comp(applied(params, body, effects, args))) <= times(
            x,
            indexes_of(params),
        ) + times(x, bound_in_comp(body)) + times(x, bound_in_values(args)),
{
    let k = lesser(args.len(), params.len());
    let w = binding_weight(x);
    let bindings = pair_up(params, args, k);
    let rest = params.skip(k as int);
    let more = args.skip(k as int);
    let new_body = substitute(bindings, body);
    let lambda = Comp::Lambda {
        args: rest,
        body: Box::new(new_body),
        may_have_complex_effects: effects,
    };
    let redex = Comp::Redex { function: Box::new(lambda), args: more };
    lemma_bound_simplified(redex);
    assert forall|i: int| 0 <= i < k implies uses((#[trigger] params[i]).0, body) <= 1 || w(args[i])
        == 0 by {
        if uses(params[i].0, body) > 1 {
            lemma_bound_len_value(args[i]);
            lemma_times_empty(x, bound_in_value(args[i]));
        }
    }
    lemma_brought_pairs(w, params, args, k, body);
    lemma_bound_substituted(x, bindings, body);
    lemma_total_concat(w, args.take(k as int), more);
    assert(args.take(k as int) + more =~= args);
    lemma_total_bound(x, args);
    lemma_total_bound(x, more);
    lemma_times_concat(x, indexes_of(params.take(k as int)), indexes_of(rest));
    assert(indexes_of(params.take(k as int)) + indexes_of(rest) =~= indexes_of(params));
    assert(bound_in_comp(lambda) == indexes_of(rest) + bound_in_comp(new_body));
    lemma_times_concat(x, indexes_of(rest), bound_in_comp(new_body));
    lemma_times_concat(x, bound_in_comp(lambda), bound_in_values(more));
}

/// How often `x` is among the indexes from `n` up to `m`.
pub open spec fn fresh(n: nat, m: nat, x: usize) -> nat {
    if n <= x < m {
        1
    } else {
        0
    }
}

proof fn lemma_times_fresh(x: usize, n: nat, k: nat)
    requires
        n + k <= usize::MAX,
    ensures
        times(x, indexes_from(n, k)) <= fresh(n, n + k, x),
{
    broadcast use vstd::seq_lib::group_to_multiset_ensures;

    let s = indexes_from(n, k);
    s.lemma_multiset_has_no_duplicates();
    if times(x, s) > 0 {
        assert(s.contains(x));
        let i = s.index_of(x);
        assert(s[i] == n + i);
        assert(s.to_multiset().contains(x));
    }
}

/// A step of reduction adds no binder but unused ones, each once.
pub proof fn lemma_bound_contracted(
    x: usize,
    n: nat,
    params: Seq<(usize, VType)>,
    body: Comp,
    effects: bool,
    args: Seq<Value>,
)
    requires
        contract(n, params, body, effects, args).1 <= usize::MAX,
    ensures
        ({
            let (next, m) = contract(n, params, body, effects, args);
            times(x, bound_in_comp(next)) <= times(x, indexes_of(params)) + times(
                x,
                bound_in_comp(body),
            ) + times(x, bound_in_values(args)) + fresh(n, m, x)
        }),
{
    if copies_no_binder(params, body, args) {
        lemma_bound_applied(x, params, body, effects, args);
    } else {
        let c = applied(params, body, effects, args);
        lemma_bound_renamed(Map::empty(), n, c);
        lemma_times_fresh(x, n, binders_in_comp(c));
    }
}

/// As [`lemma_bound_reduced`], for values.
pub proof fn lemma_bound_reduced_value(x: usize, fuel: nat, n: nat, v: Value)
    requires
        reduce_value(fuel, n, v) is Some,
        (reduce_value(fuel, n, v)->0).1 <= usize::MAX,
    ensures
        times(x, bound_in_value((reduce_value(fuel, n, v)->0).0)) <= times(x, bound_in_value(v))
            + fresh(n, (reduce_value(fuel, n, v)->0).1, x),
    decreases fuel, v,
{
    if let Value::Thunk { t, .. } = v {
        lemma_bound_reduced(x, fuel, n, *t);
    }
}

/// As [`lemma_bound_reduced`], for sequences of values.
pub proof fn lemma_bound_reduced_values(x: usize, fuel: nat, n: nat, vs: Seq<Value>)
    requires
        reduce_values(fuel, n, vs) is Some,
        (reduce_values(fuel, n, vs)->0).1 <= usize::MAX,
    ensures
        times(x, bound_in_values((reduce_values(fuel, n, vs)->0).0)) <= times(
            x,
            bound_in_values(vs),
        ) + fresh(n, (reduce_values(fuel, n, vs)->0).1, x),
    decreases fuel, vs,
{
    if vs.len() > 0 {
        let front = vs.drop_last();
        let (new_front, n1) = reduce_values(fuel, n, front)->0;
        lemma_reduce_counts_values(fuel, n, front);
        lemma_reduce_counts_value(fuel, n1, vs.last());
        lemma_bound_reduced_values(x, fuel, n, front);
        lemma_bound_reduced_value(x, fuel, n1, vs.last());
        let new = (reduce_values(fuel, n, vs)->0).0;
        assert(new.drop_last() =~= new_front);
        lemma_times_concat(x, bound_in_values(front), bound_in_value(vs.last()));
        lemma_times_concat(x, bound_in_values(new_front), bound_in_value(new.last()));
    }
}

/// Reduction adds no binder but unused ones, each once.
pub proof fn lemma_bound_reduced(x: usize, fuel: nat, n: nat, c: Comp)
    requires
        reduce_comp(fuel, n, c) is Some,
        (reduce_comp(fuel, n, c)->0).1 <= usize::MAX,
    ensures
        times(x, bound_in_comp((reduce_comp(fuel, n, c)->0).0)) <= times(x, bound_in_comp(c))
            + fresh(n, (reduce_comp(fuel, n, c)->0).1, x),
    decreases fuel, c,
{
    match c {
        Comp::Redex { function, args } => {
            let (f, n1) = reduce_comp(fuel, n, *function)->0;
            let (vs, n2) = reduce_values(fuel, n1, args)->0;
            lemma_reduce_counts(fuel, n, *function);
            lemma_reduce_counts_values(fuel, n1, args);
            lemma_times_concat(x, bound_in_comp(*function), bound_in_values(args));
            lemma_times_concat(x, bound_in_comp(f), bound_in_values(vs));
            if let Comp::Lambda { args: params, body, may_have_complex_effects } = f {
                let (next, n3) = contract(n2, params, *body, may_have_complex_effects, vs);
                lemma_reduce_counts((fuel - 1) as nat, n3, next);
                lemma_bound_reduced(x, fuel, n, *function);
                lemma_bound_reduced_values(x, fuel, n1, args);
                lemma_times_concat(x, indexes_of(params), bound_in_comp(*body));
                lemma_bound_contracted(x, n2, params, *body, may_have_complex_effects, vs);
                lemma_bound_reduced(x, (fuel - 1) as nat, n3, next);
            } else {
                lemma_bound_reduced(x, fuel, n, *function);
                lemma_bound_reduced_values(x, fuel, n1, args);
            }
        },
        Comp::Return { value } => {
            lemma_bound_reduced_value(x, fuel, n, value);
        },
        Comp::Force { thunk, .. } => {
            let (v, n1) = reduce_value(fuel, n, thunk)->0;
            lemma_reduce_counts_value(fuel, n, thunk);
            if let Value::Thunk { t, .. } = v {
                lemma_reduce_counts((fuel - 1) as nat, n1, *t);
                lemma_bound_reduced_value(x, fuel, n, thunk);
                lemma_bound_reduced(x, (fuel - 1) as nat, n1, *t);
            } else {
                lemma_bound_reduced_value(x, fuel, n, thunk);
            }
        },
        Comp::Def { .. } => {},
        Comp::PrimitiveCall { args, .. } => {
            lemma_bound_reduced_values(x, fuel, n, args);
        },
        Comp::Lambda { args, body, .. } => {
            lemma_bound_reduced(x, fuel, n, *body);
            lemma_times_concat(x, indexes_of(args), bound_in_comp(*body));
            lemma_times_concat(
                x,
                indexes_of(args),
                bound_in_comp((reduce_comp(fuel, n, *body)->0).0),
            );
        },
    }
}

/// A sequence in which nothing occurs more than once has no duplicates.
pub proof fn lemma_once_each(s: Seq<usize>)
    requires
        forall|x: usize| #[trigger] times(x, s) <= 1,
    ensures
        s.no_duplicates(),
{
    assert forall|x: usize| s.to_multiset().contains(x) implies s.to_multiset().count(x) == 1 by {
        assert(times(x, s) <= 1);
    }
    s.lemma_multiset_has_no_duplicates_conv();
}

/// Reduction keeps binders distinct, where all indexes from `n` on are unused before.
pub proof fn lemma_reduced_distinct(n: nat, c: Comp)
    requires
        bound_in_comp(c).no_duplicates(),
        within(n, c),
        reduces(n, c),
        reduced(n, c).1 <= usize::MAX,
    ensures
        bound_in_comp(reduced(n, c).0).no_duplicates(),
{
    let fuel = choose|fuel: nat| (#[trigger] reduce_comp(fuel, n, c)) is Some;
    let bound = bound_in_comp(c);
    let r = reduced(n, c).0;
    assert forall|x: usize| #[trigger] times(x, bound_in_comp(r)) <= 1 by {
        lemma_bound_reduced(x, fuel, n, c);
        lemma_times_within(x, n, c);
        lemma_times_once(x, bound);
    }
    lemma_once_each(bound_in_comp(r));
}

/// In a sequence without duplicates nothing occurs more than once.
pub proof fn lemma_times_once(x: usize, s: Seq<usize>)
    requires
        s.no_duplicates(),
    ensures
        times(x, s) <= 1,
{
    s.lemma_multiset_has_no_duplicates();
    if times(x, s) > 0 {
        assert(s.to_multiset().contains(x));
    }
}

/// What is bound in a computation is less than `n`, if all indexes from there on are unused.
proof fn lemma_times_within(x: usize, n: nat, c: Comp)
    requires
        within(n, c),
    ensures
        times(x, bound_in_comp(c)) > 0 ==> x < n,
{
    broadcast use vstd::seq_lib::group_to_multiset_ensures;

    lemma_bound_within(n, c);
    if times(x, bound_in_comp(c)) > 0 {
        assert(bound_in_comp(c).contains(x));
    }
}

/// Reduction keeps the local variables of a definition distinct.
pub proof fn lemma_reduced_vars_are_distinct(def: Definition)
    requires
        has_distinct_vars(def),
        reducible(def),
    ensures
        has_distinct_vars(reduce_definition(def)),
{
    let n = first_unused(def);
    let fuel = choose|fuel: nat| (#[trigger] reduce_comp(fuel, n, def.body)) is Some;
    let new = reduce_definition(def);
    let (body, next) = reduced(n, def.body);
    let old_bound = bound_in_definition(def);
    let bound = bound_in_definition(new);
    lemma_reduce_counts(fuel, n, def.body);
    assert forall|x: usize| #[trigger] times(x, bound) <= 1 by {
        lemma_bound_reduced(x, fuel, n, def.body);
        lemma_times_concat(x, indexes_of(def.args), bound_in_comp(def.body));
        lemma_times_concat(x, indexes_of(def.args), bound_in_comp(new.body));
        lemma_times_once(x, old_bound);
        if n <= x < next {
            lemma_top_within(n, def.body);
            lemma_times_within(x, n, def.body);
            lemma_top_of_params(def.args);
            if times(x, indexes_of(def.args)) > 0 {
                broadcast use vstd::seq_lib::group_to_multiset_ensures;

                assert(indexes_of(def.args).contains(x));
                let i = indexes_of(def.args).index_of(x);
                assert(def.args[i].0 == x);
            }
        }
    }
    lemma_once_each(bound);
}

/// Reduction keeps `var_bound` fit for all local variables. It lowers it in no case.
pub proof fn lemma_reduced_vars_fit(def: Definition)
    requires
        reducible(def),
    ensures
        reduce_definition(def).var_bound >= def.var_bound,
        vars_fit(def) ==> first_unused(def) == def.var_bound,
        vars_fit(def) ==> vars_fit(reduce_definition(def)),
{
    let n = first_unused(def);
    let fuel = choose|fuel: nat| (#[trigger] reduce_comp(fuel, n, def.body)) is Some;
    lemma_reduce_counts(fuel, n, def.body);
    if vars_fit(def) {
        lemma_top_within(def.var_bound, def.body);
        lemma_top_of_params_below(def.args, def.var_bound);
        lemma_reduced_within(n, def.body);
    }
}

/// The number of constructors of a value, not counting variables and integers.
pub open spec fn size_of_value(v: Value) -> nat
    decreases v,
{
    match v {
        Value::Thunk { t, .. } => 1 + size(*t),
        _ => 0,
    }
}

/// The number of constructors of a sequence of values; see [`size_of_value`].
pub open spec fn size_of_values(vs: Seq<Value>) -> nat
    decreases vs,
{
    if vs.len() == 0 {
        0
    } else {
        size_of_values(vs.drop_last()) + size_of_value(vs.last())
    }
}

/// The number of constructors of a computation; see [`size_of_value`].
pub open spec fn size(c: Comp) -> nat
    decreases c,
{
    match c {
        Comp::Redex { function, args } => 1 + size(*function) + size_of_values(args),
        Comp::Return { value } => 1 + size_of_value(value),
        Comp::Force { thunk, .. } => 1 + size_of_value(thunk),
        Comp::Def { .. } => 1,
        Comp::PrimitiveCall { args, .. } => 1 + size_of_values(args),
        Comp::Lambda { body, .. } => 1 + size(*body),
    }
}

/// Whether all binders of a computation are distinct and bind variables that are used no more than
/// once.
pub open spec fn affine(c: Comp) -> bool {
    &&& bound_in_comp(c).no_duplicates()
    &&& forall|y: usize| #[trigger] bound_in_comp(c).contains(y) ==> uses(y, c) <= 1
}

proof fn lemma_uses_concat(y: usize, vs: Seq<Value>, more: Seq<Value>)
    ensures
        uses_in_values(y, vs + more) == uses_in_values(y, vs) + uses_in_values(y, more),
    decreases more.len(),
{
    if more.len() == 0 {
        assert(vs + more =~= vs);
    } else {
        lemma_uses_concat(y, vs, more.drop_last());
        assert((vs + more).drop_last() =~= vs + more.drop_last());
    }
}

proof fn lemma_size_concat(vs: Seq<Value>, more: Seq<Value>)
    ensures
        size_of_values(vs + more) == size_of_values(vs) + size_of_values(more),
    decreases more.len(),
{
    if more.len() == 0 {
        assert(vs + more =~= vs);
    } else {
        lemma_size_concat(vs, more.drop_last());
        assert((vs + more).drop_last() =~= vs + more.drop_last());
    }
}

proof fn lemma_simplified_smaller_value(y: usize, v: Value)
    ensures
        size_of_value(simplify_value(v)) <= size_of_value(v),
        uses_in_value(y, simplify_value(v)) == uses_in_value(y, v),
    decreases v,
{
    if let Value::Thunk { t, .. } = v {
        lemma_simplified_smaller(y, *t);
    }
}

proof fn lemma_simplified_smaller_values(y: usize, vs: Seq<Value>)
    ensures
        size_of_values(simplify_values(vs)) <= size_of_values(vs),
        uses_in_values(y, simplify_values(vs)) == uses_in_values(y, vs),
    decreases vs,
{
    if vs.len() > 0 {
        lemma_simplified_smaller_values(y, vs.drop_last());
        lemma_simplified_smaller_value(y, vs.last());
        assert(simplify_values(vs).drop_last() =~= simplify_values(vs.drop_last()));
    }
}

/// Removing redundancy adds no constructor and no use of a variable.
proof fn lemma_simplified_smaller(y: usize, c: Comp)
    ensures
        size(simplify_comp(c)) <= size(c),
        uses(y, simplify_comp(c)) == uses(y, c),
        c matches Comp::Lambda { args, body, .. } ==> args.len() == 0 ==> size(simplify_comp(c))
            < size(c),
        c matches Comp::Redex { function, args } ==> args.len() == 0 ==> size(simplify_comp(c))
            < size(c),
    decreases c,
{
    match c {
        Comp::Redex { function, args } => {
            lemma_simplified_smaller(y, *function);
            lemma_simplified_smaller_values(y, args);
            let vs = simplify_values(args);
            if vs.len() > 0 {
                if let Comp::Redex { function: inner, args: inner_args } = simplify_comp(
                    *function,
                ) {
                    lemma_uses_concat(y, inner_args, vs);
                    lemma_size_concat(inner_args, vs);
                }
            }
        },
        Comp::Return { value } => {
            lemma_simplified_smaller_value(y, value);
        },
        Comp::Force { thunk, .. } => {
            lemma_simplified_smaller_value(y, thunk);
        },
        Comp::Def { .. } => {},
        Comp::PrimitiveCall { args, .. } => {
            lemma_simplified_smaller_values(y, args);
        },
        Comp::Lambda { body, .. } => {
            lemma_simplified_smaller(y, *body);
        },
    }
}

/// How often a value uses `y`.
spec fn use_weight(y: usize) -> spec_fn(Value) -> nat {
    |v: Value| uses_in_value(y, v)
}

/// The size of a value.
spec fn size_weight() -> spec_fn(Value) -> nat {
    |v: Value| size_of_value(v)
}

proof fn lemma_total_uses(y: usize, vs: Seq<Value>)
    ensures
        total(use_weight(y), vs) == uses_in_values(y, vs),
    decreases vs.len(),
{
    if vs.len() > 0 {
        lemma_total_uses(y, vs.drop_last());
    }
}

proof fn lemma_total_size(vs: Seq<Value>)
    ensures
        total(size_weight(), vs) == size_of_values(vs),
    decreases vs.len(),
{
    if vs.len() > 0 {
        lemma_total_size(vs.drop_last());
    }
}

proof fn lemma_substituted_weights_value(y: usize, bindings: Map<usize, Value>, v: Value)
    ensures
        uses_in_value(y, substitute_in_value(bindings, v)) <= uses_in_value(y, v)
            + brought_into_value(use_weight(y), bindings, v),
        size_of_value(substitute_in_value(bindings, v)) == size_of_value(v) + brought_into_value(
            size_weight(),
            bindings,
            v,
        ),
    decreases v,
{
    if let Value::Thunk { t, .. } = v {
        lemma_substituted_weights(y, bindings, *t);
    }
}

proof fn lemma_substituted_weights_values(y: usize, bindings: Map<usize, Value>, vs: Seq<Value>)
    ensures
        uses_in_values(y, substitute_in_values(bindings, vs)) <= uses_in_values(y, vs)
            + brought_into_values(use_weight(y), bindings, vs),
        size_of_values(substitute_in_values(bindings, vs)) == size_of_values(vs)
            + brought_into_values(size_weight(), bindings, vs),
    decreases vs,
{
    if vs.len() > 0 {
        lemma_substituted_weights_values(y, bindings, vs.drop_last());
        lemma_substituted_weights_value(y, bindings, vs.last());
        assert(substitute_in_values(bindings, vs).drop_last() =~= substitute_in_values(
            bindings,
            vs.drop_last(),
        ));
    }
}

/// A substitution adds the constructors and uses of variables of the values that it puts in.
proof fn lemma_substituted_weights(y: usize, bindings: Map<usize, Value>, c: Comp)
    ensures
        uses(y, substitute(bindings, c)) <= uses(y, c) + brought(use_weight(y), bindings, c),
        size(substitute(bindings, c)) == size(c) + brought(size_weight(), bindings, c),
    decreases c,
{
    match c {
        Comp::Redex { function, args } => {
            lemma_substituted_weights(y, bindings, *function);
            lemma_substituted_weights_values(y, bindings, args);
        },
        Comp::Return { value } => {
            lemma_substituted_weights_value(y, bindings, value);
        },
        Comp::Force { thunk, .. } => {
            lemma_substituted_weights_value(y, bindings, thunk);
        },
        Comp::Def { .. } => {},
        Comp::PrimitiveCall { args, .. } => {
            lemma_substituted_weights_values(y, bindings, args);
        },
        Comp::Lambda { body, .. } => {
            lemma_substituted_weights(y, bindings, *body);
        },
    }
}

/// Whether `d` has no more constructors than `c`, and no binder or use of a variable more often.
spec fn no_more_than(d: Comp, c: Comp) -> bool {
    &&& size(d) <= size(c)
    &&& forall|x: usize| times(x, bound_in_comp(d)) <= #[trigger] times(x, bound_in_comp(c))
    &&& forall|y: usize| #[trigger] uses(y, d) <= uses(y, c)
}

/// As [`no_more_than`], for values.
spec fn no_more_than_value(w: Value, v: Value) -> bool {
    &&& size_of_value(w) <= size_of_value(v)
    &&& forall|x: usize| times(x, bound_in_value(w)) <= #[trigger] times(x, bound_in_value(v))
    &&& forall|y: usize| #[trigger] uses_in_value(y, w) <= uses_in_value(y, v)
}

/// As [`no_more_than`], for sequences of values.
spec fn no_more_than_values(ws: Seq<Value>, vs: Seq<Value>) -> bool {
    &&& size_of_values(ws) <= size_of_values(vs)
    &&& forall|x: usize| times(x, bound_in_values(ws)) <= #[trigger] times(x, bound_in_values(vs))
    &&& forall|y: usize| #[trigger] uses_in_values(y, ws) <= uses_in_values(y, vs)
}

/// Whether binders occur no more than once, and bind variables that are used no more than once,
/// with the given counts of both.
spec fn counts_are_affine(bound: Seq<usize>, used: spec_fn(usize) -> nat) -> bool {
    &&& forall|x: usize| #[trigger] times(x, bound) <= 1
    &&& forall|x: usize| #[trigger] times(x, bound) > 0 ==> used(x) <= 1
}

proof fn lemma_affine_counts(c: Comp)
    requires
        affine(c),
    ensures
        counts_are_affine(bound_in_comp(c), |y: usize| uses(y, c)),
{
    broadcast use vstd::seq_lib::group_to_multiset_ensures;

    let bound = bound_in_comp(c);
    bound.lemma_multiset_has_no_duplicates();
    assert forall|x: usize| #[trigger] times(x, bound) <= 1 by {
        if times(x, bound) > 0 {
            assert(bound.to_multiset().contains(x));
        }
    }
    assert forall|x: usize| #[trigger] times(x, bound) > 0 implies uses(x, c) <= 1 by {
        assert(bound.contains(x));
    }
}

/// A step of reduction of an affine application leads to something smaller.
proof fn lemma_contracted_smaller(
    params: Seq<(usize, VType)>,
    body: Comp,
    effects: bool,
    args: Seq<Value>,
)
    requires
        ({
            let lambda = Comp::Lambda {
                args: params,
                body: Box::new(body),
                may_have_complex_effects: effects,
            };
            let redex = Comp::Redex { function: Box::new(lambda), args };
            counts_are_affine(bound_in_comp(redex), |y: usize| uses(y, redex))
        }),
    ensures
        ({
            let lambda = Comp::Lambda {
                args: params,
                body: Box::new(body),
                may_have_complex_effects: effects,
            };
            let redex = Comp::Redex { function: Box::new(lambda), args };
            &&& copies_no_binder(params, body, args)
            &&& no_more_than(applied(params, body, effects, args), redex)
            &&& size(applied(params, body, effects, args)) < size(redex)
        }),
{
    let lambda = Comp::Lambda {
        args: params,
        body: Box::new(body),
        may_have_complex_effects: effects,
    };
    let redex = Comp::Redex { function: Box::new(lambda), args };
    let k = lesser(args.len(), params.len());
    let bindings = pair_up(params, args, k);
    let rest = params.skip(k as int);
    let more = args.skip(k as int);
    let new_body = substitute(bindings, body);
    let new_lambda = Comp::Lambda {
        args: rest,
        body: Box::new(new_body),
        may_have_complex_effects: effects,
    };
    let new_redex = Comp::Redex { function: Box::new(new_lambda), args: more };
    let used = |y: usize| uses(y, redex);
    assert forall|i: int| 0 <= i < params.len() implies uses(
        (#[trigger] params[i]).0,
        body,
    ) <= 1 by {
        let y = params[i].0;
        lemma_times_concat(y, bound_in_comp(lambda), bound_in_values(args));
        assert(bound_in_comp(lambda) == indexes_of(params) + bound_in_comp(body));
        lemma_times_concat(y, indexes_of(params), bound_in_comp(body));
        assert(times(y, indexes_of(params)) > 0) by {
            broadcast use vstd::seq_lib::group_to_multiset_ensures;

            assert(indexes_of(params)[i] == y);
            assert(indexes_of(params).contains(y));
        }
        assert(times(y, bound_in_comp(redex)) > 0);
        assert(used(y) <= 1);
        assert(uses(y, lambda) == uses(y, body));
        assert(uses(y, redex) == uses(y, lambda) + uses_in_values(y, args));
    }
    assert(args.take(k as int) + more =~= args);
    assert forall|x: usize| times(x, bound_in_comp(applied(params, body, effects, args)))
        <= #[trigger] times(x, bound_in_comp(redex)) by {
        lemma_bound_applied(x, params, body, effects, args);
        lemma_times_concat(x, bound_in_comp(lambda), bound_in_values(args));
        assert(bound_in_comp(lambda) == indexes_of(params) + bound_in_comp(body));
        lemma_times_concat(x, indexes_of(params), bound_in_comp(body));
    }
    assert forall|y: usize| #[trigger] uses(y, applied(params, body, effects, args)) <= uses(
        y,
        redex,
    ) by {
        lemma_simplified_smaller(y, new_redex);
        lemma_brought_pairs(use_weight(y), params, args, k, body);
        lemma_substituted_weights(y, bindings, body);
        lemma_total_uses(y, args.take(k as int));
        lemma_uses_concat(y, args.take(k as int), more);
        assert(uses(y, new_lambda) == uses(y, new_body));
        assert(uses(y, lambda) == uses(y, body));
    }
    lemma_simplified_smaller(0, new_redex);
    lemma_simplified_smaller(0, new_lambda);
    lemma_simplified_smaller_values(0, more);
    lemma_brought_pairs(size_weight(), params, args, k, body);
    lemma_substituted_weights(0, bindings, body);
    lemma_total_size(args.take(k as int));
    lemma_size_concat(args.take(k as int), more);
    assert(size(new_lambda) == 1 + size(new_body));
    assert(size(lambda) == 1 + size(body));
    assert(size(new_redex) <= size(redex));
    if more.len() > 0 {
        assert(rest.len() == 0);
        let f = simplify_comp(new_lambda);
        let vs = simplify_values(more);
        assert(size(f) < size(new_lambda));
        if let Comp::Redex { function: inner, args: inner_args } = f {
            lemma_size_concat(inner_args, vs);
        }
        assert(size(simplify_comp(new_redex)) <= 1 + size(f) + size_of_values(vs));
    }
}

proof fn lemma_affine_terminates_value(fuel: nat, n: nat, v: Value)
    requires
        counts_are_affine(bound_in_value(v), |y: usize| uses_in_value(y, v)),
        size_of_value(v) <= fuel,
    ensures
        reduce_value(fuel, n, v) is Some,
        (reduce_value(fuel, n, v)->0).1 == n,
        no_more_than_value((reduce_value(fuel, n, v)->0).0, v),
    decreases fuel, v,
{
    if let Value::Thunk { t, .. } = v {
        let used = |y: usize| uses_in_value(y, v);
        let used_inside = |y: usize| uses(y, *t);
        assert forall|x: usize| #[trigger] times(x, bound_in_comp(*t)) > 0 implies used_inside(x)
            <= 1 by {
            assert(times(x, bound_in_value(v)) > 0);
            assert(used(x) <= 1);
        }
        assert(counts_are_affine(bound_in_comp(*t), used_inside));
        lemma_affine_terminates_comp(fuel, n, *t);
        let r = (reduce_value(fuel, n, v)->0).0;
        assert forall|y: usize| #[trigger] uses_in_value(y, r) <= uses_in_value(y, v) by {
            assert(uses(y, (reduce_comp(fuel, n, *t)->0).0) <= uses(y, *t));
        }
    }
}

proof fn lemma_affine_terminates_values(fuel: nat, n: nat, vs: Seq<Value>)
    requires
        counts_are_affine(bound_in_values(vs), |y: usize| uses_in_values(y, vs)),
        size_of_values(vs) <= fuel,
    ensures
        reduce_values(fuel, n, vs) is Some,
        (reduce_values(fuel, n, vs)->0).1 == n,
        no_more_than_values((reduce_values(fuel, n, vs)->0).0, vs),
    decreases fuel, vs,
{
    if vs.len() > 0 {
        let front = vs.drop_last();
        let last = vs.last();
        let used = |y: usize| uses_in_values(y, vs);
        let used_front = |y: usize| uses_in_values(y, front);
        let used_last = |y: usize| uses_in_value(y, last);
        assert forall|x: usize| times(x, bound_in_values(vs)) == #[trigger] times(
            x,
            bound_in_values(front),
        ) + times(x, bound_in_value(last)) by {
            lemma_times_concat(x, bound_in_values(front), bound_in_value(last));
        }
        assert forall|x: usize| #[trigger] times(x, bound_in_values(front)) > 0 implies used_front(
            x,
        ) <= 1 by {
            assert(times(x, bound_in_values(vs)) > 0);
            assert(used(x) <= 1);
        }
        assert(counts_are_affine(bound_in_values(front), used_front));
        assert forall|x: usize| #[trigger] times(x, bound_in_value(last)) <= 1 && (times(
            x,
            bound_in_value(last),
        ) > 0 ==> used_last(x) <= 1) by {
            assert(times(x, bound_in_values(vs)) == times(x, bound_in_values(front)) + times(
                x,
                bound_in_value(last),
            ));
            assert(times(x, bound_in_values(vs)) <= 1);
            if times(x, bound_in_value(last)) > 0 {
                assert(used(x) <= 1);
            }
        }
        assert(counts_are_affine(bound_in_value(last), used_last));
        lemma_affine_terminates_values(fuel, n, front);
        lemma_affine_terminates_value(fuel, n, last);
        let new = (reduce_values(fuel, n, vs)->0).0;
        let new_front = (reduce_values(fuel, n, front)->0).0;
        let new_last = (reduce_value(fuel, n, last)->0).0;
        assert(new.drop_last() =~= new_front);
        assert forall|x: usize| times(x, bound_in_values(new)) <= #[trigger] times(
            x,
            bound_in_values(vs),
        ) by {
            lemma_times_concat(x, bound_in_values(new_front), bound_in_value(new_last));
            assert(times(x, bound_in_values(new_front)) <= times(x, bound_in_values(front)));
            assert(times(x, bound_in_value(new_last)) <= times(x, bound_in_value(last)));
        }
        assert forall|y: usize| #[trigger] uses_in_values(y, new) <= uses_in_values(y, vs) by {
            assert(uses_in_values(y, new_front) <= uses_in_values(y, front));
            assert(uses_in_value(y, new_last) <= uses_in_value(y, last));
        }
    }
}

proof fn lemma_affine_terminates_comp(fuel: nat, n: nat, c: Comp)
    requires
        counts_are_affine(bound_in_comp(c), |y: usize| uses(y, c)),
        size(c) <= fuel,
    ensures
        reduce_comp(fuel, n, c) is Some,
        (reduce_comp(fuel, n, c)->0).1 == n,
        no_more_than((reduce_comp(fuel, n, c)->0).0, c),
    decreases fuel, c,
{
    let used = |y: usize| uses(y, c);
    match c {
        Comp::Redex { function, args } => {
            let used_function = |y: usize| uses(y, *function);
            let used_args = |y: usize| uses_in_values(y, args);
            assert forall|x: usize| times(x, bound_in_comp(c)) == #[trigger] times(
                x,
                bound_in_comp(*function),
            ) + times(x, bound_in_values(args)) by {
                lemma_times_concat(x, bound_in_comp(*function), bound_in_values(args));
            }
            assert forall|x: usize| #[trigger] times(
                x,
                bound_in_comp(*function),
            ) > 0 implies used_function(x) <= 1 by {
                assert(times(x, bound_in_comp(c)) > 0);
                assert(used(x) <= 1);
            }
            assert(counts_are_affine(bound_in_comp(*function), used_function));
            assert forall|x: usize| #[trigger] times(x, bound_in_values(args)) <= 1 && (times(
                x,
                bound_in_values(args),
            ) > 0 ==> used_args(x) <= 1) by {
                assert(times(x, bound_in_comp(c)) == times(x, bound_in_comp(*function)) + times(
                    x,
                    bound_in_values(args),
                ));
                assert(times(x, bound_in_comp(c)) <= 1);
                if times(x, bound_in_values(args)) > 0 {
                    assert(used(x) <= 1);
                }
            }
            assert(counts_are_affine(bound_in_values(args), used_args));
            lemma_affine_terminates_comp(fuel, n, *function);
            lemma_affine_terminates_values(fuel, n, args);
            let f = (reduce_comp(fuel, n, *function)->0).0;
            let vs = (reduce_values(fuel, n, args)->0).0;
            let redex = Comp::Redex { function: Box::new(f), args: vs };
            assert forall|x: usize| times(x, bound_in_comp(redex)) <= #[trigger] times(
                x,
                bound_in_comp(c),
            ) by {
                lemma_times_concat(x, bound_in_comp(f), bound_in_values(vs));
                assert(times(x, bound_in_comp(f)) <= times(x, bound_in_comp(*function)));
                assert(times(x, bound_in_values(vs)) <= times(x, bound_in_values(args)));
            }
            assert forall|y: usize| #[trigger] uses(y, redex) <= uses(y, c) by {
                assert(uses(y, f) <= uses(y, *function));
                assert(uses_in_values(y, vs) <= uses_in_values(y, args));
            }
            assert(no_more_than(redex, c));
            if let Comp::Lambda { args: params, body, may_have_complex_effects } = f {
                let used_redex = |y: usize| uses(y, redex);
                assert forall|x: usize| #[trigger] times(x, bound_in_comp(redex)) <= 1 && (times(
                    x,
                    bound_in_comp(redex),
                ) > 0 ==> used_redex(x) <= 1) by {
                    assert(times(x, bound_in_comp(redex)) <= times(x, bound_in_comp(c)));
                    assert(uses(x, redex) <= uses(x, c));
                    if times(x, bound_in_comp(redex)) > 0 {
                        assert(used(x) <= 1);
                    }
                }
                assert(counts_are_affine(bound_in_comp(redex), used_redex));
                lemma_contracted_smaller(params, *body, may_have_complex_effects, vs);
                let next = applied(params, *body, may_have_complex_effects, vs);
                assert(contract(n, params, *body, may_have_complex_effects, vs) == (next, n));
                let used_next = |y: usize| uses(y, next);
                assert forall|x: usize| #[trigger] times(x, bound_in_comp(next)) <= 1 && (times(
                    x,
                    bound_in_comp(next),
                ) > 0 ==> used_next(x) <= 1) by {
                    assert(times(x, bound_in_comp(next)) <= times(x, bound_in_comp(redex)));
                    assert(uses(x, next) <= uses(x, redex));
                    if times(x, bound_in_comp(next)) > 0 {
                        assert(used_redex(x) <= 1);
                    }
                }
                assert(counts_are_affine(bound_in_comp(next), used_next));
                lemma_affine_terminates_comp((fuel - 1) as nat, n, next);
                let r = (reduce_comp(fuel, n, c)->0).0;
                assert forall|x: usize| times(x, bound_in_comp(r)) <= #[trigger] times(
                    x,
                    bound_in_comp(c),
                ) by {
                    assert(times(x, bound_in_comp(r)) <= times(x, bound_in_comp(next)));
                    assert(times(x, bound_in_comp(next)) <= times(x, bound_in_comp(redex)));
                }
                assert forall|y: usize| #[trigger] uses(y, r) <= uses(y, c) by {
                    assert(uses(y, next) <= uses(y, redex));
                    assert(uses(y, redex) <= uses(y, c));
                }
            }
        },
        Comp::Return { value } => {
            let used_value = |y: usize| uses_in_value(y, value);
            assert forall|x: usize| #[trigger] times(
                x,
                bound_in_value(value),
            ) > 0 implies used_value(x) <= 1 by {
                assert(times(x, bound_in_comp(c)) > 0);
                assert(used(x) <= 1);
            }
            assert(counts_are_affine(bound_in_value(value), used_value));
            lemma_affine_terminates_value(fuel, n, value);
            let r = (reduce_comp(fuel, n, c)->0).0;
            assert forall|y: usize| #[trigger] uses(y, r) <= uses(y, c) by {
                assert(uses_in_value(y, (reduce_value(fuel, n, value)->0).0) <= uses_in_value(
                    y,
                    value,
                ));
            }
        },
        Comp::Force { thunk, .. } => {
            let used_value = |y: usize| uses_in_value(y, thunk);
            assert forall|x: usize| #[trigger] times(
                x,
                bound_in_value(thunk),
            ) > 0 implies used_value(x) <= 1 by {
                assert(times(x, bound_in_comp(c)) > 0);
                assert(used(x) <= 1);
            }
            assert(counts_are_affine(bound_in_value(thunk), used_value));
            lemma_affine_terminates_value(fuel, n, thunk);
            let new = (reduce_value(fuel, n, thunk)->0).0;
            if let Value::Thunk { t, .. } = new {
                let used_next = |y: usize| uses(y, *t);
                assert forall|x: usize| #[trigger] times(x, bound_in_comp(*t)) <= 1 && (times(
                    x,
                    bound_in_comp(*t),
                ) > 0 ==> used_next(x) <= 1) by {
                    assert(times(x, bound_in_value(new)) <= times(x, bound_in_value(thunk)));
                    assert(uses_in_value(x, new) <= uses_in_value(x, thunk));
                    if times(x, bound_in_comp(*t)) > 0 {
                        assert(used_value(x) <= 1);
                    }
                }
                assert(counts_are_affine(bound_in_comp(*t), used_next));
                lemma_affine_terminates_comp((fuel - 1) as nat, n, *t);
                let r = (reduce_comp(fuel, n, c)->0).0;
                assert forall|x: usize| times(x, bound_in_comp(r)) <= #[trigger] times(
                    x,
                    bound_in_comp(c),
                ) by {
                    assert(times(x, bound_in_comp(r)) <= times(x, bound_in_comp(*t)));
                    assert(times(x, bound_in_value(new)) <= times(x, bound_in_value(thunk)));
                }
                assert forall|y: usize| #[trigger] uses(y, r) <= uses(y, c) by {
                    assert(uses(y, r) <= uses(y, *t));
                    assert(uses_in_value(y, new) <= uses_in_value(y, thunk));
                }
            } else {
                let r = (reduce_comp(fuel, n, c)->0).0;
                assert forall|y: usize| #[trigger] uses(y, r) <= uses(y, c) by {
                    assert(uses_in_value(y, new) <= uses_in_value(y, thunk));
                }
            }
        },
        Comp::Def { .. } => {},
        Comp::PrimitiveCall { args, .. } => {
            let used_args = |y: usize| uses_in_values(y, args);
            assert forall|x: usize| #[trigger] times(
                x,
                bound_in_values(args),
            ) > 0 implies used_args(x) <= 1 by {
                assert(times(x, bound_in_comp(c)) > 0);
                assert(used(x) <= 1);
            }
            assert(counts_are_affine(bound_in_values(args), used_args));
            lemma_affine_terminates_values(fuel, n, args);
            let r = (reduce_comp(fuel, n, c)->0).0;
            assert forall|y: usize| #[trigger] uses(y, r) <= uses(y, c) by {
                assert(uses_in_values(y, (reduce_values(fuel, n, args)->0).0) <= uses_in_values(
                    y,
                    args,
                ));
            }
        },
        Comp::Lambda { args, body, .. } => {
            let used_body = |y: usize| uses(y, *body);
            assert forall|x: usize| times(x, bound_in_comp(c)) == times(x, indexes_of(args))
                + #[trigger] times(x, bound_in_comp(*body)) by {
                lemma_times_concat(x, indexes_of(args), bound_in_comp(*body));
            }
            assert forall|x: usize| #[trigger] times(x, bound_in_comp(*body)) <= 1 && (times(
                x,
                bound_in_comp(*body),
            ) > 0 ==> used_body(x) <= 1) by {
                assert(times(x, bound_in_comp(c)) <= 1);
                if times(x, bound_in_comp(*body)) > 0 {
                    assert(used(x) <= 1);
                }
            }
            assert(counts_are_affine(bound_in_comp(*body), used_body));
            lemma_affine_terminates_comp(fuel, n, *body);
            let new_body = (reduce_comp(fuel, n, *body)->0).0;
            let r = (reduce_comp(fuel, n, c)->0).0;
            assert forall|x: usize| times(x, bound_in_comp(r)) <= #[trigger] times(
                x,
                bound_in_comp(c),
            ) by {
                lemma_times_concat(x, indexes_of(args), bound_in_comp(new_body));
                assert(times(x, bound_in_comp(new_body)) <= times(x, bound_in_comp(*body)));
            }
            assert forall|y: usize| #[trigger] uses(y, r) <= uses(y, c) by {
                assert(uses(y, new_body) <= uses(y, *body));
            }
        },
    }
}

/// The reduction of an affine computation comes to an end, within as many steps as it has
/// constructors. It uses no index, and what it ends in is affine and no larger.
pub proof fn lemma_affine_terminates(n: nat, c: Comp)
    requires
        affine(c),
    ensures
        reduce_comp(size(c), n, c) is Some,
        reduces(n, c),
        affine(reduced(n, c).0),
        size(reduced(n, c).0) <= size(c),
        reduced(n, c).1 == n,
{
    lemma_affine_counts(c);
    lemma_affine_terminates_comp(size(c), n, c);
    lemma_reduced(size(c), n, c);
    let r = reduced(n, c).0;
    assert(no_more_than(r, c));
    lemma_times_distinct(bound_in_comp(r), bound_in_comp(c));
    assert forall|y: usize| #[trigger] bound_in_comp(r).contains(y) implies uses(y, r) <= 1 by {
        broadcast use vstd::seq_lib::group_to_multiset_ensures;

        assert(times(y, bound_in_comp(r)) > 0);
        assert(times(y, bound_in_comp(r)) <= times(y, bound_in_comp(c)));
        assert(bound_in_comp(c).contains(y));
        assert(uses(y, r) <= uses(y, c));
    }
}

} // verus!
