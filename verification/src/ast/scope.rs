//! The scopes of variables, and what the passes do to them.
use crate::ast::binding::{bound_in_comp, bound_in_value, bound_in_values, indexes_of};
use crate::ast::free_var::{bound_by, free_in_comp, free_in_value, free_in_values};
use crate::ast::lifter::{
    below, captures_below, captures_below_in_value, captures_below_in_values,
};
use crate::ast::primitive_functions::Primitive;
use crate::ast::reducer::{
    applied, contract, lemma_reduce_counts, lemma_reduce_counts_value, lemma_reduce_counts_values,
    reduce_comp, reduce_value, reduce_values, reduced, reduces,
};
use crate::ast::redundancy::{simplify_comp, simplify_value, simplify_values};
use crate::ast::renamer::{
    bind_params, binders_in_comp, binders_in_value, binders_in_values, fresh_params, rename_comp,
    rename_value, rename_values,
};
use crate::ast::signature::{rename_definition, Definition};
use crate::ast::specializer::{
    specialize_comp, specialize_value, specialize_values, wrapper_name,
};
use crate::ast::substitutor::{pair_up, substitute, substitute_in_value, substitute_in_values};
use crate::ast::term::{Comp, VType, Value};
use crate::ast::usage::{lesser, top, top_of_params, top_of_value, top_of_values};
use vstd::prelude::*;

verus! {

/// Whether every variable of a definition is bound in it.
pub open spec fn closed_definition(def: Definition) -> bool {
    free_in_comp(def.body).subset_of(bound_by(def.args))
}

/// A variable is free in a sequence of values if it is free in one of them.
pub proof fn lemma_free_in_values(vs: Seq<Value>, x: usize)
    ensures
        free_in_values(vs).contains(x) <==> exists|i: int|
            0 <= i < vs.len() && free_in_value(#[trigger] vs[i]).contains(x),
    decreases vs.len(),
{
    if vs.len() > 0 {
        lemma_free_in_values(vs.drop_last(), x);
        let front = vs.drop_last();
        if free_in_values(front).contains(x) {
            let i = choose|i: int|
                0 <= i < front.len() && free_in_value(#[trigger] front[i]).contains(x);
            assert(vs[i] == front[i]);
        }
        if free_in_value(vs.last()).contains(x) {
            assert(vs[vs.len() - 1] == vs.last());
        }
        if exists|i: int| 0 <= i < vs.len() && free_in_value(#[trigger] vs[i]).contains(x) {
            let i = choose|i: int| 0 <= i < vs.len() && free_in_value(#[trigger] vs[i]).contains(x);
            if i < front.len() {
                assert(front[i] == vs[i]);
            }
        }
    }
}

/// The free variables of two sequences of values are those of the one and those of the other.
pub proof fn lemma_free_in_concat(vs: Seq<Value>, more: Seq<Value>)
    ensures
        free_in_values(vs + more) == free_in_values(vs).union(free_in_values(more)),
    decreases more.len(),
{
    if more.len() == 0 {
        assert(vs + more =~= vs);
        assert(free_in_values(vs).union(free_in_values(more)) =~= free_in_values(vs));
    } else {
        lemma_free_in_concat(vs, more.drop_last());
        assert((vs + more).drop_last() =~= vs + more.drop_last());
        assert((vs + more).last() == more.last());
        assert(free_in_values(vs + more) =~= free_in_values(vs).union(free_in_values(more)));
    }
}

/// Two lists of parameters bind what the one and what the other binds.
proof fn lemma_bound_by_concat(params: Seq<(usize, VType)>, more: Seq<(usize, VType)>)
    ensures
        bound_by(params + more) == bound_by(params).union(bound_by(more)),
{
    let all = params + more;
    assert forall|x: usize| bound_by(all).contains(x) <==> bound_by(params).union(
        bound_by(more),
    ).contains(x) by {
        if bound_by(params).contains(x) {
            let i = choose|i: int| 0 <= i < params.len() && (#[trigger] params[i]).0 == x;
            assert(all[i].0 == x);
        }
        if bound_by(more).contains(x) {
            let i = choose|i: int| 0 <= i < more.len() && (#[trigger] more[i]).0 == x;
            assert(all[params.len() + i].0 == x);
        }
        if bound_by(all).contains(x) {
            let i = choose|i: int| 0 <= i < all.len() && (#[trigger] all[i]).0 == x;
            if i < params.len() {
                assert(params[i].0 == x);
            } else {
                assert(more[i - params.len()].0 == x);
            }
        }
    }
    assert(bound_by(all) =~= bound_by(params).union(bound_by(more)));
}

proof fn lemma_free_simplified_value(v: Value)
    ensures
        free_in_value(simplify_value(v)) == free_in_value(v),
    decreases v,
{
    if let Value::Thunk { t, .. } = v {
        lemma_free_simplified(*t);
    }
}

proof fn lemma_free_simplified_values(vs: Seq<Value>)
    ensures
        free_in_values(simplify_values(vs)) == free_in_values(vs),
    decreases vs,
{
    if vs.len() > 0 {
        lemma_free_simplified_values(vs.drop_last());
        lemma_free_simplified_value(vs.last());
        assert(simplify_values(vs).drop_last() =~= simplify_values(vs.drop_last()));
    }
}

/// Removing redundancy keeps the free variables.
pub proof fn lemma_free_simplified(c: Comp)
    ensures
        free_in_comp(simplify_comp(c)) == free_in_comp(c),
    decreases c,
{
    match c {
        Comp::Redex { function, args } => {
            lemma_free_simplified(*function);
            lemma_free_simplified_values(args);
            let vs = simplify_values(args);
            if vs.len() == 0 {
                assert(free_in_comp(c) =~= free_in_comp(*function));
            } else if let Comp::Redex { function: inner, args: inner_args } = simplify_comp(
                *function,
            ) {
                lemma_free_in_concat(inner_args, vs);
                assert(free_in_comp(simplify_comp(c)) =~= free_in_comp(c));
            }
        },
        Comp::Return { value } => {
            lemma_free_simplified_value(value);
        },
        Comp::Force { thunk, .. } => {
            lemma_free_simplified_value(thunk);
        },
        Comp::Def { .. } => {},
        Comp::PrimitiveCall { args, .. } => {
            lemma_free_simplified_values(args);
        },
        Comp::Lambda { args, body, .. } => {
            lemma_free_simplified(*body);
            if args.len() == 0 {
                assert(bound_by(args) =~= Set::empty());
            }
            if let Comp::Lambda { args: inner_args, body: inner_body, .. } = simplify_comp(*body) {
                lemma_bound_by_concat(args, inner_args);
                if inner_args.len() == 0 {
                    assert(bound_by(inner_args) =~= Set::empty());
                }
            }
            assert(free_in_comp(simplify_comp(c)) =~= free_in_comp(c));
        },
    }
}

proof fn lemma_free_specialized_value(
    prims: Map<Seq<char>, Primitive>,
    base: Seq<char>,
    v: Value,
)
    ensures
        free_in_value(specialize_value(prims, base, v)) == free_in_value(v),
    decreases v,
{
    if let Value::Thunk { t, .. } = v {
        lemma_free_specialized(prims, base, *t);
    }
}

proof fn lemma_free_specialized_values(
    prims: Map<Seq<char>, Primitive>,
    base: Seq<char>,
    vs: Seq<Value>,
)
    ensures
        free_in_values(specialize_values(prims, base, vs)) == free_in_values(vs),
    decreases vs,
{
    if vs.len() > 0 {
        lemma_free_specialized_values(prims, base, vs.drop_last());
        lemma_free_specialized_value(prims, base, vs.last());
        assert(specialize_values(prims, base, vs).drop_last() =~= specialize_values(
            prims,
            base,
            vs.drop_last(),
        ));
    }
}

/// Specializing calls keeps the free variables.
pub proof fn lemma_free_specialized(prims: Map<Seq<char>, Primitive>, base: Seq<char>, c: Comp)
    ensures
        free_in_comp(specialize_comp(prims, base, c)) == free_in_comp(c),
    decreases c,
{
    match c {
        Comp::Redex { function, args } => {
            lemma_free_specialized(prims, base, *function);
            lemma_free_specialized_values(prims, base, args);
            if *function is Def {
                let wrapper = Comp::Def {
                    name: wrapper_name(base),
                    may_have_complex_effects: false,
                };
                assert(free_in_comp(*function) =~= Set::empty());
                assert(free_in_comp(wrapper) =~= Set::empty());
                assert(free_in_comp(specialize_comp(prims, base, c)) =~= free_in_comp(c));
            }
        },
        Comp::Return { value } => {
            lemma_free_specialized_value(prims, base, value);
        },
        Comp::Force { thunk, .. } => {
            lemma_free_specialized_value(prims, base, thunk);
        },
        Comp::Def { .. } => {},
        Comp::PrimitiveCall { args, .. } => {
            lemma_free_specialized_values(prims, base, args);
        },
        Comp::Lambda { body, .. } => {
            lemma_free_specialized(prims, base, *body);
        },
    }
}

/// Whether `x` is free in one of the values of `bindings`.
pub open spec fn free_in_bindings(bindings: Map<usize, Value>, x: usize) -> bool {
    exists|y: usize| #[trigger]
        bindings.contains_key(y) && free_in_value(bindings[y]).contains(x)
}

proof fn lemma_free_substituted_value(bindings: Map<usize, Value>, v: Value, x: usize)
    requires
        free_in_value(substitute_in_value(bindings, v)).contains(x),
    ensures
        (free_in_value(v).contains(x) && !bindings.contains_key(x)) || free_in_bindings(
            bindings,
            x,
        ),
    decreases v,
{
    match v {
        Value::Thunk { t, .. } => {
            lemma_free_substituted(bindings, *t, x);
        },
        Value::Var { index } => {
            if bindings.contains_key(index) {
                assert(free_in_bindings(bindings, x));
            }
        },
        Value::Int { .. } => {},
    }
}

proof fn lemma_free_substituted_values(bindings: Map<usize, Value>, vs: Seq<Value>, x: usize)
    requires
        free_in_values(substitute_in_values(bindings, vs)).contains(x),
    ensures
        (free_in_values(vs).contains(x) && !bindings.contains_key(x)) || free_in_bindings(
            bindings,
            x,
        ),
    decreases vs,
{
    if vs.len() > 0 {
        let new = substitute_in_values(bindings, vs);
        assert(new.drop_last() =~= substitute_in_values(bindings, vs.drop_last()));
        if free_in_values(new.drop_last()).contains(x) {
            lemma_free_substituted_values(bindings, vs.drop_last(), x);
        } else {
            lemma_free_substituted_value(bindings, vs.last(), x);
        }
    }
}

/// A variable that is free after a substitution was free before and not replaced, or is free in a
/// value that was put in.
pub proof fn lemma_free_substituted(bindings: Map<usize, Value>, c: Comp, x: usize)
    requires
        free_in_comp(substitute(bindings, c)).contains(x),
    ensures
        (free_in_comp(c).contains(x) && !bindings.contains_key(x)) || free_in_bindings(
            bindings,
            x,
        ),
    decreases c,
{
    match c {
        Comp::Redex { function, args } => {
            if free_in_comp(substitute(bindings, *function)).contains(x) {
                lemma_free_substituted(bindings, *function, x);
            } else {
                lemma_free_substituted_values(bindings, args, x);
            }
        },
        Comp::Return { value } => {
            lemma_free_substituted_value(bindings, value, x);
        },
        Comp::Force { thunk, .. } => {
            lemma_free_substituted_value(bindings, thunk, x);
        },
        Comp::Def { .. } => {},
        Comp::PrimitiveCall { args, .. } => {
            lemma_free_substituted_values(bindings, args, x);
        },
        Comp::Lambda { body, .. } => {
            lemma_free_substituted(bindings, *body, x);
        },
    }
}

/// What is paired up are the indexes of the first `k` parameters with arguments.
pub proof fn lemma_pair_up(params: Seq<(usize, VType)>, args: Seq<Value>, k: nat)
    requires
        k <= params.len(),
        k <= args.len(),
    ensures
        forall|x: usize| #[trigger]
            pair_up(params, args, k).contains_key(x) <==> bound_by(params.take(k as int)).contains(
                x,
            ),
        forall|x: usize| #[trigger]
            pair_up(params, args, k).contains_key(x) ==> exists|i: int|
                0 <= i < k && #[trigger] args[i] == pair_up(params, args, k)[x],
    decreases k,
{
    let paired = pair_up(params, args, k);
    if k == 0 {
    } else {
        let less = (k - 1) as nat;
        lemma_pair_up(params, args, less);
        let before = pair_up(params, args, less);
        assert forall|x: usize| #[trigger] paired.contains_key(x) <==> bound_by(
            params.take(k as int),
        ).contains(x) by {
            let all = params.take(k as int);
            let some = params.take(less as int);
            if bound_by(some).contains(x) {
                let i = choose|i: int| 0 <= i < some.len() && (#[trigger] some[i]).0 == x;
                assert(all[i].0 == x);
            }
            if params[less as int].0 == x {
                assert(all[less as int].0 == x);
            }
            if bound_by(all).contains(x) {
                let i = choose|i: int| 0 <= i < all.len() && (#[trigger] all[i]).0 == x;
                if i < less {
                    assert(some[i].0 == x);
                }
            }
            assert(before.contains_key(x) <==> bound_by(some).contains(x));
        }
        assert forall|x: usize| #[trigger] paired.contains_key(x) implies exists|i: int|
            0 <= i < k && #[trigger] args[i] == paired[x] by {
            if x == params[less as int].0 {
                assert(args[less as int] == paired[x]);
            } else {
                assert(before.contains_key(x));
                let i = choose|i: int| 0 <= i < less && #[trigger] args[i] == before[x];
                assert(args[i] == paired[x]);
            }
        }
    }
}

/// Applying a lambda makes no variable free.
proof fn lemma_free_applied(
    params: Seq<(usize, VType)>,
    body: Comp,
    effects: bool,
    args: Seq<Value>,
    x: usize,
)
    requires
        free_in_comp(applied(params, body, effects, args)).contains(x),
    ensures
        free_in_values(args).contains(x) || (free_in_comp(body).contains(x) && !bound_by(
            params,
        ).contains(x)),
{
    let k = lesser(args.len(), params.len());
    let bindings = pair_up(params, args, k);
    let rest = params.skip(k as int);
    let lambda = Comp::Lambda {
        args: rest,
        body: Box::new(substitute(bindings, body)),
        may_have_complex_effects: effects,
    };
    let redex = Comp::Redex { function: Box::new(lambda), args: args.skip(k as int) };
    lemma_free_simplified(redex);
    lemma_pair_up(params, args, k);
    lemma_bound_by_concat(params.take(k as int), rest);
    assert(params.take(k as int) + rest =~= params);
    lemma_free_in_values(args, x);
    lemma_free_in_values(args.skip(k as int), x);
    if free_in_values(args.skip(k as int)).contains(x) {
        let more = args.skip(k as int);
        let i = choose|i: int| 0 <= i < more.len() && free_in_value(#[trigger] more[i]).contains(x);
        assert(args[k + i] == more[i]);
    } else {
        assert(free_in_comp(lambda).contains(x));
        lemma_free_substituted(bindings, body, x);
        if free_in_bindings(bindings, x) {
            let y = choose|y: usize| #[trigger]
                bindings.contains_key(y) && free_in_value(bindings[y]).contains(x);
            let i = choose|i: int| 0 <= i < k && #[trigger] args[i] == bindings[y];
            assert(free_in_value(args[i]).contains(x));
        }
    }
}

/// A step of reduction makes no variable free.
pub proof fn lemma_free_contracted(
    n: nat,
    params: Seq<(usize, VType)>,
    body: Comp,
    effects: bool,
    args: Seq<Value>,
    x: usize,
)
    requires
        contract(n, params, body, effects, args).1 <= usize::MAX,
        free_in_comp(contract(n, params, body, effects, args).0).contains(x),
    ensures
        free_in_values(args).contains(x) || (free_in_comp(body).contains(x) && !bound_by(
            params,
        ).contains(x)),
{
    let c = applied(params, body, effects, args);
    if n + binders_in_comp(c) <= usize::MAX {
        lemma_free_renumbered(n, c);
    }
    lemma_free_applied(params, body, effects, args, x);
}

/// As [`lemma_free_reduced`], for values.
pub proof fn lemma_free_reduced_value(fuel: nat, n: nat, v: Value)
    requires
        reduce_value(fuel, n, v) is Some,
        (reduce_value(fuel, n, v)->0).1 <= usize::MAX,
    ensures
        free_in_value((reduce_value(fuel, n, v)->0).0).subset_of(free_in_value(v)),
    decreases fuel, v,
{
    if let Value::Thunk { t, .. } = v {
        lemma_free_reduced_comp(fuel, n, *t);
    }
}

/// As [`lemma_free_reduced`], for sequences of values.
pub proof fn lemma_free_reduced_values(fuel: nat, n: nat, vs: Seq<Value>)
    requires
        reduce_values(fuel, n, vs) is Some,
        (reduce_values(fuel, n, vs)->0).1 <= usize::MAX,
    ensures
        free_in_values((reduce_values(fuel, n, vs)->0).0).subset_of(free_in_values(vs)),
    decreases fuel, vs,
{
    if vs.len() > 0 {
        let (front, n1) = reduce_values(fuel, n, vs.drop_last())->0;
        lemma_reduce_counts_value(fuel, n1, vs.last());
        lemma_free_reduced_values(fuel, n, vs.drop_last());
        lemma_free_reduced_value(fuel, n1, vs.last());
        let new = (reduce_values(fuel, n, vs)->0).0;
        assert(new.drop_last() =~= front);
    }
}

/// As [`lemma_free_reduced`], with the number of steps given.
pub proof fn lemma_free_reduced_comp(fuel: nat, n: nat, c: Comp)
    requires
        reduce_comp(fuel, n, c) is Some,
        (reduce_comp(fuel, n, c)->0).1 <= usize::MAX,
    ensures
        free_in_comp((reduce_comp(fuel, n, c)->0).0).subset_of(free_in_comp(c)),
    decreases fuel, c,
{
    match c {
        Comp::Redex { function, args } => {
            let (f, n1) = reduce_comp(fuel, n, *function)->0;
            let (vs, n2) = reduce_values(fuel, n1, args)->0;
            lemma_reduce_counts_values(fuel, n1, args);
            if let Comp::Lambda { args: params, body, may_have_complex_effects } = f {
                let (next, n3) = contract(n2, params, *body, may_have_complex_effects, vs);
                lemma_reduce_counts((fuel - 1) as nat, n3, next);
                lemma_free_reduced_comp(fuel, n, *function);
                lemma_free_reduced_values(fuel, n1, args);
                lemma_free_reduced_comp((fuel - 1) as nat, n3, next);
                assert forall|x: usize| free_in_comp(next).contains(x) implies free_in_comp(
                    c,
                ).contains(x) by {
                    lemma_free_contracted(n2, params, *body, may_have_complex_effects, vs, x);
                    assert(free_in_comp(f) == free_in_comp(*body).difference(bound_by(params)));
                }
            } else {
                lemma_free_reduced_comp(fuel, n, *function);
                lemma_free_reduced_values(fuel, n1, args);
            }
        },
        Comp::Return { value } => {
            lemma_free_reduced_value(fuel, n, value);
        },
        Comp::Force { thunk, .. } => {
            let (v, n1) = reduce_value(fuel, n, thunk)->0;
            if let Value::Thunk { t, .. } = v {
                lemma_reduce_counts((fuel - 1) as nat, n1, *t);
                lemma_free_reduced_value(fuel, n, thunk);
                lemma_free_reduced_comp((fuel - 1) as nat, n1, *t);
            } else {
                lemma_free_reduced_value(fuel, n, thunk);
            }
        },
        Comp::Def { .. } => {},
        Comp::PrimitiveCall { args, .. } => {
            lemma_free_reduced_values(fuel, n, args);
        },
        Comp::Lambda { body, .. } => {
            lemma_free_reduced_comp(fuel, n, *body);
        },
    }
}

/// Reduction makes no variable free.
pub proof fn lemma_free_reduced(n: nat, c: Comp)
    requires
        reduces(n, c),
        reduced(n, c).1 <= usize::MAX,
    ensures
        free_in_comp(reduced(n, c).0).subset_of(free_in_comp(c)),
{
    let fuel = choose|fuel: nat| (#[trigger] reduce_comp(fuel, n, c)) is Some;
    lemma_free_reduced_comp(fuel, n, c);
}

/// Whether all variables and binders of a value are less than `bound`.
pub open spec fn within_value(bound: nat, v: Value) -> bool
    decreases v,
{
    match v {
        Value::Var { index } => index < bound,
        Value::Int { .. } => true,
        Value::Thunk { t, .. } => within(bound, *t),
    }
}

/// Whether all variables and binders of a sequence of values are less than `bound`.
pub open spec fn within_values(bound: nat, vs: Seq<Value>) -> bool
    decreases vs,
{
    forall|i: int| 0 <= i < vs.len() ==> within_value(bound, #[trigger] vs[i])
}

/// Whether all of `params` are less than `bound`.
pub open spec fn params_within(bound: nat, params: Seq<(usize, VType)>) -> bool {
    forall|i: int| 0 <= i < params.len() ==> (#[trigger] params[i]).0 < bound
}

/// Whether all variables and binders of a computation are less than `bound`.
pub open spec fn within(bound: nat, c: Comp) -> bool
    decreases c,
{
    match c {
        Comp::Redex { function, args } => within(bound, *function) && within_values(bound, args),
        Comp::Return { value } => within_value(bound, value),
        Comp::Force { thunk, .. } => within_value(bound, thunk),
        Comp::Def { .. } => true,
        Comp::PrimitiveCall { args, .. } => within_values(bound, args),
        Comp::Lambda { args, body, .. } => params_within(bound, args) && within(bound, *body),
    }
}

/// Whether the `var_bound` of `def` fits all its local variables, where they are bound and where
/// they are used.
pub open spec fn vars_fit(def: Definition) -> bool {
    params_within(def.var_bound, def.args) && within(def.var_bound, def.body)
}

/// Inside the scope of `params`, these stand for `n`, `n + 1` and so on, and other variables for
/// what they stand for outside.
proof fn lemma_bind_params(env: Map<usize, usize>, n: nat, params: Seq<(usize, VType)>)
    requires
        n + params.len() <= usize::MAX + 1,
    ensures
        ({
            let inner = bind_params(env, n, params);
            &&& forall|x: usize| #[trigger]
                inner.contains_key(x) <==> env.contains_key(x) || bound_by(params).contains(x)
            &&& forall|x: usize| #[trigger]
                inner.contains_key(x) ==> if bound_by(params).contains(x) {
                    n <= inner[x] < n + params.len()
                } else {
                    inner[x] == env[x]
                }
        }),
    decreases params.len(),
{
    if params.len() == 0 {
        assert(bound_by(params) =~= Set::empty());
    } else {
        let front = params.drop_last();
        lemma_bind_params(env, n, front);
        assert(front + seq![params.last()] =~= params);
        lemma_bound_by_concat(front, seq![params.last()]);
        let env0 = bind_params(env, n, front);
        let env1 = bind_params(env, n, params);
        assert forall|x: usize| #[trigger] env1.contains_key(x) <==> env.contains_key(x)
            || bound_by(params).contains(x) by {
            assert(seq![params.last()][0] == params.last());
            assert(env0.contains_key(x) <==> env.contains_key(x) || bound_by(front).contains(x));
        }
        assert forall|x: usize| #[trigger] env1.contains_key(x) implies if bound_by(
            params,
        ).contains(x) {
            n <= env1[x] < n + params.len()
        } else {
            env1[x] == env[x]
        } by {
            assert(seq![params.last()][0] == params.last());
            if x != params.last().0 {
                assert(env0.contains_key(x));
            }
        }
    }
}

proof fn lemma_renamed_within_value(env: Map<usize, usize>, n: nat, bound: nat, v: Value)
    requires
        forall|x: usize|
            free_in_value(v).contains(x) ==> if #[trigger] env.contains_key(x) {
                env[x] < bound
            } else {
                x < bound
            },
        n + binders_in_value(v) <= bound <= usize::MAX,
    ensures
        within_value(bound, rename_value(env, n, v)),
    decreases v,
{
    match v {
        Value::Thunk { t, .. } => {
            lemma_renamed_within(env, n, bound, *t);
        },
        Value::Var { index } => {
            assert(free_in_value(v).contains(index));
        },
        Value::Int { .. } => {},
    }
}

proof fn lemma_renamed_within_values(env: Map<usize, usize>, n: nat, bound: nat, vs: Seq<Value>)
    requires
        forall|x: usize|
            free_in_values(vs).contains(x) ==> if #[trigger] env.contains_key(x) {
                env[x] < bound
            } else {
                x < bound
            },
        n + binders_in_values(vs) <= bound <= usize::MAX,
    ensures
        within_values(bound, rename_values(env, n, vs)),
        rename_values(env, n, vs).len() == vs.len(),
    decreases vs,
{
    if vs.len() > 0 {
        let front = vs.drop_last();
        lemma_renamed_within_values(env, n, bound, front);
        lemma_renamed_within_value(env, n + binders_in_values(front), bound, vs.last());
        let new = rename_values(env, n, vs);
        assert forall|i: int| 0 <= i < new.len() implies within_value(bound, #[trigger] new[i]) by {
            if i < front.len() {
                assert(new[i] == rename_values(env, n, front)[i]);
            }
        }
    }
}

/// Renaming leaves only variables and binders less than `bound`, if that is so of what the free
/// variables stand for and there are indexes enough.
proof fn lemma_renamed_within(env: Map<usize, usize>, n: nat, bound: nat, c: Comp)
    requires
        forall|x: usize|
            free_in_comp(c).contains(x) ==> if #[trigger] env.contains_key(x) {
                env[x] < bound
            } else {
                x < bound
            },
        n + binders_in_comp(c) <= bound <= usize::MAX,
    ensures
        within(bound, rename_comp(env, n, c)),
    decreases c,
{
    match c {
        Comp::Redex { function, args } => {
            lemma_renamed_within(env, n, bound, *function);
            lemma_renamed_within_values(env, n + binders_in_comp(*function), bound, args);
        },
        Comp::Return { value } => {
            lemma_renamed_within_value(env, n, bound, value);
        },
        Comp::Force { thunk, .. } => {
            lemma_renamed_within_value(env, n, bound, thunk);
        },
        Comp::Def { .. } => {},
        Comp::PrimitiveCall { args, .. } => {
            lemma_renamed_within_values(env, n, bound, args);
        },
        Comp::Lambda { args, body, .. } => {
            lemma_bind_params(env, n, args);
            let inner = bind_params(env, n, args);
            assert forall|x: usize| free_in_comp(*body).contains(
                x,
            ) implies if #[trigger] inner.contains_key(x) {
                inner[x] < bound
            } else {
                x < bound
            } by {
                if !bound_by(args).contains(x) {
                    assert(free_in_comp(c).contains(x));
                    assert(env.contains_key(x) <==> inner.contains_key(x));
                }
            }
            lemma_renamed_within(inner, n + args.len(), bound, *body);
        },
    }
}

proof fn lemma_simplified_within_value(bound: nat, v: Value)
    requires
        within_value(bound, v),
    ensures
        within_value(bound, simplify_value(v)),
    decreases v,
{
    if let Value::Thunk { t, .. } = v {
        lemma_simplified_within(bound, *t);
    }
}

proof fn lemma_simplified_within_values(bound: nat, vs: Seq<Value>)
    requires
        within_values(bound, vs),
    ensures
        within_values(bound, simplify_values(vs)),
    decreases vs,
{
    assert forall|i: int| 0 <= i < vs.len() implies within_value(
        bound,
        #[trigger] simplify_values(vs)[i],
    ) by {
        assert(within_value(bound, vs[i]));
        lemma_simplified_within_value(bound, vs[i]);
    }
}

/// Removing redundancy brings in no variables and binders.
pub proof fn lemma_simplified_within(bound: nat, c: Comp)
    requires
        within(bound, c),
    ensures
        within(bound, simplify_comp(c)),
    decreases c,
{
    match c {
        Comp::Redex { function, args } => {
            lemma_simplified_within(bound, *function);
            lemma_simplified_within_values(bound, args);
            let vs = simplify_values(args);
            if let Comp::Redex { function: inner, args: inner_args } = simplify_comp(*function) {
                assert(within_values(bound, inner_args));
                assert(within_values(bound, inner_args + vs));
            }
        },
        Comp::Return { value } => {
            lemma_simplified_within_value(bound, value);
        },
        Comp::Force { thunk, .. } => {
            lemma_simplified_within_value(bound, thunk);
        },
        Comp::Def { .. } => {},
        Comp::PrimitiveCall { args, .. } => {
            lemma_simplified_within_values(bound, args);
        },
        Comp::Lambda { args, body, .. } => {
            lemma_simplified_within(bound, *body);
            if let Comp::Lambda { args: inner_args, .. } = simplify_comp(*body) {
                assert(params_within(bound, args + inner_args));
            }
        },
    }
}

proof fn lemma_substituted_within_value(bound: nat, bindings: Map<usize, Value>, v: Value)
    requires
        within_value(bound, v),
        forall|y: usize| #[trigger]
            bindings.contains_key(y) ==> within_value(bound, bindings[y]),
    ensures
        within_value(bound, substitute_in_value(bindings, v)),
    decreases v,
{
    if let Value::Thunk { t, .. } = v {
        lemma_substituted_within(bound, bindings, *t);
    }
}

proof fn lemma_substituted_within_values(bound: nat, bindings: Map<usize, Value>, vs: Seq<Value>)
    requires
        within_values(bound, vs),
        forall|y: usize| #[trigger]
            bindings.contains_key(y) ==> within_value(bound, bindings[y]),
    ensures
        within_values(bound, substitute_in_values(bindings, vs)),
    decreases vs,
{
    assert forall|i: int| 0 <= i < vs.len() implies within_value(
        bound,
        #[trigger] substitute_in_values(bindings, vs)[i],
    ) by {
        assert(within_value(bound, vs[i]));
        lemma_substituted_within_value(bound, bindings, vs[i]);
    }
}

/// A substitution brings in no index but those of the values that it puts in.
proof fn lemma_substituted_within(bound: nat, bindings: Map<usize, Value>, c: Comp)
    requires
        within(bound, c),
        forall|y: usize| #[trigger]
            bindings.contains_key(y) ==> within_value(bound, bindings[y]),
    ensures
        within(bound, substitute(bindings, c)),
    decreases c,
{
    match c {
        Comp::Redex { function, args } => {
            lemma_substituted_within(bound, bindings, *function);
            lemma_substituted_within_values(bound, bindings, args);
        },
        Comp::Return { value } => {
            lemma_substituted_within_value(bound, bindings, value);
        },
        Comp::Force { thunk, .. } => {
            lemma_substituted_within_value(bound, bindings, thunk);
        },
        Comp::Def { .. } => {},
        Comp::PrimitiveCall { args, .. } => {
            lemma_substituted_within_values(bound, bindings, args);
        },
        Comp::Lambda { body, .. } => {
            lemma_substituted_within(bound, bindings, *body);
        },
    }
}

/// Applying a lambda brings in no index.
pub proof fn lemma_applied_within(
    bound: nat,
    params: Seq<(usize, VType)>,
    body: Comp,
    effects: bool,
    args: Seq<Value>,
)
    requires
        params_within(bound, params),
        within(bound, body),
        within_values(bound, args),
    ensures
        within(bound, applied(params, body, effects, args)),
{
    let k = lesser(args.len(), params.len());
    let bindings = pair_up(params, args, k);
    lemma_pair_up(params, args, k);
    assert forall|y: usize| #[trigger] bindings.contains_key(y) implies within_value(
        bound,
        bindings[y],
    ) by {
        let i = choose|i: int| 0 <= i < k && #[trigger] args[i] == bindings[y];
        assert(within_value(bound, args[i]));
    }
    lemma_substituted_within(bound, bindings, body);
    let lambda = Comp::Lambda {
        args: params.skip(k as int),
        body: Box::new(substitute(bindings, body)),
        may_have_complex_effects: effects,
    };
    assert(params_within(bound, params.skip(k as int)));
    assert(within(bound, lambda));
    assert(within_values(bound, args.skip(k as int)));
    let redex = Comp::Redex { function: Box::new(lambda), args: args.skip(k as int) };
    assert(within(bound, redex));
    lemma_simplified_within(bound, redex);
}

proof fn lemma_within_more_value(bound: nat, more: nat, v: Value)
    requires
        within_value(bound, v),
        bound <= more,
    ensures
        within_value(more, v),
    decreases v,
{
    if let Value::Thunk { t, .. } = v {
        lemma_within_more(bound, more, *t);
    }
}

/// As [`lemma_within_more`], for sequences of values.
pub proof fn lemma_within_more_values(bound: nat, more: nat, vs: Seq<Value>)
    requires
        within_values(bound, vs),
        bound <= more,
    ensures
        within_values(more, vs),
    decreases vs,
{
    assert forall|i: int| 0 <= i < vs.len() implies within_value(more, #[trigger] vs[i]) by {
        assert(within_value(bound, vs[i]));
        lemma_within_more_value(bound, more, vs[i]);
    }
}

/// What is less than a bound is less than a greater one.
pub proof fn lemma_within_more(bound: nat, more: nat, c: Comp)
    requires
        within(bound, c),
        bound <= more,
    ensures
        within(more, c),
    decreases c,
{
    match c {
        Comp::Redex { function, args } => {
            lemma_within_more(bound, more, *function);
            lemma_within_more_values(bound, more, args);
        },
        Comp::Return { value } => {
            lemma_within_more_value(bound, more, value);
        },
        Comp::Force { thunk, .. } => {
            lemma_within_more_value(bound, more, thunk);
        },
        Comp::Def { .. } => {},
        Comp::PrimitiveCall { args, .. } => {
            lemma_within_more_values(bound, more, args);
        },
        Comp::Lambda { body, .. } => {
            lemma_within_more(bound, more, *body);
        },
    }
}

/// A step of reduction leaves all indexes unused that it tells to be.
pub proof fn lemma_contracted_within(
    n: nat,
    params: Seq<(usize, VType)>,
    body: Comp,
    effects: bool,
    args: Seq<Value>,
)
    requires
        params_within(n, params),
        within(n, body),
        within_values(n, args),
        contract(n, params, body, effects, args).1 <= usize::MAX,
    ensures
        within(
            contract(n, params, body, effects, args).1,
            contract(n, params, body, effects, args).0,
        ),
{
    let c = applied(params, body, effects, args);
    lemma_applied_within(n, params, body, effects, args);
    lemma_captures_within(n, c);
    if n + binders_in_comp(c) <= usize::MAX {
        let none = Map::<usize, usize>::empty();
        assert forall|x: usize| free_in_comp(c).contains(x) implies if #[trigger] none.contains_key(
            x,
        ) {
            none[x] < n + binders_in_comp(c)
        } else {
            x < n + binders_in_comp(c)
        } by {}
        lemma_renamed_within(none, n, n + binders_in_comp(c), c);
    }
}

/// As [`lemma_reduced_within`], for values.
pub proof fn lemma_reduced_within_value(fuel: nat, n: nat, v: Value)
    requires
        reduce_value(fuel, n, v) is Some,
        (reduce_value(fuel, n, v)->0).1 <= usize::MAX,
        within_value(n, v),
    ensures
        within_value((reduce_value(fuel, n, v)->0).1, (reduce_value(fuel, n, v)->0).0),
    decreases fuel, v,
{
    if let Value::Thunk { t, .. } = v {
        lemma_reduced_within_comp(fuel, n, *t);
    }
}

/// As [`lemma_reduced_within`], for sequences of values.
pub proof fn lemma_reduced_within_values(fuel: nat, n: nat, vs: Seq<Value>)
    requires
        reduce_values(fuel, n, vs) is Some,
        (reduce_values(fuel, n, vs)->0).1 <= usize::MAX,
        within_values(n, vs),
    ensures
        within_values((reduce_values(fuel, n, vs)->0).1, (reduce_values(fuel, n, vs)->0).0),
        (reduce_values(fuel, n, vs)->0).0.len() == vs.len(),
    decreases fuel, vs,
{
    if vs.len() > 0 {
        let front = vs.drop_last();
        let (new_front, n1) = reduce_values(fuel, n, front)->0;
        assert(within_values(n, front));
        assert(within_value(n, vs[vs.len() - 1]));
        lemma_reduce_counts_values(fuel, n, front);
        lemma_reduce_counts_value(fuel, n1, vs.last());
        lemma_within_more_value(n, n1, vs.last());
        lemma_reduced_within_values(fuel, n, front);
        lemma_reduced_within_value(fuel, n1, vs.last());
        let (new, n2) = reduce_values(fuel, n, vs)->0;
        lemma_within_more_values(n1, n2, new_front);
        assert forall|i: int| 0 <= i < new.len() implies within_value(n2, #[trigger] new[i]) by {
            if i < new_front.len() {
                assert(new[i] == new_front[i]);
            }
        }
    }
}

/// As [`lemma_reduced_within`], with the number of steps given.
pub proof fn lemma_reduced_within_comp(fuel: nat, n: nat, c: Comp)
    requires
        reduce_comp(fuel, n, c) is Some,
        (reduce_comp(fuel, n, c)->0).1 <= usize::MAX,
        within(n, c),
    ensures
        within((reduce_comp(fuel, n, c)->0).1, (reduce_comp(fuel, n, c)->0).0),
    decreases fuel, c,
{
    match c {
        Comp::Redex { function, args } => {
            let (f, n1) = reduce_comp(fuel, n, *function)->0;
            let (vs, n2) = reduce_values(fuel, n1, args)->0;
            lemma_reduce_counts(fuel, n, *function);
            lemma_reduce_counts_values(fuel, n1, args);
            lemma_within_more_values(n, n1, args);
            if let Comp::Lambda { args: params, body, may_have_complex_effects } = f {
                let (next, n3) = contract(n2, params, *body, may_have_complex_effects, vs);
                lemma_reduce_counts((fuel - 1) as nat, n3, next);
                lemma_reduced_within_comp(fuel, n, *function);
                lemma_reduced_within_values(fuel, n1, args);
                lemma_within_more(n1, n2, f);
                lemma_contracted_within(n2, params, *body, may_have_complex_effects, vs);
                lemma_reduced_within_comp((fuel - 1) as nat, n3, next);
            } else {
                lemma_reduced_within_comp(fuel, n, *function);
                lemma_reduced_within_values(fuel, n1, args);
                lemma_within_more(n1, n2, f);
            }
        },
        Comp::Return { value } => {
            lemma_reduced_within_value(fuel, n, value);
        },
        Comp::Force { thunk, .. } => {
            let (v, n1) = reduce_value(fuel, n, thunk)->0;
            if let Value::Thunk { t, .. } = v {
                lemma_reduce_counts((fuel - 1) as nat, n1, *t);
                lemma_reduced_within_value(fuel, n, thunk);
                lemma_reduced_within_comp((fuel - 1) as nat, n1, *t);
            } else {
                lemma_reduced_within_value(fuel, n, thunk);
            }
        },
        Comp::Def { .. } => {},
        Comp::PrimitiveCall { args, .. } => {
            lemma_reduced_within_values(fuel, n, args);
        },
        Comp::Lambda { args, body, .. } => {
            lemma_reduced_within_comp(fuel, n, *body);
            lemma_reduce_counts(fuel, n, *body);
        },
    }
}

/// Reduction leaves all indexes unused that it tells to be.
pub proof fn lemma_reduced_within(n: nat, c: Comp)
    requires
        reduces(n, c),
        reduced(n, c).1 <= usize::MAX,
        within(n, c),
    ensures
        within(reduced(n, c).1, reduced(n, c).0),
{
    let fuel = choose|fuel: nat| (#[trigger] reduce_comp(fuel, n, c)) is Some;
    lemma_reduced_within_comp(fuel, n, c);
}

/// Whether everything in a sequence is less than `bound`.
pub open spec fn all_below(bound: nat, s: Seq<usize>) -> bool {
    forall|x: usize| #[trigger] s.contains(x) ==> x < bound
}

proof fn lemma_all_below_concat(bound: nat, s: Seq<usize>, t: Seq<usize>)
    requires
        all_below(bound, s),
        all_below(bound, t),
    ensures
        all_below(bound, s + t),
{
    assert forall|x: usize| #[trigger] (s + t).contains(x) implies x < bound by {
        let i = (s + t).index_of(x);
        if i < s.len() {
            assert(s[i] == x);
            assert(s.contains(x));
        } else {
            assert(t[i - s.len()] == x);
            assert(t.contains(x));
        }
    }
}

/// As [`lemma_bound_within`], for values.
pub proof fn lemma_bound_within_value(bound: nat, v: Value)
    requires
        within_value(bound, v),
    ensures
        all_below(bound, bound_in_value(v)),
    decreases v,
{
    if let Value::Thunk { t, .. } = v {
        lemma_bound_within(bound, *t);
    }
}

proof fn lemma_bound_within_values(bound: nat, vs: Seq<Value>)
    requires
        within_values(bound, vs),
    ensures
        all_below(bound, bound_in_values(vs)),
    decreases vs,
{
    if vs.len() > 0 {
        assert(within_values(bound, vs.drop_last()));
        assert(within_value(bound, vs[vs.len() - 1]));
        lemma_bound_within_values(bound, vs.drop_last());
        lemma_bound_within_value(bound, vs.last());
        lemma_all_below_concat(
            bound,
            bound_in_values(vs.drop_last()),
            bound_in_value(vs.last()),
        );
    }
}

/// Where all variables and binders are less than a bound, so is everything that is bound.
pub proof fn lemma_bound_within(bound: nat, c: Comp)
    requires
        within(bound, c),
    ensures
        all_below(bound, bound_in_comp(c)),
    decreases c,
{
    match c {
        Comp::Redex { function, args } => {
            lemma_bound_within(bound, *function);
            lemma_bound_within_values(bound, args);
            lemma_all_below_concat(bound, bound_in_comp(*function), bound_in_values(args));
        },
        Comp::Return { value } => {
            lemma_bound_within_value(bound, value);
        },
        Comp::Force { thunk, .. } => {
            lemma_bound_within_value(bound, thunk);
        },
        Comp::Def { .. } => {},
        Comp::PrimitiveCall { args, .. } => {
            lemma_bound_within_values(bound, args);
        },
        Comp::Lambda { args, body, .. } => {
            lemma_bound_within(bound, *body);
            let indexes = indexes_of(args);
            assert forall|x: usize| #[trigger] indexes.contains(x) implies x < bound by {
                let i = indexes.index_of(x);
                assert(args[i].0 == x);
            }
            lemma_all_below_concat(bound, indexes, bound_in_comp(*body));
        },
    }
}

/// As [`lemma_top_within`], for values.
pub proof fn lemma_top_within_value(bound: nat, v: Value)
    ensures
        within_value(bound, v) <==> top_of_value(v) <= bound,
    decreases v,
{
    if let Value::Thunk { t, .. } = v {
        lemma_top_within(bound, *t);
    }
}

proof fn lemma_top_within_values(bound: nat, vs: Seq<Value>)
    ensures
        within_values(bound, vs) <==> top_of_values(vs) <= bound,
    decreases vs,
{
    if vs.len() > 0 {
        let front = vs.drop_last();
        lemma_top_within_values(bound, front);
        lemma_top_within_value(bound, vs.last());
        if within_values(bound, vs) {
            assert(within_values(bound, front));
            assert(within_value(bound, vs[vs.len() - 1]));
        }
        if within_values(bound, front) && within_value(bound, vs.last()) {
            assert forall|i: int| 0 <= i < vs.len() implies within_value(
                bound,
                #[trigger] vs[i],
            ) by {
                if i < front.len() {
                    assert(front[i] == vs[i]);
                }
            }
        }
    }
}

proof fn lemma_top_within_params(bound: nat, params: Seq<(usize, VType)>)
    ensures
        params_within(bound, params) <==> top_of_params(params) <= bound,
    decreases params.len(),
{
    if params.len() > 0 {
        let front = params.drop_last();
        lemma_top_within_params(bound, front);
        if params_within(bound, params) {
            assert forall|i: int| 0 <= i < front.len() implies (#[trigger] front[i]).0 < bound by {
                assert(front[i] == params[i]);
            }
            assert(params[params.len() - 1].0 < bound);
        }
        if params_within(bound, front) && params.last().0 < bound {
            assert forall|i: int| 0 <= i < params.len() implies (#[trigger] params[i]).0
                < bound by {
                if i < front.len() {
                    assert(front[i] == params[i]);
                }
            }
        }
    }
}

/// All variables and binders are less than a bound if the least index that is greater than all is
/// no greater than it.
pub proof fn lemma_top_within(bound: nat, c: Comp)
    ensures
        within(bound, c) <==> top(c) <= bound,
    decreases c,
{
    match c {
        Comp::Redex { function, args } => {
            lemma_top_within(bound, *function);
            lemma_top_within_values(bound, args);
        },
        Comp::Return { value } => {
            lemma_top_within_value(bound, value);
        },
        Comp::Force { thunk, .. } => {
            lemma_top_within_value(bound, thunk);
        },
        Comp::Def { .. } => {},
        Comp::PrimitiveCall { args, .. } => {
            lemma_top_within_values(bound, args);
        },
        Comp::Lambda { args, body, .. } => {
            lemma_top_within(bound, *body);
            lemma_top_within_params(bound, args);
        },
    }
}

pub proof fn lemma_captures_within_value(bound: nat, v: Value)
    requires
        within_value(bound, v),
        bound <= usize::MAX,
    ensures
        captures_below_in_value(bound, v),
        below(free_in_value(v), bound),
    decreases v,
{
    if let Value::Thunk { t, .. } = v {
        lemma_captures_within(bound, *t);
    }
}

proof fn lemma_captures_within_values(bound: nat, vs: Seq<Value>)
    requires
        within_values(bound, vs),
        bound <= usize::MAX,
    ensures
        captures_below_in_values(bound, vs),
        below(free_in_values(vs), bound),
    decreases vs,
{
    assert forall|i: int| 0 <= i < vs.len() implies captures_below_in_value(
        bound,
        #[trigger] vs[i],
    ) by {
        lemma_captures_within_value(bound, vs[i]);
    }
    assert forall|x: usize| #[trigger] free_in_values(vs).contains(x) implies x < bound by {
        lemma_free_in_values(vs, x);
        let i = choose|i: int| 0 <= i < vs.len() && free_in_value(#[trigger] vs[i]).contains(x);
        lemma_captures_within_value(bound, vs[i]);
    }
}

/// Where all variables and binders are less than `bound`, so is everything that is captured.
pub proof fn lemma_captures_within(bound: nat, c: Comp)
    requires
        within(bound, c),
        bound <= usize::MAX,
    ensures
        captures_below(bound, c),
        below(free_in_comp(c), bound),
    decreases c,
{
    match c {
        Comp::Redex { function, args } => {
            lemma_captures_within(bound, *function);
            lemma_captures_within_values(bound, args);
        },
        Comp::Return { value } => {
            lemma_captures_within_value(bound, value);
        },
        Comp::Force { thunk, .. } => {
            lemma_captures_within_value(bound, thunk);
        },
        Comp::Def { .. } => {},
        Comp::PrimitiveCall { args, .. } => {
            lemma_captures_within_values(bound, args);
        },
        Comp::Lambda { args, body, .. } => {
            lemma_top_within_params(bound, args);
            lemma_captures_within(bound, *body);
        },
    }
}

proof fn lemma_below_parts(bound: nat, set: Set<usize>, more: Set<usize>)
    requires
        below(set.union(more), bound),
    ensures
        below(set, bound),
        below(more, bound),
{
    assert forall|x: usize| set.contains(x) || more.contains(x) implies x < bound by {
        assert(set.union(more).contains(x));
    }
}

proof fn lemma_unbound_within_value(bound: nat, v: Value)
    requires
        binders_in_value(v) == 0,
        below(free_in_value(v), bound),
    ensures
        within_value(bound, v),
    decreases v,
{
    match v {
        Value::Var { index } => {
            assert(free_in_value(v).contains(index));
        },
        Value::Int { .. } => {},
        Value::Thunk { t, .. } => {
            lemma_unbound_within(bound, *t);
        },
    }
}

proof fn lemma_unbound_within_values(bound: nat, vs: Seq<Value>)
    requires
        binders_in_values(vs) == 0,
        below(free_in_values(vs), bound),
    ensures
        within_values(bound, vs),
    decreases vs,
{
    if vs.len() > 0 {
        let front = vs.drop_last();
        lemma_below_parts(bound, free_in_values(front), free_in_value(vs.last()));
        lemma_unbound_within_values(bound, front);
        lemma_unbound_within_value(bound, vs.last());
        assert forall|i: int| 0 <= i < vs.len() implies within_value(bound, #[trigger] vs[i]) by {
            if i < front.len() {
                assert(front[i] == vs[i]);
            }
        }
    }
}

/// Where nothing is bound, all variables are less than a bound if the free ones are.
pub proof fn lemma_unbound_within(bound: nat, c: Comp)
    requires
        binders_in_comp(c) == 0,
        below(free_in_comp(c), bound),
    ensures
        within(bound, c),
    decreases c,
{
    match c {
        Comp::Redex { function, args } => {
            lemma_below_parts(bound, free_in_comp(*function), free_in_values(args));
            lemma_unbound_within(bound, *function);
            lemma_unbound_within_values(bound, args);
        },
        Comp::Return { value } => {
            lemma_unbound_within_value(bound, value);
        },
        Comp::Force { thunk, .. } => {
            lemma_unbound_within_value(bound, thunk);
        },
        Comp::Def { .. } => {},
        Comp::PrimitiveCall { args, .. } => {
            lemma_unbound_within_values(bound, args);
        },
        Comp::Lambda { args, body, .. } => {
            assert(bound_by(args) =~= Set::empty());
            assert(free_in_comp(c) =~= free_in_comp(*body));
            lemma_unbound_within(bound, *body);
        },
    }
}

proof fn lemma_specialized_within_value(
    prims: Map<Seq<char>, Primitive>,
    base: Seq<char>,
    bound: nat,
    v: Value,
)
    requires
        within_value(bound, v),
    ensures
        within_value(bound, specialize_value(prims, base, v)),
    decreases v,
{
    if let Value::Thunk { t, .. } = v {
        lemma_specialized_within(prims, base, bound, *t);
    }
}

proof fn lemma_specialized_within_values(
    prims: Map<Seq<char>, Primitive>,
    base: Seq<char>,
    bound: nat,
    vs: Seq<Value>,
)
    requires
        within_values(bound, vs),
    ensures
        within_values(bound, specialize_values(prims, base, vs)),
    decreases vs,
{
    let new = specialize_values(prims, base, vs);
    assert forall|i: int| 0 <= i < new.len() implies within_value(bound, #[trigger] new[i]) by {
        assert(within_value(bound, vs[i]));
        lemma_specialized_within_value(prims, base, bound, vs[i]);
    }
}

/// Specializing calls brings in no variables and binders.
pub proof fn lemma_specialized_within(
    prims: Map<Seq<char>, Primitive>,
    base: Seq<char>,
    bound: nat,
    c: Comp,
)
    requires
        within(bound, c),
    ensures
        within(bound, specialize_comp(prims, base, c)),
    decreases c,
{
    match c {
        Comp::Redex { function, args } => {
            lemma_specialized_within(prims, base, bound, *function);
            lemma_specialized_within_values(prims, base, bound, args);
            assert(within(
                bound,
                Comp::Def { name: wrapper_name(base), may_have_complex_effects: false },
            ));
        },
        Comp::Return { value } => {
            lemma_specialized_within_value(prims, base, bound, value);
        },
        Comp::Force { thunk, .. } => {
            lemma_specialized_within_value(prims, base, bound, thunk);
        },
        Comp::Def { .. } => {},
        Comp::PrimitiveCall { args, .. } => {
            lemma_specialized_within_values(prims, base, bound, args);
        },
        Comp::Lambda { body, .. } => {
            lemma_specialized_within(prims, base, bound, *body);
        },
    }
}

/// The local variables of a renamed definition, where they are bound and where they are used, are
/// less than its `var_bound`.
pub proof fn lemma_renamed_definition_within(def: Definition)
    requires
        closed_definition(def),
        def.args.len() + binders_in_comp(def.body) <= usize::MAX,
    ensures
        vars_fit(rename_definition(def)),
{
    let env = bind_params(Map::empty(), 0, def.args);
    let renamed = rename_definition(def);
    lemma_bind_params(Map::empty(), 0, def.args);
    assert forall|x: usize| free_in_comp(def.body).contains(x) implies #[trigger] env.contains_key(
        x,
    ) && env[x] < renamed.var_bound by {
        assert(bound_by(def.args).contains(x));
        assert(env.contains_key(x));
    }
    lemma_renamed_within(env, def.args.len(), renamed.var_bound, def.body);
}

/// The position of the innermost binder of `x` in `scope`, which lists the indexes of enclosing
/// binders, the innermost last, or -1 if there is none.
pub open spec fn innermost(scope: Seq<usize>, x: usize) -> int
    decreases scope.len(),
{
    if scope.len() == 0 {
        -1
    } else if scope.last() == x {
        scope.len() - 1
    } else {
        innermost(scope.drop_last(), x)
    }
}

/// Whether the value `v` in the scope `s` differs from the value `w` in the scope `t` only in the
/// names of bound variables.
pub open spec fn alike_value(s: Seq<usize>, t: Seq<usize>, v: Value, w: Value) -> bool
    decreases v,
{
    match (v, w) {
        (Value::Var { index: x }, Value::Var { index: y }) => {
            &&& innermost(s, x) == innermost(t, y)
            &&& innermost(s, x) >= 0 || x == y
        },
        (Value::Int { value: a }, Value::Int { value: b }) => a == b,
        (
            Value::Thunk { t: c, may_have_complex_effects: e },
            Value::Thunk { t: d, may_have_complex_effects: f },
        ) => e == f && alike(s, t, *c, *d),
        _ => false,
    }
}

/// Whether sequences of values are alike; see [`alike_value`].
pub open spec fn alike_values(s: Seq<usize>, t: Seq<usize>, vs: Seq<Value>, ws: Seq<Value>) -> bool
    decreases vs,
{
    &&& vs.len() == ws.len()
    &&& forall|i: int| 0 <= i < vs.len() ==> alike_value(s, t, #[trigger] vs[i], ws[i])
}

/// Whether parameters differ only in their names.
pub open spec fn alike_params(ps: Seq<(usize, VType)>, qs: Seq<(usize, VType)>) -> bool {
    &&& ps.len() == qs.len()
    &&& forall|i: int| 0 <= i < ps.len() ==> (#[trigger] ps[i]).1 == (#[trigger] qs[i]).1
}

/// Whether computations are alike; see [`alike_value`].
pub open spec fn alike(s: Seq<usize>, t: Seq<usize>, c: Comp, d: Comp) -> bool
    decreases c,
{
    match (c, d) {
        (
            Comp::Redex { function: f, args: vs },
            Comp::Redex { function: g, args: ws },
        ) => alike(s, t, *f, *g) && alike_values(s, t, vs, ws),
        (Comp::Return { value: v }, Comp::Return { value: w }) => alike_value(s, t, v, w),
        (
            Comp::Force { thunk: v, may_have_complex_effects: e },
            Comp::Force { thunk: w, may_have_complex_effects: f },
        ) => e == f && alike_value(s, t, v, w),
        (Comp::Def { .. }, Comp::Def { .. }) => c == d,
        (
            Comp::PrimitiveCall { name: m, args: vs },
            Comp::PrimitiveCall { name: n, args: ws },
        ) => m == n && alike_values(s, t, vs, ws),
        (
            Comp::Lambda { args: ps, body: b, may_have_complex_effects: e },
            Comp::Lambda { args: qs, body: a, may_have_complex_effects: f },
        ) => {
            &&& e == f
            &&& alike_params(ps, qs)
            &&& alike(s + indexes_of(ps), t + indexes_of(qs), *b, *a)
        },
        _ => false,
    }
}

/// Whether definitions differ only in the names of their local variables.
pub open spec fn alike_definitions(d: Definition, e: Definition) -> bool {
    &&& alike_params(d.args, e.args)
    &&& alike(indexes_of(d.args), indexes_of(e.args), d.body, e.body)
    &&& d.c_type == e.c_type
    &&& d.may_be_simple == e.may_be_simple
    &&& d.may_be_complex == e.may_be_complex
}

/// In a scope without shadowing, every binder is the innermost of its index.
proof fn lemma_innermost(scope: Seq<usize>, k: int)
    requires
        0 <= k < scope.len(),
        scope.no_duplicates(),
    ensures
        innermost(scope, scope[k]) == k,
    decreases scope.len(),
{
    if k < scope.len() - 1 {
        assert(scope.last() == scope[scope.len() - 1]);
        lemma_innermost(scope.drop_last(), k);
        assert(scope.drop_last()[k] == scope[k]);
    }
}

/// Where there is no binder of `x`, there is no innermost one.
proof fn lemma_not_bound(scope: Seq<usize>, x: usize)
    ensures
        innermost(scope, x) >= -1,
        (forall|i: int| 0 <= i < scope.len() ==> #[trigger] scope[i] != x) ==> innermost(scope, x)
            == -1,
    decreases scope.len(),
{
    if scope.len() > 0 {
        lemma_not_bound(scope.drop_last(), x);
        if forall|i: int| 0 <= i < scope.len() ==> #[trigger] scope[i] != x {
            assert(scope[scope.len() - 1] != x);
            assert forall|i: int| 0 <= i < scope.len() - 1 implies #[trigger] scope.drop_last()[i]
                != x by {
                assert(scope.drop_last()[i] == scope[i]);
            }
        }
    }
}

/// Whether `env` sends what is bound in the scope `s` to what is at the same place in `t`, which
/// has no shadowing and only indexes from `low` up to `n`.
spec fn matches_scopes(
    s: Seq<usize>,
    t: Seq<usize>,
    env: Map<usize, usize>,
    low: nat,
    n: nat,
) -> bool {
    &&& s.len() == t.len()
    &&& t.no_duplicates()
    &&& low <= n
    &&& forall|i: int| 0 <= i < t.len() ==> low <= #[trigger] t[i] < n
    &&& forall|x: usize| #[trigger]
        env.contains_key(x) <==> innermost(s, x) >= 0
    &&& forall|x: usize| #[trigger]
        env.contains_key(x) ==> innermost(s, x) < s.len() && env[x] == t[innermost(s, x)]
}

/// Parameters that are renamed to `n`, `n + 1` and so on keep the scopes matched.
proof fn lemma_matches_params(
    s: Seq<usize>,
    t: Seq<usize>,
    env: Map<usize, usize>,
    low: nat,
    n: nat,
    params: Seq<(usize, VType)>,
)
    requires
        matches_scopes(s, t, env, low, n),
        n + params.len() <= usize::MAX,
    ensures
        matches_scopes(
            s + indexes_of(params),
            t + indexes_of(fresh_params(n, params)),
            bind_params(env, n, params),
            low,
            n + params.len(),
        ),
    decreases params.len(),
{
    let s1 = s + indexes_of(params);
    let t1 = t + indexes_of(fresh_params(n, params));
    if params.len() == 0 {
        assert(s1 =~= s);
        assert(t1 =~= t);
    } else {
        let front = params.drop_last();
        lemma_matches_params(s, t, env, low, n, front);
        let s0 = s + indexes_of(front);
        let t0 = t + indexes_of(fresh_params(n, front));
        assert(s1.drop_last() =~= s0);
        assert(t1.drop_last() =~= t0);
        assert(s1.last() == params.last().0);
        assert(t1.last() == n + front.len());
        let env0 = bind_params(env, n, front);
        let env1 = bind_params(env, n, params);
        assert forall|x: usize| #[trigger] env1.contains_key(x) implies innermost(s1, x) < s1.len()
            && env1[x] == t1[innermost(s1, x)] by {
            if x != params.last().0 {
                assert(env0.contains_key(x));
                assert(t0[innermost(s0, x)] == t1[innermost(s0, x)]);
            }
        }
        assert forall|x: usize| #[trigger] env1.contains_key(x) <==> innermost(s1, x) >= 0 by {
            assert(env0.contains_key(x) <==> innermost(s0, x) >= 0);
        }
    }
}

proof fn lemma_renamed_alike_value(
    s: Seq<usize>,
    t: Seq<usize>,
    env: Map<usize, usize>,
    low: nat,
    n: nat,
    v: Value,
)
    requires
        matches_scopes(s, t, env, low, n),
        forall|x: usize|
            free_in_value(v).contains(x) ==> #[trigger] env.contains_key(x) || x < low,
        n + binders_in_value(v) <= usize::MAX,
    ensures
        alike_value(s, t, v, rename_value(env, n, v)),
    decreases v,
{
    match v {
        Value::Thunk { t: c, .. } => {
            lemma_renamed_alike(s, t, env, low, n, *c);
        },
        Value::Var { index } => {
            assert(free_in_value(v).contains(index));
            lemma_not_bound(s, index);
            lemma_not_bound(t, index);
            if env.contains_key(index) {
                lemma_innermost(t, innermost(s, index));
            }
        },
        Value::Int { .. } => {},
    }
}

proof fn lemma_renamed_alike_values(
    s: Seq<usize>,
    t: Seq<usize>,
    env: Map<usize, usize>,
    low: nat,
    n: nat,
    vs: Seq<Value>,
)
    requires
        matches_scopes(s, t, env, low, n),
        forall|x: usize|
            free_in_values(vs).contains(x) ==> #[trigger] env.contains_key(x) || x < low,
        n + binders_in_values(vs) <= usize::MAX,
    ensures
        alike_values(s, t, vs, rename_values(env, n, vs)),
    decreases vs,
{
    if vs.len() > 0 {
        let front = vs.drop_last();
        let k = binders_in_values(front);
        lemma_renamed_alike_values(s, t, env, low, n, front);
        assert(matches_scopes(s, t, env, low, n + k));
        lemma_renamed_alike_value(s, t, env, low, n + k, vs.last());
        let new = rename_values(env, n, vs);
        assert forall|i: int| 0 <= i < vs.len() implies alike_value(
            s,
            t,
            #[trigger] vs[i],
            new[i],
        ) by {
            if i < front.len() {
                assert(front[i] == vs[i]);
                assert(new[i] == rename_values(env, n, front)[i]);
            }
        }
    }
}

proof fn lemma_renamed_alike(
    s: Seq<usize>,
    t: Seq<usize>,
    env: Map<usize, usize>,
    low: nat,
    n: nat,
    c: Comp,
)
    requires
        matches_scopes(s, t, env, low, n),
        forall|x: usize|
            free_in_comp(c).contains(x) ==> #[trigger] env.contains_key(x) || x < low,
        n + binders_in_comp(c) <= usize::MAX,
    ensures
        alike(s, t, c, rename_comp(env, n, c)),
    decreases c,
{
    match c {
        Comp::Redex { function, args } => {
            lemma_renamed_alike(s, t, env, low, n, *function);
            let k = binders_in_comp(*function);
            assert(matches_scopes(s, t, env, low, n + k));
            lemma_renamed_alike_values(s, t, env, low, n + k, args);
        },
        Comp::Return { value } => {
            lemma_renamed_alike_value(s, t, env, low, n, value);
        },
        Comp::Force { thunk, .. } => {
            lemma_renamed_alike_value(s, t, env, low, n, thunk);
        },
        Comp::Def { .. } => {},
        Comp::PrimitiveCall { args, .. } => {
            lemma_renamed_alike_values(s, t, env, low, n, args);
        },
        Comp::Lambda { args, body, .. } => {
            lemma_matches_params(s, t, env, low, n, args);
            lemma_bind_params(env, n, args);
            let inner = bind_params(env, n, args);
            assert forall|x: usize| free_in_comp(*body).contains(
                x,
            ) implies #[trigger] inner.contains_key(x) || x < low by {
                if !bound_by(args).contains(x) {
                    assert(free_in_comp(c).contains(x));
                    assert(inner.contains_key(x) <==> env.contains_key(x));
                }
            }
            lemma_renamed_alike(
                s + indexes_of(args),
                t + indexes_of(fresh_params(n, args)),
                inner,
                low,
                n + args.len(),
                *body,
            );
        },
    }
}

/// Renaming changes nothing but the names of local variables: every use of a variable is bound by
/// the same binder as before.
pub proof fn lemma_renamed_is_alike(def: Definition)
    requires
        closed_definition(def),
        def.args.len() + binders_in_comp(def.body) <= usize::MAX,
    ensures
        alike_definitions(def, rename_definition(def)),
{
    let none = Map::<usize, usize>::empty();
    let env = bind_params(none, 0, def.args);
    assert(matches_scopes(Seq::empty(), Seq::empty(), none, 0, 0));
    lemma_matches_params(Seq::empty(), Seq::empty(), none, 0, 0, def.args);
    lemma_bind_params(none, 0, def.args);
    assert(Seq::<usize>::empty() + indexes_of(def.args) =~= indexes_of(def.args));
    let fresh = indexes_of(fresh_params(0, def.args));
    assert(Seq::<usize>::empty() + fresh =~= fresh);
    assert forall|x: usize| free_in_comp(def.body).contains(x) implies #[trigger] env.contains_key(
        x,
    ) by {
        assert(bound_by(def.args).contains(x));
    }
    lemma_renamed_alike(indexes_of(def.args), fresh, env, 0, def.args.len(), def.body);
}

/// Numbering the binders of a computation anew changes nothing but the names of bound variables, if
/// all indexes from `n` on are unused.
pub proof fn lemma_renumbered_is_alike(n: nat, c: Comp)
    requires
        within(n, c),
        n + binders_in_comp(c) <= usize::MAX,
    ensures
        alike(Seq::empty(), Seq::empty(), c, rename_comp(Map::empty(), n, c)),
{
    let none = Map::<usize, usize>::empty();
    lemma_captures_within(n, c);
    assert(matches_scopes(Seq::empty(), Seq::empty(), none, n, n));
    assert forall|x: usize| free_in_comp(c).contains(x) implies #[trigger] none.contains_key(x) || x
        < n by {}
    lemma_renamed_alike(Seq::empty(), Seq::empty(), none, n, n, c);
}

/// Whether some variable of `set` stands for `y`.
spec fn stands_for(env: Map<usize, usize>, set: Set<usize>, y: usize) -> bool {
    exists|x: usize| #[trigger]
        set.contains(x) && y == (if env.contains_key(x) {
            env[x]
        } else {
            x
        })
}

proof fn lemma_free_renamed_value(env: Map<usize, usize>, n: nat, v: Value, y: usize)
    requires
        n + binders_in_value(v) <= usize::MAX,
        free_in_value(rename_value(env, n, v)).contains(y),
    ensures
        stands_for(env, free_in_value(v), y),
    decreases v,
{
    match v {
        Value::Thunk { t, .. } => {
            lemma_free_renamed(env, n, *t, y);
        },
        Value::Var { index } => {
            assert(free_in_value(v).contains(index));
        },
        Value::Int { .. } => {},
    }
}

proof fn lemma_free_renamed_values(env: Map<usize, usize>, n: nat, vs: Seq<Value>, y: usize)
    requires
        n + binders_in_values(vs) <= usize::MAX,
        free_in_values(rename_values(env, n, vs)).contains(y),
    ensures
        stands_for(env, free_in_values(vs), y),
    decreases vs,
{
    if vs.len() > 0 {
        let front = vs.drop_last();
        let k = binders_in_values(front);
        let new = rename_values(env, n, vs);
        assert(new.drop_last() =~= rename_values(env, n, front));
        if free_in_values(new.drop_last()).contains(y) {
            lemma_free_renamed_values(env, n, front, y);
            lemma_stands_for_more(env, free_in_values(front), free_in_values(vs), y);
        } else {
            lemma_free_renamed_value(env, n + k, vs.last(), y);
            lemma_stands_for_more(env, free_in_value(vs.last()), free_in_values(vs), y);
        }
    }
}

proof fn lemma_stands_for_more(
    env: Map<usize, usize>,
    set: Set<usize>,
    more: Set<usize>,
    y: usize,
)
    requires
        stands_for(env, set, y),
        set.subset_of(more),
    ensures
        stands_for(env, more, y),
{
    let x = choose|x: usize| #[trigger]
        set.contains(x) && y == (if env.contains_key(x) {
            env[x]
        } else {
            x
        });
    assert(more.contains(x));
}

/// What is free after renaming is what a free variable stands for.
proof fn lemma_free_renamed(env: Map<usize, usize>, n: nat, c: Comp, y: usize)
    requires
        n + binders_in_comp(c) <= usize::MAX,
        free_in_comp(rename_comp(env, n, c)).contains(y),
    ensures
        stands_for(env, free_in_comp(c), y),
    decreases c,
{
    match c {
        Comp::Redex { function, args } => {
            if free_in_comp(rename_comp(env, n, *function)).contains(y) {
                lemma_free_renamed(env, n, *function, y);
                lemma_stands_for_more(env, free_in_comp(*function), free_in_comp(c), y);
            } else {
                lemma_free_renamed_values(env, n + binders_in_comp(*function), args, y);
                lemma_stands_for_more(env, free_in_values(args), free_in_comp(c), y);
            }
        },
        Comp::Return { value } => {
            lemma_free_renamed_value(env, n, value, y);
        },
        Comp::Force { thunk, .. } => {
            lemma_free_renamed_value(env, n, thunk, y);
        },
        Comp::Def { .. } => {},
        Comp::PrimitiveCall { args, .. } => {
            lemma_free_renamed_values(env, n, args, y);
        },
        Comp::Lambda { args, body, .. } => {
            let inner = bind_params(env, n, args);
            let fresh = fresh_params(n, args);
            lemma_bind_params(env, n, args);
            lemma_free_renamed(inner, n + args.len(), *body, y);
            let x = choose|x: usize| #[trigger]
                free_in_comp(*body).contains(x) && y == (if inner.contains_key(x) {
                    inner[x]
                } else {
                    x
                });
            assert(inner.contains_key(x) <==> env.contains_key(x) || bound_by(args).contains(x));
            if bound_by(args).contains(x) {
                assert(fresh[y - n].0 == y);
                assert(bound_by(fresh).contains(y));
            }
            assert(free_in_comp(c).contains(x));
        },
    }
}

/// Numbering the binders of a computation anew makes no variable free.
pub proof fn lemma_free_renumbered(n: nat, c: Comp)
    requires
        n + binders_in_comp(c) <= usize::MAX,
    ensures
        free_in_comp(rename_comp(Map::empty(), n, c)).subset_of(free_in_comp(c)),
{
    let none = Map::<usize, usize>::empty();
    assert forall|y: usize| free_in_comp(rename_comp(none, n, c)).contains(
        y,
    ) implies free_in_comp(c).contains(y) by {
        lemma_free_renamed(none, n, c, y);
        let x = choose|x: usize| #[trigger]
            free_in_comp(c).contains(x) && y == (if none.contains_key(x) {
                none[x]
            } else {
                x
            });
    }
}

/// A definition that binds all its variables does so after it was renamed.
pub proof fn lemma_renamed_is_closed(def: Definition)
    requires
        closed_definition(def),
        def.args.len() + binders_in_comp(def.body) <= usize::MAX,
    ensures
        closed_definition(rename_definition(def)),
{
    let none = Map::<usize, usize>::empty();
    let env = bind_params(none, 0, def.args);
    let renamed = rename_definition(def);
    lemma_bind_params(none, 0, def.args);
    assert forall|x: usize| free_in_comp(def.body).contains(x) implies #[trigger] env.contains_key(
        x,
    ) by {
        assert(bound_by(def.args).contains(x));
    }
    assert forall|y: usize| free_in_comp(renamed.body).contains(y) implies bound_by(
        renamed.args,
    ).contains(y) by {
        lemma_free_renamed(env, def.args.len(), def.body, y);
        let x = choose|x: usize| #[trigger]
            free_in_comp(def.body).contains(x) && y == (if env.contains_key(x) {
                env[x]
            } else {
                x
            });
        assert(env.contains_key(x));
        assert(renamed.args[y as int].0 == y);
    }
}

/// Whether none of the indexes `s` is replaced by `bindings` or free in a value that is put in.
pub open spec fn avoids(bindings: Map<usize, Value>, s: Seq<usize>) -> bool {
    forall|i: int|
        0 <= i < s.len() ==> !bindings.contains_key(#[trigger] s[i]) && !free_in_bindings(
            bindings,
            s[i],
        )
}

proof fn lemma_avoids_parts(bindings: Map<usize, Value>, s: Seq<usize>, t: Seq<usize>)
    requires
        avoids(bindings, s + t),
    ensures
        avoids(bindings, s),
        avoids(bindings, t),
{
    let all = s + t;
    assert forall|i: int| 0 <= i < s.len() implies !bindings.contains_key(#[trigger] s[i])
        && !free_in_bindings(bindings, s[i]) by {
        assert(all[i] == s[i]);
    }
    assert forall|i: int| 0 <= i < t.len() implies !bindings.contains_key(#[trigger] t[i])
        && !free_in_bindings(bindings, t[i]) by {
        assert(all[s.len() + i] == t[i]);
    }
}

/// Whether `x` is free in a value that is put in for one of the variables `set`.
pub open spec fn free_in_used(bindings: Map<usize, Value>, set: Set<usize>, x: usize) -> bool {
    exists|y: usize| #[trigger]
        bindings.contains_key(y) && set.contains(y) && free_in_value(bindings[y]).contains(x)
}

proof fn lemma_substitution_value(bindings: Map<usize, Value>, v: Value, x: usize)
    requires
        avoids(bindings, bound_in_value(v)),
    ensures
        free_in_value(substitute_in_value(bindings, v)).contains(x) <==> (free_in_value(v).contains(
            x,
        ) && !bindings.contains_key(x)) || free_in_used(bindings, free_in_value(v), x),
    decreases v,
{
    match v {
        Value::Thunk { t, .. } => {
            lemma_substitution(bindings, *t, x);
        },
        Value::Var { index } => {
            assert(free_in_value(v).contains(index));
        },
        Value::Int { .. } => {},
    }
}

proof fn lemma_substitution_values(bindings: Map<usize, Value>, vs: Seq<Value>, x: usize)
    requires
        avoids(bindings, bound_in_values(vs)),
    ensures
        free_in_values(substitute_in_values(bindings, vs)).contains(x) <==> (free_in_values(
            vs,
        ).contains(x) && !bindings.contains_key(x)) || free_in_used(
            bindings,
            free_in_values(vs),
            x,
        ),
    decreases vs,
{
    if vs.len() > 0 {
        let front = vs.drop_last();
        let new = substitute_in_values(bindings, vs);
        lemma_avoids_parts(bindings, bound_in_values(front), bound_in_value(vs.last()));
        lemma_substitution_values(bindings, front, x);
        lemma_substitution_value(bindings, vs.last(), x);
        assert(new.drop_last() =~= substitute_in_values(bindings, front));
        lemma_used_union(bindings, free_in_values(front), free_in_value(vs.last()), x);
    }
}

proof fn lemma_used_union(
    bindings: Map<usize, Value>,
    set: Set<usize>,
    more: Set<usize>,
    x: usize,
)
    ensures
        free_in_used(bindings, set.union(more), x) <==> free_in_used(bindings, set, x)
            || free_in_used(bindings, more, x),
{
    if free_in_used(bindings, set, x) {
        let y = choose|y: usize| #[trigger]
            bindings.contains_key(y) && set.contains(y) && free_in_value(bindings[y]).contains(x);
        assert(set.union(more).contains(y));
    }
    if free_in_used(bindings, more, x) {
        let y = choose|y: usize| #[trigger]
            bindings.contains_key(y) && more.contains(y) && free_in_value(bindings[y]).contains(x);
        assert(set.union(more).contains(y));
    }
}

/// A substitution captures nothing, if no binder is replaced or free in a value that is put in, as
/// is the case where all local variables are distinct: free afterwards are the variables that were
/// free and are not replaced, and those that are free in a value that is put in for a free
/// variable.
pub proof fn lemma_substitution(bindings: Map<usize, Value>, c: Comp, x: usize)
    requires
        avoids(bindings, bound_in_comp(c)),
    ensures
        free_in_comp(substitute(bindings, c)).contains(x) <==> (free_in_comp(c).contains(x)
            && !bindings.contains_key(x)) || free_in_used(bindings, free_in_comp(c), x),
    decreases c,
{
    match c {
        Comp::Redex { function, args } => {
            lemma_avoids_parts(bindings, bound_in_comp(*function), bound_in_values(args));
            lemma_substitution(bindings, *function, x);
            lemma_substitution_values(bindings, args, x);
            lemma_used_union(bindings, free_in_comp(*function), free_in_values(args), x);
        },
        Comp::Return { value } => {
            lemma_substitution_value(bindings, value, x);
        },
        Comp::Force { thunk, .. } => {
            lemma_substitution_value(bindings, thunk, x);
        },
        Comp::Def { .. } => {},
        Comp::PrimitiveCall { args, .. } => {
            lemma_substitution_values(bindings, args, x);
        },
        Comp::Lambda { args, body, .. } => {
            lemma_avoids_parts(bindings, indexes_of(args), bound_in_comp(*body));
            lemma_substitution(bindings, *body, x);
            assert forall|z: usize| #[trigger] bound_by(args).contains(
                z,
            ) implies !bindings.contains_key(z) && !free_in_bindings(bindings, z) by {
                let i = choose|i: int| 0 <= i < args.len() && (#[trigger] args[i]).0 == z;
                assert(indexes_of(args)[i] == z);
            }
            if free_in_used(bindings, free_in_comp(*body), x) {
                let y = choose|y: usize| #[trigger]
                    bindings.contains_key(y) && free_in_comp(*body).contains(y) && free_in_value(
                        bindings[y],
                    ).contains(x);
                assert(free_in_bindings(bindings, x));
                assert(!bound_by(args).contains(y));
                assert(free_in_comp(c).contains(y));
            }
            if free_in_used(bindings, free_in_comp(c), x) {
                let y = choose|y: usize| #[trigger]
                    bindings.contains_key(y) && free_in_comp(c).contains(y) && free_in_value(
                        bindings[y],
                    ).contains(x);
                assert(free_in_bindings(bindings, x));
                assert(free_in_comp(*body).contains(y));
            }
        },
    }
}

} // verus!
