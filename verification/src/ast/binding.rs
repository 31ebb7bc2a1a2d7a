//! The binders of terms, and what the passes do to them.
use crate::ast::primitive_functions::Primitive;
use crate::ast::redundancy::{simplify_comp, simplify_value, simplify_values};
use crate::ast::renamer::{
    bind_params, binders_in_comp, binders_in_value, binders_in_values, fresh_params,
    lemma_rename_keeps_count, lemma_rename_keeps_count_in_values, rename_comp, rename_value,
    rename_values,
};
use crate::ast::signature::{renamable, rename_definition, Definition};
use crate::ast::specializer::{
    specialize_comp, specialize_value, specialize_values, wrapper_name,
};
use crate::ast::term::{Comp, VType, Value};
use vstd::prelude::*;

verus! {

/// The indexes of `params`.
pub open spec fn indexes_of(params: Seq<(usize, VType)>) -> Seq<usize> {
    Seq::new(params.len(), |i: int| params[i].0)
}

/// The indexes that are bound in a value, one for each binder, in the order of the binders.
pub open spec fn bound_in_value(v: Value) -> Seq<usize>
    decreases v,
{
    match v {
        Value::Thunk { t, .. } => bound_in_comp(*t),
        _ => Seq::empty(),
    }
}

/// The indexes that are bound in a sequence of values; see [`bound_in_value`].
pub open spec fn bound_in_values(vs: Seq<Value>) -> Seq<usize>
    decreases vs,
{
    if vs.len() == 0 {
        Seq::empty()
    } else {
        bound_in_values(vs.drop_last()) + bound_in_value(vs.last())
    }
}

/// The indexes that are bound in a computation; see [`bound_in_value`].
pub open spec fn bound_in_comp(c: Comp) -> Seq<usize>
    decreases c,
{
    match c {
        Comp::Redex { function, args } => bound_in_comp(*function) + bound_in_values(args),
        Comp::Return { value } => bound_in_value(value),
        Comp::Force { thunk, .. } => bound_in_value(thunk),
        Comp::Def { .. } => Seq::empty(),
        Comp::PrimitiveCall { args, .. } => bound_in_values(args),
        Comp::Lambda { args, body, .. } => indexes_of(args) + bound_in_comp(*body),
    }
}

/// The indexes that are bound in a definition: those of its parameters and those of its body.
pub open spec fn bound_in_definition(def: Definition) -> Seq<usize> {
    indexes_of(def.args) + bound_in_comp(def.body)
}

/// Whether all local variables of a definition are distinct.
pub open spec fn has_distinct_vars(def: Definition) -> bool {
    bound_in_definition(def).no_duplicates()
}

/// The `k` indexes from `n` on.
pub open spec fn indexes_from(n: nat, k: nat) -> Seq<usize> {
    Seq::new(k, |i: int| (n + i) as usize)
}

/// The binders of two sequences of values are those of the one and those of the other.
pub proof fn lemma_bound_in_concat(vs: Seq<Value>, more: Seq<Value>)
    ensures
        bound_in_values(vs + more) == bound_in_values(vs) + bound_in_values(more),
    decreases more.len(),
{
    if more.len() == 0 {
        assert(vs + more =~= vs);
        assert(bound_in_values(vs) + bound_in_values(more) =~= bound_in_values(vs));
    } else {
        lemma_bound_in_concat(vs, more.drop_last());
        assert((vs + more).drop_last() =~= vs + more.drop_last());
        assert((vs + more).last() == more.last());
        assert(bound_in_values(vs + more) =~= bound_in_values(vs) + bound_in_values(more));
    }
}

/// As [`lemma_bound_len`], for values.
pub proof fn lemma_bound_len_value(v: Value)
    ensures
        bound_in_value(v).len() == binders_in_value(v),
    decreases v,
{
    if let Value::Thunk { t, .. } = v {
        lemma_bound_len(*t);
    }
}

proof fn lemma_bound_len_values(vs: Seq<Value>)
    ensures
        bound_in_values(vs).len() == binders_in_values(vs),
    decreases vs,
{
    if vs.len() > 0 {
        lemma_bound_len_values(vs.drop_last());
        lemma_bound_len_value(vs.last());
    }
}

/// There is one bound index for each binder.
pub proof fn lemma_bound_len(c: Comp)
    ensures
        bound_in_comp(c).len() == binders_in_comp(c),
    decreases c,
{
    match c {
        Comp::Redex { function, args } => {
            lemma_bound_len(*function);
            lemma_bound_len_values(args);
        },
        Comp::Return { value } => {
            lemma_bound_len_value(value);
        },
        Comp::Force { thunk, .. } => {
            lemma_bound_len_value(thunk);
        },
        Comp::Def { .. } => {},
        Comp::PrimitiveCall { args, .. } => {
            lemma_bound_len_values(args);
        },
        Comp::Lambda { body, .. } => {
            lemma_bound_len(*body);
        },
    }
}

/// The parts of a sequence without duplicates have none.
pub proof fn lemma_parts_distinct(s: Seq<usize>, t: Seq<usize>)
    requires
        (s + t).no_duplicates(),
    ensures
        s.no_duplicates(),
        t.no_duplicates(),
{
    let all = s + t;
    assert forall|i: int, j: int| 0 <= i < s.len() && 0 <= j < s.len() && i != j implies s[i]
        != s[j] by {
        assert(all[i] == s[i] && all[j] == s[j]);
    }
    assert forall|i: int, j: int| 0 <= i < t.len() && 0 <= j < t.len() && i != j implies t[i]
        != t[j] by {
        assert(all[s.len() + i] == t[i] && all[s.len() + j] == t[j]);
    }
}

proof fn lemma_bound_renamed_value(env: Map<usize, usize>, n: nat, v: Value)
    ensures
        bound_in_value(rename_value(env, n, v)) == indexes_from(n, binders_in_value(v)),
    decreases v,
{
    if let Value::Thunk { t, .. } = v {
        lemma_bound_renamed(env, n, *t);
    } else {
        assert(bound_in_value(rename_value(env, n, v)) =~= indexes_from(n, 0));
    }
}

proof fn lemma_bound_renamed_values(env: Map<usize, usize>, n: nat, vs: Seq<Value>)
    ensures
        bound_in_values(rename_values(env, n, vs)) == indexes_from(n, binders_in_values(vs)),
    decreases vs,
{
    let renamed = rename_values(env, n, vs);
    if vs.len() == 0 {
        assert(bound_in_values(renamed) =~= indexes_from(n, 0));
    } else {
        let front = vs.drop_last();
        let k = binders_in_values(front);
        lemma_bound_renamed_values(env, n, front);
        lemma_bound_renamed_value(env, n + k, vs.last());
        assert(renamed.drop_last() =~= rename_values(env, n, front));
        assert(bound_in_values(renamed) =~= indexes_from(n, binders_in_values(vs)));
    }
}

/// Renaming numbers the binders in the order in which they occur.
pub proof fn lemma_bound_renamed(env: Map<usize, usize>, n: nat, c: Comp)
    ensures
        bound_in_comp(rename_comp(env, n, c)) == indexes_from(n, binders_in_comp(c)),
    decreases c,
{
    let renamed = rename_comp(env, n, c);
    match c {
        Comp::Redex { function, args } => {
            lemma_bound_renamed(env, n, *function);
            lemma_bound_renamed_values(env, n + binders_in_comp(*function), args);
            assert(bound_in_comp(renamed) =~= indexes_from(n, binders_in_comp(c)));
        },
        Comp::Return { value } => {
            lemma_bound_renamed_value(env, n, value);
        },
        Comp::Force { thunk, .. } => {
            lemma_bound_renamed_value(env, n, thunk);
        },
        Comp::Def { .. } => {
            assert(bound_in_comp(renamed) =~= indexes_from(n, 0));
        },
        Comp::PrimitiveCall { args, .. } => {
            lemma_bound_renamed_values(env, n, args);
        },
        Comp::Lambda { args, body, .. } => {
            lemma_bound_renamed(bind_params(env, n, args), n + args.len(), *body);
            assert(indexes_of(fresh_params(n, args)) =~= indexes_from(n, args.len()));
            assert(bound_in_comp(renamed) =~= indexes_from(n, binders_in_comp(c)));
        },
    }
}

/// Renaming makes the local variables of a definition distinct: they are the indexes less than its
/// `var_bound`, each bound once.
pub proof fn lemma_renamed_vars_are_distinct(def: Definition)
    requires
        def.args.len() + binders_in_comp(def.body) <= usize::MAX,
    ensures
        ({
            let renamed = rename_definition(def);
            &&& bound_in_definition(renamed) == indexes_from(0, renamed.var_bound)
            &&& has_distinct_vars(renamed)
            &&& forall|i: int|
                0 <= i < renamed.var_bound ==> (#[trigger] bound_in_definition(renamed)[i])
                    < renamed.var_bound
        }),
{
    let renamed = rename_definition(def);
    let env = bind_params(Map::empty(), 0, def.args);
    lemma_bound_renamed(env, def.args.len(), def.body);
    assert(indexes_of(fresh_params(0, def.args)) =~= indexes_from(0, def.args.len()));
    assert(bound_in_definition(renamed) =~= indexes_from(0, renamed.var_bound));
}

/// Whether every variable in `env` stands for itself.
spec fn is_identity(env: Map<usize, usize>) -> bool {
    forall|x: usize| #[trigger] env.contains_key(x) ==> env[x] == x
}

/// Parameters that are numbered from `n` keep their indexes when they are numbered from `n` again.
proof fn lemma_bind_fresh_params(env: Map<usize, usize>, n: nat, params: Seq<(usize, VType)>)
    requires
        is_identity(env),
        n + params.len() <= usize::MAX + 1,
    ensures
        is_identity(bind_params(env, n, fresh_params(n, params))),
    decreases params.len(),
{
    if params.len() > 0 {
        let front = params.drop_last();
        lemma_bind_fresh_params(env, n, front);
        assert(fresh_params(n, params).drop_last() =~= fresh_params(n, front));
    }
}

proof fn lemma_renamed_twice_value(
    env: Map<usize, usize>,
    same: Map<usize, usize>,
    n: nat,
    v: Value,
)
    requires
        is_identity(same),
        n + binders_in_value(v) <= usize::MAX,
    ensures
        rename_value(same, n, rename_value(env, n, v)) == rename_value(env, n, v),
    decreases v,
{
    if let Value::Thunk { t, .. } = v {
        lemma_renamed_twice(env, same, n, *t);
    }
}

proof fn lemma_renamed_twice_values(
    env: Map<usize, usize>,
    same: Map<usize, usize>,
    n: nat,
    vs: Seq<Value>,
)
    requires
        is_identity(same),
        n + binders_in_values(vs) <= usize::MAX,
    ensures
        rename_values(same, n, rename_values(env, n, vs)) == rename_values(env, n, vs),
    decreases vs,
{
    if vs.len() > 0 {
        let front = vs.drop_last();
        let new = rename_values(env, n, vs);
        lemma_renamed_twice_values(env, same, n, front);
        lemma_renamed_twice_value(env, same, n + binders_in_values(front), vs.last());
        lemma_rename_keeps_count_in_values(env, n, front);
        assert(new.drop_last() =~= rename_values(env, n, front));
    }
}

/// Renaming what was renamed changes nothing.
proof fn lemma_renamed_twice(env: Map<usize, usize>, same: Map<usize, usize>, n: nat, c: Comp)
    requires
        is_identity(same),
        n + binders_in_comp(c) <= usize::MAX,
    ensures
        rename_comp(same, n, rename_comp(env, n, c)) == rename_comp(env, n, c),
    decreases c,
{
    match c {
        Comp::Redex { function, args } => {
            lemma_renamed_twice(env, same, n, *function);
            lemma_renamed_twice_values(env, same, n + binders_in_comp(*function), args);
            lemma_rename_keeps_count(env, n, *function);
        },
        Comp::Return { value } => {
            lemma_renamed_twice_value(env, same, n, value);
        },
        Comp::Force { thunk, .. } => {
            lemma_renamed_twice_value(env, same, n, thunk);
        },
        Comp::Def { .. } => {},
        Comp::PrimitiveCall { args, .. } => {
            lemma_renamed_twice_values(env, same, n, args);
        },
        Comp::Lambda { args, body, .. } => {
            let fresh = fresh_params(n, args);
            lemma_bind_fresh_params(same, n, args);
            lemma_renamed_twice(
                bind_params(env, n, args),
                bind_params(same, n, fresh),
                n + args.len(),
                *body,
            );
            assert(fresh_params(n, fresh) =~= fresh);
        },
    }
}

/// Renaming a definition twice is renaming it once. It numbers the parameters from 0 and keeps
/// their types.
pub proof fn lemma_renaming_twice(def: Definition)
    requires
        renamable(def),
    ensures
        rename_definition(rename_definition(def)) == rename_definition(def),
        rename_definition(def).args.len() == def.args.len(),
        forall|i: int|
            0 <= i < def.args.len() ==> (#[trigger] rename_definition(def).args[i]) == (
                i as usize,
                def.args[i].1,
            ),
{
    let none = Map::<usize, usize>::empty();
    let env = bind_params(none, 0, def.args);
    let renamed = rename_definition(def);
    lemma_bind_fresh_params(none, 0, def.args);
    lemma_renamed_twice(
        env,
        bind_params(none, 0, renamed.args),
        def.args.len(),
        def.body,
    );
    lemma_rename_keeps_count(env, def.args.len(), def.body);
    assert(fresh_params(0, renamed.args) =~= renamed.args);
}

proof fn lemma_bound_simplified_value(v: Value)
    ensures
        bound_in_value(simplify_value(v)) == bound_in_value(v),
    decreases v,
{
    if let Value::Thunk { t, .. } = v {
        lemma_bound_simplified(*t);
    }
}

proof fn lemma_bound_simplified_values(vs: Seq<Value>)
    ensures
        bound_in_values(simplify_values(vs)) == bound_in_values(vs),
    decreases vs,
{
    if vs.len() > 0 {
        lemma_bound_simplified_values(vs.drop_last());
        lemma_bound_simplified_value(vs.last());
        assert(simplify_values(vs).drop_last() =~= simplify_values(vs.drop_last()));
    }
}

/// Removing redundancy keeps all binders, in their order.
pub proof fn lemma_bound_simplified(c: Comp)
    ensures
        bound_in_comp(simplify_comp(c)) == bound_in_comp(c),
    decreases c,
{
    match c {
        Comp::Redex { function, args } => {
            lemma_bound_simplified(*function);
            lemma_bound_simplified_values(args);
            let vs = simplify_values(args);
            if vs.len() == 0 {
                assert(bound_in_comp(*function) + bound_in_values(args) =~= bound_in_comp(
                    *function,
                ));
            } else if let Comp::Redex { function: inner, args: inner_args } = simplify_comp(
                *function,
            ) {
                lemma_bound_in_concat(inner_args, vs);
                assert(bound_in_comp(*inner) + (bound_in_values(inner_args) + bound_in_values(vs))
                    =~= bound_in_comp(*inner) + bound_in_values(inner_args) + bound_in_values(
                    vs,
                ));
            }
        },
        Comp::Return { value } => {
            lemma_bound_simplified_value(value);
        },
        Comp::Force { thunk, .. } => {
            lemma_bound_simplified_value(thunk);
        },
        Comp::Def { .. } => {},
        Comp::PrimitiveCall { args, .. } => {
            lemma_bound_simplified_values(args);
        },
        Comp::Lambda { args, body, .. } => {
            lemma_bound_simplified(*body);
            if let Comp::Lambda { args: inner_args, body: inner_body, .. } = simplify_comp(*body) {
                assert(indexes_of(args + inner_args) =~= indexes_of(args) + indexes_of(inner_args));
                assert(indexes_of(args) + (indexes_of(inner_args) + bound_in_comp(*inner_body))
                    =~= indexes_of(args) + indexes_of(inner_args) + bound_in_comp(*inner_body));
                if args.len() + inner_args.len() == 0 {
                    assert(bound_in_comp(c) =~= bound_in_comp(*inner_body));
                }
            } else if args.len() == 0 {
                assert(bound_in_comp(c) =~= bound_in_comp(*body));
            }
        },
    }
}

proof fn lemma_bound_specialized_value(
    prims: Map<Seq<char>, Primitive>,
    base: Seq<char>,
    v: Value,
)
    ensures
        bound_in_value(specialize_value(prims, base, v)) == bound_in_value(v),
    decreases v,
{
    if let Value::Thunk { t, .. } = v {
        lemma_bound_specialized(prims, base, *t);
    }
}

proof fn lemma_bound_specialized_values(
    prims: Map<Seq<char>, Primitive>,
    base: Seq<char>,
    vs: Seq<Value>,
)
    ensures
        bound_in_values(specialize_values(prims, base, vs)) == bound_in_values(vs),
    decreases vs,
{
    if vs.len() > 0 {
        lemma_bound_specialized_values(prims, base, vs.drop_last());
        lemma_bound_specialized_value(prims, base, vs.last());
        assert(specialize_values(prims, base, vs).drop_last() =~= specialize_values(
            prims,
            base,
            vs.drop_last(),
        ));
    }
}

/// Specializing calls keeps all binders, in their order.
pub proof fn lemma_bound_specialized(
    prims: Map<Seq<char>, Primitive>,
    base: Seq<char>,
    c: Comp,
)
    ensures
        bound_in_comp(specialize_comp(prims, base, c)) == bound_in_comp(c),
    decreases c,
{
    match c {
        Comp::Redex { function, args } => {
            lemma_bound_specialized(prims, base, *function);
            lemma_bound_specialized_values(prims, base, args);
            assert(Seq::<usize>::empty() + bound_in_values(args) =~= bound_in_values(args));
            if *function is Def {
                let wrapper = Comp::Def {
                    name: wrapper_name(base),
                    may_have_complex_effects: false,
                };
                assert(bound_in_comp(*function) =~= Seq::empty());
                assert(bound_in_comp(wrapper) =~= Seq::empty());
                assert(bound_in_comp(specialize_comp(prims, base, c)) =~= bound_in_comp(c));
            }
        },
        Comp::Return { value } => {
            lemma_bound_specialized_value(prims, base, value);
        },
        Comp::Force { thunk, .. } => {
            lemma_bound_specialized_value(prims, base, thunk);
        },
        Comp::Def { .. } => {},
        Comp::PrimitiveCall { args, .. } => {
            lemma_bound_specialized_values(prims, base, args);
        },
        Comp::Lambda { body, .. } => {
            lemma_bound_specialized(prims, base, *body);
        },
    }
}

} // verus!
