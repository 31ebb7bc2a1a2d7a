//! What holds of collections of definitions, and of what optimizing makes of them.
use crate::ast::binding::{
    bound_in_comp, bound_in_definition, has_distinct_vars, indexes_from, indexes_of,
    lemma_bound_len, lemma_parts_distinct, lemma_renamed_vars_are_distinct,
};
use crate::ast::copying::{lemma_reduced_vars_are_distinct, lemma_reduced_vars_fit};
use crate::ast::free_var::{bound_by, free_in_comp, free_in_value};
use crate::ast::lifter::{
    is_call, lambda_name, lemma_lift_free, lemma_lift_leaves_no_binders, lift_comp, lifts_in_comp,
};
use crate::ast::lifting::{
    all_closed, all_flat, all_have_distinct_vars, all_vars_fit, flat, flat_value, flat_values,
    lemma_lambda_names_differ, lemma_lifted_are_numbered, lemma_lifted_closed, lemma_lifted_is_flat,
};
use crate::ast::normal_form::lemma_reduce_fuel;
use crate::ast::primitive_functions::Primitive;
use crate::ast::reducer::reduce_comp;
use crate::ast::renamer::{
    bind_params, binders_in_comp, binders_in_value, binders_in_values, lemma_no_binders_in_values,
    lemma_rename_keeps_count, rename_comp, rename_value, rename_values,
};
use crate::ast::scope::{
    closed_definition, lemma_captures_within, lemma_free_in_values, lemma_free_reduced,
    lemma_free_simplified, lemma_free_specialized, lemma_renamed_definition_within,
    lemma_renamed_is_closed, lemma_simplified_within, lemma_specialized_within,
    lemma_unbound_within, vars_fit,
};
use crate::ast::signature::{
    all_calls_fit, all_reduce, all_reduce_within, all_renamable, before_lifting, distinct_names,
    first_unused, holds, lemma_no_binders_after_lifting, lemma_no_binders_in_lifted,
    lemma_put_all_each, liftable, lifted, local_types, optimizable, optimizable_within, optimized,
    put, put_all, reducible, reducible_within, renamable, rename_definition, with_distinct_vars,
    with_lifted_bodies, with_lifted_lambdas, with_specialized_bodies, with_specialized_calls,
    without_redexes, without_redundancy, wrappers, Definition,
};
use crate::ast::specializer::{
    arity, is_primitive, specialize_comp, specialize_value, specialize_values, wrapper,
    wrapper_name, wrappers_of_comp, wrappers_of_value, wrappers_of_values,
};
use crate::ast::term::{Comp, Value};
use crate::ast::usage::greater;
use vstd::prelude::*;

verus! {

/// After a definition was put in, it is the only one of its name, and the others are as before.
pub proof fn lemma_put<D>(defs: Seq<(Seq<char>, D)>, name: Seq<char>, def: D)
    requires
        distinct_names(defs),
    ensures
        distinct_names(put(defs, name, def)),
        put(defs, name, def).contains((name, def)),
        forall|d: (Seq<char>, D)| #[trigger]
            put(defs, name, def).contains(d) ==> if d.0 == name {
                d.1 == def
            } else {
                defs.contains(d)
            },
        forall|d: (Seq<char>, D)|
            d.0 != name && defs.contains(d) ==> #[trigger] put(defs, name, def).contains(d),
{
    let new = put(defs, name, def);
    if holds(defs, name) {
        let i = choose|i: int| 0 <= i < defs.len() && (#[trigger] defs[i]).0 == name;
        assert(new[i] == (name, def));
        assert forall|i: int, j: int| 0 <= i < j < new.len() implies (#[trigger] new[i]).0 != (
        #[trigger] new[j]).0 by {
            assert(new[i].0 == defs[i].0);
            assert(new[j].0 == defs[j].0);
        }
    } else {
        assert(new[defs.len() as int] == (name, def));
        assert forall|i: int, j: int| 0 <= i < j < new.len() implies (#[trigger] new[i]).0 != (
        #[trigger] new[j]).0 by {
            if j < defs.len() {
                assert(new[i] == defs[i] && new[j] == defs[j]);
            } else {
                assert(new[i] == defs[i]);
            }
        }
    }
    assert forall|d: (Seq<char>, D)| #[trigger] new.contains(d) implies if d.0 == name {
        d.1 == def
    } else {
        defs.contains(d)
    } by {
        let i = new.index_of(d);
        if d.0 != name {
            assert(defs[i] == d);
        } else if !holds(defs, name) && i < defs.len() {
            assert(defs[i].0 == name);
        }
    }
    assert forall|d: (Seq<char>, D)|
        d.0 != name && defs.contains(d) implies #[trigger] new.contains(d) by {
        let i = defs.index_of(d);
        assert(new[i] == d);
    }
}

/// After new definitions were put in, each that no later one replaces is there. Definitions of
/// other names are as before, and names are distinct.
#[verifier::spinoff_prover]
#[verifier::rlimit(40)]
pub proof fn lemma_put_all<D>(defs: Seq<(Seq<char>, D)>, new_defs: Seq<(Seq<char>, D)>)
    requires
        distinct_names(defs),
    ensures
        distinct_names(put_all(defs, new_defs)),
        forall|i: int|
            0 <= i < new_defs.len() && !holds(new_defs.skip(i + 1), new_defs[i].0) ==> put_all(
                defs,
                new_defs,
            ).contains(#[trigger] new_defs[i]),
        forall|d: (Seq<char>, D)|
            defs.contains(d) && !holds(new_defs, d.0) ==> #[trigger] put_all(
                defs,
                new_defs,
            ).contains(d),
    decreases new_defs.len(),
{
    if new_defs.len() > 0 {
        let front = new_defs.drop_last();
        let (name, def) = new_defs.last();
        let before = put_all(defs, front);
        let after = put_all(defs, new_defs);
        lemma_put_all(defs, front);
        lemma_put(before, name, def);
        assert forall|i: int|
            0 <= i < new_defs.len() && !holds(
                new_defs.skip(i + 1),
                new_defs[i].0,
            ) implies after.contains(#[trigger] new_defs[i]) by {
            if i < front.len() {
                let rest = new_defs.skip(i + 1);
                assert(rest[rest.len() - 1] == new_defs.last());
                assert(name != new_defs[i].0);
                if holds(front.skip(i + 1), front[i].0) {
                    let k = choose|k: int|
                        0 <= k < front.skip(i + 1).len() && (#[trigger] front.skip(i + 1)[k]).0
                            == front[i].0;
                    assert(rest[k] == front.skip(i + 1)[k]);
                }
                assert(before.contains(front[i]));
            }
        }
        assert forall|d: (Seq<char>, D)|
            defs.contains(d) && !holds(new_defs, d.0) implies #[trigger] after.contains(d) by {
            if holds(front, d.0) {
                let k = choose|k: int| 0 <= k < front.len() && (#[trigger] front[k]).0 == d.0;
                assert(new_defs[k].0 == d.0);
            }
            assert(new_defs[new_defs.len() - 1].0 == name);
            assert(before.contains(d));
        }
    }
}

/// New definitions of distinct names are all there after they were put in. So are definitions that
/// have not the name of a new one.
pub proof fn lemma_put_distinct<D>(defs: Seq<(Seq<char>, D)>, new_defs: Seq<(Seq<char>, D)>)
    requires
        distinct_names(defs),
        distinct_names(new_defs),
    ensures
        distinct_names(put_all(defs, new_defs)),
        forall|i: int|
            0 <= i < new_defs.len() ==> put_all(defs, new_defs).contains(#[trigger] new_defs[i]),
        forall|i: int|
            0 <= i < defs.len() && !holds(new_defs, defs[i].0) ==> put_all(
                defs,
                new_defs,
            ).contains(#[trigger] defs[i]),
{
    lemma_put_all(defs, new_defs);
    assert forall|i: int| 0 <= i < new_defs.len() implies put_all(defs, new_defs).contains(
        #[trigger] new_defs[i],
    ) by {
        if holds(new_defs.skip(i + 1), new_defs[i].0) {
            let rest = new_defs.skip(i + 1);
            let k = choose|k: int| 0 <= k < rest.len() && (#[trigger] rest[k]).0 == new_defs[i].0;
            assert(new_defs[i + 1 + k] == rest[k]);
        }
    }
    assert forall|i: int|
        0 <= i < defs.len() && !holds(new_defs, defs[i].0) implies put_all(
        defs,
        new_defs,
    ).contains(#[trigger] defs[i]) by {
        assert(defs.contains(defs[i]));
    }
}

/// Whether a value holds no call of a primitive function but primitive calls.
pub open spec fn specialized_value(prims: Map<Seq<char>, Primitive>, v: Value) -> bool
    decreases v,
{
    match v {
        Value::Thunk { t, .. } => specialized(prims, *t),
        _ => true,
    }
}

/// Whether a sequence of values holds no call of a primitive function but primitive calls.
pub open spec fn specialized_values(prims: Map<Seq<char>, Primitive>, vs: Seq<Value>) -> bool
    decreases vs,
{
    forall|i: int| 0 <= i < vs.len() ==> specialized_value(prims, #[trigger] vs[i])
}

/// Whether a computation holds no call of a primitive function but primitive calls.
pub open spec fn specialized(prims: Map<Seq<char>, Primitive>, c: Comp) -> bool
    decreases c,
{
    match c {
        Comp::Redex { function, args } => {
            &&& !is_primitive(prims, *function)
            &&& specialized(prims, *function)
            &&& specialized_values(prims, args)
        },
        Comp::Return { value } => specialized_value(prims, value),
        Comp::Force { thunk, .. } => specialized_value(prims, thunk),
        Comp::Def { .. } => true,
        Comp::PrimitiveCall { args, .. } => specialized_values(prims, args),
        Comp::Lambda { body, .. } => specialized(prims, *body),
    }
}

proof fn lemma_specialized_value(prims: Map<Seq<char>, Primitive>, base: Seq<char>, v: Value)
    requires
        !prims.contains_key(wrapper_name(base)),
    ensures
        specialized_value(prims, specialize_value(prims, base, v)),
    decreases v,
{
    if let Value::Thunk { t, .. } = v {
        lemma_specialized(prims, base, *t);
    }
}

proof fn lemma_specialized_values(
    prims: Map<Seq<char>, Primitive>,
    base: Seq<char>,
    vs: Seq<Value>,
)
    requires
        !prims.contains_key(wrapper_name(base)),
    ensures
        specialized_values(prims, specialize_values(prims, base, vs)),
    decreases vs,
{
    assert forall|i: int| 0 <= i < vs.len() implies specialized_value(
        prims,
        #[trigger] specialize_values(prims, base, vs)[i],
    ) by {
        lemma_specialized_value(prims, base, vs[i]);
    }
}

/// Specializing leaves no call of a primitive function but primitive calls, if no primitive
/// function has the name of a wrapper.
pub proof fn lemma_specialized(prims: Map<Seq<char>, Primitive>, base: Seq<char>, c: Comp)
    requires
        !prims.contains_key(wrapper_name(base)),
    ensures
        specialized(prims, specialize_comp(prims, base, c)),
    decreases c,
{
    match c {
        Comp::Redex { function, args } => {
            lemma_specialized(prims, base, *function);
            lemma_specialized_values(prims, base, args);
            let f = specialize_comp(prims, base, *function);
            let wrapper = Comp::Def {
                name: wrapper_name(base),
                may_have_complex_effects: false,
            };
            assert(specialized(prims, wrapper));
            if !is_primitive(prims, *function) {
                assert(!is_primitive(prims, f));
            }
        },
        Comp::Return { value } => {
            lemma_specialized_value(prims, base, value);
        },
        Comp::Force { thunk, .. } => {
            lemma_specialized_value(prims, base, thunk);
        },
        Comp::Def { .. } => {},
        Comp::PrimitiveCall { args, .. } => {
            lemma_specialized_values(prims, base, args);
        },
        Comp::Lambda { body, .. } => {
            lemma_specialized(prims, base, *body);
        },
    }
}

/// What is lifted is named after the definition that it is lifted out of.
pub proof fn lemma_lifted_named(defs: Seq<(Seq<char>, Definition)>, i: int) -> (r: (int, nat))
    requires
        0 <= i < lifted(defs).len(),
    ensures
        0 <= r.0 < defs.len(),
        lifted(defs)[i].0 == lambda_name(defs[r.0].0, r.1),
        r.1 < lift_comp(defs[r.0].0, local_types(defs[r.0].1), 0, defs[r.0].1.body).1.len(),
    decreases defs.len(),
{
    let front = defs.drop_last();
    let (name, def) = defs.last();
    if i < lifted(front).len() {
        let r = lemma_lifted_named(front, i);
        assert(front[r.0] == defs[r.0]);
        r
    } else {
        lemma_lifted_are_numbered(name, local_types(def), 0, def.body);
        let m = i - lifted(front).len();
        let defs1 = lift_comp(name, local_types(def), 0, def.body).1;
        assert(lifted(defs)[i] == defs1[m]);
        (defs.len() - 1, m as nat)
    }
}

/// What is lifted out of definitions of distinct names has distinct names.
pub proof fn lemma_lifted_distinct_names(defs: Seq<(Seq<char>, Definition)>)
    requires
        distinct_names(defs),
    ensures
        distinct_names(lifted(defs)),
    decreases defs.len(),
{
    if defs.len() > 0 {
        let front = defs.drop_last();
        let (name, def) = defs.last();
        lemma_lifted_distinct_names(front);
        lemma_lifted_are_numbered(name, local_types(def), 0, def.body);
        let defs1 = lift_comp(name, local_types(def), 0, def.body).1;
        let all = lifted(defs);
        let k = lifted(front).len() as int;
        assert forall|i: int, j: int| 0 <= i < j < all.len() implies (#[trigger] all[i]).0 != (
        #[trigger] all[j]).0 by {
            if all[i].0 == all[j].0 {
                if j < k {
                    assert(all[i] == lifted(front)[i] && all[j] == lifted(front)[j]);
                } else {
                    assert(all[j] == defs1[j - k]);
                    if i < k {
                        assert(all[i] == lifted(front)[i]);
                        let (d, m) = lemma_lifted_named(front, i);
                        lemma_lambda_names_differ(front[d].0, m, name, (j - k) as nat);
                        assert(defs[d].0 == name);
                        assert(defs[defs.len() - 1].0 == name);
                    } else {
                        assert(all[i] == defs1[i - k]);
                        lemma_lambda_names_differ(name, (i - k) as nat, name, (j - k) as nat);
                    }
                }
            }
        }
    }
}

/// Everything that is lifted is among the definitions afterwards, renamed. So is every definition
/// that has not the name of one that is lifted.
pub proof fn lemma_lifted_are_kept(defs: Seq<(Seq<char>, Definition)>)
    requires
        distinct_names(defs),
    ensures
        distinct_names(with_lifted_lambdas(defs)),
        forall|i: int|
            0 <= i < lifted(defs).len() ==> with_lifted_lambdas(defs).contains(
                #[trigger] with_distinct_vars(lifted(defs))[i],
            ),
        forall|i: int|
            0 <= i < defs.len() && !holds(with_distinct_vars(lifted(defs)), defs[i].0)
                ==> with_lifted_lambdas(defs).contains(#[trigger] with_lifted_bodies(defs)[i]),
{
    let bodies = with_lifted_bodies(defs);
    let new_defs = lifted(defs);
    let renamed = with_distinct_vars(new_defs);
    assert forall|i: int, j: int| 0 <= i < j < bodies.len() implies (#[trigger] bodies[i]).0 != (
    #[trigger] bodies[j]).0 by {
        assert(bodies[i].0 == defs[i].0 && bodies[j].0 == defs[j].0);
    }
    lemma_lifted_distinct_names(defs);
    assert forall|i: int, j: int| 0 <= i < j < renamed.len() implies (#[trigger] renamed[i]).0 != (
    #[trigger] renamed[j]).0 by {
        assert(renamed[i].0 == new_defs[i].0 && renamed[j].0 == new_defs[j].0);
    }
    lemma_put_distinct(bodies, renamed);
    assert forall|i: int|
        0 <= i < defs.len() && !holds(renamed, defs[i].0) implies with_lifted_lambdas(
        defs,
    ).contains(#[trigger] bodies[i]) by {
        assert(bodies[i].0 == defs[i].0);
    }
}

/// Whether every primitive function has a number of arguments that fits in a machine word.
pub open spec fn arities_fit(prims: Map<Seq<char>, Primitive>) -> bool {
    forall|name: Seq<char>| #[trigger]
        prims.contains_key(name) ==> prims[name].arg_types.len() <= usize::MAX
}

/// A wrapper binds all its variables.
proof fn lemma_wrapper_closed(name: Seq<char>, primitive: Primitive)
    requires
        primitive.arg_types.len() <= usize::MAX,
    ensures
        closed_definition(wrapper(name, primitive)),
{
    let def = wrapper(name, primitive);
    let vs = def.body->PrimitiveCall_args;
    assert forall|x: usize| free_in_comp(def.body).contains(x) implies bound_by(def.args).contains(
        x,
    ) by {
        lemma_free_in_values(vs, x);
        let i = choose|i: int| 0 <= i < vs.len() && free_in_value(#[trigger] vs[i]).contains(x);
        assert(def.args[i].0 == x);
    }
}

proof fn lemma_wrappers_closed_value(
    prims: Map<Seq<char>, Primitive>,
    base: Seq<char>,
    v: Value,
)
    requires
        arities_fit(prims),
    ensures
        all_closed(wrappers_of_value(prims, base, v)),
    decreases v,
{
    if let Value::Thunk { t, .. } = v {
        lemma_wrappers_closed(prims, base, *t);
    }
}

proof fn lemma_wrappers_closed_values(
    prims: Map<Seq<char>, Primitive>,
    base: Seq<char>,
    vs: Seq<Value>,
)
    requires
        arities_fit(prims),
    ensures
        all_closed(wrappers_of_values(prims, base, vs)),
    decreases vs,
{
    if vs.len() > 0 {
        lemma_wrappers_closed_values(prims, base, vs.drop_last());
        lemma_wrappers_closed_value(prims, base, vs.last());
    }
}

proof fn lemma_wrappers_closed(prims: Map<Seq<char>, Primitive>, base: Seq<char>, c: Comp)
    requires
        arities_fit(prims),
    ensures
        all_closed(wrappers_of_comp(prims, base, c)),
    decreases c,
{
    match c {
        Comp::Redex { function, args } => {
            lemma_wrappers_closed(prims, base, *function);
            lemma_wrappers_closed_values(prims, base, args);
            if is_primitive(prims, *function) && args.len() < arity(prims, *function) {
                let name = function->Def_name;
                lemma_wrapper_closed(name, prims[name]);
            }
        },
        Comp::Return { value } => {
            lemma_wrappers_closed_value(prims, base, value);
        },
        Comp::Force { thunk, .. } => {
            lemma_wrappers_closed_value(prims, base, thunk);
        },
        Comp::Def { .. } => {},
        Comp::PrimitiveCall { args, .. } => {
            lemma_wrappers_closed_values(prims, base, args);
        },
        Comp::Lambda { body, .. } => {
            lemma_wrappers_closed(prims, base, *body);
        },
    }
}

/// All wrappers that definitions need bind all their variables.
proof fn lemma_all_wrappers_closed(
    prims: Map<Seq<char>, Primitive>,
    defs: Seq<(Seq<char>, Definition)>,
)
    requires
        arities_fit(prims),
    ensures
        all_closed(wrappers(prims, defs)),
    decreases defs.len(),
{
    if defs.len() > 0 {
        lemma_all_wrappers_closed(prims, defs.drop_last());
        lemma_wrappers_closed(prims, defs.last().0, defs.last().1.body);
    }
}

/// Whether `def` is the wrapper of a primitive function.
pub open spec fn is_wrapper(prims: Map<Seq<char>, Primitive>, def: Definition) -> bool {
    exists|name: Seq<char>| #[trigger]
        prims.contains_key(name) && def == wrapper(name, prims[name])
}

/// Whether each of `defs` is the wrapper of a primitive function.
pub open spec fn all_wrap(
    prims: Map<Seq<char>, Primitive>,
    defs: Seq<(Seq<char>, Definition)>,
) -> bool {
    forall|i: int| 0 <= i < defs.len() ==> is_wrapper(prims, (#[trigger] defs[i]).1)
}

proof fn lemma_wrappers_wrap_value(
    prims: Map<Seq<char>, Primitive>,
    base: Seq<char>,
    v: Value,
)
    ensures
        all_wrap(prims, wrappers_of_value(prims, base, v)),
    decreases v,
{
    if let Value::Thunk { t, .. } = v {
        lemma_wrappers_wrap(prims, base, *t);
    }
}

proof fn lemma_wrappers_wrap_values(
    prims: Map<Seq<char>, Primitive>,
    base: Seq<char>,
    vs: Seq<Value>,
)
    ensures
        all_wrap(prims, wrappers_of_values(prims, base, vs)),
    decreases vs,
{
    if vs.len() > 0 {
        lemma_wrappers_wrap_values(prims, base, vs.drop_last());
        lemma_wrappers_wrap_value(prims, base, vs.last());
    }
}

/// The definitions that calls of primitive functions need are wrappers of primitive functions.
pub proof fn lemma_wrappers_wrap(prims: Map<Seq<char>, Primitive>, base: Seq<char>, c: Comp)
    ensures
        all_wrap(prims, wrappers_of_comp(prims, base, c)),
    decreases c,
{
    match c {
        Comp::Redex { function, args } => {
            lemma_wrappers_wrap(prims, base, *function);
            lemma_wrappers_wrap_values(prims, base, args);
            if is_primitive(prims, *function) && args.len() < arity(prims, *function) {
                let name = function->Def_name;
                assert(prims.contains_key(name));
                assert(is_wrapper(prims, wrapper(name, prims[name])));
            }
        },
        Comp::Return { value } => {
            lemma_wrappers_wrap_value(prims, base, value);
        },
        Comp::Force { thunk, .. } => {
            lemma_wrappers_wrap_value(prims, base, thunk);
        },
        Comp::Def { .. } => {},
        Comp::PrimitiveCall { args, .. } => {
            lemma_wrappers_wrap_values(prims, base, args);
        },
        Comp::Lambda { body, .. } => {
            lemma_wrappers_wrap(prims, base, *body);
        },
    }
}

/// All wrappers that definitions need are wrappers of primitive functions.
proof fn lemma_all_wrap(prims: Map<Seq<char>, Primitive>, defs: Seq<(Seq<char>, Definition)>)
    ensures
        all_wrap(prims, wrappers(prims, defs)),
    decreases defs.len(),
{
    if defs.len() > 0 {
        lemma_all_wrap(prims, defs.drop_last());
        lemma_wrappers_wrap(prims, defs.last().0, defs.last().1.body);
    }
}

/// Specializing calls keeps definitions closed.
proof fn lemma_specialized_closed(
    prims: Map<Seq<char>, Primitive>,
    defs: Seq<(Seq<char>, Definition)>,
)
    requires
        all_closed(defs),
        arities_fit(prims),
    ensures
        all_closed(with_specialized_calls(prims, defs)),
{
    let bodies = with_specialized_bodies(prims, defs);
    let new_defs = wrappers(prims, defs);
    let p = |d: Definition| closed_definition(d);
    assert forall|i: int| 0 <= i < bodies.len() implies p((#[trigger] bodies[i]).1) by {
        let (name, def) = defs[i];
        assert(closed_definition(defs[i].1));
        lemma_free_specialized(prims, name, def.body);
    }
    lemma_all_wrappers_closed(prims, defs);
    lemma_all_wrap(prims, defs);
    let renamed = with_distinct_vars(new_defs);
    assert forall|i: int| 0 <= i < renamed.len() implies p((#[trigger] renamed[i]).1) by {
        assert(renamed[i].1 == rename_definition(new_defs[i].1));
        let def = new_defs[i].1;
        let name = choose|name: Seq<char>| #[trigger]
            prims.contains_key(name) && def == wrapper(name, prims[name]);
        lemma_wrapper_has_no_binders(name, prims[name]);
        lemma_renamed_is_closed(def);
    }
    lemma_put_all_each(bodies, renamed, p);
    let all = with_specialized_calls(prims, defs);
    assert forall|i: int| 0 <= i < all.len() implies closed_definition((#[trigger] all[i]).1) by {
        assert(p(all[i].1));
    }
}

proof fn lemma_wrapper_has_no_binders(name: Seq<char>, primitive: Primitive)
    ensures
        binders_in_comp(wrapper(name, primitive).body) == 0,
{
    let vs = wrapper(name, primitive).body->PrimitiveCall_args;
    assert forall|i: int| 0 <= i < vs.len() implies binders_in_value(#[trigger] vs[i]) == 0 by {}
    lemma_no_binders_in_values(vs);
}

/// Definitions that bind all their variables do so until lambdas are lifted, and use only variables
/// less than their `var_bound` then.
pub proof fn lemma_closed_before_lifting(
    prims: Map<Seq<char>, Primitive>,
    defs: Seq<(Seq<char>, Definition)>,
)
    requires
        all_closed(defs),
        arities_fit(prims),
        all_renamable(with_specialized_calls(prims, without_redundancy(defs))),
        all_reduce(
            with_distinct_vars(with_specialized_calls(prims, without_redundancy(defs))),
        ),
    ensures
        all_closed(before_lifting(prims, defs)),
        all_vars_fit(before_lifting(prims, defs)),
{
    let simple = without_redundancy(defs);
    let specialized = with_specialized_calls(prims, simple);
    let distinct = with_distinct_vars(specialized);
    let done = before_lifting(prims, defs);
    assert forall|i: int| 0 <= i < simple.len() implies closed_definition(
        (#[trigger] simple[i]).1,
    ) by {
        assert(closed_definition(defs[i].1));
        lemma_free_simplified(defs[i].1.body);
    }
    lemma_specialized_closed(prims, simple);
    assert forall|i: int| 0 <= i < done.len() implies closed_definition((#[trigger] done[i]).1)
        && vars_fit(done[i].1) by {
        let def = specialized[i].1;
        assert(renamable(def));
        assert(closed_definition(def));
        lemma_renamed_is_closed(def);
        lemma_renamed_definition_within(def);
        let renamed = distinct[i].1;
        assert(renamed == rename_definition(def));
        assert(reducible(distinct[i].1));
        lemma_free_reduced(first_unused(renamed), renamed.body);
        lemma_reduced_vars_fit(renamed);
    }
}

/// The `var_bound` of a definition fits in a machine word when lambdas are lifted.
proof fn lemma_before_lifting_bound(
    prims: Map<Seq<char>, Primitive>,
    defs: Seq<(Seq<char>, Definition)>,
    i: int,
)
    requires
        all_renamable(with_specialized_calls(prims, without_redundancy(defs))),
        all_reduce(
            with_distinct_vars(with_specialized_calls(prims, without_redundancy(defs))),
        ),
        0 <= i < before_lifting(prims, defs).len(),
    ensures
        before_lifting(prims, defs)[i].1.var_bound <= usize::MAX,
{
    let specialized = with_specialized_calls(prims, without_redundancy(defs));
    let distinct = with_distinct_vars(specialized);
    assert(renamable(specialized[i].1));
    assert(reducible(distinct[i].1));
}

/// Definitions that bind all their variables can be optimized, if their calls of primitive
/// functions fit, their redexes can be reduced, and machine words suffice for their local variables
/// and for the numbers of what is lifted.
pub proof fn lemma_closed_can_be_optimized(
    prims: Map<Seq<char>, Primitive>,
    defs: Seq<(Seq<char>, Definition)>,
)
    requires
        all_closed(defs),
        arities_fit(prims),
        all_calls_fit(prims, without_redundancy(defs)),
        all_renamable(with_specialized_calls(prims, without_redundancy(defs))),
        all_reduce(
            with_distinct_vars(with_specialized_calls(prims, without_redundancy(defs))),
        ),
        forall|i: int|
            0 <= i < before_lifting(prims, defs).len() ==> lifts_in_comp(
                (#[trigger] before_lifting(prims, defs)[i]).1.body,
            ) <= usize::MAX,
    ensures
        optimizable(prims, defs),
{
    let done = before_lifting(prims, defs);
    lemma_closed_before_lifting(prims, defs);
    assert forall|i: int| 0 <= i < done.len() implies liftable((#[trigger] done[i]).1) by {
        let def = done[i].1;
        assert(vars_fit(done[i].1));
        lemma_before_lifting_bound(prims, defs, i);
        lemma_captures_within(def.var_bound, def.body);
    }
}

proof fn lemma_renamed_flat_value(env: Map<usize, usize>, n: nat, v: Value)
    requires
        flat_value(v),
    ensures
        flat_value(rename_value(env, n, v)),
    decreases v,
{
    if let Value::Thunk { t, .. } = v {
        lemma_renamed_flat(env, n, *t);
        if let Comp::Redex { function, .. } = *t {
            assert(*function is Def);
            assert(rename_comp(env, n, *function) is Def);
        }
        assert(is_call(rename_comp(env, n, *t)));
    }
}

proof fn lemma_renamed_flat_values(env: Map<usize, usize>, n: nat, vs: Seq<Value>)
    requires
        flat_values(vs),
    ensures
        flat_values(rename_values(env, n, vs)),
    decreases vs,
{
    if vs.len() > 0 {
        let front = vs.drop_last();
        assert(flat_values(front));
        assert(flat_value(vs[vs.len() - 1]));
        lemma_renamed_flat_values(env, n, front);
        lemma_renamed_flat_value(env, n + binders_in_values(front), vs.last());
        let new = rename_values(env, n, vs);
        assert forall|i: int| 0 <= i < new.len() implies flat_value(#[trigger] new[i]) by {
            if i < new.len() - 1 {
                assert(new[i] == rename_values(env, n, front)[i]);
            }
        }
    }
}

/// Renaming brings in no lambda and no thunk.
proof fn lemma_renamed_flat(env: Map<usize, usize>, n: nat, c: Comp)
    requires
        flat(c),
    ensures
        flat(rename_comp(env, n, c)),
    decreases c,
{
    match c {
        Comp::Redex { function, args } => {
            lemma_renamed_flat(env, n, *function);
            lemma_renamed_flat_values(env, n + binders_in_comp(*function), args);
        },
        Comp::Return { value } => {
            lemma_renamed_flat_value(env, n, value);
        },
        Comp::Force { thunk, .. } => {
            lemma_renamed_flat_value(env, n, thunk);
        },
        Comp::Def { .. } => {},
        Comp::PrimitiveCall { args, .. } => {
            lemma_renamed_flat_values(env, n, args);
        },
        Comp::Lambda { .. } => {},
    }
}

/// All that is lifted out of definitions binds all its variables, and has no lambdas and only
/// thunks of plain calls.
proof fn lemma_all_lifted(defs: Seq<(Seq<char>, Definition)>)
    ensures
        all_closed(lifted(defs)),
        all_flat(lifted(defs)),
    decreases defs.len(),
{
    if defs.len() > 0 {
        let (name, def) = defs.last();
        lemma_all_lifted(defs.drop_last());
        lemma_lifted_closed(name, local_types(def), 0, def.body);
        lemma_lifted_is_flat(name, local_types(def), 0, def.body);
    }
}

/// After lifting, no definition has a lambda, and every thunk is of a plain call.
pub proof fn lemma_flat_after_lifting(defs: Seq<(Seq<char>, Definition)>)
    ensures
        all_flat(with_lifted_lambdas(defs)),
{
    let bodies = with_lifted_bodies(defs);
    let new_defs = lifted(defs);
    let p = |d: Definition| flat(d.body);
    lemma_all_lifted(defs);
    assert forall|i: int| 0 <= i < bodies.len() implies p((#[trigger] bodies[i]).1) by {
        let (name, def) = defs[i];
        lemma_lifted_is_flat(name, local_types(def), 0, def.body);
    }
    let renamed = with_distinct_vars(new_defs);
    assert forall|i: int| 0 <= i < renamed.len() implies p((#[trigger] renamed[i]).1) by {
        assert(renamed[i].1 == rename_definition(new_defs[i].1));
        let def = new_defs[i].1;
        lemma_renamed_flat(bind_params(Map::empty(), 0, def.args), def.args.len(), def.body);
    }
    lemma_put_all_each(bodies, renamed, p);
    let all = with_lifted_lambdas(defs);
    assert forall|i: int| 0 <= i < all.len() implies flat((#[trigger] all[i]).1.body) by {
        assert(p(all[i].1));
    }
}

/// Definitions that were optimized have no lambdas, and only thunks of plain calls. Their only
/// local variables are their parameters, which are numbered from 0, and their `var_bound` is the
/// number of these.
pub proof fn lemma_optimized(
    prims: Map<Seq<char>, Primitive>,
    defs: Seq<(Seq<char>, Definition)>,
)
    ensures
        all_flat(optimized(prims, defs)),
        forall|i: int|
            0 <= i < optimized(prims, defs).len() ==> ({
                let def = (#[trigger] optimized(prims, defs)[i]).1;
                &&& bound_in_comp(def.body).len() == 0
                &&& indexes_of(def.args) == indexes_from(0, def.args.len())
                &&& def.var_bound == def.args.len()
            }),
{
    let lifted_defs = with_lifted_lambdas(before_lifting(prims, defs));
    let all = optimized(prims, defs);
    lemma_flat_after_lifting(before_lifting(prims, defs));
    lemma_no_binders_after_lifting(before_lifting(prims, defs));
    assert forall|i: int| 0 <= i < all.len() implies flat((#[trigger] all[i]).1.body)
        && bound_in_comp(all[i].1.body).len() == 0 && indexes_of(all[i].1.args) == indexes_from(
        0,
        all[i].1.args.len(),
    ) && all[i].1.var_bound == all[i].1.args.len() by {
        let def = lifted_defs[i].1;
        let env = bind_params(Map::empty(), 0, def.args);
        assert(flat(lifted_defs[i].1.body));
        assert(binders_in_comp(lifted_defs[i].1.body) == 0);
        lemma_renamed_flat(env, def.args.len(), def.body);
        lemma_rename_keeps_count(env, def.args.len(), def.body);
        lemma_bound_len(all[i].1.body);
        assert(indexes_of(all[i].1.args) =~= indexes_from(0, all[i].1.args.len()));
    }
}

/// Definitions that bind all their variables do so after they were lifted.
pub proof fn lemma_closed_after_lifting(defs: Seq<(Seq<char>, Definition)>)
    requires
        all_closed(defs),
        forall|i: int|
            0 <= i < lifted(defs).len() ==> (#[trigger] lifted(defs)[i]).1.args.len() <= usize::MAX,
    ensures
        all_closed(with_lifted_lambdas(defs)),
{
    let bodies = with_lifted_bodies(defs);
    let new_defs = lifted(defs);
    let p = |d: Definition| closed_definition(d);
    lemma_all_lifted(defs);
    lemma_no_binders_in_lifted(defs);
    assert forall|i: int| 0 <= i < bodies.len() implies p((#[trigger] bodies[i]).1) by {
        let (name, def) = defs[i];
        assert(closed_definition(defs[i].1));
        lemma_lift_free(name, local_types(def), 0, def.body);
    }
    let renamed = with_distinct_vars(new_defs);
    assert forall|i: int| 0 <= i < renamed.len() implies p((#[trigger] renamed[i]).1) by {
        assert(renamed[i].1 == rename_definition(new_defs[i].1));
        assert(binders_in_comp(new_defs[i].1.body) == 0);
        lemma_renamed_is_closed(new_defs[i].1);
    }
    lemma_put_all_each(bodies, renamed, p);
    let all = with_lifted_lambdas(defs);
    assert forall|i: int| 0 <= i < all.len() implies closed_definition((#[trigger] all[i]).1) by {
        assert(p(all[i].1));
    }
}

/// After renaming, all local variables are distinct.
pub proof fn lemma_distinct_after_renaming(defs: Seq<(Seq<char>, Definition)>)
    requires
        all_renamable(defs),
    ensures
        all_have_distinct_vars(with_distinct_vars(defs)),
{
    let all = with_distinct_vars(defs);
    assert forall|i: int| 0 <= i < all.len() implies has_distinct_vars((#[trigger] all[i]).1) by {
        assert(renamable(defs[i].1));
        lemma_renamed_vars_are_distinct(defs[i].1);
    }
}

/// Renaming keeps definitions closed, and makes `var_bound` fit for all their local variables.
pub proof fn lemma_closed_after_renaming(defs: Seq<(Seq<char>, Definition)>)
    requires
        all_closed(defs),
        all_renamable(defs),
    ensures
        all_closed(with_distinct_vars(defs)),
        all_vars_fit(with_distinct_vars(defs)),
{
    let all = with_distinct_vars(defs);
    assert forall|i: int| 0 <= i < all.len() implies closed_definition((#[trigger] all[i]).1)
        && vars_fit(all[i].1) by {
        assert(renamable(defs[i].1));
        assert(closed_definition(defs[i].1));
        lemma_renamed_is_closed(defs[i].1);
        lemma_renamed_definition_within(defs[i].1);
    }
}

/// Where the reduction of all definitions comes to an end, it does so within some number of nested
/// steps, and within any greater one.
pub proof fn lemma_all_reduce_within(defs: Seq<(Seq<char>, Definition)>) -> (depth: nat)
    requires
        all_reduce(defs),
    ensures
        forall|more: nat| depth <= more ==> #[trigger] all_reduce_within(more, defs),
    decreases defs.len(),
{
    if defs.len() == 0 {
        0
    } else {
        let front = defs.drop_last();
        let def = defs.last().1;
        assert forall|i: int| 0 <= i < front.len() implies reducible((#[trigger] front[i]).1) by {
            assert(front[i] == defs[i]);
        }
        assert(reducible(defs[defs.len() - 1].1));
        let front_depth = lemma_all_reduce_within(front);
        let n = first_unused(def);
        let last_depth = choose|fuel: nat| (#[trigger] reduce_comp(fuel, n, def.body)) is Some;
        let depth = greater(front_depth, last_depth);
        assert forall|more: nat| depth <= more implies #[trigger] all_reduce_within(more, defs) by {
            assert(all_reduce_within(more, front));
            lemma_reduce_fuel(last_depth, more, n, def.body);
            assert forall|i: int| 0 <= i < defs.len() implies reducible_within(
                more,
                (#[trigger] defs[i]).1,
            ) by {
                if i < front.len() {
                    assert(reducible_within(more, front[i].1));
                }
            }
        }
        depth
    }
}

/// Definitions that can be optimized can be optimized within some number of nested steps of
/// reduction, and within any greater one.
pub proof fn lemma_optimizable_within(
    prims: Map<Seq<char>, Primitive>,
    defs: Seq<(Seq<char>, Definition)>,
) -> (depth: nat)
    requires
        optimizable(prims, defs),
    ensures
        forall|more: nat| depth <= more ==> #[trigger] optimizable_within(more, prims, defs),
{
    let distinct = with_distinct_vars(with_specialized_calls(prims, without_redundancy(defs)));
    let depth = lemma_all_reduce_within(distinct);
    assert forall|more: nat| depth <= more implies #[trigger] optimizable_within(
        more,
        prims,
        defs,
    ) by {
        assert(all_reduce_within(more, distinct));
    }
    depth
}

/// Reduction keeps all local variables distinct, and `var_bound` fit for them.
pub proof fn lemma_distinct_after_reduction(defs: Seq<(Seq<char>, Definition)>)
    requires
        all_reduce(defs),
    ensures
        all_have_distinct_vars(defs) ==> all_have_distinct_vars(without_redexes(defs)),
        all_vars_fit(defs) ==> all_vars_fit(without_redexes(defs)),
        forall|i: int|
            0 <= i < defs.len() ==> (#[trigger] without_redexes(defs)[i]).1.var_bound
                >= defs[i].1.var_bound,
{
    let all = without_redexes(defs);
    assert forall|i: int| 0 <= i < all.len() implies (#[trigger] all[i]).1.var_bound
        >= defs[i].1.var_bound && (all_vars_fit(defs) ==> vars_fit(all[i].1)) by {
        assert(reducible(defs[i].1));
        lemma_reduced_vars_fit(defs[i].1);
        if all_vars_fit(defs) {
            assert(vars_fit(defs[i].1));
        }
    }
    if all_have_distinct_vars(defs) {
        assert forall|i: int| 0 <= i < all.len() implies has_distinct_vars(
            (#[trigger] all[i]).1,
        ) by {
            assert(reducible(defs[i].1));
            assert(has_distinct_vars(defs[i].1));
            lemma_reduced_vars_are_distinct(defs[i].1);
        }
    }
}

/// Removing redundancy keeps `var_bound` fit for all local variables.
pub proof fn lemma_fits_after_simplifying(defs: Seq<(Seq<char>, Definition)>)
    requires
        all_vars_fit(defs),
    ensures
        all_vars_fit(without_redundancy(defs)),
{
    let all = without_redundancy(defs);
    assert forall|i: int| 0 <= i < all.len() implies vars_fit((#[trigger] all[i]).1) by {
        assert(vars_fit(defs[i].1));
        lemma_simplified_within(defs[i].1.var_bound, defs[i].1.body);
    }
}

/// Specializing calls keeps `var_bound` fit for all local variables.
pub proof fn lemma_fits_after_specializing(
    prims: Map<Seq<char>, Primitive>,
    defs: Seq<(Seq<char>, Definition)>,
)
    requires
        all_vars_fit(defs),
        all_renamable(wrappers(prims, defs)),
    ensures
        all_vars_fit(with_specialized_calls(prims, defs)),
{
    let bodies = with_specialized_bodies(prims, defs);
    let new_defs = wrappers(prims, defs);
    let renamed = with_distinct_vars(new_defs);
    let p = |d: Definition| vars_fit(d);
    assert forall|i: int| 0 <= i < bodies.len() implies p((#[trigger] bodies[i]).1) by {
        let (name, def) = defs[i];
        assert(vars_fit(defs[i].1));
        lemma_specialized_within(prims, name, def.var_bound, def.body);
    }
    lemma_all_wrap(prims, defs);
    assert forall|i: int| 0 <= i < renamed.len() implies p((#[trigger] renamed[i]).1) by {
        let def = new_defs[i].1;
        assert(renamable(new_defs[i].1));
        assert(is_wrapper(prims, new_defs[i].1));
        let name = choose|name: Seq<char>| #[trigger]
            prims.contains_key(name) && def == wrapper(name, prims[name]);
        lemma_wrapper_closed(name, prims[name]);
        lemma_renamed_definition_within(def);
    }
    lemma_put_all_each(bodies, renamed, p);
    let all = with_specialized_calls(prims, defs);
    assert forall|i: int| 0 <= i < all.len() implies vars_fit((#[trigger] all[i]).1) by {
        assert(p(all[i].1));
    }
}

/// Lifting keeps `var_bound` fit for all local variables.
pub proof fn lemma_fits_after_lifting(defs: Seq<(Seq<char>, Definition)>)
    requires
        all_vars_fit(defs),
        all_renamable(lifted(defs)),
    ensures
        all_vars_fit(with_lifted_lambdas(defs)),
{
    let bodies = with_lifted_bodies(defs);
    let new_defs = lifted(defs);
    let renamed = with_distinct_vars(new_defs);
    let p = |d: Definition| vars_fit(d);
    assert forall|i: int| 0 <= i < bodies.len() implies p((#[trigger] bodies[i]).1) by {
        let (name, def) = defs[i];
        assert(vars_fit(defs[i].1));
        lemma_lift_free(name, local_types(def), 0, def.body);
        lemma_lift_leaves_no_binders(name, local_types(def), 0, def.body);
        if def.var_bound <= usize::MAX {
            lemma_captures_within(def.var_bound, def.body);
        }
        lemma_unbound_within(def.var_bound, bodies[i].1.body);
    }
    lemma_all_lifted(defs);
    assert forall|i: int| 0 <= i < renamed.len() implies p((#[trigger] renamed[i]).1) by {
        assert(renamed[i].1 == rename_definition(new_defs[i].1));
        assert(renamable(new_defs[i].1));
        assert(closed_definition(new_defs[i].1));
        lemma_renamed_definition_within(new_defs[i].1);
    }
    lemma_put_all_each(bodies, renamed, p);
    let all = with_lifted_lambdas(defs);
    assert forall|i: int| 0 <= i < all.len() implies vars_fit((#[trigger] all[i]).1) by {
        assert(p(all[i].1));
    }
}

/// Lifting keeps all local variables distinct.
pub proof fn lemma_distinct_after_lifting(defs: Seq<(Seq<char>, Definition)>)
    requires
        all_have_distinct_vars(defs),
        all_renamable(lifted(defs)),
    ensures
        all_have_distinct_vars(with_lifted_lambdas(defs)),
{
    let bodies = with_lifted_bodies(defs);
    let new_defs = lifted(defs);
    let p = |d: Definition| has_distinct_vars(d);
    assert forall|i: int| 0 <= i < bodies.len() implies p((#[trigger] bodies[i]).1) by {
        let (name, def) = defs[i];
        assert(has_distinct_vars(defs[i].1));
        lemma_parts_distinct(indexes_of(def.args), bound_in_comp(def.body));
        lemma_lift_leaves_no_binders(name, local_types(def), 0, def.body);
        lemma_bound_len(bodies[i].1.body);
        assert(bound_in_definition(bodies[i].1) =~= indexes_of(def.args));
    }
    let renamed = with_distinct_vars(new_defs);
    assert forall|i: int| 0 <= i < renamed.len() implies p((#[trigger] renamed[i]).1) by {
        assert(renamed[i].1 == rename_definition(new_defs[i].1));
        assert(renamable(new_defs[i].1));
        lemma_renamed_vars_are_distinct(new_defs[i].1);
    }
    lemma_put_all_each(bodies, renamed, p);
    let all = with_lifted_lambdas(defs);
    assert forall|i: int| 0 <= i < all.len() implies has_distinct_vars((#[trigger] all[i]).1) by {
        assert(p(all[i].1));
    }
}

/// The `var_bound` of definitions that were optimized fits all their local variables, where they
/// are bound and where they are used, if the definitions bound all their variables before.
pub proof fn lemma_optimized_vars_fit(
    prims: Map<Seq<char>, Primitive>,
    defs: Seq<(Seq<char>, Definition)>,
)
    requires
        all_closed(defs),
        arities_fit(prims),
        optimizable(prims, defs),
        all_renamable(lifted(before_lifting(prims, defs))),
        all_renamable(with_lifted_lambdas(before_lifting(prims, defs))),
    ensures
        all_closed(optimized(prims, defs)),
        all_vars_fit(optimized(prims, defs)),
{
    let before = before_lifting(prims, defs);
    let after = with_lifted_lambdas(before);
    let all = optimized(prims, defs);
    lemma_closed_before_lifting(prims, defs);
    assert forall|i: int| 0 <= i < lifted(before).len() implies (
    #[trigger] lifted(before)[i]).1.args.len() <= usize::MAX by {
        assert(renamable(lifted(before)[i].1));
    }
    lemma_closed_after_lifting(before);
    assert forall|i: int| 0 <= i < all.len() implies closed_definition((#[trigger] all[i]).1)
        && vars_fit(all[i].1) by {
        assert(renamable(after[i].1));
        assert(closed_definition(after[i].1));
        lemma_renamed_is_closed(after[i].1);
        lemma_renamed_definition_within(after[i].1);
    }
}

} // verus!
