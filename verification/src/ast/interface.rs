//! What optimizing keeps for the callers of definitions: their names, and how they are called.
use crate::ast::lifter::{lambda_name, lift_comp, lift_value, lift_values};
use crate::ast::optimization::{is_wrapper, lemma_lifted_named, lemma_wrappers_wrap};
use crate::ast::primitive_functions::Primitive;
use crate::ast::reducer::{reduce_comp, reduce_value, reduce_values, reduced, reduces};
use crate::ast::renamer::{bind_params, binders_in_values, rename_value, rename_values};
use crate::ast::signature::{
    before_lifting, first_unused, holds, lifted, optimized, put_all, rename_definition,
    with_distinct_vars, with_lifted_bodies, with_lifted_lambdas, with_specialized_bodies,
    with_specialized_calls, without_redundancy, wrappers, Definition,
};
use crate::ast::specializer::{
    wrapper, wrapper_name, wrappers_of_comp, wrappers_of_value, wrappers_of_values,
};
use crate::ast::term::{Comp, VType, Value};
use vstd::prelude::*;

verus! {

/// Putting in new definitions keeps the names of the definitions where they are, and those
/// definitions that have not the name of a new one. What is added has the name of a new one.
pub proof fn lemma_put_all_in_place<D>(defs: Seq<(Seq<char>, D)>, new_defs: Seq<(Seq<char>, D)>)
    ensures
        put_all(defs, new_defs).len() >= defs.len(),
        forall|i: int|
            0 <= i < defs.len() ==> (#[trigger] put_all(defs, new_defs)[i]).0 == defs[i].0 && (
            !holds(new_defs, defs[i].0) ==> put_all(defs, new_defs)[i] == defs[i]),
        forall|i: int|
            defs.len() <= i < put_all(defs, new_defs).len() ==> new_defs.contains(
                #[trigger] put_all(defs, new_defs)[i],
            ),
    decreases new_defs.len(),
{
    if new_defs.len() > 0 {
        let front = new_defs.drop_last();
        let before = put_all(defs, front);
        let after = put_all(defs, new_defs);
        let last = new_defs.last();
        lemma_put_all_in_place(defs, front);
        assert(new_defs[new_defs.len() - 1] == last);
        assert(new_defs.contains(last));
        assert forall|i: int| 0 <= i < defs.len() implies (#[trigger] after[i]).0 == defs[i].0 && (
        !holds(new_defs, defs[i].0) ==> after[i] == defs[i]) by {
            assert(before[i].0 == defs[i].0);
            if !holds(new_defs, defs[i].0) {
                if holds(front, defs[i].0) {
                    let k = choose|k: int|
                        0 <= k < front.len() && (#[trigger] front[k]).0 == defs[i].0;
                    assert(new_defs[k].0 == defs[i].0);
                }
                assert(last.0 != defs[i].0);
            }
        }
        assert forall|i: int| defs.len() <= i < after.len() implies new_defs.contains(
            #[trigger] after[i],
        ) by {
            if i < before.len() && after[i] == before[i] {
                assert(front.contains(before[i]));
                let k = front.index_of(before[i]);
                assert(new_defs[k] == before[i]);
            } else {
                assert(after[i] == last);
            }
        }
    }
}

/// Whether `name` is that of a wrapper for the calls in one of `defs`.
pub open spec fn names_wrapper(defs: Seq<(Seq<char>, Definition)>, name: Seq<char>) -> bool {
    exists|i: int| 0 <= i < defs.len() && name == wrapper_name((#[trigger] defs[i]).0)
}

/// Whether `name` is that of something lifted out of one of `defs`.
pub open spec fn names_lambda(defs: Seq<(Seq<char>, Definition)>, name: Seq<char>) -> bool {
    exists|i: int, n: nat|
        0 <= i < defs.len() && name == #[trigger] lambda_name(defs[i].0, n)
}

/// Whether two definitions are called in the same way: their parameters have the same types, and
/// their own types and flags are the same.
pub open spec fn same_interface(d: Definition, e: Definition) -> bool {
    &&& d.args.len() == e.args.len()
    &&& forall|k: int| 0 <= k < d.args.len() ==> (#[trigger] d.args[k]).1 == e.args[k].1
    &&& d.c_type == e.c_type
    &&& d.may_be_simple == e.may_be_simple
    &&& d.may_be_complex == e.may_be_complex
}

/// Whether each of `defs` has the given name.
spec fn all_named(name: Seq<char>, defs: Seq<(Seq<char>, Definition)>) -> bool {
    forall|i: int| 0 <= i < defs.len() ==> (#[trigger] defs[i]).0 == name
}

proof fn lemma_wrappers_named_value(prims: Map<Seq<char>, Primitive>, base: Seq<char>, v: Value)
    ensures
        all_named(wrapper_name(base), wrappers_of_value(prims, base, v)),
    decreases v,
{
    if let Value::Thunk { t, .. } = v {
        lemma_wrappers_named_comp(prims, base, *t);
    }
}

proof fn lemma_wrappers_named_values(
    prims: Map<Seq<char>, Primitive>,
    base: Seq<char>,
    vs: Seq<Value>,
)
    ensures
        all_named(wrapper_name(base), wrappers_of_values(prims, base, vs)),
    decreases vs,
{
    if vs.len() > 0 {
        lemma_wrappers_named_values(prims, base, vs.drop_last());
        lemma_wrappers_named_value(prims, base, vs.last());
    }
}

proof fn lemma_wrappers_named_comp(prims: Map<Seq<char>, Primitive>, base: Seq<char>, c: Comp)
    ensures
        all_named(wrapper_name(base), wrappers_of_comp(prims, base, c)),
    decreases c,
{
    match c {
        Comp::Redex { function, args } => {
            lemma_wrappers_named_comp(prims, base, *function);
            lemma_wrappers_named_values(prims, base, args);
        },
        Comp::Return { value } => {
            lemma_wrappers_named_value(prims, base, value);
        },
        Comp::Force { thunk, .. } => {
            lemma_wrappers_named_value(prims, base, thunk);
        },
        Comp::Def { .. } => {},
        Comp::PrimitiveCall { args, .. } => {
            lemma_wrappers_named_values(prims, base, args);
        },
        Comp::Lambda { body, .. } => {
            lemma_wrappers_named_comp(prims, base, *body);
        },
    }
}

/// The wrappers that calls in definitions need are named after these, and wrap primitive functions.
proof fn lemma_wrappers_named(
    prims: Map<Seq<char>, Primitive>,
    defs: Seq<(Seq<char>, Definition)>,
    i: int,
)
    requires
        0 <= i < wrappers(prims, defs).len(),
    ensures
        names_wrapper(defs, wrappers(prims, defs)[i].0),
        is_wrapper(prims, wrappers(prims, defs)[i].1),
    decreases defs.len(),
{
    let front = defs.drop_last();
    let (name, def) = defs.last();
    let front_len = wrappers(prims, front).len();
    if i < front_len {
        lemma_wrappers_named(prims, front, i);
        let k = choose|k: int|
            0 <= k < front.len() && wrappers(prims, defs)[i].0 == wrapper_name(
                (#[trigger] front[k]).0,
            );
        assert(defs[k] == front[k]);
    } else {
        let last = wrappers_of_comp(prims, name, def.body);
        lemma_wrappers_named_comp(prims, name, def.body);
        lemma_wrappers_wrap(prims, name, def.body);
        assert(wrappers(prims, defs)[i] == last[i - front_len]);
        assert(defs[defs.len() - 1].0 == name);
    }
}

/// Whether each of `vs` is a variable.
spec fn all_vars(vs: Seq<Value>) -> bool {
    forall|i: int| 0 <= i < vs.len() ==> (#[trigger] vs[i]) is Var
}

/// Whether `c` calls a primitive function with variables.
spec fn calls_primitive(c: Comp) -> bool {
    c is PrimitiveCall && all_vars(c->PrimitiveCall_args)
}

/// Renaming, reducing and lifting leave variables variables, and nothing is lifted out of them.
proof fn lemma_vars_stay(
    env: Map<usize, usize>,
    n: nat,
    base: Seq<char>,
    types: Seq<VType>,
    vs: Seq<Value>,
)
    requires
        all_vars(vs),
    ensures
        all_vars(rename_values(env, n, vs)),
        forall|fuel: nat| #[trigger] reduce_values(fuel, n, vs) == Some((vs, n)),
        lift_values(base, types, n, vs).1.len() == 0,
    decreases vs.len(),
{
    if vs.len() > 0 {
        let front = vs.drop_last();
        let last = vs.last();
        assert(last == vs[vs.len() - 1]);
        assert(last is Var);
        lemma_vars_stay(env, n, base, types, front);
        assert(front.push(vs.last()) =~= vs);
        let new = rename_values(env, n, vs);
        assert(rename_value(env, n + binders_in_values(front), last) is Var);
        assert forall|i: int| 0 <= i < new.len() implies (#[trigger] new[i]) is Var by {
            if i < new.len() - 1 {
                assert(new[i] == rename_values(env, n, front)[i]);
            }
        }
        let front_defs = lift_values(base, types, n, front).1;
        assert(lift_value(base, types, n + front_defs.len(), last).1.len() == 0);
        assert forall|fuel: nat| #[trigger] reduce_values(fuel, n, vs) == Some((vs, n)) by {
            assert(reduce_values(fuel, n, front) == Some((front, n)));
            assert(reduce_value(fuel, n, last) == Some((last, n)));
        }
    }
}

/// Nothing is lifted out of a wrapper, after it was renamed and reduced.
proof fn lemma_wrapper_lifts_nothing(
    prims: Map<Seq<char>, Primitive>,
    base: Seq<char>,
    def: Definition,
)
    requires
        is_wrapper(prims, def),
    ensures
        ({
            let renamed = rename_definition(rename_definition(def));
            let (body, _) = reduced(first_unused(renamed), renamed.body);
            forall|types: Seq<VType>|
                (#[trigger] lift_comp(base, types, 0, body)).1.len() == 0
        }),
{
    let name = choose|name: Seq<char>| #[trigger]
        prims.contains_key(name) && def == wrapper(name, prims[name]);
    assert(calls_primitive(def.body));
    lemma_renamed_calls_primitive(def);
    lemma_renamed_calls_primitive(rename_definition(def));
    let renamed = rename_definition(rename_definition(def));
    let n = first_unused(renamed);
    let vs = renamed.body->PrimitiveCall_args;
    assert forall|types: Seq<VType>|
        (#[trigger] lift_comp(base, types, 0, reduced(n, renamed.body).0)).1.len() == 0 by {
        lemma_vars_stay(Map::empty(), n, base, types, vs);
        assert(reduce_values(0, n, vs) == Some((vs, n)));
        assert(reduce_comp(0, n, renamed.body) is Some);
        assert(reduces(n, renamed.body));
        let fuel = choose|fuel: nat| (#[trigger] reduce_comp(fuel, n, renamed.body)) is Some;
        assert(reduce_values(fuel, n, vs) == Some((vs, n)));
        assert(reduced(n, renamed.body).0 == renamed.body);
        lemma_vars_stay(Map::empty(), 0, base, types, vs);
    }
}

proof fn lemma_renamed_calls_primitive(def: Definition)
    requires
        calls_primitive(def.body),
    ensures
        calls_primitive(rename_definition(def).body),
{
    lemma_vars_stay(
        bind_params(Map::empty(), 0, def.args),
        def.args.len(),
        Seq::empty(),
        Seq::empty(),
        def.body->PrimitiveCall_args,
    );
}

/// Whether `def` is the wrapper of a primitive function, renamed.
spec fn is_renamed_wrapper(prims: Map<Seq<char>, Primitive>, def: Definition) -> bool {
    exists|d: Definition| #[trigger] is_wrapper(prims, d) && def == rename_definition(d)
}

/// Specializing calls keeps the names of definitions, and how they are called if they have not the
/// name of a wrapper. What it adds are wrappers.
proof fn lemma_specialized_interface(
    prims: Map<Seq<char>, Primitive>,
    defs: Seq<(Seq<char>, Definition)>,
)
    ensures
        ({
            let new = with_specialized_calls(prims, defs);
            &&& new.len() >= defs.len()
            &&& forall|i: int|
                0 <= i < defs.len() ==> (#[trigger] new[i]).0 == defs[i].0 && (!names_wrapper(
                    defs,
                    defs[i].0,
                ) ==> same_interface(new[i].1, defs[i].1))
            &&& forall|i: int|
                defs.len() <= i < new.len() ==> names_wrapper(defs, (#[trigger] new[i]).0)
                    && is_renamed_wrapper(prims, new[i].1)
        }),
{
    let bodies = with_specialized_bodies(prims, defs);
    let all_wrappers = wrappers(prims, defs);
    let renamed = with_distinct_vars(all_wrappers);
    let new = with_specialized_calls(prims, defs);
    lemma_put_all_in_place(bodies, renamed);
    assert forall|i: int| 0 <= i < defs.len() implies (#[trigger] new[i]).0 == defs[i].0 && (
    !names_wrapper(defs, defs[i].0) ==> same_interface(new[i].1, defs[i].1)) by {
        assert(bodies[i].0 == defs[i].0);
        if holds(renamed, defs[i].0) {
            let k = choose|k: int| 0 <= k < renamed.len() && (#[trigger] renamed[k]).0 == defs[i].0;
            assert(renamed[k].0 == all_wrappers[k].0);
            lemma_wrappers_named(prims, defs, k);
        }
    }
    assert forall|i: int| defs.len() <= i < new.len() implies names_wrapper(
        defs,
        (#[trigger] new[i]).0,
    ) && is_renamed_wrapper(prims, new[i].1) by {
        assert(renamed.contains(new[i]));
        let k = renamed.index_of(new[i]);
        lemma_wrappers_named(prims, defs, k);
        assert(new[i].1 == rename_definition(all_wrappers[k].1));
    }
}

/// Optimizing keeps the names of definitions where they are. A definition that has not the name of
/// a wrapper or of something that is lifted is called as before: its parameters have the same
/// types, and so are its own type and flags. Only wrappers and what is lifted is added.
pub proof fn lemma_optimized_interface(
    prims: Map<Seq<char>, Primitive>,
    defs: Seq<(Seq<char>, Definition)>,
)
    ensures
        optimized(prims, defs).len() >= defs.len(),
        forall|i: int|
            0 <= i < defs.len() ==> (#[trigger] optimized(prims, defs)[i]).0 == defs[i].0,
        forall|i: int|
            0 <= i < defs.len() && !names_wrapper(defs, defs[i].0) && !names_lambda(
                defs,
                defs[i].0,
            ) ==> same_interface((#[trigger] optimized(prims, defs)[i]).1, defs[i].1),
        forall|i: int|
            defs.len() <= i < optimized(prims, defs).len() ==> names_wrapper(
                defs,
                (#[trigger] optimized(prims, defs)[i]).0,
            ) || names_lambda(defs, optimized(prims, defs)[i].0),
{
    let simple = without_redundancy(defs);
    let specialized = with_specialized_calls(prims, simple);
    let distinct = with_distinct_vars(specialized);
    let before = before_lifting(prims, defs);
    let bodies = with_lifted_bodies(before);
    let all_lifted = lifted(before);
    let renamed = with_distinct_vars(all_lifted);
    let after = with_lifted_lambdas(before);
    let all = optimized(prims, defs);
    lemma_specialized_interface(prims, simple);
    lemma_put_all_in_place(bodies, renamed);
    assert forall|name: Seq<char>| #[trigger] names_wrapper(simple, name) implies names_wrapper(
        defs,
        name,
    ) by {
        let k = choose|k: int|
            0 <= k < simple.len() && name == wrapper_name((#[trigger] simple[k]).0);
        assert(simple[k].0 == defs[k].0);
    }
    assert forall|k: int| 0 <= k < renamed.len() implies names_lambda(
        defs,
        (#[trigger] renamed[k]).0,
    ) by {
        assert(renamed[k].0 == all_lifted[k].0);
        let (j, n) = lemma_lifted_named(before, k);
        assert(before[j].0 == specialized[j].0);
        if j >= defs.len() {
            assert(is_renamed_wrapper(prims, specialized[j].1));
            let def = choose|def: Definition| #[trigger]
                is_wrapper(prims, def) && specialized[j].1 == rename_definition(def);
            assert(distinct[j].1 == rename_definition(rename_definition(def)));
            lemma_wrapper_lifts_nothing(prims, before[j].0, def);
        }
        assert(specialized[j].0 == simple[j].0);
        assert(simple[j].0 == defs[j].0);
        assert(renamed[k].0 == lambda_name(defs[j].0, n));
    }
    assert forall|i: int| 0 <= i < defs.len() implies (#[trigger] all[i]).0 == defs[i].0 && (
    !names_wrapper(defs, defs[i].0) && !names_lambda(defs, defs[i].0) ==> same_interface(
        all[i].1,
        defs[i].1,
    )) by {
        assert(simple[i].0 == defs[i].0);
        assert(specialized[i].0 == simple[i].0);
        assert(bodies[i].0 == specialized[i].0);
        assert(after[i].0 == bodies[i].0);
        if !names_wrapper(defs, defs[i].0) && !names_lambda(defs, defs[i].0) {
            assert(!names_wrapper(simple, simple[i].0));
            assert(same_interface(specialized[i].1, simple[i].1));
            if holds(renamed, bodies[i].0) {
                let k = choose|k: int|
                    0 <= k < renamed.len() && (#[trigger] renamed[k]).0 == bodies[i].0;
                assert(names_lambda(defs, renamed[k].0));
            }
            assert(after[i] == bodies[i]);
            assert(bodies[i].1.args == distinct[i].1.args);
            assert forall|k: int| 0 <= k < defs[i].1.args.len() implies (
            #[trigger] all[i].1.args[k]).1 == defs[i].1.args[k].1 by {
                assert(specialized[i].1.args[k].1 == simple[i].1.args[k].1);
                assert(distinct[i].1.args[k].1 == specialized[i].1.args[k].1);
            }
        }
    }
    assert forall|i: int| defs.len() <= i < all.len() implies names_wrapper(
        defs,
        (#[trigger] all[i]).0,
    ) || names_lambda(defs, all[i].0) by {
        assert(all[i].0 == after[i].0);
        if i < bodies.len() {
            assert(bodies[i].0 == specialized[i].0);
            assert(names_wrapper(simple, specialized[i].0));
        } else {
            assert(renamed.contains(after[i]));
            let k = renamed.index_of(after[i]);
            assert(names_lambda(defs, renamed[k].0));
        }
    }
}

} // verus!
