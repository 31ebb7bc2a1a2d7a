//! What holds of the passes of [`crate::signature`].
use crate::ast::binding;
use crate::ast::binding::{
    bound_in_comp, bound_in_definition, bound_in_value, bound_in_values, has_distinct_vars,
    indexes_from, indexes_of, lemma_bound_in_concat, lemma_bound_len,
    lemma_renamed_vars_are_distinct,
};
use crate::ast::copying::{
    lemma_times_concat, lemma_times_distinct, lemma_times_empty, times,
};
use crate::ast::free_var::{bound_by, free_in_comp, free_in_value, free_in_values, sorted};
use crate::ast::interface::{lemma_put_all_in_place, same_interface};
use crate::ast::lifter::{
    captured_params, is_call, lemma_free_in_call, lemma_no_binders_in_call, lemma_sorted_lists,
    lifted_call,
};
use crate::ast::naming::lemma_generated_names_differ;
use crate::ast::optimization::lemma_put_distinct;
use crate::ast::scope::{
    alike_definitions, closed_definition, lemma_captures_within_value, lemma_free_in_concat,
    lemma_renamed_definition_within, lemma_renamed_is_alike, lemma_renamed_is_closed,
    lemma_top_within_value, vars_fit, within, within_value, within_values,
};
use crate::ast::signature::{distinct_names, holds, lemma_put_all_each};
use crate::ast::term::{Comp, VType, Value};
use crate::signature::{
    all_liftable, all_renamable, captures_below, lift_comp, lift_value, lift_values, liftable,
    lifted, local_types, normalize_comp, normalize_value, normalize_values, renamable,
    rename_definition, thunk_definition, thunk_definitions, thunk_name, thunks_of_comp,
    thunks_of_value, thunks_of_values, with_distinct_vars, with_lifted_bodies, with_lifted_thunks,
    Definition,
};
use vstd::prelude::*;

verus! {

/// Whether the applications of a value are normal; see [`normal_redexes`].
pub open spec fn normal_redexes_in_value(v: Value) -> bool
    decreases v,
{
    match v {
        Value::Thunk { t, .. } => normal_redexes(*t),
        _ => true,
    }
}

/// Whether the applications of a sequence of values are normal; see [`normal_redexes`].
pub open spec fn normal_redexes_in_values(vs: Seq<Value>) -> bool
    decreases vs,
{
    forall|i: int| 0 <= i < vs.len() ==> normal_redexes_in_value(#[trigger] vs[i])
}

/// Whether the applications of a computation are normal: none is to nothing, and none is of an
/// application. The arguments of applications do not matter.
pub open spec fn normal_redexes(c: Comp) -> bool
    decreases c,
{
    match c {
        Comp::Redex { function, args } => {
            &&& args.len() > 0
            &&& !(*function is Redex)
            &&& normal_redexes(*function)
        },
        Comp::Return { value } => normal_redexes_in_value(value),
        Comp::Force { thunk, .. } => normal_redexes_in_value(thunk),
        Comp::Def { .. } => true,
        Comp::PrimitiveCall { args, .. } => normal_redexes_in_values(args),
        Comp::Lambda { body, .. } => normal_redexes(*body),
    }
}

proof fn lemma_normalized_value(v: Value)
    ensures
        normal_redexes_in_value(normalize_value(v)),
        free_in_value(normalize_value(v)) == free_in_value(v),
        bound_in_value(normalize_value(v)) == bound_in_value(v),
    decreases v,
{
    if let Value::Thunk { t, .. } = v {
        lemma_normalized(*t);
    }
}

proof fn lemma_normalized_values(vs: Seq<Value>)
    ensures
        normal_redexes_in_values(normalize_values(vs)),
        free_in_values(normalize_values(vs)) == free_in_values(vs),
        bound_in_values(normalize_values(vs)) == bound_in_values(vs),
    decreases vs,
{
    let new = normalize_values(vs);
    assert forall|i: int| 0 <= i < vs.len() implies normal_redexes_in_value(#[trigger] new[i]) by {
        lemma_normalized_value(vs[i]);
    }
    if vs.len() > 0 {
        lemma_normalized_values(vs.drop_last());
        lemma_normalized_value(vs.last());
        assert(new.drop_last() =~= normalize_values(vs.drop_last()));
    }
}

/// Normalizing leaves only normal applications, and keeps the free variables and the binders.
pub proof fn lemma_normalized(c: Comp)
    ensures
        normal_redexes(normalize_comp(c)),
        free_in_comp(normalize_comp(c)) == free_in_comp(c),
        bound_in_comp(normalize_comp(c)) == bound_in_comp(c),
    decreases c,
{
    match c {
        Comp::Redex { function, args } => {
            lemma_normalized(*function);
            if args.len() == 0 {
                assert(free_in_values(args) =~= Set::empty());
                assert(bound_in_values(args) =~= Seq::empty());
                assert(free_in_comp(c) =~= free_in_comp(*function));
                assert(bound_in_comp(c) =~= bound_in_comp(*function));
            } else if let Comp::Redex { function: inner, args: inner_args } = normalize_comp(
                *function,
            ) {
                lemma_free_in_concat(inner_args, args);
                lemma_bound_in_concat(inner_args, args);
                assert(free_in_comp(normalize_comp(c)) =~= free_in_comp(c));
                assert(bound_in_comp(normalize_comp(c)) =~= bound_in_comp(c));
            }
        },
        Comp::Return { value } => {
            lemma_normalized_value(value);
        },
        Comp::Force { thunk, .. } => {
            lemma_normalized_value(thunk);
        },
        Comp::Def { .. } => {},
        Comp::PrimitiveCall { args, .. } => {
            lemma_normalized_values(args);
        },
        Comp::Lambda { body, .. } => {
            lemma_normalized(*body);
        },
    }
}

proof fn lemma_normal_unchanged_value(v: Value)
    requires
        normal_redexes_in_value(v),
    ensures
        normalize_value(v) == v,
    decreases v,
{
    if let Value::Thunk { t, .. } = v {
        lemma_normal_unchanged(*t);
    }
}

proof fn lemma_normal_unchanged_values(vs: Seq<Value>)
    requires
        normal_redexes_in_values(vs),
    ensures
        normalize_values(vs) == vs,
    decreases vs,
{
    assert forall|i: int| 0 <= i < vs.len() implies normalize_values(vs)[i] == vs[i] by {
        assert(normal_redexes_in_value(vs[i]));
        lemma_normal_unchanged_value(vs[i]);
    }
    assert(normalize_values(vs) =~= vs);
}

/// Normalizing changes nothing where all applications are normal. With [`lemma_normalized`], doing
/// it twice is doing it once.
pub proof fn lemma_normal_unchanged(c: Comp)
    requires
        normal_redexes(c),
    ensures
        normalize_comp(c) == c,
    decreases c,
{
    match c {
        Comp::Redex { function, args } => {
            lemma_normal_unchanged(*function);
        },
        Comp::Return { value } => {
            lemma_normal_unchanged_value(value);
        },
        Comp::Force { thunk, .. } => {
            lemma_normal_unchanged_value(thunk);
        },
        Comp::Def { .. } => {},
        Comp::PrimitiveCall { args, .. } => {
            lemma_normal_unchanged_values(args);
        },
        Comp::Lambda { body, .. } => {
            lemma_normal_unchanged(*body);
        },
    }
}

/// The definition `def` with effect flavors.
pub open spec fn flavored(def: Definition) -> crate::ast::signature::Definition {
    crate::ast::signature::Definition {
        args: def.args,
        body: def.body,
        c_type: def.c_type,
        var_bound: def.var_bound,
        may_be_simple: false,
        may_be_complex: true,
    }
}

/// Whether every variable of a definition is bound in it.
pub open spec fn is_closed(def: Definition) -> bool {
    closed_definition(flavored(def))
}

/// Whether each of `defs` binds all its variables.
pub open spec fn all_closed(defs: Seq<(Seq<char>, Definition)>) -> bool {
    forall|i: int| 0 <= i < defs.len() ==> is_closed((#[trigger] defs[i]).1)
}

/// Renaming makes the local variables of a definition distinct: they are the indexes less than its
/// `var_bound`, each bound once.
pub proof fn lemma_renamed_distinct(def: Definition)
    requires
        renamable(def),
    ensures
        ({
            let renamed = rename_definition(def);
            &&& has_distinct_vars(flavored(renamed))
            &&& bound_in_definition(flavored(renamed)) == indexes_from(0, renamed.var_bound)
        }),
{
    lemma_renamed_vars_are_distinct(flavored(def));
    assert(flavored(rename_definition(def)) == crate::ast::signature::rename_definition(
        flavored(def),
    ));
}

/// Renaming a definition that binds all its variables changes nothing but the names of these. They
/// are less than its `var_bound` afterwards, and all bound in it.
pub proof fn lemma_renamed(def: Definition)
    requires
        renamable(def),
        is_closed(def),
    ensures
        ({
            let renamed = rename_definition(def);
            &&& alike_definitions(flavored(def), flavored(renamed))
            &&& is_closed(renamed)
            &&& vars_fit(flavored(renamed))
        }),
{
    lemma_renamed_is_alike(flavored(def));
    lemma_renamed_is_closed(flavored(def));
    lemma_renamed_definition_within(flavored(def));
    assert(flavored(rename_definition(def)) == crate::ast::signature::rename_definition(
        flavored(def),
    ));
}

proof fn lemma_lifted_free_value(base: Seq<char>, n: nat, v: Value)
    ensures
        free_in_value(lift_value(base, n, v)) == free_in_value(v),
{
    if let Value::Thunk { t, may_have_complex_effects } = v {
        if !is_call(*t) {
            lemma_free_in_call(thunk_name(base, n), free_in_value(v), may_have_complex_effects);
        }
    }
}

proof fn lemma_lifted_free_values(base: Seq<char>, n: nat, vs: Seq<Value>)
    ensures
        free_in_values(lift_values(base, n, vs)) == free_in_values(vs),
    decreases vs.len(),
{
    if vs.len() > 0 {
        let front = vs.drop_last();
        lemma_lifted_free_values(base, n, front);
        lemma_lifted_free_value(base, n + thunks_of_values(front).len(), vs.last());
        assert(lift_values(base, n, vs).drop_last() =~= lift_values(base, n, front));
    }
}

/// Lifting thunks keeps the free variables.
pub proof fn lemma_lifted_free(base: Seq<char>, n: nat, c: Comp)
    ensures
        free_in_comp(lift_comp(base, n, c)) == free_in_comp(c),
    decreases c,
{
    match c {
        Comp::Redex { function, args } => {
            lemma_lifted_free(base, n, *function);
            lemma_lifted_free_values(base, n + thunks_of_comp(*function).len(), args);
        },
        Comp::Return { value } => {
            lemma_lifted_free_value(base, n, value);
        },
        Comp::Force { thunk, .. } => {
            lemma_lifted_free_value(base, n, thunk);
        },
        Comp::Def { .. } => {},
        Comp::PrimitiveCall { args, .. } => {
            lemma_lifted_free_values(base, n, args);
        },
        Comp::Lambda { body, .. } => {
            lemma_lifted_free(base, n, *body);
        },
    }
}

proof fn lemma_no_thunks_in_values(base: Seq<char>, n: nat, vs: Seq<Value>)
    ensures
        thunks_of_values(lift_values(base, n, vs)).len() == 0,
    decreases vs.len(),
{
    if vs.len() > 0 {
        let front = vs.drop_last();
        lemma_no_thunks_in_values(base, n, front);
        lemma_no_thunks_in_value(base, n + thunks_of_values(front).len(), vs.last());
        assert(lift_values(base, n, vs).drop_last() =~= lift_values(base, n, front));
    }
}

proof fn lemma_no_thunks_in_value(base: Seq<char>, n: nat, v: Value)
    ensures
        thunks_of_value(lift_value(base, n, v)).len() == 0,
{
}

/// After thunks were lifted there are none left to lift.
pub proof fn lemma_no_thunks_left(base: Seq<char>, n: nat, c: Comp)
    ensures
        thunks_of_comp(lift_comp(base, n, c)).len() == 0,
    decreases c,
{
    match c {
        Comp::Redex { function, args } => {
            lemma_no_thunks_left(base, n, *function);
            lemma_no_thunks_in_values(base, n + thunks_of_comp(*function).len(), args);
        },
        Comp::Return { value } => {
            lemma_no_thunks_in_value(base, n, value);
        },
        Comp::Force { thunk, .. } => {
            lemma_no_thunks_in_value(base, n, thunk);
        },
        Comp::Def { .. } => {},
        Comp::PrimitiveCall { args, .. } => {
            lemma_no_thunks_in_values(base, n, args);
        },
        Comp::Lambda { body, .. } => {
            lemma_no_thunks_left(base, n, *body);
        },
    }
}

proof fn lemma_lifted_bound_value(x: usize, base: Seq<char>, n: nat, v: Value)
    ensures
        times(x, bound_in_value(lift_value(base, n, v))) <= times(x, bound_in_value(v)),
{
    if let Value::Thunk { t, may_have_complex_effects } = v {
        if !is_call(*t) {
            let captured = sorted(free_in_value(v));
            let call = lifted_call(thunk_name(base, n), captured, may_have_complex_effects);
            lemma_no_binders_in_call(thunk_name(base, n), captured, may_have_complex_effects);
            lemma_bound_len(call);
            lemma_times_empty(x, bound_in_comp(call));
        }
    }
}

proof fn lemma_lifted_bound_values(x: usize, base: Seq<char>, n: nat, vs: Seq<Value>)
    ensures
        times(x, bound_in_values(lift_values(base, n, vs))) <= times(x, bound_in_values(vs)),
    decreases vs.len(),
{
    if vs.len() > 0 {
        let front = vs.drop_last();
        let new = lift_values(base, n, vs);
        lemma_lifted_bound_values(x, base, n, front);
        lemma_lifted_bound_value(x, base, n + thunks_of_values(front).len(), vs.last());
        assert(new.drop_last() =~= lift_values(base, n, front));
        lemma_times_concat(x, bound_in_values(front), bound_in_value(vs.last()));
        lemma_times_concat(x, bound_in_values(new.drop_last()), bound_in_value(new.last()));
    }
}

/// Lifting thunks adds no binders to what they are lifted out of.
pub proof fn lemma_lifted_bound(x: usize, base: Seq<char>, n: nat, c: Comp)
    ensures
        times(x, bound_in_comp(lift_comp(base, n, c))) <= times(x, bound_in_comp(c)),
    decreases c,
{
    match c {
        Comp::Redex { function, args } => {
            let m = n + thunks_of_comp(*function).len();
            lemma_lifted_bound(x, base, n, *function);
            lemma_lifted_bound_values(x, base, m, args);
            lemma_times_concat(x, bound_in_comp(*function), bound_in_values(args));
            lemma_times_concat(
                x,
                bound_in_comp(lift_comp(base, n, *function)),
                bound_in_values(lift_values(base, m, args)),
            );
        },
        Comp::Return { value } => {
            lemma_lifted_bound_value(x, base, n, value);
        },
        Comp::Force { thunk, .. } => {
            lemma_lifted_bound_value(x, base, n, thunk);
        },
        Comp::Def { .. } => {},
        Comp::PrimitiveCall { args, .. } => {
            lemma_lifted_bound_values(x, base, n, args);
        },
        Comp::Lambda { args, body, .. } => {
            lemma_lifted_bound(x, base, n, *body);
            lemma_times_concat(x, indexes_of(args), bound_in_comp(*body));
            lemma_times_concat(x, indexes_of(args), bound_in_comp(lift_comp(base, n, *body)));
        },
    }
}

/// Lifting thunks out of a definition keeps its local variables distinct.
pub proof fn lemma_lifted_distinct(base: Seq<char>, def: Definition)
    requires
        has_distinct_vars(flavored(def)),
    ensures
        has_distinct_vars(
            flavored(Definition { body: lift_comp(base, 0, def.body), ..def }),
        ),
{
    let body = lift_comp(base, 0, def.body);
    let new = Definition { body, ..def };
    let old_bound = bound_in_definition(flavored(def));
    let bound = bound_in_definition(flavored(new));
    assert forall|x: usize| times(x, bound) <= #[trigger] times(x, old_bound) by {
        lemma_lifted_bound(x, base, 0, def.body);
        lemma_times_concat(x, indexes_of(def.args), bound_in_comp(def.body));
        lemma_times_concat(x, indexes_of(def.args), bound_in_comp(body));
    }
    lemma_times_distinct(bound, old_bound);
}

/// A thunk that is lifted takes everything that it captures as a parameter, and nothing twice.
pub proof fn lemma_thunk_closed(v: Value, types: Seq<VType>)
    requires
        v is Thunk,
    ensures
        is_closed(thunk_definition(sorted(free_in_value(v)), types, *v->Thunk_t)),
        indexes_of(
            thunk_definition(sorted(free_in_value(v)), types, *v->Thunk_t).args,
        ).no_duplicates(),
{
    let captured = sorted(free_in_value(v));
    let args = captured_params(captured, types);
    lemma_sorted_lists(free_in_value(v));
    assert forall|x: usize| free_in_value(v).contains(x) implies bound_by(args).contains(x) by {
        assert(captured.contains(x));
        let i = captured.index_of(x);
        assert(args[i].0 == x);
    }
    assert(indexes_of(args) =~= captured);
}

/// Whether each of `thunks` is a thunk.
spec fn all_thunks(thunks: Seq<Value>) -> bool {
    forall|i: int| 0 <= i < thunks.len() ==> (#[trigger] thunks[i]) is Thunk
}

proof fn lemma_thunks_of_values_within(bound: nat, vs: Seq<Value>)
    ensures
        all_thunks(thunks_of_values(vs)),
        within_values(bound, vs) && bound <= usize::MAX ==> captures_below(
            bound,
            thunks_of_values(vs),
        ),
    decreases vs.len(),
{
    if vs.len() > 0 {
        lemma_thunks_of_values_within(bound, vs.drop_last());
        if within_values(bound, vs) && bound <= usize::MAX {
            assert(within_values(bound, vs.drop_last()));
            assert(within_value(bound, vs[vs.len() - 1]));
            lemma_captures_within_value(bound, vs.last());
            lemma_top_within_value(bound, vs.last());
        }
    }
}

/// The thunks of a computation are thunks, and capture only variables that it uses.
proof fn lemma_thunks_within(bound: nat, c: Comp)
    ensures
        all_thunks(thunks_of_comp(c)),
        within(bound, c) && bound <= usize::MAX ==> captures_below(bound, thunks_of_comp(c)),
    decreases c,
{
    match c {
        Comp::Redex { function, args } => {
            lemma_thunks_within(bound, *function);
            lemma_thunks_of_values_within(bound, args);
        },
        Comp::Return { value } => {
            if within_value(bound, value) && bound <= usize::MAX {
                lemma_captures_within_value(bound, value);
                lemma_top_within_value(bound, value);
            }
        },
        Comp::Force { thunk, .. } => {
            if within_value(bound, thunk) && bound <= usize::MAX {
                lemma_captures_within_value(bound, thunk);
                lemma_top_within_value(bound, thunk);
            }
        },
        Comp::Def { .. } => {},
        Comp::PrimitiveCall { args, .. } => {
            lemma_thunks_of_values_within(bound, args);
        },
        Comp::Lambda { body, .. } => {
            lemma_thunks_within(bound, *body);
        },
    }
}

/// Everything that is lifted binds all its variables.
proof fn lemma_all_lifted_closed(defs: Seq<(Seq<char>, Definition)>)
    ensures
        all_closed(lifted(defs)),
    decreases defs.len(),
{
    if defs.len() > 0 {
        let front = defs.drop_last();
        let (name, def) = defs.last();
        let thunks = thunks_of_comp(def.body);
        let new_defs = thunk_definitions(name, local_types(def), 0, thunks);
        lemma_all_lifted_closed(front);
        lemma_thunks_within(0, def.body);
        assert forall|i: int| 0 <= i < new_defs.len() implies is_closed(
            (#[trigger] new_defs[i]).1,
        ) by {
            assert(thunks[i] is Thunk);
            lemma_thunk_closed(thunks[i], local_types(def));
        }
    }
}

/// Thunks can be lifted out of definitions that bind all their variables, if machine words suffice
/// for their local variables and for the numbers of what is lifted.
pub proof fn lemma_closed_can_be_lifted(defs: Seq<(Seq<char>, Definition)>)
    requires
        all_closed(defs),
        all_renamable(defs),
        forall|i: int|
            0 <= i < with_distinct_vars(defs).len() ==> thunks_of_comp(
                (#[trigger] with_distinct_vars(defs)[i]).1.body,
            ).len() <= usize::MAX,
        all_renamable(lifted(with_distinct_vars(defs))),
    ensures
        all_liftable(defs),
{
    let distinct = with_distinct_vars(defs);
    assert forall|i: int| 0 <= i < distinct.len() implies liftable((#[trigger] distinct[i]).1) by {
        assert(renamable(defs[i].1));
        assert(is_closed(defs[i].1));
        lemma_renamed(defs[i].1);
        let def = distinct[i].1;
        lemma_thunks_within(def.var_bound, def.body);
    }
}

/// Thunks of different definitions, and different ones of the same, have different names.
pub proof fn lemma_thunk_names_differ(base1: Seq<char>, n1: nat, base2: Seq<char>, n2: nat)
    requires
        thunk_name(base1, n1) == thunk_name(base2, n2),
    ensures
        base1 == base2,
        n1 == n2,
{
    reveal_strlit("$__thunk_");
    lemma_generated_names_differ(base1, n1, base2, n2, "$__thunk_"@);
}

/// What is lifted is named after the definition that it is lifted out of.
proof fn lemma_lifted_named(defs: Seq<(Seq<char>, Definition)>, i: int) -> (r: (int, nat))
    requires
        0 <= i < lifted(defs).len(),
    ensures
        0 <= r.0 < defs.len(),
        lifted(defs)[i].0 == thunk_name(defs[r.0].0, r.1),
    decreases defs.len(),
{
    let front = defs.drop_last();
    let (name, def) = defs.last();
    if i < lifted(front).len() {
        let r = lemma_lifted_named(front, i);
        assert(front[r.0] == defs[r.0]);
        r
    } else {
        (defs.len() - 1, (i - lifted(front).len()) as nat)
    }
}

/// What is lifted out of definitions of distinct names has distinct names.
pub proof fn lemma_lifted_distinct_names(defs: Seq<(Seq<char>, Definition)>)
    requires
        distinct_names(defs),
    ensures
        distinct_names(lifted(defs)),
    decreases defs.len(),
{
    if defs.len() > 0 {
        let front = defs.drop_last();
        let (name, def) = defs.last();
        lemma_lifted_distinct_names(front);
        let defs1 = thunk_definitions(name, local_types(def), 0, thunks_of_comp(def.body));
        let all = lifted(defs);
        let k = lifted(front).len() as int;
        assert forall|i: int, j: int| 0 <= i < j < all.len() implies (#[trigger] all[i]).0 != (
        #[trigger] all[j]).0 by {
            if all[i].0 == all[j].0 {
                if j < k {
                    assert(all[i] == lifted(front)[i] && all[j] == lifted(front)[j]);
                } else {
                    assert(all[j] == defs1[j - k]);
                    if i < k {
                        assert(all[i] == lifted(front)[i]);
                        let (d, m) = lemma_lifted_named(front, i);
                        lemma_thunk_names_differ(front[d].0, m, name, (j - k) as nat);
                        assert(defs[d].0 == name);
                        assert(defs[defs.len() - 1].0 == name);
                    } else {
                        assert(all[i] == defs1[i - k]);
                        lemma_thunk_names_differ(name, (i - k) as nat, name, (j - k) as nat);
                    }
                }
            }
        }
    }
}

/// Everything that is lifted is among the definitions afterwards, renamed. So is every definition
/// that has not the name of one that is lifted.
pub proof fn lemma_lifted_are_kept(defs: Seq<(Seq<char>, Definition)>)
    requires
        distinct_names(defs),
    ensures
        distinct_names(with_lifted_thunks(defs)),
        ({
            let distinct = with_distinct_vars(defs);
            let new_defs = with_distinct_vars(lifted(distinct));
            let bodies = with_lifted_bodies(distinct);
            &&& forall|i: int|
                0 <= i < new_defs.len() ==> with_lifted_thunks(defs).contains(
                    #[trigger] new_defs[i],
                )
            &&& forall|i: int|
                0 <= i < bodies.len() && !holds(new_defs, bodies[i].0) ==> with_lifted_thunks(
                    defs,
                ).contains(#[trigger] bodies[i])
        }),
{
    let distinct = with_distinct_vars(defs);
    let bodies = with_lifted_bodies(distinct);
    let new_defs = lifted(distinct);
    let renamed = with_distinct_vars(new_defs);
    assert forall|i: int, j: int| 0 <= i < j < distinct.len() implies (#[trigger] distinct[i]).0
        != (#[trigger] distinct[j]).0 by {
        assert(distinct[i].0 == defs[i].0 && distinct[j].0 == defs[j].0);
    }
    assert forall|i: int, j: int| 0 <= i < j < bodies.len() implies (#[trigger] bodies[i]).0 != (
    #[trigger] bodies[j]).0 by {
        assert(bodies[i].0 == distinct[i].0 && bodies[j].0 == distinct[j].0);
    }
    lemma_lifted_distinct_names(distinct);
    assert forall|i: int, j: int| 0 <= i < j < renamed.len() implies (#[trigger] renamed[i]).0 != (
    #[trigger] renamed[j]).0 by {
        assert(renamed[i].0 == new_defs[i].0 && renamed[j].0 == new_defs[j].0);
    }
    lemma_put_distinct(bodies, renamed);
}

/// Definitions that bind all their variables do so after thunks were lifted.
pub proof fn lemma_closed_after_lifting(defs: Seq<(Seq<char>, Definition)>)
    requires
        all_closed(defs),
        all_renamable(defs),
        all_renamable(lifted(with_distinct_vars(defs))),
    ensures
        all_closed(with_lifted_thunks(defs)),
{
    let distinct = with_distinct_vars(defs);
    let bodies = with_lifted_bodies(distinct);
    let new_defs = lifted(distinct);
    let renamed = with_distinct_vars(new_defs);
    let p = |d: Definition| is_closed(d);
    assert forall|i: int| 0 <= i < bodies.len() implies p((#[trigger] bodies[i]).1) by {
        assert(renamable(defs[i].1));
        assert(is_closed(defs[i].1));
        lemma_renamed(defs[i].1);
        let (name, def) = distinct[i];
        assert(is_closed(distinct[i].1));
        lemma_lifted_free(name, 0, def.body);
    }
    lemma_all_lifted_closed(distinct);
    assert forall|i: int| 0 <= i < renamed.len() implies p((#[trigger] renamed[i]).1) by {
        assert(renamable(new_defs[i].1));
        assert(is_closed(new_defs[i].1));
        lemma_renamed(new_defs[i].1);
    }
    lemma_put_all_each(bodies, renamed, p);
    let all = with_lifted_thunks(defs);
    assert forall|i: int| 0 <= i < all.len() implies is_closed((#[trigger] all[i]).1) by {
        assert(p(all[i].1));
    }
}

/// After thunks were lifted, the local variables of every definition are distinct: of those that
/// thunks were lifted out of, and of those that the thunks became.
pub proof fn lemma_distinct_after_lifting(defs: Seq<(Seq<char>, Definition)>)
    requires
        all_renamable(defs),
        all_renamable(lifted(with_distinct_vars(defs))),
    ensures
        forall|i: int|
            0 <= i < with_lifted_thunks(defs).len() ==> has_distinct_vars(
                flavored((#[trigger] with_lifted_thunks(defs)[i]).1),
            ),
{
    let distinct = with_distinct_vars(defs);
    let bodies = with_lifted_bodies(distinct);
    let new_defs = lifted(distinct);
    let renamed = with_distinct_vars(new_defs);
    let p = |d: Definition| has_distinct_vars(flavored(d));
    assert forall|i: int| 0 <= i < bodies.len() implies p((#[trigger] bodies[i]).1) by {
        assert(renamable(defs[i].1));
        lemma_renamed_distinct(defs[i].1);
        assert(distinct[i].1 == rename_definition(defs[i].1));
        lemma_lifted_distinct(distinct[i].0, distinct[i].1);
    }
    assert forall|i: int| 0 <= i < renamed.len() implies p((#[trigger] renamed[i]).1) by {
        assert(renamable(new_defs[i].1));
        lemma_renamed_distinct(new_defs[i].1);
    }
    lemma_put_all_each(bodies, renamed, p);
    let all = with_lifted_thunks(defs);
    assert forall|i: int| 0 <= i < all.len() implies has_distinct_vars(
        flavored((#[trigger] all[i]).1),
    ) by {
        assert(p(all[i].1));
    }
}

/// Renaming a definition twice is renaming it once. It numbers the parameters from 0 and keeps
/// their types.
pub proof fn lemma_renaming_twice(def: Definition)
    requires
        renamable(def),
    ensures
        rename_definition(rename_definition(def)) == rename_definition(def),
        rename_definition(def).args.len() == def.args.len(),
        forall|i: int|
            0 <= i < def.args.len() ==> (#[trigger] rename_definition(def).args[i]) == (
                i as usize,
                def.args[i].1,
            ),
{
    binding::lemma_renaming_twice(flavored(def));
    let once = rename_definition(def);
    let flavored_once = crate::ast::signature::rename_definition(flavored(def));
    assert(flavored(once) == flavored_once);
    assert(flavored(rename_definition(once)) == crate::ast::signature::rename_definition(
        flavored_once,
    ));
}

/// Lifting thunks keeps the names of definitions where they are. A definition that has not the name
/// of a lifted thunk keeps its type, the number of its parameters and their types. Only lifted
/// thunks are added.
pub proof fn lemma_lifted_interface(defs: Seq<(Seq<char>, Definition)>)
    ensures
        with_lifted_thunks(defs).len() >= defs.len(),
        forall|i: int|
            0 <= i < defs.len() ==> (#[trigger] with_lifted_thunks(defs)[i]).0 == defs[i].0,
        forall|i: int|
            0 <= i < defs.len() && !names_thunk(defs, defs[i].0) ==> same_interface(
                flavored((#[trigger] with_lifted_thunks(defs)[i]).1),
                flavored(defs[i].1),
            ),
        forall|i: int|
            defs.len() <= i < with_lifted_thunks(defs).len() ==> names_thunk(
                defs,
                (#[trigger] with_lifted_thunks(defs)[i]).0,
            ),
{
    let distinct = with_distinct_vars(defs);
    let bodies = with_lifted_bodies(distinct);
    let new_defs = lifted(distinct);
    let renamed = with_distinct_vars(new_defs);
    let all = with_lifted_thunks(defs);
    lemma_put_all_in_place(bodies, renamed);
    assert forall|k: int| 0 <= k < renamed.len() implies names_thunk(
        defs,
        (#[trigger] renamed[k]).0,
    ) by {
        let (j, n) = lemma_lifted_named(distinct, k);
        assert(distinct[j].0 == defs[j].0);
        assert(renamed[k].0 == thunk_name(defs[j].0, n));
    }
    assert forall|i: int| 0 <= i < defs.len() implies (#[trigger] all[i]).0 == defs[i].0 && (
    !names_thunk(defs, defs[i].0) ==> same_interface(flavored(all[i].1), flavored(defs[i].1))) by {
        assert(bodies[i].0 == defs[i].0);
        if !names_thunk(defs, defs[i].0) {
            if holds(renamed, bodies[i].0) {
                let k = choose|k: int|
                    0 <= k < renamed.len() && (#[trigger] renamed[k]).0 == bodies[i].0;
                assert(names_thunk(defs, renamed[k].0));
            }
            assert(all[i] == bodies[i]);
            assert(bodies[i].1.args == distinct[i].1.args);
        }
    }
    assert forall|i: int| defs.len() <= i < all.len() implies names_thunk(
        defs,
        (#[trigger] all[i]).0,
    ) by {
        assert(renamed.contains(all[i]));
        let k = renamed.index_of(all[i]);
        assert(names_thunk(defs, renamed[k].0));
    }
}

/// Whether `name` is that of a thunk lifted out of one of `defs`.
pub open spec fn names_thunk(defs: Seq<(Seq<char>, Definition)>, name: Seq<char>) -> bool {
    exists|i: int, n: nat| 0 <= i < defs.len() && name == #[trigger] thunk_name(defs[i].0, n)
}

} // verus!
