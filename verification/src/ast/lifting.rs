//! What lifting leads to.
use crate::ast::binding::{
    bound_in_comp, bound_in_definition, bound_in_value, bound_in_values, has_distinct_vars,
    indexes_of, lemma_bound_len, lemma_parts_distinct,
};
use crate::ast::free_var::{bound_by, free_in_comp, sorted};
use crate::ast::lifter::{
    captured_params, is_call, lambda_name, lemma_lift_free, lemma_lift_leaves_no_binders,
    lemma_sorted_lists, lift_comp, lift_value, lift_values, lifted_call, lifted_definition, vars,
};
use crate::ast::naming::lemma_generated_names_differ;
use crate::ast::renamer::binders_in_comp;
use crate::ast::scope::{closed_definition, vars_fit};
use crate::ast::signature::{lemma_set_types_len, local_types, set_types, Definition};
use crate::ast::term::{CType, Comp, VType, Value};
use vstd::prelude::*;

verus! {

/// Whether `c` calls a definition, with or without arguments.
pub open spec fn is_plain_call(c: Comp) -> bool {
    match c {
        Comp::Def { .. } => true,
        Comp::Redex { function, .. } => *function is Def,
        _ => false,
    }
}

/// Whether all thunks of a value are lifted: they are of plain calls.
pub open spec fn flat_value(v: Value) -> bool
    decreases v,
{
    match v {
        Value::Thunk { t, .. } => is_plain_call(*t) && flat(*t),
        _ => true,
    }
}

/// Whether all thunks of a sequence of values are lifted.
pub open spec fn flat_values(vs: Seq<Value>) -> bool
    decreases vs,
{
    forall|i: int| 0 <= i < vs.len() ==> flat_value(#[trigger] vs[i])
}

/// Whether all thunks and lambdas of a computation are lifted: there are no lambdas, and all thunks
/// are of plain calls.
pub open spec fn flat(c: Comp) -> bool
    decreases c,
{
    match c {
        Comp::Redex { function, args } => flat(*function) && flat_values(args),
        Comp::Return { value } => flat_value(value),
        Comp::Force { thunk, .. } => flat_value(thunk),
        Comp::Def { .. } => true,
        Comp::PrimitiveCall { args, .. } => flat_values(args),
        Comp::Lambda { .. } => false,
    }
}

/// Whether all thunks and lambdas of each of `defs` are lifted.
pub open spec fn all_flat(defs: Seq<(Seq<char>, Definition)>) -> bool {
    forall|i: int| 0 <= i < defs.len() ==> flat((#[trigger] defs[i]).1.body)
}

proof fn lemma_call_is_flat(name: Seq<char>, captured: Seq<usize>, effects: bool)
    ensures
        flat(lifted_call(name, captured, effects)),
{
    let def = Comp::Def { name, may_have_complex_effects: effects };
    assert(flat(def));
    assert forall|i: int| 0 <= i < captured.len() implies flat_value(
        #[trigger] vars(captured)[i],
    ) by {}
    assert(flat_values(vars(captured)));
}

proof fn lemma_lifted_is_flat_value(base: Seq<char>, types: Seq<VType>, n: nat, v: Value)
    ensures
        flat_value(lift_value(base, types, n, v).0),
        all_flat(lift_value(base, types, n, v).1),
    decreases v,
{
    if let Value::Thunk { t, may_have_complex_effects } = v {
        lemma_lifted_is_flat(base, types, n, *t);
        let (lifted, defs) = lift_comp(base, types, n, *t);
        if !is_call(lifted) {
            lemma_call_is_flat(
                lambda_name(base, n + defs.len()),
                sorted(free_in_comp(lifted)),
                may_have_complex_effects,
            );
        }
    }
}

proof fn lemma_lifted_is_flat_values(base: Seq<char>, types: Seq<VType>, n: nat, vs: Seq<Value>)
    ensures
        flat_values(lift_values(base, types, n, vs).0),
        all_flat(lift_values(base, types, n, vs).1),
    decreases vs,
{
    if vs.len() > 0 {
        lemma_lifted_is_flat_values(base, types, n, vs.drop_last());
        let (front, front_defs) = lift_values(base, types, n, vs.drop_last());
        lemma_lifted_is_flat_value(base, types, n + front_defs.len(), vs.last());
        let new = lift_values(base, types, n, vs).0;
        assert forall|i: int| 0 <= i < new.len() implies flat_value(#[trigger] new[i]) by {
            if i < front.len() {
                assert(new[i] == front[i]);
            }
        }
    }
}

/// Lifting leaves no lambda, and no thunk but of plain calls, neither in the computation nor in
/// what is lifted out of it.
pub proof fn lemma_lifted_is_flat(base: Seq<char>, types: Seq<VType>, n: nat, c: Comp)
    ensures
        flat(lift_comp(base, types, n, c).0),
        all_flat(lift_comp(base, types, n, c).1),
    decreases c,
{
    match c {
        Comp::Redex { function, args } => {
            lemma_lifted_is_flat(base, types, n, *function);
            let (f, f_defs) = lift_comp(base, types, n, *function);
            lemma_lifted_is_flat_values(base, types, n + f_defs.len(), args);
        },
        Comp::Return { value } => {
            lemma_lifted_is_flat_value(base, types, n, value);
        },
        Comp::Force { thunk, .. } => {
            lemma_lifted_is_flat_value(base, types, n, thunk);
        },
        Comp::Def { .. } => {},
        Comp::PrimitiveCall { args, .. } => {
            lemma_lifted_is_flat_values(base, types, n, args);
        },
        Comp::Lambda { args, body, may_have_complex_effects } => {
            lemma_lifted_is_flat(base, types, n, *body);
            let (lifted, defs) = lift_comp(base, types, n, *body);
            let lambda = Comp::Lambda { args, body: Box::new(lifted), may_have_complex_effects };
            lemma_call_is_flat(
                lambda_name(base, n + defs.len()),
                sorted(free_in_comp(lambda)),
                may_have_complex_effects,
            );
        },
    }
}

proof fn lemma_lifted_names_value(base: Seq<char>, types: Seq<VType>, n: nat, v: Value)
    ensures
        are_numbered(base, n, lift_value(base, types, n, v).1),
    decreases v,
{
    if let Value::Thunk { t, .. } = v {
        lemma_lifted_are_numbered(base, types, n, *t);
    }
}

proof fn lemma_lifted_names_values(base: Seq<char>, types: Seq<VType>, n: nat, vs: Seq<Value>)
    ensures
        are_numbered(base, n, lift_values(base, types, n, vs).1),
    decreases vs,
{
    if vs.len() > 0 {
        lemma_lifted_names_values(base, types, n, vs.drop_last());
        let (front, front_defs) = lift_values(base, types, n, vs.drop_last());
        lemma_lifted_names_value(base, types, n + front_defs.len(), vs.last());
    }
}

/// Whether `defs` are named as the `n`-th and following that are lifted out of `base`.
pub open spec fn are_numbered(
    base: Seq<char>,
    n: nat,
    defs: Seq<(Seq<char>, Definition)>,
) -> bool {
    forall|i: int|
        0 <= i < defs.len() ==> (#[trigger] defs[i]).0 == lambda_name(base, (n + i) as nat)
}

/// What is lifted is numbered in its order.
pub proof fn lemma_lifted_are_numbered(base: Seq<char>, types: Seq<VType>, n: nat, c: Comp)
    ensures
        are_numbered(base, n, lift_comp(base, types, n, c).1),
    decreases c,
{
    match c {
        Comp::Redex { function, args } => {
            lemma_lifted_are_numbered(base, types, n, *function);
            let (f, f_defs) = lift_comp(base, types, n, *function);
            lemma_lifted_names_values(base, types, n + f_defs.len(), args);
        },
        Comp::Return { value } => {
            lemma_lifted_names_value(base, types, n, value);
        },
        Comp::Force { thunk, .. } => {
            lemma_lifted_names_value(base, types, n, thunk);
        },
        Comp::Def { .. } => {},
        Comp::PrimitiveCall { args, .. } => {
            lemma_lifted_names_values(base, types, n, args);
        },
        Comp::Lambda { body, .. } => {
            lemma_lifted_are_numbered(base, types, n, *body);
        },
    }
}

/// What is lifted out of different definitions, or as different ones out of the same, has different
/// names.
pub proof fn lemma_lambda_names_differ(base1: Seq<char>, n1: nat, base2: Seq<char>, n2: nat)
    requires
        lambda_name(base1, n1) == lambda_name(base2, n2),
    ensures
        base1 == base2,
        n1 == n2,
{
    reveal_strlit("$__lambda_");
    lemma_generated_names_differ(base1, n1, base2, n2, "$__lambda_"@);
}

/// Whether each of `defs` binds all its variables.
pub open spec fn all_closed(defs: Seq<(Seq<char>, Definition)>) -> bool {
    forall|i: int| 0 <= i < defs.len() ==> closed_definition((#[trigger] defs[i]).1)
}

/// Whether the `var_bound` of each of `defs` fits all its local variables.
pub open spec fn all_vars_fit(defs: Seq<(Seq<char>, Definition)>) -> bool {
    forall|i: int| 0 <= i < defs.len() ==> vars_fit((#[trigger] defs[i]).1)
}

/// The parameters for captured variables bind these.
proof fn lemma_captured_bound(set: Set<usize>, types: Seq<VType>, params: Seq<(usize, VType)>)
    ensures
        forall|x: usize| #[trigger]
            bound_by(captured_params(sorted(set), types) + params).contains(x) <==> set.contains(x)
                || bound_by(params).contains(x),
{
    lemma_sorted_lists(set);
    let captured = sorted(set);
    let front = captured_params(captured, types);
    let all = front + params;
    assert forall|x: usize| #[trigger] bound_by(all).contains(x) <==> set.contains(x) || bound_by(
        params,
    ).contains(x) by {
        if set.contains(x) {
            assert(captured.contains(x));
            let i = captured.index_of(x);
            assert(all[i].0 == x);
        }
        if bound_by(params).contains(x) {
            let i = choose|i: int| 0 <= i < params.len() && (#[trigger] params[i]).0 == x;
            assert(all[front.len() + i].0 == x);
        }
        if bound_by(all).contains(x) {
            let i = choose|i: int| 0 <= i < all.len() && (#[trigger] all[i]).0 == x;
            if i < front.len() {
                assert(captured[i] == x);
                assert(captured.contains(x));
            } else {
                assert(params[i - front.len()].0 == x);
            }
        }
    }
}

proof fn lemma_lifted_closed_value(base: Seq<char>, types: Seq<VType>, n: nat, v: Value)
    ensures
        all_closed(lift_value(base, types, n, v).1),
    decreases v,
{
    if let Value::Thunk { t, .. } = v {
        lemma_lifted_closed(base, types, n, *t);
        let lifted = lift_comp(base, types, n, *t).0;
        lemma_captured_bound(free_in_comp(lifted), types, Seq::empty());
    }
}

proof fn lemma_lifted_closed_values(base: Seq<char>, types: Seq<VType>, n: nat, vs: Seq<Value>)
    ensures
        all_closed(lift_values(base, types, n, vs).1),
    decreases vs,
{
    if vs.len() > 0 {
        lemma_lifted_closed_values(base, types, n, vs.drop_last());
        let (front, front_defs) = lift_values(base, types, n, vs.drop_last());
        lemma_lifted_closed_value(base, types, n + front_defs.len(), vs.last());
    }
}

/// What is lifted binds all its variables: it takes everything that it captures as a parameter.
pub proof fn lemma_lifted_closed(base: Seq<char>, types: Seq<VType>, n: nat, c: Comp)
    ensures
        all_closed(lift_comp(base, types, n, c).1),
    decreases c,
{
    match c {
        Comp::Redex { function, args } => {
            lemma_lifted_closed(base, types, n, *function);
            let (f, f_defs) = lift_comp(base, types, n, *function);
            lemma_lifted_closed_values(base, types, n + f_defs.len(), args);
        },
        Comp::Return { value } => {
            lemma_lifted_closed_value(base, types, n, value);
        },
        Comp::Force { thunk, .. } => {
            lemma_lifted_closed_value(base, types, n, thunk);
        },
        Comp::Def { .. } => {},
        Comp::PrimitiveCall { args, .. } => {
            lemma_lifted_closed_values(base, types, n, args);
        },
        Comp::Lambda { args, body, may_have_complex_effects } => {
            lemma_lifted_closed(base, types, n, *body);
            let (lifted, defs) = lift_comp(base, types, n, *body);
            let lambda = Comp::Lambda { args, body: Box::new(lifted), may_have_complex_effects };
            lemma_captured_bound(free_in_comp(lambda), types, args);
            let def = lift_comp(base, types, n, c).1.last().1;
            assert(free_in_comp(def.body).subset_of(bound_by(def.args))) by {
                assert forall|x: usize| free_in_comp(lifted).contains(x) implies bound_by(
                    def.args,
                ).contains(x) by {
                    if !bound_by(args).contains(x) {
                        assert(free_in_comp(lambda).contains(x));
                    }
                }
            }
        },
    }
}

/// Whether the local variables of each of `defs` are distinct.
pub open spec fn all_have_distinct_vars(defs: Seq<(Seq<char>, Definition)>) -> bool {
    forall|i: int| 0 <= i < defs.len() ==> has_distinct_vars((#[trigger] defs[i]).1)
}

/// A definition that captures variables and takes distinct other parameters has distinct variables,
/// if there are no binders in its body.
proof fn lemma_lifted_definition_distinct(
    set: Set<usize>,
    types: Seq<VType>,
    params: Seq<(usize, VType)>,
    body: Comp,
    effects: bool,
)
    requires
        indexes_of(params).no_duplicates(),
        set.disjoint(bound_by(params)),
        binders_in_comp(body) == 0,
    ensures
        has_distinct_vars(lifted_definition(sorted(set), types, params, body, effects)),
{
    lemma_sorted_lists(set);
    let captured = sorted(set);
    let def = lifted_definition(captured, types, params, body, effects);
    lemma_bound_len(body);
    let bound = bound_in_definition(def);
    assert(bound =~= captured + indexes_of(params));
    assert forall|i: int, j: int| 0 <= i < bound.len() && 0 <= j < bound.len() && i
        != j implies bound[i] != bound[j] by {
        let k = captured.len() as int;
        if i < k {
            assert(captured.contains(captured[i]));
        }
        if j < k {
            assert(captured.contains(captured[j]));
        }
        if i >= k {
            assert(params[i - k].0 == bound[i]);
            assert(bound_by(params).contains(bound[i]));
            assert(indexes_of(params)[i - k] == bound[i]);
        }
        if j >= k {
            assert(params[j - k].0 == bound[j]);
            assert(bound_by(params).contains(bound[j]));
            assert(indexes_of(params)[j - k] == bound[j]);
        }
    }
}

proof fn lemma_lifted_distinct_value(base: Seq<char>, types: Seq<VType>, n: nat, v: Value)
    requires
        bound_in_value(v).no_duplicates(),
    ensures
        all_have_distinct_vars(lift_value(base, types, n, v).1),
    decreases v,
{
    if let Value::Thunk { t, may_have_complex_effects } = v {
        lemma_lifted_distinct(base, types, n, *t);
        lemma_lift_leaves_no_binders(base, types, n, *t);
        let lifted = lift_comp(base, types, n, *t).0;
        assert(bound_by(Seq::<(usize, VType)>::empty()) =~= Set::empty());
        lemma_lifted_definition_distinct(
            free_in_comp(lifted),
            types,
            Seq::empty(),
            lifted,
            may_have_complex_effects,
        );
    }
}

proof fn lemma_lifted_distinct_values(base: Seq<char>, types: Seq<VType>, n: nat, vs: Seq<Value>)
    requires
        bound_in_values(vs).no_duplicates(),
    ensures
        all_have_distinct_vars(lift_values(base, types, n, vs).1),
    decreases vs,
{
    if vs.len() > 0 {
        lemma_parts_distinct(bound_in_values(vs.drop_last()), bound_in_value(vs.last()));
        lemma_lifted_distinct_values(base, types, n, vs.drop_last());
        let (front, front_defs) = lift_values(base, types, n, vs.drop_last());
        lemma_lifted_distinct_value(base, types, n + front_defs.len(), vs.last());
    }
}

/// Where all local variables are distinct, so are those of everything that is lifted.
pub proof fn lemma_lifted_distinct(base: Seq<char>, types: Seq<VType>, n: nat, c: Comp)
    requires
        bound_in_comp(c).no_duplicates(),
    ensures
        all_have_distinct_vars(lift_comp(base, types, n, c).1),
    decreases c,
{
    match c {
        Comp::Redex { function, args } => {
            lemma_parts_distinct(bound_in_comp(*function), bound_in_values(args));
            lemma_lifted_distinct(base, types, n, *function);
            let (f, f_defs) = lift_comp(base, types, n, *function);
            lemma_lifted_distinct_values(base, types, n + f_defs.len(), args);
        },
        Comp::Return { value } => {
            lemma_lifted_distinct_value(base, types, n, value);
        },
        Comp::Force { thunk, .. } => {
            lemma_lifted_distinct_value(base, types, n, thunk);
        },
        Comp::Def { .. } => {},
        Comp::PrimitiveCall { args, .. } => {
            lemma_lifted_distinct_values(base, types, n, args);
        },
        Comp::Lambda { args, body, may_have_complex_effects } => {
            lemma_parts_distinct(indexes_of(args), bound_in_comp(*body));
            lemma_lifted_distinct(base, types, n, *body);
            lemma_lift_leaves_no_binders(base, types, n, *body);
            let (lifted, defs) = lift_comp(base, types, n, *body);
            let lambda = Comp::Lambda { args, body: Box::new(lifted), may_have_complex_effects };
            lemma_lifted_definition_distinct(
                free_in_comp(lambda),
                types,
                args,
                lifted,
                may_have_complex_effects,
            );
        },
    }
}

/// Whether `call` calls the definition `d` with the variables `captured`, and that definition takes
/// these, of the types that `types` tells, and then `params`. It can be called simply if there are
/// no complex effects.
pub open spec fn calls_lifted(
    types: Seq<VType>,
    d: (Seq<char>, Definition),
    call: Comp,
    captured: Seq<usize>,
    params: Seq<(usize, VType)>,
    effects: bool,
) -> bool {
    &&& call matches Comp::Redex { function, args }
    &&& *function == (Comp::Def { name: d.0, may_have_complex_effects: effects })
    &&& args.len() == captured.len()
    &&& forall|i: int|
        0 <= i < args.len() ==> (#[trigger] args[i]) == (Value::Var { index: captured[i] })
    &&& d.1.c_type == CType::Default
    &&& d.1.may_be_simple == !effects
    &&& d.1.may_be_complex
    &&& forall|i: int|
        0 <= i < captured.len() ==> (#[trigger] d.1.args[i]).1 == types[captured[i] as int]
    &&& d.1.args.len() == captured.len() + params.len()
    &&& indexes_of(d.1.args.take(captured.len() as int)) == captured
    &&& d.1.args.skip(captured.len() as int) == params
}

/// Whether the value `v` is what is left of `old` when its thunks and lambdas are lifted to `defs`;
/// see [`lifted_from`].
pub open spec fn lifted_from_value(
    types: Seq<VType>,
    defs: Seq<(Seq<char>, Definition)>,
    v: Value,
    old: Value,
) -> bool
    decreases old,
{
    match (v, old) {
        (
            Value::Thunk { t: c, may_have_complex_effects: e },
            Value::Thunk { t, may_have_complex_effects },
        ) => {
            &&& e == may_have_complex_effects
            &&& if is_plain_call(*t) || *t is Lambda {
                lifted_from(types, defs, *c, *t)
            } else {
                exists|d: (Seq<char>, Definition)|
                    #![trigger defs.contains(d)]
                    defs.contains(d) && calls_lifted(
                        types,
                        d,
                        *c,
                        sorted(free_in_comp(*t)),
                        Seq::empty(),
                        e,
                    ) && lifted_from(types, defs, d.1.body, *t)
            }
        },
        (Value::Thunk { .. }, _) => false,
        (_, Value::Thunk { .. }) => false,
        _ => v == old,
    }
}

/// Whether the values `vs` are what is left of `old` when thunks and lambdas are lifted to `defs`;
/// see [`lifted_from`].
pub open spec fn lifted_from_values(
    types: Seq<VType>,
    defs: Seq<(Seq<char>, Definition)>,
    vs: Seq<Value>,
    old: Seq<Value>,
) -> bool
    decreases old,
{
    &&& vs.len() == old.len()
    &&& forall|i: int|
        0 <= i < old.len() ==> lifted_from_value(types, defs, vs[i], #[trigger] old[i])
}

/// Whether the computation `c` is what is left of `old` when its thunks and lambdas are lifted to
/// `defs`: where `old` has a lambda or a thunk, `c` calls the definition that has its parameters
/// and what is left of its body, and hands over its free variables under their own names and with
/// their types, which `types` tells. All else is the same.
pub open spec fn lifted_from(
    types: Seq<VType>,
    defs: Seq<(Seq<char>, Definition)>,
    c: Comp,
    old: Comp,
) -> bool
    decreases old,
{
    match old {
        Comp::Redex { function, args } => {
            &&& c matches Comp::Redex { function: f, args: vs }
            &&& lifted_from(types, defs, *f, *function)
            &&& lifted_from_values(types, defs, vs, args)
        },
        Comp::Return { value } => {
            &&& c matches Comp::Return { value: v }
            &&& lifted_from_value(types, defs, v, value)
        },
        Comp::Force { thunk, may_have_complex_effects } => {
            &&& c matches Comp::Force { thunk: v, may_have_complex_effects: e }
            &&& e == may_have_complex_effects
            &&& lifted_from_value(types, defs, v, thunk)
        },
        Comp::Def { .. } => c == old,
        Comp::PrimitiveCall { name, args } => {
            &&& c matches Comp::PrimitiveCall { name: m, args: vs }
            &&& m == name
            &&& lifted_from_values(types, defs, vs, args)
        },
        Comp::Lambda { args, body, may_have_complex_effects } => {
            exists|d: (Seq<char>, Definition)|
                #![trigger defs.contains(d)]
                defs.contains(d) && calls_lifted(
                    types,
                    d,
                    c,
                    sorted(free_in_comp(old)),
                    args,
                    may_have_complex_effects,
                ) && lifted_from(types, defs, d.1.body, *body)
        },
    }
}

proof fn lemma_lifted_from_more_value(
    types: Seq<VType>,
    defs: Seq<(Seq<char>, Definition)>,
    more: Seq<(Seq<char>, Definition)>,
    v: Value,
    old: Value,
)
    requires
        lifted_from_value(types, defs, v, old),
        forall|d: (Seq<char>, Definition)| defs.contains(d) ==> #[trigger] more.contains(d),
    ensures
        lifted_from_value(types, more, v, old),
    decreases old,
{
    if let Value::Thunk { t, may_have_complex_effects } = old {
        let c = v->Thunk_t;
        if is_call(*t) || *t is Lambda {
            lemma_lifted_from_more(types, defs, more, *c, *t);
        } else {
            let d = choose|d: (Seq<char>, Definition)|
                #![trigger defs.contains(d)]
                defs.contains(d) && calls_lifted(
                    types,
                    d,
                    *c,
                    sorted(free_in_comp(*t)),
                    Seq::empty(),
                    may_have_complex_effects,
                ) && lifted_from(types, defs, d.1.body, *t);
            lemma_lifted_from_more(types, defs, more, d.1.body, *t);
            assert(more.contains(d));
        }
    }
}

proof fn lemma_lifted_from_more_values(
    types: Seq<VType>,
    defs: Seq<(Seq<char>, Definition)>,
    more: Seq<(Seq<char>, Definition)>,
    vs: Seq<Value>,
    old: Seq<Value>,
)
    requires
        lifted_from_values(types, defs, vs, old),
        forall|d: (Seq<char>, Definition)| defs.contains(d) ==> #[trigger] more.contains(d),
    ensures
        lifted_from_values(types, more, vs, old),
    decreases old,
{
    assert forall|i: int| 0 <= i < old.len() implies lifted_from_value(
        types,
        more,
        vs[i],
        #[trigger] old[i],
    ) by {
        lemma_lifted_from_more_value(types, defs, more, vs[i], old[i]);
    }
}

/// More definitions do no harm.
pub proof fn lemma_lifted_from_more(
    types: Seq<VType>,
    defs: Seq<(Seq<char>, Definition)>,
    more: Seq<(Seq<char>, Definition)>,
    c: Comp,
    old: Comp,
)
    requires
        lifted_from(types, defs, c, old),
        forall|d: (Seq<char>, Definition)| defs.contains(d) ==> #[trigger] more.contains(d),
    ensures
        lifted_from(types, more, c, old),
    decreases old,
{
    match old {
        Comp::Redex { function, args } => {
            lemma_lifted_from_more(types, defs, more, *c->Redex_function, *function);
            lemma_lifted_from_more_values(types, defs, more, c->Redex_args, args);
        },
        Comp::Return { value } => {
            lemma_lifted_from_more_value(types, defs, more, c->value, value);
        },
        Comp::Force { thunk, .. } => {
            lemma_lifted_from_more_value(types, defs, more, c->thunk, thunk);
        },
        Comp::Def { .. } => {},
        Comp::PrimitiveCall { args, .. } => {
            lemma_lifted_from_more_values(types, defs, more, c->PrimitiveCall_args, args);
        },
        Comp::Lambda { args, body, may_have_complex_effects } => {
            let d = choose|d: (Seq<char>, Definition)|
                #![trigger defs.contains(d)]
                defs.contains(d) && calls_lifted(
                    types,
                    d,
                    c,
                    sorted(free_in_comp(old)),
                    args,
                    may_have_complex_effects,
                ) && lifted_from(types, defs, d.1.body, *body);
            lemma_lifted_from_more(types, defs, more, d.1.body, *body);
            assert(more.contains(d));
        },
    }
}

/// A lifted definition is called as its parameters say.
proof fn lemma_calls_lifted(
    name: Seq<char>,
    captured: Seq<usize>,
    types: Seq<VType>,
    params: Seq<(usize, VType)>,
    body: Comp,
    effects: bool,
)
    ensures
        calls_lifted(
            types,
            (name, lifted_definition(captured, types, params, body, effects)),
            lifted_call(name, captured, effects),
            captured,
            params,
            effects,
        ),
{
    let args = lifted_definition(captured, types, params, body, effects).args;
    assert(indexes_of(args.take(captured.len() as int)) =~= captured);
    assert(args.skip(captured.len() as int) =~= params);
}

proof fn lemma_lift_restores_value(base: Seq<char>, types: Seq<VType>, n: nat, v: Value)
    ensures
        ({
            let (new, defs) = lift_value(base, types, n, v);
            lifted_from_value(types, defs, new, v)
        }),
    decreases v,
{
    if let Value::Thunk { t, may_have_complex_effects } = v {
        lemma_lift_restores(base, types, n, *t);
        lemma_lift_free(base, types, n, *t);
        let (lifted, defs) = lift_comp(base, types, n, *t);
        if !is_call(lifted) {
            let name = lambda_name(base, n + defs.len());
            let captured = sorted(free_in_comp(lifted));
            let def = lifted_definition(
                captured,
                types,
                Seq::empty(),
                lifted,
                may_have_complex_effects,
            );
            let all = defs.push((name, def));
            lemma_calls_lifted(
                name,
                captured,
                types,
                Seq::empty(),
                lifted,
                may_have_complex_effects,
            );
            assert forall|d: (Seq<char>, Definition)|
                defs.contains(d) implies #[trigger] all.contains(d) by {
                let i = defs.index_of(d);
                assert(all[i] == d);
            }
            lemma_lifted_from_more(types, defs, all, lifted, *t);
            assert(all[defs.len() as int] == (name, def));
            assert(all.contains((name, def)));
        }
    }
}

proof fn lemma_lift_restores_values(base: Seq<char>, types: Seq<VType>, n: nat, vs: Seq<Value>)
    ensures
        ({
            let (new, defs) = lift_values(base, types, n, vs);
            lifted_from_values(types, defs, new, vs)
        }),
    decreases vs,
{
    if vs.len() > 0 {
        let old_front = vs.drop_last();
        lemma_lift_restores_values(base, types, n, old_front);
        let (front, front_defs) = lift_values(base, types, n, old_front);
        lemma_lift_restores_value(base, types, n + front_defs.len(), vs.last());
        let (last, last_defs) = lift_value(base, types, n + front_defs.len(), vs.last());
        let (new, defs) = lift_values(base, types, n, vs);
        lemma_contains_parts(front_defs, last_defs);
        lemma_lifted_from_more_values(types, front_defs, defs, front, old_front);
        lemma_lifted_from_more_value(types, last_defs, defs, last, vs.last());
        assert forall|i: int| 0 <= i < vs.len() implies lifted_from_value(
            types,
            defs,
            new[i],
            #[trigger] vs[i],
        ) by {
            if i < old_front.len() {
                assert(old_front[i] == vs[i]);
                assert(new[i] == front[i]);
            }
        }
    }
}

proof fn lemma_contains_parts(
    defs: Seq<(Seq<char>, Definition)>,
    more: Seq<(Seq<char>, Definition)>,
)
    ensures
        forall|d: (Seq<char>, Definition)|
            defs.contains(d) ==> #[trigger] (defs + more).contains(d),
        forall|d: (Seq<char>, Definition)|
            more.contains(d) ==> #[trigger] (defs + more).contains(d),
{
    let all = defs + more;
    assert forall|d: (Seq<char>, Definition)| defs.contains(d) implies #[trigger] all.contains(
        d,
    ) by {
        let i = defs.index_of(d);
        assert(all[i] == d);
    }
    assert forall|d: (Seq<char>, Definition)| more.contains(d) implies #[trigger] all.contains(
        d,
    ) by {
        let i = more.index_of(d);
        assert(all[defs.len() + i] == d);
    }
}

/// Nothing is lost in lifting: every lambda and every thunk can be read off the definition that is
/// called in its place.
pub proof fn lemma_lift_restores(base: Seq<char>, types: Seq<VType>, n: nat, c: Comp)
    ensures
        ({
            let (new, defs) = lift_comp(base, types, n, c);
            lifted_from(types, defs, new, c)
        }),
    decreases c,
{
    let (new, defs) = lift_comp(base, types, n, c);
    match c {
        Comp::Redex { function, args } => {
            lemma_lift_restores(base, types, n, *function);
            let (f, f_defs) = lift_comp(base, types, n, *function);
            lemma_lift_restores_values(base, types, n + f_defs.len(), args);
            let (vs, vs_defs) = lift_values(base, types, n + f_defs.len(), args);
            lemma_contains_parts(f_defs, vs_defs);
            lemma_lifted_from_more(types, f_defs, defs, f, *function);
            lemma_lifted_from_more_values(types, vs_defs, defs, vs, args);
        },
        Comp::Return { value } => {
            lemma_lift_restores_value(base, types, n, value);
        },
        Comp::Force { thunk, .. } => {
            lemma_lift_restores_value(base, types, n, thunk);
        },
        Comp::Def { .. } => {},
        Comp::PrimitiveCall { args, .. } => {
            lemma_lift_restores_values(base, types, n, args);
        },
        Comp::Lambda { args, body, may_have_complex_effects } => {
            lemma_lift_restores(base, types, n, *body);
            lemma_lift_free(base, types, n, *body);
            let (lifted, inner_defs) = lift_comp(base, types, n, *body);
            let lambda = Comp::Lambda { args, body: Box::new(lifted), may_have_complex_effects };
            assert(free_in_comp(lambda) == free_in_comp(c));
            let captured = sorted(free_in_comp(c));
            let name = lambda_name(base, n + inner_defs.len());
            let def = lifted_definition(captured, types, args, lifted, may_have_complex_effects);
            lemma_calls_lifted(name, captured, types, args, lifted, may_have_complex_effects);
            assert(defs == inner_defs.push((name, def)));
            assert forall|d: (Seq<char>, Definition)|
                inner_defs.contains(d) implies #[trigger] defs.contains(d) by {
                let i = inner_defs.index_of(d);
                assert(defs[i] == d);
            }
            lemma_lifted_from_more(types, inner_defs, defs, lifted, *body);
            assert(defs[inner_defs.len() as int] == (name, def));
            assert(defs.contains((name, def)));
        },
    }
}

/// Whether no later parameter has the index of the one at `k`.
pub open spec fn is_last_of_index(params: Seq<(usize, VType)>, k: int) -> bool {
    forall|j: int| k < j < params.len() ==> (#[trigger] params[j]).0 != params[k].0
}

/// Whether no parameter has the index `x`.
pub open spec fn is_no_param(params: Seq<(usize, VType)>, x: int) -> bool {
    forall|j: int| 0 <= j < params.len() ==> (#[trigger] params[j]).0 != x
}

/// A local variable has the type of the last parameter of its index, and is uniform if it is no
/// parameter.
pub proof fn lemma_local_types(def: Definition)
    requires
        forall|i: int| 0 <= i < def.args.len() ==> (#[trigger] def.args[i]).0 < def.var_bound,
    ensures
        local_types(def).len() == def.var_bound,
        forall|k: int|
            0 <= k < def.args.len() && #[trigger] is_last_of_index(def.args, k)
                ==> local_types(def)[def.args[k].0 as int] == def.args[k].1,
        forall|x: int|
            0 <= x < def.var_bound && #[trigger] is_no_param(def.args, x)
                ==> local_types(def)[x] == VType::Uniform,
{
    let start = Seq::new(def.var_bound as nat, |i: int| VType::Uniform);
    lemma_set_types_len(start, def.args);
    assert forall|k: int|
        0 <= k < def.args.len() && #[trigger] is_last_of_index(
            def.args,
            k,
        ) implies local_types(def)[def.args[k].0 as int] == def.args[k].1 by {
        lemma_type_of_param(start, def.args, k);
    }
    assert forall|x: int|
        0 <= x < def.var_bound && #[trigger] is_no_param(def.args, x) implies local_types(def)[x]
        == VType::Uniform by {
        lemma_type_of_other(start, def.args, x);
    }
}

proof fn lemma_type_of_param(types: Seq<VType>, params: Seq<(usize, VType)>, k: int)
    requires
        forall|i: int| 0 <= i < params.len() ==> (#[trigger] params[i]).0 < types.len(),
        0 <= k < params.len(),
        is_last_of_index(params, k),
    ensures
        set_types(types, params)[params[k].0 as int] == params[k].1,
    decreases params.len(),
{
    let front = params.drop_last();
    assert(params[params.len() - 1] == params.last());
    assert forall|i: int| 0 <= i < front.len() implies (#[trigger] front[i]).0 < types.len() by {
        assert(front[i] == params[i]);
    }
    lemma_set_types_len(types, front);
    if k < front.len() {
        assert(front[k] == params[k]);
        assert forall|j: int| k < j < front.len() implies (#[trigger] front[j]).0
            != front[k].0 by {
            assert(front[j] == params[j]);
        }
        lemma_type_of_param(types, front, k);
    }
}

proof fn lemma_type_of_other(types: Seq<VType>, params: Seq<(usize, VType)>, x: int)
    requires
        forall|i: int| 0 <= i < params.len() ==> (#[trigger] params[i]).0 < types.len(),
        0 <= x < types.len(),
        is_no_param(params, x),
    ensures
        set_types(types, params)[x] == types[x],
    decreases params.len(),
{
    if params.len() > 0 {
        let front = params.drop_last();
        assert(params[params.len() - 1] == params.last());
        assert forall|i: int| 0 <= i < front.len() implies (#[trigger] front[i]).0
            < types.len() by {
            assert(front[i] == params[i]);
        }
        lemma_set_types_len(types, front);
        assert forall|j: int| 0 <= j < front.len() implies (#[trigger] front[j]).0 != x by {
            assert(front[j] == params[j]);
        }
        lemma_type_of_other(types, front, x);
    }
}

/// What is lifted out of a definition takes a parameter `x` of the definition that it captures as a
/// parameter `x` of the same type, and anything else that it captures as uniform.
pub proof fn lemma_captured_types(
    def: Definition,
    d: (Seq<char>, Definition),
    call: Comp,
    captured: Seq<usize>,
    params: Seq<(usize, VType)>,
    effects: bool,
)
    requires
        forall|i: int| 0 <= i < def.args.len() ==> (#[trigger] def.args[i]).0 < def.var_bound,
        forall|i: int| 0 <= i < captured.len() ==> #[trigger] captured[i] < def.var_bound,
        calls_lifted(local_types(def), d, call, captured, params, effects),
    ensures
        forall|i: int, k: int|
            0 <= i < captured.len() && 0 <= k < def.args.len() && captured[i] == def.args[k].0
                && is_last_of_index(def.args, k) ==> #[trigger] d.1.args[i]
                == #[trigger] def.args[k],
        forall|i: int|
            0 <= i < captured.len() && is_no_param(def.args, captured[i] as int)
                ==> #[trigger] d.1.args[i] == (captured[i], VType::Uniform),
{
    lemma_local_types(def);
    assert forall|i: int| 0 <= i < captured.len() implies (#[trigger] d.1.args[i]).0
        == captured[i] by {
        let front = d.1.args.take(captured.len() as int);
        assert(front[i] == d.1.args[i]);
        assert(indexes_of(front)[i] == captured[i]);
    }
}

} // verus!
