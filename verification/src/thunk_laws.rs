//! What lifting thunks leaves of a definition, and what becomes of the thunks.
use crate::ast::binding::{bound_in_definition, has_distinct_vars, indexes_from};
use crate::ast::free_var::{free_in_comp, sorted};
use crate::ast::lifter::{captured_params, lemma_sorted_in_order, lifted_call};
use crate::ast::lifting;
use crate::ast::lifting::{is_last_of_index, is_no_param, is_plain_call};
use crate::ast::passes::{joined, lemma_joined};
use crate::ast::reading::{lemma_normalized_reads_alike, read};
use crate::ast::scope::alike_definitions;
use crate::ast::signature::distinct_names;
use crate::ast::term::{CType, Comp, VType, Value};
use crate::signature::{
    lift_comp, lift_value, lift_values, lifted, local_types, params_fit, renamable,
    rename_definition, thunk_definition, thunk_definitions, thunk_name, thunks_of_comp,
    thunks_of_value, thunks_of_values, with_distinct_vars, with_lifted_bodies, with_lifted_thunks,
    with_normal_redexes, Definition,
};
use crate::signature_laws::{
    flavored, is_closed, lemma_normalized, lemma_renamed, lemma_renamed_distinct, normal_redexes,
};
use vstd::prelude::*;

verus! {

/// Whether `call` calls the definition `d` with the free variables of `body`, in ascending order,
/// and that definition takes these, of the types that `types` tells, and does what `body` does.
pub open spec fn calls_thunk(
    types: Seq<VType>,
    d: (Seq<char>, Definition),
    call: Comp,
    body: Comp,
    effects: bool,
) -> bool {
    let captured = sorted(free_in_comp(body));
    &&& call matches Comp::Redex { function, args }
    &&& *function == (Comp::Def { name: d.0, may_have_complex_effects: effects })
    &&& args.len() == captured.len()
    &&& forall|i: int|
        0 <= i < args.len() ==> (#[trigger] args[i]) == (Value::Var { index: captured[i] })
    &&& d.1.args.len() == captured.len()
    &&& forall|i: int|
        0 <= i < captured.len() ==> (#[trigger] d.1.args[i]) == (
            captured[i],
            types[captured[i] as int],
        )
    &&& d.1.body == body
    &&& d.1.c_type == CType::Default
}

/// Whether the value `v` is what is left of `old` when its thunk is lifted to one of `defs`; see
/// [`thunks_lifted`].
pub open spec fn thunk_lifted(
    types: Seq<VType>,
    defs: Seq<(Seq<char>, Definition)>,
    v: Value,
    old: Value,
) -> bool {
    match old {
        Value::Thunk { t, may_have_complex_effects } => if is_plain_call(*t) {
            v == old
        } else {
            &&& v matches Value::Thunk { t: call, may_have_complex_effects: e }
            &&& e == may_have_complex_effects
            &&& exists|d: (Seq<char>, Definition)|
                #![trigger defs.contains(d)]
                defs.contains(d) && calls_thunk(types, d, *call, *t, may_have_complex_effects)
        },
        _ => v == old,
    }
}

/// Whether the values `vs` are what is left of `old` when thunks are lifted to `defs`; see
/// [`thunks_lifted`].
pub open spec fn all_thunks_lifted(
    types: Seq<VType>,
    defs: Seq<(Seq<char>, Definition)>,
    vs: Seq<Value>,
    old: Seq<Value>,
) -> bool {
    &&& vs.len() == old.len()
    &&& forall|i: int| 0 <= i < old.len() ==> thunk_lifted(types, defs, vs[i], #[trigger] old[i])
}

/// Whether the computation `c` is what is left of `old` when its thunks are lifted to `defs`: where
/// `old` has a thunk of something other than a plain call, `c` has a thunk of a call of the
/// definition that does what the thunk does. All else is the same.
pub open spec fn thunks_lifted(
    types: Seq<VType>,
    defs: Seq<(Seq<char>, Definition)>,
    c: Comp,
    old: Comp,
) -> bool
    decreases old,
{
    match old {
        Comp::Redex { function, args } => {
            &&& c matches Comp::Redex { function: f, args: vs }
            &&& thunks_lifted(types, defs, *f, *function)
            &&& all_thunks_lifted(types, defs, vs, args)
        },
        Comp::Return { value } => {
            &&& c matches Comp::Return { value: v }
            &&& thunk_lifted(types, defs, v, value)
        },
        Comp::Force { thunk, may_have_complex_effects } => {
            &&& c matches Comp::Force { thunk: v, may_have_complex_effects: e }
            &&& e == may_have_complex_effects
            &&& thunk_lifted(types, defs, v, thunk)
        },
        Comp::Def { .. } => c == old,
        Comp::PrimitiveCall { name, args } => {
            &&& c matches Comp::PrimitiveCall { name: m, args: vs }
            &&& m == name
            &&& all_thunks_lifted(types, defs, vs, args)
        },
        Comp::Lambda { args, body, may_have_complex_effects } => {
            &&& c matches Comp::Lambda { args: ps, body: b, may_have_complex_effects: e }
            &&& ps == args
            &&& e == may_have_complex_effects
            &&& thunks_lifted(types, defs, *b, *body)
        },
    }
}

/// How many of `vs` are thunks of something other than a plain call.
pub open spec fn count_thunks(vs: Seq<Value>) -> nat
    decreases vs.len(),
{
    if vs.len() == 0 {
        0
    } else {
        let rest = count_thunks(vs.drop_last());
        match vs.last() {
            Value::Thunk { t, .. } if !is_plain_call(*t) => rest + 1,
            _ => rest,
        }
    }
}

/// How many values directly in `c` are thunks of something other than a plain call.
pub open spec fn count_thunks_of(c: Comp) -> nat
    decreases c,
{
    match c {
        Comp::Redex { function, args } => count_thunks_of(*function) + count_thunks(args),
        Comp::Return { value } => count_thunks(seq![value]),
        Comp::Force { thunk, .. } => count_thunks(seq![thunk]),
        Comp::Def { .. } => 0,
        Comp::PrimitiveCall { args, .. } => count_thunks(args),
        Comp::Lambda { body, .. } => count_thunks_of(*body),
    }
}

/// Whether each of `part` is one of `defs`.
spec fn part_of(
    part: Seq<(Seq<char>, Definition)>,
    defs: Seq<(Seq<char>, Definition)>,
) -> bool {
    forall|d: (Seq<char>, Definition)| part.contains(d) ==> #[trigger] defs.contains(d)
}

proof fn lemma_thunk_lifted_more(
    types: Seq<VType>,
    defs: Seq<(Seq<char>, Definition)>,
    more: Seq<(Seq<char>, Definition)>,
    v: Value,
    old: Value,
)
    requires
        thunk_lifted(types, defs, v, old),
        part_of(defs, more),
    ensures
        thunk_lifted(types, more, v, old),
{
    if let Value::Thunk { t, may_have_complex_effects } = old {
        if !is_plain_call(*t) {
            let call = v->Thunk_t;
            let d = choose|d: (Seq<char>, Definition)|
                #![trigger defs.contains(d)]
                defs.contains(d) && calls_thunk(types, d, *call, *t, may_have_complex_effects);
            assert(more.contains(d));
        }
    }
}

proof fn lemma_all_thunks_lifted_more(
    types: Seq<VType>,
    defs: Seq<(Seq<char>, Definition)>,
    more: Seq<(Seq<char>, Definition)>,
    vs: Seq<Value>,
    old: Seq<Value>,
)
    requires
        all_thunks_lifted(types, defs, vs, old),
        part_of(defs, more),
    ensures
        all_thunks_lifted(types, more, vs, old),
{
    assert forall|i: int| 0 <= i < old.len() implies thunk_lifted(
        types,
        more,
        vs[i],
        #[trigger] old[i],
    ) by {
        lemma_thunk_lifted_more(types, defs, more, vs[i], old[i]);
    }
}

/// More definitions do no harm.
proof fn lemma_thunks_lifted_more(
    types: Seq<VType>,
    defs: Seq<(Seq<char>, Definition)>,
    more: Seq<(Seq<char>, Definition)>,
    c: Comp,
    old: Comp,
)
    requires
        thunks_lifted(types, defs, c, old),
        part_of(defs, more),
    ensures
        thunks_lifted(types, more, c, old),
    decreases old,
{
    match old {
        Comp::Redex { function, args } => {
            lemma_thunks_lifted_more(types, defs, more, *c->Redex_function, *function);
            lemma_all_thunks_lifted_more(types, defs, more, c->Redex_args, args);
        },
        Comp::Return { value } => {
            lemma_thunk_lifted_more(types, defs, more, c->value, value);
        },
        Comp::Force { thunk, .. } => {
            lemma_thunk_lifted_more(types, defs, more, c->thunk, thunk);
        },
        Comp::Def { .. } => {},
        Comp::PrimitiveCall { args, .. } => {
            lemma_all_thunks_lifted_more(types, defs, more, c->PrimitiveCall_args, args);
        },
        Comp::Lambda { body, .. } => {
            lemma_thunks_lifted_more(types, defs, more, *c->Lambda_body, *body);
        },
    }
}

/// What two parts of a sequence of thunks become are parts of what the whole becomes.
proof fn lemma_thunk_definitions_of_parts(
    base: Seq<char>,
    types: Seq<VType>,
    n: nat,
    first: Seq<Value>,
    second: Seq<Value>,
)
    ensures
        part_of(
            thunk_definitions(base, types, n, first),
            thunk_definitions(base, types, n, first + second),
        ),
        part_of(
            thunk_definitions(base, types, n + first.len(), second),
            thunk_definitions(base, types, n, first + second),
        ),
{
    let all = thunk_definitions(base, types, n, first + second);
    let front = thunk_definitions(base, types, n, first);
    let back = thunk_definitions(base, types, n + first.len(), second);
    assert(all =~= front + back);
    assert forall|d: (Seq<char>, Definition)| front.contains(d) implies #[trigger] all.contains(
        d,
    ) by {
        let i = front.index_of(d);
        assert(all[i] == d);
    }
    assert forall|d: (Seq<char>, Definition)| back.contains(d) implies #[trigger] all.contains(
        d,
    ) by {
        let i = back.index_of(d);
        assert(all[front.len() + i] == d);
    }
}

proof fn lemma_value_lifted(base: Seq<char>, types: Seq<VType>, n: nat, v: Value)
    ensures
        thunk_lifted(
            types,
            thunk_definitions(base, types, n, thunks_of_value(v)),
            lift_value(base, n, v),
            v,
        ),
        thunks_of_value(v).len() == count_thunks(seq![v]),
{
    assert(seq![v].drop_last() =~= Seq::<Value>::empty());
    reveal_with_fuel(count_thunks, 2);
    if let Value::Thunk { t, may_have_complex_effects } = v {
        if !is_plain_call(*t) {
            let defs = thunk_definitions(base, types, n, thunks_of_value(v));
            let captured = sorted(free_in_comp(*t));
            let d = (thunk_name(base, n), thunk_definition(captured, types, *t));
            assert(defs[0] == d);
            assert(defs.contains(d));
            let call = lifted_call(thunk_name(base, n), captured, may_have_complex_effects);
            assert(d.1.args == captured_params(captured, types));
            assert(calls_thunk(types, d, call, *t, may_have_complex_effects));
        }
    }
}

proof fn lemma_values_lifted(base: Seq<char>, types: Seq<VType>, n: nat, vs: Seq<Value>)
    ensures
        all_thunks_lifted(
            types,
            thunk_definitions(base, types, n, thunks_of_values(vs)),
            lift_values(base, n, vs),
            vs,
        ),
        thunks_of_values(vs).len() == count_thunks(vs),
    decreases vs.len(),
{
    if vs.len() > 0 {
        let front = vs.drop_last();
        let first = thunks_of_values(front);
        let second = thunks_of_value(vs.last());
        let new = lift_values(base, n, vs);
        let defs = thunk_definitions(base, types, n, first + second);
        lemma_values_lifted(base, types, n, front);
        lemma_value_lifted(base, types, n + first.len(), vs.last());
        assert(seq![vs.last()].drop_last() =~= Seq::<Value>::empty());
        reveal_with_fuel(count_thunks, 2);
        lemma_thunk_definitions_of_parts(base, types, n, first, second);
        lemma_all_thunks_lifted_more(
            types,
            thunk_definitions(base, types, n, first),
            defs,
            lift_values(base, n, front),
            front,
        );
        lemma_thunk_lifted_more(
            types,
            thunk_definitions(base, types, n + first.len(), second),
            defs,
            new.last(),
            vs.last(),
        );
        assert forall|i: int| 0 <= i < vs.len() implies thunk_lifted(
            types,
            defs,
            new[i],
            #[trigger] vs[i],
        ) by {
            if i < front.len() {
                assert(front[i] == vs[i]);
                assert(new[i] == lift_values(base, n, front)[i]);
            }
        }
    }
}

/// Lifting thunks changes nothing but thunks: every node of a computation stays what it is, with
/// its flag, name or parameters, and in place of every thunk of something other than a plain call
/// there is one of a call of the definition that does what the thunk did. There are as many
/// definitions as such thunks.
pub proof fn lemma_thunks_lifted(base: Seq<char>, types: Seq<VType>, n: nat, c: Comp)
    ensures
        ({
            let defs = thunk_definitions(base, types, n, thunks_of_comp(c));
            &&& thunks_lifted(types, defs, lift_comp(base, n, c), c)
            &&& defs.len() == count_thunks_of(c)
        }),
    decreases c,
{
    match c {
        Comp::Redex { function, args } => {
            let first = thunks_of_comp(*function);
            let second = thunks_of_values(args);
            let defs = thunk_definitions(base, types, n, first + second);
            lemma_thunks_lifted(base, types, n, *function);
            lemma_values_lifted(base, types, n + first.len(), args);
            lemma_thunk_definitions_of_parts(base, types, n, first, second);
            lemma_thunks_lifted_more(
                types,
                thunk_definitions(base, types, n, first),
                defs,
                lift_comp(base, n, *function),
                *function,
            );
            lemma_all_thunks_lifted_more(
                types,
                thunk_definitions(base, types, n + first.len(), second),
                defs,
                lift_values(base, n + first.len(), args),
                args,
            );
        },
        Comp::Return { value } => {
            lemma_value_lifted(base, types, n, value);
        },
        Comp::Force { thunk, .. } => {
            lemma_value_lifted(base, types, n, thunk);
        },
        Comp::Def { .. } => {},
        Comp::PrimitiveCall { args, .. } => {
            lemma_values_lifted(base, types, n, args);
        },
        Comp::Lambda { body, .. } => {
            lemma_thunks_lifted(base, types, n, *body);
        },
    }
}

proof fn lemma_no_thunks_in(
    types: Seq<VType>,
    defs: Seq<(Seq<char>, Definition)>,
    vs: Seq<Value>,
    old: Seq<Value>,
)
    requires
        all_thunks_lifted(types, defs, vs, old),
        count_thunks(old) == 0,
    ensures
        vs == old,
    decreases old.len(),
{
    if old.len() > 0 {
        assert forall|i: int| 0 <= i < old.drop_last().len() implies thunk_lifted(
            types,
            defs,
            vs.drop_last()[i],
            #[trigger] old.drop_last()[i],
        ) by {
            assert(old.drop_last()[i] == old[i]);
        }
        lemma_no_thunks_in(types, defs, vs.drop_last(), old.drop_last());
        assert(thunk_lifted(types, defs, vs[old.len() - 1], old[old.len() - 1]));
        assert(vs =~= vs.drop_last().push(vs.last()));
        assert(old =~= old.drop_last().push(old.last()));
    }
}

/// What has no thunk of anything but a plain call is unchanged when thunks are lifted.
proof fn lemma_same_without_thunks(
    types: Seq<VType>,
    defs: Seq<(Seq<char>, Definition)>,
    c: Comp,
    old: Comp,
)
    requires
        thunks_lifted(types, defs, c, old),
        count_thunks_of(old) == 0,
    ensures
        c == old,
    decreases old,
{
    match old {
        Comp::Redex { function, args } => {
            lemma_same_without_thunks(types, defs, *c->Redex_function, *function);
            lemma_no_thunks_in(types, defs, c->Redex_args, args);
        },
        Comp::Return { value } => {
            assert(seq![value].drop_last() =~= Seq::<Value>::empty());
            assert(seq![value].last() == value);
            reveal_with_fuel(count_thunks, 2);
        },
        Comp::Force { thunk, .. } => {
            assert(seq![thunk].drop_last() =~= Seq::<Value>::empty());
            assert(seq![thunk].last() == thunk);
            reveal_with_fuel(count_thunks, 2);
        },
        Comp::Def { .. } => {},
        Comp::PrimitiveCall { args, .. } => {
            lemma_no_thunks_in(types, defs, c->PrimitiveCall_args, args);
        },
        Comp::Lambda { body, .. } => {
            lemma_same_without_thunks(types, defs, *c->Lambda_body, *body);
        },
    }
}

/// A computation without a thunk of anything but a plain call stays as it is, and nothing is lifted
/// out of it.
pub proof fn lemma_nothing_to_lift(base: Seq<char>, n: nat, c: Comp)
    requires
        count_thunks_of(c) == 0,
    ensures
        lift_comp(base, n, c) == c,
        thunks_of_comp(c) == Seq::<Value>::empty(),
{
    let types = Seq::empty();
    lemma_thunks_lifted(base, types, n, c);
    let defs = thunk_definitions(base, types, n, thunks_of_comp(c));
    assert(thunks_of_comp(c) =~= Seq::empty());
    lemma_same_without_thunks(types, defs, lift_comp(base, n, c), c);
}

/// A local variable has the type of the last parameter of its index, and is uniform if it is no
/// parameter. So what is lifted out of a definition takes what it captures with these types; see
/// [`lemma_thunks_lifted`].
pub proof fn lemma_local_types(def: Definition)
    requires
        params_fit(def),
    ensures
        local_types(def).len() == def.var_bound,
        forall|k: int|
            0 <= k < def.args.len() && #[trigger] is_last_of_index(def.args, k)
                ==> local_types(def)[def.args[k].0 as int] == def.args[k].1,
        forall|x: int|
            0 <= x < def.var_bound && #[trigger] is_no_param(def.args, x)
                ==> local_types(def)[x] == VType::Uniform,
{
    lifting::lemma_local_types(flavored(def));
}

/// What is lifted out of a definition takes a parameter `x` of the definition that it captures as a
/// parameter `x` of the same type, and anything else that it captures as uniform.
pub proof fn lemma_captured_types(
    def: Definition,
    d: (Seq<char>, Definition),
    call: Comp,
    body: Comp,
    effects: bool,
)
    requires
        params_fit(def),
        forall|x: usize| #[trigger] free_in_comp(body).contains(x) ==> x < def.var_bound,
        calls_thunk(local_types(def), d, call, body, effects),
    ensures
        d.1.args.len() == sorted(free_in_comp(body)).len(),
        forall|i: int, k: int|
            0 <= i < d.1.args.len() && 0 <= k < def.args.len() && d.1.args[i].0 == def.args[k].0
                && is_last_of_index(def.args, k) ==> #[trigger] d.1.args[i]
                == #[trigger] def.args[k],
        forall|i: int|
            0 <= i < d.1.args.len() && is_no_param(def.args, d.1.args[i].0 as int)
                ==> (#[trigger] d.1.args[i]).1 == VType::Uniform,
{
    let captured = sorted(free_in_comp(body));
    lemma_local_types(def);
    lemma_sorted_in_order(free_in_comp(body));
    assert forall|i: int| 0 <= i < captured.len() implies #[trigger] captured[i]
        < def.var_bound by {
        assert(free_in_comp(body).contains(captured[i]));
    }
}

/// Normalizing is done in every definition, and changes nothing but how many arguments are given at
/// once in its body.
pub proof fn lemma_normalized_all(defs: Seq<(Seq<char>, Definition)>)
    ensures
        with_normal_redexes(defs).len() == defs.len(),
        forall|i: int|
            0 <= i < defs.len() ==> {
                let (name, new) = with_normal_redexes(defs)[i];
                &&& name == (#[trigger] defs[i]).0
                &&& new == (Definition { body: new.body, ..defs[i].1 })
                &&& normal_redexes(new.body)
                &&& read(true, new.body) == read(true, defs[i].1.body)
            },
{
    assert forall|i: int| 0 <= i < defs.len() implies {
        let (name, new) = with_normal_redexes(defs)[i];
        &&& name == (#[trigger] defs[i]).0
        &&& new == (Definition { body: new.body, ..defs[i].1 })
        &&& normal_redexes(new.body)
        &&& read(true, new.body) == read(true, defs[i].1.body)
    } by {
        lemma_normalized(defs[i].1.body);
        lemma_normalized_reads_alike(defs[i].1.body);
    }
}

/// Whether `new` are the definitions `old` with distinct local variables, which are numbered. They
/// differ in nothing but the names of these, if they bind them all.
pub open spec fn renamed_all(
    old: Seq<(Seq<char>, Definition)>,
    new: Seq<(Seq<char>, Definition)>,
) -> bool {
    &&& new.len() == old.len()
    &&& forall|i: int|
        0 <= i < old.len() ==> {
            &&& (#[trigger] old[i]).0 == new[i].0
            &&& renamable(old[i].1) ==> {
                &&& has_distinct_vars(flavored(new[i].1))
                &&& bound_in_definition(flavored(new[i].1)) == indexes_from(0, new[i].1.var_bound)
                &&& is_closed(old[i].1) ==> alike_definitions(
                    flavored(old[i].1),
                    flavored(new[i].1),
                )
            }
        }
}

/// Every definition is renamed.
pub proof fn lemma_renamed_all(defs: Seq<(Seq<char>, Definition)>)
    ensures
        renamed_all(defs, with_distinct_vars(defs)),
{
    let new = with_distinct_vars(defs);
    assert forall|i: int| 0 <= i < defs.len() implies {
        &&& (#[trigger] defs[i]).0 == new[i].0
        &&& renamable(defs[i].1) ==> {
            &&& has_distinct_vars(flavored(new[i].1))
            &&& bound_in_definition(flavored(new[i].1)) == indexes_from(0, new[i].1.var_bound)
            &&& is_closed(defs[i].1) ==> alike_definitions(
                flavored(defs[i].1),
                flavored(new[i].1),
            )
        }
    } by {
        let def = defs[i].1;
        assert(new[i].1 == rename_definition(def));
        if renamable(def) {
            lemma_renamed_distinct(def);
            if is_closed(def) {
                lemma_renamed(def);
            }
        }
    }
}

proof fn lemma_thunks_of_each(defs: Seq<(Seq<char>, Definition)>, i: int)
    requires
        0 <= i < defs.len(),
    ensures
        part_of(
            thunk_definitions(defs[i].0, local_types(defs[i].1), 0, thunks_of_comp(defs[i].1.body)),
            lifted(defs),
        ),
    decreases defs.len(),
{
    let front = defs.drop_last();
    let first = lifted(front);
    let (name, def) = defs.last();
    let second = thunk_definitions(name, local_types(def), 0, thunks_of_comp(def.body));
    let all = lifted(defs);
    assert(all == first + second);
    let part = thunk_definitions(
        defs[i].0,
        local_types(defs[i].1),
        0,
        thunks_of_comp(defs[i].1.body),
    );
    if i < front.len() {
        lemma_thunks_of_each(front, i);
        assert(front[i] == defs[i]);
    }
    assert forall|d: (Seq<char>, Definition)| part.contains(d) implies #[trigger] all.contains(
        d,
    ) by {
        if i < front.len() {
            assert(first.contains(d));
            let k = first.index_of(d);
            assert(all[k] == d);
        } else {
            let k = second.index_of(d);
            assert(all[first.len() + k] == d);
        }
    }
}

/// The definitions between the steps of lifting thunks.
pub struct Stages {
    /// With distinct local variables.
    pub distinct: Seq<(Seq<char>, Definition)>,
    /// With thunks lifted.
    pub flat: Seq<(Seq<char>, Definition)>,
    /// What the thunks become.
    pub lifted: Seq<(Seq<char>, Definition)>,
    /// This with distinct local variables.
    pub distinct_lifted: Seq<(Seq<char>, Definition)>,
}

/// To lift thunks is to make the local variables of all definitions distinct, to lift the thunks
/// out of each, and to join with them what these become, with distinct local variables as well.
pub proof fn lemma_lifted_in_stages(defs: Seq<(Seq<char>, Definition)>) -> (s: Stages)
    requires
        distinct_names(defs),
    ensures
        renamed_all(defs, s.distinct),
        s.flat.len() == defs.len(),
        forall|i: int|
            0 <= i < defs.len() ==> {
                let (name, def) = s.distinct[i];
                let (new_name, new) = #[trigger] s.flat[i];
                &&& new_name == name
                &&& new == (Definition { body: new.body, ..def })
                &&& thunks_lifted(local_types(def), s.lifted, new.body, def.body)
            },
        renamed_all(s.lifted, s.distinct_lifted),
        joined(s.flat, s.distinct_lifted, with_lifted_thunks(defs)),
{
    let distinct = with_distinct_vars(defs);
    let flat = with_lifted_bodies(distinct);
    let added = lifted(distinct);
    lemma_renamed_all(defs);
    lemma_renamed_all(added);
    assert forall|i: int| 0 <= i < defs.len() implies {
        let (name, def) = distinct[i];
        let (new_name, new) = #[trigger] flat[i];
        &&& new_name == name
        &&& new == (Definition { body: new.body, ..def })
        &&& thunks_lifted(local_types(def), added, new.body, def.body)
    } by {
        let (name, def) = distinct[i];
        let types = local_types(def);
        lemma_thunks_lifted(name, types, 0, def.body);
        lemma_thunks_of_each(distinct, i);
        lemma_thunks_lifted_more(
            types,
            thunk_definitions(name, types, 0, thunks_of_comp(def.body)),
            added,
            lift_comp(name, 0, def.body),
            def.body,
        );
    }
    assert forall|i: int, j: int| 0 <= i < j < flat.len() implies (#[trigger] flat[i]).0 != (
    #[trigger] flat[j]).0 by {
        assert(flat[i].0 == defs[i].0 && flat[j].0 == defs[j].0);
    }
    lemma_joined(flat, with_distinct_vars(added));
    Stages { distinct, flat, lifted: added, distinct_lifted: with_distinct_vars(added) }
}

} // verus!
