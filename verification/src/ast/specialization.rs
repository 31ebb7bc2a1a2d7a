//! What specializing calls of primitive functions leaves of a definition, and what wrappers do.
use crate::ast::optimization::arities_fit;
use crate::ast::primitive_functions::Primitive;
use crate::ast::signature::Definition;
use crate::ast::specializer::{
    arity, calls_fit, calls_fit_in_value, calls_fit_in_values, is_primitive, specialize_comp,
    specialize_value, specialize_values, wrapper, wrapper_name, wrappers_of_comp,
    wrappers_of_value, wrappers_of_values,
};
use crate::ast::substitutor::{pair_up, substitute, substitute_in_values};
use crate::ast::term::{CType, Comp, VType, Value};
use vstd::prelude::*;

verus! {

/// Whether `def` does what the primitive function `name` does, whatever values it is given: it
/// takes as many of them, of the same types, and its body is the call of that function with these.
/// It returns a value of the type that the function returns, and has no complex effects.
pub open spec fn wraps(def: Definition, name: Seq<char>, primitive: Primitive) -> bool {
    &&& def.args.len() == primitive.arg_types.len()
    &&& forall|i: int|
        0 <= i < def.args.len() ==> {
            &&& (#[trigger] def.args[i]).1 == primitive.arg_types[i]
            &&& def.args[i].0 < def.var_bound
        }
    &&& forall|vs: Seq<Value>|
        vs.len() == def.args.len() ==> #[trigger] substitute(
            pair_up(def.args, vs, vs.len()),
            def.body,
        ) == (Comp::PrimitiveCall { name, args: vs })
    &&& def.c_type == CType::SpecializedF(primitive.return_type)
    &&& def.may_be_simple
    &&& !def.may_be_complex
}

/// Whether the value `v` is what is left of `old` when calls are specialized; see
/// [`specialized`].
pub open spec fn specialized_value(
    prims: Map<Seq<char>, Primitive>,
    wrappers: Seq<(Seq<char>, Definition)>,
    v: Value,
    old: Value,
) -> bool
    decreases old,
{
    match old {
        Value::Thunk { t, may_have_complex_effects } => {
            &&& v matches Value::Thunk { t: c, may_have_complex_effects: e }
            &&& e == may_have_complex_effects
            &&& specialized(prims, wrappers, *c, *t)
        },
        _ => v == old,
    }
}

/// Whether the values `vs` are what is left of `old` when calls are specialized; see
/// [`specialized`].
pub open spec fn specialized_values(
    prims: Map<Seq<char>, Primitive>,
    wrappers: Seq<(Seq<char>, Definition)>,
    vs: Seq<Value>,
    old: Seq<Value>,
) -> bool
    decreases old,
{
    &&& vs.len() == old.len()
    &&& forall|i: int|
        0 <= i < old.len() ==> specialized_value(prims, wrappers, vs[i], #[trigger] old[i])
}

/// Whether the computation `c` is what is left of `old` when calls of primitive functions are
/// specialized: one with fewer arguments than the function takes is a call of one of `wrappers`,
/// which wraps that function, and any other is a primitive call. All else is the same.
pub open spec fn specialized(
    prims: Map<Seq<char>, Primitive>,
    wrappers: Seq<(Seq<char>, Definition)>,
    c: Comp,
    old: Comp,
) -> bool
    decreases old,
{
    match old {
        Comp::Redex { function, args } => match *function {
            Comp::Def { name, .. } if prims.contains_key(name) => if args.len()
                < prims[name].arg_types.len() {
                &&& c matches Comp::Redex { function: f, args: vs }
                &&& *f matches Comp::Def { name: w, may_have_complex_effects: e }
                &&& !e
                &&& exists|d: (Seq<char>, Definition)|
                    #![trigger wrappers.contains(d)]
                    wrappers.contains(d) && d.0 == w && wraps(d.1, name, prims[name])
                &&& specialized_values(prims, wrappers, vs, args)
            } else {
                &&& c matches Comp::PrimitiveCall { name: m, args: vs }
                &&& m == name
                &&& specialized_values(prims, wrappers, vs, args)
            },
            _ => {
                &&& c matches Comp::Redex { function: f, args: vs }
                &&& specialized(prims, wrappers, *f, *function)
                &&& specialized_values(prims, wrappers, vs, args)
            },
        },
        Comp::Return { value } => {
            &&& c matches Comp::Return { value: v }
            &&& specialized_value(prims, wrappers, v, value)
        },
        Comp::Force { thunk, may_have_complex_effects } => {
            &&& c matches Comp::Force { thunk: v, may_have_complex_effects: e }
            &&& e == may_have_complex_effects
            &&& specialized_value(prims, wrappers, v, thunk)
        },
        Comp::Def { .. } => c == old,
        Comp::PrimitiveCall { name, args } => {
            &&& c matches Comp::PrimitiveCall { name: m, args: vs }
            &&& m == name
            &&& specialized_values(prims, wrappers, vs, args)
        },
        Comp::Lambda { args, body, may_have_complex_effects } => {
            &&& c matches Comp::Lambda { args: ps, body: b, may_have_complex_effects: e }
            &&& ps == args
            &&& e == may_have_complex_effects
            &&& specialized(prims, wrappers, *b, *body)
        },
    }
}

/// Each of the first `k` parameters stands for the argument at its place, if no later one has its
/// index.
pub proof fn lemma_paired_in_order(
    params: Seq<(usize, VType)>,
    args: Seq<Value>,
    k: nat,
    i: int,
)
    requires
        0 <= i < k <= params.len(),
        k <= args.len(),
        forall|j: int| i < j < k ==> (#[trigger] params[j]).0 != params[i].0,
    ensures
        pair_up(params, args, k).contains_key(params[i].0),
        pair_up(params, args, k)[params[i].0] == args[i],
    decreases k,
{
    if i < k - 1 {
        lemma_paired_in_order(params, args, (k - 1) as nat, i);
        assert(params[k - 1].0 != params[i].0);
    }
}

/// A wrapper does what the primitive function does.
pub proof fn lemma_wrapper_wraps(name: Seq<char>, primitive: Primitive)
    requires
        primitive.arg_types.len() <= usize::MAX,
    ensures
        wraps(wrapper(name, primitive), name, primitive),
{
    let def = wrapper(name, primitive);
    let vars = def.body->PrimitiveCall_args;
    assert forall|vs: Seq<Value>| vs.len() == def.args.len() implies #[trigger] substitute(
        pair_up(def.args, vs, vs.len()),
        def.body,
    ) == (Comp::PrimitiveCall { name, args: vs }) by {
        let bindings = pair_up(def.args, vs, vs.len());
        assert forall|i: int| 0 <= i < vs.len() implies substitute_in_values(bindings, vars)[i]
            == vs[i] by {
            lemma_paired_in_order(def.args, vs, vs.len(), i);
            assert(vars[i] == (Value::Var { index: def.args[i].0 }));
        }
        assert(substitute_in_values(bindings, vars) =~= vs);
    }
}

/// Whether each of `part` is one of `defs`.
pub open spec fn part_of(
    part: Seq<(Seq<char>, Definition)>,
    defs: Seq<(Seq<char>, Definition)>,
) -> bool {
    forall|d: (Seq<char>, Definition)| part.contains(d) ==> #[trigger] defs.contains(d)
}

/// Two sequences are parts of both together.
pub proof fn lemma_parts(a: Seq<(Seq<char>, Definition)>, b: Seq<(Seq<char>, Definition)>)
    ensures
        part_of(a, a + b),
        part_of(b, a + b),
{
    let all = a + b;
    assert forall|d: (Seq<char>, Definition)| a.contains(d) implies #[trigger] all.contains(d) by {
        let i = a.index_of(d);
        assert(all[i] == d);
    }
    assert forall|d: (Seq<char>, Definition)| b.contains(d) implies #[trigger] all.contains(d) by {
        let i = b.index_of(d);
        assert(all[a.len() + i] == d);
    }
}

proof fn lemma_specialized_as_told_value(
    prims: Map<Seq<char>, Primitive>,
    base: Seq<char>,
    all: Seq<(Seq<char>, Definition)>,
    v: Value,
)
    requires
        arities_fit(prims),
        part_of(wrappers_of_value(prims, base, v), all),
    ensures
        specialized_value(prims, all, specialize_value(prims, base, v), v),
    decreases v,
{
    if let Value::Thunk { t, .. } = v {
        lemma_specialized_as_told(prims, base, all, *t);
    }
}

proof fn lemma_specialized_as_told_values(
    prims: Map<Seq<char>, Primitive>,
    base: Seq<char>,
    all: Seq<(Seq<char>, Definition)>,
    vs: Seq<Value>,
)
    requires
        arities_fit(prims),
        part_of(wrappers_of_values(prims, base, vs), all),
    ensures
        specialized_values(prims, all, specialize_values(prims, base, vs), vs),
    decreases vs,
{
    if vs.len() > 0 {
        let front = vs.drop_last();
        let new = specialize_values(prims, base, vs);
        lemma_parts(
            wrappers_of_values(prims, base, front),
            wrappers_of_value(prims, base, vs.last()),
        );
        assert(part_of(wrappers_of_values(prims, base, front), all));
        assert(part_of(wrappers_of_value(prims, base, vs.last()), all));
        lemma_specialized_as_told_values(prims, base, all, front);
        lemma_specialized_as_told_value(prims, base, all, vs.last());
        assert forall|i: int| 0 <= i < vs.len() implies specialized_value(
            prims,
            all,
            new[i],
            #[trigger] vs[i],
        ) by {
            if i < front.len() {
                assert(front[i] == vs[i]);
                assert(new[i] == specialize_values(prims, base, front)[i]);
            }
        }
    }
}

/// Specializing changes nothing but calls of primitive functions; see [`specialized`]. The wrappers
/// that this takes are among those of `all`, if these hold all that the calls need.
pub proof fn lemma_specialized_as_told(
    prims: Map<Seq<char>, Primitive>,
    base: Seq<char>,
    all: Seq<(Seq<char>, Definition)>,
    c: Comp,
)
    requires
        arities_fit(prims),
        part_of(wrappers_of_comp(prims, base, c), all),
    ensures
        specialized(prims, all, specialize_comp(prims, base, c), c),
    decreases c,
{
    match c {
        Comp::Redex { function, args } => {
            let first = wrappers_of_comp(prims, base, *function);
            let second = wrappers_of_values(prims, base, args);
            let needed = wrappers_of_comp(prims, base, c);
            lemma_parts(first, second);
            if is_primitive(prims, *function) && args.len() < arity(prims, *function) {
                let name = function->Def_name;
                let d = (wrapper_name(base), wrapper(name, prims[name]));
                lemma_parts(first + second, seq![d]);
                assert(needed =~= first + second + seq![d]);
                assert(needed[needed.len() - 1] == d);
                assert(needed.contains(d));
                assert(all.contains(d));
                assert(prims.contains_key(name));
                lemma_wrapper_wraps(name, prims[name]);
            }
            assert(part_of(first + second, needed));
            assert forall|d: (Seq<char>, Definition)| first.contains(d) implies #[trigger]
                all.contains(d) by {
                assert((first + second).contains(d));
                assert(needed.contains(d));
            }
            assert forall|d: (Seq<char>, Definition)| second.contains(d) implies #[trigger]
                all.contains(d) by {
                assert((first + second).contains(d));
                assert(needed.contains(d));
            }
            lemma_specialized_as_told(prims, base, all, *function);
            lemma_specialized_as_told_values(prims, base, all, args);
        },
        Comp::Return { value } => {
            lemma_specialized_as_told_value(prims, base, all, value);
        },
        Comp::Force { thunk, .. } => {
            lemma_specialized_as_told_value(prims, base, all, thunk);
        },
        Comp::Def { .. } => {},
        Comp::PrimitiveCall { args, .. } => {
            lemma_specialized_as_told_values(prims, base, all, args);
        },
        Comp::Lambda { body, .. } => {
            lemma_specialized_as_told(prims, base, all, *body);
        },
    }
}

/// Whether `part` is a part of the value `v`; see [`is_part`].
pub open spec fn is_part_of_value(part: Comp, v: Value) -> bool
    decreases v,
{
    match v {
        Value::Thunk { t, .. } => is_part(part, *t),
        _ => false,
    }
}

/// Whether `part` is a part of one of the values `vs`; see [`is_part`].
pub open spec fn is_part_of_values(part: Comp, vs: Seq<Value>) -> bool
    decreases vs,
{
    exists|i: int| 0 <= i < vs.len() && is_part_of_value(part, #[trigger] vs[i])
}

/// Whether `part` stands somewhere in the computation `c`.
pub open spec fn is_part(part: Comp, c: Comp) -> bool
    decreases c,
{
    ||| part == c
    ||| match c {
        Comp::Redex { function, args } => is_part(part, *function) || is_part_of_values(part, args),
        Comp::Return { value } => is_part_of_value(part, value),
        Comp::Force { thunk, .. } => is_part_of_value(part, thunk),
        Comp::Def { .. } => false,
        Comp::PrimitiveCall { args, .. } => is_part_of_values(part, args),
        Comp::Lambda { body, .. } => is_part(part, *body),
    }
}

/// Whether `c` is not a call of a primitive function with more arguments than the function takes,
/// or one with fewer that is marked as having complex effects.
pub open spec fn call_fits(prims: Map<Seq<char>, Primitive>, c: Comp) -> bool {
    match c {
        Comp::Redex { function, args } => match *function {
            Comp::Def { name, may_have_complex_effects } if prims.contains_key(name) => {
                let takes = prims[name].arg_types.len();
                args.len() == takes || (args.len() < takes && !may_have_complex_effects)
            },
            _ => true,
        },
        _ => true,
    }
}

proof fn lemma_part_fits_in_value(prims: Map<Seq<char>, Primitive>, part: Comp, v: Value)
    requires
        calls_fit_in_value(prims, v),
        is_part_of_value(part, v),
    ensures
        call_fits(prims, part),
    decreases v,
{
    if let Value::Thunk { t, .. } = v {
        lemma_part_fits(prims, part, *t);
    }
}

proof fn lemma_part_fits_in_values(prims: Map<Seq<char>, Primitive>, part: Comp, vs: Seq<Value>)
    requires
        calls_fit_in_values(prims, vs),
        is_part_of_values(part, vs),
    ensures
        call_fits(prims, part),
    decreases vs,
{
    let i = choose|i: int| 0 <= i < vs.len() && is_part_of_value(part, #[trigger] vs[i]);
    lemma_part_fits_in_value(prims, part, vs[i]);
}

proof fn lemma_part_fits(prims: Map<Seq<char>, Primitive>, part: Comp, c: Comp)
    requires
        calls_fit(prims, c),
        is_part(part, c),
    ensures
        call_fits(prims, part),
    decreases c,
{
    if part != c {
        match c {
            Comp::Redex { function, args } => {
                if is_part(part, *function) {
                    lemma_part_fits(prims, part, *function);
                } else {
                    lemma_part_fits_in_values(prims, part, args);
                }
            },
            Comp::Return { value } => {
                lemma_part_fits_in_value(prims, part, value);
            },
            Comp::Force { thunk, .. } => {
                lemma_part_fits_in_value(prims, part, thunk);
            },
            Comp::Def { .. } => {},
            Comp::PrimitiveCall { args, .. } => {
                lemma_part_fits_in_values(prims, part, args);
            },
            Comp::Lambda { body, .. } => {
                lemma_part_fits(prims, part, *body);
            },
        }
    }
}

proof fn lemma_parts_fit_in_value(prims: Map<Seq<char>, Primitive>, v: Value)
    requires
        forall|part: Comp| #[trigger] is_part_of_value(part, v) ==> call_fits(prims, part),
    ensures
        calls_fit_in_value(prims, v),
    decreases v,
{
    if let Value::Thunk { t, .. } = v {
        assert forall|part: Comp| #[trigger] is_part(part, *t) implies call_fits(prims, part) by {
            assert(is_part_of_value(part, v));
        }
        lemma_parts_fit(prims, *t);
    }
}

proof fn lemma_parts_fit_in_values(prims: Map<Seq<char>, Primitive>, vs: Seq<Value>)
    requires
        forall|part: Comp| #[trigger] is_part_of_values(part, vs) ==> call_fits(prims, part),
    ensures
        calls_fit_in_values(prims, vs),
    decreases vs,
{
    assert forall|i: int| 0 <= i < vs.len() implies calls_fit_in_value(
        prims,
        #[trigger] vs[i],
    ) by {
        assert forall|part: Comp| #[trigger] is_part_of_value(part, vs[i]) implies call_fits(
            prims,
            part,
        ) by {
            assert(is_part_of_values(part, vs));
        }
        lemma_parts_fit_in_value(prims, vs[i]);
    }
}

proof fn lemma_parts_fit(prims: Map<Seq<char>, Primitive>, c: Comp)
    requires
        forall|part: Comp| #[trigger] is_part(part, c) ==> call_fits(prims, part),
    ensures
        calls_fit(prims, c),
    decreases c,
{
    assert(is_part(c, c));
    assert(call_fits(prims, c));
    match c {
        Comp::Redex { function, args } => {
            assert forall|part: Comp| #[trigger] is_part(part, *function) implies call_fits(
                prims,
                part,
            ) by {
                assert(is_part(part, c));
            }
            lemma_parts_fit(prims, *function);
            assert forall|part: Comp| #[trigger] is_part_of_values(part, args) implies call_fits(
                prims,
                part,
            ) by {
                assert(is_part(part, c));
            }
            lemma_parts_fit_in_values(prims, args);
        },
        Comp::Return { value } => {
            assert forall|part: Comp| #[trigger] is_part_of_value(part, value) implies call_fits(
                prims,
                part,
            ) by {
                assert(is_part(part, c));
            }
            lemma_parts_fit_in_value(prims, value);
        },
        Comp::Force { thunk, .. } => {
            assert forall|part: Comp| #[trigger] is_part_of_value(part, thunk) implies call_fits(
                prims,
                part,
            ) by {
                assert(is_part(part, c));
            }
            lemma_parts_fit_in_value(prims, thunk);
        },
        Comp::Def { .. } => {},
        Comp::PrimitiveCall { args, .. } => {
            assert forall|part: Comp| #[trigger] is_part_of_values(part, args) implies call_fits(
                prims,
                part,
            ) by {
                assert(is_part(part, c));
            }
            lemma_parts_fit_in_values(prims, args);
        },
        Comp::Lambda { body, .. } => {
            assert forall|part: Comp| #[trigger] is_part(part, *body) implies call_fits(
                prims,
                part,
            ) by {
                assert(is_part(part, c));
            }
            lemma_parts_fit(prims, *body);
        },
    }
}

/// The calls in a computation fit if and only if each call that stands somewhere in it does.
pub proof fn lemma_calls_fit_everywhere(prims: Map<Seq<char>, Primitive>, c: Comp)
    ensures
        calls_fit(prims, c) <==> forall|part: Comp| #[trigger]
            is_part(part, c) ==> call_fits(prims, part),
{
    if calls_fit(prims, c) {
        assert forall|part: Comp| #[trigger] is_part(part, c) implies call_fits(prims, part) by {
            lemma_part_fits(prims, part, c);
        }
    }
    if forall|part: Comp| #[trigger] is_part(part, c) ==> call_fits(prims, part) {
        lemma_parts_fit(prims, c);
    }
}

} // verus!
