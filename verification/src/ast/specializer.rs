//! Specialization of calls of primitive functions.
use crate::ast::lifter::no_binders;
use crate::ast::naming::{generate_name, generated_name};
use crate::ast::primitive_functions::{Primitive, PrimitiveFunction, PrimitiveFunctions};
use crate::ast::renamer::{binders_in_comp, binders_in_value, lemma_no_binders_in_values};
use crate::ast::signature::{
    definitions, lemma_definitions_push, Definition, FunctionDefinition,
};
use crate::ast::term::{
    clone_params, lemma_values_push, value, values, CTerm, CType, Comp, VTerm, VType, Value,
};
use vstd::prelude::*;

verus! {

/// The name of the definition through which the definition `base` calls a primitive function with
/// too few arguments.
pub open spec fn wrapper_name(base: Seq<char>) -> Seq<char> {
    generated_name(base, "$__primitive_wrapper_"@, 0)
}

/// The definition that takes all arguments of the primitive function `name` and calls it.
pub open spec fn wrapper(name: Seq<char>, primitive: Primitive) -> Definition {
    let arity = primitive.arg_types.len();
    Definition {
        args: Seq::new(arity, |i: int| (i as usize, primitive.arg_types[i])),
        body: Comp::PrimitiveCall {
            name,
            args: Seq::new(arity, |i: int| Value::Var { index: i as usize }),
        },
        c_type: CType::SpecializedF(primitive.return_type),
        var_bound: arity,
        may_be_simple: true,
        may_be_complex: false,
    }
}

/// Whether `function` is the name of a primitive function.
pub open spec fn is_primitive(prims: Map<Seq<char>, Primitive>, function: Comp) -> bool {
    match function {
        Comp::Def { name, .. } => prims.contains_key(name),
        _ => false,
    }
}

/// The number of arguments of the primitive function that `function` names.
pub open spec fn arity(prims: Map<Seq<char>, Primitive>, function: Comp) -> nat {
    prims[function->Def_name].arg_types.len()
}

/// The value `v` with its calls of primitive functions specialized.
pub open spec fn specialize_value(
    prims: Map<Seq<char>, Primitive>,
    base: Seq<char>,
    v: Value,
) -> Value
    decreases v,
{
    match v {
        Value::Thunk { t, may_have_complex_effects } => Value::Thunk {
            t: Box::new(specialize_comp(prims, base, *t)),
            may_have_complex_effects,
        },
        _ => v,
    }
}

/// The values `vs` with their calls of primitive functions specialized.
pub open spec fn specialize_values(
    prims: Map<Seq<char>, Primitive>,
    base: Seq<char>,
    vs: Seq<Value>,
) -> Seq<Value>
    decreases vs,
{
    Seq::new(
        vs.len(),
        |i: int|
            if 0 <= i < vs.len() {
                specialize_value(prims, base, vs[i])
            } else {
                arbitrary()
            },
    )
}

/// The computation `c` of the definition `base` with its calls of primitive functions specialized.
/// A call with all arguments becomes a primitive call. A call with fewer becomes a call of a
/// wrapper.
pub open spec fn specialize_comp(
    prims: Map<Seq<char>, Primitive>,
    base: Seq<char>,
    c: Comp,
) -> Comp
    decreases c,
{
    match c {
        Comp::Redex { function, args } => {
            let new_args = specialize_values(prims, base, args);
            if !is_primitive(prims, *function) {
                Comp::Redex {
                    function: Box::new(specialize_comp(prims, base, *function)),
                    args: new_args,
                }
            } else if args.len() < arity(prims, *function) {
                Comp::Redex {
                    function: Box::new(
                        Comp::Def { name: wrapper_name(base), may_have_complex_effects: false },
                    ),
                    args: new_args,
                }
            } else {
                Comp::PrimitiveCall { name: function->Def_name, args: new_args }
            }
        },
        Comp::Return { value } => Comp::Return { value: specialize_value(prims, base, value) },
        Comp::Force { thunk, may_have_complex_effects } => Comp::Force {
            thunk: specialize_value(prims, base, thunk),
            may_have_complex_effects,
        },
        Comp::Def { .. } => c,
        Comp::PrimitiveCall { name, args } => Comp::PrimitiveCall {
            name,
            args: specialize_values(prims, base, args),
        },
        Comp::Lambda { args, body, may_have_complex_effects } => Comp::Lambda {
            args,
            body: Box::new(specialize_comp(prims, base, *body)),
            may_have_complex_effects,
        },
    }
}

/// The wrappers that the calls in `v` need, in the order of the calls.
pub open spec fn wrappers_of_value(
    prims: Map<Seq<char>, Primitive>,
    base: Seq<char>,
    v: Value,
) -> Seq<(Seq<char>, Definition)>
    decreases v,
{
    match v {
        Value::Thunk { t, .. } => wrappers_of_comp(prims, base, *t),
        _ => Seq::empty(),
    }
}

/// The wrappers that the calls in `vs` need, in the order of the calls.
pub open spec fn wrappers_of_values(
    prims: Map<Seq<char>, Primitive>,
    base: Seq<char>,
    vs: Seq<Value>,
) -> Seq<(Seq<char>, Definition)>
    decreases vs,
{
    if vs.len() == 0 {
        Seq::empty()
    } else {
        wrappers_of_values(prims, base, vs.drop_last()) + wrappers_of_value(prims, base, vs.last())
    }
}

/// The wrappers that the calls in `c` need, in the order of the calls, inner calls first.
pub open spec fn wrappers_of_comp(
    prims: Map<Seq<char>, Primitive>,
    base: Seq<char>,
    c: Comp,
) -> Seq<(Seq<char>, Definition)>
    decreases c,
{
    match c {
        Comp::Redex { function, args } => {
            let inner = wrappers_of_comp(prims, base, *function) + wrappers_of_values(
                prims,
                base,
                args,
            );
            if is_primitive(prims, *function) && args.len() < arity(prims, *function) {
                let name = function->Def_name;
                inner.push((wrapper_name(base), wrapper(name, prims[name])))
            } else {
                inner
            }
        },
        Comp::Return { value } => wrappers_of_value(prims, base, value),
        Comp::Force { thunk, .. } => wrappers_of_value(prims, base, thunk),
        Comp::Def { .. } => Seq::empty(),
        Comp::PrimitiveCall { args, .. } => wrappers_of_values(prims, base, args),
        Comp::Lambda { body, .. } => wrappers_of_comp(prims, base, *body),
    }
}

/// Whether the calls of primitive functions in `v` fit; see [`calls_fit`].
pub open spec fn calls_fit_in_value(prims: Map<Seq<char>, Primitive>, v: Value) -> bool
    decreases v,
{
    match v {
        Value::Thunk { t, .. } => calls_fit(prims, *t),
        _ => true,
    }
}

/// Whether the calls of primitive functions in `vs` fit; see [`calls_fit`].
pub open spec fn calls_fit_in_values(prims: Map<Seq<char>, Primitive>, vs: Seq<Value>) -> bool
    decreases vs,
{
    forall|i: int| 0 <= i < vs.len() ==> calls_fit_in_value(prims, #[trigger] vs[i])
}

/// Whether the calls of primitive functions in `c` fit: none has more arguments than the function
/// takes, and none with fewer arguments is marked as having complex effects, since primitive calls
/// cannot be effectful.
pub open spec fn calls_fit(prims: Map<Seq<char>, Primitive>, c: Comp) -> bool
    decreases c,
{
    match c {
        Comp::Redex { function, args } => {
            &&& calls_fit(prims, *function)
            &&& calls_fit_in_values(prims, args)
            &&& is_primitive(prims, *function) ==> {
                &&& args.len() <= arity(prims, *function)
                &&& args.len() < arity(prims, *function)
                    ==> !function->Def_may_have_complex_effects
            }
        },
        Comp::Return { value } => calls_fit_in_value(prims, value),
        Comp::Force { thunk, .. } => calls_fit_in_value(prims, thunk),
        Comp::Def { .. } => true,
        Comp::PrimitiveCall { args, .. } => calls_fit_in_values(prims, args),
        Comp::Lambda { body, .. } => calls_fit(prims, *body),
    }
}

/// Specializes the calls of primitive functions in a definition.
pub struct CallSpecializer<'a> {
    /// The name of the definition.
    pub def_name: &'a str,
    /// The wrappers that the calls seen so far need.
    pub new_defs: Vec<(String, FunctionDefinition)>,
    /// The primitive functions.
    pub primitives: &'a PrimitiveFunctions,
}

impl<'a> CallSpecializer<'a> {
    /// Whether `self` specializes the same definition as `other`.
    pub open spec fn same_definition(self, other: Self) -> bool {
        self.def_name@ == other.def_name@ && self.primitives@ == other.primitives@
    }

    /// Builds the wrapper of a primitive function.
    fn create_wrapper(name: &String, primitive: &PrimitiveFunction) -> (r: FunctionDefinition)
        ensures
            r@ == wrapper(name@, primitive@),
    {
        let arity = primitive.arg_types.len();
        let mut args: Vec<(usize, VType)> = Vec::new();
        let mut call_args: Vec<VTerm> = Vec::new();
        for i in 0..arity
            invariant
                arity == primitive.arg_types@.len(),
                args@ == Seq::new(i as nat, |j: int| (j as usize, primitive.arg_types@[j])),
                values(call_args@) == Seq::new(i as nat, |j: int| Value::Var { index: j as usize }),
        {
            args.push((i, primitive.arg_types[i]));
            let v = VTerm::Var { index: i };
            proof {
                lemma_values_push(call_args@, v);
            }
            call_args.push(v);
            assert(args@ =~= Seq::new(
                (i + 1) as nat,
                |j: int| (j as usize, primitive.arg_types@[j]),
            ));
            assert(values(call_args@) =~= Seq::new(
                (i + 1) as nat,
                |j: int| Value::Var { index: j as usize },
            ));
        }
        let r = FunctionDefinition {
            args,
            body: CTerm::PrimitiveCall { name: name.clone(), args: call_args },
            c_type: CType::SpecializedF(primitive.return_type),
            var_bound: arity,
            may_be_simple: true,
            may_be_complex: false,
        };
        assert(r@.args =~= wrapper(name@, primitive@).args);
        r
    }

    /// Builds the application of `function` to `args`, both of which are specialized.
    fn transform_redex(&mut self, function: CTerm, args: Vec<VTerm>) -> (r: CTerm)
        requires
            is_primitive(old(self).primitives@, function@) ==> {
                &&& args@.len() <= arity(old(self).primitives@, function@)
                &&& args@.len() < arity(old(self).primitives@, function@)
                    ==> !function@->Def_may_have_complex_effects
            },
        ensures
            final(self).same_definition(*old(self)),
            ({
                let prims = old(self).primitives@;
                let base = old(self).def_name@;
                let before = definitions(old(self).new_defs@);
                let after = definitions(final(self).new_defs@);
                if !is_primitive(prims, function@) {
                    &&& r@ == (Comp::Redex { function: Box::new(function@), args: values(args@) })
                    &&& after == before
                } else if args@.len() < arity(prims, function@) {
                    let name = function@->Def_name;
                    let wrapper_def = Comp::Def {
                        name: wrapper_name(base),
                        may_have_complex_effects: false,
                    };
                    &&& r@ == (Comp::Redex { function: Box::new(wrapper_def), args: values(args@) })
                    &&& after == before.push((wrapper_name(base), wrapper(name, prims[name])))
                } else {
                    let name = function@->Def_name;
                    &&& r@ == (Comp::PrimitiveCall { name, args: values(args@) })
                    &&& after == before
                }
            }),
    {
        match function {
            CTerm::Def { name, may_have_complex_effects } => {
                match self.primitives.get(name.as_str()) {
                    Some(primitive) => {
                        if args.len() < primitive.arg_types.len() {
                            let primitive_wrapper_name = generate_name(
                                self.def_name,
                                "$__primitive_wrapper_",
                                0,
                            );
                            let def = Self::create_wrapper(&name, primitive);
                            let wrapper_def = CTerm::Def {
                                name: primitive_wrapper_name.clone(),
                                may_have_complex_effects: false,
                            };
                            proof {
                                lemma_definitions_push(
                                    self.new_defs@,
                                    (primitive_wrapper_name, def),
                                );
                            }
                            self.new_defs.push((primitive_wrapper_name, def));
                            assert(wrapper_def@ == (Comp::Def {
                                name: wrapper_name(self.def_name@),
                                may_have_complex_effects: false,
                            }));
                            CTerm::Redex { function: Box::new(wrapper_def), args }
                        } else {
                            CTerm::PrimitiveCall { name, args }
                        }
                    },
                    None => {
                        let def = CTerm::Def { name, may_have_complex_effects };
                        assert(def@ == function@);
                        CTerm::Redex { function: Box::new(def), args }
                    },
                }
            },
            function => CTerm::Redex { function: Box::new(function), args },
        }
    }

    /// Specializes the calls in `v`.
    pub fn transform_v_term(&mut self, v: &VTerm) -> (r: VTerm)
        requires
            calls_fit_in_value(old(self).primitives@, v@),
        ensures
            final(self).same_definition(*old(self)),
            r@ == specialize_value(old(self).primitives@, old(self).def_name@, v@),
            definitions(final(self).new_defs@) == definitions(old(self).new_defs@)
                + wrappers_of_value(old(self).primitives@, old(self).def_name@, v@),
        decreases v,
    {
        let r = match v {
            VTerm::Var { index } => VTerm::Var { index: *index },
            VTerm::Int { value } => VTerm::Int { value: *value },
            VTerm::Thunk { t, may_have_complex_effects } => VTerm::Thunk {
                t: Box::new(self.transform_c_term(t)),
                may_have_complex_effects: *may_have_complex_effects,
            },
        };
        assert(definitions(self.new_defs@) =~= definitions(old(self).new_defs@)
            + wrappers_of_value(old(self).primitives@, old(self).def_name@, v@));
        r
    }

    /// Specializes the calls in each of `vs`.
    fn transform_v_terms(&mut self, vs: &Vec<VTerm>) -> (r: Vec<VTerm>)
        requires
            calls_fit_in_values(old(self).primitives@, values(vs@)),
        ensures
            final(self).same_definition(*old(self)),
            values(r@) == specialize_values(
                old(self).primitives@,
                old(self).def_name@,
                values(vs@),
            ),
            definitions(final(self).new_defs@) == definitions(old(self).new_defs@)
                + wrappers_of_values(old(self).primitives@, old(self).def_name@, values(vs@)),
        decreases vs,
    {
        let mut r: Vec<VTerm> = Vec::new();
        let ghost prims = self.primitives@;
        let ghost base = self.def_name@;
        let ghost all = values(vs@);
        assert(definitions(self.new_defs@) =~= definitions(old(self).new_defs@)
            + wrappers_of_values(prims, base, all.take(0)));
        for i in 0..vs.len()
            invariant
                self.same_definition(*old(self)),
                prims == old(self).primitives@,
                base == old(self).def_name@,
                all == values(vs@),
                calls_fit_in_values(prims, all),
                r@.len() == i,
                forall|j: int|
                    0 <= j < i ==> value(#[trigger] r@[j]) == specialize_value(
                        prims,
                        base,
                        value(vs@[j]),
                    ),
                definitions(self.new_defs@) == definitions(old(self).new_defs@)
                    + wrappers_of_values(prims, base, all.take(i as int)),
        {
            assert(all.take(i + 1).drop_last() =~= all.take(i as int));
            assert(all.take(i + 1).last() == value(vs@[i as int]));
            assert(calls_fit_in_value(prims, all[i as int]));
            r.push(self.transform_v_term(&vs[i]));
            assert(definitions(self.new_defs@) =~= definitions(old(self).new_defs@)
                + wrappers_of_values(prims, base, all.take(i + 1)));
        }
        assert(all.take(vs@.len() as int) =~= all);
        assert(values(r@) =~= specialize_values(prims, base, all));
        r
    }

    /// Specializes the calls in `c`.
    pub fn transform_c_term(&mut self, c: &CTerm) -> (r: CTerm)
        requires
            calls_fit(old(self).primitives@, c@),
        ensures
            final(self).same_definition(*old(self)),
            r@ == specialize_comp(old(self).primitives@, old(self).def_name@, c@),
            definitions(final(self).new_defs@) == definitions(old(self).new_defs@)
                + wrappers_of_comp(old(self).primitives@, old(self).def_name@, c@),
        decreases c,
    {
        let r = match c {
            CTerm::Redex { function, args } => {
                let new_function = self.transform_c_term(function);
                let new_args = self.transform_v_terms(args);
                assert(values(new_args@).len() == values(args@).len());
                assert(function@ is Def ==> new_function@ == function@);
                assert(new_function@ is Def ==> function@ is Def);
                self.transform_redex(new_function, new_args)
            },
            CTerm::Return { value } => CTerm::Return { value: self.transform_v_term(value) },
            CTerm::Force { thunk, may_have_complex_effects } => CTerm::Force {
                thunk: self.transform_v_term(thunk),
                may_have_complex_effects: *may_have_complex_effects,
            },
            CTerm::Def { name, may_have_complex_effects } => CTerm::Def {
                name: name.clone(),
                may_have_complex_effects: *may_have_complex_effects,
            },
            CTerm::PrimitiveCall { name, args } => CTerm::PrimitiveCall {
                name: name.clone(),
                args: self.transform_v_terms(args),
            },
            CTerm::Lambda { args, body, may_have_complex_effects } => CTerm::Lambda {
                args: clone_params(args),
                body: Box::new(self.transform_c_term(body)),
                may_have_complex_effects: *may_have_complex_effects,
            },
        };
        assert(definitions(self.new_defs@) =~= definitions(old(self).new_defs@)
            + wrappers_of_comp(old(self).primitives@, old(self).def_name@, c@));
        r
    }
}

proof fn lemma_wrappers_have_no_binders_in_value(
    prims: Map<Seq<char>, Primitive>,
    base: Seq<char>,
    v: Value,
)
    ensures
        no_binders(wrappers_of_value(prims, base, v)),
    decreases v,
{
    if let Value::Thunk { t, .. } = v {
        lemma_wrappers_have_no_binders(prims, base, *t);
    }
}

proof fn lemma_wrappers_have_no_binders_in_values(
    prims: Map<Seq<char>, Primitive>,
    base: Seq<char>,
    vs: Seq<Value>,
)
    ensures
        no_binders(wrappers_of_values(prims, base, vs)),
    decreases vs,
{
    if vs.len() > 0 {
        lemma_wrappers_have_no_binders_in_values(prims, base, vs.drop_last());
        lemma_wrappers_have_no_binders_in_value(prims, base, vs.last());
    }
}

/// Wrappers have no binders in their bodies.
pub proof fn lemma_wrappers_have_no_binders(
    prims: Map<Seq<char>, Primitive>,
    base: Seq<char>,
    c: Comp,
)
    ensures
        no_binders(wrappers_of_comp(prims, base, c)),
    decreases c,
{
    match c {
        Comp::Redex { function, args } => {
            lemma_wrappers_have_no_binders(prims, base, *function);
            lemma_wrappers_have_no_binders_in_values(prims, base, args);
            if is_primitive(prims, *function) && args.len() < arity(prims, *function) {
                let name = function->Def_name;
                let body = wrapper(name, prims[name]).body;
                let call_args = body->PrimitiveCall_args;
                assert forall|i: int| 0 <= i < call_args.len() implies binders_in_value(
                    #[trigger] call_args[i],
                ) == 0 by {}
                lemma_no_binders_in_values(call_args);
                assert(binders_in_comp(body) == 0);
            }
        },
        Comp::Return { value } => {
            lemma_wrappers_have_no_binders_in_value(prims, base, value);
        },
        Comp::Force { thunk, .. } => {
            lemma_wrappers_have_no_binders_in_value(prims, base, thunk);
        },
        Comp::Def { .. } => {},
        Comp::PrimitiveCall { args, .. } => {
            lemma_wrappers_have_no_binders_in_values(prims, base, args);
        },
        Comp::Lambda { body, .. } => {
            lemma_wrappers_have_no_binders(prims, base, *body);
        },
    }
}

} // verus!
