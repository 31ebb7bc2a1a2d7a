//! Removal of redundant applications and lambdas.
use crate::ast::term::{clone_params, value, values, CTerm, Comp, VTerm, VType, Value};
use vstd::prelude::*;

verus! {

/// The application of `function` to `args`, without an application to nothing and without an
/// application of an application.
pub open spec fn apply(function: Comp, args: Seq<Value>) -> Comp {
    if args.len() == 0 {
        function
    } else {
        match function {
            Comp::Redex { function: inner, args: inner_args } => Comp::Redex {
                function: inner,
                args: inner_args + args,
            },
            _ => Comp::Redex { function: Box::new(function), args },
        }
    }
}

/// The lambda with the parameters `args` and the body `body`, without a lambda that takes nothing
/// and without a lambda directly inside a lambda. The merged lambda may have complex effects if
/// either of the two may.
pub open spec fn abstraction(args: Seq<(usize, VType)>, body: Comp, effects: bool) -> Comp {
    match body {
        Comp::Lambda {
            args: inner_args,
            body: inner_body,
            may_have_complex_effects: inner_effects,
        } => if args.len() + inner_args.len() == 0 {
            *inner_body
        } else {
            Comp::Lambda {
                args: args + inner_args,
                body: inner_body,
                may_have_complex_effects: effects || inner_effects,
            }
        },
        _ => if args.len() == 0 {
            body
        } else {
            Comp::Lambda { args, body: Box::new(body), may_have_complex_effects: effects }
        },
    }
}

/// The value `v` without redundancy.
pub open spec fn simplify_value(v: Value) -> Value
    decreases v,
{
    match v {
        Value::Thunk { t, may_have_complex_effects } => Value::Thunk {
            t: Box::new(simplify_comp(*t)),
            may_have_complex_effects,
        },
        _ => v,
    }
}

/// The values `vs` without redundancy.
pub open spec fn simplify_values(vs: Seq<Value>) -> Seq<Value>
    decreases vs,
{
    Seq::new(vs.len(), |i: int| if 0 <= i < vs.len() { simplify_value(vs[i]) } else { arbitrary() })
}

/// The computation `c` without redundancy: applications and lambdas are rebuilt, from the inside
/// out, with [`apply`] and [`abstraction`].
pub open spec fn simplify_comp(c: Comp) -> Comp
    decreases c,
{
    match c {
        Comp::Redex { function, args } => apply(simplify_comp(*function), simplify_values(args)),
        Comp::Return { value } => Comp::Return { value: simplify_value(value) },
        Comp::Force { thunk, may_have_complex_effects } => Comp::Force {
            thunk: simplify_value(thunk),
            may_have_complex_effects,
        },
        Comp::Def { .. } => c,
        Comp::PrimitiveCall { name, args } => Comp::PrimitiveCall {
            name,
            args: simplify_values(args),
        },
        Comp::Lambda { args, body, may_have_complex_effects } => abstraction(
            args,
            simplify_comp(*body),
            may_have_complex_effects,
        ),
    }
}

/// Whether a value is free of redundancy.
pub open spec fn simple_value(v: Value) -> bool
    decreases v,
{
    match v {
        Value::Thunk { t, .. } => simple_comp(*t),
        _ => true,
    }
}

/// Whether each of a sequence of values is free of redundancy.
pub open spec fn simple_values(vs: Seq<Value>) -> bool
    decreases vs,
{
    forall|i: int| 0 <= i < vs.len() ==> simple_value(#[trigger] vs[i])
}

/// Whether a computation is free of redundancy: it holds no application to nothing, no application
/// of an application, no lambda that takes nothing and no lambda directly inside a lambda.
pub open spec fn simple_comp(c: Comp) -> bool
    decreases c,
{
    match c {
        Comp::Redex { function, args } => {
            &&& args.len() > 0
            &&& !(*function is Redex)
            &&& simple_comp(*function)
            &&& simple_values(args)
        },
        Comp::Return { value } => simple_value(value),
        Comp::Force { thunk, .. } => simple_value(thunk),
        Comp::Def { .. } => true,
        Comp::PrimitiveCall { args, .. } => simple_values(args),
        Comp::Lambda { args, body, .. } => {
            &&& args.len() > 0
            &&& !(*body is Lambda)
            &&& simple_comp(*body)
        },
    }
}

/// Builds the application of `function` to `args`.
pub(crate) fn build_redex(function: CTerm, args: Vec<VTerm>) -> (r: CTerm)
    ensures
        r@ == apply(function@, values(args@)),
{
    if args.len() == 0 {
        return function;
    }
    let mut args = args;
    match function {
        CTerm::Redex { function: sub_function, args: sub_args } => {
            let mut all_args = sub_args;
            let ghost front = all_args@;
            let ghost back = args@;
            all_args.append(&mut args);
            assert(values(all_args@) =~= values(front) + values(back));
            CTerm::Redex { function: sub_function, args: all_args }
        },
        function => CTerm::Redex { function: Box::new(function), args },
    }
}

/// Removes redundant applications and lambdas.
pub struct RedundancyRemover {}

impl RedundancyRemover {
    /// Builds the application of `function` to `args`, both of which are free of redundancy.
    fn transform_redex(&self, function: CTerm, args: Vec<VTerm>) -> (r: CTerm)
        ensures
            r@ == apply(function@, values(args@)),
    {
        build_redex(function, args)
    }

    /// Builds the lambda with the parameters `args` and the body `body`, which is free of
    /// redundancy.
    fn transform_lambda(
        &self,
        args: Vec<(usize, VType)>,
        body: CTerm,
        may_have_complex_effects: bool,
    ) -> (r: CTerm)
        ensures
            r@ == abstraction(args@, body@, may_have_complex_effects),
    {
        let mut args = args;
        match body {
            CTerm::Lambda {
                args: sub_args,
                body: sub_body,
                may_have_complex_effects: sub_may_have_complex_effects,
            } => {
                let mut sub_args = sub_args;
                args.append(&mut sub_args);
                if args.len() == 0 {
                    *sub_body
                } else {
                    CTerm::Lambda {
                        args,
                        body: sub_body,
                        may_have_complex_effects: may_have_complex_effects
                            || sub_may_have_complex_effects,
                    }
                }
            },
            body => {
                if args.len() == 0 {
                    body
                } else {
                    CTerm::Lambda { args, body: Box::new(body), may_have_complex_effects }
                }
            },
        }
    }

    /// Removes the redundancy of `v`.
    pub fn transform_v_term(&self, v: &VTerm) -> (r: VTerm)
        ensures
            r@ == simplify_value(v@),
        decreases v,
    {
        match v {
            VTerm::Var { index } => VTerm::Var { index: *index },
            VTerm::Int { value } => VTerm::Int { value: *value },
            VTerm::Thunk { t, may_have_complex_effects } => VTerm::Thunk {
                t: Box::new(self.transform_c_term(t)),
                may_have_complex_effects: *may_have_complex_effects,
            },
        }
    }

    /// Removes the redundancy of each of `vs`.
    fn transform_v_terms(&self, vs: &Vec<VTerm>) -> (r: Vec<VTerm>)
        ensures
            values(r@) == simplify_values(values(vs@)),
        decreases vs,
    {
        let mut r: Vec<VTerm> = Vec::new();
        for i in 0..vs.len()
            invariant
                r@.len() == i,
                forall|j: int|
                    0 <= j < i ==> value(#[trigger] r@[j]) == simplify_value(value(vs@[j])),
        {
            r.push(self.transform_v_term(&vs[i]));
        }
        assert(values(r@) =~= simplify_values(values(vs@)));
        r
    }

    /// Removes the redundancy of `c`.
    pub fn transform_c_term(&self, c: &CTerm) -> (r: CTerm)
        ensures
            r@ == simplify_comp(c@),
        decreases c,
    {
        match c {
            CTerm::Redex { function, args } => {
                let function = self.transform_c_term(function);
                let args = self.transform_v_terms(args);
                self.transform_redex(function, args)
            },
            CTerm::Return { value } => CTerm::Return { value: self.transform_v_term(value) },
            CTerm::Force { thunk, may_have_complex_effects } => CTerm::Force {
                thunk: self.transform_v_term(thunk),
                may_have_complex_effects: *may_have_complex_effects,
            },
            CTerm::Def { name, may_have_complex_effects } => CTerm::Def {
                name: name.clone(),
                may_have_complex_effects: *may_have_complex_effects,
            },
            CTerm::PrimitiveCall { name, args } => CTerm::PrimitiveCall {
                name: name.clone(),
                args: self.transform_v_terms(args),
            },
            CTerm::Lambda { args, body, may_have_complex_effects } => {
                let body = self.transform_c_term(body);
                self.transform_lambda(clone_params(args), body, *may_have_complex_effects)
            },
        }
    }
}

proof fn lemma_simplified_value(v: Value)
    ensures
        simple_value(simplify_value(v)),
    decreases v,
{
    if let Value::Thunk { t, .. } = v {
        lemma_simplified(*t);
    }
}

proof fn lemma_simplified_values(vs: Seq<Value>)
    ensures
        simple_values(simplify_values(vs)),
    decreases vs,
{
    assert forall|i: int| 0 <= i < vs.len() implies simple_value(
        #[trigger] simplify_values(vs)[i],
    ) by {
        lemma_simplified_value(vs[i]);
    }
}

/// What removing redundancy leaves is free of redundancy: every application has arguments and
/// applies something other than an application, and every lambda has parameters and a body other
/// than a lambda.
pub proof fn lemma_simplified(c: Comp)
    ensures
        simple_comp(simplify_comp(c)),
    decreases c,
{
    match c {
        Comp::Redex { function, args } => {
            lemma_simplified(*function);
            lemma_simplified_values(args);
            let f = simplify_comp(*function);
            let vs = simplify_values(args);
            if let Comp::Redex { function: inner, args: inner_args } = f {
                assert(simple_values(inner_args));
                assert(simple_values(inner_args + vs));
            }
        },
        Comp::Return { value } => {
            lemma_simplified_value(value);
        },
        Comp::Force { thunk, .. } => {
            lemma_simplified_value(thunk);
        },
        Comp::Def { .. } => {},
        Comp::PrimitiveCall { args, .. } => {
            lemma_simplified_values(args);
        },
        Comp::Lambda { body, .. } => {
            lemma_simplified(*body);
        },
    }
}

proof fn lemma_simple_value_unchanged(v: Value)
    requires
        simple_value(v),
    ensures
        simplify_value(v) == v,
    decreases v,
{
    if let Value::Thunk { t, .. } = v {
        lemma_simple_unchanged(*t);
    }
}

proof fn lemma_simple_values_unchanged(vs: Seq<Value>)
    requires
        simple_values(vs),
    ensures
        simplify_values(vs) == vs,
    decreases vs,
{
    assert forall|i: int| 0 <= i < vs.len() implies simplify_values(vs)[i] == vs[i] by {
        assert(simple_value(vs[i]));
        lemma_simple_value_unchanged(vs[i]);
    }
    assert(simplify_values(vs) =~= vs);
}

/// Removing redundancy changes nothing where there is none. With [`lemma_simplified`], doing it
/// twice is doing it once.
pub proof fn lemma_simple_unchanged(c: Comp)
    requires
        simple_comp(c),
    ensures
        simplify_comp(c) == c,
    decreases c,
{
    match c {
        Comp::Redex { function, args } => {
            lemma_simple_unchanged(*function);
            lemma_simple_values_unchanged(args);
        },
        Comp::Return { value } => {
            lemma_simple_value_unchanged(value);
        },
        Comp::Force { thunk, .. } => {
            lemma_simple_value_unchanged(thunk);
        },
        Comp::Def { .. } => {},
        Comp::PrimitiveCall { args, .. } => {
            lemma_simple_values_unchanged(args);
        },
        Comp::Lambda { body, .. } => {
            lemma_simple_unchanged(*body);
        },
    }
}

} // verus!
