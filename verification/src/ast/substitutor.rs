//! Substitution of values for variables.
use crate::ast::term::{clone_params, value, values, CTerm, Comp, VTerm, VType, Value};
use std::collections::HashMap;
use vstd::prelude::*;

verus! {

/// What the first `k` of `params` stand for when they are given the first `k` of `args`. Where two
/// parameters have the same index, the later one counts.
pub open spec fn pair_up(params: Seq<(usize, VType)>, args: Seq<Value>, k: nat) -> Map<usize, Value>
    decreases k,
{
    if k == 0 {
        Map::empty()
    } else {
        pair_up(params, args, (k - 1) as nat).insert(params[k - 1].0, args[k - 1])
    }
}

/// The value `v` with the variables that `bindings` holds replaced.
pub open spec fn substitute_in_value(bindings: Map<usize, Value>, v: Value) -> Value
    decreases v,
{
    match v {
        Value::Var { index } => if bindings.contains_key(index) {
            bindings[index]
        } else {
            v
        },
        Value::Int { .. } => v,
        Value::Thunk { t, may_have_complex_effects } => Value::Thunk {
            t: Box::new(substitute(bindings, *t)),
            may_have_complex_effects,
        },
    }
}

/// The values `vs` with the variables that `bindings` holds replaced.
pub open spec fn substitute_in_values(bindings: Map<usize, Value>, vs: Seq<Value>) -> Seq<Value>
    decreases vs,
{
    Seq::new(
        vs.len(),
        |i: int|
            if 0 <= i < vs.len() {
                substitute_in_value(bindings, vs[i])
            } else {
                arbitrary()
            },
    )
}

/// The computation `c` with the variables that `bindings` holds replaced. All binders are taken to
/// be distinct from what `bindings` holds.
pub open spec fn substitute(bindings: Map<usize, Value>, c: Comp) -> Comp
    decreases c,
{
    match c {
        Comp::Redex { function, args } => Comp::Redex {
            function: Box::new(substitute(bindings, *function)),
            args: substitute_in_values(bindings, args),
        },
        Comp::Return { value } => Comp::Return { value: substitute_in_value(bindings, value) },
        Comp::Force { thunk, may_have_complex_effects } => Comp::Force {
            thunk: substitute_in_value(bindings, thunk),
            may_have_complex_effects,
        },
        Comp::Def { .. } => c,
        Comp::PrimitiveCall { name, args } => Comp::PrimitiveCall {
            name,
            args: substitute_in_values(bindings, args),
        },
        Comp::Lambda { args, body, may_have_complex_effects } => Comp::Lambda {
            args,
            body: Box::new(substitute(bindings, *body)),
            may_have_complex_effects,
        },
    }
}

/// Replaces variables by values.
pub struct Substitutor {
    /// What variables are replaced by.
    bindings: HashMap<usize, VTerm>,
}

impl View for Substitutor {
    type V = Map<usize, Value>;

    closed spec fn view(&self) -> Map<usize, Value> {
        self.bindings@.map_values(|v: VTerm| value(v))
    }
}

impl Substitutor {
    /// Replaces each of `params` by the argument at its place.
    pub fn new(params: &Vec<(usize, VType)>, args: &Vec<VTerm>) -> (r: Self)
        requires
            params@.len() == args@.len(),
        ensures
            r@ == pair_up(params@, values(args@), params@.len()),
    {
        broadcast use vstd::std_specs::hash::group_hash_axioms;

        let mut bindings: HashMap<usize, VTerm> = HashMap::new();
        let ghost f = |v: VTerm| value(v);
        assert(bindings@.map_values(f) =~= Map::empty());
        for i in 0..params.len()
            invariant
                params@.len() == args@.len(),
                f == (|v: VTerm| value(v)),
                bindings@.map_values(f) == pair_up(params@, values(args@), i as nat),
        {
            let ghost before = bindings@;
            let v = args[i].clone();
            bindings.insert(params[i].0, v);
            assert(bindings@.map_values(f) =~= before.map_values(f).insert(
                params@[i as int].0,
                value(v),
            ));
            assert(value(v) == values(args@)[i as int]);
        }
        Substitutor { bindings }
    }

    /// What stands in place of the variable `index`.
    fn transform_var(&self, index: usize) -> (r: VTerm)
        ensures
            r@ == substitute_in_value(self@, Value::Var { index }),
    {
        broadcast use vstd::std_specs::hash::group_hash_axioms;

        match self.bindings.get(&index) {
            Some(replacement) => replacement.clone(),
            None => VTerm::Var { index },
        }
    }

    /// Replaces variables in `v`.
    pub fn transform_v_term(&self, v: &VTerm) -> (r: VTerm)
        ensures
            r@ == substitute_in_value(self@, v@),
        decreases v,
    {
        match v {
            VTerm::Var { index } => self.transform_var(*index),
            VTerm::Int { value } => VTerm::Int { value: *value },
            VTerm::Thunk { t, may_have_complex_effects } => VTerm::Thunk {
                t: Box::new(self.transform_c_term(t)),
                may_have_complex_effects: *may_have_complex_effects,
            },
        }
    }

    /// Replaces variables in each of `vs`.
    fn transform_v_terms(&self, vs: &Vec<VTerm>) -> (r: Vec<VTerm>)
        ensures
            values(r@) == substitute_in_values(self@, values(vs@)),
        decreases vs,
    {
        let mut r: Vec<VTerm> = Vec::new();
        for i in 0..vs.len()
            invariant
                r@.len() == i,
                forall|j: int|
                    0 <= j < i ==> value(#[trigger] r@[j]) == substitute_in_value(
                        self@,
                        value(vs@[j]),
                    ),
        {
            r.push(self.transform_v_term(&vs[i]));
        }
        assert(values(r@) =~= substitute_in_values(self@, values(vs@)));
        r
    }

    /// Replaces variables in `c`.
    pub fn transform_c_term(&self, c: &CTerm) -> (r: CTerm)
        ensures
            r@ == substitute(self@, c@),
        decreases c,
    {
        match c {
            CTerm::Redex { function, args } => CTerm::Redex {
                function: Box::new(self.transform_c_term(function)),
                args: self.transform_v_terms(args),
            },
            CTerm::Return { value } => CTerm::Return { value: self.transform_v_term(value) },
            CTerm::Force { thunk, may_have_complex_effects } => CTerm::Force {
                thunk: self.transform_v_term(thunk),
                may_have_complex_effects: *may_have_complex_effects,
            },
            CTerm::Def { name, may_have_complex_effects } => CTerm::Def {
                name: name.clone(),
                may_have_complex_effects: *may_have_complex_effects,
            },
            CTerm::PrimitiveCall { name, args } => CTerm::PrimitiveCall {
                name: name.clone(),
                args: self.transform_v_terms(args),
            },
            CTerm::Lambda { args, body, may_have_complex_effects } => CTerm::Lambda {
                args: clone_params(args),
                body: Box::new(self.transform_c_term(body)),
                may_have_complex_effects: *may_have_complex_effects,
            },
        }
    }
}

} // verus!
