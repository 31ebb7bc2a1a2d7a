//! The terms of the language: values and computations.
//!
//! The executable types are [`VTerm`] and [`CTerm`]. Contracts speak of their mathematical
//! counterparts [`Value`] and [`Comp`], in which vectors are sequences and strings are sequences
//! of characters.
use vstd::prelude::*;

verus! {

/// A primitive machine type of the language.
#[derive(Debug, Clone, Copy, PartialEq, Eq, Hash, Structural)]
pub enum PType {
    I64,
    I32,
    F64,
    F32,
}

/// The representation of a value that is not kept in uniform representation.
#[derive(Debug, Clone, Copy, PartialEq, Eq, Hash, Structural)]
pub enum SpecializedType {
    Integer,
    StructPtr,
    PrimitivePtr,
    Primitive(PType),
}

/// The type of a value.
#[derive(Debug, Clone, Copy, PartialEq, Eq, Hash, Structural)]
pub enum VType {
    Uniform,
    Specialized(SpecializedType),
}

/// The type of a computation.
#[derive(Debug, Clone, Copy, PartialEq, Eq, Hash, Structural)]
pub enum CType {
    Default,
    SpecializedF(VType),
}

/// A value.
#[derive(Debug)]
pub enum VTerm {
    Var { index: usize },
    Int { value: i64 },
    Thunk { t: Box<CTerm>, may_have_complex_effects: bool },
}

/// A computation.
#[allow(inconsistent_fields)]
#[derive(Debug)]
pub enum CTerm {
    Redex { function: Box<CTerm>, args: Vec<VTerm> },
    Return { value: VTerm },
    Force { thunk: VTerm, may_have_complex_effects: bool },
    Def { name: String, may_have_complex_effects: bool },
    PrimitiveCall { name: String, args: Vec<VTerm> },
    Lambda { args: Vec<(usize, VType)>, body: Box<CTerm>, may_have_complex_effects: bool },
}

/// The mathematical counterpart of [`VTerm`].
pub enum Value {
    Var { index: usize },
    Int { value: i64 },
    Thunk { t: Box<Comp>, may_have_complex_effects: bool },
}

/// The mathematical counterpart of [`CTerm`].
#[allow(inconsistent_fields)]
pub enum Comp {
    Redex { function: Box<Comp>, args: Seq<Value> },
    Return { value: Value },
    Force { thunk: Value, may_have_complex_effects: bool },
    Def { name: Seq<char>, may_have_complex_effects: bool },
    PrimitiveCall { name: Seq<char>, args: Seq<Value> },
    Lambda { args: Seq<(usize, VType)>, body: Box<Comp>, may_have_complex_effects: bool },
}

/// The value that `v` represents.
pub open spec fn value(v: VTerm) -> Value
    decreases v,
{
    match v {
        VTerm::Var { index } => Value::Var { index },
        VTerm::Int { value } => Value::Int { value },
        VTerm::Thunk { t, may_have_complex_effects } => Value::Thunk {
            t: Box::new(comp(*t)),
            may_have_complex_effects,
        },
    }
}

/// The values that the elements of `vs` represent, in order.
pub open spec fn values(vs: Seq<VTerm>) -> Seq<Value>
    decreases vs,
{
    Seq::new(vs.len(), |i: int| if 0 <= i < vs.len() { value(vs[i]) } else { arbitrary() })
}

/// The computation that `c` represents.
pub open spec fn comp(c: CTerm) -> Comp
    decreases c,
{
    match c {
        CTerm::Redex { function, args } => Comp::Redex {
            function: Box::new(comp(*function)),
            args: values(args@),
        },
        CTerm::Return { value: v } => Comp::Return { value: value(v) },
        CTerm::Force { thunk, may_have_complex_effects } => Comp::Force {
            thunk: value(thunk),
            may_have_complex_effects,
        },
        CTerm::Def { name, may_have_complex_effects } => Comp::Def {
            name: name@,
            may_have_complex_effects,
        },
        CTerm::PrimitiveCall { name, args } => Comp::PrimitiveCall {
            name: name@,
            args: values(args@),
        },
        CTerm::Lambda { args, body, may_have_complex_effects } => Comp::Lambda {
            args: args@,
            body: Box::new(comp(*body)),
            may_have_complex_effects,
        },
    }
}

/// [`values`] goes through the elements one by one.
pub proof fn lemma_values_push(vs: Seq<VTerm>, v: VTerm)
    ensures
        values(vs.push(v)) == values(vs).push(value(v)),
{
    assert(values(vs.push(v)) =~= values(vs).push(value(v)));
}

impl View for VTerm {
    type V = Value;

    open spec fn view(&self) -> Value {
        value(*self)
    }
}

impl View for CTerm {
    type V = Comp;

    open spec fn view(&self) -> Comp {
        comp(*self)
    }
}

impl Clone for VTerm {
    fn clone(&self) -> (r: Self)
        ensures
            r@ == self@,
    {
        clone_v_term(self)
    }
}

impl Clone for CTerm {
    fn clone(&self) -> (r: Self)
        ensures
            r@ == self@,
    {
        clone_c_term(self)
    }
}

/// A copy of `v`.
fn clone_v_term(v: &VTerm) -> (r: VTerm)
    ensures
        r@ == v@,
    decreases v,
{
    match v {
        VTerm::Var { index } => VTerm::Var { index: *index },
        VTerm::Int { value } => VTerm::Int { value: *value },
        VTerm::Thunk { t, may_have_complex_effects } => VTerm::Thunk {
            t: Box::new(clone_c_term(t)),
            may_have_complex_effects: *may_have_complex_effects,
        },
    }
}

/// A copy of `vs`.
pub fn clone_v_terms(vs: &Vec<VTerm>) -> (r: Vec<VTerm>)
    ensures
        values(r@) == values(vs@),
    decreases vs,
{
    let mut r: Vec<VTerm> = Vec::new();
    for i in 0..vs.len()
        invariant
            r@.len() == i,
            forall|j: int| 0 <= j < i ==> value(#[trigger] r@[j]) == value(vs@[j]),
    {
        r.push(clone_v_term(&vs[i]));
    }
    assert(values(r@) =~= values(vs@));
    r
}

/// A copy of `c`.
fn clone_c_term(c: &CTerm) -> (r: CTerm)
    ensures
        r@ == c@,
    decreases c,
{
    match c {
        CTerm::Redex { function, args } => CTerm::Redex {
            function: Box::new(clone_c_term(function)),
            args: clone_v_terms(args),
        },
        CTerm::Return { value } => CTerm::Return { value: clone_v_term(value) },
        CTerm::Force { thunk, may_have_complex_effects } => CTerm::Force {
            thunk: clone_v_term(thunk),
            may_have_complex_effects: *may_have_complex_effects,
        },
        CTerm::Def { name, may_have_complex_effects } => CTerm::Def {
            name: name.clone(),
            may_have_complex_effects: *may_have_complex_effects,
        },
        CTerm::PrimitiveCall { name, args } => CTerm::PrimitiveCall {
            name: name.clone(),
            args: clone_v_terms(args),
        },
        CTerm::Lambda { args, body, may_have_complex_effects } => CTerm::Lambda {
            args: clone_params(args),
            body: Box::new(clone_c_term(body)),
            may_have_complex_effects: *may_have_complex_effects,
        },
    }
}

/// A copy of a list of parameters.
pub fn clone_params(params: &Vec<(usize, VType)>) -> (r: Vec<(usize, VType)>)
    ensures
        r@ == params@,
{
    let mut r: Vec<(usize, VType)> = Vec::new();
    for i in 0..params.len()
        invariant
            r@ == params@.take(i as int),
    {
        r.push(params[i]);
    }
    assert(params@.take(params@.len() as int) =~= params@);
    r
}

} // verus!
