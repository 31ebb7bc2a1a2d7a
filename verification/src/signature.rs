//! Definitions without effect flavors, and the two passes that prepare them: applications are
//! normalized and thunks are lifted.
use crate::ast::free_var::{free_in_comp, free_in_value, sorted};
use crate::ast::lifter::{below, captured_params, is_call, lifted_call, vars};
use crate::ast::naming::{generate_name, generated_name};
use crate::ast::redundancy::{apply, build_redex};
use crate::ast::renamer::{
    bind_params, binders_in_comp, fresh_params, rename_comp, DistinctVarRenamer,
};
use crate::ast::signature::{
    distinct_names, find_local_types, holds, lemma_set_types_len, put, put_all, set_types,
};
use crate::ast::term::{
    clone_params, clone_v_terms, lemma_values_push, value, values, CTerm, CType, Comp, VTerm, VType,
    Value,
};
use crate::ast::usage::{
    find_top, find_top_of_params, greater, lemma_top_of_params, lemma_top_of_params_below, top,
    top_of_params, top_of_value,
};
use vstd::prelude::*;

verus! {

/// The definition of a function.
#[derive(Debug)]
pub struct FunctionDefinition {
    pub args: Vec<(usize, VType)>,
    pub body: CTerm,
    pub c_type: CType,
    /// The (exclusive) upperbound of local variables bound in this definition. This is useful to
    /// initialize an array, which can be guaranteed to fit all local variables in this function.
    pub var_bound: usize,
}

/// The mathematical counterpart of [`FunctionDefinition`].
pub struct Definition {
    pub args: Seq<(usize, VType)>,
    pub body: Comp,
    pub c_type: CType,
    pub var_bound: nat,
}

impl View for FunctionDefinition {
    type V = Definition;

    open spec fn view(&self) -> Definition {
        Definition {
            args: self.args@,
            body: self.body@,
            c_type: self.c_type,
            var_bound: self.var_bound as nat,
        }
    }
}

impl Clone for FunctionDefinition {
    fn clone(&self) -> (r: Self)
        ensures
            r@ == self@,
    {
        FunctionDefinition {
            args: clone_params(&self.args),
            body: self.body.clone(),
            c_type: self.c_type,
            var_bound: self.var_bound,
        }
    }
}

/// The mathematical counterpart of a list of named definitions.
pub open spec fn definitions(defs: Seq<(String, FunctionDefinition)>) -> Seq<
    (Seq<char>, Definition),
> {
    Seq::new(defs.len(), |i: int| (defs[i].0@, defs[i].1@))
}

/// The value `v` with its applications normalized; see [`normalize_comp`].
pub open spec fn normalize_value(v: Value) -> Value
    decreases v,
{
    match v {
        Value::Thunk { t, may_have_complex_effects } => Value::Thunk {
            t: Box::new(normalize_comp(*t)),
            may_have_complex_effects,
        },
        _ => v,
    }
}

/// The values `vs` with their applications normalized; see [`normalize_comp`].
pub open spec fn normalize_values(vs: Seq<Value>) -> Seq<Value>
    decreases vs,
{
    Seq::new(
        vs.len(),
        |i: int|
            if 0 <= i < vs.len() {
                normalize_value(vs[i])
            } else {
                arbitrary()
            },
    )
}

/// The computation `c` with its applications rebuilt with [`apply`], from the inside out. The
/// arguments of an application stay as they are.
pub open spec fn normalize_comp(c: Comp) -> Comp
    decreases c,
{
    match c {
        Comp::Redex { function, args } => apply(normalize_comp(*function), args),
        Comp::Return { value } => Comp::Return { value: normalize_value(value) },
        Comp::Force { thunk, may_have_complex_effects } => Comp::Force {
            thunk: normalize_value(thunk),
            may_have_complex_effects,
        },
        Comp::Def { .. } => c,
        Comp::PrimitiveCall { name, args } => Comp::PrimitiveCall {
            name,
            args: normalize_values(args),
        },
        Comp::Lambda { args, body, may_have_complex_effects } => Comp::Lambda {
            args,
            body: Box::new(normalize_comp(*body)),
            may_have_complex_effects,
        },
    }
}

/// The name of the `n`-th thunk that is lifted out of the definition `base`.
pub open spec fn thunk_name(base: Seq<char>, n: nat) -> Seq<char> {
    generated_name(base, "$__thunk_"@, n)
}

/// The definition that takes the variables `captured` and does what `body` does. Its `var_bound` is
/// greater than its parameters and the binders of its body.
pub open spec fn thunk_definition(
    captured: Seq<usize>,
    types: Seq<VType>,
    body: Comp,
) -> Definition {
    let args = captured_params(captured, types);
    Definition {
        args,
        body,
        c_type: CType::Default,
        var_bound: greater(top_of_params(args), top(body)),
    }
}

/// Whether the parameters of `def` are less than its `var_bound`.
pub open spec fn params_fit(def: Definition) -> bool {
    forall|i: int| 0 <= i < def.args.len() ==> (#[trigger] def.args[i]).0 < def.var_bound
}

/// Whether `v` is a thunk that is lifted: one of something other than a plain call.
pub open spec fn is_lifted(v: Value) -> bool {
    v matches Value::Thunk { t, .. } && !is_call(*t)
}

/// The value `v` of the definition `base` with its thunk lifted as the `n`-th of `base`. What is
/// inside of it stays as it is.
pub open spec fn lift_value(base: Seq<char>, n: nat, v: Value) -> Value {
    match v {
        Value::Thunk { t, may_have_complex_effects } => if is_call(*t) {
            v
        } else {
            let call = lifted_call(
                thunk_name(base, n),
                sorted(free_in_value(v)),
                may_have_complex_effects,
            );
            Value::Thunk { t: Box::new(call), may_have_complex_effects }
        },
        _ => v,
    }
}

/// The thunk `v`, if it is lifted.
pub open spec fn thunks_of_value(v: Value) -> Seq<Value> {
    if is_lifted(v) {
        seq![v]
    } else {
        Seq::empty()
    }
}

/// The thunks among `vs` that are lifted, in order.
pub open spec fn thunks_of_values(vs: Seq<Value>) -> Seq<Value>
    decreases vs.len(),
{
    if vs.len() == 0 {
        Seq::empty()
    } else {
        thunks_of_values(vs.drop_last()) + thunks_of_value(vs.last())
    }
}

/// The thunks of `c` that are lifted, in order: the outermost ones of something other than a plain
/// call.
pub open spec fn thunks_of_comp(c: Comp) -> Seq<Value>
    decreases c,
{
    match c {
        Comp::Redex { function, args } => thunks_of_comp(*function) + thunks_of_values(args),
        Comp::Return { value } => thunks_of_value(value),
        Comp::Force { thunk, .. } => thunks_of_value(thunk),
        Comp::Def { .. } => Seq::empty(),
        Comp::PrimitiveCall { args, .. } => thunks_of_values(args),
        Comp::Lambda { body, .. } => thunks_of_comp(*body),
    }
}

/// The values `vs` with their thunks lifted one after the other.
pub open spec fn lift_values(base: Seq<char>, n: nat, vs: Seq<Value>) -> Seq<Value>
    decreases vs.len(),
{
    if vs.len() == 0 {
        Seq::empty()
    } else {
        let front = vs.drop_last();
        lift_values(base, n, front).push(
            lift_value(base, n + thunks_of_values(front).len(), vs.last()),
        )
    }
}

/// The computation `c` of the definition `base` with its thunks lifted, of which the first becomes
/// the `n`-th of `base`.
pub open spec fn lift_comp(base: Seq<char>, n: nat, c: Comp) -> Comp
    decreases c,
{
    match c {
        Comp::Redex { function, args } => Comp::Redex {
            function: Box::new(lift_comp(base, n, *function)),
            args: lift_values(base, n + thunks_of_comp(*function).len(), args),
        },
        Comp::Return { value } => Comp::Return { value: lift_value(base, n, value) },
        Comp::Force { thunk, may_have_complex_effects } => Comp::Force {
            thunk: lift_value(base, n, thunk),
            may_have_complex_effects,
        },
        Comp::Def { .. } => c,
        Comp::PrimitiveCall { name, args } => Comp::PrimitiveCall {
            name,
            args: lift_values(base, n, args),
        },
        Comp::Lambda { args, body, may_have_complex_effects } => Comp::Lambda {
            args,
            body: Box::new(lift_comp(base, n, *body)),
            may_have_complex_effects,
        },
    }
}

/// The definitions that `thunks` of the definition `base` become, of which the first is the `n`-th
/// of `base`.
pub open spec fn thunk_definitions(
    base: Seq<char>,
    types: Seq<VType>,
    n: nat,
    thunks: Seq<Value>,
) -> Seq<(Seq<char>, Definition)> {
    Seq::new(
        thunks.len(),
        |i: int|
            (
                thunk_name(base, (n + i) as nat),
                thunk_definition(sorted(free_in_value(thunks[i])), types, *thunks[i]->Thunk_t),
            ),
    )
}

/// Whether each of `thunks` captures only variables less than `bound`, and there is an index after
/// each of its variables and binders.
pub open spec fn captures_below(bound: nat, thunks: Seq<Value>) -> bool {
    forall|i: int| 0 <= i < thunks.len() ==> thunk_fits(bound, #[trigger] thunks[i])
}

/// Whether `v` captures only variables less than `bound`, and there is an index after each of its
/// variables and binders.
pub open spec fn thunk_fits(bound: nat, v: Value) -> bool {
    below(free_in_value(v), bound) && top_of_value(v) <= usize::MAX
}

/// The definition `def` with its binders distinct: its parameters are `0`, `1` and so on, and the
/// binders of its body follow.
pub open spec fn rename_definition(def: Definition) -> Definition {
    Definition {
        args: fresh_params(0, def.args),
        body: rename_comp(bind_params(Map::empty(), 0, def.args), def.args.len(), def.body),
        var_bound: def.args.len() + binders_in_comp(def.body),
        ..def
    }
}

/// The definitions `defs` with their applications normalized.
pub open spec fn with_normal_redexes(defs: Seq<(Seq<char>, Definition)>) -> Seq<
    (Seq<char>, Definition),
> {
    defs.map_values(
        |d: (Seq<char>, Definition)|
            (d.0, Definition { body: normalize_comp(d.1.body), ..d.1 }),
    )
}

/// The definitions `defs`, renamed.
pub open spec fn with_distinct_vars(defs: Seq<(Seq<char>, Definition)>) -> Seq<
    (Seq<char>, Definition),
> {
    defs.map_values(|d: (Seq<char>, Definition)| (d.0, rename_definition(d.1)))
}

/// The types of the local variables of `def`: those of its parameters, and uniform for others.
pub open spec fn local_types(def: Definition) -> Seq<VType> {
    set_types(Seq::new(def.var_bound, |i: int| VType::Uniform), def.args)
}

/// The definitions `defs` with thunks lifted, but without what these become.
pub open spec fn with_lifted_bodies(defs: Seq<(Seq<char>, Definition)>) -> Seq<
    (Seq<char>, Definition),
> {
    defs.map_values(
        |d: (Seq<char>, Definition)|
            (d.0, Definition { body: lift_comp(d.0, 0, d.1.body), ..d.1 }),
    )
}

/// What the thunks of `defs` become.
pub open spec fn lifted(defs: Seq<(Seq<char>, Definition)>) -> Seq<(Seq<char>, Definition)>
    decreases defs.len(),
{
    if defs.len() == 0 {
        Seq::empty()
    } else {
        let (name, def) = defs.last();
        lifted(defs.drop_last()) + thunk_definitions(
            name,
            local_types(def),
            0,
            thunks_of_comp(def.body),
        )
    }
}

/// The definitions `defs`, renamed and with thunks lifted.
pub open spec fn with_lifted_thunks(defs: Seq<(Seq<char>, Definition)>) -> Seq<
    (Seq<char>, Definition),
> {
    let distinct = with_distinct_vars(defs);
    put_all(with_lifted_bodies(distinct), with_distinct_vars(lifted(distinct)))
}

/// Whether there are indexes enough for the binders of each of `defs`.
pub open spec fn all_renamable(defs: Seq<(Seq<char>, Definition)>) -> bool {
    forall|i: int| 0 <= i < defs.len() ==> renamable((#[trigger] defs[i]).1)
}

/// Whether there are indexes enough for the binders of `def`.
pub open spec fn renamable(def: Definition) -> bool {
    def.args.len() + binders_in_comp(def.body) <= usize::MAX
}

/// Whether all local variables that matter to lifting out of `def` are less than its `var_bound`,
/// and there are numbers enough for what is lifted.
pub open spec fn liftable(def: Definition) -> bool {
    &&& params_fit(def)
    &&& captures_below(def.var_bound, thunks_of_comp(def.body))
    &&& thunks_of_comp(def.body).len() <= usize::MAX
}

/// Whether thunks can be lifted out of `defs`.
pub open spec fn all_liftable(defs: Seq<(Seq<char>, Definition)>) -> bool {
    let distinct = with_distinct_vars(defs);
    &&& all_renamable(defs)
    &&& forall|i: int| 0 <= i < distinct.len() ==> liftable((#[trigger] distinct[i]).1)
    &&& all_renamable(lifted(distinct))
}

/// Normalizes applications.
pub struct RedexNormalizer {}

impl RedexNormalizer {
    /// Builds the application of `function`, which is normalized, to `args`.
    fn transform_redex(&self, function: CTerm, args: Vec<VTerm>) -> (r: CTerm)
        ensures
            r@ == apply(function@, values(args@)),
    {
        build_redex(function, args)
    }

    /// Normalizes the applications of `v`.
    fn transform_v_term(&self, v: &VTerm) -> (r: VTerm)
        ensures
            r@ == normalize_value(v@),
        decreases v,
    {
        match v {
            VTerm::Var { index } => VTerm::Var { index: *index },
            VTerm::Int { value } => VTerm::Int { value: *value },
            VTerm::Thunk { t, may_have_complex_effects } => VTerm::Thunk {
                t: Box::new(self.transform_c_term(t)),
                may_have_complex_effects: *may_have_complex_effects,
            },
        }
    }

    /// Normalizes the applications of each of `vs`.
    fn transform_v_terms(&self, vs: &Vec<VTerm>) -> (r: Vec<VTerm>)
        ensures
            values(r@) == normalize_values(values(vs@)),
        decreases vs,
    {
        let mut r: Vec<VTerm> = Vec::new();
        for i in 0..vs.len()
            invariant
                r@.len() == i,
                forall|j: int|
                    0 <= j < i ==> value(#[trigger] r@[j]) == normalize_value(value(vs@[j])),
        {
            r.push(self.transform_v_term(&vs[i]));
        }
        assert(values(r@) =~= normalize_values(values(vs@)));
        r
    }

    /// Normalizes the applications of `c`.
    pub fn transform_c_term(&self, c: &CTerm) -> (r: CTerm)
        ensures
            r@ == normalize_comp(c@),
        decreases c,
    {
        match c {
            CTerm::Redex { function, args } => {
                let function = self.transform_c_term(function);
                self.transform_redex(function, clone_v_terms(args))
            },
            CTerm::Return { value } => CTerm::Return { value: self.transform_v_term(value) },
            CTerm::Force { thunk, may_have_complex_effects } => CTerm::Force {
                thunk: self.transform_v_term(thunk),
                may_have_complex_effects: *may_have_complex_effects,
            },
            CTerm::Def { name, may_have_complex_effects } => CTerm::Def {
                name: name.clone(),
                may_have_complex_effects: *may_have_complex_effects,
            },
            CTerm::PrimitiveCall { name, args } => CTerm::PrimitiveCall {
                name: name.clone(),
                args: self.transform_v_terms(args),
            },
            CTerm::Lambda { args, body, may_have_complex_effects } => CTerm::Lambda {
                args: clone_params(args),
                body: Box::new(self.transform_c_term(body)),
                may_have_complex_effects: *may_have_complex_effects,
            },
        }
    }
}

/// Lifts thunks of a definition to definitions of their own.
pub struct ThunkLifter<'a> {
    /// The name of the definition.
    pub def_name: &'a str,
    /// The number of thunks lifted so far.
    pub thunk_counter: usize,
    /// What the thunks lifted so far have become.
    pub new_defs: Vec<(String, FunctionDefinition)>,
    /// The types of the local variables of the definition.
    pub local_var_types: &'a Vec<VType>,
}

impl<'a> ThunkLifter<'a> {
    /// Whether `self` lifts out of the same definition as `other`.
    pub open spec fn same_definition(self, other: Self) -> bool {
        self.def_name@ == other.def_name@ && self.local_var_types@ == other.local_var_types@
    }

    /// Whether `self` is `before` after it has lifted `thunks`.
    pub open spec fn has_lifted(self, before: Self, thunks: Seq<Value>) -> bool {
        &&& self.same_definition(before)
        &&& self.thunk_counter == before.thunk_counter + thunks.len()
        &&& definitions(self.new_defs@) == definitions(before.new_defs@) + thunk_definitions(
            before.def_name@,
            before.local_var_types@,
            before.thunk_counter as nat,
            thunks,
        )
    }

    /// Adds the definition of the given name that captures `free_vars` and does what `thunk` does,
    /// and builds a call of it.
    fn replace_thunk(
        &mut self,
        thunk_def_name: String,
        free_vars: Vec<usize>,
        thunk: CTerm,
        may_have_complex_effects: bool,
    ) -> (r: CTerm)
        requires
            forall|i: int|
                0 <= i < free_vars@.len() ==> #[trigger] free_vars@[i]
                    < old(self).local_var_types@.len(),
            top(thunk@) <= usize::MAX,
        ensures
            final(self).same_definition(*old(self)),
            final(self).thunk_counter == old(self).thunk_counter,
            r@ == lifted_call(thunk_def_name@, free_vars@, may_have_complex_effects),
            params_fit(definitions(final(self).new_defs@).last().1),
            definitions(final(self).new_defs@) == definitions(old(self).new_defs@).push(
                (
                    thunk_def_name@,
                    thunk_definition(free_vars@, old(self).local_var_types@, thunk@),
                ),
            ),
    {
        let ghost types = self.local_var_types@;
        let mut call_args: Vec<VTerm> = Vec::new();
        let mut args: Vec<(usize, VType)> = Vec::new();
        for i in 0..free_vars.len()
            invariant
                types == self.local_var_types@,
                forall|i: int|
                    0 <= i < free_vars@.len() ==> #[trigger] free_vars@[i] < types.len(),
                values(call_args@) == vars(free_vars@.take(i as int)),
                args@ == captured_params(free_vars@.take(i as int), types),
        {
            let index = free_vars[i];
            let v = VTerm::Var { index };
            proof {
                lemma_values_push(call_args@, v);
            }
            call_args.push(v);
            args.push((index, self.local_var_types[index]));
            assert(values(call_args@) =~= vars(free_vars@.take(i + 1)));
            assert(args@ =~= captured_params(free_vars@.take(i + 1), types));
        }
        assert(free_vars@.take(free_vars@.len() as int) =~= free_vars@);
        let def = CTerm::Def { name: thunk_def_name.clone(), may_have_complex_effects };
        assert(def@ == (Comp::Def { name: thunk_def_name@, may_have_complex_effects }));
        let redex = CTerm::Redex { function: Box::new(def), args: call_args };
        proof {
            assert(types.len() == self.local_var_types.len());
            lemma_top_of_params_below(args@, types.len());
            lemma_top_of_params(args@);
        }
        let top_of_args = find_top_of_params(&args);
        let top_of_body = find_top(&thunk);
        let var_bound = if top_of_args <= top_of_body {
            top_of_body
        } else {
            top_of_args
        };
        let function_definition = FunctionDefinition {
            args,
            body: thunk,
            c_type: CType::Default,
            var_bound,
        };
        let ghost before = self.new_defs@;
        self.new_defs.push((thunk_def_name, function_definition));
        assert(definitions(self.new_defs@) =~= definitions(before).push(
            (thunk_def_name@, function_definition@),
        ));
        redex
    }

    /// Lifts the thunk of `t`, unless `t` is a plain call.
    fn transform_thunk(&mut self, t: &CTerm, may_have_complex_effects: bool) -> (r: VTerm)
        requires
            !is_call(t@) ==> {
                &&& old(self).thunk_counter < usize::MAX
                &&& below(free_in_comp(t@), old(self).local_var_types@.len())
                &&& top(t@) <= usize::MAX
            },
        ensures
            ({
                let v = Value::Thunk { t: Box::new(t@), may_have_complex_effects };
                &&& r@ == lift_value(old(self).def_name@, old(self).thunk_counter as nat, v)
                &&& final(self).has_lifted(*old(self), thunks_of_value(v))
            }),
    {
        let ghost v = Value::Thunk { t: Box::new(t@), may_have_complex_effects };
        let stays = match t {
            CTerm::Def { .. } => true,
            CTerm::Redex { function, .. } => {
                assert(function@ is Def <==> **function is Def);
                matches!(**function, CTerm::Def { .. })
            },
            _ => false,
        };
        assert(stays == is_call(t@));
        if stays {
            // There is no need to lift the thunk if it's already a simple function call.
            assert(definitions(self.new_defs@) =~= definitions(old(self).new_defs@)
                + thunk_definitions(
                old(self).def_name@,
                old(self).local_var_types@,
                old(self).thunk_counter as nat,
                Seq::empty(),
            ));
            return VTerm::Thunk { t: Box::new(t.clone()), may_have_complex_effects };
        }
        assert(free_in_value(v) == free_in_comp(t@));
        let free_vars = t.free_vars();
        assert forall|i: int| 0 <= i < free_vars@.len() implies #[trigger] free_vars@[i]
            < self.local_var_types@.len() by {
            assert(free_vars@.contains(free_vars@[i]));
        }
        let thunk_def_name = generate_name(self.def_name, "$__thunk_", self.thunk_counter);
        self.thunk_counter = self.thunk_counter + 1;
        let redex = self.replace_thunk(
            thunk_def_name,
            free_vars,
            t.clone(),
            may_have_complex_effects,
        );
        assert(definitions(self.new_defs@) =~= definitions(old(self).new_defs@)
            + thunk_definitions(
            old(self).def_name@,
            old(self).local_var_types@,
            old(self).thunk_counter as nat,
            seq![v],
        ));
        VTerm::Thunk { t: Box::new(redex), may_have_complex_effects }
    }

    /// Lifts `v` if it is a thunk.
    fn transform_v_term(&mut self, v: &VTerm) -> (r: VTerm)
        requires
            old(self).thunk_counter + thunks_of_value(v@).len() <= usize::MAX,
            captures_below(old(self).local_var_types@.len(), thunks_of_value(v@)),
        ensures
            r@ == lift_value(old(self).def_name@, old(self).thunk_counter as nat, v@),
            final(self).has_lifted(*old(self), thunks_of_value(v@)),
    {
        let ghost none = thunk_definitions(
            self.def_name@,
            self.local_var_types@,
            self.thunk_counter as nat,
            Seq::empty(),
        );
        match v {
            VTerm::Var { index } => {
                assert(definitions(self.new_defs@) =~= definitions(self.new_defs@) + none);
                VTerm::Var { index: *index }
            },
            VTerm::Int { value } => {
                assert(definitions(self.new_defs@) =~= definitions(self.new_defs@) + none);
                VTerm::Int { value: *value }
            },
            VTerm::Thunk { t, may_have_complex_effects } => {
                assert(v@ == (Value::Thunk {
                    t: Box::new(t@),
                    may_have_complex_effects: *may_have_complex_effects,
                }));
                assert(!is_call(t@) ==> thunks_of_value(v@)[0] == v@);
                assert(free_in_value(v@) == free_in_comp(t@));
                self.transform_thunk(t, *may_have_complex_effects)
            },
        }
    }

    /// Lifts the thunks among `vs`.
    fn transform_v_terms(&mut self, vs: &Vec<VTerm>) -> (r: Vec<VTerm>)
        requires
            old(self).thunk_counter + thunks_of_values(values(vs@)).len() <= usize::MAX,
            captures_below(old(self).local_var_types@.len(), thunks_of_values(values(vs@))),
        ensures
            values(r@) == lift_values(
                old(self).def_name@,
                old(self).thunk_counter as nat,
                values(vs@),
            ),
            final(self).has_lifted(*old(self), thunks_of_values(values(vs@))),
    {
        let mut r: Vec<VTerm> = Vec::new();
        let ghost base = self.def_name@;
        let ghost types = self.local_var_types@;
        let ghost n = self.thunk_counter as nat;
        let ghost all = values(vs@);
        assert(values(r@) =~= lift_values(base, n, all.take(0)));
        assert(definitions(self.new_defs@) =~= definitions(self.new_defs@) + thunk_definitions(
            base,
            types,
            n,
            thunks_of_values(all.take(0)),
        ));
        for i in 0..vs.len()
            invariant
                base == old(self).def_name@,
                types == old(self).local_var_types@,
                n == old(self).thunk_counter,
                all == values(vs@),
                n + thunks_of_values(all).len() <= usize::MAX,
                captures_below(types.len(), thunks_of_values(all)),
                values(r@) == lift_values(base, n, all.take(i as int)),
                self.has_lifted(*old(self), thunks_of_values(all.take(i as int))),
        {
            let ghost done = thunks_of_values(all.take(i as int));
            let ghost new = thunks_of_value(value(vs@[i as int]));
            assert(all.take(i + 1).drop_last() =~= all.take(i as int));
            assert(all.take(i + 1).last() == value(vs@[i as int]));
            proof {
                lemma_thunks_prefix(all, i + 1);
            }
            assert forall|j: int| 0 <= j < new.len() implies thunk_fits(
                types.len(),
                #[trigger] new[j],
            ) by {
                let next = thunks_of_values(all.take(i + 1));
                assert(next == done + new);
                assert(new[j] == next[done.len() + j]);
                assert(next[done.len() + j] == thunks_of_values(all)[done.len() + j]);
            }
            let ghost before = *self;
            let v = self.transform_v_term(&vs[i]);
            proof {
                lemma_values_push(r@, v);
                lemma_has_lifted_more(*old(self), before, *self, done, new);
            }
            r.push(v);
        }
        assert(all.take(vs@.len() as int) =~= all);
        r
    }

    /// Lifts the thunks of `c`.
    pub fn transform_c_term(&mut self, c: &CTerm) -> (r: CTerm)
        requires
            old(self).thunk_counter + thunks_of_comp(c@).len() <= usize::MAX,
            captures_below(old(self).local_var_types@.len(), thunks_of_comp(c@)),
        ensures
            r@ == lift_comp(old(self).def_name@, old(self).thunk_counter as nat, c@),
            final(self).has_lifted(*old(self), thunks_of_comp(c@)),
        decreases c,
    {
        match c {
            CTerm::Redex { function, args } => {
                let ghost first = thunks_of_comp(function@);
                let ghost second = thunks_of_values(values(args@));
                assert(thunks_of_comp(c@) == first + second);
                assert forall|j: int| 0 <= j < first.len() implies thunk_fits(
                    self.local_var_types@.len(),
                    #[trigger] first[j],
                ) by {
                    assert(first[j] == thunks_of_comp(c@)[j]);
                }
                assert forall|j: int| 0 <= j < second.len() implies thunk_fits(
                    self.local_var_types@.len(),
                    #[trigger] second[j],
                ) by {
                    assert(second[j] == thunks_of_comp(c@)[first.len() + j]);
                }
                let function = self.transform_c_term(function);
                let ghost before = *self;
                let args = self.transform_v_terms(args);
                proof {
                    lemma_has_lifted_more(*old(self), before, *self, first, second);
                }
                CTerm::Redex { function: Box::new(function), args }
            },
            CTerm::Return { value } => CTerm::Return { value: self.transform_v_term(value) },
            CTerm::Force { thunk, may_have_complex_effects } => CTerm::Force {
                thunk: self.transform_v_term(thunk),
                may_have_complex_effects: *may_have_complex_effects,
            },
            CTerm::Def { name, may_have_complex_effects } => {
                assert(definitions(self.new_defs@) =~= definitions(self.new_defs@)
                    + thunk_definitions(
                    self.def_name@,
                    self.local_var_types@,
                    self.thunk_counter as nat,
                    Seq::empty(),
                ));
                CTerm::Def {
                    name: name.clone(),
                    may_have_complex_effects: *may_have_complex_effects,
                }
            },
            CTerm::PrimitiveCall { name, args } => CTerm::PrimitiveCall {
                name: name.clone(),
                args: self.transform_v_terms(args),
            },
            CTerm::Lambda { args, body, may_have_complex_effects } => CTerm::Lambda {
                args: clone_params(args),
                body: Box::new(self.transform_c_term(body)),
                may_have_complex_effects: *may_have_complex_effects,
            },
        }
    }
}

/// Lifting some thunks and then others is lifting them all.
proof fn lemma_has_lifted_more(
    start: ThunkLifter,
    middle: ThunkLifter,
    end: ThunkLifter,
    first: Seq<Value>,
    second: Seq<Value>,
)
    requires
        middle.has_lifted(start, first),
        end.has_lifted(middle, second),
    ensures
        end.has_lifted(start, first + second),
{
    assert(definitions(end.new_defs@) =~= definitions(start.new_defs@) + thunk_definitions(
        start.def_name@,
        start.local_var_types@,
        start.thunk_counter as nat,
        first + second,
    ));
}

/// The thunks of a prefix of a sequence of values are a prefix of the thunks of the whole.
proof fn lemma_thunks_prefix(vs: Seq<Value>, k: int)
    requires
        0 <= k <= vs.len(),
    ensures
        thunks_of_values(vs.take(k)).len() <= thunks_of_values(vs).len(),
        thunks_of_values(vs.take(k)) == thunks_of_values(vs).take(
            thunks_of_values(vs.take(k)).len() as int,
        ),
    decreases vs.len(),
{
    if k < vs.len() {
        lemma_thunks_prefix(vs.drop_last(), k);
        assert(vs.drop_last().take(k) =~= vs.take(k));
    } else {
        assert(vs.take(k) =~= vs);
    }
    assert(thunks_of_values(vs.take(k)) =~= thunks_of_values(vs).take(
        thunks_of_values(vs.take(k)).len() as int,
    ));
}

/// A collection of named definitions.
pub struct Signature {
    /// The definitions, no two of the same name.
    pub defs: Vec<(String, FunctionDefinition)>,
}

impl View for Signature {
    type V = Seq<(Seq<char>, Definition)>;

    open spec fn view(&self) -> Seq<(Seq<char>, Definition)> {
        definitions(self.defs@)
    }
}

impl Signature {
    /// Whether no two definitions have the same name.
    pub open spec fn wf(self) -> bool {
        distinct_names(self@)
    }

    /// No definitions.
    pub fn new() -> (r: Self)
        ensures
            r.wf(),
            r@ == Seq::<(Seq<char>, Definition)>::empty(),
    {
        let r = Signature { defs: Vec::new() };
        assert(r@ =~= Seq::empty());
        r
    }

    /// The definitions.
    pub fn into_defs(self) -> (r: Vec<(String, FunctionDefinition)>)
        ensures
            r@ == self.defs@,
            definitions(r@) == self@,
    {
        self.defs
    }

    /// Adds a definition, in place of one of the same name.
    pub fn insert(&mut self, name: String, def: FunctionDefinition)
        requires
            old(self).wf(),
        ensures
            final(self).wf(),
            final(self)@ == put(old(self)@, name@, def@),
    {
        let len = self.defs.len();
        for i in 0..len
            invariant
                len == self.defs@.len(),
                self.defs@ == old(self).defs@,
                old(self).wf(),
                forall|j: int| 0 <= j < i ==> (#[trigger] old(self)@[j]).0 != name@,
        {
            assert(old(self)@[i as int].0 == self.defs@[i as int].0@);
            if self.defs[i].0 == name {
                assert(holds(old(self)@, name@));
                self.defs[i] = (name, def);
                assert(self@ =~= put(old(self)@, name@, def@));
                return;
            }
        }
        self.defs.push((name, def));
        assert(self@ =~= put(old(self)@, name@, def@));
    }

    /// Normalizes applications.
    pub fn normalize_redex(&mut self)
        requires
            old(self).wf(),
        ensures
            final(self).wf(),
            final(self)@ == with_normal_redexes(old(self)@),
    {
        let normalizer = RedexNormalizer {  };
        let len = self.defs.len();
        for i in 0..len
            invariant
                len == self.defs@.len(),
                len == old(self).defs@.len(),
                forall|j: int|
                    0 <= j < i ==> #[trigger] self@[j] == with_normal_redexes(old(self)@)[j],
                forall|j: int| i <= j < len ==> #[trigger] self@[j] == old(self)@[j],
        {
            let body = normalizer.transform_c_term(&self.defs[i].1.body);
            assert(self@[i as int] == old(self)@[i as int]);
            let ghost before = self@;
            self.defs[i].1.body = body;
            assert(forall|j: int| 0 <= j < len && j != i ==> #[trigger] self@[j] == before[j]);
        }
        assert(self@ =~= with_normal_redexes(old(self)@));
    }

    /// Makes the local variables of each definition distinct, then lifts thunks to definitions of
    /// their own.
    pub fn lift_thunks(&mut self)
        requires
            old(self).wf(),
            all_liftable(old(self)@),
        ensures
            final(self).wf(),
            final(self)@ == with_lifted_thunks(old(self)@),
    {
        self.rename_local_vars();
        let mut new_defs: Vec<(String, FunctionDefinition)> = Vec::new();
        let len = self.defs.len();
        let ghost defs = self@;
        assert(definitions(new_defs@) =~= lifted(defs.take(0)));
        for i in 0..len
            invariant
                len == self.defs@.len(),
                len == defs.len(),
                forall|j: int| 0 <= j < defs.len() ==> liftable((#[trigger] defs[j]).1),
                forall|j: int| 0 <= j < i ==> #[trigger] self@[j] == with_lifted_bodies(defs)[j],
                forall|j: int| i <= j < len ==> #[trigger] self@[j] == defs[j],
                definitions(new_defs@) == lifted(defs.take(i as int)),
        {
            assert(self@[i as int] == defs[i as int]);
            assert(liftable(defs[i as int].1));
            assert(self.defs@[i as int].1.args@ == defs[i as int].1.args);
            let local_var_types = find_local_types(
                &self.defs[i].1.args,
                self.defs[i].1.var_bound,
            );
            proof {
                lemma_set_types_len(
                    Seq::new(defs[i as int].1.var_bound, |j: int| VType::Uniform),
                    defs[i as int].1.args,
                );
            }
            let mut thunk_lifter = ThunkLifter {
                def_name: self.defs[i].0.as_str(),
                thunk_counter: 0,
                new_defs,
                local_var_types: &local_var_types,
            };
            let body = thunk_lifter.transform_c_term(&self.defs[i].1.body);
            new_defs = thunk_lifter.new_defs;
            let ghost before = self@;
            self.defs[i].1.body = body;
            assert(forall|j: int| 0 <= j < len && j != i ==> #[trigger] self@[j] == before[j]);
            assert(defs.take(i + 1).drop_last() =~= defs.take(i as int));
        }
        assert(defs.take(len as int) =~= defs);
        assert(self@ =~= with_lifted_bodies(defs));
        let ghost bodies = self@;
        let ghost all = with_distinct_vars(definitions(new_defs@));
        for i in 0..new_defs.len()
            invariant
                self.wf(),
                all == with_distinct_vars(definitions(new_defs@)),
                all_renamable(definitions(new_defs@)),
                self@ == put_all(bodies, all.take(i as int)),
        {
            assert(renamable(definitions(new_defs@)[i as int].1));
            let def = Self::rename_local_vars_in_def(&new_defs[i].1);
            self.insert(new_defs[i].0.clone(), def);
            assert(all.take(i + 1).drop_last() =~= all.take(i as int));
        }
        assert(all.take(new_defs@.len() as int) =~= all);
    }

    /// Makes the local variables of each definition distinct.
    pub fn rename_local_vars(&mut self)
        requires
            old(self).wf(),
            all_renamable(old(self)@),
        ensures
            final(self).wf(),
            final(self)@ == with_distinct_vars(old(self)@),
    {
        let len = self.defs.len();
        for i in 0..len
            invariant
                len == self.defs@.len(),
                len == old(self)@.len(),
                all_renamable(old(self)@),
                forall|j: int|
                    0 <= j < i ==> #[trigger] self@[j] == with_distinct_vars(old(self)@)[j],
                forall|j: int| i <= j < len ==> #[trigger] self@[j] == old(self)@[j],
        {
            assert(self@[i as int] == old(self)@[i as int]);
            let def = Self::rename_local_vars_in_def(&self.defs[i].1);
            let ghost before = self@;
            self.defs[i].1 = def;
            assert(forall|j: int| 0 <= j < len && j != i ==> #[trigger] self@[j] == before[j]);
        }
        assert(self@ =~= with_distinct_vars(old(self)@));
    }

    /// The definition `def` with distinct local variables.
    fn rename_local_vars_in_def(def: &FunctionDefinition) -> (r: FunctionDefinition)
        requires
            renamable(def@),
        ensures
            r@ == rename_definition(def@),
    {
        let mut renamer = DistinctVarRenamer::new();
        let args = renamer.add_bindings(&def.args);
        let body = renamer.transform_c_term(&def.body);
        FunctionDefinition { args, body, c_type: def.c_type, var_bound: renamer.counter() }
    }

    /// Runs both passes.
    pub fn optimize(&mut self)
        requires
            old(self).wf(),
            all_liftable(with_normal_redexes(old(self)@)),
        ensures
            final(self).wf(),
            final(self)@ == with_lifted_thunks(with_normal_redexes(old(self)@)),
    {
        self.normalize_redex();
        self.lift_thunks();
    }
}

} // verus!
