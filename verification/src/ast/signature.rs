//! Definitions and the passes that optimize them.
use crate::ast::checks::{check_calls, check_liftable, check_renamable};
use crate::ast::lifter::{
    captures_below, lemma_lift_leaves_no_binders, lift_comp, lifts_in_comp, no_binders, params_fit,
    LambdaLifter,
};
use crate::ast::lifting::{all_closed, all_have_distinct_vars, all_vars_fit};
use crate::ast::optimization::{
    lemma_closed_after_renaming, lemma_distinct_after_lifting, lemma_distinct_after_reduction,
    lemma_distinct_after_renaming, lemma_fits_after_lifting, lemma_fits_after_simplifying,
    lemma_fits_after_specializing,
};
use crate::ast::primitive_functions::{Primitive, PrimitiveFunctions};
use crate::ast::reducer::{reduce_comp, reduced, reduces, RedexReducer};
use crate::ast::redundancy::{simplify_comp, RedundancyRemover};
use crate::ast::renamer::{
    bind_params, binders_in_comp, fresh_params, lemma_rename_keeps_count, rename_comp,
    DistinctVarRenamer,
};
use crate::ast::specializer::{
    calls_fit, lemma_wrappers_have_no_binders, specialize_comp, wrappers_of_comp, CallSpecializer,
};
use crate::ast::term::{clone_params, CTerm, CType, Comp, VType};
use crate::ast::usage::{find_top, find_top_of_params, greater, lesser, top, top_of_params};
use vstd::prelude::*;

verus! {

/// The definition of a function.
#[derive(Debug)]
pub struct FunctionDefinition {
    pub args: Vec<(usize, VType)>,
    pub body: CTerm,
    pub c_type: CType,
    /// The (exclusive) upperbound of local variables bound in this definition. This is useful to
    /// initialize an array, which can be guaranteed to fit all local variables in this function.
    pub var_bound: usize,
    /// This function may be simple (after specialization). In this case a simple version of the
    /// function is generated for faster calls.
    pub may_be_simple: bool,
    pub may_be_complex: bool,
}

/// The mathematical counterpart of [`FunctionDefinition`].
pub struct Definition {
    pub args: Seq<(usize, VType)>,
    pub body: Comp,
    pub c_type: CType,
    pub var_bound: nat,
    pub may_be_simple: bool,
    pub may_be_complex: bool,
}

impl View for FunctionDefinition {
    type V = Definition;

    open spec fn view(&self) -> Definition {
        Definition {
            args: self.args@,
            body: self.body@,
            c_type: self.c_type,
            var_bound: self.var_bound as nat,
            may_be_simple: self.may_be_simple,
            may_be_complex: self.may_be_complex,
        }
    }
}

impl Clone for FunctionDefinition {
    fn clone(&self) -> (r: Self)
        ensures
            r@ == self@,
    {
        FunctionDefinition {
            args: clone_params(&self.args),
            body: self.body.clone(),
            c_type: self.c_type,
            var_bound: self.var_bound,
            may_be_simple: self.may_be_simple,
            may_be_complex: self.may_be_complex,
        }
    }
}

impl FunctionDefinition {
    /// Whether calls of this function can be specialized.
    pub fn is_specializable(&self) -> (r: bool)
        ensures
            r == (self.may_be_simple && self.c_type is SpecializedF),
    {
        self.may_be_simple && matches!(self.c_type, CType::SpecializedF(_))
    }
}

/// The mathematical counterpart of a list of named definitions.
pub open spec fn definitions(defs: Seq<(String, FunctionDefinition)>) -> Seq<
    (Seq<char>, Definition),
> {
    Seq::new(defs.len(), |i: int| (defs[i].0@, defs[i].1@))
}

/// [`definitions`] goes through the elements one by one.
pub proof fn lemma_definitions_push(
    defs: Seq<(String, FunctionDefinition)>,
    def: (String, FunctionDefinition),
)
    ensures
        definitions(defs.push(def)) == definitions(defs).push((def.0@, def.1@)),
{
    assert(definitions(defs.push(def)) =~= definitions(defs).push((def.0@, def.1@)));
}

/// Whether a definition of the given name is among `defs`.
pub open spec fn holds<D>(defs: Seq<(Seq<char>, D)>, name: Seq<char>) -> bool {
    exists|i: int| 0 <= i < defs.len() && (#[trigger] defs[i]).0 == name
}

/// Whether no two of `defs` have the same name.
pub open spec fn distinct_names<D>(defs: Seq<(Seq<char>, D)>) -> bool {
    forall|i: int, j: int|
        0 <= i < j < defs.len() ==> (#[trigger] defs[i]).0 != (#[trigger] defs[j]).0
}

/// The definitions `defs` with `def` under the given name, in place of one of that name.
pub open spec fn put<D>(
    defs: Seq<(Seq<char>, D)>,
    name: Seq<char>,
    def: D,
) -> Seq<(Seq<char>, D)> {
    if holds(defs, name) {
        Seq::new(
            defs.len(),
            |i: int|
                if defs[i].0 == name {
                    (name, def)
                } else {
                    defs[i]
                },
        )
    } else {
        defs.push((name, def))
    }
}

/// The definition `def` with its binders distinct: its parameters are `0`, `1` and so on, and the
/// binders of its body follow.
pub open spec fn rename_definition(def: Definition) -> Definition {
    Definition {
        args: fresh_params(0, def.args),
        body: rename_comp(bind_params(Map::empty(), 0, def.args), def.args.len(), def.body),
        var_bound: def.args.len() + binders_in_comp(def.body),
        ..def
    }
}

/// The definitions `defs` with each of `new_defs` put in one after the other.
pub open spec fn put_all<D>(
    defs: Seq<(Seq<char>, D)>,
    new_defs: Seq<(Seq<char>, D)>,
) -> Seq<(Seq<char>, D)>
    decreases new_defs.len(),
{
    if new_defs.len() == 0 {
        defs
    } else {
        put(put_all(defs, new_defs.drop_last()), new_defs.last().0, new_defs.last().1)
    }
}

/// The definitions `defs` with each of `new_defs`, renamed, put in one after the other.
pub open spec fn put_new(
    defs: Seq<(Seq<char>, Definition)>,
    new_defs: Seq<(Seq<char>, Definition)>,
) -> Seq<(Seq<char>, Definition)> {
    put_all(defs, with_distinct_vars(new_defs))
}

/// The definitions `defs` with redundancy removed.
pub open spec fn without_redundancy(defs: Seq<(Seq<char>, Definition)>) -> Seq<
    (Seq<char>, Definition),
> {
    defs.map_values(
        |d: (Seq<char>, Definition)|
            (d.0, Definition { body: simplify_comp(d.1.body), ..d.1 }),
    )
}

/// The definitions `defs`, renamed.
pub open spec fn with_distinct_vars(defs: Seq<(Seq<char>, Definition)>) -> Seq<
    (Seq<char>, Definition),
> {
    defs.map_values(|d: (Seq<char>, Definition)| (d.0, rename_definition(d.1)))
}

/// The wrappers that the calls of primitive functions in `defs` need.
pub open spec fn wrappers(
    prims: Map<Seq<char>, Primitive>,
    defs: Seq<(Seq<char>, Definition)>,
) -> Seq<(Seq<char>, Definition)>
    decreases defs.len(),
{
    if defs.len() == 0 {
        Seq::empty()
    } else {
        wrappers(prims, defs.drop_last()) + wrappers_of_comp(
            prims,
            defs.last().0,
            defs.last().1.body,
        )
    }
}

/// The definitions `defs` with their calls of primitive functions specialized, but without the
/// wrappers.
pub open spec fn with_specialized_bodies(
    prims: Map<Seq<char>, Primitive>,
    defs: Seq<(Seq<char>, Definition)>,
) -> Seq<(Seq<char>, Definition)> {
    defs.map_values(
        |d: (Seq<char>, Definition)|
            (d.0, Definition { body: specialize_comp(prims, d.0, d.1.body), ..d.1 }),
    )
}

/// The definitions `defs` with their calls of primitive functions specialized.
pub open spec fn with_specialized_calls(
    prims: Map<Seq<char>, Primitive>,
    defs: Seq<(Seq<char>, Definition)>,
) -> Seq<(Seq<char>, Definition)> {
    put_new(with_specialized_bodies(prims, defs), wrappers(prims, defs))
}

/// An index from which on all indexes are unused in `def`: its `var_bound`, or a greater one if
/// there are greater variables or binders. If none fits in a machine word, the greatest machine
/// word stands in for it, and no binder can be numbered anew.
pub open spec fn first_unused(def: Definition) -> nat {
    greater(
        def.var_bound,
        lesser(greater(top_of_params(def.args), top(def.body)), usize::MAX as nat),
    )
}

/// The definition `def` with its body reduced. Its `var_bound` is raised if binders are numbered
/// anew.
pub open spec fn reduce_definition(def: Definition) -> Definition {
    let (body, next) = reduced(first_unused(def), def.body);
    Definition {
        body,
        var_bound: if next == first_unused(def) {
            def.var_bound
        } else {
            next
        },
        ..def
    }
}

/// The definitions `defs` with their bodies reduced.
pub open spec fn without_redexes(defs: Seq<(Seq<char>, Definition)>) -> Seq<
    (Seq<char>, Definition),
> {
    defs.map_values(|d: (Seq<char>, Definition)| (d.0, reduce_definition(d.1)))
}

/// `types` with the types of `params` at the indexes of these.
pub open spec fn set_types(types: Seq<VType>, params: Seq<(usize, VType)>) -> Seq<VType>
    decreases params.len(),
{
    if params.len() == 0 {
        types
    } else {
        set_types(types, params.drop_last()).update(params.last().0 as int, params.last().1)
    }
}

/// The types of the local variables of `def`: those of its parameters, and uniform for others.
pub open spec fn local_types(def: Definition) -> Seq<VType> {
    set_types(Seq::new(def.var_bound, |i: int| VType::Uniform), def.args)
}

/// The types of the local variables of a definition with the given parameters and `var_bound`.
pub(crate) fn find_local_types(params: &Vec<(usize, VType)>, var_bound: usize) -> (r: Vec<VType>)
    requires
        forall|i: int| 0 <= i < params@.len() ==> (#[trigger] params@[i]).0 < var_bound,
    ensures
        r@ == set_types(Seq::new(var_bound as nat, |i: int| VType::Uniform), params@),
{
    let mut types: Vec<VType> = Vec::new();
    for i in 0..var_bound
        invariant
            types@ == Seq::new(i as nat, |j: int| VType::Uniform),
    {
        types.push(VType::Uniform);
        assert(types@ =~= Seq::new((i + 1) as nat, |j: int| VType::Uniform));
    }
    let ghost start = types@;
    for i in 0..params.len()
        invariant
            forall|j: int| 0 <= j < params@.len() ==> (#[trigger] params@[j]).0 < var_bound,
            types@.len() == var_bound,
            types@ == set_types(start, params@.take(i as int)),
    {
        assert(params@[i as int].0 < var_bound);
        types[params[i].0] = params[i].1;
        assert(params@.take(i + 1).drop_last() =~= params@.take(i as int));
    }
    assert(params@.take(params@.len() as int) =~= params@);
    types
}

/// The definitions `defs` with thunks and lambdas lifted, but without what these become.
pub open spec fn with_lifted_bodies(defs: Seq<(Seq<char>, Definition)>) -> Seq<
    (Seq<char>, Definition),
> {
    defs.map_values(
        |d: (Seq<char>, Definition)|
            (
                d.0,
                Definition { body: lift_comp(d.0, local_types(d.1), 0, d.1.body).0, ..d.1 },
            ),
    )
}

/// What the thunks and lambdas of `defs` become.
pub open spec fn lifted(defs: Seq<(Seq<char>, Definition)>) -> Seq<(Seq<char>, Definition)>
    decreases defs.len(),
{
    if defs.len() == 0 {
        Seq::empty()
    } else {
        let (name, def) = defs.last();
        lifted(defs.drop_last()) + lift_comp(name, local_types(def), 0, def.body).1
    }
}

/// The definitions `defs` with thunks and lambdas lifted.
pub open spec fn with_lifted_lambdas(defs: Seq<(Seq<char>, Definition)>) -> Seq<
    (Seq<char>, Definition),
> {
    put_new(with_lifted_bodies(defs), lifted(defs))
}

/// Whether the calls of primitive functions in all of `defs` fit.
pub open spec fn all_calls_fit(
    prims: Map<Seq<char>, Primitive>,
    defs: Seq<(Seq<char>, Definition)>,
) -> bool {
    forall|i: int| 0 <= i < defs.len() ==> calls_fit(prims, (#[trigger] defs[i]).1.body)
}

/// Whether there are indexes enough for the binders of `def`.
pub open spec fn renamable(def: Definition) -> bool {
    def.args.len() + binders_in_comp(def.body) <= usize::MAX
}

/// Whether there are indexes enough for the binders of each of `defs`.
pub open spec fn all_renamable(defs: Seq<(Seq<char>, Definition)>) -> bool {
    forall|i: int| 0 <= i < defs.len() ==> renamable((#[trigger] defs[i]).1)
}

/// Whether the reduction of `def` comes to an end before indexes run out.
pub open spec fn reducible(def: Definition) -> bool {
    &&& reduces(first_unused(def), def.body)
    &&& reduced(first_unused(def), def.body).1 <= usize::MAX
}

/// Whether the reduction of each of `defs` comes to an end before indexes run out.
pub open spec fn all_reduce(defs: Seq<(Seq<char>, Definition)>) -> bool {
    forall|i: int| 0 <= i < defs.len() ==> reducible((#[trigger] defs[i]).1)
}

/// Whether the reduction of `def` comes to an end within `depth` nested steps, and before indexes
/// run out.
pub open spec fn reducible_within(depth: nat, def: Definition) -> bool {
    match reduce_comp(depth, first_unused(def), def.body) {
        Some((_, next)) => next <= usize::MAX,
        None => false,
    }
}

/// Whether each of `defs` is [`reducible_within`] `depth`.
pub open spec fn all_reduce_within(depth: nat, defs: Seq<(Seq<char>, Definition)>) -> bool {
    forall|i: int| 0 <= i < defs.len() ==> reducible_within(depth, (#[trigger] defs[i]).1)
}

/// Whether all local variables that matter to lifting out of `def` are less than its `var_bound`,
/// and there are numbers enough for what is lifted.
pub open spec fn liftable(def: Definition) -> bool {
    &&& params_fit(def)
    &&& captures_below(def.var_bound, def.body)
    &&& lifts_in_comp(def.body) <= usize::MAX
}

/// Whether each of `defs` is [`liftable`].
pub open spec fn all_liftable(defs: Seq<(Seq<char>, Definition)>) -> bool {
    forall|i: int| 0 <= i < defs.len() ==> liftable((#[trigger] defs[i]).1)
}

/// The definitions `defs` as they stand before lambdas are lifted.
pub open spec fn before_lifting(
    prims: Map<Seq<char>, Primitive>,
    defs: Seq<(Seq<char>, Definition)>,
) -> Seq<(Seq<char>, Definition)> {
    without_redexes(with_distinct_vars(with_specialized_calls(prims, without_redundancy(defs))))
}

/// The definitions `defs`, optimized: redundancy is removed, calls of primitive functions are
/// specialized, local variables are made distinct, redexes are reduced, thunks and lambdas are
/// lifted, and local variables are made distinct again.
pub open spec fn optimized(
    prims: Map<Seq<char>, Primitive>,
    defs: Seq<(Seq<char>, Definition)>,
) -> Seq<(Seq<char>, Definition)> {
    with_distinct_vars(with_lifted_lambdas(before_lifting(prims, defs)))
}

/// Whether `defs` can be optimized: each pass can do its work on what the passes before it leave.
pub open spec fn optimizable(
    prims: Map<Seq<char>, Primitive>,
    defs: Seq<(Seq<char>, Definition)>,
) -> bool {
    let simple = without_redundancy(defs);
    let specialized = with_specialized_calls(prims, simple);
    let distinct = with_distinct_vars(specialized);
    &&& all_calls_fit(prims, simple)
    &&& all_renamable(specialized)
    &&& all_reduce(distinct)
    &&& all_liftable(before_lifting(prims, defs))
}

/// Whether `defs` can be optimized, and reduction comes to an end within `depth` nested steps.
pub open spec fn optimizable_within(
    depth: nat,
    prims: Map<Seq<char>, Primitive>,
    defs: Seq<(Seq<char>, Definition)>,
) -> bool {
    let distinct = with_distinct_vars(with_specialized_calls(prims, without_redundancy(defs)));
    optimizable(prims, defs) && all_reduce_within(depth, distinct)
}

/// A collection of named definitions.
pub struct Signature {
    /// The definitions, no two of the same name.
    pub defs: Vec<(String, FunctionDefinition)>,
}

impl View for Signature {
    type V = Seq<(Seq<char>, Definition)>;

    open spec fn view(&self) -> Seq<(Seq<char>, Definition)> {
        definitions(self.defs@)
    }
}

impl Signature {
    /// Whether no two definitions have the same name.
    pub open spec fn wf(self) -> bool {
        distinct_names(self@)
    }

    /// No definitions.
    pub fn new() -> (r: Self)
        ensures
            r.wf(),
            r@ == Seq::<(Seq<char>, Definition)>::empty(),
    {
        let r = Signature { defs: Vec::new() };
        assert(r@ =~= Seq::empty());
        r
    }

    /// The definitions.
    pub fn into_defs(self) -> (r: Vec<(String, FunctionDefinition)>)
        ensures
            r@ == self.defs@,
            definitions(r@) == self@,
    {
        self.defs
    }

    /// Adds a definition, in place of one of the same name.
    pub fn insert(&mut self, name: String, def: FunctionDefinition)
        requires
            old(self).wf(),
        ensures
            final(self).wf(),
            final(self)@ == put(old(self)@, name@, def@),
    {
        let len = self.defs.len();
        for i in 0..len
            invariant
                len == self.defs@.len(),
                self.defs@ == old(self).defs@,
                old(self).wf(),
                forall|j: int| 0 <= j < i ==> (#[trigger] old(self)@[j]).0 != name@,
        {
            assert(old(self)@[i as int].0 == self.defs@[i as int].0@);
            if self.defs[i].0 == name {
                assert(holds(old(self)@, name@));
                self.defs[i] = (name, def);
                assert(self@ =~= put(old(self)@, name@, def@));
                return;
            }
        }
        proof {
            lemma_definitions_push(self.defs@, (name, def));
        }
        self.defs.push((name, def));
    }

    /// Removes redundant applications and lambdas.
    pub fn reduce_redundancy(&mut self)
        requires
            old(self).wf(),
        ensures
            final(self).wf(),
            final(self)@ == without_redundancy(old(self)@),
            all_vars_fit(old(self)@) ==> all_vars_fit(final(self)@),
    {
        let normalizer = RedundancyRemover {  };
        let len = self.defs.len();
        for i in 0..len
            invariant
                len == self.defs@.len(),
                len == old(self).defs@.len(),
                forall|j: int|
                    0 <= j < i ==> #[trigger] self@[j] == without_redundancy(old(self)@)[j],
                forall|j: int| i <= j < self.defs@.len() ==> #[trigger] self@[j] == old(self)@[j],
        {
            let body = normalizer.transform_c_term(&self.defs[i].1.body);
            assert(self@[i as int] == old(self)@[i as int]);
            let ghost before = self@;
            self.defs[i].1.body = body;
            assert(forall|j: int| 0 <= j < len && j != i ==> #[trigger] self@[j] == before[j]);
        }
        assert(self@ =~= without_redundancy(old(self)@));
        proof {
            if all_vars_fit(old(self)@) {
                lemma_fits_after_simplifying(old(self)@);
            }
        }
    }

    /// Replaces calls of primitive functions by primitive calls and calls of wrappers.
    pub fn specialize_calls(&mut self, primitives: &PrimitiveFunctions)
        requires
            old(self).wf(),
            all_calls_fit(primitives@, old(self)@),
        ensures
            final(self).wf(),
            final(self)@ == with_specialized_calls(primitives@, old(self)@),
            all_vars_fit(old(self)@) ==> all_vars_fit(final(self)@),
    {
        let mut new_defs: Vec<(String, FunctionDefinition)> = Vec::new();
        let len = self.defs.len();
        let ghost defs = self@;
        assert(definitions(new_defs@) =~= wrappers(primitives@, defs.take(0)));
        for i in 0..len
            invariant
                len == self.defs@.len(),
                defs == old(self)@,
                len == defs.len(),
                all_calls_fit(primitives@, defs),
                forall|j: int|
                    0 <= j < i ==> #[trigger] self@[j] == with_specialized_bodies(
                        primitives@,
                        defs,
                    )[j],
                forall|j: int| i <= j < len ==> #[trigger] self@[j] == defs[j],
                definitions(new_defs@) == wrappers(primitives@, defs.take(i as int)),
        {
            assert(self@[i as int] == defs[i as int]);
            let mut specializer = CallSpecializer {
                def_name: self.defs[i].0.as_str(),
                new_defs,
                primitives,
            };
            let body = specializer.transform_c_term(&self.defs[i].1.body);
            new_defs = specializer.new_defs;
            let ghost before = self@;
            self.defs[i].1.body = body;
            assert(forall|j: int| 0 <= j < len && j != i ==> #[trigger] self@[j] == before[j]);
            assert(defs.take(i + 1).drop_last() =~= defs.take(i as int));
        }
        assert(defs.take(len as int) =~= defs);
        assert(self@ =~= with_specialized_bodies(primitives@, defs));
        proof {
            lemma_no_binders_in_wrappers(primitives@, defs);
            lemma_no_binders_renamable(new_defs);
            if all_vars_fit(defs) {
                lemma_fits_after_specializing(primitives@, defs);
            }
        }
        self.insert_new_defs(new_defs);
    }

    /// Reduces applied lambdas and forced thunks. Assume all local variables are distinct. Also
    /// this transformation preserves this property: what is copied gets local variables of its own,
    /// and `var_bound` is raised to fit them.
    pub fn reduce_immediate_redexes(&mut self)
        requires
            old(self).wf(),
            all_reduce(old(self)@),
        ensures
            final(self).wf(),
            final(self)@ == without_redexes(old(self)@),
            final(self)@.len() == old(self)@.len(),
            forall|i: int|
                0 <= i < old(self)@.len() ==> ({
                    let (name, def) = #[trigger] final(self)@[i];
                    let (old_name, old_def) = old(self)@[i];
                    &&& name == old_name
                    &&& def == (Definition { body: def.body, var_bound: def.var_bound, ..old_def })
                    &&& def.var_bound >= old_def.var_bound
                }),
            all_have_distinct_vars(old(self)@) ==> all_have_distinct_vars(final(self)@),
            all_vars_fit(old(self)@) ==> all_vars_fit(final(self)@),
    {
        let len = self.defs.len();
        for i in 0..len
            invariant
                len == self.defs@.len(),
                len == old(self)@.len(),
                all_reduce(old(self)@),
                forall|j: int|
                    0 <= j < i ==> #[trigger] self@[j] == without_redexes(old(self)@)[j],
                forall|j: int| i <= j < len ==> #[trigger] self@[j] == old(self)@[j],
        {
            assert(self@[i as int] == old(self)@[i as int]);
            assert(reducible(old(self)@[i as int].1));
            let def = Self::reduce_redexes_in_def(&self.defs[i].1);
            let ghost before = self@;
            self.defs[i].1 = def;
            assert(forall|j: int| 0 <= j < len && j != i ==> #[trigger] self@[j] == before[j]);
        }
        assert(self@ =~= without_redexes(old(self)@));
        proof {
            lemma_distinct_after_reduction(old(self)@);
        }
    }

    /// The definition `def` with its body reduced.
    fn reduce_redexes_in_def(def: &FunctionDefinition) -> (r: FunctionDefinition)
        requires
            reducible(def@),
        ensures
            r@ == reduce_definition(def@),
    {
        let next_index = Self::find_first_unused(def);
        let mut reducer = RedexReducer { next_index };
        let body = reducer.reduce(&def.body);
        FunctionDefinition {
            args: clone_params(&def.args),
            body,
            c_type: def.c_type,
            var_bound: if reducer.next_index == next_index {
                def.var_bound
            } else {
                reducer.next_index
            },
            may_be_simple: def.may_be_simple,
            may_be_complex: def.may_be_complex,
        }
    }

    /// Does what [`Signature::reduce_immediate_redexes`] does, for any definitions: it returns
    /// `false` and changes nothing if the reduction of one takes more than `depth` nested steps, or
    /// if indexes run out.
    pub fn try_reduce_immediate_redexes(&mut self, depth: usize) -> (r: bool)
        requires
            old(self).wf(),
        ensures
            final(self).wf(),
            r == all_reduce_within(depth as nat, old(self)@),
            r ==> all_reduce(old(self)@),
            final(self)@ == if r {
                without_redexes(old(self)@)
            } else {
                old(self)@
            },
    {
        let mut new_defs: Vec<(String, FunctionDefinition)> = Vec::new();
        let len = self.defs.len();
        let ghost defs = self@;
        assert(definitions(new_defs@) =~= without_redexes(defs.take(0)));
        for i in 0..len
            invariant
                self == old(self),
                old(self).wf(),
                defs == self@,
                len == self.defs@.len(),
                forall|j: int|
                    0 <= j < i ==> reducible_within(depth as nat, (#[trigger] defs[j]).1)
                        && reducible(defs[j].1),
                definitions(new_defs@) == without_redexes(defs.take(i as int)),
        {
            assert(defs[i as int] == (self.defs@[i as int].0@, self.defs@[i as int].1@));
            let new_def = Self::try_reduce_redexes_in_def(&self.defs[i].1, depth);
            match new_def {
                Some(def) => {
                    let name = self.defs[i].0.clone();
                    proof {
                        lemma_definitions_push(new_defs@, (name, def));
                        assert(without_redexes(defs.take(i + 1)) =~= without_redexes(
                            defs.take(i as int),
                        ).push((name@, def@)));
                    }
                    new_defs.push((name, def));
                },
                None => {
                    assert(!reducible_within(depth as nat, defs[i as int].1));
                    return false;
                },
            }
        }
        assert(defs.take(len as int) =~= defs);
        self.defs = new_defs;
        assert forall|i: int, j: int| 0 <= i < j < self@.len() implies (#[trigger] self@[i]).0 != (
        #[trigger] self@[j]).0 by {
            assert(self@[i].0 == defs[i].0 && self@[j].0 == defs[j].0);
        }
        true
    }

    /// The definition `def` with its body reduced, if that takes no more than `depth` nested steps
    /// and indexes do not run out.
    fn try_reduce_redexes_in_def(def: &FunctionDefinition, depth: usize) -> (r: Option<
        FunctionDefinition,
    >)
        ensures
            r is Some <==> reducible_within(depth as nat, def@),
            r is Some ==> reducible(def@) && r->0@ == reduce_definition(def@),
    {
        let next_index = Self::find_first_unused(def);
        let mut reducer = RedexReducer { next_index };
        match reducer.try_reduce(&def.body, depth) {
            Some(body) => Some(
                FunctionDefinition {
                    args: clone_params(&def.args),
                    body,
                    c_type: def.c_type,
                    var_bound: if reducer.next_index == next_index {
                        def.var_bound
                    } else {
                        reducer.next_index
                    },
                    may_be_simple: def.may_be_simple,
                    may_be_complex: def.may_be_complex,
                },
            ),
            None => None,
        }
    }

    /// An index from which on all indexes are unused in `def`.
    fn find_first_unused(def: &FunctionDefinition) -> (r: usize)
        ensures
            r == first_unused(def@),
    {
        let top_of_args = find_top_of_params(&def.args);
        let top_of_body = find_top(&def.body);
        let mut next_index = def.var_bound;
        if next_index < top_of_args {
            next_index = top_of_args;
        }
        if next_index < top_of_body {
            next_index = top_of_body;
        }
        next_index
    }

    /// Lifts thunks and lambdas to definitions of their own. Assume all local variables are
    /// distinct. Also this transformation preserves this property.
    pub fn lift_lambdas(&mut self)
        requires
            old(self).wf(),
            all_liftable(old(self)@),
        ensures
            final(self).wf(),
            final(self)@ == with_lifted_lambdas(old(self)@),
            all_have_distinct_vars(old(self)@) ==> all_have_distinct_vars(final(self)@),
            all_vars_fit(old(self)@) ==> all_vars_fit(final(self)@),
    {
        let mut new_defs: Vec<(String, FunctionDefinition)> = Vec::new();
        let len = self.defs.len();
        let ghost defs = self@;
        assert(definitions(new_defs@) =~= lifted(defs.take(0)));
        for i in 0..len
            invariant
                len == self.defs@.len(),
                defs == old(self)@,
                len == defs.len(),
                all_liftable(defs),
                forall|j: int| 0 <= j < i ==> #[trigger] self@[j] == with_lifted_bodies(defs)[j],
                forall|j: int| i <= j < len ==> #[trigger] self@[j] == defs[j],
                definitions(new_defs@) == lifted(defs.take(i as int)),
        {
            assert(self@[i as int] == defs[i as int]);
            assert(liftable(defs[i as int].1));
            assert(self.defs@[i as int].1.args@ == defs[i as int].1.args);
            let local_var_types = find_local_types(
                &self.defs[i].1.args,
                self.defs[i].1.var_bound,
            );
            proof {
                lemma_set_types_len(
                    Seq::new(defs[i as int].1.var_bound, |j: int| VType::Uniform),
                    defs[i as int].1.args,
                );
            }
            let mut thunk_lifter = LambdaLifter {
                def_name: self.defs[i].0.as_str(),
                counter: 0,
                new_defs,
                local_var_types: &local_var_types,
            };
            let body = thunk_lifter.transform_c_term(&self.defs[i].1.body);
            new_defs = thunk_lifter.new_defs;
            let ghost before = self@;
            self.defs[i].1.body = body;
            assert(forall|j: int| 0 <= j < len && j != i ==> #[trigger] self@[j] == before[j]);
            assert(defs.take(i + 1).drop_last() =~= defs.take(i as int));
        }
        assert(defs.take(len as int) =~= defs);
        assert(self@ =~= with_lifted_bodies(defs));
        proof {
            lemma_no_binders_in_lifted(defs);
            lemma_no_binders_renamable(new_defs);
            if all_have_distinct_vars(defs) {
                lemma_distinct_after_lifting(defs);
            }
            if all_vars_fit(defs) {
                lemma_fits_after_lifting(defs);
            }
        }
        self.insert_new_defs(new_defs);
    }

    /// Adds each of `new_defs`, renamed, in place of one of the same name.
    fn insert_new_defs(&mut self, new_defs: Vec<(String, FunctionDefinition)>)
        requires
            old(self).wf(),
            all_renamable(definitions(new_defs@)),
        ensures
            final(self).wf(),
            final(self)@ == put_new(old(self)@, definitions(new_defs@)),
    {
        let ghost all = with_distinct_vars(definitions(new_defs@));
        for i in 0..new_defs.len()
            invariant
                self.wf(),
                all == with_distinct_vars(definitions(new_defs@)),
                all_renamable(definitions(new_defs@)),
                self@ == put_all(old(self)@, all.take(i as int)),
        {
            assert(renamable(definitions(new_defs@)[i as int].1));
            let def = Self::rename_local_vars_in_def(&new_defs[i].1);
            self.insert(new_defs[i].0.clone(), def);
            assert(all.take(i + 1).drop_last() =~= all.take(i as int));
        }
        assert(all.take(new_defs@.len() as int) =~= all);
    }

    /// Makes the local variables of each definition distinct.
    pub fn rename_local_vars(&mut self)
        requires
            old(self).wf(),
            all_renamable(old(self)@),
        ensures
            final(self).wf(),
            final(self)@ == with_distinct_vars(old(self)@),
            all_have_distinct_vars(final(self)@),
            all_closed(old(self)@) ==> all_closed(final(self)@) && all_vars_fit(final(self)@),
    {
        let len = self.defs.len();
        for i in 0..len
            invariant
                len == self.defs@.len(),
                len == old(self)@.len(),
                all_renamable(old(self)@),
                forall|j: int|
                    0 <= j < i ==> #[trigger] self@[j] == with_distinct_vars(old(self)@)[j],
                forall|j: int| i <= j < len ==> #[trigger] self@[j] == old(self)@[j],
        {
            assert(self@[i as int] == old(self)@[i as int]);
            let def = Self::rename_local_vars_in_def(&self.defs[i].1);
            let ghost before = self@;
            self.defs[i].1 = def;
            assert(forall|j: int| 0 <= j < len && j != i ==> #[trigger] self@[j] == before[j]);
        }
        assert(self@ =~= with_distinct_vars(old(self)@));
        proof {
            lemma_distinct_after_renaming(old(self)@);
            if all_closed(old(self)@) {
                lemma_closed_after_renaming(old(self)@);
            }
        }
    }

    /// The definition `def` with distinct local variables.
    fn rename_local_vars_in_def(def: &FunctionDefinition) -> (r: FunctionDefinition)
        requires
            renamable(def@),
        ensures
            r@ == rename_definition(def@),
    {
        let mut renamer = DistinctVarRenamer::new();
        let args = renamer.add_bindings(&def.args);
        let body = renamer.transform_c_term(&def.body);
        FunctionDefinition {
            args,
            body,
            c_type: def.c_type,
            var_bound: renamer.counter(),
            may_be_simple: def.may_be_simple,
            may_be_complex: def.may_be_complex,
        }
    }

    /// Does what [`Signature::optimize`] does, for any definitions: it returns `false` and changes
    /// nothing if a pass cannot do its work, or if the reduction of a definition takes more than
    /// `depth` nested steps.
    pub fn try_optimize(&mut self, primitives: &PrimitiveFunctions, depth: usize) -> (r: bool)
        requires
            old(self).wf(),
        ensures
            final(self).wf(),
            r == optimizable_within(depth as nat, primitives@, old(self)@),
            r ==> optimizable(primitives@, old(self)@) && all_have_distinct_vars(final(self)@),
            final(self)@ == if r {
                optimized(primitives@, old(self)@)
            } else {
                old(self)@
            },
    {
        let mut work = self.copy();
        work.reduce_redundancy();
        if !work.check_calls(primitives) {
            return false;
        }
        work.specialize_calls(primitives);
        if !work.check_renamable() {
            return false;
        }
        work.rename_local_vars();
        if !work.try_reduce_immediate_redexes(depth) {
            return false;
        }
        if !work.check_liftable() {
            return false;
        }
        work.lift_lambdas();
        proof {
            lemma_no_binders_after_lifting(before_lifting(primitives@, old(self)@));
            lemma_no_binders_renamable(work.defs);
        }
        work.rename_local_vars();
        *self = work;
        true
    }

    /// A copy of the definitions.
    fn copy(&self) -> (r: Self)
        requires
            self.wf(),
        ensures
            r.wf(),
            r@ == self@,
    {
        let mut defs: Vec<(String, FunctionDefinition)> = Vec::new();
        assert(definitions(defs@) =~= self@.take(0));
        for i in 0..self.defs.len()
            invariant
                definitions(defs@) == self@.take(i as int),
        {
            let name = self.defs[i].0.clone();
            let def = self.defs[i].1.clone();
            proof {
                lemma_definitions_push(defs@, (name, def));
                assert(self@.take(i + 1) =~= self@.take(i as int).push((name@, def@)));
            }
            defs.push((name, def));
        }
        assert(self@.take(self.defs@.len() as int) =~= self@);
        Signature { defs }
    }

    /// Whether the calls of primitive functions in all definitions fit.
    fn check_calls(&self, primitives: &PrimitiveFunctions) -> (r: bool)
        ensures
            r == all_calls_fit(primitives@, self@),
    {
        for i in 0..self.defs.len()
            invariant
                forall|j: int|
                    0 <= j < i ==> calls_fit(primitives@, (#[trigger] self@[j]).1.body),
        {
            assert(self@[i as int].1 == self.defs@[i as int].1@);
            if !check_calls(primitives, &self.defs[i].1.body) {
                assert(!calls_fit(primitives@, self@[i as int].1.body));
                return false;
            }
        }
        true
    }

    /// Whether there are indexes enough for the binders of each definition.
    fn check_renamable(&self) -> (r: bool)
        ensures
            r == all_renamable(self@),
    {
        for i in 0..self.defs.len()
            invariant
                forall|j: int| 0 <= j < i ==> renamable((#[trigger] self@[j]).1),
        {
            assert(self@[i as int].1 == self.defs@[i as int].1@);
            if !check_renamable(&self.defs[i].1) {
                assert(!renamable(self@[i as int].1));
                return false;
            }
        }
        true
    }

    /// Whether thunks and lambdas can be lifted out of each definition.
    fn check_liftable(&self) -> (r: bool)
        ensures
            r == all_liftable(self@),
    {
        for i in 0..self.defs.len()
            invariant
                forall|j: int| 0 <= j < i ==> liftable((#[trigger] self@[j]).1),
        {
            assert(self@[i as int].1 == self.defs@[i as int].1@);
            if !check_liftable(&self.defs[i].1) {
                assert(!liftable(self@[i as int].1));
                return false;
            }
        }
        true
    }

    /// Runs all passes.
    pub fn optimize(&mut self, primitives: &PrimitiveFunctions)
        requires
            old(self).wf(),
            optimizable(primitives@, old(self)@),
        ensures
            final(self).wf(),
            final(self)@ == optimized(primitives@, old(self)@),
            all_have_distinct_vars(final(self)@),
    {
        self.reduce_redundancy();
        self.specialize_calls(primitives);
        self.rename_local_vars();
        self.reduce_immediate_redexes();
        self.lift_lambdas();
        proof {
            lemma_no_binders_after_lifting(before_lifting(primitives@, old(self)@));
            lemma_no_binders_renamable(self.defs);
        }
        self.rename_local_vars();
    }
}

/// Definitions without binders in their bodies have indexes enough.
proof fn lemma_no_binders_renamable(defs: Vec<(String, FunctionDefinition)>)
    requires
        no_binders(definitions(defs@)),
    ensures
        all_renamable(definitions(defs@)),
{
    assert forall|i: int| 0 <= i < defs@.len() implies renamable(
        (#[trigger] definitions(defs@)[i]).1,
    ) by {
        assert(defs@[i].1.args.len() == defs@[i].1.args@.len());
    }
}

/// No wrapper has a binder in its body.
proof fn lemma_no_binders_in_wrappers(
    prims: Map<Seq<char>, Primitive>,
    defs: Seq<(Seq<char>, Definition)>,
)
    ensures
        no_binders(wrappers(prims, defs)),
    decreases defs.len(),
{
    if defs.len() > 0 {
        lemma_no_binders_in_wrappers(prims, defs.drop_last());
        lemma_wrappers_have_no_binders(prims, defs.last().0, defs.last().1.body);
    }
}

/// Nothing that is lifted has a binder in its body.
pub proof fn lemma_no_binders_in_lifted(defs: Seq<(Seq<char>, Definition)>)
    ensures
        no_binders(lifted(defs)),
    decreases defs.len(),
{
    if defs.len() > 0 {
        lemma_no_binders_in_lifted(defs.drop_last());
        let (name, def) = defs.last();
        lemma_lift_leaves_no_binders(name, local_types(def), 0, def.body);
    }
}

/// What holds of all definitions and of all new ones holds after these were put in.
pub proof fn lemma_put_all_each<D>(
    defs: Seq<(Seq<char>, D)>,
    new_defs: Seq<(Seq<char>, D)>,
    p: spec_fn(D) -> bool,
)
    requires
        forall|i: int| 0 <= i < defs.len() ==> p((#[trigger] defs[i]).1),
        forall|i: int| 0 <= i < new_defs.len() ==> p((#[trigger] new_defs[i]).1),
    ensures
        forall|i: int|
            0 <= i < put_all(defs, new_defs).len() ==> p(
                (#[trigger] put_all(defs, new_defs)[i]).1,
            ),
    decreases new_defs.len(),
{
    if new_defs.len() > 0 {
        let front = new_defs.drop_last();
        lemma_put_all_each(defs, front, p);
        let before = put_all(defs, front);
        let after = put_all(defs, new_defs);
        assert(p(new_defs[new_defs.len() - 1].1));
        assert forall|i: int| 0 <= i < after.len() implies p((#[trigger] after[i]).1) by {
            if i < before.len() {
                assert(p(before[i].1));
            }
        }
    }
}

/// Putting in definitions without binders in their bodies adds no binders.
proof fn lemma_no_binders_in_put_new(
    defs: Seq<(Seq<char>, Definition)>,
    new_defs: Seq<(Seq<char>, Definition)>,
)
    requires
        no_binders(defs),
        no_binders(new_defs),
    ensures
        no_binders(put_new(defs, new_defs)),
{
    let p = |d: Definition| binders_in_comp(d.body) == 0;
    let renamed = with_distinct_vars(new_defs);
    assert forall|i: int| 0 <= i < renamed.len() implies p((#[trigger] renamed[i]).1) by {
        let def = new_defs[i].1;
        assert(binders_in_comp(new_defs[i].1.body) == 0);
        lemma_rename_keeps_count(bind_params(Map::empty(), 0, def.args), def.args.len(), def.body);
    }
    lemma_put_all_each(defs, renamed, p);
    let all = put_new(defs, new_defs);
    assert forall|i: int| 0 <= i < all.len() implies binders_in_comp((#[trigger] all[i]).1.body)
        == 0 by {
        assert(p(all[i].1));
    }
}

/// After lifting, no definition has a binder in its body.
pub proof fn lemma_no_binders_after_lifting(defs: Seq<(Seq<char>, Definition)>)
    ensures
        no_binders(with_lifted_lambdas(defs)),
{
    assert forall|i: int| 0 <= i < defs.len() implies binders_in_comp(
        (#[trigger] with_lifted_bodies(defs)[i]).1.body,
    ) == 0 by {
        let (name, def) = defs[i];
        lemma_lift_leaves_no_binders(name, local_types(def), 0, def.body);
    }
    lemma_no_binders_in_lifted(defs);
    lemma_no_binders_in_put_new(with_lifted_bodies(defs), lifted(defs));
}

/// Setting types keeps the number of types.
pub proof fn lemma_set_types_len(types: Seq<VType>, params: Seq<(usize, VType)>)
    requires
        forall|i: int| 0 <= i < params.len() ==> (#[trigger] params[i]).0 < types.len(),
    ensures
        set_types(types, params).len() == types.len(),
    decreases params.len(),
{
    if params.len() > 0 {
        lemma_set_types_len(types, params.drop_last());
        assert(params.last() == params[params.len() - 1]);
    }
}

} // verus!
