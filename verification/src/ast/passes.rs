//! What each pass does to a list of definitions, and that optimizing them is to run the passes one
//! after the other.
use crate::ast::binding::{
    bound_in_definition, has_distinct_vars, indexes_from, lemma_renamed_vars_are_distinct,
};
use crate::ast::conversion::{convertible, lemma_reduced_does_the_same};
use crate::ast::copying::lemma_reduced_vars_fit;
use crate::ast::interface::lemma_put_all_in_place;
use crate::ast::lifter::{lambda_name, lift_comp};
use crate::ast::lifting::{lemma_lift_restores, lemma_lifted_from_more, lifted_from};
use crate::ast::naming::lemma_kinds_differ;
use crate::ast::normal_form::{lemma_reduced_is_normal, normal};
use crate::ast::optimization::{arities_fit, lemma_put_all};
use crate::ast::primitive_functions::Primitive;
use crate::ast::reading::{
    is_binder, lemma_binders_by_reading, lemma_simplified_reads_alike, read, weight,
};
use crate::ast::reducer::reduced;
use crate::ast::redundancy::{lemma_simplified, simple_comp};
use crate::ast::scope::{
    alike_definitions, closed_definition, lemma_renamed_is_alike, lemma_top_within, params_within,
    vars_fit, within,
};
use crate::ast::signature::{
    before_lifting, distinct_names, first_unused, holds, lifted, local_types, optimized, put_all,
    reduce_definition, reducible, renamable, rename_definition, with_distinct_vars,
    with_lifted_bodies, with_lifted_lambdas, with_specialized_bodies, with_specialized_calls,
    without_redexes, without_redundancy, wrappers, Definition,
};
use crate::ast::specialization::{lemma_parts, lemma_specialized_as_told, part_of, specialized};
use crate::ast::specializer::{wrapper_name, wrappers_of_comp};
use crate::ast::usage::{lemma_top_of_params, lemma_top_of_params_below};
use vstd::prelude::*;

verus! {

/// Whether two definitions have the same name and parameters, and are called the same way.
pub open spec fn same_head(d: (Seq<char>, Definition), e: (Seq<char>, Definition)) -> bool {
    &&& d.0 == e.0
    &&& d.1.args == e.1.args
    &&& d.1.c_type == e.1.c_type
    &&& d.1.may_be_simple == e.1.may_be_simple
    &&& d.1.may_be_complex == e.1.may_be_complex
}

/// Whether `new` are the definitions `old` without redundancy, which otherwise do the same as these
/// at every place.
pub open spec fn simplified_all(
    old: Seq<(Seq<char>, Definition)>,
    new: Seq<(Seq<char>, Definition)>,
) -> bool {
    &&& new.len() == old.len()
    &&& forall|i: int|
        0 <= i < old.len() ==> {
            &&& same_head(#[trigger] old[i], new[i])
            &&& old[i].1.var_bound == new[i].1.var_bound
            &&& simple_comp(new[i].1.body)
            &&& read(false, new[i].1.body) == read(false, old[i].1.body)
        }
}

/// Whether `new` are the definitions `old` with distinct local variables, which are numbered. They
/// differ in nothing but the names of these, if they bind them all.
pub open spec fn renamed_all(
    old: Seq<(Seq<char>, Definition)>,
    new: Seq<(Seq<char>, Definition)>,
) -> bool {
    &&& new.len() == old.len()
    &&& forall|i: int|
        0 <= i < old.len() ==> {
            &&& (#[trigger] old[i]).0 == new[i].0
            &&& renamable(old[i].1) ==> {
                &&& has_distinct_vars(new[i].1)
                &&& bound_in_definition(new[i].1) == indexes_from(0, new[i].1.var_bound)
                &&& closed_definition(old[i].1) ==> alike_definitions(old[i].1, new[i].1)
            }
        }
}

/// Whether `all` are the definitions `defs` together with those of `added`: these come after the
/// others, in place of which they stand only if they have the same name.
pub open spec fn joined<D>(
    defs: Seq<(Seq<char>, D)>,
    added: Seq<(Seq<char>, D)>,
    all: Seq<(Seq<char>, D)>,
) -> bool {
    &&& distinct_names(all)
    &&& all.len() >= defs.len()
    &&& forall|i: int|
        0 <= i < defs.len() ==> {
            &&& (#[trigger] all[i]).0 == defs[i].0
            &&& !holds(added, defs[i].0) ==> all[i] == defs[i]
        }
    &&& forall|i: int| defs.len() <= i < all.len() ==> added.contains(#[trigger] all[i])
    &&& forall|i: int|
        0 <= i < added.len() && !holds(added.skip(i + 1), added[i].0) ==> all.contains(
            #[trigger] added[i],
        )
}

/// Whether `bodies` are the definitions `old` with calls of primitive functions specialized, for
/// which `added` holds the wrappers.
pub open spec fn specialized_all(
    prims: Map<Seq<char>, Primitive>,
    added: Seq<(Seq<char>, Definition)>,
    old: Seq<(Seq<char>, Definition)>,
    bodies: Seq<(Seq<char>, Definition)>,
) -> bool {
    &&& bodies.len() == old.len()
    &&& forall|i: int|
        0 <= i < old.len() ==> {
            &&& same_head(#[trigger] old[i], bodies[i])
            &&& old[i].1.var_bound == bodies[i].1.var_bound
            &&& specialized(prims, added, bodies[i].1.body, old[i].1.body)
        }
}

/// Whether the reduction of `def` uses no further index.
pub open spec fn keeps_numbers(def: Definition) -> bool {
    reduced(first_unused(def), def.body).1 == first_unused(def)
}

/// Whether `new` are the definitions `old` with all applied lambdas and forced thunks reduced, as
/// far as these come to an end. They do the same; see [`convertible`].
pub open spec fn reduced_all(
    old: Seq<(Seq<char>, Definition)>,
    new: Seq<(Seq<char>, Definition)>,
) -> bool {
    &&& new.len() == old.len()
    &&& forall|i: int|
        0 <= i < old.len() ==> {
            &&& same_head(#[trigger] old[i], new[i])
            &&& reducible(old[i].1) ==> {
                &&& normal(new[i].1.body)
                &&& new[i].1.var_bound >= old[i].1.var_bound
                &&& keeps_numbers(old[i].1) ==> new[i].1.var_bound == old[i].1.var_bound
                &&& vars_fit(old[i].1) ==> {
                    &&& convertible(old[i].1.body, new[i].1.body)
                    &&& vars_fit(new[i].1)
                }
            }
        }
}

/// Whether `bodies` are the definitions `old` with thunks and lambdas lifted, which `added` holds.
pub open spec fn lifted_all(
    added: Seq<(Seq<char>, Definition)>,
    old: Seq<(Seq<char>, Definition)>,
    bodies: Seq<(Seq<char>, Definition)>,
) -> bool {
    &&& bodies.len() == old.len()
    &&& forall|i: int|
        0 <= i < old.len() ==> {
            &&& same_head(#[trigger] old[i], bodies[i])
            &&& old[i].1.var_bound == bodies[i].1.var_bound
            &&& lifted_from(local_types(old[i].1), added, bodies[i].1.body, old[i].1.body)
        }
}

/// Removing redundancy is done in every definition.
pub proof fn lemma_simplified_all(defs: Seq<(Seq<char>, Definition)>)
    ensures
        simplified_all(defs, without_redundancy(defs)),
{
    let new = without_redundancy(defs);
    assert forall|i: int| 0 <= i < defs.len() implies {
        &&& same_head(#[trigger] defs[i], new[i])
        &&& defs[i].1.var_bound == new[i].1.var_bound
        &&& simple_comp(new[i].1.body)
        &&& read(false, new[i].1.body) == read(false, defs[i].1.body)
    } by {
        lemma_simplified(defs[i].1.body);
        lemma_simplified_reads_alike(defs[i].1.body);
    }
}

/// A definition can be renamed if and only if there are indexes for its parameters and for every
/// one that is read in its body.
pub proof fn lemma_renamable(def: Definition)
    ensures
        renamable(def) <==> def.args.len() + weight(is_binder(), read(false, def.body))
            <= usize::MAX,
{
    lemma_binders_by_reading(false, def.body);
}

/// Every definition is renamed.
pub proof fn lemma_renamed_all(defs: Seq<(Seq<char>, Definition)>)
    ensures
        renamed_all(defs, with_distinct_vars(defs)),
{
    let new = with_distinct_vars(defs);
    assert forall|i: int| 0 <= i < defs.len() implies {
        &&& (#[trigger] defs[i]).0 == new[i].0
        &&& renamable(defs[i].1) ==> {
            &&& has_distinct_vars(new[i].1)
            &&& bound_in_definition(new[i].1) == indexes_from(0, new[i].1.var_bound)
            &&& closed_definition(defs[i].1) ==> alike_definitions(defs[i].1, new[i].1)
        }
    } by {
        let def = defs[i].1;
        assert(new[i].1 == rename_definition(def));
        if renamable(def) {
            lemma_renamed_vars_are_distinct(def);
            if closed_definition(def) {
                lemma_renamed_is_alike(def);
            }
        }
    }
}

/// Putting in definitions joins them with those that are there.
pub proof fn lemma_joined<D>(defs: Seq<(Seq<char>, D)>, added: Seq<(Seq<char>, D)>)
    requires
        distinct_names(defs),
    ensures
        joined(defs, added, put_all(defs, added)),
{
    lemma_put_all_in_place(defs, added);
    lemma_put_all(defs, added);
}

proof fn lemma_wrappers_of_each(
    prims: Map<Seq<char>, Primitive>,
    defs: Seq<(Seq<char>, Definition)>,
    i: int,
)
    requires
        0 <= i < defs.len(),
    ensures
        part_of(wrappers_of_comp(prims, defs[i].0, defs[i].1.body), wrappers(prims, defs)),
    decreases defs.len(),
{
    let front = defs.drop_last();
    let first = wrappers(prims, front);
    let second = wrappers_of_comp(prims, defs.last().0, defs.last().1.body);
    lemma_parts(first, second);
    if i < front.len() {
        lemma_wrappers_of_each(prims, front, i);
        assert(front[i] == defs[i]);
        let part = wrappers_of_comp(prims, defs[i].0, defs[i].1.body);
        assert forall|d: (Seq<char>, Definition)| part.contains(d) implies #[trigger] wrappers(
            prims,
            defs,
        ).contains(d) by {
            assert(first.contains(d));
            assert((first + second).contains(d));
        }
    } else {
        assert(defs[i] == defs.last());
    }
}

/// Calls of primitive functions are specialized in every definition, and the wrappers that this
/// takes are joined with them.
pub proof fn lemma_specialized_all(
    prims: Map<Seq<char>, Primitive>,
    defs: Seq<(Seq<char>, Definition)>,
)
    requires
        arities_fit(prims),
        distinct_names(defs),
    ensures
        ({
            let bodies = with_specialized_bodies(prims, defs);
            let added = wrappers(prims, defs);
            &&& specialized_all(prims, added, defs, bodies)
            &&& renamed_all(added, with_distinct_vars(added))
            &&& joined(bodies, with_distinct_vars(added), with_specialized_calls(prims, defs))
        }),
{
    let bodies = with_specialized_bodies(prims, defs);
    let added = wrappers(prims, defs);
    assert forall|i: int| 0 <= i < defs.len() implies {
        &&& same_head(#[trigger] defs[i], bodies[i])
        &&& defs[i].1.var_bound == bodies[i].1.var_bound
        &&& specialized(prims, added, bodies[i].1.body, defs[i].1.body)
    } by {
        lemma_wrappers_of_each(prims, defs, i);
        lemma_specialized_as_told(prims, defs[i].0, added, defs[i].1.body);
    }
    lemma_renamed_all(added);
    assert forall|i: int, j: int| 0 <= i < j < bodies.len() implies (#[trigger] bodies[i]).0 != (
    #[trigger] bodies[j]).0 by {
        assert(bodies[i].0 == defs[i].0 && bodies[j].0 == defs[j].0);
    }
    lemma_joined(bodies, with_distinct_vars(added));
}

/// No local variable of a definition is as great as the first unused index, if there is an index
/// after each of them. That index is no less than `var_bound`.
pub proof fn lemma_first_unused(def: Definition)
    ensures
        first_unused(def) >= def.var_bound,
        params_within(usize::MAX as nat, def.args) && within(usize::MAX as nat, def.body)
            ==> params_within(first_unused(def), def.args) && within(first_unused(def), def.body),
{
    let n = first_unused(def);
    lemma_top_within(usize::MAX as nat, def.body);
    lemma_top_within(n, def.body);
    lemma_top_of_params(def.args);
    if params_within(usize::MAX as nat, def.args) {
        lemma_top_of_params_below(def.args, usize::MAX as nat);
    }
}

/// Every definition is reduced.
pub proof fn lemma_reduced_all(defs: Seq<(Seq<char>, Definition)>)
    ensures
        reduced_all(defs, without_redexes(defs)),
{
    let new = without_redexes(defs);
    assert forall|i: int| 0 <= i < defs.len() implies {
        &&& same_head(#[trigger] defs[i], new[i])
        &&& reducible(defs[i].1) ==> {
            &&& normal(new[i].1.body)
            &&& new[i].1.var_bound >= defs[i].1.var_bound
            &&& keeps_numbers(defs[i].1) ==> new[i].1.var_bound == defs[i].1.var_bound
            &&& vars_fit(defs[i].1) ==> {
                &&& convertible(defs[i].1.body, new[i].1.body)
                &&& vars_fit(new[i].1)
            }
        }
    } by {
        let def = defs[i].1;
        assert(new[i].1 == reduce_definition(def));
        if reducible(def) {
            lemma_reduced_is_normal(first_unused(def), def.body);
            lemma_reduced_vars_fit(def);
            if vars_fit(def) {
                lemma_reduced_does_the_same(first_unused(def), def.body);
            }
        }
    }
}

proof fn lemma_lifted_of_each(defs: Seq<(Seq<char>, Definition)>, i: int)
    requires
        0 <= i < defs.len(),
    ensures
        part_of(
            lift_comp(defs[i].0, local_types(defs[i].1), 0, defs[i].1.body).1,
            lifted(defs),
        ),
    decreases defs.len(),
{
    let front = defs.drop_last();
    let first = lifted(front);
    let (name, def) = defs.last();
    let second = lift_comp(name, local_types(def), 0, def.body).1;
    lemma_parts(first, second);
    if i < front.len() {
        lemma_lifted_of_each(front, i);
        assert(front[i] == defs[i]);
        let part = lift_comp(defs[i].0, local_types(defs[i].1), 0, defs[i].1.body).1;
        assert forall|d: (Seq<char>, Definition)| part.contains(d) implies #[trigger] lifted(
            defs,
        ).contains(d) by {
            assert(first.contains(d));
            assert((first + second).contains(d));
        }
    } else {
        assert(defs[i] == defs.last());
    }
}

/// What is lifted has never the name of a wrapper.
pub proof fn lemma_lifted_is_no_wrapper(base1: Seq<char>, n: nat, base2: Seq<char>)
    ensures
        lambda_name(base1, n) != wrapper_name(base2),
{
    reveal_strlit("$__lambda_");
    reveal_strlit("$__primitive_wrapper_");
    lemma_kinds_differ(base1, "$__lambda_"@, n, base2, "$__primitive_wrapper_"@, 0, 1);
}

/// Thunks and lambdas are lifted out of every definition, and what they become is joined with them.
pub proof fn lemma_lifted_all(defs: Seq<(Seq<char>, Definition)>)
    requires
        distinct_names(defs),
    ensures
        ({
            let bodies = with_lifted_bodies(defs);
            let added = lifted(defs);
            &&& lifted_all(added, defs, bodies)
            &&& renamed_all(added, with_distinct_vars(added))
            &&& joined(bodies, with_distinct_vars(added), with_lifted_lambdas(defs))
        }),
{
    let bodies = with_lifted_bodies(defs);
    let added = lifted(defs);
    assert forall|i: int| 0 <= i < defs.len() implies {
        &&& same_head(#[trigger] defs[i], bodies[i])
        &&& defs[i].1.var_bound == bodies[i].1.var_bound
        &&& lifted_from(local_types(defs[i].1), added, bodies[i].1.body, defs[i].1.body)
    } by {
        let (name, def) = defs[i];
        let types = local_types(def);
        let (body, part) = lift_comp(name, types, 0, def.body);
        lemma_lift_restores(name, types, 0, def.body);
        lemma_lifted_of_each(defs, i);
        lemma_lifted_from_more(types, part, added, body, def.body);
    }
    lemma_renamed_all(added);
    assert forall|i: int, j: int| 0 <= i < j < bodies.len() implies (#[trigger] bodies[i]).0 != (
    #[trigger] bodies[j]).0 by {
        assert(bodies[i].0 == defs[i].0 && bodies[j].0 == defs[j].0);
    }
    lemma_joined(bodies, with_distinct_vars(added));
}

/// The definitions between the passes.
pub struct Stages {
    /// Without redundancy.
    pub simple: Seq<(Seq<char>, Definition)>,
    /// With calls of primitive functions specialized.
    pub called: Seq<(Seq<char>, Definition)>,
    /// The wrappers that this takes.
    pub wrappers: Seq<(Seq<char>, Definition)>,
    /// These wrappers with distinct local variables.
    pub distinct_wrappers: Seq<(Seq<char>, Definition)>,
    /// Together with the wrappers.
    pub specialized: Seq<(Seq<char>, Definition)>,
    /// With distinct local variables.
    pub distinct: Seq<(Seq<char>, Definition)>,
    /// With redexes reduced.
    pub reduced: Seq<(Seq<char>, Definition)>,
    /// With thunks and lambdas lifted.
    pub flat: Seq<(Seq<char>, Definition)>,
    /// What thunks and lambdas become.
    pub lifted: Seq<(Seq<char>, Definition)>,
    /// This with distinct local variables.
    pub distinct_lifted: Seq<(Seq<char>, Definition)>,
    /// Together with what thunks and lambdas become.
    pub complete: Seq<(Seq<char>, Definition)>,
}

/// To optimize definitions is to run all passes, one after the other: redundancy is removed, calls
/// of primitive functions are specialized, local variables are made distinct, redexes are reduced,
/// thunks and lambdas are lifted, and local variables are made distinct again.
pub proof fn lemma_optimized_in_stages(
    prims: Map<Seq<char>, Primitive>,
    defs: Seq<(Seq<char>, Definition)>,
) -> (s: Stages)
    requires
        arities_fit(prims),
        distinct_names(defs),
    ensures
        simplified_all(defs, s.simple),
        specialized_all(prims, s.wrappers, s.simple, s.called),
        renamed_all(s.wrappers, s.distinct_wrappers),
        joined(s.called, s.distinct_wrappers, s.specialized),
        renamed_all(s.specialized, s.distinct),
        reduced_all(s.distinct, s.reduced),
        lifted_all(s.lifted, s.reduced, s.flat),
        renamed_all(s.lifted, s.distinct_lifted),
        joined(s.flat, s.distinct_lifted, s.complete),
        renamed_all(s.complete, optimized(prims, defs)),
{
    let simple = without_redundancy(defs);
    let added = wrappers(prims, simple);
    let specialized = with_specialized_calls(prims, simple);
    let distinct = with_distinct_vars(specialized);
    let reduced = before_lifting(prims, defs);
    let complete = with_lifted_lambdas(reduced);
    lemma_simplified_all(defs);
    assert forall|i: int, j: int| 0 <= i < j < simple.len() implies (#[trigger] simple[i]).0 != (
    #[trigger] simple[j]).0 by {
        assert(simple[i].0 == defs[i].0 && simple[j].0 == defs[j].0);
    }
    lemma_specialized_all(prims, simple);
    lemma_renamed_all(specialized);
    lemma_reduced_all(distinct);
    assert forall|i: int, j: int| 0 <= i < j < reduced.len() implies (#[trigger] reduced[i]).0 != (
    #[trigger] reduced[j]).0 by {
        assert(reduced[i].0 == specialized[i].0 && reduced[j].0 == specialized[j].0);
    }
    lemma_lifted_all(reduced);
    lemma_renamed_all(complete);
    Stages {
        simple,
        called: with_specialized_bodies(prims, simple),
        wrappers: added,
        distinct_wrappers: with_distinct_vars(added),
        specialized,
        distinct,
        reduced,
        flat: with_lifted_bodies(reduced),
        lifted: lifted(reduced),
        distinct_lifted: with_distinct_vars(lifted(reduced)),
        complete,
    }
}

} // verus!
