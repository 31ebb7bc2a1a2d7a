//! Lifting of thunks and lambdas to definitions of their own.
use crate::ast::free_var::{free_in_comp, free_in_value, free_in_values, lists, sorted};
use crate::ast::naming::{generate_name, generated_name};
use crate::ast::renamer::{
    binders_in_comp, binders_in_value, binders_in_values, lemma_no_binders_in_values,
};
use crate::ast::signature::{
    definitions, lemma_definitions_push, Definition, FunctionDefinition,
};
use crate::ast::term::{
    clone_params, lemma_values_push, value, values, CTerm, CType, Comp, VTerm, VType, Value,
};
use crate::ast::usage::{
    find_top_of_params, lemma_top_of_concat, lemma_top_of_params, lemma_top_of_params_below,
    top_of_params,
};
use vstd::prelude::*;

verus! {

/// The name of the `n`-th definition that is lifted out of the definition `base`.
pub open spec fn lambda_name(base: Seq<char>, n: nat) -> Seq<char> {
    generated_name(base, "$__lambda_"@, n)
}

/// The variables with the given indexes.
pub open spec fn vars(indexes: Seq<usize>) -> Seq<Value> {
    Seq::new(indexes.len(), |i: int| Value::Var { index: indexes[i] })
}

/// The parameters through which a lifted definition gets the variables `captured`. The variable
/// `x` has the type `types[x]`.
pub open spec fn captured_params(captured: Seq<usize>, types: Seq<VType>) -> Seq<(usize, VType)> {
    Seq::new(captured.len(), |i: int| (captured[i], types[captured[i] as int]))
}

/// A call of the definition `name` with the variables `captured`.
pub open spec fn lifted_call(name: Seq<char>, captured: Seq<usize>, effects: bool) -> Comp {
    Comp::Redex {
        function: Box::new(Comp::Def { name, may_have_complex_effects: effects }),
        args: vars(captured),
    }
}

/// The definition that takes the variables `captured`, then `params`, and does what `body` does.
/// All its local variables are parameters.
pub open spec fn lifted_definition(
    captured: Seq<usize>,
    types: Seq<VType>,
    params: Seq<(usize, VType)>,
    body: Comp,
    effects: bool,
) -> Definition {
    let args = captured_params(captured, types) + params;
    Definition {
        args,
        body,
        c_type: CType::Default,
        var_bound: top_of_params(args),
        may_be_simple: !effects,
        may_be_complex: true,
    }
}

/// Whether the parameters of `def` are less than its `var_bound`.
pub open spec fn params_fit(def: Definition) -> bool {
    forall|i: int| 0 <= i < def.args.len() ==> (#[trigger] def.args[i]).0 < def.var_bound
}

/// Whether `c` is a plain call of a definition.
pub open spec fn is_call(c: Comp) -> bool {
    match c {
        Comp::Def { .. } => true,
        Comp::Redex { function, .. } => *function is Def,
        _ => false,
    }
}

/// The value `v` of the definition `base` with its thunks and lambdas lifted, and the definitions
/// that they become, of which the first is the `n`-th of `base`.
pub open spec fn lift_value(base: Seq<char>, types: Seq<VType>, n: nat, v: Value) -> (
    Value,
    Seq<(Seq<char>, Definition)>,
)
    decreases v,
{
    match v {
        Value::Thunk { t, may_have_complex_effects } => {
            let (t, defs) = lift_comp(base, types, n, *t);
            if is_call(t) {
                (Value::Thunk { t: Box::new(t), may_have_complex_effects }, defs)
            } else {
                let name = lambda_name(base, n + defs.len());
                let captured = sorted(free_in_comp(t));
                let call = lifted_call(name, captured, may_have_complex_effects);
                let def = lifted_definition(
                    captured,
                    types,
                    Seq::empty(),
                    t,
                    may_have_complex_effects,
                );
                (
                    Value::Thunk { t: Box::new(call), may_have_complex_effects },
                    defs.push((name, def)),
                )
            }
        },
        _ => (v, Seq::empty()),
    }
}

/// The values `vs` lifted one after the other; see [`lift_value`].
pub open spec fn lift_values(base: Seq<char>, types: Seq<VType>, n: nat, vs: Seq<Value>) -> (
    Seq<Value>,
    Seq<(Seq<char>, Definition)>,
)
    decreases vs,
{
    if vs.len() == 0 {
        (Seq::empty(), Seq::empty())
    } else {
        let (front, front_defs) = lift_values(base, types, n, vs.drop_last());
        let (last, last_defs) = lift_value(base, types, n + front_defs.len(), vs.last());
        (front.push(last), front_defs + last_defs)
    }
}

/// The computation `c` of the definition `base` with its thunks and lambdas lifted, inner ones
/// first, and the definitions that they become, of which the first is the `n`-th of `base`. Each
/// is replaced by a call that hands over its free variables. A thunk of a plain call stays.
pub open spec fn lift_comp(base: Seq<char>, types: Seq<VType>, n: nat, c: Comp) -> (
    Comp,
    Seq<(Seq<char>, Definition)>,
)
    decreases c,
{
    match c {
        Comp::Redex { function, args } => {
            let (f, f_defs) = lift_comp(base, types, n, *function);
            let (vs, vs_defs) = lift_values(base, types, n + f_defs.len(), args);
            (Comp::Redex { function: Box::new(f), args: vs }, f_defs + vs_defs)
        },
        Comp::Return { value } => {
            let (value, defs) = lift_value(base, types, n, value);
            (Comp::Return { value }, defs)
        },
        Comp::Force { thunk, may_have_complex_effects } => {
            let (thunk, defs) = lift_value(base, types, n, thunk);
            (Comp::Force { thunk, may_have_complex_effects }, defs)
        },
        Comp::Def { .. } => (c, Seq::empty()),
        Comp::PrimitiveCall { name, args } => {
            let (args, defs) = lift_values(base, types, n, args);
            (Comp::PrimitiveCall { name, args }, defs)
        },
        Comp::Lambda { args, body, may_have_complex_effects } => {
            let (body, defs) = lift_comp(base, types, n, *body);
            let name = lambda_name(base, n + defs.len());
            let captured = sorted(
                free_in_comp(
                    Comp::Lambda { args, body: Box::new(body), may_have_complex_effects },
                ),
            );
            let def = lifted_definition(captured, types, args, body, may_have_complex_effects);
            (
                lifted_call(name, captured, may_have_complex_effects),
                defs.push((name, def)),
            )
        },
    }
}

/// The number of definitions that are lifted out of `v`.
pub open spec fn lifts_in_value(v: Value) -> nat
    decreases v,
{
    match v {
        Value::Thunk { t, .. } => lifts_in_comp(*t) + if is_call(*t) || *t is Lambda {
            0nat
        } else {
            1nat
        },
        _ => 0,
    }
}

/// The number of definitions that are lifted out of `vs`.
pub open spec fn lifts_in_values(vs: Seq<Value>) -> nat
    decreases vs,
{
    if vs.len() == 0 {
        0
    } else {
        lifts_in_values(vs.drop_last()) + lifts_in_value(vs.last())
    }
}

/// The number of definitions that are lifted out of `c`: one for each lambda and one for each
/// thunk of something other than a plain call or a lambda.
pub open spec fn lifts_in_comp(c: Comp) -> nat
    decreases c,
{
    match c {
        Comp::Redex { function, args } => lifts_in_comp(*function) + lifts_in_values(args),
        Comp::Return { value } => lifts_in_value(value),
        Comp::Force { thunk, .. } => lifts_in_value(thunk),
        Comp::Def { .. } => 0,
        Comp::PrimitiveCall { args, .. } => lifts_in_values(args),
        Comp::Lambda { body, .. } => lifts_in_comp(*body) + 1,
    }
}

/// Whether all of `set` is less than `bound`.
pub open spec fn below(set: Set<usize>, bound: nat) -> bool {
    forall|x: usize| #[trigger] set.contains(x) ==> x < bound
}

/// Whether everything lifted out of `v` captures only variables less than `bound`.
pub open spec fn captures_below_in_value(bound: nat, v: Value) -> bool
    decreases v,
{
    match v {
        Value::Thunk { t, .. } => {
            &&& captures_below(bound, *t)
            &&& is_call(*t) || *t is Lambda || below(free_in_comp(*t), bound)
        },
        _ => true,
    }
}

/// Whether everything lifted out of `vs` captures only variables less than `bound`.
pub open spec fn captures_below_in_values(bound: nat, vs: Seq<Value>) -> bool
    decreases vs,
{
    forall|i: int| 0 <= i < vs.len() ==> captures_below_in_value(bound, #[trigger] vs[i])
}

/// Whether everything lifted out of `c` captures only variables less than `bound`, and there is an
/// index after each parameter of a lambda.
pub open spec fn captures_below(bound: nat, c: Comp) -> bool
    decreases c,
{
    match c {
        Comp::Redex { function, args } => {
            &&& captures_below(bound, *function)
            &&& captures_below_in_values(bound, args)
        },
        Comp::Return { value } => captures_below_in_value(bound, value),
        Comp::Force { thunk, .. } => captures_below_in_value(bound, thunk),
        Comp::Def { .. } => true,
        Comp::PrimitiveCall { args, .. } => captures_below_in_values(bound, args),
        Comp::Lambda { args, body, .. } => {
            &&& captures_below(bound, *body)
            &&& below(free_in_comp(c), bound)
            &&& top_of_params(args) <= usize::MAX
        },
    }
}

/// The elements of `set` that are less than `n` have a listing.
proof fn lemma_listing_exists_below(set: Set<usize>, n: int) -> (s: Seq<usize>)
    requires
        0 <= n <= usize::MAX + 1,
    ensures
        lists(s, set.filter(|x: usize| x < n)),
    decreases n,
{
    if n == 0 {
        Seq::empty()
    } else {
        let rest = lemma_listing_exists_below(set, n - 1);
        let last = (n - 1) as usize;
        let smaller = set.filter(|x: usize| x < n - 1);
        let wanted = set.filter(|x: usize| x < n);
        if set.contains(last) {
            let s = rest.push(last);
            assert forall|x: usize| #[trigger] s.contains(x) <==> wanted.contains(x) by {
                if s.contains(x) {
                    let k = s.index_of(x);
                    if k < rest.len() {
                        assert(rest.contains(rest[k]));
                    }
                }
                if smaller.contains(x) {
                    assert(rest.contains(x));
                    let k = rest.index_of(x);
                    assert(s[k] == x);
                }
                assert(s[rest.len() as int] == last);
            }
            assert forall|i: int, j: int| 0 <= i < j < s.len() implies s[i] < s[j] by {
                assert(rest.contains(rest[i]));
                assert(smaller.contains(rest[i]));
            }
            s
        } else {
            assert forall|x: usize| #[trigger] rest.contains(x) <==> wanted.contains(x) by {}
            rest
        }
    }
}

/// [`sorted`] names a listing.
pub proof fn lemma_sorted_lists(set: Set<usize>)
    ensures
        lists(sorted(set), set),
{
    let s = lemma_listing_exists_below(set, usize::MAX + 1);
    assert(set.filter(|x: usize| x < usize::MAX + 1) =~= set);
    assert(lists(s, set));
}

/// The elements of a set are listed each once, in ascending order.
pub proof fn lemma_sorted_in_order(set: Set<usize>)
    ensures
        forall|i: int, j: int| 0 <= i < j < sorted(set).len() ==> sorted(set)[i] < sorted(set)[j],
        forall|x: usize| #[trigger]
            set.contains(x) <==> exists|i: int| 0 <= i < sorted(set).len() && sorted(set)[i] == x,
{
    lemma_sorted_lists(set);
    assert forall|x: usize| #[trigger] set.contains(x) <==> exists|i: int|
        0 <= i < sorted(set).len() && sorted(set)[i] == x by {
        assert(sorted(set).contains(x) <==> set.contains(x));
    }
}

/// The free variables of a sequence of variables are these.
pub proof fn lemma_free_in_vars(indexes: Seq<usize>)
    ensures
        forall|x: usize| #[trigger]
            free_in_values(vars(indexes)).contains(x) <==> indexes.contains(x),
    decreases indexes.len(),
{
    let vs = vars(indexes);
    if indexes.len() > 0 {
        let front = indexes.drop_last();
        lemma_free_in_vars(front);
        assert(vs.drop_last() =~= vars(front));
        assert forall|x: usize| #[trigger]
            free_in_values(vs).contains(x) <==> indexes.contains(x) by {
            assert(free_in_value(vs.last()).contains(x) <==> x == indexes.last());
            assert(free_in_values(vars(front)).contains(x) <==> front.contains(x));
            assert(indexes[indexes.len() - 1] == indexes.last());
            if front.contains(x) {
                let k = front.index_of(x);
                assert(indexes[k] == x);
            }
            if indexes.contains(x) {
                let k = indexes.index_of(x);
                if k < front.len() {
                    assert(front[k] == x);
                }
            }
        }
    }
}

/// The free variables of a call of a lifted definition are those that it hands over.
pub proof fn lemma_free_in_call(name: Seq<char>, set: Set<usize>, effects: bool)
    ensures
        free_in_comp(lifted_call(name, sorted(set), effects)) == set,
{
    let call = lifted_call(name, sorted(set), effects);
    let def = Comp::Def { name, may_have_complex_effects: effects };
    lemma_sorted_lists(set);
    lemma_free_in_vars(sorted(set));
    assert(free_in_comp(def) =~= Set::empty());
    assert forall|x: usize| free_in_comp(call).contains(x) <==> set.contains(x) by {
        assert(sorted(set).contains(x) <==> set.contains(x));
        assert(free_in_values(vars(sorted(set))).contains(x) <==> sorted(set).contains(x));
    }
    assert(free_in_comp(call) =~= set);
}

proof fn lemma_lift_free_value(base: Seq<char>, types: Seq<VType>, n: nat, v: Value)
    ensures
        free_in_value(lift_value(base, types, n, v).0) == free_in_value(v),
        lift_value(base, types, n, v).1.len() == lifts_in_value(v),
    decreases v,
{
    if let Value::Thunk { t, may_have_complex_effects } = v {
        lemma_lift_free(base, types, n, *t);
        let (lifted, defs) = lift_comp(base, types, n, *t);
        if !is_call(lifted) {
            lemma_free_in_call(
                lambda_name(base, n + defs.len()),
                free_in_comp(lifted),
                may_have_complex_effects,
            );
        }
    }
}

proof fn lemma_lift_free_values(base: Seq<char>, types: Seq<VType>, n: nat, vs: Seq<Value>)
    ensures
        free_in_values(lift_values(base, types, n, vs).0) == free_in_values(vs),
        lift_values(base, types, n, vs).1.len() == lifts_in_values(vs),
        lift_values(base, types, n, vs).0.len() == vs.len(),
    decreases vs,
{
    if vs.len() > 0 {
        lemma_lift_free_values(base, types, n, vs.drop_last());
        let (front, front_defs) = lift_values(base, types, n, vs.drop_last());
        lemma_lift_free_value(base, types, n + front_defs.len(), vs.last());
        let all = lift_values(base, types, n, vs).0;
        assert(all.drop_last() =~= front);
    }
}

/// Lifting keeps the free variables, and lifts as many definitions as [`lifts_in_comp`] says.
pub proof fn lemma_lift_free(base: Seq<char>, types: Seq<VType>, n: nat, c: Comp)
    ensures
        free_in_comp(lift_comp(base, types, n, c).0) == free_in_comp(c),
        lift_comp(base, types, n, c).1.len() == lifts_in_comp(c),
        is_call(lift_comp(base, types, n, c).0) == (is_call(c) || c is Lambda),
    decreases c,
{
    match c {
        Comp::Redex { function, args } => {
            lemma_lift_free(base, types, n, *function);
            let (f, f_defs) = lift_comp(base, types, n, *function);
            lemma_lift_free_values(base, types, n + f_defs.len(), args);
        },
        Comp::Return { value } => {
            lemma_lift_free_value(base, types, n, value);
        },
        Comp::Force { thunk, .. } => {
            lemma_lift_free_value(base, types, n, thunk);
        },
        Comp::Def { .. } => {},
        Comp::PrimitiveCall { args, .. } => {
            lemma_lift_free_values(base, types, n, args);
        },
        Comp::Lambda { args, body, may_have_complex_effects } => {
            lemma_lift_free(base, types, n, *body);
            let (lifted, defs) = lift_comp(base, types, n, *body);
            let lambda = Comp::Lambda { args, body: Box::new(lifted), may_have_complex_effects };
            assert(free_in_comp(lambda) == free_in_comp(c));
            lemma_free_in_call(
                lambda_name(base, n + defs.len()),
                free_in_comp(lambda),
                may_have_complex_effects,
            );
        },
    }
}

/// Lifts thunks and lambdas of a definition to definitions of their own.
pub struct LambdaLifter<'a> {
    /// The name of the definition.
    pub def_name: &'a str,
    /// The number of definitions lifted so far.
    pub counter: usize,
    /// The definitions lifted so far.
    pub new_defs: Vec<(String, FunctionDefinition)>,
    /// The types of the local variables of the definition.
    pub local_var_types: &'a Vec<VType>,
}

impl<'a> LambdaLifter<'a> {
    /// Whether `self` lifts out of the same definition as `other`.
    pub open spec fn same_definition(self, other: Self) -> bool {
        self.def_name@ == other.def_name@ && self.local_var_types@ == other.local_var_types@
    }

    /// Builds the call of the next definition to be lifted, which captures `free_vars`.
    fn create_new_redex(&mut self, free_vars: &Vec<usize>, may_have_complex_effects: bool) -> (r: (
        String,
        CTerm,
    ))
        requires
            old(self).counter < usize::MAX,
        ensures
            final(self).same_definition(*old(self)),
            final(self).counter == old(self).counter + 1,
            final(self).new_defs == old(self).new_defs,
            r.0@ == lambda_name(old(self).def_name@, old(self).counter as nat),
            r.1@ == lifted_call(r.0@, free_vars@, may_have_complex_effects),
    {
        let thunk_def_name = generate_name(self.def_name, "$__lambda_", self.counter);
        self.counter = self.counter + 1;
        let mut args: Vec<VTerm> = Vec::new();
        for i in 0..free_vars.len()
            invariant
                values(args@) == vars(free_vars@.take(i as int)),
        {
            let v = VTerm::Var { index: free_vars[i] };
            proof {
                lemma_values_push(args@, v);
            }
            args.push(v);
            assert(values(args@) =~= vars(free_vars@.take(i + 1)));
        }
        assert(free_vars@.take(free_vars@.len() as int) =~= free_vars@);
        let def = CTerm::Def { name: thunk_def_name.clone(), may_have_complex_effects };
        assert(def@ == (Comp::Def { name: thunk_def_name@, may_have_complex_effects }));
        let redex = CTerm::Redex { function: Box::new(def), args };
        (thunk_def_name, redex)
    }

    /// Adds the definition that captures `free_vars`, takes `args` and does what `body` does.
    fn create_new_def(
        &mut self,
        name: String,
        free_vars: Vec<usize>,
        args: &Vec<(usize, VType)>,
        body: CTerm,
        may_be_complex: bool,
    )
        requires
            forall|i: int|
                0 <= i < free_vars@.len() ==> #[trigger] free_vars@[i]
                    < old(self).local_var_types@.len(),
            top_of_params(args@) <= usize::MAX,
        ensures
            final(self).same_definition(*old(self)),
            final(self).counter == old(self).counter,
            params_fit(definitions(final(self).new_defs@).last().1),
            definitions(final(self).new_defs@) == definitions(old(self).new_defs@).push(
                (
                    name@,
                    lifted_definition(
                        free_vars@,
                        old(self).local_var_types@,
                        args@,
                        body@,
                        may_be_complex,
                    ),
                ),
            ),
    {
        let ghost types = self.local_var_types@;
        let mut all_args: Vec<(usize, VType)> = Vec::new();
        for i in 0..free_vars.len()
            invariant
                types == self.local_var_types@,
                forall|i: int|
                    0 <= i < free_vars@.len() ==> #[trigger] free_vars@[i] < types.len(),
                all_args@ == captured_params(free_vars@.take(i as int), types),
        {
            let v = free_vars[i];
            all_args.push((v, self.local_var_types[v]));
            assert(all_args@ =~= captured_params(free_vars@.take(i + 1), types));
        }
        assert(free_vars@.take(free_vars@.len() as int) =~= free_vars@);
        proof {
            assert(types.len() == self.local_var_types.len());
            lemma_top_of_params_below(all_args@, types.len());
            lemma_top_of_concat(all_args@, args@);
        }
        let mut own_args = clone_params(args);
        all_args.append(&mut own_args);
        let var_bound = find_top_of_params(&all_args);
        let function_definition = FunctionDefinition {
            args: all_args,
            body,
            c_type: CType::Default,
            var_bound,
            // A simple flavor is needed for redexes that call this function.
            may_be_simple: !may_be_complex,
            // All thunks are treated as effectful to simplify compilation.
            may_be_complex: true,
        };
        proof {
            lemma_definitions_push(self.new_defs@, (name, function_definition));
            lemma_top_of_params(function_definition@.args);
        }
        self.new_defs.push((name, function_definition));
    }

    /// Lifts what is in the thunk of `c_term`, which is itself lifted, unless it is a plain call.
    fn transform_thunk(&mut self, c_term: CTerm, may_have_complex_effects: bool) -> (r: VTerm)
        requires
            !is_call(c_term@) ==> {
                &&& old(self).counter < usize::MAX
                &&& below(free_in_comp(c_term@), old(self).local_var_types@.len())
            },
        ensures
            final(self).same_definition(*old(self)),
            ({
                let before = definitions(old(self).new_defs@);
                let after = definitions(final(self).new_defs@);
                if is_call(c_term@) {
                    &&& r@ == (Value::Thunk { t: Box::new(c_term@), may_have_complex_effects })
                    &&& after == before
                    &&& final(self).counter == old(self).counter
                } else {
                    let name = lambda_name(old(self).def_name@, old(self).counter as nat);
                    let captured = sorted(free_in_comp(c_term@));
                    let call = lifted_call(name, captured, may_have_complex_effects);
                    &&& r@ == (Value::Thunk { t: Box::new(call), may_have_complex_effects })
                    &&& after == before.push(
                        (
                            name,
                            lifted_definition(
                                captured,
                                old(self).local_var_types@,
                                Seq::empty(),
                                c_term@,
                                may_have_complex_effects,
                            ),
                        ),
                    )
                    &&& final(self).counter == old(self).counter + 1
                }
            }),
    {
        let stays = match &c_term {
            CTerm::Def { .. } => true,
            CTerm::Redex { function, .. } => {
                assert(function@ is Def <==> **function is Def);
                matches!(**function, CTerm::Def { .. })
            },
            _ => false,
        };
        assert(stays == is_call(c_term@));
        if stays {
            return VTerm::Thunk { t: Box::new(c_term), may_have_complex_effects };
        }
        let free_vars = c_term.free_vars();
        assert forall|i: int| 0 <= i < free_vars@.len() implies #[trigger] free_vars@[i]
            < self.local_var_types@.len() by {
            assert(free_vars@.contains(free_vars@[i]));
        }
        let (thunk_def_name, redex) = self.create_new_redex(&free_vars, may_have_complex_effects);
        let no_args: Vec<(usize, VType)> = Vec::new();
        assert(no_args@ =~= Seq::empty());
        self.create_new_def(
            thunk_def_name,
            free_vars,
            &no_args,
            c_term,
            may_have_complex_effects,
        );
        VTerm::Thunk { t: Box::new(redex), may_have_complex_effects }
    }

    /// Lifts the lambda of `args` and `body`, the latter of which is itself lifted.
    fn transform_lambda(
        &mut self,
        args: &Vec<(usize, VType)>,
        body: CTerm,
        may_have_complex_effects: bool,
    ) -> (r: CTerm)
        requires
            old(self).counter < usize::MAX,
            below(
                free_in_comp(
                    Comp::Lambda { args: args@, body: Box::new(body@), may_have_complex_effects },
                ),
                old(self).local_var_types@.len(),
            ),
            top_of_params(args@) <= usize::MAX,
        ensures
            final(self).same_definition(*old(self)),
            final(self).counter == old(self).counter + 1,
            ({
                let lambda = Comp::Lambda {
                    args: args@,
                    body: Box::new(body@),
                    may_have_complex_effects,
                };
                let name = lambda_name(old(self).def_name@, old(self).counter as nat);
                let captured = sorted(free_in_comp(lambda));
                &&& r@ == lifted_call(name, captured, may_have_complex_effects)
                &&& definitions(final(self).new_defs@) == definitions(old(self).new_defs@).push(
                    (
                        name,
                        lifted_definition(
                            captured,
                            old(self).local_var_types@,
                            args@,
                            body@,
                            may_have_complex_effects,
                        ),
                    ),
                )
            }),
    {
        let ghost body_view = body@;
        let lambda = CTerm::Lambda {
            args: clone_params(args),
            body: Box::new(body),
            may_have_complex_effects,
        };
        assert(lambda@ == (Comp::Lambda {
            args: args@,
            body: Box::new(body_view),
            may_have_complex_effects,
        }));
        let free_vars = lambda.free_vars();
        assert forall|i: int| 0 <= i < free_vars@.len() implies #[trigger] free_vars@[i]
            < self.local_var_types@.len() by {
            assert(free_vars@.contains(free_vars@[i]));
        }
        let (thunk_def_name, redex) = self.create_new_redex(&free_vars, may_have_complex_effects);
        if let CTerm::Lambda { body, .. } = lambda {
            self.create_new_def(thunk_def_name, free_vars, args, *body, may_have_complex_effects);
        }
        redex
    }

    /// Lifts what is in `v`.
    pub fn transform_v_term(&mut self, v: &VTerm) -> (r: VTerm)
        requires
            old(self).counter + lifts_in_value(v@) <= usize::MAX,
            captures_below_in_value(old(self).local_var_types@.len(), v@),
        ensures
            final(self).same_definition(*old(self)),
            final(self).counter == old(self).counter + lifts_in_value(v@),
            ({
                let (lifted, defs) = lift_value(
                    old(self).def_name@,
                    old(self).local_var_types@,
                    old(self).counter as nat,
                    v@,
                );
                &&& r@ == lifted
                &&& definitions(final(self).new_defs@) == definitions(old(self).new_defs@) + defs
            }),
        decreases v,
    {
        proof {
            lemma_lift_free_value(
                self.def_name@,
                self.local_var_types@,
                self.counter as nat,
                v@,
            );
        }
        match v {
            VTerm::Var { index } => {
                assert(definitions(self.new_defs@) =~= definitions(self.new_defs@) + Seq::empty());
                VTerm::Var { index: *index }
            },
            VTerm::Int { value } => {
                assert(definitions(self.new_defs@) =~= definitions(self.new_defs@) + Seq::empty());
                VTerm::Int { value: *value }
            },
            VTerm::Thunk { t, may_have_complex_effects } => {
                proof {
                    lemma_lift_free(
                        self.def_name@,
                        self.local_var_types@,
                        self.counter as nat,
                        t@,
                    );
                }
                let ghost start = definitions(self.new_defs@);
                let t = self.transform_c_term(t);
                let r = self.transform_thunk(t, *may_have_complex_effects);
                assert(definitions(self.new_defs@) =~= start + lift_value(
                    old(self).def_name@,
                    old(self).local_var_types@,
                    old(self).counter as nat,
                    v@,
                ).1);
                r
            },
        }
    }

    /// Lifts what is in each of `vs`.
    fn transform_v_terms(&mut self, vs: &Vec<VTerm>) -> (r: Vec<VTerm>)
        requires
            old(self).counter + lifts_in_values(values(vs@)) <= usize::MAX,
            captures_below_in_values(old(self).local_var_types@.len(), values(vs@)),
        ensures
            final(self).same_definition(*old(self)),
            final(self).counter == old(self).counter + lifts_in_values(values(vs@)),
            ({
                let (lifted, defs) = lift_values(
                    old(self).def_name@,
                    old(self).local_var_types@,
                    old(self).counter as nat,
                    values(vs@),
                );
                &&& values(r@) == lifted
                &&& definitions(final(self).new_defs@) == definitions(old(self).new_defs@) + defs
            }),
        decreases vs,
    {
        let mut r: Vec<VTerm> = Vec::new();
        let ghost base = self.def_name@;
        let ghost types = self.local_var_types@;
        let ghost n = self.counter as nat;
        let ghost all = values(vs@);
        let ghost start = definitions(self.new_defs@);
        assert(values(r@) =~= lift_values(base, types, n, all.take(0)).0);
        assert(start =~= start + lift_values(base, types, n, all.take(0)).1);
        for i in 0..vs.len()
            invariant
                self.same_definition(*old(self)),
                base == old(self).def_name@,
                types == old(self).local_var_types@,
                n == old(self).counter,
                all == values(vs@),
                n + lifts_in_values(all) <= usize::MAX,
                captures_below_in_values(types.len(), all),
                self.counter == n + lifts_in_values(all.take(i as int)),
                values(r@) == lift_values(base, types, n, all.take(i as int)).0,
                definitions(self.new_defs@) == start + lift_values(
                    base,
                    types,
                    n,
                    all.take(i as int),
                ).1,
        {
            assert(all.take(i + 1).drop_last() =~= all.take(i as int));
            assert(all.take(i + 1).last() == value(vs@[i as int]));
            assert(captures_below_in_value(types.len(), all[i as int]));
            proof {
                lemma_lift_free_values(base, types, n, all.take(i as int));
                lemma_lifts_prefix(all, i + 1);
            }
            let v = self.transform_v_term(&vs[i]);
            proof {
                lemma_values_push(r@, v);
            }
            r.push(v);
            assert(definitions(self.new_defs@) =~= start + lift_values(
                base,
                types,
                n,
                all.take(i + 1),
            ).1);
        }
        assert(all.take(vs@.len() as int) =~= all);
        r
    }

    /// Lifts what is in `c`.
    pub fn transform_c_term(&mut self, c: &CTerm) -> (r: CTerm)
        requires
            old(self).counter + lifts_in_comp(c@) <= usize::MAX,
            captures_below(old(self).local_var_types@.len(), c@),
        ensures
            final(self).same_definition(*old(self)),
            final(self).counter == old(self).counter + lifts_in_comp(c@),
            ({
                let (lifted, defs) = lift_comp(
                    old(self).def_name@,
                    old(self).local_var_types@,
                    old(self).counter as nat,
                    c@,
                );
                &&& r@ == lifted
                &&& definitions(final(self).new_defs@) == definitions(old(self).new_defs@) + defs
            }),
        decreases c,
    {
        let ghost base = self.def_name@;
        let ghost types = self.local_var_types@;
        let ghost n = self.counter as nat;
        let ghost start = definitions(self.new_defs@);
        let r = match c {
            CTerm::Redex { function, args } => {
                proof {
                    lemma_lift_free(base, types, n, function@);
                }
                let function = self.transform_c_term(function);
                let args = self.transform_v_terms(args);
                CTerm::Redex { function: Box::new(function), args }
            },
            CTerm::Return { value } => CTerm::Return { value: self.transform_v_term(value) },
            CTerm::Force { thunk, may_have_complex_effects } => CTerm::Force {
                thunk: self.transform_v_term(thunk),
                may_have_complex_effects: *may_have_complex_effects,
            },
            CTerm::Def { name, may_have_complex_effects } => CTerm::Def {
                name: name.clone(),
                may_have_complex_effects: *may_have_complex_effects,
            },
            CTerm::PrimitiveCall { name, args } => CTerm::PrimitiveCall {
                name: name.clone(),
                args: self.transform_v_terms(args),
            },
            CTerm::Lambda { args, body, may_have_complex_effects } => {
                proof {
                    lemma_lift_free(base, types, n, body@);
                }
                let new_body = self.transform_c_term(body);
                assert(free_in_comp(
                    Comp::Lambda {
                        args: args@,
                        body: Box::new(new_body@),
                        may_have_complex_effects: *may_have_complex_effects,
                    },
                ) == free_in_comp(c@));
                self.transform_lambda(args, new_body, *may_have_complex_effects)
            },
        };
        assert(definitions(self.new_defs@) =~= start + lift_comp(base, types, n, c@).1);
        r
    }
}

/// No more is lifted out of a prefix of a sequence of values than out of the whole.
proof fn lemma_lifts_prefix(vs: Seq<Value>, k: int)
    requires
        0 <= k <= vs.len(),
    ensures
        lifts_in_values(vs.take(k)) <= lifts_in_values(vs),
    decreases vs.len(),
{
    if k < vs.len() {
        lemma_lifts_prefix(vs.drop_last(), k);
        assert(vs.drop_last().take(k) =~= vs.take(k));
    } else {
        assert(vs.take(k) =~= vs);
    }
}

/// Whether none of `defs` has a binder in its body.
pub open spec fn no_binders(defs: Seq<(Seq<char>, Definition)>) -> bool {
    forall|i: int| 0 <= i < defs.len() ==> binders_in_comp((#[trigger] defs[i]).1.body) == 0
}

/// A call of a lifted definition has no binders.
pub proof fn lemma_no_binders_in_call(name: Seq<char>, captured: Seq<usize>, effects: bool)
    ensures
        binders_in_comp(lifted_call(name, captured, effects)) == 0,
{
    assert(binders_in_comp(Comp::Def { name, may_have_complex_effects: effects }) == 0);
    assert forall|i: int| 0 <= i < captured.len() implies binders_in_value(
        #[trigger] vars(captured)[i],
    ) == 0 by {}
    lemma_no_binders_in_values(vars(captured));
}

proof fn lemma_lift_leaves_no_binders_in_value(
    base: Seq<char>,
    types: Seq<VType>,
    n: nat,
    v: Value,
)
    ensures
        binders_in_value(lift_value(base, types, n, v).0) == 0,
        no_binders(lift_value(base, types, n, v).1),
    decreases v,
{
    if let Value::Thunk { t, may_have_complex_effects } = v {
        lemma_lift_leaves_no_binders(base, types, n, *t);
        let (lifted, defs) = lift_comp(base, types, n, *t);
        if !is_call(lifted) {
            lemma_no_binders_in_call(
                lambda_name(base, n + defs.len()),
                sorted(free_in_comp(lifted)),
                may_have_complex_effects,
            );
        }
    }
}

proof fn lemma_lift_leaves_no_binders_in_values(
    base: Seq<char>,
    types: Seq<VType>,
    n: nat,
    vs: Seq<Value>,
)
    ensures
        binders_in_values(lift_values(base, types, n, vs).0) == 0,
        no_binders(lift_values(base, types, n, vs).1),
    decreases vs,
{
    if vs.len() > 0 {
        lemma_lift_leaves_no_binders_in_values(base, types, n, vs.drop_last());
        let (front, front_defs) = lift_values(base, types, n, vs.drop_last());
        lemma_lift_leaves_no_binders_in_value(base, types, n + front_defs.len(), vs.last());
        assert(lift_values(base, types, n, vs).0.drop_last() =~= front);
    }
}

/// Lifting leaves no lambda: neither what remains of `c` nor what is lifted out of it has a binder.
pub proof fn lemma_lift_leaves_no_binders(base: Seq<char>, types: Seq<VType>, n: nat, c: Comp)
    ensures
        binders_in_comp(lift_comp(base, types, n, c).0) == 0,
        no_binders(lift_comp(base, types, n, c).1),
    decreases c,
{
    match c {
        Comp::Redex { function, args } => {
            lemma_lift_leaves_no_binders(base, types, n, *function);
            let (f, f_defs) = lift_comp(base, types, n, *function);
            lemma_lift_leaves_no_binders_in_values(base, types, n + f_defs.len(), args);
        },
        Comp::Return { value } => {
            lemma_lift_leaves_no_binders_in_value(base, types, n, value);
        },
        Comp::Force { thunk, .. } => {
            lemma_lift_leaves_no_binders_in_value(base, types, n, thunk);
        },
        Comp::Def { .. } => {},
        Comp::PrimitiveCall { args, .. } => {
            lemma_lift_leaves_no_binders_in_values(base, types, n, args);
        },
        Comp::Lambda { args, body, may_have_complex_effects } => {
            lemma_lift_leaves_no_binders(base, types, n, *body);
            let (lifted, defs) = lift_comp(base, types, n, *body);
            lemma_no_binders_in_call(
                lambda_name(base, n + defs.len()),
                sorted(
                    free_in_comp(
                        Comp::Lambda { args, body: Box::new(lifted), may_have_complex_effects },
                    ),
                ),
                may_have_complex_effects,
            );
        },
    }
}

} // verus!
