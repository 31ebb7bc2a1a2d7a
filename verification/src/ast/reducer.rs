//! Reduction of applied lambdas and forced thunks.
use crate::ast::normal_form::lemma_reduced;
use crate::ast::redundancy::{simplify_comp, RedundancyRemover};
use crate::ast::renamer::{binders_in_comp, binders_in_value, rename_comp, DistinctVarRenamer};
use crate::ast::substitutor::{pair_up, substitute, Substitutor};
use crate::ast::term::{
    clone_params, lemma_values_push, value, values, CTerm, Comp, VTerm, VType, Value,
};
use crate::ast::usage::{count_binders, count_uses, has_binders, lesser, uses};
use vstd::prelude::*;

verus! {

/// What the application of the lambda with the given parameters, body and effects to `args`
/// becomes when as many parameters as there are arguments for are replaced by these.
pub open spec fn applied(
    params: Seq<(usize, VType)>,
    body: Comp,
    effects: bool,
    args: Seq<Value>,
) -> Comp {
    let k = lesser(args.len(), params.len());
    simplify_comp(
        Comp::Redex {
            function: Box::new(
                Comp::Lambda {
                    args: params.skip(k as int),
                    body: Box::new(substitute(pair_up(params, args, k), body)),
                    may_have_complex_effects: effects,
                },
            ),
            args: args.skip(k as int),
        },
    )
}

/// Whether applying the lambda with the given parameters and body to `args` copies no binder: an
/// argument with binders is used no more than once.
pub open spec fn copies_no_binder(
    params: Seq<(usize, VType)>,
    body: Comp,
    args: Seq<Value>,
) -> bool {
    forall|i: int|
        0 <= i < lesser(args.len(), params.len()) ==> uses((#[trigger] params[i]).0, body) <= 1
            || binders_in_value(args[i]) == 0
}

/// The step that the application of the lambda with the given parameters, body and effects to
/// `args` takes, and the next unused index after it. All indexes from `n` on are unused before. If
/// the step copies binders, all binders are numbered anew, such that they stay distinct.
pub open spec fn contract(
    n: nat,
    params: Seq<(usize, VType)>,
    body: Comp,
    effects: bool,
    args: Seq<Value>,
) -> (Comp, nat) {
    let c = applied(params, body, effects, args);
    if copies_no_binder(params, body, args) {
        (c, n)
    } else {
        (rename_comp(Map::empty(), n, c), n + binders_in_comp(c))
    }
}

/// The value `v` reduced, and the next unused index after it, or `None` if that takes more than
/// `fuel` nested steps. All indexes from `n` on are unused before.
pub open spec fn reduce_value(fuel: nat, n: nat, v: Value) -> Option<(Value, nat)>
    decreases fuel, v,
{
    match v {
        Value::Thunk { t, may_have_complex_effects } => match reduce_comp(fuel, n, *t) {
            Some((t, n1)) => Some((Value::Thunk { t: Box::new(t), may_have_complex_effects }, n1)),
            None => None,
        },
        _ => Some((v, n)),
    }
}

/// The values `vs` reduced one after the other; see [`reduce_value`].
pub open spec fn reduce_values(fuel: nat, n: nat, vs: Seq<Value>) -> Option<(Seq<Value>, nat)>
    decreases fuel, vs,
{
    if vs.len() == 0 {
        Some((Seq::empty(), n))
    } else {
        match reduce_values(fuel, n, vs.drop_last()) {
            Some((front, n1)) => match reduce_value(fuel, n1, vs.last()) {
                Some((last, n2)) => Some((front.push(last), n2)),
                None => None,
            },
            None => None,
        }
    }
}

/// The computation `c` reduced, and the next unused index after it, or `None` if that takes more
/// than `fuel` nested steps. All indexes from `n` on are unused before. First the parts of `c` are
/// reduced. If that makes `c` an applied lambda or a forced thunk, then it takes a step, and what
/// becomes of it is reduced again.
pub open spec fn reduce_comp(fuel: nat, n: nat, c: Comp) -> Option<(Comp, nat)>
    decreases fuel, c,
{
    match c {
        Comp::Redex { function, args } => match reduce_comp(fuel, n, *function) {
            Some((f, n1)) => match reduce_values(fuel, n1, args) {
                Some((vs, n2)) => match f {
                    Comp::Lambda { args: params, body, may_have_complex_effects } => {
                        let (next, n3) = contract(n2, params, *body, may_have_complex_effects, vs);
                        if fuel == 0 {
                            None
                        } else {
                            reduce_comp((fuel - 1) as nat, n3, next)
                        }
                    },
                    _ => Some((Comp::Redex { function: Box::new(f), args: vs }, n2)),
                },
                None => None,
            },
            None => None,
        },
        Comp::Return { value } => match reduce_value(fuel, n, value) {
            Some((value, n1)) => Some((Comp::Return { value }, n1)),
            None => None,
        },
        Comp::Force { thunk, may_have_complex_effects } => match reduce_value(fuel, n, thunk) {
            Some((thunk, n1)) => match thunk {
                Value::Thunk { t, .. } => if fuel == 0 {
                    None
                } else {
                    reduce_comp((fuel - 1) as nat, n1, *t)
                },
                _ => Some((Comp::Force { thunk, may_have_complex_effects }, n1)),
            },
            None => None,
        },
        Comp::Def { .. } => Some((c, n)),
        Comp::PrimitiveCall { name, args } => match reduce_values(fuel, n, args) {
            Some((args, n1)) => Some((Comp::PrimitiveCall { name, args }, n1)),
            None => None,
        },
        Comp::Lambda { args, body, may_have_complex_effects } => match reduce_comp(
            fuel,
            n,
            *body,
        ) {
            Some((body, n1)) => Some(
                (Comp::Lambda { args, body: Box::new(body), may_have_complex_effects }, n1),
            ),
            None => None,
        },
    }
}

/// Whether the reduction of `c` comes to an end, where all indexes from `n` on are unused.
pub open spec fn reduces(n: nat, c: Comp) -> bool {
    exists|fuel: nat| (#[trigger] reduce_comp(fuel, n, c)) is Some
}

/// What the reduction of `c` ends in, and the next unused index after it, where all indexes from
/// `n` on are unused before.
pub open spec fn reduced(n: nat, c: Comp) -> (Comp, nat) {
    let fuel = choose|fuel: nat| (#[trigger] reduce_comp(fuel, n, c)) is Some;
    reduce_comp(fuel, n, c)->0
}

/// As [`lemma_reduce_counts`], for values.
pub proof fn lemma_reduce_counts_value(fuel: nat, n: nat, v: Value)
    requires
        reduce_value(fuel, n, v) is Some,
    ensures
        n <= (reduce_value(fuel, n, v)->0).1,
    decreases fuel, v,
{
    if let Value::Thunk { t, .. } = v {
        lemma_reduce_counts(fuel, n, *t);
    }
}

/// As [`lemma_reduce_counts`], for sequences of values.
pub proof fn lemma_reduce_counts_values(fuel: nat, n: nat, vs: Seq<Value>)
    requires
        reduce_values(fuel, n, vs) is Some,
    ensures
        n <= (reduce_values(fuel, n, vs)->0).1,
    decreases fuel, vs,
{
    if vs.len() > 0 {
        lemma_reduce_counts_values(fuel, n, vs.drop_last());
        let n1 = (reduce_values(fuel, n, vs.drop_last())->0).1;
        lemma_reduce_counts_value(fuel, n1, vs.last());
    }
}

/// Indexes are only ever used up.
pub proof fn lemma_reduce_counts(fuel: nat, n: nat, c: Comp)
    requires
        reduce_comp(fuel, n, c) is Some,
    ensures
        n <= (reduce_comp(fuel, n, c)->0).1,
    decreases fuel, c,
{
    match c {
        Comp::Redex { function, args } => {
            lemma_reduce_counts(fuel, n, *function);
            let (f, n1) = reduce_comp(fuel, n, *function)->0;
            lemma_reduce_counts_values(fuel, n1, args);
            let (vs, n2) = reduce_values(fuel, n1, args)->0;
            if let Comp::Lambda { args: params, body, may_have_complex_effects } = f {
                let (next, n3) = contract(n2, params, *body, may_have_complex_effects, vs);
                lemma_reduce_counts((fuel - 1) as nat, n3, next);
            }
        },
        Comp::Return { value } => {
            lemma_reduce_counts_value(fuel, n, value);
        },
        Comp::Force { thunk, .. } => {
            lemma_reduce_counts_value(fuel, n, thunk);
            let (v, n1) = reduce_value(fuel, n, thunk)->0;
            if let Value::Thunk { t, .. } = v {
                lemma_reduce_counts((fuel - 1) as nat, n1, *t);
            }
        },
        Comp::Def { .. } => {},
        Comp::PrimitiveCall { args, .. } => {
            lemma_reduce_counts_values(fuel, n, args);
        },
        Comp::Lambda { body, .. } => {
            lemma_reduce_counts(fuel, n, *body);
        },
    }
}

/// Whether `r` with the next unused index `next` is what `outcome` of a bounded reduction tells. It
/// is `None` if there is no outcome, or if indexes ran out.
pub open spec fn is_outcome(
    outcome: Option<(Comp, nat)>,
    r: Option<CTerm>,
    next: usize,
) -> bool {
    match outcome {
        Some((c, n)) => if n <= usize::MAX {
            &&& r is Some
            &&& r->0@ == c
            &&& next == n
        } else {
            r is None
        },
        None => r is None,
    }
}

/// Indexes that ran out in a part of an application ran out in all of it.
proof fn lemma_redex_counts(fuel: nat, n: nat, function: Comp, args: Seq<Value>)
    ensures
        ({
            let c = Comp::Redex { function: Box::new(function), args };
            reduce_comp(fuel, n, c) is Some ==> {
                let (f, n1) = reduce_comp(fuel, n, function)->0;
                let (vs, n2) = reduce_values(fuel, n1, args)->0;
                n1 <= n2 <= (reduce_comp(fuel, n, c)->0).1
            }
        }),
{
    let c = Comp::Redex { function: Box::new(function), args };
    if reduce_comp(fuel, n, c) is Some {
        let (f, n1) = reduce_comp(fuel, n, function)->0;
        let (vs, n2) = reduce_values(fuel, n1, args)->0;
        lemma_reduce_counts_values(fuel, n1, args);
        if let Comp::Lambda { args: params, body, may_have_complex_effects } = f {
            let (next, n3) = contract(n2, params, *body, may_have_complex_effects, vs);
            lemma_reduce_counts((fuel - 1) as nat, n3, next);
        }
    }
}

/// Indexes that ran out in a thunk ran out in its force.
proof fn lemma_force_counts(fuel: nat, n: nat, thunk: Value)
    ensures
        forall|effects: bool| #[trigger]
            reduce_comp(
                fuel,
                n,
                Comp::Force { thunk, may_have_complex_effects: effects },
            ) is Some ==> {
                let c = Comp::Force { thunk, may_have_complex_effects: effects };
                (reduce_value(fuel, n, thunk)->0).1 <= (reduce_comp(fuel, n, c)->0).1
            },
{
    assert forall|effects: bool| #[trigger]
        reduce_comp(
            fuel,
            n,
            Comp::Force { thunk, may_have_complex_effects: effects },
        ) is Some implies ({
        let c = Comp::Force { thunk, may_have_complex_effects: effects };
        (reduce_value(fuel, n, thunk)->0).1 <= (reduce_comp(fuel, n, c)->0).1
    }) by {
        let (v, n1) = reduce_value(fuel, n, thunk)->0;
        if let Value::Thunk { t, .. } = v {
            lemma_reduce_counts((fuel - 1) as nat, n1, *t);
        }
    }
}

/// Reduces applied lambdas and forced thunks.
pub struct RedexReducer {
    /// The next unused index. All following ones are unused, too.
    pub next_index: usize,
}

impl RedexReducer {
    /// Whether applying the lambda with the given parameters and body to `args` copies no binder.
    fn copies_no_binder(
        lambda_args: &Vec<(usize, VType)>,
        body: &CTerm,
        args: &Vec<VTerm>,
    ) -> (r: bool)
        ensures
            r == copies_no_binder(lambda_args@, body@, values(args@)),
    {
        let num_args = if args.len() <= lambda_args.len() {
            args.len()
        } else {
            lambda_args.len()
        };
        for i in 0..num_args
            invariant
                num_args == lesser(args@.len(), lambda_args@.len()),
                forall|j: int|
                    0 <= j < i ==> uses((#[trigger] lambda_args@[j]).0, body@) <= 1
                        || binders_in_value(values(args@)[j]) == 0,
        {
            if has_binders(&args[i]) && count_uses(lambda_args[i].0, body) > 1 {
                assert(uses(lambda_args@[i as int].0, body@) > 1);
                return false;
            }
        }
        true
    }

    /// Applies the lambda with the given parameters, body and effects to `args`. The flag tells
    /// whether that copies no binder.
    fn apply_lambda(
        lambda_args: Vec<(usize, VType)>,
        body: &CTerm,
        may_have_complex_effects: bool,
        args: Vec<VTerm>,
    ) -> (r: (CTerm, bool))
        ensures
            r.0@ == applied(lambda_args@, body@, may_have_complex_effects, values(args@)),
            r.1 == copies_no_binder(lambda_args@, body@, values(args@)),
    {
        let ghost all_params = lambda_args@;
        let ghost all_args = values(args@);
        let stays_distinct = Self::copies_no_binder(&lambda_args, body, &args);
        let mut lambda_args = lambda_args;
        let mut args = args;
        let num_args = if args.len() <= lambda_args.len() {
            args.len()
        } else {
            lambda_args.len()
        };
        let rest_args = args.split_off(num_args);
        let rest_lambda_args = lambda_args.split_off(num_args);
        let substitutor = Substitutor::new(&lambda_args, &args);
        let lambda_body = substitutor.transform_c_term(body);
        proof {
            assert(values(rest_args@) =~= all_args.skip(num_args as int));
            assert(rest_lambda_args@ =~= all_params.skip(num_args as int));
            lemma_pair_up_prefix(
                all_params,
                all_args,
                lambda_args@,
                values(args@),
                num_args as nat,
            );
        }
        let lambda = CTerm::Lambda {
            args: rest_lambda_args,
            body: Box::new(lambda_body),
            may_have_complex_effects,
        };
        let ghost lambda_view = lambda@;
        let redex = CTerm::Redex { function: Box::new(lambda), args: rest_args };
        assert(redex@ == (Comp::Redex {
            function: Box::new(lambda_view),
            args: values(rest_args@),
        }));
        (RedundancyRemover {  }.transform_c_term(&redex), stays_distinct)
    }

    /// Reduces the application of `function` to `args`, both of which are reduced.
    fn transform_redex(
        &mut self,
        function: CTerm,
        args: Vec<VTerm>,
        Ghost(fuel): Ghost<nat>,
    ) -> (r: CTerm)
        requires
            function@ matches Comp::Lambda { args: params, body, may_have_complex_effects } ==> {
                let (next, n) = contract(
                    old(self).next_index as nat,
                    params,
                    *body,
                    may_have_complex_effects,
                    values(args@),
                );
                &&& fuel > 0
                &&& reduce_comp((fuel - 1) as nat, n, next) is Some
                &&& (reduce_comp((fuel - 1) as nat, n, next)->0).1 <= usize::MAX
            },
        ensures
            match function@ {
                Comp::Lambda { args: params, body, may_have_complex_effects } => {
                    let (next, n) = contract(
                        old(self).next_index as nat,
                        params,
                        *body,
                        may_have_complex_effects,
                        values(args@),
                    );
                    Some((r@, final(self).next_index as nat)) == reduce_comp(
                        (fuel - 1) as nat,
                        n,
                        next,
                    )
                },
                _ => {
                    &&& r@ == (Comp::Redex { function: Box::new(function@), args: values(args@) })
                    &&& final(self).next_index == old(self).next_index
                },
            },
        decreases 2 * fuel, function,
    {
        match function {
            CTerm::Lambda { args: lambda_args, body, may_have_complex_effects } => {
                let (simplified, stays_distinct) = Self::apply_lambda(
                    lambda_args,
                    &body,
                    may_have_complex_effects,
                    args,
                );
                proof {
                    let (next, n) = contract(
                        self.next_index as nat,
                        lambda_args@,
                        body@,
                        may_have_complex_effects,
                        values(args@),
                    );
                    lemma_reduce_counts((fuel - 1) as nat, n, next);
                }
                if stays_distinct {
                    self.transform_c_term(&simplified, Ghost((fuel - 1) as nat))
                } else {
                    let mut renamer = DistinctVarRenamer::starting_at(self.next_index);
                    let renamed = renamer.transform_c_term(&simplified);
                    self.next_index = renamer.counter();
                    self.transform_c_term(&renamed, Ghost((fuel - 1) as nat))
                }
            },
            function => CTerm::Redex { function: Box::new(function), args },
        }
    }

    /// Reduces the force of `thunk`, which is reduced.
    fn transform_force(
        &mut self,
        thunk: VTerm,
        may_have_complex_effects: bool,
        Ghost(fuel): Ghost<nat>,
    ) -> (r: CTerm)
        requires
            thunk@ matches Value::Thunk { t, .. } ==> {
                &&& fuel > 0
                &&& reduce_comp((fuel - 1) as nat, old(self).next_index as nat, *t) is Some
                &&& (reduce_comp((fuel - 1) as nat, old(self).next_index as nat, *t)->0).1
                    <= usize::MAX
            },
        ensures
            match thunk@ {
                Value::Thunk { t, .. } => Some((r@, final(self).next_index as nat)) == reduce_comp(
                    (fuel - 1) as nat,
                    old(self).next_index as nat,
                    *t,
                ),
                _ => {
                    &&& r@ == (Comp::Force { thunk: thunk@, may_have_complex_effects })
                    &&& final(self).next_index == old(self).next_index
                },
            },
        decreases 2 * fuel, thunk,
    {
        match thunk {
            VTerm::Thunk { t, .. } => self.transform_c_term(&t, Ghost((fuel - 1) as nat)),
            thunk => CTerm::Force { thunk, may_have_complex_effects },
        }
    }

    /// Reduces `v`.
    fn transform_v_term(&mut self, v: &VTerm, Ghost(fuel): Ghost<nat>) -> (r: VTerm)
        requires
            reduce_value(fuel, old(self).next_index as nat, v@) is Some,
            (reduce_value(fuel, old(self).next_index as nat, v@)->0).1 <= usize::MAX,
        ensures
            Some((r@, final(self).next_index as nat)) == reduce_value(
                fuel,
                old(self).next_index as nat,
                v@,
            ),
        decreases 2 * fuel + 1, v,
    {
        match v {
            VTerm::Var { index } => VTerm::Var { index: *index },
            VTerm::Int { value } => VTerm::Int { value: *value },
            VTerm::Thunk { t, may_have_complex_effects } => VTerm::Thunk {
                t: Box::new(self.transform_c_term(t, Ghost(fuel))),
                may_have_complex_effects: *may_have_complex_effects,
            },
        }
    }

    /// Reduces each of `vs`.
    fn transform_v_terms(&mut self, vs: &Vec<VTerm>, Ghost(fuel): Ghost<nat>) -> (r: Vec<VTerm>)
        requires
            reduce_values(fuel, old(self).next_index as nat, values(vs@)) is Some,
            (reduce_values(fuel, old(self).next_index as nat, values(vs@))->0).1 <= usize::MAX,
        ensures
            Some((values(r@), final(self).next_index as nat)) == reduce_values(
                fuel,
                old(self).next_index as nat,
                values(vs@),
            ),
        decreases 2 * fuel + 1, vs,
    {
        let mut r: Vec<VTerm> = Vec::new();
        let ghost all = values(vs@);
        let ghost n = self.next_index as nat;
        assert(values(r@) =~= Seq::empty());
        for i in 0..vs.len()
            invariant
                all == values(vs@),
                reduce_values(fuel, n, all) is Some,
                (reduce_values(fuel, n, all)->0).1 <= usize::MAX,
                Some((values(r@), self.next_index as nat)) == reduce_values(
                    fuel,
                    n,
                    all.take(i as int),
                ),
        {
            assert(all.take(i + 1).drop_last() =~= all.take(i as int));
            assert(all.take(i + 1).last() == value(vs@[i as int]));
            proof {
                lemma_reduce_prefix(fuel, n, all, i + 1);
            }
            let v = self.transform_v_term(&vs[i], Ghost(fuel));
            proof {
                lemma_values_push(r@, v);
            }
            r.push(v);
        }
        assert(all.take(vs@.len() as int) =~= all);
        r
    }

    /// Reduces `c`.
    fn transform_c_term(&mut self, c: &CTerm, Ghost(fuel): Ghost<nat>) -> (r: CTerm)
        requires
            reduce_comp(fuel, old(self).next_index as nat, c@) is Some,
            (reduce_comp(fuel, old(self).next_index as nat, c@)->0).1 <= usize::MAX,
        ensures
            Some((r@, final(self).next_index as nat)) == reduce_comp(
                fuel,
                old(self).next_index as nat,
                c@,
            ),
        decreases 2 * fuel + 1, c,
    {
        let ghost n = self.next_index as nat;
        match c {
            CTerm::Redex { function, args } => {
                proof {
                    let (f, n1) = reduce_comp(fuel, n, function@)->0;
                    let (vs, n2) = reduce_values(fuel, n1, values(args@))->0;
                    lemma_reduce_counts_values(fuel, n1, values(args@));
                    if let Comp::Lambda { args: params, body, may_have_complex_effects } = f {
                        let (next, n3) = contract(n2, params, *body, may_have_complex_effects, vs);
                        lemma_reduce_counts((fuel - 1) as nat, n3, next);
                    }
                }
                let function = self.transform_c_term(function, Ghost(fuel));
                let args = self.transform_v_terms(args, Ghost(fuel));
                self.transform_redex(function, args, Ghost(fuel))
            },
            CTerm::Return { value } => CTerm::Return {
                value: self.transform_v_term(value, Ghost(fuel)),
            },
            CTerm::Force { thunk, may_have_complex_effects } => {
                proof {
                    let (v, n1) = reduce_value(fuel, n, thunk@)->0;
                    if let Value::Thunk { t, .. } = v {
                        lemma_reduce_counts((fuel - 1) as nat, n1, *t);
                    }
                }
                let thunk = self.transform_v_term(thunk, Ghost(fuel));
                self.transform_force(thunk, *may_have_complex_effects, Ghost(fuel))
            },
            CTerm::Def { name, may_have_complex_effects } => CTerm::Def {
                name: name.clone(),
                may_have_complex_effects: *may_have_complex_effects,
            },
            CTerm::PrimitiveCall { name, args } => CTerm::PrimitiveCall {
                name: name.clone(),
                args: self.transform_v_terms(args, Ghost(fuel)),
            },
            CTerm::Lambda { args, body, may_have_complex_effects } => CTerm::Lambda {
                args: clone_params(args),
                body: Box::new(self.transform_c_term(body, Ghost(fuel))),
                may_have_complex_effects: *may_have_complex_effects,
            },
        }
    }

    /// Reduces the application of `function` to `args`, both of which are reduced, with no more
    /// than `depth` nested steps.
    fn try_transform_redex(&mut self, function: CTerm, args: Vec<VTerm>, depth: usize) -> (r:
        Option<CTerm>)
        ensures
            match function@ {
                Comp::Lambda { args: params, body, may_have_complex_effects } => {
                    let (next, n) = contract(
                        old(self).next_index as nat,
                        params,
                        *body,
                        may_have_complex_effects,
                        values(args@),
                    );
                    if depth > 0 {
                        is_outcome(
                            reduce_comp((depth - 1) as nat, n, next),
                            r,
                            final(self).next_index,
                        )
                    } else {
                        r is None
                    }
                },
                _ => {
                    &&& r is Some
                    &&& r->0@ == (Comp::Redex {
                        function: Box::new(function@),
                        args: values(args@),
                    })
                    &&& final(self).next_index == old(self).next_index
                },
            },
        decreases 2 * depth, function,
    {
        match function {
            CTerm::Lambda { args: lambda_args, body, may_have_complex_effects } => {
                if depth == 0 {
                    return None;
                }
                let (simplified, stays_distinct) = Self::apply_lambda(
                    lambda_args,
                    &body,
                    may_have_complex_effects,
                    args,
                );
                if stays_distinct {
                    return self.try_transform_c_term(&simplified, depth - 1);
                }
                let ghost n = self.next_index + binders_in_comp(simplified@);
                match count_binders(&simplified) {
                    Some(num_binders) if num_binders <= usize::MAX - self.next_index => {
                        let mut renamer = DistinctVarRenamer::starting_at(self.next_index);
                        let renamed = renamer.transform_c_term(&simplified);
                        self.next_index = renamer.counter();
                        self.try_transform_c_term(&renamed, depth - 1)
                    },
                    _ => {
                        proof {
                            let next = rename_comp(
                                Map::empty(),
                                self.next_index as nat,
                                simplified@,
                            );
                            if reduce_comp((depth - 1) as nat, n as nat, next) is Some {
                                lemma_reduce_counts((depth - 1) as nat, n as nat, next);
                            }
                        }
                        None
                    },
                }
            },
            function => Some(CTerm::Redex { function: Box::new(function), args }),
        }
    }

    /// Reduces `v`, with no more than `depth` nested steps.
    fn try_transform_v_term(&mut self, v: &VTerm, depth: usize) -> (r: Option<VTerm>)
        ensures
            match reduce_value(depth as nat, old(self).next_index as nat, v@) {
                Some((new, n)) => if n <= usize::MAX {
                    &&& r is Some
                    &&& r->0@ == new
                    &&& final(self).next_index == n
                } else {
                    r is None
                },
                None => r is None,
            },
        decreases 2 * depth + 1, v,
    {
        match v {
            VTerm::Var { index } => Some(VTerm::Var { index: *index }),
            VTerm::Int { value } => Some(VTerm::Int { value: *value }),
            VTerm::Thunk { t, may_have_complex_effects } => match self.try_transform_c_term(
                t,
                depth,
            ) {
                Some(t) => Some(
                    VTerm::Thunk {
                        t: Box::new(t),
                        may_have_complex_effects: *may_have_complex_effects,
                    },
                ),
                None => None,
            },
        }
    }

    /// Reduces each of `vs`, with no more than `depth` nested steps.
    fn try_transform_v_terms(&mut self, vs: &Vec<VTerm>, depth: usize) -> (r: Option<Vec<VTerm>>)
        ensures
            match reduce_values(depth as nat, old(self).next_index as nat, values(vs@)) {
                Some((new, n)) => if n <= usize::MAX {
                    &&& r is Some
                    &&& values(r->0@) == new
                    &&& final(self).next_index == n
                } else {
                    r is None
                },
                None => r is None,
            },
        decreases 2 * depth + 1, vs,
    {
        let mut r: Vec<VTerm> = Vec::new();
        let ghost all = values(vs@);
        let ghost n = self.next_index as nat;
        let ghost fuel = depth as nat;
        assert(values(r@) =~= Seq::empty());
        for i in 0..vs.len()
            invariant
                all == values(vs@),
                fuel == depth as nat,
                n == old(self).next_index as nat,
                Some((values(r@), self.next_index as nat)) == reduce_values(
                    fuel,
                    n,
                    all.take(i as int),
                ),
        {
            assert(all.take(i + 1).drop_last() =~= all.take(i as int));
            assert(all.take(i + 1).last() == value(vs@[i as int]));
            match self.try_transform_v_term(&vs[i], depth) {
                Some(v) => {
                    proof {
                        lemma_values_push(r@, v);
                    }
                    r.push(v);
                },
                None => {
                    proof {
                        if reduce_values(fuel, n, all) is Some {
                            lemma_reduce_prefix(fuel, n, all, i + 1);
                        }
                    }
                    return None;
                },
            }
        }
        assert(all.take(vs@.len() as int) =~= all);
        Some(r)
    }

    /// Reduces `c`, with no more than `depth` nested steps.
    fn try_transform_c_term(&mut self, c: &CTerm, depth: usize) -> (r: Option<CTerm>)
        ensures
            is_outcome(
                reduce_comp(depth as nat, old(self).next_index as nat, c@),
                r,
                final(self).next_index,
            ),
        decreases 2 * depth + 1, c,
    {
        let ghost n = self.next_index as nat;
        let ghost fuel = depth as nat;
        match c {
            CTerm::Redex { function, args } => {
                proof {
                    lemma_redex_counts(fuel, n, function@, values(args@));
                }
                let function = match self.try_transform_c_term(function, depth) {
                    Some(function) => function,
                    None => return None,
                };
                let args = match self.try_transform_v_terms(args, depth) {
                    Some(args) => args,
                    None => return None,
                };
                self.try_transform_redex(function, args, depth)
            },
            CTerm::Return { value } => match self.try_transform_v_term(value, depth) {
                Some(value) => Some(CTerm::Return { value }),
                None => None,
            },
            CTerm::Force { thunk, may_have_complex_effects } => {
                proof {
                    lemma_force_counts(fuel, n, thunk@);
                }
                let thunk = match self.try_transform_v_term(thunk, depth) {
                    Some(thunk) => thunk,
                    None => return None,
                };
                match thunk {
                    VTerm::Thunk { t, .. } => {
                        if depth == 0 {
                            return None;
                        }
                        self.try_transform_c_term(&t, depth - 1)
                    },
                    thunk => Some(
                        CTerm::Force { thunk, may_have_complex_effects: *may_have_complex_effects },
                    ),
                }
            },
            CTerm::Def { name, may_have_complex_effects } => Some(
                CTerm::Def {
                    name: name.clone(),
                    may_have_complex_effects: *may_have_complex_effects,
                },
            ),
            CTerm::PrimitiveCall { name, args } => match self.try_transform_v_terms(args, depth) {
                Some(args) => Some(CTerm::PrimitiveCall { name: name.clone(), args }),
                None => None,
            },
            CTerm::Lambda { args, body, may_have_complex_effects } => {
                match self.try_transform_c_term(body, depth) {
                    Some(body) => Some(
                        CTerm::Lambda {
                            args: clone_params(args),
                            body: Box::new(body),
                            may_have_complex_effects: *may_have_complex_effects,
                        },
                    ),
                    None => None,
                }
            },
        }
    }

    /// Does what [`RedexReducer::reduce`] does, for any computation: it returns `None` if the
    /// reduction takes more than `depth` nested steps, or if indexes run out.
    pub fn try_reduce(&mut self, c: &CTerm, depth: usize) -> (r: Option<CTerm>)
        ensures
            is_outcome(
                reduce_comp(depth as nat, old(self).next_index as nat, c@),
                r,
                final(self).next_index,
            ),
            r is None <==> match reduce_comp(depth as nat, old(self).next_index as nat, c@) {
                Some((_, next)) => next > usize::MAX,
                None => true,
            },
            r is Some ==> {
                &&& reduces(old(self).next_index as nat, c@)
                &&& (r->0@, final(self).next_index as nat) == reduced(
                    old(self).next_index as nat,
                    c@,
                )
            },
    {
        let r = self.try_transform_c_term(c, depth);
        proof {
            if r is Some {
                lemma_reduced(depth as nat, old(self).next_index as nat, c@);
            }
        }
        r
    }

    /// Reduces `c`, whose reduction comes to an end before indexes run out.
    pub fn reduce(&mut self, c: &CTerm) -> (r: CTerm)
        requires
            reduces(old(self).next_index as nat, c@),
            reduced(old(self).next_index as nat, c@).1 <= usize::MAX,
        ensures
            (r@, final(self).next_index as nat) == reduced(old(self).next_index as nat, c@),
    {
        let ghost fuel = choose|fuel: nat|
            (#[trigger] reduce_comp(fuel, self.next_index as nat, c@)) is Some;
        self.transform_c_term(c, Ghost(fuel))
    }
}

/// Parameters and arguments beyond the first `k` do not matter to what the first `k` stand for.
pub proof fn lemma_pair_up_prefix(
    params: Seq<(usize, VType)>,
    args: Seq<Value>,
    some_params: Seq<(usize, VType)>,
    some_args: Seq<Value>,
    k: nat,
)
    requires
        k <= some_params.len() <= params.len(),
        k <= some_args.len() <= args.len(),
        forall|i: int| 0 <= i < k ==> some_params[i] == #[trigger] params[i],
        forall|i: int| 0 <= i < k ==> some_args[i] == #[trigger] args[i],
    ensures
        pair_up(params, args, k) == pair_up(some_params, some_args, k),
    decreases k,
{
    if k > 0 {
        lemma_pair_up_prefix(params, args, some_params, some_args, (k - 1) as nat);
        assert(some_params[k - 1] == params[k - 1]);
        assert(some_args[k - 1] == args[k - 1]);
    }
}

/// Where the reduction of all of `vs` comes to an end, so does that of a prefix, with no more
/// indexes.
proof fn lemma_reduce_prefix(fuel: nat, n: nat, vs: Seq<Value>, k: int)
    requires
        0 <= k <= vs.len(),
        reduce_values(fuel, n, vs) is Some,
    ensures
        reduce_values(fuel, n, vs.take(k)) is Some,
        (reduce_values(fuel, n, vs.take(k))->0).1 <= (reduce_values(fuel, n, vs)->0).1,
    decreases vs.len(),
{
    if k < vs.len() {
        lemma_reduce_prefix(fuel, n, vs.drop_last(), k);
        assert(vs.drop_last().take(k) =~= vs.take(k));
        let n1 = (reduce_values(fuel, n, vs.drop_last())->0).1;
        lemma_reduce_counts_value(fuel, n1, vs.last());
    } else {
        assert(vs.take(k) =~= vs);
    }
}

} // verus!
