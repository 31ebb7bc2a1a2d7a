//! Renaming of local variables, such that every binder of a definition binds an index of its own.
use crate::ast::term::{lemma_values_push, value, values, CTerm, Comp, VTerm, VType, Value};
use std::collections::HashMap;
use vstd::prelude::*;

verus! {

/// The number of binders in a value.
pub open spec fn binders_in_value(v: Value) -> nat
    decreases v,
{
    match v {
        Value::Thunk { t, .. } => binders_in_comp(*t),
        _ => 0,
    }
}

/// The number of binders in a sequence of values.
pub open spec fn binders_in_values(vs: Seq<Value>) -> nat
    decreases vs,
{
    if vs.len() == 0 {
        0
    } else {
        binders_in_values(vs.drop_last()) + binders_in_value(vs.last())
    }
}

/// The number of binders in a computation: each parameter of each lambda is one.
pub open spec fn binders_in_comp(c: Comp) -> nat
    decreases c,
{
    match c {
        Comp::Redex { function, args } => binders_in_comp(*function) + binders_in_values(args),
        Comp::Return { value } => binders_in_value(value),
        Comp::Force { thunk, .. } => binders_in_value(thunk),
        Comp::Def { .. } => 0,
        Comp::PrimitiveCall { args, .. } => binders_in_values(args),
        Comp::Lambda { args, body, .. } => args.len() + binders_in_comp(*body),
    }
}

/// The parameters `params` with the indexes `n`, `n + 1` and so on.
pub open spec fn fresh_params(n: nat, params: Seq<(usize, VType)>) -> Seq<(usize, VType)> {
    Seq::new(params.len(), |i: int| ((n + i) as usize, params[i].1))
}

/// What variables stand for inside the scope of `params`, when these are renamed to `n`, `n + 1`
/// and so on, and `env` is what variables stand for outside of it.
pub open spec fn bind_params(
    env: Map<usize, usize>,
    n: nat,
    params: Seq<(usize, VType)>,
) -> Map<usize, usize>
    decreases params.len(),
{
    if params.len() == 0 {
        env
    } else {
        bind_params(env, n, params.drop_last()).insert(
            params.last().0,
            (n + params.len() - 1) as usize,
        )
    }
}

/// The value `v` with its variables replaced as `env` says and its binders numbered from `n`.
pub open spec fn rename_value(env: Map<usize, usize>, n: nat, v: Value) -> Value
    decreases v,
{
    match v {
        Value::Var { index } => Value::Var {
            index: if env.contains_key(index) {
                env[index]
            } else {
                index
            },
        },
        Value::Int { .. } => v,
        Value::Thunk { t, may_have_complex_effects } => Value::Thunk {
            t: Box::new(rename_comp(env, n, *t)),
            may_have_complex_effects,
        },
    }
}

/// The values `vs`, renamed one after the other; see [`rename_value`].
pub open spec fn rename_values(env: Map<usize, usize>, n: nat, vs: Seq<Value>) -> Seq<Value>
    decreases vs,
{
    if vs.len() == 0 {
        Seq::empty()
    } else {
        rename_values(env, n, vs.drop_last()).push(
            rename_value(env, n + binders_in_values(vs.drop_last()), vs.last()),
        )
    }
}

/// The computation `c` with its variables replaced as `env` says and its binders numbered from
/// `n` in the order in which they occur.
pub open spec fn rename_comp(env: Map<usize, usize>, n: nat, c: Comp) -> Comp
    decreases c,
{
    match c {
        Comp::Redex { function, args } => Comp::Redex {
            function: Box::new(rename_comp(env, n, *function)),
            args: rename_values(env, n + binders_in_comp(*function), args),
        },
        Comp::Return { value } => Comp::Return { value: rename_value(env, n, value) },
        Comp::Force { thunk, may_have_complex_effects } => Comp::Force {
            thunk: rename_value(env, n, thunk),
            may_have_complex_effects,
        },
        Comp::Def { .. } => c,
        Comp::PrimitiveCall { name, args } => Comp::PrimitiveCall {
            name,
            args: rename_values(env, n, args),
        },
        Comp::Lambda { args, body, may_have_complex_effects } => Comp::Lambda {
            args: fresh_params(n, args),
            body: Box::new(rename_comp(bind_params(env, n, args), n + args.len(), *body)),
            may_have_complex_effects,
        },
    }
}

/// What `stack` has become after `params` were bound to `n`, `n + 1` and so on, where `stack`
/// holds what `x` stands for in each of the enclosing scopes that bind it.
pub open spec fn bind_stack(
    stack: Seq<usize>,
    x: usize,
    n: nat,
    params: Seq<(usize, VType)>,
) -> Seq<usize>
    decreases params.len(),
{
    if params.len() == 0 {
        stack
    } else {
        let rest = bind_stack(stack, x, n, params.drop_last());
        if params.last().0 == x {
            rest.push((n + params.len() - 1) as usize)
        } else {
            rest
        }
    }
}

/// Renames local variables such that all binders are distinct.
pub struct DistinctVarRenamer {
    /// What each variable stands for, innermost scope last.
    bindings: HashMap<usize, Vec<usize>>,
    /// The next index to hand out.
    counter: usize,
}

impl DistinctVarRenamer {
    /// What `x` stands for in each of the enclosing scopes that bind it, innermost last.
    pub closed spec fn stack(self, x: usize) -> Seq<usize> {
        if self.bindings@.contains_key(x) {
            self.bindings@[x]@
        } else {
            Seq::empty()
        }
    }

    /// The next index to hand out.
    pub closed spec fn next(self) -> nat {
        self.counter as nat
    }

    /// What variables stand for in the innermost scope.
    pub open spec fn env(self) -> Map<usize, usize> {
        Map::new(|x: usize| self.stack(x).len() > 0, |x: usize| self.stack(x).last())
    }

    /// A renamer outside of every scope.
    pub fn new() -> (r: Self)
        ensures
            r.next() == 0,
            forall|x: usize| (#[trigger] r.stack(x)).len() == 0,
            r.env() == Map::<usize, usize>::empty(),
    {
        Self::starting_at(0)
    }

    /// A renamer outside of every scope that hands out `next` and the following indexes.
    pub fn starting_at(next: usize) -> (r: Self)
        ensures
            r.next() == next,
            forall|x: usize| (#[trigger] r.stack(x)).len() == 0,
            r.env() == Map::<usize, usize>::empty(),
    {
        broadcast use vstd::std_specs::hash::group_hash_axioms;

        let r = DistinctVarRenamer { bindings: HashMap::new(), counter: next };
        assert(r.env() =~= Map::<usize, usize>::empty());
        r
    }

    /// The next index to hand out.
    pub fn counter(&self) -> (r: usize)
        ensures
            r == self.next(),
    {
        self.counter
    }

    /// Binds `index` in a new scope and returns what it stands for there.
    pub fn add_binding(&mut self, index: usize) -> (r: usize)
        requires
            old(self).next() < usize::MAX,
        ensures
            r == old(self).next(),
            final(self).next() == old(self).next() + 1,
            final(self).stack(index) == old(self).stack(index).push(r),
            final(self).env() == old(self).env().insert(index, r),
            forall|x: usize| x != index ==> #[trigger] final(self).stack(x) == old(self).stack(x),
    {
        broadcast use vstd::std_specs::hash::group_hash_axioms;

        let mut indexes = match self.bindings.remove(&index) {
            Some(indexes) => indexes,
            None => Vec::new(),
        };
        let new_index = self.counter;
        indexes.push(new_index);
        self.bindings.insert(index, indexes);
        self.counter = self.counter + 1;
        assert(self.stack(index) =~= old(self).stack(index).push(new_index));
        assert(self.env() =~= old(self).env().insert(index, new_index));
        new_index
    }

    /// Leaves the innermost scope that binds `index`.
    pub fn remove_binding(&mut self, index: usize)
        requires
            old(self).stack(index).len() > 0,
        ensures
            final(self).next() == old(self).next(),
            final(self).stack(index) == old(self).stack(index).drop_last(),
            forall|x: usize| x != index ==> #[trigger] final(self).stack(x) == old(self).stack(x),
    {
        broadcast use vstd::std_specs::hash::group_hash_axioms;

        if let Some(mut indexes) = self.bindings.remove(&index) {
            indexes.pop();
            self.bindings.insert(index, indexes);
        }
        assert(self.stack(index) =~= old(self).stack(index).drop_last());
    }

    /// What the variable `index` stands for.
    pub fn transform_var(&self, index: usize) -> (r: usize)
        ensures
            r == (if self.stack(index).len() > 0 {
                self.stack(index).last()
            } else {
                index
            }),
    {
        broadcast use vstd::std_specs::hash::group_hash_axioms;

        match self.bindings.get(&index) {
            Some(indexes) => {
                if indexes.len() > 0 {
                    indexes[indexes.len() - 1]
                } else {
                    index
                }
            },
            None => index,
        }
    }

    /// Binds each of `params` in a new scope and returns them as they are called there.
    pub fn add_bindings(&mut self, params: &Vec<(usize, VType)>) -> (r: Vec<(usize, VType)>)
        requires
            old(self).next() + params@.len() <= usize::MAX,
        ensures
            r@ == fresh_params(old(self).next(), params@),
            final(self).next() == old(self).next() + params@.len(),
            final(self).env() == bind_params(old(self).env(), old(self).next(), params@),
            forall|x: usize| #[trigger]
                final(self).stack(x) == bind_stack(
                    old(self).stack(x),
                    x,
                    old(self).next(),
                    params@,
                ),
    {
        let mut r: Vec<(usize, VType)> = Vec::new();
        let ghost n = self.next();
        for i in 0..params.len()
            invariant
                n == old(self).next(),
                n + params@.len() <= usize::MAX,
                r@ == fresh_params(n, params@.take(i as int)),
                self.next() == n + i,
                self.env() == bind_params(old(self).env(), n, params@.take(i as int)),
                forall|x: usize| #[trigger]
                    self.stack(x) == bind_stack(old(self).stack(x), x, n, params@.take(i as int)),
        {
            let index = self.add_binding(params[i].0);
            r.push((index, params[i].1));
            assert(params@.take(i + 1).drop_last() =~= params@.take(i as int));
            assert(r@ =~= fresh_params(n, params@.take(i + 1)));
        }
        assert(params@.take(params@.len() as int) =~= params@);
        r
    }

    /// Leaves the scope of `params`.
    fn remove_bindings(&mut self, params: &Vec<(usize, VType)>, Ghost(before): Ghost<Self>)
        requires
            forall|x: usize| #[trigger]
                old(self).stack(x) == bind_stack(before.stack(x), x, before.next(), params@),
        ensures
            final(self).next() == old(self).next(),
            forall|x: usize| #[trigger] final(self).stack(x) == before.stack(x),
    {
        let mut i = params.len();
        assert(params@.take(params@.len() as int) =~= params@);
        while i > 0
            invariant
                i <= params@.len(),
                self.next() == old(self).next(),
                forall|x: usize| #[trigger]
                    self.stack(x) == bind_stack(
                        before.stack(x),
                        x,
                        before.next(),
                        params@.take(i as int),
                    ),
            decreases i,
        {
            i = i - 1;
            let ghost stacks = *self;
            assert(params@.take(i + 1).drop_last() =~= params@.take(i as int));
            let ghost index = params@[i as int].0;
            assert(stacks.stack(index) == bind_stack(
                before.stack(index),
                index,
                before.next(),
                params@.take(i as int),
            ).push((before.next() + i) as usize));
            self.remove_binding(params[i].0);
            assert forall|x: usize| #[trigger]
                self.stack(x) == bind_stack(
                    before.stack(x),
                    x,
                    before.next(),
                    params@.take(i as int),
                ) by {
                assert(stacks.stack(x) == bind_stack(
                    before.stack(x),
                    x,
                    before.next(),
                    params@.take(i + 1),
                ));
                if x == index {
                    assert(self.stack(x) =~= bind_stack(
                        before.stack(x),
                        x,
                        before.next(),
                        params@.take(i as int),
                    ));
                }
            }
        }
    }

    /// Renames `v`.
    pub fn transform_v_term(&mut self, v: &VTerm) -> (r: VTerm)
        requires
            old(self).next() + binders_in_value(v@) <= usize::MAX,
        ensures
            r@ == rename_value(old(self).env(), old(self).next(), v@),
            final(self).next() == old(self).next() + binders_in_value(v@),
            forall|x: usize| #[trigger] final(self).stack(x) == old(self).stack(x),
        decreases v,
    {
        match v {
            VTerm::Var { index } => VTerm::Var { index: self.transform_var(*index) },
            VTerm::Int { value } => VTerm::Int { value: *value },
            VTerm::Thunk { t, may_have_complex_effects } => VTerm::Thunk {
                t: Box::new(self.transform_c_term(t)),
                may_have_complex_effects: *may_have_complex_effects,
            },
        }
    }

    /// Renames each of `vs`.
    fn transform_v_terms(&mut self, vs: &Vec<VTerm>) -> (r: Vec<VTerm>)
        requires
            old(self).next() + binders_in_values(values(vs@)) <= usize::MAX,
        ensures
            values(r@) == rename_values(old(self).env(), old(self).next(), values(vs@)),
            final(self).next() == old(self).next() + binders_in_values(values(vs@)),
            forall|x: usize| #[trigger] final(self).stack(x) == old(self).stack(x),
        decreases vs,
    {
        let mut r: Vec<VTerm> = Vec::new();
        let ghost all = values(vs@);
        assert(values(r@) =~= rename_values(old(self).env(), old(self).next(), all.take(0)));
        for i in 0..vs.len()
            invariant
                all == values(vs@),
                old(self).next() + binders_in_values(all) <= usize::MAX,
                values(r@) == rename_values(old(self).env(), old(self).next(), all.take(i as int)),
                self.next() == old(self).next() + binders_in_values(all.take(i as int)),
                forall|x: usize| #[trigger] self.stack(x) == old(self).stack(x),
        {
            assert(all.take(i + 1).drop_last() =~= all.take(i as int));
            assert(all.take(i + 1).last() == value(vs@[i as int]));
            assert(self.env() =~= old(self).env());
            proof {
                lemma_binders_prefix(all, i + 1);
            }
            let v = self.transform_v_term(&vs[i]);
            proof {
                lemma_values_push(r@, v);
            }
            r.push(v);
        }
        assert(all.take(vs@.len() as int) =~= all);
        r
    }

    /// Renames `c`.
    pub fn transform_c_term(&mut self, c: &CTerm) -> (r: CTerm)
        requires
            old(self).next() + binders_in_comp(c@) <= usize::MAX,
        ensures
            r@ == rename_comp(old(self).env(), old(self).next(), c@),
            final(self).next() == old(self).next() + binders_in_comp(c@),
            forall|x: usize| #[trigger] final(self).stack(x) == old(self).stack(x),
        decreases c,
    {
        match c {
            CTerm::Redex { function, args } => {
                let function = self.transform_c_term(function);
                assert(self.env() =~= old(self).env());
                let args = self.transform_v_terms(args);
                CTerm::Redex { function: Box::new(function), args }
            },
            CTerm::Return { value } => CTerm::Return { value: self.transform_v_term(value) },
            CTerm::Force { thunk, may_have_complex_effects } => CTerm::Force {
                thunk: self.transform_v_term(thunk),
                may_have_complex_effects: *may_have_complex_effects,
            },
            CTerm::Def { name, may_have_complex_effects } => CTerm::Def {
                name: name.clone(),
                may_have_complex_effects: *may_have_complex_effects,
            },
            CTerm::PrimitiveCall { name, args } => CTerm::PrimitiveCall {
                name: name.clone(),
                args: self.transform_v_terms(args),
            },
            CTerm::Lambda { args, body, may_have_complex_effects } => {
                let new_args = self.add_bindings(args);
                let body = self.transform_c_term(body);
                self.remove_bindings(args, Ghost(*old(self)));
                CTerm::Lambda {
                    args: new_args,
                    body: Box::new(body),
                    may_have_complex_effects: *may_have_complex_effects,
                }
            },
        }
    }
}

/// A prefix of a sequence of values has no more binders than the whole.
pub proof fn lemma_binders_prefix(vs: Seq<Value>, k: int)
    requires
        0 <= k <= vs.len(),
    ensures
        binders_in_values(vs.take(k)) <= binders_in_values(vs),
    decreases vs.len(),
{
    if k < vs.len() {
        lemma_binders_prefix(vs.drop_last(), k);
        assert(vs.drop_last().take(k) =~= vs.take(k));
    } else {
        assert(vs.take(k) =~= vs);
    }
}

/// Values without binders have none in all.
pub proof fn lemma_no_binders_in_values(vs: Seq<Value>)
    requires
        forall|i: int| 0 <= i < vs.len() ==> binders_in_value(#[trigger] vs[i]) == 0,
    ensures
        binders_in_values(vs) == 0,
    decreases vs.len(),
{
    if vs.len() > 0 {
        lemma_no_binders_in_values(vs.drop_last());
        assert(vs.last() == vs[vs.len() - 1]);
    }
}

proof fn lemma_rename_keeps_count_in_value(env: Map<usize, usize>, n: nat, v: Value)
    ensures
        binders_in_value(rename_value(env, n, v)) == binders_in_value(v),
    decreases v,
{
    if let Value::Thunk { t, .. } = v {
        lemma_rename_keeps_count(env, n, *t);
    }
}

/// As [`lemma_rename_keeps_count`], for sequences of values.
pub proof fn lemma_rename_keeps_count_in_values(env: Map<usize, usize>, n: nat, vs: Seq<Value>)
    ensures
        binders_in_values(rename_values(env, n, vs)) == binders_in_values(vs),
        rename_values(env, n, vs).len() == vs.len(),
    decreases vs,
{
    if vs.len() > 0 {
        let front = vs.drop_last();
        lemma_rename_keeps_count_in_values(env, n, front);
        lemma_rename_keeps_count_in_value(env, n + binders_in_values(front), vs.last());
        assert(rename_values(env, n, vs).drop_last() =~= rename_values(env, n, front));
    }
}

/// Renaming keeps the number of binders.
pub proof fn lemma_rename_keeps_count(env: Map<usize, usize>, n: nat, c: Comp)
    ensures
        binders_in_comp(rename_comp(env, n, c)) == binders_in_comp(c),
    decreases c,
{
    match c {
        Comp::Redex { function, args } => {
            lemma_rename_keeps_count(env, n, *function);
            lemma_rename_keeps_count_in_values(env, n + binders_in_comp(*function), args);
        },
        Comp::Return { value } => {
            lemma_rename_keeps_count_in_value(env, n, value);
        },
        Comp::Force { thunk, .. } => {
            lemma_rename_keeps_count_in_value(env, n, thunk);
        },
        Comp::Def { .. } => {},
        Comp::PrimitiveCall { args, .. } => {
            lemma_rename_keeps_count_in_values(env, n, args);
        },
        Comp::Lambda { args, body, .. } => {
            lemma_rename_keeps_count(bind_params(env, n, args), n + args.len(), *body);
        },
    }
}

} // verus!
