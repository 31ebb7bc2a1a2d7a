//! Computations that do the same because one is what the other becomes in steps: a lambda is
//! applied, a thunk is forced, arguments or parameters are grouped in another way, or bound
//! variables are named anew.
use crate::ast::reading::{lemma_simplified_reads_alike, read};
use crate::ast::reducer::{
    applied, contract, copies_no_binder, lemma_reduce_counts, lemma_reduce_counts_value,
    lemma_reduce_counts_values, reduce_comp, reduce_value, reduce_values, reduced, reduces,
};
use crate::ast::renamer::rename_comp;
use crate::ast::scope::{
    alike, lemma_applied_within, lemma_contracted_within, lemma_reduced_within_comp,
    lemma_reduced_within_value, lemma_reduced_within_values, lemma_renumbered_is_alike,
    lemma_within_more, lemma_within_more_values, params_within, within, within_value,
    within_values,
};
use crate::ast::substitutor::{pair_up, substitute};
use crate::ast::term::{Comp, VType, Value};
use crate::ast::usage::lesser;
use vstd::prelude::*;

verus! {

/// Whether `b` is the application `a` of a lambda with the first `k` parameters replaced by the
/// first `k` arguments.
pub open spec fn applies(k: nat, a: Comp, b: Comp) -> bool {
    &&& a matches Comp::Redex { function, args }
    &&& *function matches Comp::Lambda { args: params, body, may_have_complex_effects }
    &&& k <= args.len()
    &&& k <= params.len()
    &&& b == (Comp::Redex {
        function: Box::new(
            Comp::Lambda {
                args: params.skip(k as int),
                body: Box::new(substitute(pair_up(params, args, k), *body)),
                may_have_complex_effects,
            },
        ),
        args: args.skip(k as int),
    })
}

/// Whether `a` becomes `b` in one step: a lambda is applied, a thunk is forced, arguments and
/// parameters are grouped in another way, or bound variables are named anew.
pub open spec fn steps(a: Comp, b: Comp) -> bool {
    ||| exists|k: nat| #[trigger] applies(k, a, b)
    ||| (a matches Comp::Force { thunk: Value::Thunk { t, .. }, .. } && b == *t)
    ||| read(false, a) == read(false, b)
    ||| alike(Seq::empty(), Seq::empty(), a, b)
}

/// Any computation can be a stage on the way from one to another.
pub open spec fn is_stage(m: Comp) -> bool {
    true
}

/// Whether the computation `a` becomes `b` in steps that are nested no deeper than `d`, at any
/// place.
pub open spec fn converts(d: nat, a: Comp, b: Comp) -> bool
    decreases d, 0nat,
{
    ||| a == b
    ||| (d > 0 && exists|m: Comp| #[trigger]
        is_stage(m) && converts((d - 1) as nat, a, m) && converts((d - 1) as nat, m, b))
    ||| (d > 0 && steps(a, b))
    ||| (d > 0 && converts_parts((d - 1) as nat, a, b))
}

/// Whether the value `v` becomes `w`; see [`converts`].
pub open spec fn converts_value(d: nat, v: Value, w: Value) -> bool
    decreases d, 1nat,
{
    match (v, w) {
        (
            Value::Thunk { t, may_have_complex_effects: e },
            Value::Thunk { t: u, may_have_complex_effects: f },
        ) => e == f && converts(d, *t, *u),
        _ => v == w,
    }
}

/// Whether each of the values `vs` becomes the one of `ws` at its place; see [`converts`].
pub open spec fn converts_values(d: nat, vs: Seq<Value>, ws: Seq<Value>) -> bool
    decreases d, 2nat,
{
    &&& vs.len() == ws.len()
    &&& forall|i: int| 0 <= i < vs.len() ==> converts_value(d, #[trigger] vs[i], ws[i])
}

/// Whether `a` and `b` are the same but for parts of `a` that become those of `b`; see
/// [`converts`].
pub open spec fn converts_parts(d: nat, a: Comp, b: Comp) -> bool
    decreases d, 3nat,
{
    match (a, b) {
        (
            Comp::Redex { function: f, args: vs },
            Comp::Redex { function: g, args: ws },
        ) => converts(d, *f, *g) && converts_values(d, vs, ws),
        (Comp::Return { value: v }, Comp::Return { value: w }) => converts_value(d, v, w),
        (
            Comp::Force { thunk: v, may_have_complex_effects: e },
            Comp::Force { thunk: w, may_have_complex_effects: f },
        ) => e == f && converts_value(d, v, w),
        (
            Comp::PrimitiveCall { name: m, args: vs },
            Comp::PrimitiveCall { name: n, args: ws },
        ) => m == n && converts_values(d, vs, ws),
        (
            Comp::Lambda { args: ps, body: t, may_have_complex_effects: e },
            Comp::Lambda { args: qs, body: u, may_have_complex_effects: f },
        ) => ps == qs && e == f && converts(d, *t, *u),
        _ => false,
    }
}

/// Whether the computation `a` becomes `b` in steps.
pub open spec fn convertible(a: Comp, b: Comp) -> bool {
    exists|d: nat| #[trigger] converts(d, a, b)
}

proof fn lemma_converts_deeper_value(d: nat, e: nat, v: Value, w: Value)
    requires
        converts_value(d, v, w),
        d <= e,
    ensures
        converts_value(e, v, w),
    decreases d, 1nat,
{
    if let (Value::Thunk { t, .. }, Value::Thunk { t: u, .. }) = (v, w) {
        lemma_converts_deeper(d, e, *t, *u);
    }
}

proof fn lemma_converts_deeper_values(d: nat, e: nat, vs: Seq<Value>, ws: Seq<Value>)
    requires
        converts_values(d, vs, ws),
        d <= e,
    ensures
        converts_values(e, vs, ws),
    decreases d, 2nat,
{
    assert forall|i: int| 0 <= i < vs.len() implies converts_value(
        e,
        #[trigger] vs[i],
        ws[i],
    ) by {
        lemma_converts_deeper_value(d, e, vs[i], ws[i]);
    }
}

/// It does no harm to allow deeper nesting.
proof fn lemma_converts_deeper(d: nat, e: nat, a: Comp, b: Comp)
    requires
        converts(d, a, b),
        d <= e,
    ensures
        converts(e, a, b),
    decreases d, 0nat,
{
    if a != b && d > 0 {
        let d1 = (d - 1) as nat;
        let e1 = (e - 1) as nat;
        if exists|m: Comp| #[trigger] is_stage(m) && converts(d1, a, m) && converts(d1, m, b) {
            let m = choose|m: Comp| #[trigger]
                is_stage(m) && converts(d1, a, m) && converts(d1, m, b);
            lemma_converts_deeper(d1, e1, a, m);
            lemma_converts_deeper(d1, e1, m, b);
            assert(is_stage(m));
        } else if !steps(a, b) {
            assert(converts_parts(d1, a, b));
            match (a, b) {
                (
                    Comp::Redex { function: f, args: vs },
                    Comp::Redex { function: g, args: ws },
                ) => {
                    lemma_converts_deeper(d1, e1, *f, *g);
                    lemma_converts_deeper_values(d1, e1, vs, ws);
                },
                (Comp::Return { value: v }, Comp::Return { value: w }) => {
                    lemma_converts_deeper_value(d1, e1, v, w);
                },
                (Comp::Force { thunk: v, .. }, Comp::Force { thunk: w, .. }) => {
                    lemma_converts_deeper_value(d1, e1, v, w);
                },
                (
                    Comp::PrimitiveCall { args: vs, .. },
                    Comp::PrimitiveCall { args: ws, .. },
                ) => {
                    lemma_converts_deeper_values(d1, e1, vs, ws);
                },
                (Comp::Lambda { body: t, .. }, Comp::Lambda { body: u, .. }) => {
                    lemma_converts_deeper(d1, e1, *t, *u);
                },
                _ => {},
            }
            assert(converts_parts(e1, a, b));
        }
    }
}

/// What becomes of something in steps can take more steps.
proof fn lemma_converts_on(d: nat, e: nat, a: Comp, m: Comp, b: Comp) -> (r: nat)
    requires
        converts(d, a, m),
        converts(e, m, b),
    ensures
        converts(r, a, b),
{
    let more = if d <= e {
        e
    } else {
        d
    };
    lemma_converts_deeper(d, more, a, m);
    lemma_converts_deeper(e, more, m, b);
    assert(is_stage(m));
    more + 1
}

/// Two parts of a computation become what they do with the same nesting.
proof fn lemma_application_converts(
    d: nat,
    e: nat,
    f: Comp,
    g: Comp,
    vs: Seq<Value>,
    ws: Seq<Value>,
) -> (r: nat)
    requires
        converts(d, f, g),
        converts_values(e, vs, ws),
    ensures
        converts(
            r,
            Comp::Redex { function: Box::new(f), args: vs },
            Comp::Redex { function: Box::new(g), args: ws },
        ),
{
    let more = if d <= e {
        e
    } else {
        d
    };
    lemma_converts_deeper(d, more, f, g);
    lemma_converts_deeper_values(e, more, vs, ws);
    let a = Comp::Redex { function: Box::new(f), args: vs };
    let b = Comp::Redex { function: Box::new(g), args: ws };
    assert(converts_parts(((more + 1) - 1) as nat, a, b));
    more + 1
}

/// The step that an application takes.
proof fn lemma_contracted_converts(
    n: nat,
    params: Seq<(usize, VType)>,
    body: Comp,
    effects: bool,
    args: Seq<Value>,
) -> (r: nat)
    requires
        params_within(n, params),
        within(n, body),
        within_values(n, args),
        contract(n, params, body, effects, args).1 <= usize::MAX,
    ensures
        ({
            let function = Comp::Lambda {
                args: params,
                body: Box::new(body),
                may_have_complex_effects: effects,
            };
            converts(
                r,
                Comp::Redex { function: Box::new(function), args },
                contract(n, params, body, effects, args).0,
            )
        }),
{
    let function = Comp::Lambda {
        args: params,
        body: Box::new(body),
        may_have_complex_effects: effects,
    };
    let a = Comp::Redex { function: Box::new(function), args };
    let k = lesser(args.len(), params.len());
    let rest = Comp::Lambda {
        args: params.skip(k as int),
        body: Box::new(substitute(pair_up(params, args, k), body)),
        may_have_complex_effects: effects,
    };
    let m = Comp::Redex { function: Box::new(rest), args: args.skip(k as int) };
    let c = applied(params, body, effects, args);
    assert(applies(k, a, m));
    assert(steps(a, m));
    assert(converts(1, a, m));
    lemma_simplified_reads_alike(m);
    assert(steps(m, c));
    assert(converts(1, m, c));
    let d = lemma_converts_on(1, 1, a, m, c);
    if copies_no_binder(params, body, args) {
        d
    } else {
        let b = rename_comp(Map::empty(), n, c);
        lemma_applied_within(n, params, body, effects, args);
        lemma_renumbered_is_alike(n, c);
        assert(steps(c, b));
        assert(converts(1, c, b));
        lemma_converts_on(d, 1, a, c, b)
    }
}

proof fn lemma_reduced_converts_value(fuel: nat, n: nat, v: Value) -> (r: nat)
    requires
        reduce_value(fuel, n, v) is Some,
        (reduce_value(fuel, n, v)->0).1 <= usize::MAX,
        within_value(n, v),
    ensures
        converts_value(r, v, (reduce_value(fuel, n, v)->0).0),
    decreases fuel, v,
{
    match v {
        Value::Thunk { t, .. } => lemma_reduced_converts(fuel, n, *t),
        _ => 0,
    }
}

proof fn lemma_reduced_converts_values(fuel: nat, n: nat, vs: Seq<Value>) -> (r: nat)
    requires
        reduce_values(fuel, n, vs) is Some,
        (reduce_values(fuel, n, vs)->0).1 <= usize::MAX,
        within_values(n, vs),
    ensures
        converts_values(r, vs, (reduce_values(fuel, n, vs)->0).0),
    decreases fuel, vs,
{
    if vs.len() == 0 {
        0
    } else {
        let front = vs.drop_last();
        let (new_front, n1) = reduce_values(fuel, n, front)->0;
        let (new_last, n2) = reduce_value(fuel, n1, vs.last())->0;
        assert forall|i: int| 0 <= i < front.len() implies within_value(n, #[trigger] front[i]) by {
            assert(front[i] == vs[i]);
        }
        assert(within_value(n, vs[vs.len() - 1]));
        lemma_reduce_counts_values(fuel, n, front);
        lemma_reduce_counts_value(fuel, n1, vs.last());
        assert(within_values(n, seq![vs.last()]));
        lemma_within_more_values(n, n1, seq![vs.last()]);
        assert(within_value(n1, seq![vs.last()][0]));
        let d = lemma_reduced_converts_values(fuel, n, front);
        let e = lemma_reduced_converts_value(fuel, n1, vs.last());
        let more = if d <= e {
            e
        } else {
            d
        };
        lemma_converts_deeper_values(d, more, front, new_front);
        lemma_converts_deeper_value(e, more, vs.last(), new_last);
        let new = new_front.push(new_last);
        assert forall|i: int| 0 <= i < vs.len() implies converts_value(
            more,
            #[trigger] vs[i],
            new[i],
        ) by {
            if i < front.len() {
                assert(front[i] == vs[i]);
                assert(new[i] == new_front[i]);
            }
        }
        more
    }
}

/// As [`lemma_reduced_does_the_same`], with the number of steps given.
proof fn lemma_reduced_converts(fuel: nat, n: nat, c: Comp) -> (r: nat)
    requires
        reduce_comp(fuel, n, c) is Some,
        (reduce_comp(fuel, n, c)->0).1 <= usize::MAX,
        within(n, c),
    ensures
        converts(r, c, (reduce_comp(fuel, n, c)->0).0),
    decreases fuel, c,
{
    let (new, end) = reduce_comp(fuel, n, c)->0;
    match c {
        Comp::Redex { function, args } => {
            let (f, n1) = reduce_comp(fuel, n, *function)->0;
            let (vs, n2) = reduce_values(fuel, n1, args)->0;
            lemma_reduce_counts(fuel, n, *function);
            lemma_reduce_counts_values(fuel, n1, args);
            if let Comp::Lambda { args: params, body, may_have_complex_effects } = f {
                let (next, n3) = contract(n2, params, *body, may_have_complex_effects, vs);
                lemma_reduce_counts((fuel - 1) as nat, n3, next);
            }
            let d = lemma_reduced_converts(fuel, n, *function);
            lemma_within_more_values(n, n1, args);
            let e = lemma_reduced_converts_values(fuel, n1, args);
            let r = lemma_application_converts(d, e, *function, f, args, vs);
            if let Comp::Lambda { args: params, body, may_have_complex_effects } = f {
                let (next, n3) = contract(n2, params, *body, may_have_complex_effects, vs);
                lemma_reduced_within_comp(fuel, n, *function);
                lemma_within_more(n1, n2, f);
                lemma_reduced_within_values(fuel, n1, args);
                let middle = Comp::Redex { function: Box::new(f), args: vs };
                let s = lemma_contracted_converts(
                    n2,
                    params,
                    *body,
                    may_have_complex_effects,
                    vs,
                );
                lemma_contracted_within(n2, params, *body, may_have_complex_effects, vs);
                let t = lemma_reduced_converts((fuel - 1) as nat, n3, next);
                let u = lemma_converts_on(r, s, c, middle, next);
                lemma_converts_on(u, t, c, next, new)
            } else {
                r
            }
        },
        Comp::Return { value } => {
            let d = lemma_reduced_converts_value(fuel, n, value);
            assert(converts_parts(((d + 1) - 1) as nat, c, new));
            d + 1
        },
        Comp::Force { thunk, may_have_complex_effects } => {
            let (v, n1) = reduce_value(fuel, n, thunk)->0;
            let middle = Comp::Force { thunk: v, may_have_complex_effects };
            if let Value::Thunk { t, .. } = v {
                lemma_reduce_counts((fuel - 1) as nat, n1, *t);
            }
            let d = lemma_reduced_converts_value(fuel, n, thunk);
            assert(converts_parts(((d + 1) - 1) as nat, c, middle));
            if let Value::Thunk { t, .. } = v {
                lemma_reduced_within_value(fuel, n, thunk);
                assert(steps(middle, *t));
                assert(converts(1, middle, *t));
                let e = lemma_reduced_converts((fuel - 1) as nat, n1, *t);
                let u = lemma_converts_on((d + 1) as nat, 1, c, middle, *t);
                lemma_converts_on(u, e, c, *t, new)
            } else {
                d + 1
            }
        },
        Comp::Def { .. } => 0,
        Comp::PrimitiveCall { args, .. } => {
            let d = lemma_reduced_converts_values(fuel, n, args);
            assert(converts_parts(((d + 1) - 1) as nat, c, new));
            d + 1
        },
        Comp::Lambda { body, .. } => {
            let d = lemma_reduced_converts(fuel, n, *body);
            assert(converts_parts(((d + 1) - 1) as nat, c, new));
            d + 1
        },
    }
}

/// Reduction only ever applies lambdas, forces thunks, groups arguments and parameters in another
/// way, and names bound variables anew, where all indexes from `n` on are unused. It changes
/// nothing else.
pub proof fn lemma_reduced_does_the_same(n: nat, c: Comp)
    requires
        reduces(n, c),
        reduced(n, c).1 <= usize::MAX,
        within(n, c),
    ensures
        convertible(c, reduced(n, c).0),
{
    let fuel = choose|fuel: nat| (#[trigger] reduce_comp(fuel, n, c)) is Some;
    let d = lemma_reduced_converts(fuel, n, c);
    assert(converts(d, c, reduced(n, c).0));
}

} // verus!
