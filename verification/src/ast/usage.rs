//! The uses of variables in terms, and the indexes that terms leave free.
use crate::ast::renamer::{binders_in_comp, binders_in_value, binders_in_values};
use crate::ast::term::{value, values, CTerm, Comp, VTerm, VType, Value};
use vstd::prelude::*;

verus! {

/// The lesser of two numbers.
pub open spec fn lesser(a: nat, b: nat) -> nat {
    if a <= b {
        a
    } else {
        b
    }
}

/// The greater of two numbers.
pub open spec fn greater(a: nat, b: nat) -> nat {
    if a <= b {
        b
    } else {
        a
    }
}

/// The number of uses of the variable `y` in a value.
pub open spec fn uses_in_value(y: usize, v: Value) -> nat
    decreases v,
{
    match v {
        Value::Var { index } => if index == y {
            1
        } else {
            0
        },
        Value::Int { .. } => 0,
        Value::Thunk { t, .. } => uses(y, *t),
    }
}

/// The number of uses of the variable `y` in a sequence of values.
pub open spec fn uses_in_values(y: usize, vs: Seq<Value>) -> nat
    decreases vs,
{
    if vs.len() == 0 {
        0
    } else {
        uses_in_values(y, vs.drop_last()) + uses_in_value(y, vs.last())
    }
}

/// The number of uses of the variable `y` in a computation.
pub open spec fn uses(y: usize, c: Comp) -> nat
    decreases c,
{
    match c {
        Comp::Redex { function, args } => uses(y, *function) + uses_in_values(y, args),
        Comp::Return { value } => uses_in_value(y, value),
        Comp::Force { thunk, .. } => uses_in_value(y, thunk),
        Comp::Def { .. } => 0,
        Comp::PrimitiveCall { args, .. } => uses_in_values(y, args),
        Comp::Lambda { body, .. } => uses(y, *body),
    }
}

/// The least index that is greater than all of `params`.
pub open spec fn top_of_params(params: Seq<(usize, VType)>) -> nat
    decreases params.len(),
{
    if params.len() == 0 {
        0
    } else {
        greater(top_of_params(params.drop_last()), (params.last().0 + 1) as nat)
    }
}

/// The least index that is greater than all variables and binders of a value.
pub open spec fn top_of_value(v: Value) -> nat
    decreases v,
{
    match v {
        Value::Var { index } => (index + 1) as nat,
        Value::Int { .. } => 0,
        Value::Thunk { t, .. } => top(*t),
    }
}

/// The least index that is greater than all variables and binders of a sequence of values.
pub open spec fn top_of_values(vs: Seq<Value>) -> nat
    decreases vs,
{
    if vs.len() == 0 {
        0
    } else {
        greater(top_of_values(vs.drop_last()), top_of_value(vs.last()))
    }
}

/// The least index that is greater than all variables and binders of a computation.
pub open spec fn top(c: Comp) -> nat
    decreases c,
{
    match c {
        Comp::Redex { function, args } => greater(top(*function), top_of_values(args)),
        Comp::Return { value } => top_of_value(value),
        Comp::Force { thunk, .. } => top_of_value(thunk),
        Comp::Def { .. } => 0,
        Comp::PrimitiveCall { args, .. } => top_of_values(args),
        Comp::Lambda { args, body, .. } => greater(top_of_params(args), top(*body)),
    }
}

/// Adds two numbers of uses, neither of which is more than two, and stops counting at two.
fn add_up(a: usize, b: usize) -> (r: usize)
    requires
        a <= 2,
        b <= 2,
    ensures
        r == lesser((a + b) as nat, 2),
{
    if a + b <= 2 {
        a + b
    } else {
        2
    }
}

/// Counts the uses of the variable `y` in `v` up to two.
fn count_in_value(y: usize, v: &VTerm) -> (r: usize)
    ensures
        r == lesser(uses_in_value(y, v@), 2),
    decreases v,
{
    match v {
        VTerm::Var { index } => if *index == y {
            1
        } else {
            0
        },
        VTerm::Int { .. } => 0,
        VTerm::Thunk { t, .. } => count_uses(y, t),
    }
}

/// Counts the uses of the variable `y` in `vs` up to two.
fn count_in_values(y: usize, vs: &Vec<VTerm>) -> (r: usize)
    ensures
        r == lesser(uses_in_values(y, values(vs@)), 2),
    decreases vs,
{
    let ghost all = values(vs@);
    let mut r: usize = 0;
    for i in 0..vs.len()
        invariant
            all == values(vs@),
            r == lesser(uses_in_values(y, all.take(i as int)), 2),
    {
        assert(all.take(i + 1).drop_last() =~= all.take(i as int));
        assert(all.take(i + 1).last() == value(vs@[i as int]));
        r = add_up(r, count_in_value(y, &vs[i]));
    }
    assert(all.take(vs@.len() as int) =~= all);
    r
}

/// Counts the uses of the variable `y` in `c` up to two.
pub fn count_uses(y: usize, c: &CTerm) -> (r: usize)
    ensures
        r == lesser(uses(y, c@), 2),
    decreases c,
{
    match c {
        CTerm::Redex { function, args } => add_up(
            count_uses(y, function),
            count_in_values(y, args),
        ),
        CTerm::Return { value } => count_in_value(y, value),
        CTerm::Force { thunk, .. } => count_in_value(y, thunk),
        CTerm::Def { .. } => 0,
        CTerm::PrimitiveCall { args, .. } => count_in_values(y, args),
        CTerm::Lambda { body, .. } => count_uses(y, body),
    }
}

/// Whether there are binders in `v`.
pub fn has_binders(v: &VTerm) -> (r: bool)
    ensures
        r == (binders_in_value(v@) > 0),
    decreases v,
{
    match v {
        VTerm::Thunk { t, .. } => has_binders_in_comp(t),
        _ => false,
    }
}

/// Whether there are binders in `vs`.
fn has_binders_in_values(vs: &Vec<VTerm>) -> (r: bool)
    ensures
        r == (binders_in_values(values(vs@)) > 0),
    decreases vs,
{
    let ghost all = values(vs@);
    let mut r = false;
    for i in 0..vs.len()
        invariant
            all == values(vs@),
            r == (binders_in_values(all.take(i as int)) > 0),
    {
        assert(all.take(i + 1).drop_last() =~= all.take(i as int));
        assert(all.take(i + 1).last() == value(vs@[i as int]));
        if has_binders(&vs[i]) {
            r = true;
        }
    }
    assert(all.take(vs@.len() as int) =~= all);
    r
}

/// Whether there are binders in `c`.
fn has_binders_in_comp(c: &CTerm) -> (r: bool)
    ensures
        r == (binders_in_comp(c@) > 0),
    decreases c,
{
    match c {
        CTerm::Redex { function, args } => has_binders_in_comp(function) || has_binders_in_values(
            args,
        ),
        CTerm::Return { value } => has_binders(value),
        CTerm::Force { thunk, .. } => has_binders(thunk),
        CTerm::Def { .. } => false,
        CTerm::PrimitiveCall { args, .. } => has_binders_in_values(args),
        CTerm::Lambda { args, body, .. } => args.len() > 0 || has_binders_in_comp(body),
    }
}

/// The greater of two indexes.
fn greater_index(a: usize, b: usize) -> (r: usize)
    ensures
        r == greater(a as nat, b as nat),
{
    if a <= b {
        b
    } else {
        a
    }
}

/// The index after `index`, or the greatest if there is none.
fn next_after(index: usize) -> (r: usize)
    ensures
        r == lesser((index + 1) as nat, usize::MAX as nat),
{
    if index == usize::MAX {
        index
    } else {
        index + 1
    }
}

/// The least index that is greater than all of `params`, or the greatest if there is none.
pub fn find_top_of_params(params: &Vec<(usize, VType)>) -> (r: usize)
    ensures
        r == lesser(top_of_params(params@), usize::MAX as nat),
{
    let mut r: usize = 0;
    for i in 0..params.len()
        invariant
            r == lesser(top_of_params(params@.take(i as int)), usize::MAX as nat),
    {
        assert(params@.take(i + 1).drop_last() =~= params@.take(i as int));
        r = greater_index(r, next_after(params[i].0));
    }
    assert(params@.take(params@.len() as int) =~= params@);
    r
}

/// The least index that is greater than all variables and binders of `v`, or the greatest if there
/// is none.
fn find_top_of_value(v: &VTerm) -> (r: usize)
    ensures
        r == lesser(top_of_value(v@), usize::MAX as nat),
    decreases v,
{
    match v {
        VTerm::Var { index } => next_after(*index),
        VTerm::Int { .. } => 0,
        VTerm::Thunk { t, .. } => find_top(t),
    }
}

/// The least index that is greater than all variables and binders of `vs`, or the greatest if there
/// is none.
fn find_top_of_values(vs: &Vec<VTerm>) -> (r: usize)
    ensures
        r == lesser(top_of_values(values(vs@)), usize::MAX as nat),
    decreases vs,
{
    let ghost all = values(vs@);
    let mut r: usize = 0;
    for i in 0..vs.len()
        invariant
            all == values(vs@),
            r == lesser(top_of_values(all.take(i as int)), usize::MAX as nat),
    {
        assert(all.take(i + 1).drop_last() =~= all.take(i as int));
        assert(all.take(i + 1).last() == value(vs@[i as int]));
        r = greater_index(r, find_top_of_value(&vs[i]));
    }
    assert(all.take(vs@.len() as int) =~= all);
    r
}

/// The least index that is greater than all variables and binders of `c`, or the greatest if there
/// is none.
pub fn find_top(c: &CTerm) -> (r: usize)
    ensures
        r == lesser(top(c@), usize::MAX as nat),
    decreases c,
{
    match c {
        CTerm::Redex { function, args } => greater_index(
            find_top(function),
            find_top_of_values(args),
        ),
        CTerm::Return { value } => find_top_of_value(value),
        CTerm::Force { thunk, .. } => find_top_of_value(thunk),
        CTerm::Def { .. } => 0,
        CTerm::PrimitiveCall { args, .. } => find_top_of_values(args),
        CTerm::Lambda { args, body, .. } => greater_index(
            find_top_of_params(args),
            find_top(body),
        ),
    }
}

/// The sum of two numbers, each `None` if it does not fit in a machine word.
pub(crate) fn add_counts(a: Option<usize>, b: Option<usize>) -> (r: Option<usize>)
    ensures
        r is Some <==> a is Some && b is Some && a->0 + b->0 <= usize::MAX,
        r is Some ==> r->0 == a->0 + b->0,
{
    match (a, b) {
        (Some(a), Some(b)) => a.checked_add(b),
        _ => None,
    }
}

/// Whether `r` is the number `n`, or `None` if that does not fit in a machine word.
pub open spec fn is_count(r: Option<usize>, n: nat) -> bool {
    match r {
        Some(k) => k == n,
        None => n > usize::MAX,
    }
}

fn count_binders_in_value(v: &VTerm) -> (r: Option<usize>)
    ensures
        is_count(r, binders_in_value(v@)),
    decreases v,
{
    match v {
        VTerm::Thunk { t, .. } => count_binders(t),
        _ => Some(0),
    }
}

fn count_binders_in_values(vs: &Vec<VTerm>) -> (r: Option<usize>)
    ensures
        is_count(r, binders_in_values(values(vs@))),
    decreases vs,
{
    let ghost all = values(vs@);
    let mut r: Option<usize> = Some(0);
    for i in 0..vs.len()
        invariant
            all == values(vs@),
            is_count(r, binders_in_values(all.take(i as int))),
    {
        assert(all.take(i + 1).drop_last() =~= all.take(i as int));
        assert(all.take(i + 1).last() == value(vs@[i as int]));
        r = add_counts(r, count_binders_in_value(&vs[i]));
    }
    assert(all.take(vs@.len() as int) =~= all);
    r
}

/// The number of binders in `c`, or `None` if it does not fit in a machine word.
pub fn count_binders(c: &CTerm) -> (r: Option<usize>)
    ensures
        is_count(r, binders_in_comp(c@)),
        r is Some <==> binders_in_comp(c@) <= usize::MAX,
        r is Some ==> r->0 == binders_in_comp(c@),
    decreases c,
{
    match c {
        CTerm::Redex { function, args } => add_counts(
            count_binders(function),
            count_binders_in_values(args),
        ),
        CTerm::Return { value } => count_binders_in_value(value),
        CTerm::Force { thunk, .. } => count_binders_in_value(thunk),
        CTerm::Def { .. } => Some(0),
        CTerm::PrimitiveCall { args, .. } => count_binders_in_values(args),
        CTerm::Lambda { args, body, .. } => add_counts(Some(args.len()), count_binders(body)),
    }
}

/// All of `params` are less than their top.
pub proof fn lemma_top_of_params(params: Seq<(usize, VType)>)
    ensures
        forall|i: int| 0 <= i < params.len() ==> (#[trigger] params[i]).0 < top_of_params(params),
    decreases params.len(),
{
    if params.len() > 0 {
        lemma_top_of_params(params.drop_last());
        assert forall|i: int| 0 <= i < params.len() implies (#[trigger] params[i]).0
            < top_of_params(params) by {
            if i < params.len() - 1 {
                assert(params.drop_last()[i] == params[i]);
            }
        }
    }
}

/// The top of two lists of parameters is the greater of their tops.
pub proof fn lemma_top_of_concat(params: Seq<(usize, VType)>, more: Seq<(usize, VType)>)
    ensures
        top_of_params(params + more) == greater(top_of_params(params), top_of_params(more)),
    decreases more.len(),
{
    if more.len() == 0 {
        assert(params + more =~= params);
    } else {
        lemma_top_of_concat(params, more.drop_last());
        assert((params + more).drop_last() =~= params + more.drop_last());
    }
}

/// The top of parameters that are less than `bound` is no greater than it.
pub proof fn lemma_top_of_params_below(params: Seq<(usize, VType)>, bound: nat)
    requires
        forall|i: int| 0 <= i < params.len() ==> (#[trigger] params[i]).0 < bound,
    ensures
        top_of_params(params) <= bound,
    decreases params.len(),
{
    if params.len() > 0 {
        lemma_top_of_params_below(params.drop_last(), bound);
        assert(params.last() == params[params.len() - 1]);
    }
}

} // verus!
