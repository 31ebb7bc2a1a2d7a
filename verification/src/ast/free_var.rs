//! The free variables of a term.
use crate::ast::term::{value, values, CTerm, Comp, VTerm, VType, Value};
use vstd::prelude::*;

verus! {

/// The indexes that `params` binds.
pub open spec fn bound_by(params: Seq<(usize, VType)>) -> Set<usize> {
    Set::new(|x: usize| exists|i: int| 0 <= i < params.len() && (#[trigger] params[i]).0 == x)
}

/// The free variables of a value.
pub open spec fn free_in_value(v: Value) -> Set<usize>
    decreases v,
{
    match v {
        Value::Var { index } => set![index],
        Value::Int { .. } => Set::empty(),
        Value::Thunk { t, .. } => free_in_comp(*t),
    }
}

/// The free variables of a sequence of values.
pub open spec fn free_in_values(vs: Seq<Value>) -> Set<usize>
    decreases vs,
{
    if vs.len() == 0 {
        Set::empty()
    } else {
        free_in_values(vs.drop_last()).union(free_in_value(vs.last()))
    }
}

/// The free variables of a computation.
pub open spec fn free_in_comp(c: Comp) -> Set<usize>
    decreases c,
{
    match c {
        Comp::Redex { function, args } => free_in_comp(*function).union(free_in_values(args)),
        Comp::Return { value } => free_in_value(value),
        Comp::Force { thunk, .. } => free_in_value(thunk),
        Comp::Def { .. } => Set::empty(),
        Comp::PrimitiveCall { args, .. } => free_in_values(args),
        Comp::Lambda { args, body, .. } => free_in_comp(*body).difference(bound_by(args)),
    }
}

/// Whether `s` is strictly increasing.
pub open spec fn increasing(s: Seq<usize>) -> bool {
    forall|i: int, j: int| 0 <= i < j < s.len() ==> s[i] < s[j]
}

/// Whether `s` lists the elements of `set` in strictly increasing order.
pub open spec fn lists(s: Seq<usize>, set: Set<usize>) -> bool {
    &&& increasing(s)
    &&& forall|x: usize| #[trigger] s.contains(x) <==> set.contains(x)
}

/// The elements of a finite set in strictly increasing order.
pub open spec fn sorted(set: Set<usize>) -> Seq<usize> {
    choose|s: Seq<usize>| lists(s, set)
}

/// A set has at most one strictly increasing listing.
pub proof fn lemma_listing_unique(s: Seq<usize>, t: Seq<usize>, set: Set<usize>)
    requires
        lists(s, set),
        lists(t, set),
    ensures
        s == t,
    decreases s.len(),
{
    if s.len() == 0 {
        if t.len() > 0 {
            assert(t.contains(t[0]));
            assert(s.contains(t[0]));
        }
        assert(s =~= t);
    } else {
        assert(s.contains(s[0]));
        assert(t.contains(s[0]));
        assert(t.len() > 0);
        let a = s.last();
        let b = t.last();
        assert(s.contains(a) && t.contains(b));
        assert(s.contains(b) && t.contains(a));
        let i = s.index_of(b);
        let j = t.index_of(a);
        assert(a == b);
        let s1 = s.drop_last();
        let t1 = t.drop_last();
        assert(lists(s1, set.remove(a))) by {
            lemma_listing_drop_last(s, set);
        }
        assert(lists(t1, set.remove(a))) by {
            lemma_listing_drop_last(t, set);
        }
        lemma_listing_unique(s1, t1, set.remove(a));
        assert(s =~= s1.push(a));
        assert(t =~= t1.push(b));
    }
}

proof fn lemma_listing_drop_last(s: Seq<usize>, set: Set<usize>)
    requires
        lists(s, set),
        s.len() > 0,
    ensures
        lists(s.drop_last(), set.remove(s.last())),
{
    let s1 = s.drop_last();
    assert forall|x: usize| #[trigger] s1.contains(x) <==> set.remove(s.last()).contains(x) by {
        if s1.contains(x) {
            let k = s1.index_of(x);
            assert(s[k] == x);
            assert(s.contains(x));
        }
        if set.remove(s.last()).contains(x) {
            assert(s.contains(x));
            let k = s.index_of(x);
            assert(s1[k] == x);
        }
    }
}

/// A listing of a set is what [`sorted`] names.
pub proof fn lemma_sorted(s: Seq<usize>, set: Set<usize>)
    requires
        lists(s, set),
    ensures
        sorted(set) == s,
{
    lemma_listing_unique(s, sorted(set), set);
}

/// Adds `x` to a strictly increasing list.
fn insert_sorted(list: &mut Vec<usize>, x: usize)
    requires
        increasing(old(list)@),
    ensures
        increasing(final(list)@),
        forall|y: usize| #[trigger]
            final(list)@.contains(y) <==> old(list)@.contains(y) || y == x,
{
    let mut i: usize = 0;
    while i < list.len() && list[i] < x
        invariant
            i <= list.len(),
            list@ == old(list)@,
            increasing(list@),
            forall|j: int| 0 <= j < i ==> list@[j] < x,
        decreases list.len() - i,
    {
        i = i + 1;
    }
    if i < list.len() && list[i] == x {
        assert(list@.contains(list@[i as int]));
    } else {
        let ghost before = list@;
        list.insert(i, x);
        assert(list@ == before.insert(i as int, x));
        assert forall|y: usize| #[trigger] list@.contains(y) <==> before.contains(y) || y == x by {
            if list@.contains(y) {
                let k = list@.index_of(y);
                if k < i {
                    assert(before[k] == y);
                } else if k > i {
                    assert(before[k - 1] == y);
                }
            }
            if before.contains(y) {
                let k = before.index_of(y);
                if k < i {
                    assert(list@[k] == y);
                } else {
                    assert(list@[k + 1] == y);
                }
            }
            assert(list@[i as int] == x);
        }
    }
}

/// Whether `params` binds `x`.
fn binds(params: &Vec<(usize, VType)>, x: usize) -> (r: bool)
    ensures
        r == bound_by(params@).contains(x),
{
    for i in 0..params.len()
        invariant
            forall|j: int| 0 <= j < i ==> (#[trigger] params@[j]).0 != x,
    {
        if params[i].0 == x {
            return true;
        }
    }
    false
}

/// Adds the free variables of `v` to `list`.
fn collect_value(v: &VTerm, list: &mut Vec<usize>)
    requires
        increasing(old(list)@),
    ensures
        increasing(final(list)@),
        forall|x: usize| #[trigger]
            final(list)@.contains(x) <==> old(list)@.contains(x) || free_in_value(v@).contains(x),
    decreases v,
{
    match v {
        VTerm::Var { index } => {
            insert_sorted(list, *index);
        },
        VTerm::Int { .. } => {},
        VTerm::Thunk { t, .. } => {
            collect_comp(t, list);
        },
    }
}

/// Adds the free variables of all of `vs` to `list`.
fn collect_values(vs: &Vec<VTerm>, list: &mut Vec<usize>)
    requires
        increasing(old(list)@),
    ensures
        increasing(final(list)@),
        forall|x: usize| #[trigger]
            final(list)@.contains(x) <==> old(list)@.contains(x) || free_in_values(
                values(vs@),
            ).contains(x),
    decreases vs,
{
    for i in 0..vs.len()
        invariant
            increasing(list@),
            forall|x: usize| #[trigger]
                list@.contains(x) <==> old(list)@.contains(x) || free_in_values(
                    values(vs@).take(i as int),
                ).contains(x),
    {
        collect_value(&vs[i], list);
        let ghost all = values(vs@);
        assert(all.take(i + 1).drop_last() =~= all.take(i as int));
        assert(all.take(i + 1).last() == value(vs@[i as int]));
    }
    assert(values(vs@).take(vs@.len() as int) =~= values(vs@));
}

/// Adds the free variables of `c` to `list`.
fn collect_comp(c: &CTerm, list: &mut Vec<usize>)
    requires
        increasing(old(list)@),
    ensures
        increasing(final(list)@),
        forall|x: usize| #[trigger]
            final(list)@.contains(x) <==> old(list)@.contains(x) || free_in_comp(c@).contains(x),
    decreases c,
{
    match c {
        CTerm::Redex { function, args } => {
            collect_comp(function, list);
            collect_values(args, list);
        },
        CTerm::Return { value } => {
            collect_value(value, list);
        },
        CTerm::Force { thunk, .. } => {
            collect_value(thunk, list);
        },
        CTerm::Def { .. } => {},
        CTerm::PrimitiveCall { args, .. } => {
            collect_values(args, list);
        },
        CTerm::Lambda { args, body, .. } => {
            let mut inner: Vec<usize> = Vec::new();
            collect_comp(body, &mut inner);
            for i in 0..inner.len()
                invariant
                    increasing(list@),
                    forall|x: usize| #[trigger]
                        list@.contains(x) <==> old(list)@.contains(x) || (inner@.take(
                            i as int,
                        ).contains(x) && !bound_by(args@).contains(x)),
            {
                let ghost before = list@;
                if !binds(args, inner[i]) {
                    insert_sorted(list, inner[i]);
                }
                let ghost x0 = inner@[i as int];
                let ghost done = inner@.take(i as int);
                assert(inner@.take(i + 1) =~= done.push(x0));
                assert forall|x: usize| #[trigger]
                    list@.contains(x) <==> old(list)@.contains(x) || (inner@.take(i + 1).contains(x)
                        && !bound_by(args@).contains(x)) by {
                    assert(before.contains(x) <==> old(list)@.contains(x) || (done.contains(x)
                        && !bound_by(args@).contains(x)));
                    if done.contains(x) {
                        let k = done.index_of(x);
                        assert(done.push(x0)[k] == x);
                    }
                    assert(done.push(x0)[i as int] == x0);
                }
            }
            assert(inner@.take(inner@.len() as int) =~= inner@);
        },
    }
}

impl VTerm {
    /// The free variables, in increasing order.
    pub fn free_vars(&self) -> (r: Vec<usize>)
        ensures
            lists(r@, free_in_value(self@)),
            r@ == sorted(free_in_value(self@)),
    {
        let mut list: Vec<usize> = Vec::new();
        collect_value(self, &mut list);
        proof {
            lemma_sorted(list@, free_in_value(self@));
        }
        list
    }
}

impl CTerm {
    /// The free variables, in increasing order.
    pub fn free_vars(&self) -> (r: Vec<usize>)
        ensures
            lists(r@, free_in_comp(self@)),
            r@ == sorted(free_in_comp(self@)),
    {
        let mut list: Vec<usize> = Vec::new();
        collect_comp(self, &mut list);
        proof {
            lemma_sorted(list@, free_in_comp(self@));
        }
        list
    }
}

} // verus!
