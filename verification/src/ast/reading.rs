//! Terms read from left to right, symbol by symbol. A pass that moves nothing around leaves the
//! reading of a term as it is.
use crate::ast::free_var::{bound_by, free_in_comp, free_in_value, free_in_values};
use crate::ast::redundancy::{lemma_simplified, simplify_comp, simplify_value, simplify_values};
use crate::ast::renamer::{binders_in_comp, binders_in_value, binders_in_values};
use crate::ast::substitutor::{substitute, substitute_in_value, substitute_in_values};
use crate::ast::term::{Comp, VType, Value};
use crate::ast::usage::{
    top, top_of_params, top_of_value, top_of_values, uses, uses_in_value, uses_in_values,
};
use crate::signature::{normalize_comp, normalize_value, normalize_values};
use vstd::prelude::*;

verus! {

/// What is read of a term at one place.
pub enum Symbol {
    /// A variable.
    Var(usize),
    /// A number.
    Int(i64),
    /// A thunk that may have complex effects or not. What it does follows.
    Thunk(bool),
    /// The end of a thunk.
    EndThunk,
    /// An argument follows.
    Arg,
    /// A value that is returned follows.
    Return,
    /// A value that is forced, with complex effects or not, follows.
    Force(bool),
    /// A definition by its name, called with complex effects or not.
    Def(Seq<char>, bool),
    /// A primitive function by its name. As many arguments as the number tells follow.
    Primitive(Seq<char>, nat),
    /// A lambda that takes as many parameters as the number tells, with complex effects or not.
    Lambda(nat, bool),
    /// A parameter and its type. Its scope follows.
    Open(usize, VType),
    /// The end of the scope of a parameter.
    Close,
    /// The end of a lambda.
    EndLambda,
}

/// The parameters `params`, read from left to right.
pub open spec fn opens(params: Seq<(usize, VType)>) -> Seq<Symbol> {
    Seq::new(params.len(), |i: int| Symbol::Open(params[i].0, params[i].1))
}

/// The ends of the scopes of `n` parameters.
pub open spec fn closes(n: nat) -> Seq<Symbol> {
    Seq::new(n, |i: int| Symbol::Close)
}

/// The value `v`, read from left to right; see [`read`].
pub open spec fn read_value(marks: bool, v: Value) -> Seq<Symbol>
    decreases v,
{
    match v {
        Value::Var { index } => seq![Symbol::Var(index)],
        Value::Int { value } => seq![Symbol::Int(value)],
        Value::Thunk { t, may_have_complex_effects } => seq![
            Symbol::Thunk(may_have_complex_effects),
        ] + read(marks, *t) + seq![Symbol::EndThunk],
    }
}

/// The arguments `vs`, read from left to right; see [`read`].
pub open spec fn read_args(marks: bool, vs: Seq<Value>) -> Seq<Symbol>
    decreases vs,
{
    if vs.len() == 0 {
        Seq::empty()
    } else {
        read_args(marks, vs.drop_last()) + seq![Symbol::Arg] + read_value(marks, vs.last())
    }
}

/// The computation `c`, read from left to right. What an application applies comes before its
/// arguments, so it does not matter how many arguments are given at once. If there are no `marks`
/// where lambdas begin and end, it does not matter either how many parameters are taken at once.
pub open spec fn read(marks: bool, c: Comp) -> Seq<Symbol>
    decreases c,
{
    match c {
        Comp::Redex { function, args } => read(marks, *function) + read_args(marks, args),
        Comp::Return { value } => seq![Symbol::Return] + read_value(marks, value),
        Comp::Force { thunk, may_have_complex_effects } => seq![
            Symbol::Force(may_have_complex_effects),
        ] + read_value(marks, thunk),
        Comp::Def { name, may_have_complex_effects } => seq![
            Symbol::Def(name, may_have_complex_effects),
        ],
        Comp::PrimitiveCall { name, args } => seq![Symbol::Primitive(name, args.len())]
            + read_args(marks, args),
        Comp::Lambda { args, body, may_have_complex_effects } => {
            let scope = opens(args) + read(marks, *body) + closes(args.len());
            if marks {
                seq![Symbol::Lambda(args.len(), may_have_complex_effects)] + scope + seq![
                    Symbol::EndLambda,
                ]
            } else {
                scope
            }
        },
    }
}

/// Arguments are read one after the other.
pub proof fn lemma_read_args_concat(marks: bool, a: Seq<Value>, b: Seq<Value>)
    ensures
        read_args(marks, a + b) == read_args(marks, a) + read_args(marks, b),
    decreases b.len(),
{
    if b.len() == 0 {
        assert(a + b =~= a);
        assert(read_args(marks, a) + read_args(marks, b) =~= read_args(marks, a));
    } else {
        lemma_read_args_concat(marks, a, b.drop_last());
        assert((a + b).drop_last() =~= a + b.drop_last());
        assert(read_args(marks, a + b) =~= read_args(marks, a) + read_args(marks, b));
    }
}

proof fn lemma_simplified_reads_alike_value(v: Value)
    ensures
        read_value(false, simplify_value(v)) == read_value(false, v),
    decreases v,
{
    if let Value::Thunk { t, .. } = v {
        lemma_simplified_reads_alike(*t);
    }
}

proof fn lemma_simplified_reads_alike_args(vs: Seq<Value>)
    ensures
        read_args(false, simplify_values(vs)) == read_args(false, vs),
    decreases vs,
{
    if vs.len() > 0 {
        lemma_simplified_reads_alike_args(vs.drop_last());
        lemma_simplified_reads_alike_value(vs.last());
        assert(simplify_values(vs).drop_last() =~= simplify_values(vs.drop_last()));
    }
}

/// Removing redundancy changes nothing but how many arguments are given and how many parameters
/// are taken at once.
pub proof fn lemma_simplified_reads_alike(c: Comp)
    ensures
        read(false, simplify_comp(c)) == read(false, c),
    decreases c,
{
    match c {
        Comp::Redex { function, args } => {
            lemma_simplified_reads_alike(*function);
            lemma_simplified_reads_alike_args(args);
            let f = simplify_comp(*function);
            let vs = simplify_values(args);
            if let Comp::Redex { function: inner, args: inner_args } = f {
                lemma_read_args_concat(false, inner_args, vs);
            }
            assert(read(false, simplify_comp(c)) =~= read(false, c));
        },
        Comp::Return { value } => {
            lemma_simplified_reads_alike_value(value);
        },
        Comp::Force { thunk, .. } => {
            lemma_simplified_reads_alike_value(thunk);
        },
        Comp::Def { .. } => {},
        Comp::PrimitiveCall { args, .. } => {
            lemma_simplified_reads_alike_args(args);
        },
        Comp::Lambda { args, body, .. } => {
            lemma_simplified_reads_alike(*body);
            let b = simplify_comp(*body);
            if let Comp::Lambda { args: inner_args, body: inner, .. } = b {
                assert(opens(args + inner_args) =~= opens(args) + opens(inner_args));
                assert(closes(args.len() + inner_args.len()) =~= closes(inner_args.len())
                    + closes(args.len()));
            }
            assert(read(false, simplify_comp(c)) =~= read(false, c));
        },
    }
}

/// The lambda that is left of nested ones may have complex effects if any of these may.
pub proof fn lemma_simplified_effects(c: Comp)
    requires
        c is Lambda,
    ensures
        simplify_comp(c) matches Comp::Lambda { may_have_complex_effects: new, .. } ==> (new
            <==> c->Lambda_may_have_complex_effects || (simplify_comp(
            *c->Lambda_body,
        ) matches Comp::Lambda { may_have_complex_effects: inner, .. } && inner)),
{
    lemma_simplified(*c->Lambda_body);
}

proof fn lemma_normalized_reads_alike_value(v: Value)
    ensures
        read_value(true, normalize_value(v)) == read_value(true, v),
    decreases v,
{
    if let Value::Thunk { t, .. } = v {
        lemma_normalized_reads_alike(*t);
    }
}

proof fn lemma_normalized_reads_alike_args(vs: Seq<Value>)
    ensures
        read_args(true, normalize_values(vs)) == read_args(true, vs),
    decreases vs,
{
    if vs.len() > 0 {
        lemma_normalized_reads_alike_args(vs.drop_last());
        lemma_normalized_reads_alike_value(vs.last());
        assert(normalize_values(vs).drop_last() =~= normalize_values(vs.drop_last()));
    }
}

/// Normalizing changes nothing but how many arguments are given at once. The arguments that an
/// application had stay its last ones, as they are.
pub proof fn lemma_normalized_reads_alike(c: Comp)
    ensures
        read(true, normalize_comp(c)) == read(true, c),
        c matches Comp::Redex { args, .. } ==> args.len() > 0 ==> {
            &&& normalize_comp(c) matches Comp::Redex { args: new, .. }
            &&& args.is_suffix_of(new)
        },
    decreases c,
{
    match c {
        Comp::Redex { function, args } => {
            lemma_normalized_reads_alike(*function);
            let f = normalize_comp(*function);
            assert(read(true, c) == read(true, f) + read_args(true, args));
            if args.len() == 0 {
                assert(normalize_comp(c) == f);
                assert(read_args(true, args) =~= Seq::empty());
            } else if let Comp::Redex { function: inner, args: inner_args } = f {
                lemma_read_args_concat(true, inner_args, args);
                assert(read(true, f) == read(true, *inner) + read_args(true, inner_args));
                assert(read(true, normalize_comp(c)) == read(true, *inner) + read_args(
                    true,
                    inner_args + args,
                ));
            }
            assert(read(true, normalize_comp(c)) =~= read(true, c));
        },
        Comp::Return { value } => {
            lemma_normalized_reads_alike_value(value);
        },
        Comp::Force { thunk, .. } => {
            lemma_normalized_reads_alike_value(thunk);
        },
        Comp::Def { .. } => {},
        Comp::PrimitiveCall { args, .. } => {
            lemma_normalized_reads_alike_args(args);
        },
        Comp::Lambda { body, .. } => {
            lemma_normalized_reads_alike(*body);
        },
    }
}

/// The symbols `s`, in which the variables that `bindings` holds are replaced by the readings of
/// what they stand for.
pub open spec fn expand(marks: bool, bindings: Map<usize, Value>, s: Seq<Symbol>) -> Seq<Symbol>
    decreases s.len(),
{
    if s.len() == 0 {
        s
    } else {
        let front = expand(marks, bindings, s.drop_last());
        match s.last() {
            Symbol::Var(x) if bindings.contains_key(x) => front + read_value(marks, bindings[x]),
            _ => front.push(s.last()),
        }
    }
}

proof fn lemma_expand_concat(
    marks: bool,
    bindings: Map<usize, Value>,
    a: Seq<Symbol>,
    b: Seq<Symbol>,
)
    ensures
        expand(marks, bindings, a + b) == expand(marks, bindings, a) + expand(marks, bindings, b),
    decreases b.len(),
{
    if b.len() == 0 {
        assert(a + b =~= a);
        assert(expand(marks, bindings, a) + b =~= expand(marks, bindings, a));
    } else {
        lemma_expand_concat(marks, bindings, a, b.drop_last());
        assert((a + b).drop_last() =~= a + b.drop_last());
        assert((a + b).last() == b.last());
        assert(expand(marks, bindings, a + b) =~= expand(marks, bindings, a) + expand(
            marks,
            bindings,
            b,
        ));
    }
}

/// Symbols other than variables stay.
proof fn lemma_expand_rest(marks: bool, bindings: Map<usize, Value>, s: Seq<Symbol>)
    requires
        forall|i: int| 0 <= i < s.len() ==> !((#[trigger] s[i]) is Var),
    ensures
        expand(marks, bindings, s) == s,
    decreases s.len(),
{
    if s.len() > 0 {
        let front = s.drop_last();
        assert forall|i: int| 0 <= i < front.len() implies !((#[trigger] front[i]) is Var) by {
            assert(front[i] == s[i]);
        }
        lemma_expand_rest(marks, bindings, front);
        assert(s[s.len() - 1] == s.last());
        assert(front.push(s.last()) =~= s);
    }
}

proof fn lemma_substituted_reading_value(marks: bool, bindings: Map<usize, Value>, v: Value)
    ensures
        read_value(marks, substitute_in_value(bindings, v)) == expand(
            marks,
            bindings,
            read_value(marks, v),
        ),
    decreases v,
{
    let s = read_value(marks, v);
    match v {
        Value::Var { index } => {
            reveal_with_fuel(expand, 2);
            assert(s.drop_last() =~= Seq::empty());
            assert(s.last() == Symbol::Var(index));
            assert(read_value(marks, substitute_in_value(bindings, v)) =~= expand(
                marks,
                bindings,
                s,
            ));
        },
        Value::Int { .. } => {
            lemma_expand_rest(marks, bindings, s);
        },
        Value::Thunk { t, may_have_complex_effects } => {
            lemma_substituted_reading(marks, bindings, *t);
            let first = seq![Symbol::Thunk(may_have_complex_effects)];
            let last = seq![Symbol::EndThunk];
            lemma_expand_rest(marks, bindings, first);
            lemma_expand_rest(marks, bindings, last);
            lemma_expand_concat(marks, bindings, first, read(marks, *t));
            lemma_expand_concat(marks, bindings, first + read(marks, *t), last);
        },
    }
}

proof fn lemma_substituted_reading_args(marks: bool, bindings: Map<usize, Value>, vs: Seq<Value>)
    ensures
        read_args(marks, substitute_in_values(bindings, vs)) == expand(
            marks,
            bindings,
            read_args(marks, vs),
        ),
    decreases vs,
{
    if vs.len() > 0 {
        let front = vs.drop_last();
        lemma_substituted_reading_args(marks, bindings, front);
        lemma_substituted_reading_value(marks, bindings, vs.last());
        assert(substitute_in_values(bindings, vs).drop_last() =~= substitute_in_values(
            bindings,
            front,
        ));
        let arg = seq![Symbol::Arg];
        lemma_expand_rest(marks, bindings, arg);
        lemma_expand_concat(marks, bindings, read_args(marks, front), arg);
        lemma_expand_concat(
            marks,
            bindings,
            read_args(marks, front) + arg,
            read_value(marks, vs.last()),
        );
    }
}

/// Substitution replaces variables where they stand, and changes nothing else.
pub proof fn lemma_substituted_reading(marks: bool, bindings: Map<usize, Value>, c: Comp)
    ensures
        read(marks, substitute(bindings, c)) == expand(marks, bindings, read(marks, c)),
    decreases c,
{
    match c {
        Comp::Redex { function, args } => {
            lemma_substituted_reading(marks, bindings, *function);
            lemma_substituted_reading_args(marks, bindings, args);
            lemma_expand_concat(
                marks,
                bindings,
                read(marks, *function),
                read_args(marks, args),
            );
        },
        Comp::Return { value } => {
            lemma_substituted_reading_value(marks, bindings, value);
            let first = seq![Symbol::Return];
            lemma_expand_rest(marks, bindings, first);
            lemma_expand_concat(marks, bindings, first, read_value(marks, value));
        },
        Comp::Force { thunk, may_have_complex_effects } => {
            lemma_substituted_reading_value(marks, bindings, thunk);
            let first = seq![Symbol::Force(may_have_complex_effects)];
            lemma_expand_rest(marks, bindings, first);
            lemma_expand_concat(marks, bindings, first, read_value(marks, thunk));
        },
        Comp::Def { .. } => {
            lemma_expand_rest(marks, bindings, read(marks, c));
        },
        Comp::PrimitiveCall { name, args } => {
            lemma_substituted_reading_args(marks, bindings, args);
            let first = seq![Symbol::Primitive(name, args.len())];
            lemma_expand_rest(marks, bindings, first);
            lemma_expand_concat(marks, bindings, first, read_args(marks, args));
        },
        Comp::Lambda { args, body, may_have_complex_effects } => {
            lemma_substituted_reading(marks, bindings, *body);
            let inner = read(marks, *body);
            let scope = opens(args) + inner + closes(args.len());
            lemma_expand_rest(marks, bindings, opens(args));
            lemma_expand_rest(marks, bindings, closes(args.len()));
            lemma_expand_concat(marks, bindings, opens(args), inner);
            lemma_expand_concat(marks, bindings, opens(args) + inner, closes(args.len()));
            let first = seq![Symbol::Lambda(args.len(), may_have_complex_effects)];
            let last = seq![Symbol::EndLambda];
            lemma_expand_rest(marks, bindings, first);
            lemma_expand_rest(marks, bindings, last);
            lemma_expand_concat(marks, bindings, first, scope);
            lemma_expand_concat(marks, bindings, first + scope, last);
        },
    }
}

/// The parameters whose scopes are open after `s`, and whether `s` uses the variable `x` outside of
/// all its scopes. Those of `open` are open before `s`.
pub open spec fn scan(x: usize, open: Seq<usize>, s: Seq<Symbol>) -> (Seq<usize>, bool)
    decreases s.len(),
{
    if s.len() == 0 {
        (open, false)
    } else {
        let (inside, found) = scan(x, open, s.drop_last());
        match s.last() {
            Symbol::Open(y, _) => (inside.push(y), found),
            Symbol::Close => (inside.drop_last(), found),
            Symbol::Var(y) => (inside, found || (y == x && !inside.contains(x))),
            _ => (inside, found),
        }
    }
}

proof fn lemma_scan_concat(x: usize, open: Seq<usize>, a: Seq<Symbol>, b: Seq<Symbol>)
    ensures
        ({
            let (inside, found) = scan(x, open, a);
            let (after, more) = scan(x, inside, b);
            scan(x, open, a + b) == (after, found || more)
        }),
    decreases b.len(),
{
    if b.len() == 0 {
        assert(a + b =~= a);
    } else {
        lemma_scan_concat(x, open, a, b.drop_last());
        assert((a + b).drop_last() =~= a + b.drop_last());
        assert((a + b).last() == b.last());
    }
}

/// Symbols other than parameters, ends of scopes and variables do not matter.
proof fn lemma_scan_one(x: usize, open: Seq<usize>, symbol: Symbol)
    requires
        !(symbol is Open),
        !(symbol is Close),
        !(symbol is Var),
    ensures
        scan(x, open, seq![symbol]) == (open, false),
{
    reveal_with_fuel(scan, 2);
    assert(seq![symbol].drop_last() =~= Seq::empty());
    assert(seq![symbol].last() == symbol);
}

proof fn lemma_scan_opens(x: usize, open: Seq<usize>, params: Seq<(usize, VType)>)
    ensures
        scan(x, open, opens(params)) == (
            open + Seq::new(params.len(), |i: int| params[i].0),
            false,
        ),
    decreases params.len(),
{
    let inside = open + Seq::new(params.len(), |i: int| params[i].0);
    if params.len() == 0 {
        assert(inside =~= open);
    } else {
        let front = params.drop_last();
        lemma_scan_opens(x, open, front);
        assert(opens(params).drop_last() =~= opens(front));
        assert((open + Seq::new(front.len(), |i: int| front[i].0)).push(params.last().0)
            =~= inside);
    }
}

proof fn lemma_scan_closes(x: usize, open: Seq<usize>, n: nat)
    requires
        n <= open.len(),
    ensures
        scan(x, open, closes(n)) == (open.take(open.len() - n), false),
    decreases n,
{
    if n == 0 {
        assert(open.take(open.len() as int) =~= open);
    } else {
        lemma_scan_closes(x, open, (n - 1) as nat);
        assert(closes(n).drop_last() =~= closes((n - 1) as nat));
        assert(open.take(open.len() - (n - 1)).drop_last() =~= open.take(open.len() - n));
    }
}

proof fn lemma_free_by_reading_value(marks: bool, x: usize, open: Seq<usize>, v: Value)
    ensures
        scan(x, open, read_value(marks, v)) == (
            open,
            free_in_value(v).contains(x) && !open.contains(x),
        ),
    decreases v,
{
    match v {
        Value::Var { index } => {
            let s = read_value(marks, v);
            reveal_with_fuel(scan, 2);
            assert(s.drop_last() =~= Seq::empty());
            assert(s.last() == Symbol::Var(index));
        },
        Value::Int { value } => {
            lemma_scan_one(x, open, Symbol::Int(value));
        },
        Value::Thunk { t, may_have_complex_effects } => {
            let first = Symbol::Thunk(may_have_complex_effects);
            lemma_scan_one(x, open, first);
            lemma_scan_one(x, open, Symbol::EndThunk);
            lemma_free_by_reading(marks, x, open, *t);
            lemma_scan_concat(x, open, seq![first], read(marks, *t));
            lemma_scan_concat(x, open, seq![first] + read(marks, *t), seq![Symbol::EndThunk]);
        },
    }
}

proof fn lemma_free_by_reading_args(marks: bool, x: usize, open: Seq<usize>, vs: Seq<Value>)
    ensures
        scan(x, open, read_args(marks, vs)) == (
            open,
            free_in_values(vs).contains(x) && !open.contains(x),
        ),
    decreases vs,
{
    if vs.len() > 0 {
        let front = read_args(marks, vs.drop_last());
        lemma_free_by_reading_args(marks, x, open, vs.drop_last());
        lemma_free_by_reading_value(marks, x, open, vs.last());
        lemma_scan_one(x, open, Symbol::Arg);
        lemma_scan_concat(x, open, front, seq![Symbol::Arg]);
        lemma_scan_concat(x, open, front + seq![Symbol::Arg], read_value(marks, vs.last()));
    }
}

/// A variable is free if it is read somewhere outside of all scopes of a parameter of its index.
pub proof fn lemma_free_by_reading(marks: bool, x: usize, open: Seq<usize>, c: Comp)
    ensures
        scan(x, open, read(marks, c)) == (
            open,
            free_in_comp(c).contains(x) && !open.contains(x),
        ),
    decreases c,
{
    match c {
        Comp::Redex { function, args } => {
            lemma_free_by_reading(marks, x, open, *function);
            lemma_free_by_reading_args(marks, x, open, args);
            lemma_scan_concat(x, open, read(marks, *function), read_args(marks, args));
        },
        Comp::Return { value } => {
            lemma_free_by_reading_value(marks, x, open, value);
            lemma_scan_one(x, open, Symbol::Return);
            lemma_scan_concat(x, open, seq![Symbol::Return], read_value(marks, value));
        },
        Comp::Force { thunk, may_have_complex_effects } => {
            let first = Symbol::Force(may_have_complex_effects);
            lemma_free_by_reading_value(marks, x, open, thunk);
            lemma_scan_one(x, open, first);
            lemma_scan_concat(x, open, seq![first], read_value(marks, thunk));
        },
        Comp::Def { name, may_have_complex_effects } => {
            lemma_scan_one(x, open, Symbol::Def(name, may_have_complex_effects));
        },
        Comp::PrimitiveCall { name, args } => {
            let first = Symbol::Primitive(name, args.len());
            lemma_free_by_reading_args(marks, x, open, args);
            lemma_scan_one(x, open, first);
            lemma_scan_concat(x, open, seq![first], read_args(marks, args));
        },
        Comp::Lambda { args, body, may_have_complex_effects } => {
            let indexes = Seq::new(args.len(), |i: int| args[i].0);
            let inside = open + indexes;
            let inner = read(marks, *body);
            let scope = opens(args) + inner + closes(args.len());
            lemma_scan_opens(x, open, args);
            lemma_free_by_reading(marks, x, inside, *body);
            lemma_scan_closes(x, inside, args.len());
            assert(inside.take(inside.len() - args.len()) =~= open);
            lemma_scan_concat(x, open, opens(args), inner);
            lemma_scan_concat(x, open, opens(args) + inner, closes(args.len()));
            assert(inside.contains(x) <==> open.contains(x) || bound_by(args).contains(x)) by {
                if open.contains(x) {
                    let i = open.index_of(x);
                    assert(inside[i] == x);
                }
                if bound_by(args).contains(x) {
                    let i = choose|i: int| 0 <= i < args.len() && (#[trigger] args[i]).0 == x;
                    assert(inside[open.len() + i] == x);
                }
                if inside.contains(x) {
                    let i = inside.index_of(x);
                    if i < open.len() {
                        assert(open[i] == x);
                    } else {
                        assert(args[i - open.len()].0 == x);
                    }
                }
            }
            let first = Symbol::Lambda(args.len(), may_have_complex_effects);
            lemma_scan_one(x, open, first);
            lemma_scan_one(x, open, Symbol::EndLambda);
            lemma_scan_concat(x, open, seq![first], scope);
            lemma_scan_concat(x, open, seq![first] + scope, seq![Symbol::EndLambda]);
        },
    }
}

/// The sum of what `f` makes of each of the symbols `s`.
pub open spec fn weight(f: spec_fn(Symbol) -> nat, s: Seq<Symbol>) -> nat
    decreases s.len(),
{
    if s.len() == 0 {
        0
    } else {
        weight(f, s.drop_last()) + f(s.last())
    }
}

/// Counts uses of the variable `y`.
pub open spec fn is_use(y: usize) -> spec_fn(Symbol) -> nat {
    |symbol: Symbol|
        if symbol == Symbol::Var(y) {
            1
        } else {
            0
        }
}

/// Counts parameters.
pub open spec fn is_binder() -> spec_fn(Symbol) -> nat {
    |symbol: Symbol|
        if symbol is Open {
            1
        } else {
            0
        }
}

proof fn lemma_weight_concat(f: spec_fn(Symbol) -> nat, a: Seq<Symbol>, b: Seq<Symbol>)
    ensures
        weight(f, a + b) == weight(f, a) + weight(f, b),
    decreases b.len(),
{
    if b.len() == 0 {
        assert(a + b =~= a);
    } else {
        lemma_weight_concat(f, a, b.drop_last());
        assert((a + b).drop_last() =~= a + b.drop_last());
        assert((a + b).last() == b.last());
    }
}

/// Where all symbols weigh the same, it is their number that matters.
proof fn lemma_weight_same(f: spec_fn(Symbol) -> nat, s: Seq<Symbol>, w: nat)
    requires
        w <= 1,
        forall|i: int| 0 <= i < s.len() ==> f(#[trigger] s[i]) == w,
    ensures
        weight(f, s) == if w == 0 {
            0
        } else {
            s.len()
        },
    decreases s.len(),
{
    if s.len() > 0 {
        let front = s.drop_last();
        assert forall|i: int| 0 <= i < front.len() implies f(#[trigger] front[i]) == w by {
            assert(front[i] == s[i]);
        }
        lemma_weight_same(f, front, w);
        assert(f(s[s.len() - 1]) == w);
    }
}

proof fn lemma_weight_one(f: spec_fn(Symbol) -> nat, symbol: Symbol)
    ensures
        weight(f, seq![symbol]) == f(symbol),
{
    reveal_with_fuel(weight, 2);
    assert(seq![symbol].drop_last() =~= Seq::empty());
    assert(seq![symbol].last() == symbol);
}

/// The weights of the parts of a lambda add up.
proof fn lemma_weight_of_lambda(f: spec_fn(Symbol) -> nat, marks: bool, c: Comp)
    requires
        c is Lambda,
        f(Symbol::Close) == 0,
        f(Symbol::EndLambda) == 0,
        f(Symbol::Lambda(c->Lambda_args.len(), c->Lambda_may_have_complex_effects)) == 0,
    ensures
        weight(f, read(marks, c)) == weight(f, opens(c->Lambda_args)) + weight(
            f,
            read(marks, *c->Lambda_body),
        ),
{
    let args = c->Lambda_args;
    let inner = read(marks, *c->Lambda_body);
    let scope = opens(args) + inner + closes(args.len());
    let first = Symbol::Lambda(args.len(), c->Lambda_may_have_complex_effects);
    lemma_weight_same(f, closes(args.len()), 0);
    lemma_weight_concat(f, opens(args), inner);
    lemma_weight_concat(f, opens(args) + inner, closes(args.len()));
    lemma_weight_one(f, first);
    lemma_weight_one(f, Symbol::EndLambda);
    lemma_weight_concat(f, seq![first], scope);
    lemma_weight_concat(f, seq![first] + scope, seq![Symbol::EndLambda]);
}

proof fn lemma_weight_of_thunk(f: spec_fn(Symbol) -> nat, marks: bool, v: Value)
    requires
        v is Thunk,
        f(Symbol::EndThunk) == 0,
        f(Symbol::Thunk(v->Thunk_may_have_complex_effects)) == 0,
    ensures
        weight(f, read_value(marks, v)) == weight(f, read(marks, *v->Thunk_t)),
{
    let first = Symbol::Thunk(v->Thunk_may_have_complex_effects);
    let inner = read(marks, *v->Thunk_t);
    lemma_weight_one(f, first);
    lemma_weight_one(f, Symbol::EndThunk);
    lemma_weight_concat(f, seq![first], inner);
    lemma_weight_concat(f, seq![first] + inner, seq![Symbol::EndThunk]);
}

proof fn lemma_uses_by_reading_value(marks: bool, y: usize, v: Value)
    ensures
        weight(is_use(y), read_value(marks, v)) == uses_in_value(y, v),
    decreases v,
{
    let f = is_use(y);
    match v {
        Value::Var { index } => {
            lemma_weight_one(f, Symbol::Var(index));
        },
        Value::Int { value } => {
            lemma_weight_one(f, Symbol::Int(value));
        },
        Value::Thunk { t, .. } => {
            lemma_weight_of_thunk(f, marks, v);
            lemma_uses_by_reading(marks, y, *t);
        },
    }
}

proof fn lemma_uses_by_reading_args(marks: bool, y: usize, vs: Seq<Value>)
    ensures
        weight(is_use(y), read_args(marks, vs)) == uses_in_values(y, vs),
    decreases vs,
{
    if vs.len() > 0 {
        let f = is_use(y);
        let front = read_args(marks, vs.drop_last());
        lemma_uses_by_reading_args(marks, y, vs.drop_last());
        lemma_uses_by_reading_value(marks, y, vs.last());
        lemma_weight_one(f, Symbol::Arg);
        lemma_weight_concat(f, front, seq![Symbol::Arg]);
        lemma_weight_concat(f, front + seq![Symbol::Arg], read_value(marks, vs.last()));
    }
}

/// A variable is used as often as it is read.
pub proof fn lemma_uses_by_reading(marks: bool, y: usize, c: Comp)
    ensures
        weight(is_use(y), read(marks, c)) == uses(y, c),
    decreases c,
{
    let f = is_use(y);
    match c {
        Comp::Redex { function, args } => {
            lemma_uses_by_reading(marks, y, *function);
            lemma_uses_by_reading_args(marks, y, args);
            lemma_weight_concat(f, read(marks, *function), read_args(marks, args));
        },
        Comp::Return { value } => {
            lemma_uses_by_reading_value(marks, y, value);
            lemma_weight_one(f, Symbol::Return);
            lemma_weight_concat(f, seq![Symbol::Return], read_value(marks, value));
        },
        Comp::Force { thunk, may_have_complex_effects } => {
            let first = Symbol::Force(may_have_complex_effects);
            lemma_uses_by_reading_value(marks, y, thunk);
            lemma_weight_one(f, first);
            lemma_weight_concat(f, seq![first], read_value(marks, thunk));
        },
        Comp::Def { name, may_have_complex_effects } => {
            lemma_weight_one(f, Symbol::Def(name, may_have_complex_effects));
        },
        Comp::PrimitiveCall { name, args } => {
            let first = Symbol::Primitive(name, args.len());
            lemma_uses_by_reading_args(marks, y, args);
            lemma_weight_one(f, first);
            lemma_weight_concat(f, seq![first], read_args(marks, args));
        },
        Comp::Lambda { args, body, .. } => {
            lemma_uses_by_reading(marks, y, *body);
            lemma_weight_same(f, opens(args), 0);
            lemma_weight_of_lambda(f, marks, c);
        },
    }
}

proof fn lemma_binders_by_reading_value(marks: bool, v: Value)
    ensures
        weight(is_binder(), read_value(marks, v)) == binders_in_value(v),
    decreases v,
{
    let f = is_binder();
    match v {
        Value::Var { index } => {
            lemma_weight_one(f, Symbol::Var(index));
        },
        Value::Int { value } => {
            lemma_weight_one(f, Symbol::Int(value));
        },
        Value::Thunk { t, .. } => {
            lemma_weight_of_thunk(f, marks, v);
            lemma_binders_by_reading(marks, *t);
        },
    }
}

proof fn lemma_binders_by_reading_args(marks: bool, vs: Seq<Value>)
    ensures
        weight(is_binder(), read_args(marks, vs)) == binders_in_values(vs),
    decreases vs,
{
    if vs.len() > 0 {
        let f = is_binder();
        let front = read_args(marks, vs.drop_last());
        lemma_binders_by_reading_args(marks, vs.drop_last());
        lemma_binders_by_reading_value(marks, vs.last());
        lemma_weight_one(f, Symbol::Arg);
        lemma_weight_concat(f, front, seq![Symbol::Arg]);
        lemma_weight_concat(f, front + seq![Symbol::Arg], read_value(marks, vs.last()));
    }
}

/// There are as many binders as parameters that are read.
pub proof fn lemma_binders_by_reading(marks: bool, c: Comp)
    ensures
        weight(is_binder(), read(marks, c)) == binders_in_comp(c),
    decreases c,
{
    let f = is_binder();
    match c {
        Comp::Redex { function, args } => {
            lemma_binders_by_reading(marks, *function);
            lemma_binders_by_reading_args(marks, args);
            lemma_weight_concat(f, read(marks, *function), read_args(marks, args));
        },
        Comp::Return { value } => {
            lemma_binders_by_reading_value(marks, value);
            lemma_weight_one(f, Symbol::Return);
            lemma_weight_concat(f, seq![Symbol::Return], read_value(marks, value));
        },
        Comp::Force { thunk, may_have_complex_effects } => {
            let first = Symbol::Force(may_have_complex_effects);
            lemma_binders_by_reading_value(marks, thunk);
            lemma_weight_one(f, first);
            lemma_weight_concat(f, seq![first], read_value(marks, thunk));
        },
        Comp::Def { name, may_have_complex_effects } => {
            lemma_weight_one(f, Symbol::Def(name, may_have_complex_effects));
        },
        Comp::PrimitiveCall { name, args } => {
            let first = Symbol::Primitive(name, args.len());
            lemma_binders_by_reading_args(marks, args);
            lemma_weight_one(f, first);
            lemma_weight_concat(f, seq![first], read_args(marks, args));
        },
        Comp::Lambda { args, body, .. } => {
            lemma_binders_by_reading(marks, *body);
            lemma_weight_same(f, opens(args), 1);
            lemma_weight_of_lambda(f, marks, c);
        },
    }
}

/// Whether the index of a symbol, if it has one, is less than `bound`.
pub open spec fn index_below(bound: nat, symbol: Symbol) -> bool {
    match symbol {
        Symbol::Var(x) => x < bound,
        Symbol::Open(x, _) => x < bound,
        _ => true,
    }
}

/// Whether all indexes of the symbols `s` are less than `bound`.
pub open spec fn indexes_below(bound: nat, s: Seq<Symbol>) -> bool {
    forall|i: int| 0 <= i < s.len() ==> index_below(bound, #[trigger] s[i])
}

proof fn lemma_below_concat(bound: nat, a: Seq<Symbol>, b: Seq<Symbol>)
    ensures
        indexes_below(bound, a + b) <==> indexes_below(bound, a) && indexes_below(bound, b),
{
    let s = a + b;
    if indexes_below(bound, s) {
        assert forall|i: int| 0 <= i < a.len() implies index_below(bound, #[trigger] a[i]) by {
            assert(s[i] == a[i]);
        }
        assert forall|i: int| 0 <= i < b.len() implies index_below(bound, #[trigger] b[i]) by {
            assert(s[a.len() + i] == b[i]);
        }
    }
}

proof fn lemma_opens_below(bound: nat, params: Seq<(usize, VType)>)
    ensures
        indexes_below(bound, opens(params)) <==> top_of_params(params) <= bound,
    decreases params.len(),
{
    if params.len() > 0 {
        let front = params.drop_last();
        let last = Symbol::Open(params.last().0, params.last().1);
        lemma_opens_below(bound, front);
        assert(opens(params) =~= opens(front) + seq![last]);
        lemma_below_concat(bound, opens(front), seq![last]);
        assert(indexes_below(bound, seq![last]) <==> index_below(bound, last)) by {
            assert(seq![last][0] == last);
        }
    }
}

proof fn lemma_top_by_reading_value(marks: bool, bound: nat, v: Value)
    ensures
        indexes_below(bound, read_value(marks, v)) <==> top_of_value(v) <= bound,
    decreases v,
{
    match v {
        Value::Var { index } => {
            assert(read_value(marks, v)[0] == Symbol::Var(index));
        },
        Value::Int { value } => {},
        Value::Thunk { t, may_have_complex_effects } => {
            let first = seq![Symbol::Thunk(may_have_complex_effects)];
            lemma_top_by_reading(marks, bound, *t);
            lemma_below_concat(bound, first, read(marks, *t));
            lemma_below_concat(bound, first + read(marks, *t), seq![Symbol::EndThunk]);
        },
    }
}

proof fn lemma_top_by_reading_args(marks: bool, bound: nat, vs: Seq<Value>)
    ensures
        indexes_below(bound, read_args(marks, vs)) <==> top_of_values(vs) <= bound,
    decreases vs,
{
    if vs.len() > 0 {
        let front = read_args(marks, vs.drop_last());
        lemma_top_by_reading_args(marks, bound, vs.drop_last());
        lemma_top_by_reading_value(marks, bound, vs.last());
        lemma_below_concat(bound, front, seq![Symbol::Arg]);
        lemma_below_concat(bound, front + seq![Symbol::Arg], read_value(marks, vs.last()));
    }
}

/// The least index that is greater than all is the least bound of everything that is read.
pub proof fn lemma_top_by_reading(marks: bool, bound: nat, c: Comp)
    ensures
        indexes_below(bound, read(marks, c)) <==> top(c) <= bound,
    decreases c,
{
    match c {
        Comp::Redex { function, args } => {
            lemma_top_by_reading(marks, bound, *function);
            lemma_top_by_reading_args(marks, bound, args);
            lemma_below_concat(bound, read(marks, *function), read_args(marks, args));
        },
        Comp::Return { value } => {
            lemma_top_by_reading_value(marks, bound, value);
            lemma_below_concat(bound, seq![Symbol::Return], read_value(marks, value));
        },
        Comp::Force { thunk, may_have_complex_effects } => {
            let first = seq![Symbol::Force(may_have_complex_effects)];
            lemma_top_by_reading_value(marks, bound, thunk);
            lemma_below_concat(bound, first, read_value(marks, thunk));
        },
        Comp::Def { .. } => {},
        Comp::PrimitiveCall { name, args } => {
            let first = seq![Symbol::Primitive(name, args.len())];
            lemma_top_by_reading_args(marks, bound, args);
            lemma_below_concat(bound, first, read_args(marks, args));
        },
        Comp::Lambda { args, body, may_have_complex_effects } => {
            let inner = read(marks, *body);
            let scope = opens(args) + inner + closes(args.len());
            let first = seq![Symbol::Lambda(args.len(), may_have_complex_effects)];
            lemma_top_by_reading(marks, bound, *body);
            lemma_opens_below(bound, args);
            lemma_below_concat(bound, opens(args), inner);
            lemma_below_concat(bound, opens(args) + inner, closes(args.len()));
            lemma_below_concat(bound, first, scope);
            lemma_below_concat(bound, first + scope, seq![Symbol::EndLambda]);
        },
    }
}

} // verus!
