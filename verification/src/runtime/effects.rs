//! What the functions of the runtime do to single words.
use crate::runtime::handler::{Captured, Handler, HandlerEntry};
use crate::runtime::laws::{lemma_comparison, lemma_equal_fuel, lemma_pushed};
use crate::runtime::memory::{has_words, is_among, nth, words_at, write_words, Memory};
use crate::runtime::runtime_utils::{
    absolute, allocated, args_end, can_force, can_prepare, can_register, can_resume, comparison,
    equal, equal_values, force, forced, fragment_len, handled_at, has_match, implementation_args,
    is_match, lemma_force, lemma_forced, lemma_match_unique, lemma_split_chain_addresses, matching,
    none_match, operations_at, prepared, ready_to_resume, registered, resumed, same_words,
    split_chain, with_results, zeros, CAPTURED_WORDS,
};
use crate::runtime::types::{normal_ptr, Eff, ThunkPtr, Uniform};
use vstd::prelude::*;

verus! {

/// Whether `a` and `b` are two pointers of the same kind, whose blocks have the same size.
pub open spec fn same_block_sizes(mem: Map<int, usize>, a: Uniform, b: Uniform) -> bool {
    &&& a % 2 == 1
    &&& a % 4 == b % 4
    &&& mem.contains_key(a - a % 4 - 8)
    &&& mem.contains_key(b - b % 4 - 8)
    &&& mem[a - a % 4 - 8] == mem[b - b % 4 - 8]
}

/// Whether the `i`-th words of the blocks of `a` and `b` compare with the result `expected`: in
/// blocks of values as values, and in others as words.
pub open spec fn words_compare(
    mem: Map<int, usize>,
    a: Uniform,
    b: Uniform,
    i: int,
    expected: bool,
) -> bool {
    let x = a - a % 4 + 8 * i;
    let y = b - b % 4 + 8 * i;
    &&& mem.contains_key(x)
    &&& mem.contains_key(y)
    &&& if a % 4 == 1 {
        comparison(mem, mem[x], mem[y]) == Some(expected)
    } else {
        (mem[x] == mem[y]) == expected
    }
}

/// Whether the words from the `i`-th to the `n`-th at `a` and `b` are there and the same.
spec fn words_agree(mem: Map<int, usize>, a: int, b: int, i: int, n: int) -> bool {
    forall|j: int|
        i <= j < n ==> mem.contains_key(#[trigger] nth(a, j)) && mem.contains_key(nth(b, j))
            && mem[nth(a, j)] == mem[nth(b, j)]
}

proof fn lemma_same_words(mem: Map<int, usize>, a: int, b: int, i: int, n: int)
    requires
        0 <= i,
    ensures
        same_words(mem, a, b, i, n) == Some(true) <==> words_agree(mem, a, b, i, n),
    decreases n - i,
{
    if i < n {
        lemma_same_words(mem, a, b, i + 1, n);
        if same_words(mem, a, b, i, n) == Some(true) {
            assert(same_words(mem, a, b, i + 1, n) == Some(true));
            assert forall|j: int| i <= j < n implies mem.contains_key(#[trigger] nth(a, j))
                && mem.contains_key(nth(b, j)) && mem[nth(a, j)] == mem[nth(b, j)] by {
                if j == i {
                    assert(nth(a, j) == nth(a, i) && nth(b, j) == nth(b, i));
                }
            }
        } else if words_agree(mem, a, b, i, n) {
            assert(mem.contains_key(nth(a, i)));
        }
    }
}

proof fn lemma_words_differ(mem: Map<int, usize>, a: int, b: int, i: int, k: int, n: int)
    requires
        0 <= i <= k < n,
        forall|j: int|
            i <= j <= k ==> mem.contains_key(#[trigger] nth(a, j)) && mem.contains_key(nth(b, j)),
        forall|j: int| i <= j < k ==> mem[#[trigger] nth(a, j)] == mem[nth(b, j)],
        mem[nth(a, k)] != mem[nth(b, k)],
    ensures
        same_words(mem, a, b, i, n) == Some(false),
    decreases k - i,
{
    assert(mem.contains_key(nth(a, i)));
    if i < k {
        lemma_words_differ(mem, a, b, i + 1, k, n);
    }
}

/// If values compare as equal, so do all of them.
proof fn lemma_equal_values_all(
    fuel: nat,
    mem: Map<int, usize>,
    a: int,
    b: int,
    i: int,
    n: int,
    j: int,
)
    requires
        equal_values(fuel, mem, a, b, i, n) == Some(true),
        i <= j < n,
    ensures
        mem.contains_key(nth(a, j)),
        mem.contains_key(nth(b, j)),
        comparison(mem, mem[nth(a, j)], mem[nth(b, j)]) == Some(true),
    decreases n - i,
{
    if i == j {
        lemma_comparison(fuel, mem, mem[nth(a, i)], mem[nth(b, i)]);
    } else {
        lemma_equal_values_all(fuel, mem, a, b, i + 1, n, j);
    }
}

/// If the first values compare as equal, up to one that does not or to the end, that can be told
/// within some depth.
proof fn lemma_equal_values_upto(
    mem: Map<int, usize>,
    a: int,
    b: int,
    i: int,
    k: int,
    n: int,
) -> (fuel: nat)
    requires
        0 <= i <= k <= n,
        forall|j: int|
            i <= j < k ==> mem.contains_key(#[trigger] nth(a, j)) && mem.contains_key(nth(b, j))
                && comparison(mem, mem[nth(a, j)], mem[nth(b, j)]) == Some(true),
        k < n ==> mem.contains_key(nth(a, k)) && mem.contains_key(nth(b, k)) && comparison(
            mem,
            mem[nth(a, k)],
            mem[nth(b, k)],
        ) == Some(false),
    ensures
        forall|more: nat|
            fuel <= more ==> #[trigger] equal_values(more, mem, a, b, i, n) == Some(k == n),
    decreases k - i,
{
    if i == n {
        0
    } else {
        let x = mem[nth(a, i)];
        let y = mem[nth(b, i)];
        assert(i < k ==> mem.contains_key(nth(a, i)));
        assert(comparison(mem, x, y) == Some(i < k));
        let here = choose|fuel: nat| (#[trigger] equal(fuel, mem, x, y)) is Some;
        let rest = if i < k {
            lemma_equal_values_upto(mem, a, b, i + 1, k, n)
        } else {
            0
        };
        let fuel = here + rest;
        assert forall|more: nat| fuel <= more implies #[trigger] equal_values(
            more,
            mem,
            a,
            b,
            i,
            n,
        ) == Some(k == n) by {
            lemma_equal_fuel(here, more, mem, x, y);
            if i < k {
                assert(equal_values(more, mem, a, b, i + 1, n) == Some(k == n));
            }
        }
        fuel
    }
}

/// Two different values are equal if and only if they are pointers of the same kind to blocks of
/// the same size, all words of which compare as equal. They are told to differ where they are of
/// different kinds, where both are raw, where the sizes of their blocks differ, and where the words
/// up to some are equal and that differs.
pub proof fn lemma_comparison_is_deep(mem: Map<int, usize>, a: Uniform, b: Uniform)
    ensures
        a == b ==> comparison(mem, a, b) == Some(true),
        a != b ==> (comparison(mem, a, b) == Some(true) <==> same_block_sizes(mem, a, b)
            && forall|i: int|
            0 <= i < mem[a - a % 4 - 8] ==> #[trigger] words_compare(mem, a, b, i, true)),
        a % 2 == 0 && a != b ==> comparison(mem, a, b) == Some(false),
        a % 2 == 1 && a % 4 != b % 4 ==> comparison(mem, a, b) == Some(false),
        a != b && a % 2 == 1 && a % 4 == b % 4 && mem.contains_key(a - a % 4 - 8)
            && mem.contains_key(b - b % 4 - 8) && mem[a - a % 4 - 8] != mem[b - b % 4 - 8]
            ==> comparison(mem, a, b) == Some(false),
        a != b && same_block_sizes(mem, a, b) && (exists|k: int|
            0 <= k < mem[a - a % 4 - 8] && (#[trigger] words_compare(mem, a, b, k, false)) && (
            forall|i: int| 0 <= i < k ==> #[trigger] words_compare(mem, a, b, i, true)))
            ==> comparison(mem, a, b) == Some(false),
{
    let a_ptr = normal_ptr(a as int);
    let b_ptr = normal_ptr(b as int);
    assert(a_ptr == a - a % 4 && b_ptr == b - b % 4);
    if equal(0, mem, a, b) is Some {
        lemma_comparison(0, mem, a, b);
    }
    if a != b && a % 2 == 1 && a % 4 == b % 4 {
        if same_block_sizes(mem, a, b) {
            if a % 4 == 1 {
                lemma_struct_comparison(mem, a, b);
            } else {
                lemma_primitive_comparison(mem, a, b);
            }
        } else if comparison(mem, a, b) == Some(true) {
            let fuel = choose|fuel: nat| (#[trigger] equal(fuel, mem, a, b)) is Some;
            assert(equal(fuel, mem, a, b) == Some(true));
        }
    }
}

/// As [`lemma_comparison_is_deep`], for pointers to blocks of primitive data.
proof fn lemma_primitive_comparison(mem: Map<int, usize>, a: Uniform, b: Uniform)
    requires
        a != b,
        a % 4 == 3,
        same_block_sizes(mem, a, b),
    ensures
        comparison(mem, a, b) == Some(true) <==> forall|i: int|
            0 <= i < mem[a - a % 4 - 8] ==> #[trigger] words_compare(mem, a, b, i, true),
        (exists|k: int|
            0 <= k < mem[a - a % 4 - 8] && (#[trigger] words_compare(mem, a, b, k, false)) && (
            forall|i: int| 0 <= i < k ==> #[trigger] words_compare(mem, a, b, i, true)))
            ==> comparison(mem, a, b) == Some(false),
{
    let a_ptr = normal_ptr(a as int);
    let b_ptr = normal_ptr(b as int);
    let n = mem[a_ptr - 8] as int;
    let same = same_words(mem, a_ptr, b_ptr, 0, n);
    lemma_same_words(mem, a_ptr, b_ptr, 0, n);
    assert forall|fuel: nat| #[trigger] equal(fuel, mem, a, b) == same by {}
    assert(comparison(mem, a, b) == same) by {
        if same is Some {
            assert(equal(0, mem, a, b) is Some);
            lemma_comparison(0, mem, a, b);
        }
    }
    if same == Some(true) {
        assert forall|i: int| 0 <= i < n implies #[trigger] words_compare(
            mem,
            a,
            b,
            i,
            true,
        ) by {
            assert(mem.contains_key(nth(a_ptr, i)));
        }
    }
    if forall|i: int| 0 <= i < n ==> #[trigger] words_compare(mem, a, b, i, true) {
        assert forall|j: int| 0 <= j < n implies mem.contains_key(#[trigger] nth(a_ptr, j))
            && mem.contains_key(nth(b_ptr, j)) && mem[nth(a_ptr, j)] == mem[nth(b_ptr, j)] by {
            assert(words_compare(mem, a, b, j, true));
        }
        assert(words_agree(mem, a_ptr, b_ptr, 0, n));
    }
    if exists|k: int|
        0 <= k < n && (#[trigger] words_compare(mem, a, b, k, false)) && (forall|i: int|
            0 <= i < k ==> #[trigger] words_compare(mem, a, b, i, true)) {
        let k = choose|k: int|
            0 <= k < n && (#[trigger] words_compare(mem, a, b, k, false)) && (forall|i: int|
                0 <= i < k ==> #[trigger] words_compare(mem, a, b, i, true));
        assert forall|j: int| 0 <= j <= k implies mem.contains_key(#[trigger] nth(a_ptr, j))
            && mem.contains_key(nth(b_ptr, j)) by {
            if j < k {
                assert(words_compare(mem, a, b, j, true));
            }
        }
        assert forall|j: int| 0 <= j < k implies mem[#[trigger] nth(a_ptr, j)] == mem[nth(
            b_ptr,
            j,
        )] by {
            assert(words_compare(mem, a, b, j, true));
        }
        lemma_words_differ(mem, a_ptr, b_ptr, 0, k, n);
    }
}

/// As [`lemma_comparison_is_deep`], for pointers to blocks of values.
proof fn lemma_struct_comparison(mem: Map<int, usize>, a: Uniform, b: Uniform)
    requires
        a != b,
        a % 4 == 1,
        same_block_sizes(mem, a, b),
    ensures
        comparison(mem, a, b) == Some(true) <==> forall|i: int|
            0 <= i < mem[a - a % 4 - 8] ==> #[trigger] words_compare(mem, a, b, i, true),
        (exists|k: int|
            0 <= k < mem[a - a % 4 - 8] && (#[trigger] words_compare(mem, a, b, k, false)) && (
            forall|i: int| 0 <= i < k ==> #[trigger] words_compare(mem, a, b, i, true)))
            ==> comparison(mem, a, b) == Some(false),
{
    let a_ptr = normal_ptr(a as int);
    let b_ptr = normal_ptr(b as int);
    let n = mem[a_ptr - 8] as int;
    if comparison(mem, a, b) == Some(true) {
        let fuel = choose|fuel: nat| (#[trigger] equal(fuel, mem, a, b)) is Some;
        assert(equal_values((fuel - 1) as nat, mem, a_ptr, b_ptr, 0, n) == Some(true));
        assert forall|i: int| 0 <= i < n implies #[trigger] words_compare(
            mem,
            a,
            b,
            i,
            true,
        ) by {
            lemma_equal_values_all((fuel - 1) as nat, mem, a_ptr, b_ptr, 0, n, i);
        }
    }
    if forall|i: int| 0 <= i < n ==> #[trigger] words_compare(mem, a, b, i, true) {
        lemma_struct_upto(mem, a, b, n);
    }
    if exists|k: int|
        0 <= k < n && (#[trigger] words_compare(mem, a, b, k, false)) && (forall|i: int|
            0 <= i < k ==> #[trigger] words_compare(mem, a, b, i, true)) {
        let k = choose|k: int|
            0 <= k < n && (#[trigger] words_compare(mem, a, b, k, false)) && (forall|i: int|
                0 <= i < k ==> #[trigger] words_compare(mem, a, b, i, true));
        lemma_struct_upto(mem, a, b, k);
    }
}

/// Blocks of values compare as equal or not as their words do up to the `k`-th.
proof fn lemma_struct_upto(mem: Map<int, usize>, a: Uniform, b: Uniform, k: int)
    requires
        a != b,
        a % 4 == 1,
        same_block_sizes(mem, a, b),
        0 <= k <= mem[a - a % 4 - 8],
        forall|i: int| 0 <= i < k ==> #[trigger] words_compare(mem, a, b, i, true),
        k < mem[a - a % 4 - 8] ==> words_compare(mem, a, b, k, false),
    ensures
        comparison(mem, a, b) == Some(k == mem[a - a % 4 - 8]),
{
    let a_ptr = normal_ptr(a as int);
    let b_ptr = normal_ptr(b as int);
    let n = mem[a_ptr - 8] as int;
    assert forall|j: int| 0 <= j < k implies mem.contains_key(#[trigger] nth(a_ptr, j))
        && mem.contains_key(nth(b_ptr, j)) && comparison(
        mem,
        mem[nth(a_ptr, j)],
        mem[nth(b_ptr, j)],
    ) == Some(true) by {
        assert(words_compare(mem, a, b, j, true));
    }
    let fuel = lemma_equal_values_upto(mem, a_ptr, b_ptr, 0, k, n);
    assert(equal_values(fuel, mem, a_ptr, b_ptr, 0, n) == Some(k == n));
    assert(equal(fuel + 1, mem, a, b) == Some(k == n));
    lemma_comparison(fuel + 1, mem, a, b);
}

/// The operations of one kind that an entry lists: effect, implementation and number of arguments.
pub open spec fn listed(entry: HandlerEntry, simple: bool) -> Seq<(Eff, ThunkPtr, usize)> {
    match entry {
        HandlerEntry::Handler(handler) if simple => handler.simple_handler@,
        HandlerEntry::Handler(handler) => handler.complex_handler@,
        HandlerEntry::Marker => Seq::empty(),
    }
}

/// Whether the effect of the `k`-th operation of the `i`-th entry compares to `eff` with the result
/// `expected`.
pub open spec fn is_listed_for(
    mem: Map<int, usize>,
    handlers: Seq<HandlerEntry>,
    eff: Eff,
    simple: bool,
    i: int,
    k: int,
    expected: bool,
) -> bool {
    comparison(mem, eff, listed(handlers[i], simple)[k].0) == Some(expected)
}

/// What is found for an effect is the first operation for it of the innermost entry that has one:
/// its effect compares as equal, those of the operations before it in the entry and of all
/// operations of the entries further in do not. Where there is such an operation, it is found.
pub proof fn lemma_found_is_innermost(
    mem: Map<int, usize>,
    handlers: Seq<HandlerEntry>,
    eff: Eff,
    simple: bool,
    i: int,
    k: int,
)
    requires
        0 <= i < handlers.len(),
        0 <= k < listed(handlers[i], simple).len(),
    ensures
        ({
            &&& is_listed_for(mem, handlers, eff, simple, i, k, true)
            &&& forall|j: int|
                0 <= j < k ==> #[trigger] is_listed_for(mem, handlers, eff, simple, i, j, false)
            &&& forall|d: int, j: int|
                i < d < handlers.len() && 0 <= j < listed(handlers[d], simple).len()
                    ==> #[trigger] is_listed_for(mem, handlers, eff, simple, d, j, false)
        }) ==> {
            let op = listed(handlers[i], simple)[k];
            &&& has_match(mem, handlers, eff, simple)
            &&& matching(mem, handlers, eff, simple) == (handlers.len() - 1 - i, op.1, op.2)
        },
{
    let depth = handlers.len() - 1 - i;
    let ops = operations_at(handlers, simple, depth);
    assert(ops == listed(handlers[i], simple));
    if is_listed_for(mem, handlers, eff, simple, i, k, true) && (forall|j: int|
        0 <= j < k ==> #[trigger] is_listed_for(mem, handlers, eff, simple, i, j, false)) && (
    forall|d: int, j: int|
        i < d < handlers.len() && 0 <= j < listed(handlers[d], simple).len()
            ==> #[trigger] is_listed_for(mem, handlers, eff, simple, d, j, false)) {
        assert forall|j: int| 0 <= j < k implies comparison(mem, eff, (#[trigger] ops[j]).0)
            == Some(false) by {
            assert(is_listed_for(mem, handlers, eff, simple, i, j, false));
        }
        assert forall|d: int| 0 <= d < depth implies {
            let ops = #[trigger] operations_at(handlers, simple, d);
            none_match(mem, eff, ops, ops.len() as int)
        } by {
            let inner = operations_at(handlers, simple, d);
            let e = handlers.len() - 1 - d;
            assert(inner == listed(handlers[e], simple));
            assert forall|j: int| 0 <= j < inner.len() implies comparison(
                mem,
                eff,
                (#[trigger] inner[j]).0,
            ) == Some(false) by {
                assert(is_listed_for(mem, handlers, eff, simple, e, j, false));
            }
        }
        assert(is_match(mem, handlers, eff, simple, depth, k));
        let (depth1, k1) = choose|depth1: int, k1: int| #[trigger]
            is_match(mem, handlers, eff, simple, depth1, k1);
        lemma_match_unique(mem, handlers, eff, simple, depth, k, depth1, k1);
    }
}

/// Where an operation is found for an effect, an entry has it: the effect compares as equal there,
/// and with no operation before it or further in.
pub proof fn lemma_found_is_listed(
    mem: Map<int, usize>,
    handlers: Seq<HandlerEntry>,
    eff: Eff,
    simple: bool,
) -> (r: (int, int))
    requires
        has_match(mem, handlers, eff, simple),
    ensures
        ({
            let (i, k) = r;
            let op = listed(handlers[i], simple)[k];
            &&& 0 <= i < handlers.len()
            &&& 0 <= k < listed(handlers[i], simple).len()
            &&& matching(mem, handlers, eff, simple) == (handlers.len() - 1 - i, op.1, op.2)
            &&& is_listed_for(mem, handlers, eff, simple, i, k, true)
            &&& forall|j: int|
                0 <= j < k ==> #[trigger] is_listed_for(mem, handlers, eff, simple, i, j, false)
            &&& forall|d: int, j: int|
                i < d < handlers.len() && 0 <= j < listed(handlers[d], simple).len()
                    ==> #[trigger] is_listed_for(mem, handlers, eff, simple, d, j, false)
        }),
{
    let (depth, k) = choose|depth: int, k: int| #[trigger]
        is_match(mem, handlers, eff, simple, depth, k);
    let i = handlers.len() - 1 - depth;
    let ops = operations_at(handlers, simple, depth);
    assert(ops == listed(handlers[i], simple));
    assert forall|j: int| 0 <= j < k implies #[trigger] is_listed_for(
        mem,
        handlers,
        eff,
        simple,
        i,
        j,
        false,
    ) by {
        assert(comparison(mem, eff, ops[j].0) == Some(false));
    }
    assert forall|d: int, j: int|
        i < d < handlers.len() && 0 <= j < listed(
            handlers[d],
            simple,
        ).len() implies #[trigger] is_listed_for(mem, handlers, eff, simple, d, j, false) by {
        let inner = operations_at(handlers, simple, handlers.len() - 1 - d);
        assert(inner == listed(handlers[d], simple));
        assert(comparison(mem, eff, inner[j].0) == Some(false));
    }
    (i, k)
}

/// A function is its own thunk: forcing it pushes nothing and gives its address.
pub proof fn lemma_function_is_forced(mem: Map<int, usize>, thunk: int, tip: int)
    requires
        thunk % 4 == 3,
    ensures
        can_force(mem, thunk, tip),
        forced(mem, thunk, tip).mem == mem,
        forced(mem, thunk, tip).tip == tip,
        forced(mem, thunk, tip).func == thunk - 3,
{
    assert(force(0, mem, thunk, tip) is Some);
    lemma_forced(0, mem, thunk, tip);
}

/// Any other thunk is a block of a further thunk, the number of arguments, and these. Forcing it is
/// forcing the further thunk with the arguments on the argument stack, in their order and below
/// what was there: `mem1` is the memory with them.
pub proof fn lemma_thunk_is_forced(
    mem: Map<int, usize>,
    thunk: int,
    tip: int,
    mem1: Map<int, usize>,
)
    requires
        thunk % 4 != 3,
        ({
            let ptr = thunk - thunk % 4;
            let n = mem[ptr + 8] as int;
            &&& mem.contains_key(ptr)
            &&& mem.contains_key(ptr + 8)
            &&& forall|i: int|
                0 <= i < n ==> mem.contains_key(#[trigger] nth(ptr + 16, i)) && mem.contains_key(
                    tip - 8 * n + 8 * i,
                )
            &&& ptr + 16 + 8 * n <= tip - 8 * n || tip <= ptr
            &&& mem1.dom() == mem.dom()
            &&& forall|i: int|
                0 <= i < n ==> mem1[#[trigger] nth(tip - 8 * n, i)] == mem[ptr + 16 + 8 * i]
            &&& forall|a: int| !(tip - 8 * n <= a < tip) ==> #[trigger] mem1[a] == mem[a]
            &&& forall|a: int|
                tip - 8 * n <= a < tip && (a - tip) % 8 != 0 ==> #[trigger] mem1[a] == mem[a]
        }),
    ensures
        ({
            let ptr = thunk - thunk % 4;
            let n = mem[ptr + 8] as int;
            &&& can_force(mem, thunk, tip) <==> can_force(mem1, mem[ptr] as int, tip - 8 * n)
            &&& can_force(mem, thunk, tip) ==> forced(mem, thunk, tip) == forced(
                mem1,
                mem[ptr] as int,
                tip - 8 * n,
            )
        }),
{
    let ptr = thunk - thunk % 4;
    let n = mem[ptr + 8] as int;
    let next = mem[ptr] as int;
    assert(normal_ptr(thunk) == ptr);
    assert(nth(ptr, 0) == ptr && nth(ptr, 1) == ptr + 8 && nth(ptr, 2) == ptr + 16);
    assert(has_words(mem, ptr, 2));
    assert forall|i: int| 0 <= i < n implies mem.contains_key(#[trigger] nth(nth(ptr, 2), i)) by {
        assert(mem.contains_key(nth(ptr + 16, i)));
    }
    assert forall|i: int| 0 <= i < n implies mem.contains_key(#[trigger] nth(nth(tip, -n), i)) by {
        assert(mem.contains_key(nth(ptr + 16, i)));
    }
    lemma_pushed(mem, ptr, tip, n as nat);
    let values = words_at(mem, nth(ptr, 2), n as nat);
    let pushed = write_words(mem, nth(tip, -n), values);
    assert forall|a: int| pushed.contains_key(a) <==> mem1.contains_key(a) by {
        if is_among(a, nth(tip, -n), n as nat) {
            assert(a == nth(nth(tip, -n), (a - nth(tip, -n)) / 8));
        }
        assert(mem1.contains_key(a) == mem1.dom().contains(a));
        assert(mem.contains_key(a) == mem.dom().contains(a));
    }
    assert forall|a: int| pushed.contains_key(a) implies #[trigger] pushed[a] == mem1[a] by {
        if is_among(a, nth(tip, -n), n as nat) {
            let i = (a - nth(tip, -n)) / 8;
            assert(a == nth(tip - 8 * n, i));
            assert(mem1[nth(tip - 8 * n, i)] == mem[ptr + 16 + 8 * i]);
        }
    }
    assert(pushed =~= mem1);
    if can_force(mem, thunk, tip) {
        let fuel = choose|fuel: nat| (#[trigger] force(fuel, mem, thunk, tip)) is Some;
        assert(force((fuel - 1) as nat, mem1, next, tip - 8 * n) is Some);
        lemma_forced((fuel - 1) as nat, mem1, next, tip - 8 * n);
        lemma_forced(fuel, mem, thunk, tip);
    }
    if can_force(mem1, next, tip - 8 * n) {
        let fuel = choose|fuel: nat|
            (#[trigger] force(fuel, mem1, next, tip - 8 * n)) is Some;
        assert(force(fuel + 1, mem, thunk, tip) == force(fuel, mem1, next, tip - 8 * n));
        assert(can_force(mem, thunk, tip));
    }
}

/// After an operation was prepared, single words are as follows, where `n` and `t` are the numbers
/// of arguments of the operation and of the transform function of its handler.
///
/// The continuation after the handler has `n + 2 - t` words more on the argument stack, the one
/// that performs the operation has `n` fewer, and the chain ends with that of the handler. Right
/// below the end of the arguments of the handler are the captured continuation, the arguments of
/// the operation and the parameter. The results are below what was pushed for the implementation.
/// All other words but those below them are as before.
///
/// This holds of words that are not written twice: the chain is not where arguments and results
/// are put, and its words are different ones.
pub proof fn lemma_prepared_words(
    memory: Memory,
    handlers: Seq<HandlerEntry>,
    eff: Eff,
    call_base: int,
    tip: usize,
)
    requires
        memory.wf(),
        can_prepare(memory@, memory.end(), handlers, eff, call_base, tip),
    ensures
        ({
            let mem = memory@;
            let (depth, handler_impl, n) = matching(mem, handlers, eff, false);
            let handler = handlers[handlers.len() - 1 - depth]->Handler_0;
            let t = handler.transform_num_args;
            let base = handler.transform_continuation;
            let next = mem[base + 8];
            let top = handler.transform_base_address + 8 * t;
            let p = prepared(mem, memory.end(), handlers, eff, call_base, tip);
            let after = with_results(p);
            let low = p.forced.tip - 24;
            let arg_base = top - 8 * (n + 2);
            let free = |a: int| a < low || top <= a;
            tip + 16 != base + 8 && next != tip && next + 16 != base + 8 && free(tip + 16) && free(
                base + 8,
            ) && free(next + 16) ==> {
                &&& after[next + 16] == mem[next + 16] + n + 2 - t
                &&& after[tip + 16] == mem[tip + 16] - n
                &&& after[base + 8] == 0
                &&& after[low + 16] == next
                &&& after[low + 8] == low + 24
                &&& after[low] == p.forced.func as usize
                &&& p.forced == forced(p.mem, handler_impl as int, arg_base)
                &&& handler_impl % 4 == 3 ==> low + 24 == arg_base && after[low] == handler_impl - 3
                &&& low + 24 <= arg_base
                &&& after[arg_base] == memory.end() + 8 + 1
                &&& after[top - 8] == handler.parameter
                &&& forall|i: int|
                    0 <= i < n && nth(call_base, i) != tip + 16 && nth(call_base, i) != base + 8
                        && nth(call_base, i) != next + 16 ==> after[arg_base + 8 + 8 * i]
                        == mem[#[trigger] nth(call_base, i)]
                &&& forall|a: int|
                    mem.contains_key(a) && free(a) && a != tip + 16 && a != base + 8 && a != next
                        + 16 ==> #[trigger] after[a] == mem[a]
            }
        }),
{
    memory.lemma_addresses();
    let mem = memory@;
    let end = memory.end();
    let (depth, handler_impl, num) = matching(mem, handlers, eff, false);
    let n = num as int;
    let handler = handlers[handled_at(mem, handlers, eff)]->Handler_0;
    let t = handler.transform_num_args as int;
    let base = handler.transform_continuation as int;
    let top = handler.transform_base_address + 8 * t;
    let p = prepared(mem, end, handlers, eff, call_base, tip);
    let after = with_results(p);
    let low = p.forced.tip - 24;
    let mem1 = split_chain(mem, tip as int, base, n, t);
    let mem2 = allocated(mem1, end, CAPTURED_WORDS as nat);
    let args = implementation_args(mem2, end + 8, call_base, n as nat, handler.parameter);
    let fuel = choose|fuel: nat|
        (#[trigger] force(fuel, p.mem, handler_impl as int, p.tip)) is Some;
    lemma_force(fuel, p.mem, handler_impl as int, p.tip);
    lemma_forced(fuel, p.mem, handler_impl as int, p.tip);
    lemma_split_chain_addresses(mem, tip as int, base, n, t);
    if handler_impl % 4 == 3 {
        lemma_function_is_forced(p.mem, handler_impl as int, p.tip);
    }
    assert(top == args_end(handler));
    assert(args.len() == n + 2);
    assert(p.tip == top - 8 * (n + 2));
    let next = mem[base + 8];
    let free = |a: int| a < low || top <= a;
    if tip + 16 != base + 8 && next != tip && next + 16 != base + 8 && free(tip + 16) && free(
        base + 8,
    ) && free(next + 16) {
        assert(mem1[next + 16] == mem[next + 16] + n + 2 - t);
        assert forall|a: int| mem.contains_key(a) && free(a) implies #[trigger] after[a]
            == mem1[a] by {
            assert(mem.dom().contains(a) && mem1.dom().contains(a));
            assert(mem1.contains_key(a));
            assert(mem2.contains_key(a) && mem2[a] == mem1[a]);
            assert(p.mem.contains_key(a) && p.mem[a] == mem2[a]);
            assert(p.mem.dom().contains(a) && p.forced.mem.dom().contains(a));
            assert(p.forced.mem.contains_key(a) && p.forced.mem[a] == p.mem[a]);
        }
        let results = seq![p.forced.func as usize, p.forced.tip as usize, p.next];
        assert(is_among(low, low, 3) && is_among(low + 8, low, 3) && is_among(low + 16, low, 3));
        assert(has_words(mem, low, 3));
        assert(mem.contains_key(nth(low, 0)) && mem.contains_key(nth(low, 2)));
        assert(nth(low, 0) == low);
        assert(after == write_words(p.forced.mem, low, results));
        assert(after[low] == results[0] && after[low + 8] == results[1] && after[low + 16]
            == results[2]);
        assert(p.next == next);
        assert forall|i: int| 0 <= i < n + 2 implies after[#[trigger] nth(p.tip, i)] == args[i] by {
            let a = nth(p.tip, i);
            assert(is_among(a, p.tip, args.len()));
            assert((a - p.tip) / 8 == i);
            assert(p.mem.contains_key(a) && p.mem[a] == args[i]);
            assert(p.mem.dom().contains(a) && p.forced.mem.dom().contains(a));
            assert(p.forced.mem[a] == p.mem[a]);
            assert(!is_among(a, low, 3));
        }
        assert(after[nth(p.tip, 0)] == args[0]);
        assert(nth(p.tip, 0) == p.tip);
        assert(nth(p.tip, n + 1) == top - 8);
        assert(after[nth(p.tip, n + 1)] == args[n + 1]);
        assert forall|i: int|
            0 <= i < n && nth(call_base, i) != tip + 16 && nth(call_base, i) != base + 8 && nth(
                call_base,
                i,
            ) != next + 16 implies after[p.tip + 8 + 8 * i] == mem[#[trigger] nth(
            call_base,
            i,
        )] by {
            let a = nth(call_base, i);
            assert(mem.contains_key(a));
            assert(mem.dom().contains(a) && mem1.dom().contains(a));
            assert(mem2[a] == mem1[a] && mem1[a] == mem[a]);
            assert(args[i + 1] == words_at(mem2, call_base, n as nat)[i]);
            assert(nth(p.tip, i + 1) == p.tip + 8 + 8 * i);
            assert(after[nth(p.tip, i + 1)] == args[i + 1]);
        }
    }
}

/// What an operation captures: the continuation that performs it and that of its handler, the
/// words between the arguments of the operation and the end of those of the handler, and the
/// handlers from that of the operation on, as they were but for their base addresses.
pub proof fn lemma_captured_parts(
    memory: Memory,
    handlers: Seq<HandlerEntry>,
    eff: Eff,
    call_base: int,
    tip: usize,
)
    requires
        memory.wf(),
        can_prepare(memory@, memory.end(), handlers, eff, call_base, tip),
    ensures
        ({
            let mem = memory@;
            let (depth, _, n) = matching(mem, handlers, eff, false);
            let index = handlers.len() - 1 - depth;
            let handler = handlers[index]->Handler_0;
            let base = handler.transform_continuation;
            let top = handler.transform_base_address + 8 * handler.transform_num_args;
            let c = prepared(mem, memory.end(), handlers, eff, call_base, tip).captured;
            let start = call_base + 8 * n;
            &&& handled_at(mem, handlers, eff) == index
            &&& c.tip_continuation == tip
            &&& c.base_continuation == base
            &&& start + 8 * c.stack_fragment.len() == top
            &&& tip + 16 != base + 8 ==> forall|i: int|
                0 <= i < c.stack_fragment.len() && nth(start, i) != tip + 16 && nth(start, i)
                    != base + 8 && nth(start, i) != mem[base + 8] + 16
                    ==> c.stack_fragment[i] == mem[#[trigger] nth(start, i)]
            &&& c.handler_fragment.len() == depth + 1
            &&& forall|i: int|
                0 <= i <= depth ==> (#[trigger] c.handler_fragment[i]) == (Handler {
                    transform_base_address: c.handler_fragment[i].transform_base_address,
                    ..handlers[index + i]->Handler_0
                })
            &&& forall|i: int|
                0 <= i <= depth && handlers[index + i]->Handler_0.transform_base_address
                    >= handler.transform_base_address ==> (
                #[trigger] c.handler_fragment[i]).transform_base_address
                    == handlers[index + i]->Handler_0.transform_base_address
                    - handler.transform_base_address
            &&& forall|i: int|
                0 <= i <= depth && handlers[index + i]->Handler_0.transform_base_address
                    < handler.transform_base_address ==> (
                #[trigger] c.handler_fragment[i]).transform_base_address
                    == handlers[index + i]->Handler_0.transform_base_address
                    - handler.transform_base_address + usize::MAX + 1
        }),
{
    memory.lemma_addresses();
    let mem = memory@;
    let (d, _, num) = matching(mem, handlers, eff, false);
    let n = num as int;
    let index = handlers.len() - 1 - d;
    assert(index == handled_at(mem, handlers, eff));
    let (depth, k) = choose|depth: int, k: int| #[trigger]
        is_match(mem, handlers, eff, false, depth, k);
    let handler = handlers[index]->Handler_0;
    let base = handler.transform_continuation as int;
    let t = handler.transform_num_args as int;
    let c = prepared(mem, memory.end(), handlers, eff, call_base, tip).captured;
    let start = nth(call_base, n);
    let len = fragment_len(handler, call_base, n);
    let mem1 = split_chain(mem, tip as int, base, n, t);
    assert((args_end(handler) - start) % 8 == 0);
    if tip + 16 != base + 8 {
        assert forall|i: int|
            0 <= i < len && nth(start, i) != tip + 16 && nth(start, i) != base + 8 && nth(start, i)
                != mem[base + 8] + 16 implies c.stack_fragment[i] == mem[#[trigger] nth(
            start,
            i,
        )] by {
            assert(c.stack_fragment[i] == mem1[nth(start, i)]);
        }
    }
    assert forall|i: int| 0 <= i <= d implies (#[trigger] c.handler_fragment[i]) == (Handler {
        transform_base_address: handlers[index + i]->Handler_0.transform_base_address.wrapping_sub(
            handler.transform_base_address,
        ),
        ..handlers[index + i]->Handler_0
    }) by {
        assert(handlers.skip(index)[i] == handlers[index + i]);
    }
}

/// After a captured continuation was resumed, single words are as follows.
///
/// The next continuation has as many words more on the argument stack as the transform function of
/// the first handler has arguments, and the captured chain goes on with it. The stack fragment is
/// right below the base address, and below it are the result of the operation, the address of
/// which the word below holds, the base of the fragment, and the function of the continuation. All
/// other words are as before.
///
/// This holds of words that are not written twice.
pub proof fn lemma_resumed_words(
    memory: Memory,
    base_address: int,
    c: Captured,
    result: Uniform,
    next: usize,
)
    requires
        memory.wf(),
        can_resume(memory@, base_address, c, result, next),
    ensures
        ({
            let mem = memory@;
            let len = c.stack_fragment.len();
            let fragment = base_address - 8 * len;
            let t = c.handler_fragment[0].transform_num_args;
            let end = c.base_continuation;
            let after = ready_to_resume(
                resumed(mem, base_address, c, result, next),
                c.tip_continuation,
            );
            let free = |a: int| a < fragment - 32 || base_address <= a;
            &&& resumed(mem, base_address, c, result, next).base == fragment
            &&& after[fragment - 8] == result
            &&& after[fragment - 16] == fragment - 8
            &&& after[fragment - 24] == fragment
            &&& forall|i: int|
                0 <= i < len ==> after[#[trigger] nth(fragment, i)] == c.stack_fragment[i]
            &&& next + 16 != end + 8 && free(next + 16) && free(end + 8) ==> {
                &&& after[next + 16] == mem[next + 16] + t
                &&& after[end + 8] == next
                &&& free(c.tip_continuation as int) && c.tip_continuation != next + 16
                    && c.tip_continuation != end + 8 ==> after[fragment - 32]
                    == mem[c.tip_continuation as int]
                &&& forall|a: int|
                    mem.contains_key(a) && free(a) && a != next + 16 && a != end + 8
                        ==> #[trigger] after[a] == mem[a]
            }
        }),
{
    memory.lemma_addresses();
    let mem = memory@;
    let len = c.stack_fragment.len();
    let fragment = base_address - 8 * len;
    let end = c.base_continuation;
    let r = resumed(mem, base_address, c, result, next);
    let after = ready_to_resume(r, c.tip_continuation);
    let results = seq![
        r.with_result[c.tip_continuation as int],
        r.base as usize,
        (r.base - 8) as usize,
    ];
    assert(r.base == fragment);
    assert(mem.contains_key(nth(fragment - 32, 0)) && mem.contains_key(nth(fragment - 32, 3)));
    assert(is_among(fragment - 32, fragment - 32, 3));
    assert(is_among(fragment - 24, fragment - 32, 3));
    assert(is_among(fragment - 16, fragment - 32, 3));
    assert(after == write_words(r.with_result, fragment - 32, results));
    assert(after[fragment - 32] == results[0] && after[fragment - 24] == results[1]
        && after[fragment - 16] == results[2]);
    assert(!is_among(fragment - 8, fragment - 32, 3));
    let free = |a: int| a < fragment - 32 || base_address <= a;
    if next + 16 != end + 8 && free(next + 16) && free(end + 8) {
        assert forall|a: int| mem.contains_key(a) && free(a) implies #[trigger] after[a] == (
        if a == next + 16 {
            (mem[a] + c.handler_fragment[0].transform_num_args) as usize
        } else if a == end + 8 {
            next
        } else {
            mem[a]
        }) by {
            assert(!is_among(a, fragment - 32, 3) && !is_among(a, fragment, len));
        }
        if free(c.tip_continuation as int) {
            assert(!is_among(c.tip_continuation as int, fragment, len));
        }
    }
    assert forall|i: int| 0 <= i < len implies after[#[trigger] nth(fragment, i)]
        == c.stack_fragment[i] by {
        let a = nth(fragment, i);
        assert(is_among(a, fragment, len));
        assert((a - fragment) / 8 == i);
        assert(!is_among(a, fragment - 32, 3));
    }
}

/// The address that `value` is after it wrapped around `k` times.
pub open spec fn wrapped(value: int, k: int) -> int {
    value - k * (usize::MAX + 1)
}

/// The handlers of a captured continuation are registered again in their order, as they were but
/// for their base addresses. That of each is the base address that is resumed with, and behind it
/// as many words as the transform function of the first handler has arguments and as the offset of
/// the handler tells. It wraps around.
pub proof fn lemma_resumed_handlers(
    memory: Memory,
    base_address: int,
    c: Captured,
    result: Uniform,
    next: usize,
)
    requires
        memory.wf(),
        can_resume(memory@, base_address, c, result, next),
    ensures
        ({
            let r = resumed(memory@, base_address, c, result, next);
            let new = absolute(c.handler_fragment, r.handler_base as usize);
            let t = c.handler_fragment[0].transform_num_args;
            &&& new.len() == c.handler_fragment.len()
            &&& forall|i: int|
                0 <= i < new.len() ==> {
                    let old = #[trigger] c.handler_fragment[i];
                    let address = new[i]->Handler_0.transform_base_address;
                    let value = base_address + 8 * (t + old.transform_base_address);
                    &&& new[i] is Handler
                    &&& new[i]->Handler_0 == (Handler { transform_base_address: address, ..old })
                    &&& value <= usize::MAX ==> address == value
                    &&& exists|k: int| address == #[trigger] wrapped(value, k)
                }
        }),
{
    memory.lemma_addresses();
    let r = resumed(memory@, base_address, c, result, next);
    let t = c.handler_fragment[0].transform_num_args;
    let base = r.handler_base as usize;
    let new = absolute(c.handler_fragment, base);
    assert(has_words(memory@, r.base - 32, 4));
    assert(memory@.contains_key(nth(r.base - 32, 0)));
    assert(base == base_address + 8 * t);
    assert forall|i: int| 0 <= i < new.len() implies {
        let old = #[trigger] c.handler_fragment[i];
        let address = new[i]->Handler_0.transform_base_address;
        let value = base_address + 8 * (t + old.transform_base_address);
        &&& new[i] is Handler
        &&& new[i]->Handler_0 == (Handler { transform_base_address: address, ..old })
        &&& value <= usize::MAX ==> address == value
        &&& exists|k: int| address == #[trigger] wrapped(value, k)
    } by {
        let offset = c.handler_fragment[i].transform_base_address;
        let value = base_address + 8 * (t + offset);
        let range = usize::MAX + 1;
        let product = offset * 8;
        let q = product / range;
        let low = offset.wrapping_mul(8);
        vstd::arithmetic::div_mod::lemma_fundamental_div_mod(product, range);
        assert(low == product % range);
        assert(product == range * q + low);
        let address = base.wrapping_add(low);
        assert(range * q == q * range) by (nonlinear_arith);
        if base + low < range {
            assert(address == wrapped(value, q));
        } else {
            assert((q + 1) * range == q * range + range) by (nonlinear_arith);
            assert(address == wrapped(value, q + 1));
        }
        if value <= usize::MAX {
            vstd::arithmetic::div_mod::lemma_small_mod(product as nat, range as nat);
        }
    }
}

/// After a handler was registered, single words are as follows, where the transform function was
/// forced at the tip of the caller after the new continuation was allocated.
///
/// Its base address is the tip after that, and the caller has as many words more on the argument
/// stack as were pushed. The new continuation has the function, the caller as the next one, no
/// words on the argument stack, and all its variables are 0.
pub proof fn lemma_registered_words(
    memory: Memory,
    caller_tip: int,
    caller: usize,
    transform: ThunkPtr,
    var_bound: usize,
)
    requires
        memory.wf(),
        can_register(memory@, memory.end(), caller_tip, caller, transform, var_bound),
    ensures
        ({
            let end = memory.end();
            let r = registered(memory@, end, caller_tip, caller, transform, var_bound);
            let f = forced(
                allocated(memory@, end, (4 + var_bound) as nat),
                transform as int,
                caller_tip,
            );
            let block = end + 8;
            &&& r.base == f.tip
            &&& f.tip <= caller_tip
            &&& caller + 16 < f.tip || caller_tip <= caller + 16 ==> 8 * (r.mem[caller + 16]
                - memory@[caller + 16]) == caller_tip - f.tip
            &&& caller_tip <= end ==> {
                &&& r.mem[end] == 4 + var_bound
                &&& r.mem[block] == f.func as usize
                &&& r.mem[block + 8] == caller
                &&& forall|i: int|
                    2 <= i < 4 + var_bound ==> r.mem[#[trigger] nth(block, i)] == 0
            }
            &&& forall|a: int|
                memory@.contains_key(a) && !(f.tip <= a < caller_tip) && a != caller + 16
                    ==> #[trigger] r.mem[a] == memory@[a]
            &&& forall|a: int|
                memory@.contains_key(a) && f.tip <= a < caller_tip && a != caller + 16
                    ==> #[trigger] r.mem[a] == f.mem[a]
        }),
{
    memory.lemma_addresses();
    let mem = memory@;
    let end = memory.end();
    let n = (4 + var_bound) as nat;
    let mem0 = allocated(mem, end, n);
    let fuel = choose|fuel: nat|
        (#[trigger] force(fuel, mem0, transform as int, caller_tip)) is Some;
    lemma_force(fuel, mem0, transform as int, caller_tip);
    lemma_forced(fuel, mem0, transform as int, caller_tip);
    let f = forced(mem0, transform as int, caller_tip);
    let words = seq![f.func as usize, caller, 0, 0];
    let mem1 = write_words(f.mem, end + 8, words);
    let r = registered(mem, end, caller_tip, caller, transform, var_bound);
    assert(mem.contains_key(caller + 16));
    assert forall|a: int| #[trigger] mem.contains_key(a) implies mem0.contains_key(a) && mem0[a]
        == mem[a] && f.mem.contains_key(a) && mem1[a] == f.mem[a] by {
        assert(mem0.dom().contains(a) && f.mem.dom().contains(a));
        assert(!is_among(a, end + 8, 4));
    }
    assert((caller_tip - f.tip) % 8 == 0);
    if caller_tip <= end {
        let values = seq![n as usize] + zeros(n);
        assert(is_among(end, end, values.len()));
        assert(mem0[end] == n);
        assert(mem0.dom().contains(end) && f.mem.dom().contains(end));
        assert(is_among(end + 8, end + 8, 4) && is_among(end + 16, end + 8, 4));
        assert(mem1[end + 8] == words[0] && mem1[end + 16] == words[1]);
        assert(!is_among(end, end + 8, 4));
        assert(mem1[end] == f.mem[end] && f.mem[end] == mem0[end]);
        assert forall|i: int| 2 <= i < n implies r.mem[#[trigger] nth(end + 8, i)] == 0 by {
            let a = nth(end + 8, i);
            assert(is_among(a, end, values.len()));
            assert((a - end) / 8 == i + 1);
            assert(mem0[a] == 0);
            assert(mem0.dom().contains(a) && f.mem.dom().contains(a));
            assert(f.mem[a] == mem0[a]);
            if i < 4 {
                assert(is_among(a, end + 8, 4));
                assert((a - (end + 8)) / 8 == i);
            } else {
                assert(!is_among(a, end + 8, 4));
            }
        }
    }
}

/// A block that was allocated starts one word behind the end of the memory before. That word holds
/// its size, and all its words are 0. No other word is added or changed.
pub proof fn lemma_block_words(memory: Memory, n: nat)
    requires
        memory.wf(),
        n <= usize::MAX,
    ensures
        ({
            let end = memory.end();
            let after = allocated(memory@, end, n);
            &&& after[end] == n
            &&& forall|i: int|
                0 <= i < n ==> after.contains_key(#[trigger] nth(end + 8, i)) && after[nth(
                    end + 8,
                    i,
                )] == 0
            &&& forall|a: int|
                a < end || end + 8 * (n + 1) <= a ==> (#[trigger] after.contains_key(a)
                    <==> memory@.contains_key(a))
            &&& forall|a: int|
                memory@.contains_key(a) ==> #[trigger] after[a] == memory@[a]
        }),
{
    memory.lemma_addresses();
    let end = memory.end();
    let values = seq![n as usize] + zeros(n);
    assert(is_among(end, end, values.len()));
    assert forall|i: int| 0 <= i < n implies allocated(memory@, end, n).contains_key(
        #[trigger] nth(end + 8, i),
    ) && allocated(memory@, end, n)[nth(end + 8, i)] == 0 by {
        let a = nth(end + 8, i);
        assert(is_among(a, end, values.len()));
        assert((a - end) / 8 == i + 1);
    }
}

/// An operation with a handler whose implementation is a function can be prepared, if only handlers
/// are further in, the words of the argument stack from the arguments of the operation to the end
/// of those of the handler are there and those that are written below that end, the chain of
/// continuations is there and no height leaves its range, and there is memory left for the captured
/// continuation.
pub proof fn lemma_can_prepare(
    memory: Memory,
    handlers: Seq<HandlerEntry>,
    eff: Eff,
    call_base: int,
    tip: usize,
)
    requires
        memory.wf(),
        has_match(memory@, handlers, eff, false),
        ({
            let mem = memory@;
            let (depth, handler_impl, n) = matching(mem, handlers, eff, false);
            let index = handlers.len() - 1 - depth;
            let handler = handlers[index]->Handler_0;
            let t = handler.transform_num_args;
            let base = handler.transform_continuation;
            let next = mem[base + 8];
            let top = handler.transform_base_address + 8 * t;
            &&& handler_impl % 4 == 3
            &&& forall|i: int| index <= i < handlers.len() ==> (#[trigger] handlers[i]) is Handler
            &&& mem.contains_key(tip + 16)
            &&& mem.contains_key(base + 8)
            &&& mem.contains_key(next + 16)
            &&& tip + 16 != base + 8
            &&& next != tip
            &&& next + 16 != base + 8
            &&& mem[tip + 16] >= n
            &&& 0 <= mem[next + 16] + n + 2 - t <= usize::MAX
            &&& call_base + 8 * n <= top <= usize::MAX
            &&& (top - call_base) % 8 == 0
            &&& forall|i: int|
                0 <= i < (top - call_base) / 8 ==> mem.contains_key(#[trigger] nth(call_base, i))
            &&& forall|i: int|
                0 < i <= n + 5 ==> mem.contains_key(#[trigger] nth(top, -i))
            &&& memory.end() + 8 * 9 <= usize::MAX
        }),
    ensures
        can_prepare(memory@, memory.end(), handlers, eff, call_base, tip),
{
    memory.lemma_addresses();
    let mem = memory@;
    let end = memory.end();
    let (depth, handler_impl, num) = matching(mem, handlers, eff, false);
    let n = num as int;
    let index = handlers.len() - 1 - depth;
    let handler = handlers[index]->Handler_0;
    let top = handler.transform_base_address + 8 * handler.transform_num_args;
    let p = prepared(mem, end, handlers, eff, call_base, tip);
    assert(index == handled_at(mem, handlers, eff));
    assert(top == args_end(handler));
    let mem2 = allocated(
        split_chain(
            mem,
            tip as int,
            handler.transform_continuation as int,
            n,
            handler.transform_num_args as int,
        ),
        end,
        CAPTURED_WORDS as nat,
    );
    let args = implementation_args(mem2, end + 8, call_base, n as nat, handler.parameter);
    assert(args.len() == n + 2);
    assert(p.tip == top - 8 * (n + 2));
    lemma_function_is_forced(p.mem, handler_impl as int, p.tip);
    assert(p.forced.tip == p.tip);
    assert forall|i: int| 0 <= i < fragment_len(handler, call_base, n) implies mem.contains_key(
        #[trigger] nth(nth(call_base, n), i),
    ) by {
        assert(nth(nth(call_base, n), i) == nth(call_base, n + i));
        assert(mem.contains_key(nth(call_base, n + i)));
    }
    assert forall|i: int| 0 <= i < n implies mem.contains_key(#[trigger] nth(call_base, i)) by {}
    assert forall|i: int| 0 <= i < n + 2 implies mem.contains_key(#[trigger] nth(p.tip, i)) by {
        assert(nth(p.tip, i) == nth(top, -(n + 2 - i)));
        assert(mem.contains_key(nth(top, -(n + 2 - i))));
    }
    assert forall|i: int| 0 <= i < 3 implies mem.contains_key(
        #[trigger] nth(p.forced.tip - 24, i),
    ) by {
        assert(nth(p.forced.tip - 24, i) == nth(top, -(n + 5 - i)));
        assert(mem.contains_key(nth(top, -(n + 5 - i))));
    }
}

/// A captured continuation can be resumed, if it has a handler, its chain and the continuation that
/// it goes on with are there and the height of that stays in its range, and there is room on the
/// argument stack for its words and four more.
pub proof fn lemma_can_resume(
    memory: Memory,
    base_address: int,
    c: Captured,
    result: Uniform,
    next: usize,
)
    requires
        memory.wf(),
        c.handler_fragment.len() > 0,
        ({
            let mem = memory@;
            let t = c.handler_fragment[0].transform_num_args;
            let end = c.base_continuation;
            &&& mem.contains_key(end + 8)
            &&& mem.contains_key(next + 16)
            &&& next + 16 != end + 8
            &&& mem[next + 16] + t <= usize::MAX
            &&& base_address + 8 * t <= usize::MAX
            &&& mem.contains_key(c.tip_continuation as int)
            &&& forall|i: int|
                0 < i <= c.stack_fragment.len() + 4 ==> mem.contains_key(
                    #[trigger] nth(base_address, -i),
                )
        }),
    ensures
        can_resume(memory@, base_address, c, result, next),
{
    let mem = memory@;
    let len = c.stack_fragment.len() as int;
    let r = resumed(mem, base_address, c, result, next);
    assert(r.base == base_address - 8 * len);
    assert forall|i: int| 0 <= i < len implies mem.contains_key(#[trigger] nth(r.base, i)) by {
        assert(nth(r.base, i) == nth(base_address, -(len - i)));
        assert(mem.contains_key(nth(base_address, -(len - i))));
    }
    assert forall|i: int| 0 <= i < 4 implies mem.contains_key(#[trigger] nth(r.base - 32, i)) by {
        assert(nth(r.base - 32, i) == nth(base_address, -(len + 4 - i)));
        assert(mem.contains_key(nth(base_address, -(len + 4 - i))));
    }
}

/// A handler whose transform function has no captured arguments can be registered, if the
/// continuation of the caller is there and there is memory left for the new one.
pub proof fn lemma_can_register(
    memory: Memory,
    caller_tip: int,
    caller: usize,
    transform: ThunkPtr,
    var_bound: usize,
)
    requires
        memory.wf(),
        transform % 4 == 3,
        memory@.contains_key(caller + 16),
        memory.end() + 8 * (5 + var_bound) <= usize::MAX,
    ensures
        can_register(memory@, memory.end(), caller_tip, caller, transform, var_bound),
        ({
            let r = registered(memory@, memory.end(), caller_tip, caller, transform, var_bound);
            &&& r.base == caller_tip
            &&& r.mem[memory.end() + 8] == transform - 3
            &&& r.mem[caller + 16] == memory@[caller + 16]
        }),
{
    memory.lemma_addresses();
    let mem = memory@;
    let end = memory.end();
    let mem0 = allocated(mem, end, (4 + var_bound) as nat);
    lemma_function_is_forced(mem0, transform as int, caller_tip);
    let f = forced(mem0, transform as int, caller_tip);
    let mem1 = write_words(f.mem, end + 8, seq![f.func as usize, caller, 0, 0]);
    assert(mem.contains_key(caller + 16));
    assert(mem.dom().contains(caller + 16));
    assert(!is_among(caller + 16, end + 8, 4));
    assert(mem0[caller + 16] == mem[caller + 16]);
    assert(mem1[caller + 16] == mem[caller + 16]);
    assert(is_among(end + 8, end + 8, 4));
    assert(mem1[end + 8] == f.func as usize);
}

} // verus!
