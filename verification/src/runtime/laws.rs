//! What holds of the runtime as a whole.
use crate::runtime::handler::{Captured, Handler, HandlerEntry};
use crate::runtime::memory::{
    has_words, is_among, lemma_read_written, nth, words_at, write_words, Memory,
};
use crate::runtime::runtime_utils::{
    absolute, allocated, args_end, can_force, can_prepare, can_resume, comparison, equal,
    equal_values, force, forced, fragment_len, handled_at, has_match, height_field,
    implementation_args, is_match, lemma_forced, lemma_match_unique, matching, next_field,
    next_in_chain, none_match, operations, operations_at, prepared, push_args, ready_to_resume,
    resumed, same_words, split_chain, with_results, zeros, Forced, CAPTURED_WORDS,
};
use crate::runtime::types::{normal_ptr, uniform_type, Eff, Uniform, UniformType};
use vstd::prelude::*;

verus! {

/// A new block has the size that was asked for, which the word before it tells, is filled with 0,
/// and has no word in common with the memory before, which stays as it is.
pub proof fn lemma_allocated(memory: Memory, n: nat)
    requires
        memory.wf(),
        n <= usize::MAX,
    ensures
        ({
            let mem = allocated(memory@, memory.end(), n);
            let block = memory.end() + 8;
            &&& mem[block - 8] == n
            &&& has_words(mem, block, n)
            &&& words_at(mem, block, n) == zeros(n)
            &&& forall|i: int|
                0 <= i < n ==> !memory@.contains_key(#[trigger] nth(block, i))
            &&& forall|a: int| #[trigger]
                memory@.contains_key(a) ==> mem.contains_key(a) && mem[a] == memory@[a]
        }),
{
    memory.lemma_addresses();
    let values = seq![n as usize] + zeros(n);
    let mem = allocated(memory@, memory.end(), n);
    lemma_read_written(memory@, memory.end(), values);
    assert(words_at(mem, memory.end(), n + 1)[0] == n);
    assert forall|i: int| 0 <= i < n implies mem.contains_key(
        #[trigger] nth(memory.end() + 8, i),
    ) && mem[nth(memory.end() + 8, i)] == 0 by {
        assert(nth(memory.end() + 8, i) == nth(memory.end(), i + 1));
        assert(words_at(mem, memory.end(), n + 1)[i + 1] == values[i + 1]);
    }
    assert(words_at(mem, memory.end() + 8, n) =~= zeros(n));
}

/// The arguments of `thunk` in the order in which its function finds them, and its function. A
/// thunk that is not a function has those of the further thunk first, and its own after them.
pub open spec fn thunk_args(fuel: nat, mem: Map<int, usize>, thunk: int) -> Option<
    (Seq<usize>, int),
>
    decreases fuel,
{
    let ptr = normal_ptr(thunk);
    if uniform_type(thunk) == UniformType::PrimitivePtr {
        Some((Seq::empty(), ptr))
    } else if fuel == 0 || !has_words(mem, ptr, 2) || !has_words(
        mem,
        ptr,
        (2 + mem[nth(ptr, 1)]) as nat,
    ) {
        None
    } else {
        match thunk_args((fuel - 1) as nat, mem, mem[nth(ptr, 0)] as int) {
            Some((args, func)) => Some(
                (args + words_at(mem, nth(ptr, 2), mem[nth(ptr, 1)] as nat), func),
            ),
            None => None,
        }
    }
}

/// Whether no block of `thunk` reaches into the addresses from `low` up to `high`.
pub open spec fn apart(fuel: nat, mem: Map<int, usize>, thunk: int, low: int, high: int) -> bool
    decreases fuel,
{
    let ptr = normal_ptr(thunk);
    uniform_type(thunk) == UniformType::PrimitivePtr || {
        &&& fuel > 0
        &&& nth(ptr, 2 + mem[nth(ptr, 1)]) <= low || high <= ptr
        &&& apart((fuel - 1) as nat, mem, mem[nth(ptr, 0)] as int, low, high)
    }
}

/// Words that are written elsewhere change neither the arguments of a thunk nor its function.
proof fn lemma_thunk_args_frame(
    fuel: nat,
    mem: Map<int, usize>,
    mem1: Map<int, usize>,
    thunk: int,
    low: int,
    high: int,
)
    requires
        thunk_args(fuel, mem, thunk) is Some,
        apart(fuel, mem, thunk, low, high),
        mem1.dom() == mem.dom(),
        forall|a: int|
            mem.contains_key(a) && !(low <= a < high) ==> #[trigger] mem1[a] == mem[a],
    ensures
        thunk_args(fuel, mem1, thunk) == thunk_args(fuel, mem, thunk),
        apart(fuel, mem1, thunk, low, high),
    decreases fuel,
{
    let ptr = normal_ptr(thunk);
    if uniform_type(thunk) != UniformType::PrimitivePtr {
        let n = mem[nth(ptr, 1)] as nat;
        assert(mem.contains_key(nth(ptr, 0)) && mem.contains_key(nth(ptr, 1)));
        assert(mem1[nth(ptr, 1)] == n);
        assert(mem1[nth(ptr, 0)] == mem[nth(ptr, 0)]);
        lemma_thunk_args_frame(
            (fuel - 1) as nat,
            mem,
            mem1,
            mem[nth(ptr, 0)] as int,
            low,
            high,
        );
        assert forall|i: int| 0 <= i < 2 + n implies mem1.contains_key(#[trigger] nth(ptr, i)) by {
            assert(mem.contains_key(nth(ptr, i)));
        }
        assert(has_words(mem1, ptr, 2));
        assert forall|i: int| 0 <= i < n implies mem1[#[trigger] nth(nth(ptr, 2), i)] == mem[nth(
            nth(ptr, 2),
            i,
        )] by {
            assert(nth(nth(ptr, 2), i) == nth(ptr, 2 + i));
        }
        assert(words_at(mem1, nth(ptr, 2), n) =~= words_at(mem, nth(ptr, 2), n));
    }
}

/// Writing to memory that is there keeps the addresses.
proof fn lemma_write_words(mem: Map<int, usize>, address: int, values: Seq<usize>)
    requires
        has_words(mem, address, values.len()),
    ensures
        write_words(mem, address, values).dom() == mem.dom(),
{
    assert forall|a: int| is_among(a, address, values.len()) implies mem.contains_key(a) by {
        assert(a == nth(address, (a - address) / 8));
    }
    assert(write_words(mem, address, values).dom() =~= mem.dom());
}

/// The arguments of a block that is elsewhere are pushed in their order.
pub proof fn lemma_pushed(mem: Map<int, usize>, ptr: int, tip: int, k: nat)
    requires
        has_words(mem, nth(ptr, 2), k),
        has_words(mem, nth(tip, -k), k),
        nth(ptr, 2 + k as int) <= nth(tip, -k) || tip <= ptr,
    ensures
        push_args(mem, ptr, tip, k) == Some(
            (write_words(mem, nth(tip, -k), words_at(mem, nth(ptr, 2), k)), nth(tip, -k)),
        ),
    decreases k,
{
    if k == 0 {
        assert(write_words(mem, nth(tip, -k), words_at(mem, nth(ptr, 2), k)) =~= mem);
    } else {
        let last = nth(ptr, k as int + 1);
        assert(nth(nth(ptr, 2), k - 1) == last);
        assert(nth(nth(tip, -k), k - 1) == tip - 8);
        assert(mem.contains_key(last) && mem.contains_key(tip - 8));
        let mem1 = mem.insert(tip - 8, mem[last]);
        assert forall|i: int| 0 <= i < k - 1 implies mem1.contains_key(
            #[trigger] nth(nth(ptr, 2), i),
        ) by {
            assert(mem.contains_key(nth(nth(ptr, 2), i)));
        }
        assert forall|i: int| 0 <= i < k - 1 implies mem1.contains_key(
            #[trigger] nth(nth(tip - 8, -(k - 1)), i),
        ) by {
            assert(mem.contains_key(nth(nth(tip, -k), i)));
        }
        lemma_pushed(mem1, ptr, tip - 8, (k - 1) as nat);
        let values = words_at(mem, nth(ptr, 2), k);
        let values1 = words_at(mem1, nth(ptr, 2), (k - 1) as nat);
        assert(values1 =~= values.drop_last());
        assert(nth(tip - 8, -(k - 1)) == nth(tip, -k));
        assert(write_words(mem1, nth(tip, -k), values1) =~= write_words(
            mem,
            nth(tip, -k),
            values,
        ));
    }
}

/// Forcing a thunk pushes its arguments in the order in which its function finds them, leaves the
/// rest of the memory as it is, and gives its function, if the argument stack has room for them and
/// the thunk is not in that room.
pub proof fn lemma_force_pushes_args(fuel: nat, mem: Map<int, usize>, thunk: int, tip: int)
    requires
        thunk_args(fuel, mem, thunk) is Some,
        ({
            let (args, func) = thunk_args(fuel, mem, thunk)->0;
            let base = nth(tip, -args.len());
            has_words(mem, base, args.len()) && apart(fuel, mem, thunk, base, tip)
        }),
    ensures
        ({
            let (args, func) = thunk_args(fuel, mem, thunk)->0;
            let base = nth(tip, -args.len());
            let f = Forced { mem: write_words(mem, base, args), tip: base, func };
            &&& force(fuel, mem, thunk, tip) == Some(f)
            &&& can_force(mem, thunk, tip)
            &&& forced(mem, thunk, tip) == f
        }),
    decreases fuel,
{
    let ptr = normal_ptr(thunk);
    let (args, func) = thunk_args(fuel, mem, thunk)->0;
    let base = nth(tip, -args.len());
    if uniform_type(thunk) == UniformType::PrimitivePtr {
        assert(write_words(mem, base, args) =~= mem);
    } else {
        let inner = (fuel - 1) as nat;
        let next = mem[nth(ptr, 0)] as int;
        let n = mem[nth(ptr, 1)] as nat;
        let own = words_at(mem, nth(ptr, 2), n);
        let (further, _) = thunk_args(inner, mem, next)->0;
        assert(args == further + own);
        let tip1 = nth(tip, -n);
        assert forall|i: int| 0 <= i < n implies mem.contains_key(#[trigger] nth(tip1, i)) by {
            assert(nth(tip1, i) == nth(base, further.len() + i));
        }
        assert forall|i: int| 0 <= i < n implies mem.contains_key(
            #[trigger] nth(nth(ptr, 2), i),
        ) by {
            assert(nth(nth(ptr, 2), i) == nth(ptr, 2 + i));
        }
        lemma_pushed(mem, ptr, tip, n);
        let mem1 = write_words(mem, tip1, own);
        lemma_write_words(mem, tip1, own);
        lemma_thunk_args_frame(inner, mem, mem1, next, base, tip);
        assert(nth(tip1, -further.len()) == base);
        assert forall|i: int| 0 <= i < further.len() implies mem1.contains_key(
            #[trigger] nth(base, i),
        ) by {
            assert(mem.contains_key(nth(base, i)));
        }
        lemma_apart_smaller(inner, mem1, next, base, tip, tip1);
        lemma_force_pushes_args(inner, mem1, next, tip1);
        assert(write_words(mem1, base, further) =~= write_words(mem, base, args));
        assert(has_words(mem, ptr, 2));
    }
    lemma_forced(fuel, mem, thunk, tip);
}

/// A thunk that does not reach into some addresses does not reach into fewer of them.
proof fn lemma_apart_smaller(
    fuel: nat,
    mem: Map<int, usize>,
    thunk: int,
    low: int,
    high: int,
    high1: int,
)
    requires
        apart(fuel, mem, thunk, low, high),
        high1 <= high,
    ensures
        apart(fuel, mem, thunk, low, high1),
    decreases fuel,
{
    if uniform_type(thunk) != UniformType::PrimitivePtr {
        lemma_apart_smaller(
            (fuel - 1) as nat,
            mem,
            mem[nth(normal_ptr(thunk), 0)] as int,
            low,
            high,
            high1,
        );
    }
}

/// Words are the same in either order.
proof fn lemma_same_words_symmetric(mem: Map<int, usize>, a: int, b: int, i: int, n: int)
    ensures
        same_words(mem, a, b, i, n) == same_words(mem, b, a, i, n),
    decreases n - i,
{
    if i < n {
        lemma_same_words_symmetric(mem, a, b, i + 1, n);
    }
}

/// If two blocks of words are the same as a third, they are the same.
proof fn lemma_same_words_transitive(
    mem: Map<int, usize>,
    a: int,
    b: int,
    c: int,
    i: int,
    n: int,
)
    requires
        same_words(mem, a, b, i, n) == Some(true),
        same_words(mem, b, c, i, n) == Some(true),
    ensures
        same_words(mem, a, c, i, n) == Some(true),
    decreases n - i,
{
    if i < n {
        lemma_same_words_transitive(mem, a, b, c, i + 1, n);
    }
}

/// Values compare the same wherever their depth is bounded, if they are not nested deeper.
pub proof fn lemma_equal_fuel(fuel: nat, more: nat, mem: Map<int, usize>, a: Uniform, b: Uniform)
    requires
        equal(fuel, mem, a, b) is Some,
        fuel <= more,
    ensures
        equal(more, mem, a, b) == equal(fuel, mem, a, b),
    decreases fuel, 0nat, 0int,
{
    let a_ptr = normal_ptr(a as int);
    let b_ptr = normal_ptr(b as int);
    if a != b && uniform_type(a as int) == uniform_type(b as int) && uniform_type(a as int)
        == UniformType::StructPtr && mem[a_ptr - 8] == mem[b_ptr - 8] {
        lemma_equal_values_fuel(
            (fuel - 1) as nat,
            (more - 1) as nat,
            mem,
            a_ptr,
            b_ptr,
            0,
            mem[a_ptr - 8] as int,
        );
    }
}

/// As [`lemma_equal_fuel`], for the values of two blocks.
proof fn lemma_equal_values_fuel(
    fuel: nat,
    more: nat,
    mem: Map<int, usize>,
    a: int,
    b: int,
    i: int,
    n: int,
)
    requires
        equal_values(fuel, mem, a, b, i, n) is Some,
        fuel <= more,
    ensures
        equal_values(more, mem, a, b, i, n) == equal_values(fuel, mem, a, b, i, n),
    decreases fuel, 1nat, n - i,
{
    if i < n {
        lemma_equal_fuel(fuel, more, mem, mem[nth(a, i)], mem[nth(b, i)]);
        if equal(fuel, mem, mem[nth(a, i)], mem[nth(b, i)]) == Some(true) {
            lemma_equal_values_fuel(fuel, more, mem, a, b, i + 1, n);
        }
    }
}

/// How values compare does not depend on the bound of their depth.
pub proof fn lemma_comparison(fuel: nat, mem: Map<int, usize>, a: Uniform, b: Uniform)
    requires
        equal(fuel, mem, a, b) is Some,
    ensures
        comparison(mem, a, b) == equal(fuel, mem, a, b),
{
    let chosen = choose|fuel: nat| (#[trigger] equal(fuel, mem, a, b)) is Some;
    if fuel <= chosen {
        lemma_equal_fuel(fuel, chosen, mem, a, b);
    } else {
        lemma_equal_fuel(chosen, fuel, mem, a, b);
    }
}

/// Every value is equal to itself.
pub proof fn lemma_comparison_reflexive(mem: Map<int, usize>, a: Uniform)
    ensures
        comparison(mem, a, a) == Some(true),
{
    lemma_comparison(0, mem, a, a);
}

/// As [`lemma_comparison_symmetric`], with a bound on the depth.
proof fn lemma_equal_symmetric(fuel: nat, mem: Map<int, usize>, a: Uniform, b: Uniform)
    ensures
        equal(fuel, mem, a, b) == equal(fuel, mem, b, a),
    decreases fuel, 0nat, 0int,
{
    let a_ptr = normal_ptr(a as int);
    let b_ptr = normal_ptr(b as int);
    lemma_same_words_symmetric(mem, a_ptr, b_ptr, 0, mem[a_ptr - 8] as int);
    if fuel > 0 {
        lemma_equal_values_symmetric(
            (fuel - 1) as nat,
            mem,
            a_ptr,
            b_ptr,
            0,
            mem[a_ptr - 8] as int,
        );
    }
}

/// As [`lemma_equal_symmetric`], for the values of two blocks.
proof fn lemma_equal_values_symmetric(
    fuel: nat,
    mem: Map<int, usize>,
    a: int,
    b: int,
    i: int,
    n: int,
)
    ensures
        equal_values(fuel, mem, a, b, i, n) == equal_values(fuel, mem, b, a, i, n),
    decreases fuel, 1nat, n - i,
{
    if i < n {
        lemma_equal_symmetric(fuel, mem, mem[nth(a, i)], mem[nth(b, i)]);
        lemma_equal_values_symmetric(fuel, mem, a, b, i + 1, n);
    }
}

/// Values compare the same in either order.
pub proof fn lemma_comparison_symmetric(mem: Map<int, usize>, a: Uniform, b: Uniform)
    ensures
        comparison(mem, a, b) == comparison(mem, b, a),
{
    if exists|fuel: nat| (#[trigger] equal(fuel, mem, a, b)) is Some {
        let fuel = choose|fuel: nat| (#[trigger] equal(fuel, mem, a, b)) is Some;
        lemma_equal_symmetric(fuel, mem, a, b);
        lemma_comparison(fuel, mem, a, b);
        lemma_comparison(fuel, mem, b, a);
    } else {
        assert forall|fuel: nat| (#[trigger] equal(fuel, mem, b, a)) is None by {
            lemma_equal_symmetric(fuel, mem, a, b);
        }
    }
}

/// As [`lemma_comparison_transitive`], with a bound on the depth.
proof fn lemma_equal_transitive(
    fuel: nat,
    mem: Map<int, usize>,
    a: Uniform,
    b: Uniform,
    c: Uniform,
)
    requires
        equal(fuel, mem, a, b) == Some(true),
        equal(fuel, mem, b, c) == Some(true),
    ensures
        equal(fuel, mem, a, c) == Some(true),
    decreases fuel, 0nat, 0int,
{
    if a != b && b != c && a != c {
        let a_ptr = normal_ptr(a as int);
        let b_ptr = normal_ptr(b as int);
        let c_ptr = normal_ptr(c as int);
        let n = mem[a_ptr - 8] as int;
        if uniform_type(a as int) == UniformType::PrimitivePtr {
            lemma_same_words_transitive(mem, a_ptr, b_ptr, c_ptr, 0, n);
        } else {
            lemma_equal_values_transitive((fuel - 1) as nat, mem, a_ptr, b_ptr, c_ptr, 0, n);
        }
    }
}

/// As [`lemma_equal_transitive`], for the values of three blocks.
proof fn lemma_equal_values_transitive(
    fuel: nat,
    mem: Map<int, usize>,
    a: int,
    b: int,
    c: int,
    i: int,
    n: int,
)
    requires
        equal_values(fuel, mem, a, b, i, n) == Some(true),
        equal_values(fuel, mem, b, c, i, n) == Some(true),
    ensures
        equal_values(fuel, mem, a, c, i, n) == Some(true),
    decreases fuel, 1nat, n - i,
{
    if i < n {
        lemma_equal_transitive(fuel, mem, mem[nth(a, i)], mem[nth(b, i)], mem[nth(c, i)]);
        lemma_equal_values_transitive(fuel, mem, a, b, c, i + 1, n);
    }
}

/// Two values that are equal to a third are equal.
pub proof fn lemma_comparison_transitive(
    mem: Map<int, usize>,
    a: Uniform,
    b: Uniform,
    c: Uniform,
)
    requires
        comparison(mem, a, b) == Some(true),
        comparison(mem, b, c) == Some(true),
    ensures
        comparison(mem, a, c) == Some(true),
{
    let fuel1 = choose|fuel: nat| (#[trigger] equal(fuel, mem, a, b)) is Some;
    let fuel2 = choose|fuel: nat| (#[trigger] equal(fuel, mem, b, c)) is Some;
    let fuel = fuel1 + fuel2;
    lemma_equal_fuel(fuel1, fuel, mem, a, b);
    lemma_equal_fuel(fuel2, fuel, mem, b, c);
    lemma_equal_transitive(fuel, mem, a, b, c);
    lemma_comparison(fuel, mem, a, c);
}

/// The first operation for an effect of the innermost handler is the one that is found.
pub proof fn lemma_innermost_matches(
    mem: Map<int, usize>,
    handlers: Seq<HandlerEntry>,
    eff: Eff,
    simple: bool,
    k: int,
)
    requires
        handlers.len() > 0,
        0 <= k < operations(handlers.last(), simple).len(),
        comparison(mem, eff, operations(handlers.last(), simple)[k].0) == Some(true),
        none_match(mem, eff, operations(handlers.last(), simple), k),
    ensures
        has_match(mem, handlers, eff, simple),
        matching(mem, handlers, eff, simple) == ({
            let op = operations(handlers.last(), simple)[k];
            (0int, op.1, op.2)
        }),
{
    assert(operations_at(handlers, simple, 0) == operations(handlers.last(), simple));
    assert(is_match(mem, handlers, eff, simple, 0, k));
    let (depth1, k1) = choose|depth1: int, k1: int| #[trigger]
        is_match(mem, handlers, eff, simple, depth1, k1);
    lemma_match_unique(mem, handlers, eff, simple, 0, k, depth1, k1);
}

/// An entry that does not handle an effect is passed over: what is found is what was found without
/// the entry, one entry further out.
pub proof fn lemma_other_entries_are_skipped(
    mem: Map<int, usize>,
    handlers: Seq<HandlerEntry>,
    entry: HandlerEntry,
    eff: Eff,
    simple: bool,
)
    requires
        has_match(mem, handlers, eff, simple),
        none_match(
            mem,
            eff,
            operations(entry, simple),
            operations(entry, simple).len() as int,
        ),
    ensures
        has_match(mem, handlers.push(entry), eff, simple),
        matching(mem, handlers.push(entry), eff, simple) == ({
            let (depth, handler_impl, num_args) = matching(mem, handlers, eff, simple);
            (depth + 1, handler_impl, num_args)
        }),
{
    let more = handlers.push(entry);
    let (depth, k) = choose|depth: int, k: int| #[trigger]
        is_match(mem, handlers, eff, simple, depth, k);
    assert(operations_at(more, simple, depth + 1) == operations_at(handlers, simple, depth));
    assert forall|d: int| 0 <= d < depth + 1 implies {
        let ops = #[trigger] operations_at(more, simple, d);
        none_match(mem, eff, ops, ops.len() as int)
    } by {
        if d > 0 {
            assert(operations_at(more, simple, d) == operations_at(handlers, simple, d - 1));
        }
    }
    assert(is_match(mem, more, eff, simple, depth + 1, k));
    let (depth1, k1) = choose|depth1: int, k1: int| #[trigger]
        is_match(mem, more, eff, simple, depth1, k1);
    lemma_match_unique(mem, more, eff, simple, depth + 1, k, depth1, k1);
}

/// The handler that was registered last is popped first. This gives its parameter and the handlers
/// before.
pub proof fn lemma_registered_is_popped(handlers: Seq<HandlerEntry>, handler: Handler)
    ensures
        handlers.push(HandlerEntry::Handler(handler)).last()->Handler_0.parameter
            == handler.parameter,
        handlers.push(HandlerEntry::Handler(handler)).drop_last() == handlers,
{
    assert(handlers.push(HandlerEntry::Handler(handler)).drop_last() =~= handlers);
}

/// Whether `a` is one of the words that change when the chain of continuations is split.
pub open spec fn is_in_chain(mem: Map<int, usize>, tip: int, base: int, n: int, a: int) -> bool {
    ||| a == height_field(tip)
    ||| a == next_field(base)
    ||| a == height_field(next_in_chain(mem, tip, base, n) as int)
}

/// After a complex operation was prepared, the results tell the function that implements it, its
/// base address and the next continuation. From the base address on are the arguments of the
/// function: those that its thunk holds, the captured continuation, the arguments of the operation,
/// and the parameter of the handler. The argument stack of whoever is behind the handler stays as
/// it is, but for the chain of continuations.
///
/// This holds if the chain is not among the arguments of the operation, and the thunk is not where
/// its arguments are pushed.
pub proof fn lemma_implementation_finds_args(
    memory: Memory,
    handlers: Seq<HandlerEntry>,
    eff: Eff,
    call_base: int,
    tip: usize,
    fuel: nat,
)
    requires
        memory.wf(),
        can_prepare(memory@, memory.end(), handlers, eff, call_base, tip),
        ({
            let (_, handler_impl, n) = matching(memory@, handlers, eff, false);
            let base = handlers[handled_at(
                memory@,
                handlers,
                eff,
            )]->Handler_0.transform_continuation as int;
            let p = prepared(memory@, memory.end(), handlers, eff, call_base, tip);
            let (extra, func) = thunk_args(fuel, p.mem, handler_impl as int)->0;
            let low = nth(p.tip, -extra.len());
            &&& forall|i: int|
                0 <= i < n ==> !is_in_chain(
                    memory@,
                    tip as int,
                    base,
                    n as int,
                    #[trigger] nth(call_base, i),
                )
            &&& thunk_args(fuel, p.mem, handler_impl as int) is Some
            &&& apart(fuel, p.mem, handler_impl as int, low, p.tip)
            &&& has_words(p.mem, low, extra.len())
        }),
    ensures
        ({
            let (_, handler_impl, n) = matching(memory@, handlers, eff, false);
            let handler = handlers[handled_at(memory@, handlers, eff)]->Handler_0;
            let p = prepared(memory@, memory.end(), handlers, eff, call_base, tip);
            let (extra, func) = thunk_args(fuel, p.mem, handler_impl as int)->0;
            let mem = with_results(p);
            let base = p.forced.tip;
            &&& words_at(mem, base - 24, 3) == seq![func as usize, base as usize, p.next]
            &&& words_at(mem, base, (extra.len() + n + 2) as nat) == extra
                + implementation_args(
                memory@,
                memory.end() + 8,
                call_base,
                n as nat,
                handler.parameter,
            )
            &&& nth(base, (extra.len() + n + 2) as int) == args_end(handler)
            &&& forall|a: int|
                memory@.contains_key(a) && a >= args_end(handler) && !is_in_chain(
                    memory@,
                    tip as int,
                    handler.transform_continuation as int,
                    n as int,
                    a,
                ) ==> #[trigger] mem[a] == memory@[a]
        }),
{
    memory.lemma_addresses();
    let end = memory.end();
    let (_, handler_impl, n) = matching(memory@, handlers, eff, false);
    let handler = handlers[handled_at(memory@, handlers, eff)]->Handler_0;
    let base_continuation = handler.transform_continuation as int;
    let p = prepared(memory@, end, handlers, eff, call_base, tip);
    let (extra, func) = thunk_args(fuel, p.mem, handler_impl as int)->0;
    lemma_force_pushes_args(fuel, p.mem, handler_impl as int, p.tip);
    let base = p.forced.tip;
    let mem1 = split_chain(
        memory@,
        tip as int,
        base_continuation,
        n as int,
        handler.transform_num_args as int,
    );
    let mem2 = allocated(mem1, end, CAPTURED_WORDS as nat);
    let args = implementation_args(mem2, end + 8, call_base, n as nat, handler.parameter);
    let given = implementation_args(memory@, end + 8, call_base, n as nat, handler.parameter);
    assert forall|i: int| 0 <= i < n implies mem2[#[trigger] nth(call_base, i)]
        == memory@[nth(call_base, i)] by {
        assert(memory@.contains_key(nth(call_base, i)));
        assert(!is_in_chain(
            memory@,
            tip as int,
            base_continuation,
            n as int,
            nth(call_base, i),
        ));
    }
    assert(args =~= given);
    assert(args.len() == n + 2);
    assert(p.mem == write_words(mem2, p.tip, args));
    assert(p.forced.mem == write_words(p.mem, base, extra));
    let mem = with_results(p);
    let results = seq![func as usize, base as usize, p.next];
    lemma_read_written(p.forced.mem, base - 24, results);
    let all = extra + given;
    assert forall|i: int| 0 <= i < all.len() implies mem[#[trigger] nth(base, i)] == all[i] by {
        let a = nth(base, i);
        assert(!is_among(a, base - 24, 3));
        assert(p.forced.mem.contains_key(a)) by {
            if i < extra.len() {
                assert(is_among(a, base, extra.len()));
            } else {
                assert(is_among(a, p.tip, args.len()));
            }
        }
        assert(mem[a] == p.forced.mem[a]);
        if i < extra.len() {
            assert(is_among(a, base, extra.len()));
            assert((a - base) / 8 == i);
        } else {
            assert(!is_among(a, base, extra.len()));
            assert(is_among(a, p.tip, args.len()));
            assert((a - p.tip) / 8 == i - extra.len());
        }
    }
    assert(words_at(mem, base, all.len()) =~= all);
    assert forall|a: int|
        memory@.contains_key(a) && a >= args_end(handler) && !is_in_chain(
            memory@,
            tip as int,
            base_continuation,
            n as int,
            a,
        ) implies #[trigger] mem[a] == memory@[a] by {
        assert(mem1.contains_key(a) && mem1[a] == memory@[a]);
        assert(mem2.contains_key(a) && mem2[a] == mem1[a]);
        assert(p.mem.contains_key(a) && p.mem[a] == mem2[a]);
        assert(p.forced.mem.contains_key(a) && p.forced.mem[a] == p.mem[a]);
    }
}

/// After a captured continuation was resumed, its stack fragment is on the argument stack again.
/// The result of the operation is in the word below it, and below that are the function of the
/// continuation, the base address and the address of the result.
pub proof fn lemma_resumed_finds_stack(
    mem: Map<int, usize>,
    base_address: int,
    c: Captured,
    result: Uniform,
    next: usize,
)
    requires
        can_resume(mem, base_address, c, result, next),
    ensures
        ({
            let r = resumed(mem, base_address, c, result, next);
            let mem1 = ready_to_resume(r, c.tip_continuation);
            &&& nth(r.base, c.stack_fragment.len() as int) == base_address
            &&& words_at(mem1, r.base, c.stack_fragment.len()) == c.stack_fragment
            &&& mem1[r.base - 8] == result
            &&& words_at(mem1, r.base - 32, 3) == seq![
                r.with_result[c.tip_continuation as int],
                r.base as usize,
                (r.base - 8) as usize,
            ]
        }),
{
    let r = resumed(mem, base_address, c, result, next);
    let mem1 = ready_to_resume(r, c.tip_continuation);
    let results = seq![
        r.with_result[c.tip_continuation as int],
        r.base as usize,
        (r.base - 8) as usize,
    ];
    lemma_read_written(r.with_result, r.base - 32, results);
    assert forall|i: int| 0 <= i < c.stack_fragment.len() implies mem1[#[trigger] nth(r.base, i)]
        == c.stack_fragment[i] by {
        let a = nth(r.base, i);
        assert(is_among(a, r.base, c.stack_fragment.len()));
        assert((a - r.base) / 8 == i);
        assert(!is_among(a, r.base - 32, 3));
    }
    assert(words_at(mem1, r.base, c.stack_fragment.len()) =~= c.stack_fragment);
}

/// A captured continuation that is resumed where it was captured has its stack fragment where it
/// was before: right behind the arguments of the operation. The handler of the operation is the
/// first of those that are registered again.
pub proof fn lemma_resumed_where_captured(
    mem: Map<int, usize>,
    end: int,
    handlers: Seq<HandlerEntry>,
    eff: Eff,
    call_base: int,
    tip: usize,
    later: Map<int, usize>,
    result: Uniform,
    next: usize,
)
    requires
        can_prepare(mem, end, handlers, eff, call_base, tip),
        ({
            let handler = handlers[handled_at(mem, handlers, eff)]->Handler_0;
            let c = prepared(mem, end, handlers, eff, call_base, tip).captured;
            can_resume(later, args_end(handler), c, result, next)
        }),
    ensures
        ({
            let (_, _, n) = matching(mem, handlers, eff, false);
            let handler = handlers[handled_at(mem, handlers, eff)]->Handler_0;
            let c = prepared(mem, end, handlers, eff, call_base, tip).captured;
            let r = resumed(later, args_end(handler), c, result, next);
            let again = absolute(c.handler_fragment, r.handler_base as usize);
            let fragment = nth(call_base, n as int);
            let mem1 = split_chain(
                mem,
                tip as int,
                handler.transform_continuation as int,
                n as int,
                handler.transform_num_args as int,
            );
            &&& r.base == fragment
            &&& words_at(
                ready_to_resume(r, tip),
                fragment,
                fragment_len(handler, call_base, n as int) as nat,
            ) == words_at(
                mem1,
                fragment,
                fragment_len(handler, call_base, n as int) as nat,
            )
            &&& again.len() == handlers.len() - handled_at(mem, handlers, eff)
            &&& again[0]->Handler_0 == (Handler {
                transform_base_address: r.handler_base as usize,
                ..handler
            })
            &&& forall|i: int|
                0 <= i < again.len() ==> ({
                    let before = handlers[handled_at(mem, handlers, eff) + i]->Handler_0;
                    let after = (#[trigger] again[i])->Handler_0;
                    let offset = before.transform_base_address.wrapping_sub(
                        handler.transform_base_address,
                    );
                    after == (Handler {
                        transform_base_address: (r.handler_base as usize).wrapping_add(
                            offset.wrapping_mul(8),
                        ),
                        ..before
                    })
                })
        }),
{
    let (_, _, n) = matching(mem, handlers, eff, false);
    let index = handled_at(mem, handlers, eff);
    let handler = handlers[index]->Handler_0;
    let c = prepared(mem, end, handlers, eff, call_base, tip).captured;
    lemma_resumed_finds_stack(later, args_end(handler), c, result, next);
    let (depth, k) = choose|depth: int, k: int| #[trigger]
        is_match(mem, handlers, eff, false, depth, k);
    assert(index == handlers.len() - 1 - depth);
    assert(handlers.skip(index)[0] == handlers[index]);
    let r = resumed(later, args_end(handler), c, result, next);
    let base = r.handler_base as usize;
    let again = absolute(c.handler_fragment, base);
    let zero: usize = 0;
    assert(handler.transform_base_address.wrapping_sub(handler.transform_base_address) == zero);
    vstd::arithmetic::div_mod::lemma_small_mod(0, (usize::MAX - usize::MIN + 1) as nat);
    assert(zero.wrapping_mul(8) == zero);
    assert(base.wrapping_add(zero) == base);
    assert(again[0]->Handler_0 == (Handler { transform_base_address: base, ..handler }));
    assert forall|i: int| 0 <= i < again.len() implies ({
        let before = handlers[index + i]->Handler_0;
        let offset = before.transform_base_address.wrapping_sub(handler.transform_base_address);
        (#[trigger] again[i])->Handler_0 == (Handler {
            transform_base_address: base.wrapping_add(offset.wrapping_mul(8)),
            ..before
        })
    }) by {
        assert(handlers.skip(index)[i] == handlers[index + i]);
    }
}

} // verus!
