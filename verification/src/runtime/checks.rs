//! Tests of whether the functions of the runtime can do their work on the words that are in memory.
//! They come to an end on any words: values and thunks that are nested too deep fail them.
use crate::runtime::handler::{HandlerEntry, Runtime};
use crate::runtime::laws::{lemma_comparison, lemma_equal_fuel};
use crate::runtime::memory::{nth, Memory};
use crate::runtime::runtime_utils::{
    args_end, can_prepare, can_split_chain, comparison, equal, equal_values, force, fragment_len,
    handled_at, has_match, implementation_args, is_match, lemma_force_fuel, lemma_forced,
    lemma_match_unique, lemma_split_chain_addresses, matching, none_match, operations_at, prepared,
    runtime_alloc, runtime_try_force_thunk, same_words, split_chain, CAPTURED_WORDS,
};
use crate::runtime::types::{to_normal_ptr, Eff, ThunkPtr, Uniform, UniformType};
use vstd::prelude::*;

verus! {

/// Compares two blocks of `size` words, or returns `None` if a word that has to be looked at is
/// missing.
fn try_compare_words(memory: &Memory, a_ptr: usize, b_ptr: usize, size: usize) -> (r: Option<bool>)
    requires
        memory.wf(),
    ensures
        r == same_words(memory@, a_ptr as int, b_ptr as int, 0, size as int),
{
    let ghost goal = same_words(memory@, a_ptr as int, b_ptr as int, 0, size as int);
    let mut i: usize = 0;
    while i < size
        invariant
            memory.wf(),
            i <= size,
            goal == same_words(memory@, a_ptr as int, b_ptr as int, 0, size as int),
            goal == same_words(memory@, a_ptr as int, b_ptr as int, i as int, size as int),
        decreases size - i,
    {
        proof {
            memory.lemma_addresses();
        }
        if i > usize::MAX / 8 {
            return None;
        }
        if !memory.contains_at(a_ptr, 8 * i) || !memory.contains_at(b_ptr, 8 * i) {
            return None;
        }
        if memory.read(a_ptr + 8 * i) != memory.read(b_ptr + 8 * i) {
            return Some(false);
        }
        i = i + 1;
    }
    Some(true)
}

/// Does what [`crate::runtime::runtime_utils::compare_uniform`] does, for any words: it returns
/// `None` if a word that has to be looked at is missing, or if the values are nested more than
/// `depth` deep.
pub fn try_compare_uniform(memory: &Memory, a: Uniform, b: Uniform, depth: usize) -> (r: Option<
    bool,
>)
    requires
        memory.wf(),
    ensures
        r == equal(depth as nat, memory@, a, b),
        r is Some ==> r == comparison(memory@, a, b),
    decreases depth,
{
    proof {
        memory.lemma_addresses();
        if equal(depth as nat, memory@, a, b) is Some {
            lemma_comparison(depth as nat, memory@, a, b);
        }
    }
    if a == b {
        return Some(true);
    }
    let a_type = UniformType::from_bits(a);
    let b_type = UniformType::from_bits(b);
    if a_type != b_type {
        return Some(false);
    }
    if a_type == UniformType::Raw {
        return Some(false);
    }
    let a_ptr = to_normal_ptr(a);
    let b_ptr = to_normal_ptr(b);
    if a_ptr < 8 || b_ptr < 8 || !memory.contains(a_ptr - 8) || !memory.contains(b_ptr - 8) {
        return None;
    }
    let a_size = memory.read(a_ptr - 8);
    let b_size = memory.read(b_ptr - 8);
    if a_size != b_size {
        return Some(false);
    }
    if a_type == UniformType::PrimitivePtr {
        return try_compare_words(memory, a_ptr, b_ptr, a_size);
    }
    if depth == 0 {
        return None;
    }
    let ghost inner = (depth - 1) as nat;
    let ghost goal = equal(depth as nat, memory@, a, b);
    let mut i: usize = 0;
    while i < a_size
        invariant
            memory.wf(),
            depth > 0,
            inner == depth - 1,
            i <= a_size,
            goal == equal(depth as nat, memory@, a, b),
            goal is Some ==> goal == comparison(memory@, a, b),
            goal == equal_values(
                inner,
                memory@,
                a_ptr as int,
                b_ptr as int,
                i as int,
                a_size as int,
            ),
        decreases a_size - i,
    {
        proof {
            memory.lemma_addresses();
        }
        if i > usize::MAX / 8 {
            return None;
        }
        if !memory.contains_at(a_ptr, 8 * i) || !memory.contains_at(b_ptr, 8 * i) {
            return None;
        }
        let a_word = memory.read(a_ptr + 8 * i);
        let b_word = memory.read(b_ptr + 8 * i);
        match try_compare_uniform(memory, a_word, b_word, depth - 1) {
            Some(true) => {},
            other => return other,
        }
        i = i + 1;
    }
    Some(true)
}

/// The position of the first operation for the effect `eff` from the `k`-th of `ops` on, which is
/// `ops.len()` if there is none, or `None` if an effect up to there cannot be compared within
/// `fuel`.
pub open spec fn search_operations(
    fuel: nat,
    mem: Map<int, usize>,
    eff: Eff,
    ops: Seq<(Eff, ThunkPtr, usize)>,
    k: int,
) -> Option<int>
    decreases ops.len() - k,
{
    if k >= ops.len() {
        Some(ops.len() as int)
    } else {
        match equal(fuel, mem, eff, ops[k].0) {
            Some(true) => Some(k),
            Some(false) => search_operations(fuel, mem, eff, ops, k + 1),
            None => None,
        }
    }
}

/// The positions of the innermost handler of the effect `eff` from the `depth`-th entry on, counted
/// from the innermost, and of the operation, or `None` if there is none, or if an effect up to
/// there cannot be compared within `fuel`.
pub open spec fn search_handlers(
    fuel: nat,
    mem: Map<int, usize>,
    handlers: Seq<HandlerEntry>,
    eff: Eff,
    simple: bool,
    depth: int,
) -> Option<(int, int)>
    decreases handlers.len() - depth,
{
    if depth >= handlers.len() {
        None
    } else {
        let ops = operations_at(handlers, simple, depth);
        match search_operations(fuel, mem, eff, ops, 0) {
            Some(k) => if k < ops.len() {
                Some((depth, k))
            } else {
                search_handlers(fuel, mem, handlers, eff, simple, depth + 1)
            },
            None => None,
        }
    }
}

/// The first operation that a search finds is the first for the effect.
proof fn lemma_search_operations(
    fuel: nat,
    mem: Map<int, usize>,
    eff: Eff,
    ops: Seq<(Eff, ThunkPtr, usize)>,
    k: int,
)
    requires
        0 <= k <= ops.len(),
        none_match(mem, eff, ops, k),
        search_operations(fuel, mem, eff, ops, k) is Some,
    ensures
        ({
            let found = search_operations(fuel, mem, eff, ops, k)->0;
            &&& k <= found <= ops.len()
            &&& none_match(mem, eff, ops, found)
            &&& found < ops.len() ==> comparison(mem, eff, ops[found].0) == Some(true)
        }),
    decreases ops.len() - k,
{
    if k < ops.len() {
        lemma_comparison(fuel, mem, eff, ops[k].0);
        if equal(fuel, mem, eff, ops[k].0) == Some(false) {
            lemma_search_operations(fuel, mem, eff, ops, k + 1);
        }
    }
}

/// A search finds the innermost handler of an effect.
pub proof fn lemma_search_handlers(
    fuel: nat,
    mem: Map<int, usize>,
    handlers: Seq<HandlerEntry>,
    eff: Eff,
    simple: bool,
    depth: int,
)
    requires
        0 <= depth,
        search_handlers(fuel, mem, handlers, eff, simple, depth) is Some,
        forall|d: int|
            0 <= d < depth ==> {
                let ops = #[trigger] operations_at(handlers, simple, d);
                none_match(mem, eff, ops, ops.len() as int)
            },
    ensures
        ({
            let (d, k) = search_handlers(fuel, mem, handlers, eff, simple, depth)->0;
            let op = operations_at(handlers, simple, d)[k];
            &&& is_match(mem, handlers, eff, simple, d, k)
            &&& has_match(mem, handlers, eff, simple)
            &&& matching(mem, handlers, eff, simple) == (d, op.1, op.2)
        }),
    decreases handlers.len() - depth,
{
    let ops = operations_at(handlers, simple, depth);
    lemma_search_operations(fuel, mem, eff, ops, 0);
    let k = search_operations(fuel, mem, eff, ops, 0)->0;
    if k < ops.len() {
        assert(is_match(mem, handlers, eff, simple, depth, k));
        let (d1, k1) = choose|d: int, k: int| #[trigger]
            is_match(mem, handlers, eff, simple, d, k);
        lemma_match_unique(mem, handlers, eff, simple, depth, k, d1, k1);
    } else {
        lemma_search_handlers(fuel, mem, handlers, eff, simple, depth + 1);
    }
}

/// Where the first `k` operations are not for an effect, and the `k`-th is if there is one, a
/// search finds that within some depth, and within any greater one.
proof fn lemma_operations_found(
    mem: Map<int, usize>,
    eff: Eff,
    ops: Seq<(Eff, ThunkPtr, usize)>,
    from: int,
    k: int,
) -> (fuel: nat)
    requires
        0 <= from <= k <= ops.len(),
        none_match(mem, eff, ops, k),
        k < ops.len() ==> comparison(mem, eff, ops[k].0) == Some(true),
    ensures
        forall|more: nat|
            fuel <= more ==> #[trigger] search_operations(more, mem, eff, ops, from) == Some(k),
    decreases k - from,
{
    if from == ops.len() {
        0
    } else {
        let expected = from == k;
        assert(comparison(mem, eff, ops[from].0) == Some(expected));
        let here = choose|fuel: nat| (#[trigger] equal(fuel, mem, eff, ops[from].0)) is Some;
        let rest = if expected {
            0
        } else {
            lemma_operations_found(mem, eff, ops, from + 1, k)
        };
        let fuel = if here <= rest {
            rest
        } else {
            here
        };
        assert forall|more: nat| fuel <= more implies #[trigger] search_operations(
            more,
            mem,
            eff,
            ops,
            from,
        ) == Some(k) by {
            lemma_equal_fuel(here, more, mem, eff, ops[from].0);
            if !expected {
                assert(search_operations(more, mem, eff, ops, from + 1) == Some(k));
            }
        }
        fuel
    }
}

/// Where a handler of an effect is the innermost, a search finds it within some depth, and within
/// any greater one.
proof fn lemma_handler_found_from(
    mem: Map<int, usize>,
    handlers: Seq<HandlerEntry>,
    eff: Eff,
    simple: bool,
    from: int,
    depth: int,
    k: int,
) -> (fuel: nat)
    requires
        is_match(mem, handlers, eff, simple, depth, k),
        0 <= from <= depth,
    ensures
        forall|more: nat|
            fuel <= more ==> #[trigger] search_handlers(more, mem, handlers, eff, simple, from)
                == Some((depth, k)),
    decreases depth - from,
{
    let ops = operations_at(handlers, simple, from);
    let at = if from == depth {
        k
    } else {
        ops.len() as int
    };
    let here = lemma_operations_found(mem, eff, ops, 0, at);
    let rest = if from == depth {
        0
    } else {
        lemma_handler_found_from(mem, handlers, eff, simple, from + 1, depth, k)
    };
    let fuel = if here <= rest {
        rest
    } else {
        here
    };
    assert forall|more: nat| fuel <= more implies #[trigger] search_handlers(
        more,
        mem,
        handlers,
        eff,
        simple,
        from,
    ) == Some((depth, k)) by {
        assert(search_operations(more, mem, eff, ops, 0) == Some(at));
        if from < depth {
            assert(search_handlers(more, mem, handlers, eff, simple, from + 1) == Some((depth, k)));
        }
    }
    fuel
}

/// Where some handler handles an effect, a search finds it within some depth, and within any
/// greater one.
pub proof fn lemma_handler_is_found(
    mem: Map<int, usize>,
    handlers: Seq<HandlerEntry>,
    eff: Eff,
    simple: bool,
) -> (fuel: nat)
    requires
        has_match(mem, handlers, eff, simple),
    ensures
        forall|more: nat|
            fuel <= more ==> (#[trigger] search_handlers(
                more,
                mem,
                handlers,
                eff,
                simple,
                0,
            )) is Some,
{
    let (depth, k) = choose|depth: int, k: int| #[trigger]
        is_match(mem, handlers, eff, simple, depth, k);
    lemma_handler_found_from(mem, handlers, eff, simple, 0, depth, k)
}

/// An operation that can be prepared can be prepared within some depth, and within any greater one.
pub proof fn lemma_prepared_within(
    mem: Map<int, usize>,
    end: int,
    handlers: Seq<HandlerEntry>,
    eff: Eff,
    call_base: int,
    tip: usize,
) -> (fuel: nat)
    requires
        can_prepare(mem, end, handlers, eff, call_base, tip),
    ensures
        forall|more: nat|
            fuel <= more ==> #[trigger] can_prepare_within(
                more,
                mem,
                end,
                handlers,
                eff,
                call_base,
                tip,
            ),
{
    let (_, handler_impl, _) = matching(mem, handlers, eff, false);
    let p = prepared(mem, end, handlers, eff, call_base, tip);
    let found = lemma_handler_is_found(mem, handlers, eff, false);
    let thunk = handler_impl as int;
    let forced = choose|fuel: nat| (#[trigger] force(fuel, p.mem, thunk, p.tip)) is Some;
    let fuel = if found <= forced {
        forced
    } else {
        found
    };
    assert forall|more: nat| fuel <= more implies #[trigger] can_prepare_within(
        more,
        mem,
        end,
        handlers,
        eff,
        call_base,
        tip,
    ) by {
        assert(search_handlers(more, mem, handlers, eff, false, 0) is Some);
        lemma_force_fuel(forced, more, p.mem, thunk, p.tip);
    }
    fuel
}

/// Searches `ops` for the effect `eff`. Returns the number of operations if there is none for it.
fn try_find_operation(
    memory: &Memory,
    ops: &Vec<(Eff, ThunkPtr, usize)>,
    eff: Eff,
    depth: usize,
) -> (r: Option<usize>)
    requires
        memory.wf(),
    ensures
        match search_operations(depth as nat, memory@, eff, ops@, 0) {
            Some(k) => r is Some && r->0 == k,
            None => r is None,
        },
{
    let ghost goal = search_operations(depth as nat, memory@, eff, ops@, 0);
    for i in 0..ops.len()
        invariant
            memory.wf(),
            goal == search_operations(depth as nat, memory@, eff, ops@, 0),
            goal == search_operations(depth as nat, memory@, eff, ops@, i as int),
    {
        match try_compare_uniform(memory, eff, ops[i].0, depth) {
            Some(true) => return Some(i),
            Some(false) => {},
            None => return None,
        }
    }
    Some(ops.len())
}

/// Does what [`crate::runtime::runtime_utils::find_matching_handler`] does, for any handlers and
/// words: it returns `None` if there is no handler, or if an effect up to there cannot be compared
/// within `depth`.
pub fn try_find_matching_handler(rt: &Runtime, eff: Eff, simple: bool, depth: usize) -> (r: Option<
    (usize, ThunkPtr, usize),
>)
    requires
        rt.wf(),
    ensures
        r is Some <==> search_handlers(
            depth as nat,
            rt.memory@,
            rt.handlers@,
            eff,
            simple,
            0,
        ) is Some,
        r is Some ==> {
            &&& has_match(rt.memory@, rt.handlers@, eff, simple)
            &&& ((r->0).0 as int, (r->0).1, (r->0).2) == matching(
                rt.memory@,
                rt.handlers@,
                eff,
                simple,
            )
            &&& (r->0).0 < rt.handlers@.len()
            &&& rt.handlers@[rt.handlers@.len() - 1 - (r->0).0] is Handler
        },
{
    let ghost mem = rt.memory@;
    let ghost handlers = rt.handlers@;
    let ghost goal = search_handlers(depth as nat, mem, handlers, eff, simple, 0);
    proof {
        if goal is Some {
            lemma_search_handlers(depth as nat, mem, handlers, eff, simple, 0);
        }
    }
    let len = rt.handlers.len();
    let mut i: usize = 0;
    while i < len
        invariant
            rt.wf(),
            mem == rt.memory@,
            handlers == rt.handlers@,
            len == handlers.len(),
            i <= len,
            goal == search_handlers(depth as nat, mem, handlers, eff, simple, 0),
            goal == search_handlers(depth as nat, mem, handlers, eff, simple, i as int),
            goal is Some ==> {
                let (d, k) = goal->0;
                let op = operations_at(handlers, simple, d)[k];
                &&& has_match(mem, handlers, eff, simple)
                &&& matching(mem, handlers, eff, simple) == (d, op.1, op.2)
            },
        decreases len - i,
    {
        let ghost ops = operations_at(handlers, simple, i as int);
        match &rt.handlers[len - 1 - i] {
            HandlerEntry::Handler(handler) => {
                let found_ops = if simple {
                    &handler.simple_handler
                } else {
                    &handler.complex_handler
                };
                assert(found_ops@ == ops);
                match try_find_operation(&rt.memory, found_ops, eff, depth) {
                    Some(k) => {
                        if k < found_ops.len() {
                            return Some((i, found_ops[k].1, found_ops[k].2));
                        }
                    },
                    None => return None,
                }
            },
            HandlerEntry::Marker => {
                assert(ops.len() == 0);
            },
        }
        i = i + 1;
    }
    None
}

/// Whether the complex operation `eff` can be prepared, where effects are compared and the
/// implementation is forced within `fuel`.
pub open spec fn can_prepare_within(
    fuel: nat,
    mem: Map<int, usize>,
    end: int,
    handlers: Seq<HandlerEntry>,
    eff: Eff,
    call_base: int,
    tip: usize,
) -> bool {
    let (_, handler_impl, _) = matching(mem, handlers, eff, false);
    let p = prepared(mem, end, handlers, eff, call_base, tip);
    &&& search_handlers(fuel, mem, handlers, eff, false, 0) is Some
    &&& can_prepare(mem, end, handlers, eff, call_base, tip)
    &&& force(fuel, p.mem, handler_impl as int, p.tip) is Some
}

/// Splits the chain of continuations behind `base`, or returns `false` if that cannot be done.
fn try_split_continuations(memory: &mut Memory, tip: usize, base: usize, n: usize, t: usize) -> (r:
    bool)
    requires
        old(memory).wf(),
    ensures
        final(memory).wf(),
        final(memory).start() == old(memory).start(),
        final(memory).end() == old(memory).end(),
        r == can_split_chain(old(memory)@, tip as int, base as int, n as int, t as int),
        r ==> final(memory)@ == split_chain(
            old(memory)@,
            tip as int,
            base as int,
            n as int,
            t as int,
        ),
{
    proof {
        memory.lemma_addresses();
    }
    if !memory.contains_at(tip, 16) || !memory.contains_at(base, 8) {
        return false;
    }
    let tip_height = memory.read(tip + 16);
    if tip_height < n {
        return false;
    }
    memory.write(tip + 16, tip_height - n);
    let next = memory.read(base + 8);
    if !memory.contains_at(next, 16) {
        return false;
    }
    memory.write(base + 8, 0);
    let next_height = memory.read(next + 16);
    let new_height: i128 = next_height as i128 + n as i128 + 2 - t as i128;
    if new_height < 0 || new_height > usize::MAX as i128 {
        return false;
    }
    memory.write(next + 16, new_height as usize);
    true
}

/// Whether [`crate::runtime::runtime_utils::runtime_prepare_complex_operation`] can prepare the
/// operation `eff`, where effects are compared and the implementation is forced within `depth`.
pub fn can_prepare_operation(
    rt: &Runtime,
    eff: Eff,
    handler_call_base_address: usize,
    tip_continuation: usize,
    depth: usize,
) -> (r: bool)
    requires
        rt.wf(),
    ensures
        r == can_prepare_within(
            depth as nat,
            rt.memory@,
            rt.memory.end(),
            rt.handlers@,
            eff,
            handler_call_base_address as int,
            tip_continuation,
        ),
        r ==> can_prepare(
            rt.memory@,
            rt.memory.end(),
            rt.handlers@,
            eff,
            handler_call_base_address as int,
            tip_continuation,
        ),
{
    let ghost mem = rt.memory@;
    let ghost end = rt.memory.end();
    let ghost handlers = rt.handlers@;
    let ghost call_base = handler_call_base_address as int;
    let ghost p = prepared(mem, end, handlers, eff, call_base, tip_continuation);
    proof {
        rt.memory.lemma_addresses();
    }
    let (position, handler_impl, num_args) = match try_find_matching_handler(
        rt,
        eff,
        false,
        depth,
    ) {
        Some(found) => found,
        None => return false,
    };
    let len = rt.handlers.len();
    let index = len - 1 - position;
    assert(index == handled_at(mem, handlers, eff));
    for i in index..len
        invariant
            len == rt.handlers@.len(),
            handlers == rt.handlers@,
            forall|j: int| index <= j < i ==> (#[trigger] handlers[j]) is Handler,
            index == handled_at(mem, handlers, eff),
            mem == rt.memory@,
            end == rt.memory.end(),
            call_base == handler_call_base_address,
    {
        if let HandlerEntry::Marker = &rt.handlers[i] {
            assert(!(handlers[i as int] is Handler));
            return false;
        }
    }
    let (base_address, base_continuation, transform_num_args, parameter) =
        match &rt.handlers[index] {
        HandlerEntry::Handler(handler) => (
            handler.transform_base_address,
            handler.transform_continuation,
            handler.transform_num_args,
            handler.parameter,
        ),
        HandlerEntry::Marker => vstd::pervasive::unreached(),
    };
    let ghost handler = handlers[index as int]->Handler_0;

    let mut memory = rt.memory.copy();
    if !try_split_continuations(
        &mut memory,
        tip_continuation,
        base_continuation,
        num_args,
        transform_num_args,
    ) {
        return false;
    }
    let ghost mem1 = memory@;
    proof {
        lemma_split_chain_addresses(
            mem,
            tip_continuation as int,
            base_continuation as int,
            num_args as int,
            transform_num_args as int,
        );
    }

    // The stack fragment is between the arguments of the operation and the end of those of the
    // handler.
    let fragment_start: u128 = handler_call_base_address as u128 + 8 * (num_args as u128);
    let fragment_end: u128 = base_address as u128 + 8 * (transform_num_args as u128);
    assert(fragment_start == nth(call_base, num_args as int));
    assert(fragment_end == args_end(handler));
    if fragment_start > fragment_end || fragment_end > usize::MAX as u128 || (fragment_end
        - fragment_start) % 8 != 0 {
        return false;
    }
    let length = (fragment_end - fragment_start) / 8;
    assert(length == fragment_len(handler, call_base, num_args as int));
    if !rt.memory.contains_words(fragment_start as usize, length as usize) {
        return false;
    }
    if rt.memory.limit() > usize::MAX - 8 * (CAPTURED_WORDS + 1) {
        return false;
    }
    if !rt.memory.contains_words(handler_call_base_address, num_args) {
        return false;
    }

    // The arguments of the implementation are below the end of those of the handler.
    let num_words: u128 = num_args as u128 + 2;
    if fragment_end < 8 * num_words {
        assert(!mem.contains_key(nth(p.tip, 0)));
        return false;
    }
    let args_base = (fragment_end - 8 * num_words) as usize;
    assert(args_base == p.tip);
    if num_words > usize::MAX as u128 || !rt.memory.contains_words(args_base, num_words as usize) {
        return false;
    }

    let captured_continuation = runtime_alloc(&mut memory, CAPTURED_WORDS);
    let ghost mem2 = memory@;
    assert forall|i: int| 0 <= i < num_args implies mem2.contains_key(
        #[trigger] nth(call_base, i),
    ) by {
        assert(mem.contains_key(nth(call_base, i)));
    }
    let mut operation_args = memory.read_words(handler_call_base_address, num_args);
    let mut args: Vec<usize> = Vec::new();
    args.push(UniformType::to_uniform_sptr(captured_continuation));
    args.append(&mut operation_args);
    args.push(parameter);
    assert(args@ =~= implementation_args(mem2, end + 8, call_base, num_args as nat, parameter));
    assert forall|i: int| 0 <= i < num_words implies mem2.contains_key(
        #[trigger] nth(p.tip, i),
    ) by {
        assert(mem.contains_key(nth(p.tip, i)));
    }
    memory.write_all(args_base, &args);
    assert(memory@ == p.mem);

    let mut tip_address = args_base;
    let forced = runtime_try_force_thunk(&mut memory, handler_impl, &mut tip_address, depth);
    if forced.is_none() {
        return false;
    }
    proof {
        lemma_forced(depth as nat, p.mem, handler_impl as int, p.tip);
        assert(tip_address == p.forced.tip);
        assert(nth(p.forced.tip - 24, 0) == p.forced.tip - 24);
    }
    if tip_address < 24 {
        assert(!mem.contains_key(nth(p.forced.tip - 24, 0)));
        return false;
    }
    rt.memory.contains_words(tip_address - 24, 3)
}

} // verus!
