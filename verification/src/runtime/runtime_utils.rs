//! The functions that generated code calls at run time.
//!
//! The argument stack grows towards lower addresses. A continuation is a block of memory: the
//! address of its function, the address of the next continuation, the number of words that it has
//! on the argument stack, its state, and its local variables.
use crate::runtime::handler::{Captured, CapturedContinuation, Handler, HandlerEntry, Runtime};
use crate::runtime::memory::{has_words, is_among, nth, words_at, write_words, Memory};
use crate::runtime::types::{
    normal_ptr, to_normal_ptr, uniform_sptr, uniform_type, Eff, ThunkPtr, Uniform, UniformType,
};
use vstd::prelude::*;

verus! {

/// The number of words of an argument stack: 8 MB of space.
pub const STACK_WORDS: usize = 1048576;

/// `n` words that are 0.
pub open spec fn zeros(n: nat) -> Seq<usize> {
    Seq::new(n, |i: int| 0usize)
}

/// The memory `mem` with a new block of `n` words, all 0, behind its end. The word before the block
/// holds its size.
pub open spec fn allocated(mem: Map<int, usize>, end: int, n: nat) -> Map<int, usize> {
    write_words(mem, end, seq![n as usize] + zeros(n))
}

/// Allocates a block of `num_words` words. The word before it holds its size.
pub fn runtime_alloc(memory: &mut Memory, num_words: usize) -> (r: usize)
    requires
        old(memory).wf(),
        old(memory).end() + 8 * (num_words + 1) <= usize::MAX,
    ensures
        final(memory).wf(),
        final(memory).start() == old(memory).start(),
        final(memory).end() == old(memory).end() + 8 * (num_words + 1),
        r == old(memory).end() + 8,
        r % 8 == 0,
        final(memory)@ == allocated(old(memory)@, old(memory).end(), num_words as nat),
{
    proof {
        memory.lemma_addresses();
    }
    let ptr = memory.grow(num_words + 1);
    proof {
        memory.lemma_addresses();
        assert(is_among(ptr as int, old(memory).end(), (num_words + 1) as nat));
    }
    // Write the size of this allocation
    memory.write(ptr, num_words);
    assert(memory@ =~= allocated(old(memory)@, old(memory).end(), num_words as nat));
    ptr + 8
}

/// Allocates a single word, without a size.
pub fn runtime_word_box(memory: &mut Memory) -> (r: usize)
    requires
        old(memory).wf(),
        old(memory).end() + 8 <= usize::MAX,
    ensures
        final(memory).wf(),
        final(memory).start() == old(memory).start(),
        final(memory).end() == old(memory).end() + 8,
        r == old(memory).end(),
        final(memory)@ == write_words(old(memory)@, old(memory).end(), zeros(1)),
{
    memory.grow(1)
}

/// Allocates an argument stack and returns the address behind its last word, where it is empty.
pub fn runtime_alloc_stack(memory: &mut Memory) -> (r: usize)
    requires
        old(memory).wf(),
        old(memory).end() + 8 * STACK_WORDS <= usize::MAX,
    ensures
        final(memory).wf(),
        final(memory).start() == old(memory).start(),
        final(memory).end() == old(memory).end() + 8 * STACK_WORDS,
        r == final(memory).end(),
        final(memory)@ == write_words(
            old(memory)@,
            old(memory).end(),
            zeros(STACK_WORDS as nat),
        ),
{
    let start = memory.grow(STACK_WORDS);
    start + 8 * STACK_WORDS
}

/// The memory and the tip of the argument stack after the first `k` arguments of the thunk at
/// `ptr` were pushed, the last of them first, or `None` if a word is missing.
pub open spec fn push_args(mem: Map<int, usize>, ptr: int, tip: int, k: nat) -> Option<
    (Map<int, usize>, int),
>
    decreases k,
{
    if k == 0 {
        Some((mem, tip))
    } else if mem.contains_key(nth(ptr, k as int + 1)) && mem.contains_key(tip - 8) {
        push_args(mem.insert(tip - 8, mem[nth(ptr, k as int + 1)]), ptr, tip - 8, (k - 1) as nat)
    } else {
        None
    }
}

/// What forcing a thunk leads to.
pub struct Forced {
    /// The memory afterwards.
    pub mem: Map<int, usize>,
    /// The tip of the argument stack afterwards.
    pub tip: int,
    /// The address of the underlying function.
    pub func: int,
}

/// What forcing `thunk` leads to, or `None` if a word is missing or the thunk is nested more than
/// `fuel` deep. A primitive pointer is a function. Any other pointer leads to a block that holds a
/// further thunk, the number of arguments and the arguments: these are pushed, and the further
/// thunk is forced.
pub open spec fn force(fuel: nat, mem: Map<int, usize>, thunk: int, tip: int) -> Option<Forced>
    decreases fuel,
{
    let ptr = normal_ptr(thunk);
    if uniform_type(thunk) == UniformType::PrimitivePtr {
        Some(Forced { mem, tip, func: ptr })
    } else if fuel == 0 || !has_words(mem, ptr, 2) {
        None
    } else {
        match push_args(mem, ptr, tip, mem[nth(ptr, 1)] as nat) {
            Some((mem1, tip1)) => force((fuel - 1) as nat, mem1, mem[nth(ptr, 0)] as int, tip1),
            None => None,
        }
    }
}

/// Whether `thunk` can be forced: its arguments are in memory, there is room for them on the
/// argument stack, and there is a function at its end.
pub open spec fn can_force(mem: Map<int, usize>, thunk: int, tip: int) -> bool {
    exists|fuel: nat| (#[trigger] force(fuel, mem, thunk, tip)) is Some
}

/// What forcing `thunk` leads to.
pub open spec fn forced(mem: Map<int, usize>, thunk: int, tip: int) -> Forced {
    let fuel = choose|fuel: nat| (#[trigger] force(fuel, mem, thunk, tip)) is Some;
    force(fuel, mem, thunk, tip)->0
}

/// Pushes the arguments of the thunk at `thunk_ptr`.
fn push_thunk_args(
    memory: &mut Memory,
    thunk_ptr: usize,
    num_args: usize,
    tip_address: usize,
) -> (r: usize)
    requires
        old(memory).wf(),
        push_args(old(memory)@, thunk_ptr as int, tip_address as int, num_args as nat) is Some,
    ensures
        final(memory).wf(),
        final(memory).start() == old(memory).start(),
        final(memory).end() == old(memory).end(),
        push_args(old(memory)@, thunk_ptr as int, tip_address as int, num_args as nat) == Some(
            (final(memory)@, r as int),
        ),
{
    let mut tip_address = tip_address;
    let mut i = num_args;
    let ghost goal = push_args(memory@, thunk_ptr as int, tip_address as int, num_args as nat);
    while i > 0
        invariant
            memory.wf(),
            memory.start() == old(memory).start(),
            memory.end() == old(memory).end(),
            goal is Some,
            push_args(memory@, thunk_ptr as int, tip_address as int, i as nat) == goal,
        decreases i,
    {
        proof {
            memory.lemma_addresses();
        }
        let arg = memory.read(thunk_ptr + 8 + 8 * i);
        tip_address = tip_address - 8;
        memory.write(tip_address, arg);
        i = i - 1;
    }
    tip_address
}

/// Forces `thunk`, which is nested no more than `fuel` deep.
fn force_thunk(
    memory: &mut Memory,
    thunk: usize,
    tip_address: &mut usize,
    Ghost(fuel): Ghost<nat>,
) -> (r: usize)
    requires
        old(memory).wf(),
        force(fuel, old(memory)@, thunk as int, *old(tip_address) as int) is Some,
    ensures
        final(memory).wf(),
        final(memory).start() == old(memory).start(),
        final(memory).end() == old(memory).end(),
        force(fuel, old(memory)@, thunk as int, *old(tip_address) as int) == Some(
            (Forced {
                mem: final(memory)@,
                tip: *final(tip_address) as int,
                func: r as int,
            }),
        ),
    decreases fuel,
{
    let thunk_ptr = to_normal_ptr(thunk);
    if UniformType::from_bits(thunk) == UniformType::PrimitivePtr {
        thunk_ptr
    } else {
        proof {
            memory.lemma_addresses();
            assert(memory@.contains_key(nth(thunk_ptr as int, 0)));
            assert(memory@.contains_key(nth(thunk_ptr as int, 1)));
        }
        let next_thunk = memory.read(thunk_ptr);
        let num_args = memory.read(thunk_ptr + 8);
        *tip_address = push_thunk_args(memory, thunk_ptr, num_args, *tip_address);
        force_thunk(memory, next_thunk, tip_address, Ghost((fuel - 1) as nat))
    }
}

/// Takes a function or thunk, pushes any arguments to the tip of the argument stack, and returns
/// the address of the underlying raw function.
pub fn runtime_force_thunk(memory: &mut Memory, thunk: ThunkPtr, tip_address: &mut usize) -> (r:
    usize)
    requires
        old(memory).wf(),
        can_force(old(memory)@, thunk as int, *old(tip_address) as int),
    ensures
        final(memory).wf(),
        final(memory).start() == old(memory).start(),
        final(memory).end() == old(memory).end(),
        forced(old(memory)@, thunk as int, *old(tip_address) as int) == (Forced {
            mem: final(memory)@,
            tip: *final(tip_address) as int,
            func: r as int,
        }),
{
    let ghost fuel = choose|fuel: nat|
        (#[trigger] force(fuel, memory@, thunk as int, *tip_address as int)) is Some;
    force_thunk(memory, thunk, tip_address, Ghost(fuel))
}

/// Pushes the arguments of the thunk at `thunk_ptr`, or returns `None` if a word is missing.
fn try_push_thunk_args(
    memory: &mut Memory,
    thunk_ptr: usize,
    num_args: usize,
    tip_address: usize,
) -> (r: Option<usize>)
    requires
        old(memory).wf(),
    ensures
        final(memory).wf(),
        final(memory).start() == old(memory).start(),
        final(memory).end() == old(memory).end(),
        match push_args(
            old(memory)@,
            thunk_ptr as int,
            tip_address as int,
            num_args as nat,
        ) {
            Some((mem, tip)) => r is Some && r->0 == tip && final(memory)@ == mem,
            None => r is None,
        },
{
    let mut tip = tip_address;
    let mut i = num_args;
    let limit = memory.limit();
    let ghost goal = push_args(memory@, thunk_ptr as int, tip as int, num_args as nat);
    while i > 0
        invariant
            memory.wf(),
            memory.start() == old(memory).start(),
            memory.end() == old(memory).end(),
            limit == memory.end(),
            push_args(memory@, thunk_ptr as int, tip as int, i as nat) == goal,
            goal == push_args(
                old(memory)@,
                thunk_ptr as int,
                tip_address as int,
                num_args as nat,
            ),
        decreases i,
    {
        proof {
            memory.lemma_addresses();
        }
        if thunk_ptr >= limit || i >= (limit - thunk_ptr) / 8 || tip < 8 {
            return None;
        }
        if !memory.contains(thunk_ptr + 8 + 8 * i) || !memory.contains(tip - 8) {
            return None;
        }
        let arg = memory.read(thunk_ptr + 8 + 8 * i);
        tip = tip - 8;
        memory.write(tip, arg);
        i = i - 1;
    }
    Some(tip)
}

/// Does what [`runtime_force_thunk`] does, for any word: it returns `None` if a word of a thunk or
/// of the argument stack is missing, or if the thunk is nested more than `depth` deep. In that case
/// some arguments may have been pushed.
pub fn runtime_try_force_thunk(
    memory: &mut Memory,
    thunk: ThunkPtr,
    tip_address: &mut usize,
    depth: usize,
) -> (r: Option<usize>)
    requires
        old(memory).wf(),
    ensures
        final(memory).wf(),
        final(memory).start() == old(memory).start(),
        final(memory).end() == old(memory).end(),
        match force(depth as nat, old(memory)@, thunk as int, *old(tip_address) as int) {
            Some(forced) => {
                &&& r is Some
                &&& forced == (Forced {
                    mem: final(memory)@,
                    tip: *final(tip_address) as int,
                    func: r->0 as int,
                })
            },
            None => r is None,
        },
        r is Some ==> can_force(old(memory)@, thunk as int, *old(tip_address) as int),
    decreases depth,
{
    let thunk_ptr = to_normal_ptr(thunk);
    if UniformType::from_bits(thunk) == UniformType::PrimitivePtr {
        assert(force(depth as nat, memory@, thunk as int, *tip_address as int) is Some);
        return Some(thunk_ptr);
    }
    proof {
        memory.lemma_addresses();
        assert(nth(thunk_ptr as int, 0) == thunk_ptr);
        assert(has_words(memory@, thunk_ptr as int, 2) ==> memory@.contains_key(
            nth(thunk_ptr as int, 0),
        ) && memory@.contains_key(nth(thunk_ptr as int, 1)));
    }
    if depth == 0 || !memory.contains(thunk_ptr) || !memory.contains(thunk_ptr + 8) {
        return None;
    }
    let next_thunk = memory.read(thunk_ptr);
    let num_args = memory.read(thunk_ptr + 8);
    match try_push_thunk_args(memory, thunk_ptr, num_args, *tip_address) {
        Some(tip) => {
            *tip_address = tip;
            let r = runtime_try_force_thunk(memory, next_thunk, tip_address, depth - 1);
            proof {
                let whole = force(
                    depth as nat,
                    old(memory)@,
                    thunk as int,
                    *old(tip_address) as int,
                );
                assert(r is Some ==> whole is Some);
            }
            r
        },
        None => None,
    }
}

/// Whether the words from the `i`-th to the `n`-th at `a` and `b` are the same, or `None` if one
/// that has to be looked at is missing.
pub open spec fn same_words(mem: Map<int, usize>, a: int, b: int, i: int, n: int) -> Option<bool>
    decreases n - i,
{
    if i >= n {
        Some(true)
    } else if !mem.contains_key(nth(a, i)) || !mem.contains_key(nth(b, i)) {
        None
    } else if mem[nth(a, i)] != mem[nth(b, i)] {
        Some(false)
    } else {
        same_words(mem, a, b, i + 1, n)
    }
}

/// Whether the values from the `i`-th to the `n`-th at `a` and `b` are equal, or `None` if a word
/// that has to be looked at is missing or the values are nested more than `fuel` deep.
pub open spec fn equal_values(
    fuel: nat,
    mem: Map<int, usize>,
    a: int,
    b: int,
    i: int,
    n: int,
) -> Option<bool>
    decreases fuel, 1nat, n - i,
{
    if i >= n {
        Some(true)
    } else if !mem.contains_key(nth(a, i)) || !mem.contains_key(nth(b, i)) {
        None
    } else {
        match equal(fuel, mem, mem[nth(a, i)], mem[nth(b, i)]) {
            Some(true) => equal_values(fuel, mem, a, b, i + 1, n),
            other => other,
        }
    }
}

/// Whether the values `a` and `b` are equal, or `None` if a word that has to be looked at is
/// missing or the values are nested more than `fuel` deep. Pointers are equal if they lead to
/// blocks of the same size with equal contents.
pub open spec fn equal(fuel: nat, mem: Map<int, usize>, a: Uniform, b: Uniform) -> Option<bool>
    decreases fuel, 0nat, 0int,
{
    let a_ptr = normal_ptr(a as int);
    let b_ptr = normal_ptr(b as int);
    if a == b {
        Some(true)
    } else if uniform_type(a as int) != uniform_type(b as int) {
        Some(false)
    } else if uniform_type(a as int) == UniformType::Raw {
        Some(false)
    } else if !mem.contains_key(a_ptr - 8) || !mem.contains_key(b_ptr - 8) {
        None
    } else if mem[a_ptr - 8] != mem[b_ptr - 8] {
        Some(false)
    } else if uniform_type(a as int) == UniformType::PrimitivePtr {
        same_words(mem, a_ptr, b_ptr, 0, mem[a_ptr - 8] as int)
    } else if fuel == 0 {
        None
    } else {
        equal_values((fuel - 1) as nat, mem, a_ptr, b_ptr, 0, mem[a_ptr - 8] as int)
    }
}

/// Whether the values `a` and `b` are equal, or `None` if that cannot be told.
pub open spec fn comparison(mem: Map<int, usize>, a: Uniform, b: Uniform) -> Option<bool> {
    if exists|fuel: nat| (#[trigger] equal(fuel, mem, a, b)) is Some {
        let fuel = choose|fuel: nat| (#[trigger] equal(fuel, mem, a, b)) is Some;
        equal(fuel, mem, a, b)
    } else {
        None
    }
}

/// Compares two blocks of `size` words.
fn compare_words(memory: &Memory, a_ptr: usize, b_ptr: usize, size: usize) -> (r: bool)
    requires
        memory.wf(),
        same_words(memory@, a_ptr as int, b_ptr as int, 0, size as int) is Some,
    ensures
        Some(r) == same_words(memory@, a_ptr as int, b_ptr as int, 0, size as int),
{
    let ghost goal = same_words(memory@, a_ptr as int, b_ptr as int, 0, size as int);
    for i in 0..size
        invariant
            memory.wf(),
            goal is Some,
            goal == same_words(memory@, a_ptr as int, b_ptr as int, 0, size as int),
            goal == same_words(memory@, a_ptr as int, b_ptr as int, i as int, size as int),
    {
        proof {
            memory.lemma_addresses();
        }
        if memory.read(a_ptr + 8 * i) != memory.read(b_ptr + 8 * i) {
            return false;
        }
    }
    true
}

/// Compares two values that are nested no more than `fuel` deep.
fn compare(memory: &Memory, a: Uniform, b: Uniform, Ghost(fuel): Ghost<nat>) -> (r: bool)
    requires
        memory.wf(),
        equal(fuel, memory@, a, b) is Some,
    ensures
        Some(r) == equal(fuel, memory@, a, b),
    decreases fuel,
{
    if a == b {
        return true;
    }
    let a_type = UniformType::from_bits(a);
    let b_type = UniformType::from_bits(b);
    if a_type != b_type {
        return false;
    }
    if a_type == UniformType::Raw {
        return false;
    }
    let a_ptr = to_normal_ptr(a);
    let b_ptr = to_normal_ptr(b);
    proof {
        memory.lemma_addresses();
    }
    let a_size = memory.read(a_ptr - 8);
    let b_size = memory.read(b_ptr - 8);
    if a_size != b_size {
        return false;
    }
    if a_type == UniformType::PrimitivePtr {
        return compare_words(memory, a_ptr, b_ptr, a_size);
    }
    let ghost inner = (fuel - 1) as nat;
    let ghost goal = equal_values(
        inner,
        memory@,
        a_ptr as int,
        b_ptr as int,
        0,
        a_size as int,
    );
    for i in 0..a_size
        invariant
            memory.wf(),
            fuel > 0,
            inner == fuel - 1,
            goal is Some,
            goal == equal(fuel, memory@, a, b),
            goal == equal_values(
                inner,
                memory@,
                a_ptr as int,
                b_ptr as int,
                i as int,
                a_size as int,
            ),
    {
        proof {
            memory.lemma_addresses();
        }
        if !compare(
            memory,
            memory.read(a_ptr + 8 * i),
            memory.read(b_ptr + 8 * i),
            Ghost(inner),
        ) {
            return false;
        }
    }
    true
}

/// Whether two values in uniform representation are equal.
pub fn compare_uniform(memory: &Memory, a: Uniform, b: Uniform) -> (r: bool)
    requires
        memory.wf(),
        comparison(memory@, a, b) is Some,
    ensures
        Some(r) == comparison(memory@, a, b),
{
    let ghost fuel = choose|fuel: nat| (#[trigger] equal(fuel, memory@, a, b)) is Some;
    compare(memory, a, b, Ghost(fuel))
}

/// The operations of the given kind that the entry `e` handles.
pub open spec fn operations(e: HandlerEntry, simple: bool) -> Seq<(Eff, ThunkPtr, usize)> {
    match e {
        HandlerEntry::Handler(handler) => if simple {
            handler.simple_handler@
        } else {
            handler.complex_handler@
        },
        HandlerEntry::Marker => Seq::empty(),
    }
}

/// Whether none of the first `k` of `ops` is for the effect `eff`.
pub open spec fn none_match(
    mem: Map<int, usize>,
    eff: Eff,
    ops: Seq<(Eff, ThunkPtr, usize)>,
    k: int,
) -> bool {
    forall|j: int| 0 <= j < k ==> comparison(mem, eff, (#[trigger] ops[j]).0) == Some(false)
}

/// The operations of the `depth`-th handler entry, counted from the innermost.
pub open spec fn operations_at(handlers: Seq<HandlerEntry>, simple: bool, depth: int) -> Seq<
    (Eff, ThunkPtr, usize),
> {
    operations(handlers[handlers.len() - 1 - depth], simple)
}

/// Whether the `k`-th operation of the `depth`-th handler entry, counted from the innermost, is the
/// first for the effect `eff`.
pub open spec fn is_match(
    mem: Map<int, usize>,
    handlers: Seq<HandlerEntry>,
    eff: Eff,
    simple: bool,
    depth: int,
    k: int,
) -> bool {
    let ops = operations_at(handlers, simple, depth);
    &&& 0 <= depth < handlers.len()
    &&& 0 <= k < ops.len()
    &&& comparison(mem, eff, ops[k].0) == Some(true)
    &&& none_match(mem, eff, ops, k)
    &&& forall|d: int|
        0 <= d < depth ==> {
            let ops = #[trigger] operations_at(handlers, simple, d);
            none_match(mem, eff, ops, ops.len() as int)
        }
}

/// Whether some handler handles the effect `eff`, and all effects up to there can be compared.
pub open spec fn has_match(
    mem: Map<int, usize>,
    handlers: Seq<HandlerEntry>,
    eff: Eff,
    simple: bool,
) -> bool {
    exists|depth: int, k: int| #[trigger] is_match(mem, handlers, eff, simple, depth, k)
}

/// The position of the innermost handler of the effect `eff`, counted from the innermost entry, the
/// implementation of the operation, and the number of its arguments.
pub open spec fn matching(
    mem: Map<int, usize>,
    handlers: Seq<HandlerEntry>,
    eff: Eff,
    simple: bool,
) -> (int, ThunkPtr, usize) {
    let (depth, k) = choose|depth: int, k: int| #[trigger]
        is_match(mem, handlers, eff, simple, depth, k);
    let op = operations_at(handlers, simple, depth)[k];
    (depth, op.1, op.2)
}

/// There is no more than one first operation for an effect.
pub proof fn lemma_match_unique(
    mem: Map<int, usize>,
    handlers: Seq<HandlerEntry>,
    eff: Eff,
    simple: bool,
    depth1: int,
    k1: int,
    depth2: int,
    k2: int,
)
    requires
        is_match(mem, handlers, eff, simple, depth1, k1),
        is_match(mem, handlers, eff, simple, depth2, k2),
    ensures
        depth1 == depth2,
        k1 == k2,
{
    let ops1 = operations_at(handlers, simple, depth1);
    let ops2 = operations_at(handlers, simple, depth2);
    assert(comparison(mem, eff, ops1[k1].0) == Some(true));
    assert(comparison(mem, eff, ops2[k2].0) == Some(true));
}

/// Searches `ops` for the effect `eff`, which can be compared with all of them up to the one that
/// matches.
fn find_operation(
    memory: &Memory,
    ops: &Vec<(Eff, ThunkPtr, usize)>,
    eff: Eff,
    Ghost(k): Ghost<int>,
) -> (r: Option<(ThunkPtr, usize)>)
    requires
        memory.wf(),
        0 <= k <= ops@.len(),
        none_match(memory@, eff, ops@, k),
        k < ops@.len() ==> comparison(memory@, eff, ops@[k].0) == Some(true),
    ensures
        r == (if k < ops@.len() {
            Some((ops@[k].1, ops@[k].2))
        } else {
            None
        }),
{
    for i in 0..ops.len()
        invariant
            memory.wf(),
            i <= k <= ops@.len(),
            none_match(memory@, eff, ops@, k),
            k < ops@.len() ==> comparison(memory@, eff, ops@[k].0) == Some(true),
    {
        assert(i < k ==> comparison(memory@, eff, ops@[i as int].0) == Some(false));
        if compare_uniform(memory, eff, ops[i].0) {
            return Some((ops[i].1, ops[i].2));
        }
    }
    None
}

/// Finds the innermost handler of the effect `eff`. Returns its position, counted from the
/// innermost entry, the implementation of the operation and the number of arguments of the latter.
pub fn find_matching_handler(rt: &Runtime, eff: Eff, simple: bool) -> (r: (usize, ThunkPtr, usize))
    requires
        rt.wf(),
        has_match(rt.memory@, rt.handlers@, eff, simple),
    ensures
        (r.0 as int, r.1, r.2) == matching(rt.memory@, rt.handlers@, eff, simple),
        r.0 < rt.handlers@.len(),
        rt.handlers@[rt.handlers@.len() - 1 - r.0] is Handler,
{
    let ghost (depth, k) = choose|depth: int, k: int| #[trigger]
        is_match(rt.memory@, rt.handlers@, eff, simple, depth, k);
    let len = rt.handlers.len();
    let mut i: usize = 0;
    while i < len
        invariant
            rt.wf(),
            len == rt.handlers@.len(),
            i <= depth < len,
            is_match(rt.memory@, rt.handlers@, eff, simple, depth, k),
            matching(rt.memory@, rt.handlers@, eff, simple) == ({
                let op = operations_at(rt.handlers@, simple, depth)[k];
                (depth, op.1, op.2)
            }),
        decreases len - i,
    {
        let ghost ops = operations_at(rt.handlers@, simple, i as int);
        let ghost at = if i == depth {
            k
        } else {
            ops.len() as int
        };
        let found = match &rt.handlers[len - 1 - i] {
            HandlerEntry::Handler(handler) => {
                if simple {
                    find_operation(&rt.memory, &handler.simple_handler, eff, Ghost(at))
                } else {
                    find_operation(&rt.memory, &handler.complex_handler, eff, Ghost(at))
                }
            },
            HandlerEntry::Marker => None,
        };
        if let Some((handler_impl, num_args)) = found {
            assert(i == depth);
            assert(ops[k].1 == handler_impl && ops[k].2 == num_args);
            return (i, handler_impl, num_args);
        }
        i = i + 1;
    }
    vstd::pervasive::unreached()
}

/// The address of the word of the continuation at `c` that holds the address of the next one.
pub open spec fn next_field(c: int) -> int {
    c + 8
}

/// The address of the word of the continuation at `c` that holds the number of words that it has
/// on the argument stack.
pub open spec fn height_field(c: int) -> int {
    c + 16
}

/// Removes the innermost handler and returns its parameter.
pub fn runtime_pop_handler(rt: &mut Runtime) -> (r: Uniform)
    requires
        old(rt).handlers@.len() > 0,
        old(rt).handlers@.last() is Handler,
    ensures
        r == old(rt).handlers@.last()->Handler_0.parameter,
        final(rt).handlers@ == old(rt).handlers@.drop_last(),
        final(rt).memory == old(rt).memory,
        final(rt).captured == old(rt).captured,
{
    match rt.handlers.pop() {
        Some(HandlerEntry::Handler(handler)) => handler.parameter,
        _ => vstd::pervasive::unreached(),
    }
}

/// The innermost handler.
pub fn runtime_get_current_handler(rt: &mut Runtime) -> (r: &mut Handler)
    requires
        old(rt).handlers@.len() > 0,
        old(rt).handlers@.last() is Handler,
    ensures
        *r == old(rt).handlers@.last()->Handler_0,
        final(rt).handlers@ == old(rt).handlers@.drop_last().push(
            HandlerEntry::Handler(*final(r)),
        ),
        final(rt).memory == old(rt).memory,
        final(rt).captured == old(rt).captured,
{
    let last = rt.handlers.len() - 1;
    match &mut rt.handlers[last] {
        HandlerEntry::Handler(handler) => handler,
        HandlerEntry::Marker => vstd::pervasive::unreached(),
    }
}

/// Adds a simple operation to `handler`.
pub fn runtime_add_simple_handler(
    handler: &mut Handler,
    eff: Eff,
    handler_impl: ThunkPtr,
    num_args: usize,
)
    ensures
        final(handler).simple_handler@ == old(handler).simple_handler@.push(
            (eff, handler_impl, num_args),
        ),
        *final(handler) == (Handler {
            simple_handler: final(handler).simple_handler,
            ..*old(handler)
        }),
{
    handler.simple_handler.push((eff, handler_impl, num_args));
}

/// Adds a complex operation to `handler`.
pub fn runtime_add_complex_handler(
    handler: &mut Handler,
    eff: Eff,
    handler_impl: ThunkPtr,
    num_args: usize,
)
    ensures
        final(handler).complex_handler@ == old(handler).complex_handler@.push(
            (eff, handler_impl, num_args),
        ),
        *final(handler) == (Handler {
            complex_handler: final(handler).complex_handler,
            ..*old(handler)
        }),
{
    handler.complex_handler.push((eff, handler_impl, num_args));
}

/// The number of words of a captured continuation.
pub const CAPTURED_WORDS: usize = 8;

/// The position of the innermost handler of the complex operation `eff`, counted from the outermost
/// entry.
pub open spec fn handled_at(mem: Map<int, usize>, handlers: Seq<HandlerEntry>, eff: Eff) -> int {
    handlers.len() - 1 - matching(mem, handlers, eff, false).0
}

/// The memory after the chain of continuations was split behind `base`. The operation and its
/// handler have `n` and `t` arguments.
///
/// The continuation `tip` gives up the arguments of the operation. The one after `base` gets those
/// of the implementation of the operation, which are two more, in place of those of the handler.
pub open spec fn split_chain(mem: Map<int, usize>, tip: int, base: int, n: int, t: int) -> Map<
    int,
    usize,
> {
    let mem1 = mem.insert(height_field(tip), (mem[height_field(tip)] - n) as usize);
    let next = mem1[next_field(base)] as int;
    let mem2 = mem1.insert(next_field(base), 0);
    mem2.insert(height_field(next), (mem2[height_field(next)] + (n + 2 - t)) as usize)
}

/// The continuation after `base` when the chain is split there.
pub open spec fn next_in_chain(mem: Map<int, usize>, tip: int, base: int, n: int) -> usize {
    mem.insert(height_field(tip), (mem[height_field(tip)] - n) as usize)[next_field(base)]
}

/// Whether the chain of continuations can be split behind `base`: all words are there and no
/// height leaves its range.
pub open spec fn can_split_chain(
    mem: Map<int, usize>,
    tip: int,
    base: int,
    n: int,
    t: int,
) -> bool {
    let mem1 = mem.insert(height_field(tip), (mem[height_field(tip)] - n) as usize);
    let next = mem1[next_field(base)] as int;
    let mem2 = mem1.insert(next_field(base), 0);
    &&& mem.contains_key(height_field(tip))
    &&& mem[height_field(tip)] >= n
    &&& mem.contains_key(next_field(base))
    &&& mem.contains_key(height_field(next))
    &&& 0 <= mem2[height_field(next)] + (n + 2 - t) <= usize::MAX
}

/// The address behind the arguments of `handler` on the argument stack.
pub open spec fn args_end(handler: Handler) -> int {
    nth(handler.transform_base_address as int, handler.transform_num_args as int)
}

/// The number of words on the argument stack between the arguments of an operation, of which there
/// are `n` at `call_base`, and the end of those of `handler`.
pub open spec fn fragment_len(handler: Handler, call_base: int, n: int) -> int {
    (args_end(handler) - nth(call_base, n)) / 8
}

/// The handlers of `entries` with their base addresses relative to `base`. An address below `base`
/// gets the offset that leads there when additions wrap around.
pub open spec fn relative(entries: Seq<HandlerEntry>, base: usize) -> Seq<Handler> {
    Seq::new(
        entries.len(),
        |i: int|
            Handler {
                transform_base_address: entries[i]->Handler_0.transform_base_address.wrapping_sub(
                    base,
                ),
                ..entries[i]->Handler_0
            },
    )
}

/// The arguments of the implementation of an operation: the captured continuation, the `n`
/// arguments of the operation at `call_base`, and the parameter of the handler.
pub open spec fn implementation_args(
    mem: Map<int, usize>,
    captured: int,
    call_base: int,
    n: nat,
    parameter: Uniform,
) -> Seq<usize> {
    seq![uniform_sptr(captured) as usize] + words_at(mem, call_base, n) + seq![parameter]
}

/// What preparing a complex operation leads to.
pub struct Prepared {
    /// The captured continuation.
    pub captured: Captured,
    /// The memory and the argument stack when the implementation is about to be forced.
    pub mem: Map<int, usize>,
    pub tip: int,
    /// What forcing the implementation leads to.
    pub forced: Forced,
    /// The continuation after the implementation.
    pub next: usize,
}

/// What preparing the complex operation `eff` leads to. Its arguments are at `call_base`, and `tip`
/// is the continuation of the computation that performs it. Memory ends at `end`.
///
/// The continuation and the argument stack up to the innermost handler of the operation are
/// captured. The arguments of the implementation take the place of those of the handler on the
/// argument stack, and the implementation is forced.
pub open spec fn prepared(
    mem: Map<int, usize>,
    end: int,
    handlers: Seq<HandlerEntry>,
    eff: Eff,
    call_base: int,
    tip: usize,
) -> Prepared {
    let (_, handler_impl, n) = matching(mem, handlers, eff, false);
    let index = handled_at(mem, handlers, eff);
    let handler = handlers[index]->Handler_0;
    let base = handler.transform_continuation;
    let t = handler.transform_num_args as int;
    let mem1 = split_chain(mem, tip as int, base as int, n as int, t);
    let mem2 = allocated(mem1, end, CAPTURED_WORDS as nat);
    let args = implementation_args(mem2, end + 8, call_base, n as nat, handler.parameter);
    let args_base = nth(args_end(handler), -args.len());
    let mem3 = write_words(mem2, args_base, args);
    Prepared {
        captured: Captured {
            tip_continuation: tip,
            base_continuation: base,
            handler_fragment: relative(handlers.skip(index), handler.transform_base_address),
            stack_fragment: words_at(
                mem1,
                nth(call_base, n as int),
                fragment_len(handler, call_base, n as int) as nat,
            ),
        },
        mem: mem3,
        tip: args_base,
        forced: forced(mem3, handler_impl as int, args_base),
        next: next_in_chain(mem, tip as int, base as int, n as int),
    }
}

/// The memory after an operation was prepared: below the arguments of the implementation are its
/// function, the address of its arguments and the continuation after it.
pub open spec fn with_results(p: Prepared) -> Map<int, usize> {
    write_words(
        p.forced.mem,
        p.forced.tip - 24,
        seq![p.forced.func as usize, p.forced.tip as usize, p.next],
    )
}

/// Whether the complex operation `eff` can be prepared: there is a handler for it, only handlers
/// are between it and the innermost, all words that have to be looked at or written are there, and
/// there is memory left.
pub open spec fn can_prepare(
    mem: Map<int, usize>,
    end: int,
    handlers: Seq<HandlerEntry>,
    eff: Eff,
    call_base: int,
    tip: usize,
) -> bool {
    let (_, handler_impl, n) = matching(mem, handlers, eff, false);
    let index = handled_at(mem, handlers, eff);
    let handler = handlers[index]->Handler_0;
    let p = prepared(mem, end, handlers, eff, call_base, tip);
    &&& has_match(mem, handlers, eff, false)
    &&& forall|i: int|
        index <= i < handlers.len() ==> (#[trigger] handlers[i]) is Handler
    &&& can_split_chain(
        mem,
        tip as int,
        handler.transform_continuation as int,
        n as int,
        handler.transform_num_args as int,
    )
    &&& nth(call_base, n as int) <= args_end(handler) <= usize::MAX
    &&& (args_end(handler) - call_base) % 8 == 0
    &&& has_words(
        mem,
        nth(call_base, n as int),
        fragment_len(handler, call_base, n as int) as nat,
    )
    &&& end + 8 * (CAPTURED_WORDS + 1) <= usize::MAX
    &&& has_words(mem, call_base, n as nat)
    &&& has_words(mem, p.tip, (n + 2) as nat)
    &&& can_force(p.mem, handler_impl as int, p.tip)
    &&& has_words(mem, p.forced.tip - 24, 3)
}

/// The handlers of `entries` with their base addresses relative to `base`.
fn relative_handlers(entries: Vec<HandlerEntry>, base: usize) -> (r: Vec<Handler>)
    requires
        forall|i: int| 0 <= i < entries@.len() ==> (#[trigger] entries@[i]) is Handler,
    ensures
        r@ == relative(entries@, base),
{
    let ghost all = entries@;
    let mut r: Vec<Handler> = Vec::new();
    for entry in iter: entries
        invariant
            iter.seq() == all,
            forall|i: int| 0 <= i < all.len() ==> (#[trigger] all[i]) is Handler,
            r@ == relative(all.take(iter.index() as int), base),
    {
        let ghost k = iter.index() as int;
        assert(entry == all[k]);
        match entry {
            HandlerEntry::Handler(handler) => {
                let mut handler = handler;
                handler.transform_base_address = handler.transform_base_address.wrapping_sub(base);
                r.push(handler);
            },
            HandlerEntry::Marker => vstd::pervasive::unreached(),
        }
        assert(r@ =~= relative(all.take(k + 1), base));
    }
    assert(all.take(all.len() as int) =~= all);
    r
}

/// The memory `mem` has the same addresses after the chain was split.
pub proof fn lemma_split_chain_addresses(mem: Map<int, usize>, tip: int, base: int, n: int, t: int)
    requires
        can_split_chain(mem, tip, base, n, t),
    ensures
        split_chain(mem, tip, base, n, t).dom() == mem.dom(),
{
    assert(split_chain(mem, tip, base, n, t).dom() =~= mem.dom());
}

/// Splits the chain of continuations behind `base` and returns the continuation after it.
fn split_continuations(memory: &mut Memory, tip: usize, base: usize, n: usize, t: usize) -> (r:
    usize)
    requires
        old(memory).wf(),
        can_split_chain(old(memory)@, tip as int, base as int, n as int, t as int),
    ensures
        final(memory).wf(),
        final(memory).start() == old(memory).start(),
        final(memory).end() == old(memory).end(),
        final(memory)@ == split_chain(
            old(memory)@,
            tip as int,
            base as int,
            n as int,
            t as int,
        ),
        r == next_in_chain(old(memory)@, tip as int, base as int, n as int),
{
    proof {
        memory.lemma_addresses();
    }
    // The captured continuation does not have the arguments of the operation in its stack
    // fragment.
    let tip_height = memory.read(tip + 16);
    memory.write(tip + 16, tip_height - n);
    let next = memory.read(base + 8);
    // Tie up the end of the captured continuation.
    memory.write(base + 8, 0);
    // The two more are the parameter of the handler and the captured continuation.
    let next_height = memory.read(next + 16);
    let ghost with_tied_end = memory@;
    proof {
        memory.lemma_addresses();
        assert(with_tied_end[height_field(next as int)] == next_height);
    }
    let new_height = if n >= t {
        next_height + (n - t) + 2
    } else if t - n <= 2 {
        next_height + (2 - (t - n))
    } else {
        next_height - (t - n - 2)
    };
    memory.write(next + 16, new_height);
    next
}

/// Prepares the call of the implementation of the complex operation `eff`. The arguments of the
/// operation are at `handler_call_base_address`, and `tip_continuation` is the address of the
/// continuation of the computation that performs it.
///
/// Returns the address of the following results, which are on the argument stack:
/// - address + 0: the address of the function that implements the operation
/// - address + 8: the base address, from which this function will find its arguments
/// - address + 16: the address of the next continuation after the function finishes
pub fn runtime_prepare_complex_operation(
    rt: &mut Runtime,
    eff: Eff,
    handler_call_base_address: usize,
    tip_continuation: usize,
) -> (r: usize)
    requires
        old(rt).wf(),
        can_prepare(
            old(rt).memory@,
            old(rt).memory.end(),
            old(rt).handlers@,
            eff,
            handler_call_base_address as int,
            tip_continuation,
        ),
    ensures
        final(rt).wf(),
        final(rt).memory.start() == old(rt).memory.start(),
        final(rt).memory.end() == old(rt).memory.end() + 8 * (CAPTURED_WORDS + 1),
        final(rt).handlers@ == old(rt).handlers@.take(
            handled_at(old(rt).memory@, old(rt).handlers@, eff),
        ),
        ({
            let p = prepared(
                old(rt).memory@,
                old(rt).memory.end(),
                old(rt).handlers@,
                eff,
                handler_call_base_address as int,
                tip_continuation,
            );
            &&& final(rt).continuations() == old(rt).continuations().insert(
                (old(rt).memory.end() + 8) as usize,
                p.captured,
            )
            &&& final(rt).memory@ == with_results(p)
            &&& r == p.forced.tip - 24
        }),
{
    broadcast use vstd::std_specs::hash::group_hash_axioms;

    let ghost mem = rt.memory@;
    let ghost end = rt.memory.end();
    let ghost handlers = rt.handlers@;
    let ghost call_base = handler_call_base_address as int;
    let ghost p = prepared(mem, end, handlers, eff, call_base, tip_continuation);
    proof {
        rt.memory.lemma_addresses();
    }
    let (depth, handler_impl, num_args) = find_matching_handler(rt, eff, false);
    let index = rt.handlers.len() - 1 - depth;
    let entry_fragment = rt.handlers.split_off(index);
    assert(entry_fragment@ =~= handlers.skip(index as int));
    assert(entry_fragment@[0] == handlers[index as int]);
    let ghost handler = handlers[index as int]->Handler_0;
    let (base_address, base_continuation, transform_num_args, parameter) =
        match &entry_fragment[0] {
        HandlerEntry::Handler(handler) => (
            handler.transform_base_address,
            handler.transform_continuation,
            handler.transform_num_args,
            handler.parameter,
        ),
        HandlerEntry::Marker => vstd::pervasive::unreached(),
    };

    // Split the chain of continuations at the matching handler.
    let next_continuation = split_continuations(
        &mut rt.memory,
        tip_continuation,
        base_continuation,
        num_args,
        transform_num_args,
    );
    let ghost mem1 = rt.memory@;
    proof {
        lemma_split_chain_addresses(
            mem,
            tip_continuation as int,
            base_continuation as int,
            num_args as int,
            transform_num_args as int,
        );
    }

    // Copy the stack fragment.
    let stack_fragment_end = base_address + 8 * transform_num_args;
    let stack_fragment_start = handler_call_base_address + 8 * num_args;
    let stack_fragment_length = (stack_fragment_end - stack_fragment_start) / 8;
    assert forall|i: int| 0 <= i < stack_fragment_length implies mem1.contains_key(
        #[trigger] nth(stack_fragment_start as int, i),
    ) by {
        assert(mem.contains_key(nth(stack_fragment_start as int, i)));
    }
    let stack_fragment = rt.memory.read_words(stack_fragment_start, stack_fragment_length);

    // Copy the handler fragment.
    assert forall|i: int| 0 <= i < entry_fragment@.len() implies (
    #[trigger] entry_fragment@[i]) is Handler by {
        assert(entry_fragment@[i] == handlers[index + i]);
    }
    let handler_fragment = relative_handlers(entry_fragment, base_address);

    let captured_continuation = runtime_alloc(&mut rt.memory, CAPTURED_WORDS);
    let ghost mem2 = rt.memory@;
    rt.captured.insert(
        captured_continuation,
        CapturedContinuation {
            tip_continuation,
            base_continuation,
            handler_fragment,
            stack_fragment,
        },
    );
    assert(rt.continuations() =~= old(rt).continuations().insert(
        captured_continuation,
        p.captured,
    ));

    // Set up the arguments of the implementation.
    assert forall|i: int| 0 <= i < num_args implies mem2.contains_key(
        #[trigger] nth(call_base, i),
    ) by {
        assert(mem.contains_key(nth(call_base, i)));
    }
    let operation_args = rt.memory.read_words(handler_call_base_address, num_args);
    let mut args: Vec<usize> = Vec::new();
    args.push(UniformType::to_uniform_sptr(captured_continuation));
    let mut operation_args = operation_args;
    args.append(&mut operation_args);
    args.push(parameter);
    assert(args@ =~= implementation_args(mem2, end + 8, call_base, num_args as nat, parameter));
    assert(args@.len() == num_args + 2);
    assert(mem.contains_key(nth(p.tip, 0)));
    let mut tip_address = stack_fragment_end - 8 * (num_args + 2);
    assert forall|i: int| 0 <= i < num_args + 2 implies mem2.contains_key(
        #[trigger] nth(p.tip, i),
    ) by {
        assert(mem.contains_key(nth(p.tip, i)));
    }
    rt.memory.write_all(tip_address, &args);
    assert(rt.memory@ == p.mem);

    // Set up the results.
    let handler_function = runtime_force_thunk(&mut rt.memory, handler_impl, &mut tip_address);
    proof {
        rt.memory.lemma_addresses();
        assert(mem.contains_key(nth(p.forced.tip - 24, 0)));
        assert(mem.contains_key(nth(p.forced.tip - 24, 1)));
        assert(mem.contains_key(nth(p.forced.tip - 24, 2)));
    }
    let result = tip_address - 24;
    let mut results: Vec<usize> = Vec::new();
    results.push(handler_function);
    results.push(tip_address);
    results.push(next_continuation);
    assert(results@ =~= seq![p.forced.func as usize, p.forced.tip as usize, p.next]);
    rt.memory.write_all(result, &results);
    result
}

/// Pushing arguments lowers the tip of the argument stack by one word for each, and keeps what is
/// in memory elsewhere.
pub proof fn lemma_push_args(mem: Map<int, usize>, ptr: int, tip: int, k: nat)
    requires
        push_args(mem, ptr, tip, k) is Some,
    ensures
        ({
            let (mem1, tip1) = push_args(mem, ptr, tip, k)->0;
            &&& tip1 == tip - 8 * k
            &&& mem1.dom() == mem.dom()
            &&& forall|a: int| !is_among(a, tip1, k) ==> #[trigger] mem1[a] == mem[a]
        }),
    decreases k,
{
    if k > 0 {
        let mem1 = mem.insert(tip - 8, mem[nth(ptr, k as int + 1)]);
        lemma_push_args(mem1, ptr, tip - 8, (k - 1) as nat);
        let (mem2, tip2) = push_args(mem, ptr, tip, k)->0;
        assert(mem2.dom() =~= mem.dom());
        assert forall|a: int| !is_among(a, tip2, k) implies #[trigger] mem2[a] == mem[a] by {
            assert(!is_among(a, tip2, (k - 1) as nat));
            assert(mem2[a] == mem1[a]);
            assert(is_among(tip - 8, tip2, k));
        }
    }
}

/// Forcing a thunk lowers the tip of the argument stack by whole words, and keeps what is in memory
/// elsewhere.
pub proof fn lemma_force(fuel: nat, mem: Map<int, usize>, thunk: int, tip: int)
    requires
        force(fuel, mem, thunk, tip) is Some,
    ensures
        ({
            let f = force(fuel, mem, thunk, tip)->0;
            &&& f.tip <= tip
            &&& (tip - f.tip) % 8 == 0
            &&& f.mem.dom() == mem.dom()
            &&& forall|a: int| !(f.tip <= a < tip) ==> #[trigger] f.mem[a] == mem[a]
        }),
    decreases fuel,
{
    let ptr = normal_ptr(thunk);
    if uniform_type(thunk) != UniformType::PrimitivePtr {
        let n = mem[nth(ptr, 1)] as nat;
        lemma_push_args(mem, ptr, tip, n);
        let (mem1, tip1) = push_args(mem, ptr, tip, n)->0;
        lemma_force((fuel - 1) as nat, mem1, mem[nth(ptr, 0)] as int, tip1);
        let f = force(fuel, mem, thunk, tip)->0;
        assert forall|a: int| !(f.tip <= a < tip) implies #[trigger] f.mem[a] == mem[a] by {
            assert(f.mem[a] == mem1[a]);
        }
    }
}

/// A thunk leads to the same wherever its depth is bounded, if it is not nested deeper.
pub proof fn lemma_force_fuel(fuel: nat, more: nat, mem: Map<int, usize>, thunk: int, tip: int)
    requires
        force(fuel, mem, thunk, tip) is Some,
        fuel <= more,
    ensures
        force(more, mem, thunk, tip) == force(fuel, mem, thunk, tip),
    decreases fuel,
{
    let ptr = normal_ptr(thunk);
    if uniform_type(thunk) != UniformType::PrimitivePtr {
        let (mem1, tip1) = push_args(mem, ptr, tip, mem[nth(ptr, 1)] as nat)->0;
        lemma_force_fuel(
            (fuel - 1) as nat,
            (more - 1) as nat,
            mem1,
            mem[nth(ptr, 0)] as int,
            tip1,
        );
    }
}

/// What forcing a thunk leads to does not depend on the bound of its depth.
pub proof fn lemma_forced(fuel: nat, mem: Map<int, usize>, thunk: int, tip: int)
    requires
        force(fuel, mem, thunk, tip) is Some,
    ensures
        can_force(mem, thunk, tip),
        Some(forced(mem, thunk, tip)) == force(fuel, mem, thunk, tip),
{
    let chosen = choose|fuel: nat| (#[trigger] force(fuel, mem, thunk, tip)) is Some;
    if fuel <= chosen {
        lemma_force_fuel(fuel, chosen, mem, thunk, tip);
    } else {
        lemma_force_fuel(chosen, fuel, mem, thunk, tip);
    }
}

/// What registering a handler leads to.
pub struct Registered {
    /// The memory afterwards.
    pub mem: Map<int, usize>,
    /// The base address of the handler.
    pub base: int,
}

/// What registering a handler leads to. Memory ends at `end`.
///
/// A continuation with room for `var_bound` variables is allocated that goes on with `caller`. Its
/// function is that of `transform`, the arguments of which are pushed to `caller_tip` and counted
/// as those of `caller`.
pub open spec fn registered(
    mem: Map<int, usize>,
    end: int,
    caller_tip: int,
    caller: usize,
    transform: ThunkPtr,
    var_bound: usize,
) -> Registered {
    let f = forced(
        allocated(mem, end, (4 + var_bound) as nat),
        transform as int,
        caller_tip,
    );
    let mem1 = write_words(f.mem, end + 8, seq![f.func as usize, caller, 0, 0]);
    Registered {
        mem: mem1.insert(
            height_field(caller as int),
            (mem1[height_field(caller as int)] + (caller_tip - f.tip) / 8) as usize,
        ),
        base: f.tip,
    }
}

/// Whether a handler can be registered: there is memory left, its transform function can be forced,
/// and the height of the caller stays in its range.
pub open spec fn can_register(
    mem: Map<int, usize>,
    end: int,
    caller_tip: int,
    caller: usize,
    transform: ThunkPtr,
    var_bound: usize,
) -> bool {
    let mem1 = allocated(mem, end, (4 + var_bound) as nat);
    let f = forced(mem1, transform as int, caller_tip);
    let mem2 = write_words(f.mem, end + 8, seq![f.func as usize, caller, 0, 0]);
    &&& end + 8 * (4 + var_bound + 1) <= usize::MAX
    &&& can_force(mem1, transform as int, caller_tip)
    &&& mem.contains_key(height_field(caller as int))
    &&& mem2[height_field(caller as int)] + (caller_tip - f.tip) / 8 <= usize::MAX
}

/// Registers a handler without operations and returns the address of the continuation that runs
/// its transform function and goes on with the caller.
///
/// By joining this continuation with that of the caller, the caller is made to call the transform
/// function. Hence the height of the caller is increased by the number of the arguments that were
/// pushed for the transform function.
pub fn runtime_register_handler_and_get_transform_continuation(
    rt: &mut Runtime,
    caller_tip_address: usize,
    caller_continuation: usize,
    parameter: Uniform,
    parameter_disposer: ThunkPtr,
    parameter_replicator: ThunkPtr,
    transform: ThunkPtr,
    transform_num_args: usize,
    transform_var_bound: usize,
) -> (r: usize)
    requires
        old(rt).wf(),
        can_register(
            old(rt).memory@,
            old(rt).memory.end(),
            caller_tip_address as int,
            caller_continuation,
            transform,
            transform_var_bound,
        ),
    ensures
        final(rt).wf(),
        final(rt).memory.start() == old(rt).memory.start(),
        final(rt).memory.end() == old(rt).memory.end() + 8 * (4 + transform_var_bound + 1),
        r == old(rt).memory.end() + 8,
        ({
            let registered = registered(
                old(rt).memory@,
                old(rt).memory.end(),
                caller_tip_address as int,
                caller_continuation,
                transform,
                transform_var_bound,
            );
            let entry = final(rt).handlers@.last();
            &&& final(rt).memory@ == registered.mem
            &&& final(rt).handlers@ == old(rt).handlers@.push(entry)
            &&& entry is Handler
            &&& entry->Handler_0.transform_base_address == registered.base
            &&& entry->Handler_0.transform_continuation == r
            &&& entry->Handler_0.transform_num_args == transform_num_args
            &&& entry->Handler_0.parameter == parameter
            &&& entry->Handler_0.parameter_disposer == parameter_disposer
            &&& entry->Handler_0.parameter_replicator == parameter_replicator
            &&& entry->Handler_0.simple_handler@ == Seq::<(Eff, ThunkPtr, usize)>::empty()
            &&& entry->Handler_0.complex_handler@ == Seq::<(Eff, ThunkPtr, usize)>::empty()
        }),
        final(rt).captured == old(rt).captured,
{
    let ghost mem = rt.memory@;
    let ghost end = rt.memory.end();
    let ghost caller = caller_continuation as int;
    proof {
        rt.memory.lemma_addresses();
    }
    let transform_continuation = runtime_alloc(&mut rt.memory, 4 + transform_var_bound);
    let ghost mem1 = rt.memory@;
    proof {
        let fuel = choose|fuel: nat|
            (#[trigger] force(fuel, mem1, transform as int, caller_tip_address as int)) is Some;
        lemma_force(fuel, mem1, transform as int, caller_tip_address as int);
    }
    let mut tip_address = caller_tip_address;
    let func = runtime_force_thunk(&mut rt.memory, transform, &mut tip_address);
    let mut fields: Vec<usize> = Vec::new();
    fields.push(func);
    fields.push(caller_continuation);
    fields.push(0);
    fields.push(0);
    assert(fields@ =~= seq![func, caller_continuation, 0, 0]);
    assert forall|i: int| 0 <= i < 4 implies rt.memory@.contains_key(
        #[trigger] nth(end + 8, i),
    ) by {
        assert(is_among(nth(end + 8, i), end, (4 + transform_var_bound + 1) as nat));
    }
    rt.memory.write_all(transform_continuation, &fields);
    proof {
        rt.memory.lemma_addresses();
        assert(rt.memory@.contains_key(height_field(caller)));
    }
    let height = rt.memory.read(caller_continuation + 16);
    rt.memory.write(
        caller_continuation + 16,
        height + (caller_tip_address - tip_address) / 8,
    );
    rt.handlers.push(
        HandlerEntry::Handler(
            Handler {
                transform_base_address: tip_address,
                transform_continuation,
                transform_num_args,
                parameter,
                parameter_disposer,
                parameter_replicator,
                simple_handler: Vec::new(),
                complex_handler: Vec::new(),
            },
        ),
    );
    transform_continuation
}

/// The entries for the handlers of `fragment` when the address to which their base addresses are
/// relative is `base`. A relative base address is taken as a number of words, and wraps around.
pub open spec fn absolute(fragment: Seq<Handler>, base: usize) -> Seq<HandlerEntry> {
    Seq::new(
        fragment.len(),
        |i: int|
            HandlerEntry::Handler(
                Handler {
                    transform_base_address: base.wrapping_add(
                        fragment[i].transform_base_address.wrapping_mul(8),
                    ),
                    ..fragment[i]
                },
            ),
    )
}

/// Pushes the handlers of `fragment` to `handlers`.
fn push_handlers(handlers: &mut Vec<HandlerEntry>, fragment: Vec<Handler>, base: usize)
    ensures
        final(handlers)@ == old(handlers)@ + absolute(fragment@, base),
{
    let ghost all = fragment@;
    let ghost before = handlers@;
    assert(handlers@ =~= before + absolute(all.take(0), base));
    for handler in iter: fragment
        invariant
            iter.seq() == all,
            handlers@ == before + absolute(all.take(iter.index() as int), base),
    {
        let ghost k = iter.index() as int;
        assert(handler == all[k]);
        let mut handler = handler;
        let offset = handler.transform_base_address.wrapping_mul(8);
        handler.transform_base_address = base.wrapping_add(offset);
        handlers.push(HandlerEntry::Handler(handler));
        assert(handlers@ =~= before + absolute(all.take(k + 1), base));
    }
    assert(all.take(all.len() as int) =~= all);
}

/// What resuming a captured continuation leads to.
pub struct Resumed {
    /// The memory and the base of the argument stack when the stack fragment was written back.
    pub mem: Map<int, usize>,
    pub base: int,
    /// The memory with the result of the operation.
    pub with_result: Map<int, usize>,
    /// The address to which the base addresses of handlers are relative.
    pub handler_base: int,
}

/// What resuming the continuation `c` with `result` leads to. It goes on with `next`.
///
/// The end of the captured chain of continuations is tied to `next`, which gets the arguments of
/// the transform function. The stack fragment is written below `base_address`, and the result of
/// the operation below it.
pub open spec fn resumed(
    mem: Map<int, usize>,
    base_address: int,
    c: Captured,
    result: Uniform,
    next: usize,
) -> Resumed {
    let t = c.handler_fragment[0].transform_num_args as int;
    let mem1 = mem.insert(next_field(c.base_continuation as int), next);
    let mem2 = mem1.insert(
        height_field(next as int),
        (mem1[height_field(next as int)] + t) as usize,
    );
    let base = nth(base_address, -c.stack_fragment.len());
    let mem3 = write_words(mem2, base, c.stack_fragment);
    Resumed {
        mem: mem3,
        base,
        with_result: mem3.insert(base - 8, result),
        handler_base: nth(base_address, t),
    }
}

/// The memory after a continuation with the given tip was resumed: below the result of the
/// operation are the function of the tip, the base of the argument stack and the address of the
/// result.
pub open spec fn ready_to_resume(resumed: Resumed, tip_continuation: usize) -> Map<int, usize> {
    write_words(
        resumed.with_result,
        resumed.base - 32,
        seq![
            resumed.with_result[tip_continuation as int],
            resumed.base as usize,
            (resumed.base - 8) as usize,
        ],
    )
}

/// Whether the continuation `c` can be resumed: it has a handler, all words that have to be looked
/// at or written are there, and the height of `next` and the address to which the base addresses of
/// handlers are relative stay in their range.
pub open spec fn can_resume(
    mem: Map<int, usize>,
    base_address: int,
    c: Captured,
    result: Uniform,
    next: usize,
) -> bool {
    let mem1 = mem.insert(next_field(c.base_continuation as int), next);
    let r = resumed(mem, base_address, c, result, next);
    &&& c.handler_fragment.len() > 0
    &&& mem.contains_key(next_field(c.base_continuation as int))
    &&& mem.contains_key(height_field(next as int))
    &&& mem1[height_field(next as int)] + c.handler_fragment[0].transform_num_args <= usize::MAX
    &&& has_words(mem, r.base, c.stack_fragment.len())
    &&& r.handler_base <= usize::MAX
    &&& mem.contains_key(c.tip_continuation as int)
    &&& has_words(mem, r.base - 32, 4)
}

/// Prepares to resume the captured continuation at the address `captured_continuation` with the
/// result of the operation. It is written back to the argument stack below `base_address`, and goes
/// on with the continuation at the address `next_continuation`. A captured continuation can be
/// resumed once.
///
/// Returns the address of the following:
/// - address + 0: the address of the function of the resumed continuation
/// - address + 8: the base address for the resumed continuation to find its arguments
/// - address + 16: the address of the "last result" for the resumed continuation
#[allow(unused_variables)]
pub fn runtime_prepare_resume_continuation(
    rt: &mut Runtime,
    base_address: usize,
    captured_continuation: usize,
    parameter: Uniform,
    result: Uniform,
    next_continuation: usize,
) -> (r: usize)
    requires
        old(rt).wf(),
        old(rt).continuations().contains_key(captured_continuation),
        can_resume(
            old(rt).memory@,
            base_address as int,
            old(rt).continuations()[captured_continuation],
            result,
            next_continuation,
        ),
    ensures
        final(rt).wf(),
        final(rt).memory.start() == old(rt).memory.start(),
        final(rt).memory.end() == old(rt).memory.end(),
        final(rt).continuations() == old(rt).continuations().remove(captured_continuation),
        ({
            let c = old(rt).continuations()[captured_continuation];
            let resumed = resumed(
                old(rt).memory@,
                base_address as int,
                c,
                result,
                next_continuation,
            );
            &&& final(rt).handlers@ == old(rt).handlers@ + absolute(
                c.handler_fragment,
                resumed.handler_base as usize,
            )
            &&& final(rt).memory@ == ready_to_resume(resumed, c.tip_continuation)
            &&& r == resumed.base - 32
        }),
{
    broadcast use vstd::std_specs::hash::group_hash_axioms;

    let ghost mem = rt.memory@;
    let ghost c = rt.continuations()[captured_continuation];
    let ghost resumed = resumed(mem, base_address as int, c, result, next_continuation);
    proof {
        rt.memory.lemma_addresses();
    }
    let removed = rt.captured.remove(&captured_continuation);
    assert(rt.continuations() =~= old(rt).continuations().remove(captured_continuation));
    let captured = match removed {
        Some(captured) => captured,
        None => vstd::pervasive::unreached(),
    };
    assert(captured@ == c);
    let transform_num_args = captured.handler_fragment[0].transform_num_args;
    // Chain the base of the captured continuation to the next continuation, where all the arguments
    // of the transform function have to be added.
    rt.memory.write(captured.base_continuation + 8, next_continuation);
    let height = rt.memory.read(next_continuation + 16);
    rt.memory.write(next_continuation + 16, height + transform_num_args);

    proof {
        rt.memory.lemma_addresses();
        assert(mem.contains_key(nth(resumed.base - 32, 0)));
        assert(mem.contains_key(nth(resumed.base - 32, 1)));
        assert(mem.contains_key(nth(resumed.base - 32, 2)));
        assert(mem.contains_key(nth(resumed.base - 32, 3)));
    }
    assert forall|i: int| 0 <= i < c.stack_fragment.len() implies rt.memory@.contains_key(
        #[trigger] nth(resumed.base, i),
    ) by {
        assert(mem.contains_key(nth(resumed.base, i)));
    }
    let transform_base_address = base_address + 8 * transform_num_args;
    let new_base_address = base_address - 8 * captured.stack_fragment.len();
    rt.memory.write_all(new_base_address, &captured.stack_fragment);
    assert(rt.memory@ == resumed.mem);

    let tip_continuation = captured.tip_continuation;
    push_handlers(&mut rt.handlers, captured.handler_fragment, transform_base_address);

    // Write the last result.
    let last_result_address = new_base_address - 8;
    rt.memory.write(last_result_address, result);

    // Write the results of this function.
    let func = rt.memory.read(tip_continuation);
    let mut results: Vec<usize> = Vec::new();
    results.push(func);
    results.push(new_base_address);
    results.push(last_result_address);
    assert(results@ =~= seq![func, new_base_address, last_result_address]);
    rt.memory.write_all(last_result_address - 24, &results);
    last_result_address - 24
}

} // verus!
