//! The state of the runtime: memory, the stack of handlers and captured continuations.
use crate::runtime::memory::Memory;
use crate::runtime::types::{Eff, ThunkPtr, Uniform};
use std::collections::HashMap;
use vstd::prelude::*;

verus! {

/// A handler of effects.
#[derive(Debug)]
pub struct Handler {
    /// When the handler is registered, the address of the arguments of the transform function on
    /// the argument stack. In a captured continuation, the offset in bytes of that address from
    /// the one of the first captured handler. After a resume, `base + 8 * (n + offset)`, where
    /// `base` is the base address that is resumed with, `n` is `transform_num_args` of the first
    /// captured handler, and `offset` is what the captured continuation holds. Offsets wrap around:
    /// a nested handler has a lower address.
    pub transform_base_address: usize,
    /// The address of the continuation that the handled computation returns to.
    pub transform_continuation: usize,
    /// The number of arguments of the transform function on the argument stack.
    pub transform_num_args: usize,
    pub parameter: Uniform,
    pub parameter_disposer: ThunkPtr,
    pub parameter_replicator: ThunkPtr,
    /// The simple operations that are handled: effect, implementation and number of arguments.
    pub simple_handler: Vec<(Eff, ThunkPtr, usize)>,
    /// The complex operations that are handled: effect, implementation and number of arguments.
    pub complex_handler: Vec<(Eff, ThunkPtr, usize)>,
}

/// An entry of the stack of handlers.
#[derive(Debug)]
pub enum HandlerEntry {
    Handler(Handler),
    /// An entry that handles nothing.
    Marker,
}

/// A part of the argument stack and of the stack of handlers that can be resumed.
#[derive(Debug)]
pub struct CapturedContinuation {
    /// The address of the continuation to resume.
    pub tip_continuation: usize,
    /// The address of the last continuation of the captured part.
    pub base_continuation: usize,
    /// The captured handlers, the outermost first. The base addresses are offsets from that of
    /// the first.
    pub handler_fragment: Vec<Handler>,
    /// The captured words of the argument stack.
    pub stack_fragment: Vec<usize>,
}

/// The mathematical counterpart of [`CapturedContinuation`].
pub struct Captured {
    pub tip_continuation: usize,
    pub base_continuation: usize,
    pub handler_fragment: Seq<Handler>,
    pub stack_fragment: Seq<usize>,
}

impl View for CapturedContinuation {
    type V = Captured;

    open spec fn view(&self) -> Captured {
        Captured {
            tip_continuation: self.tip_continuation,
            base_continuation: self.base_continuation,
            handler_fragment: self.handler_fragment@,
            stack_fragment: self.stack_fragment@,
        }
    }
}

/// The state of the runtime.
pub struct Runtime {
    pub memory: Memory,
    /// The stack of handlers, the innermost last.
    pub handlers: Vec<HandlerEntry>,
    /// The captured continuations by address.
    pub captured: HashMap<usize, CapturedContinuation>,
}

impl Runtime {
    /// Whether the memory is well-formed.
    pub open spec fn wf(self) -> bool {
        self.memory.wf()
    }

    /// The captured continuations by address.
    pub open spec fn continuations(self) -> Map<usize, Captured> {
        self.captured@.map_values(|c: CapturedContinuation| c@)
    }

    /// A runtime with the given memory, without handlers and captured continuations.
    pub fn new(memory: Memory) -> (r: Self)
        requires
            memory.wf(),
        ensures
            r.wf(),
            r.memory == memory,
            r.handlers@ == Seq::<HandlerEntry>::empty(),
            r.continuations() == Map::<usize, Captured>::empty(),
    {
        broadcast use vstd::std_specs::hash::group_hash_axioms;

        let r = Runtime { memory, handlers: Vec::new(), captured: HashMap::new() };
        assert(r.continuations() =~= Map::<usize, Captured>::empty());
        r
    }
}

} // verus!
