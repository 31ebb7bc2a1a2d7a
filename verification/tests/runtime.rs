//! The functions that generated code calls at run time.
use cbpv::runtime::checks::{
    can_prepare_operation, try_compare_uniform, try_find_matching_handler,
};
use cbpv::runtime::handler::{HandlerEntry, Runtime};
use cbpv::runtime::memory::Memory;
use cbpv::runtime::runtime_utils::{
    compare_uniform, find_matching_handler, runtime_add_complex_handler,
    runtime_add_simple_handler, runtime_alloc, runtime_alloc_stack, runtime_force_thunk,
    runtime_get_current_handler, runtime_pop_handler, runtime_prepare_complex_operation,
    runtime_prepare_resume_continuation, runtime_register_handler_and_get_transform_continuation,
    runtime_try_force_thunk, runtime_word_box,
};
use cbpv::runtime::types::{to_normal_ptr, UniformType};

/// A function at the address `address`, in uniform representation.
fn function(address: usize) -> usize {
    address + 3
}

/// Allocates a block with the given words.
fn block(memory: &mut Memory, words: &[usize]) -> usize {
    let ptr = runtime_alloc(memory, words.len());
    for (i, word) in words.iter().enumerate() {
        memory.write(ptr + 8 * i, *word);
    }
    ptr
}

/// A thunk of `next` with the given arguments.
fn thunk(memory: &mut Memory, next: usize, args: &[usize]) -> usize {
    let mut words = vec![next, args.len()];
    words.extend_from_slice(args);
    UniformType::to_uniform_sptr(block(memory, &words))
}

/// Allocates a small argument stack and returns the address behind it.
fn stack(memory: &mut Memory, words: usize) -> usize {
    memory.grow(words);
    memory.limit()
}

#[test]
fn it_works() {
    let mut memory = Memory::new(4096);
    let ptr = runtime_alloc(&mut memory, 10);
    memory.write(ptr, 42);
    assert_eq!(ptr % 8, 0);
    assert_eq!(memory.read(ptr), 42);
}

#[test]
fn a_block_is_preceded_by_its_size() {
    let mut memory = Memory::new(4096);
    let first = runtime_alloc(&mut memory, 3);
    assert_eq!(first, 4104);
    assert_eq!(memory.read(first - 8), 3);
    assert_eq!(memory.read_words(first, 3), vec![0, 0, 0]);
    memory.write(first + 16, 7);
    let second = runtime_alloc(&mut memory, 0);
    assert_eq!(second, first + 32);
    assert_eq!(memory.read(second - 8), 0);
    assert_eq!(memory.read(first + 16), 7);
    assert!(!memory.contains(second));
}

#[test]
fn memory_knows_its_addresses() {
    let mut memory = Memory::new(800);
    assert!(!memory.contains(800));
    assert_eq!(memory.grow(2), 800);
    assert!(memory.contains(800) && memory.contains(808));
    assert!(!memory.contains(804));
    assert!(!memory.contains(792));
    assert!(!memory.contains(816));
    memory.write_all(800, &vec![5, 6]);
    assert_eq!(memory.read_words(800, 2), vec![5, 6]);
    assert_eq!(memory.limit(), 816);
}

#[test]
fn a_word_box_is_one_word() {
    let mut memory = Memory::new(80);
    let ptr = runtime_word_box(&mut memory);
    assert_eq!(ptr, 80);
    assert_eq!(memory.limit(), 88);
}

#[test]
fn a_stack_has_8_mb_below_its_address() {
    let mut memory = Memory::new(4096);
    let tip = runtime_alloc_stack(&mut memory);
    assert_eq!(tip, 4096 + 8 * 1024 * 1024);
    assert!(memory.contains(tip - 8));
    assert!(memory.contains(tip - 8 * 1024 * 1024));
    assert!(!memory.contains(tip));
}

#[test]
fn low_bits_tell_what_a_value_is() {
    assert_eq!(UniformType::from_bits(0), UniformType::Raw);
    assert_eq!(UniformType::from_bits(6), UniformType::Raw);
    assert_eq!(UniformType::from_bits(9), UniformType::StructPtr);
    assert_eq!(UniformType::from_bits(11), UniformType::PrimitivePtr);
    assert_eq!(UniformType::to_uniform_sptr(64), 65);
    assert_eq!(to_normal_ptr(65), 64);
    assert_eq!(to_normal_ptr(67), 64);
}

#[test]
fn forcing_a_function_pushes_nothing() {
    let mut memory = Memory::new(4096);
    let mut tip = stack(&mut memory, 4);
    let before = tip;
    assert_eq!(runtime_force_thunk(&mut memory, function(512), &mut tip), 512);
    assert_eq!(tip, before);
}

#[test]
fn forcing_a_nested_thunk_pushes_inner_arguments_last() {
    let mut memory = Memory::new(4096);
    let mut tip = stack(&mut memory, 8);
    let end = tip;
    let inner = thunk(&mut memory, function(512), &[10, 12]);
    let outer = thunk(&mut memory, inner, &[20, 22, 24]);
    let func = runtime_force_thunk(&mut memory, outer, &mut tip);
    assert_eq!(func, 512);
    assert_eq!(tip, end - 40);
    assert_eq!(memory.read_words(tip, 5), vec![10, 12, 20, 22, 24]);
}

#[test]
fn thunks_are_forced_if_all_words_are_there() {
    let mut memory = Memory::new(4096);
    let mut tip = stack(&mut memory, 8);
    let end = tip;
    let inner = thunk(&mut memory, function(512), &[10, 12]);
    let outer = thunk(&mut memory, inner, &[20]);
    assert_eq!(runtime_try_force_thunk(&mut memory, outer, &mut tip, 2), Some(512));
    assert_eq!(tip, end - 24);
    assert_eq!(memory.read_words(tip, 3), vec![10, 12, 20]);
    // nested too deep
    tip = end;
    assert_eq!(runtime_try_force_thunk(&mut memory, outer, &mut tip, 1), None);
    // no room on the argument stack
    tip = 4096 + 16;
    assert_eq!(runtime_try_force_thunk(&mut memory, outer, &mut tip, 2), None);
    tip = 0;
    assert_eq!(runtime_try_force_thunk(&mut memory, inner, &mut tip, 2), None);
    // no thunk, and one whose arguments are not there
    tip = end;
    assert_eq!(runtime_try_force_thunk(&mut memory, 1, &mut tip, 2), None);
    let ptr = block(&mut memory, &[function(512), usize::MAX]);
    let wrong = UniformType::to_uniform_sptr(ptr);
    assert_eq!(runtime_try_force_thunk(&mut memory, wrong, &mut tip, 2), None);
    // a thunk of itself
    memory.write(ptr, wrong);
    memory.write(ptr + 8, 0);
    assert_eq!(runtime_try_force_thunk(&mut memory, wrong, &mut tip, 100), None);
}

#[test]
fn equal_values_have_equal_contents() {
    let mut memory = Memory::new(4096);
    let a = UniformType::to_uniform_sptr(block(&mut memory, &[2, 4]));
    let b = UniformType::to_uniform_sptr(block(&mut memory, &[2, 4]));
    let c = UniformType::to_uniform_sptr(block(&mut memory, &[2, 6]));
    let d = UniformType::to_uniform_sptr(block(&mut memory, &[2]));
    let nested_a = UniformType::to_uniform_sptr(block(&mut memory, &[a, 8]));
    let nested_b = UniformType::to_uniform_sptr(block(&mut memory, &[b, 8]));
    let nested_c = UniformType::to_uniform_sptr(block(&mut memory, &[c, 8]));
    assert!(compare_uniform(&memory, 4, 4));
    assert!(!compare_uniform(&memory, 4, 6));
    assert!(compare_uniform(&memory, a, a));
    assert!(compare_uniform(&memory, a, b));
    assert!(compare_uniform(&memory, b, a));
    assert!(!compare_uniform(&memory, a, c));
    assert!(!compare_uniform(&memory, a, d));
    assert!(!compare_uniform(&memory, a, 4));
    assert!(compare_uniform(&memory, nested_a, nested_b));
    assert!(!compare_uniform(&memory, nested_a, nested_c));
    let e = UniformType::to_uniform_sptr(block(&mut memory, &[2, 4]));
    assert!(compare_uniform(&memory, b, e) && compare_uniform(&memory, a, e));
}

#[test]
fn primitive_blocks_are_compared_word_by_word() {
    let mut memory = Memory::new(4096);
    let a = block(&mut memory, &[2, 4]) + 3;
    let b = block(&mut memory, &[2, 4]) + 3;
    let c = block(&mut memory, &[2, 5]) + 3;
    assert!(compare_uniform(&memory, a, b));
    assert!(!compare_uniform(&memory, a, c));
    // The same contents as a block of values are something else.
    assert!(!compare_uniform(&memory, a, b - 2));
    // The blocks hold different pointers, although to equal blocks.
    let p = block(&mut memory, &[a]) + 3;
    let q = block(&mut memory, &[b]) + 3;
    assert!(!compare_uniform(&memory, p, q));
}

/// A runtime with a stack, the address behind it, and a continuation on which heights can be counted.
fn start() -> (Runtime, usize, usize) {
    let mut memory = Memory::new(4096);
    let tip = stack(&mut memory, 64);
    let continuation = block(&mut memory, &[700, 0, 10, 0]);
    (Runtime::new(memory), tip, continuation)
}

#[test]
fn a_registered_handler_is_popped() {
    let (mut rt, tip, caller) = start();
    let transform = thunk(&mut rt.memory, function(512), &[2, 4, 6]);
    let c = runtime_register_handler_and_get_transform_continuation(
        &mut rt, tip, caller, 30, 40, 50, transform, 3, 2,
    );
    // function, next continuation, height, state and two variables
    assert_eq!(rt.memory.read_words(c, 6), vec![512, caller, 0, 0, 0, 0]);
    assert_eq!(rt.memory.read(c - 8), 6);
    // The caller has the three arguments of the transform function.
    assert_eq!(rt.memory.read(caller + 16), 13);
    assert_eq!(rt.memory.read_words(tip - 24, 3), vec![2, 4, 6]);
    assert_eq!(rt.handlers.len(), 1);
    let handler = runtime_get_current_handler(&mut rt);
    assert_eq!(handler.transform_base_address, tip - 24);
    assert_eq!(handler.transform_continuation, c);
    assert_eq!(handler.transform_num_args, 3);
    assert_eq!(handler.parameter_disposer, 40);
    assert_eq!(handler.parameter_replicator, 50);
    assert!(handler.simple_handler.is_empty() && handler.complex_handler.is_empty());
    assert_eq!(runtime_pop_handler(&mut rt), 30);
    assert!(rt.handlers.is_empty());
}

#[test]
fn the_innermost_handler_of_an_effect_is_found() {
    let (mut rt, tip, caller) = start();
    for parameter in [100, 200, 300] {
        runtime_register_handler_and_get_transform_continuation(
            &mut rt,
            tip,
            caller,
            parameter,
            0,
            0,
            function(512),
            0,
            0,
        );
        let handler = runtime_get_current_handler(&mut rt);
        runtime_add_simple_handler(handler, parameter, parameter + 1, 1);
        runtime_add_simple_handler(handler, 8, parameter + 2, 2);
        runtime_add_complex_handler(handler, 10, parameter + 3, 3);
        runtime_add_complex_handler(handler, 10, parameter + 4, 4);
        rt.handlers.push(HandlerEntry::Marker);
    }
    assert_eq!(find_matching_handler(&rt, 8, true), (1, 302, 2));
    assert_eq!(find_matching_handler(&rt, 200, true), (3, 201, 1));
    assert_eq!(find_matching_handler(&rt, 100, true), (5, 101, 1));
    // The first of two operations for the same effect counts.
    assert_eq!(find_matching_handler(&rt, 10, false), (1, 303, 3));
}

#[test]
fn an_operation_is_prepared_and_resumed() {
    let (mut rt, tip, caller) = start();
    let outer = runtime_register_handler_and_get_transform_continuation(
        &mut rt,
        tip,
        caller,
        600,
        0,
        0,
        function(512),
        0,
        0,
    );
    let handler_impl = thunk(&mut rt.memory, function(1024), &[70, 72]);
    let transform = thunk(&mut rt.memory, function(516), &[2]);
    let matching = runtime_register_handler_and_get_transform_continuation(
        &mut rt, tip, outer, 602, 0, 0, transform, 1, 0,
    );
    let handler = runtime_get_current_handler(&mut rt);
    runtime_add_complex_handler(handler, 8, handler_impl, 2);
    let inner_transform = tip - 8;
    let inner = runtime_register_handler_and_get_transform_continuation(
        &mut rt,
        inner_transform,
        matching,
        604,
        0,
        0,
        function(520),
        0,
        0,
    );
    // The computation has one word on the stack, then the two arguments of the operation.
    let tip_continuation = block(&mut rt.memory, &[900, inner, 3, 0]);
    rt.memory.write(tip - 16, 80);
    rt.memory.write(tip - 24, 92);
    rt.memory.write(tip - 32, 90);
    let outer_height = rt.memory.read(outer + 16);

    assert!(can_prepare_operation(&rt, 8, tip - 32, tip_continuation, 1));
    // no handler, no continuation, no room for the arguments, a thunk that is nested too deep
    assert!(!can_prepare_operation(&rt, 10, tip - 32, tip_continuation, 1));
    assert!(!can_prepare_operation(&rt, 8, tip - 32, 1, 1));
    assert!(!can_prepare_operation(&rt, 8, tip + 32, tip_continuation, 1));
    assert!(!can_prepare_operation(&rt, 8, tip - 32, tip_continuation, 0));
    let r = runtime_prepare_complex_operation(&mut rt, 8, tip - 32, tip_continuation);
    let captured = to_normal_ptr(rt.memory.read(tip - 32));
    // The arguments of the implementation: two of its thunk, the captured continuation, two of the
    // operation, and the parameter of the handler.
    let base = tip - 48;
    assert_eq!(r, base - 24);
    assert_eq!(rt.memory.read_words(r, 3), vec![1024, base, outer]);
    assert_eq!(
        rt.memory.read_words(base, 6),
        vec![70, 72, captured + 1, 90, 92, 602]
    );
    assert_eq!(rt.memory.read(tip_continuation + 16), 1);
    assert_eq!(rt.memory.read(matching + 8), 0);
    assert_eq!(rt.memory.read(outer + 16), outer_height + 2 + 2 - 1);
    assert_eq!(rt.handlers.len(), 1);
    let c = &rt.captured[&captured];
    assert_eq!(c.tip_continuation, tip_continuation);
    assert_eq!(c.base_continuation, matching);
    assert_eq!(c.stack_fragment, vec![80, 2]);
    assert_eq!(c.handler_fragment.len(), 2);
    assert_eq!(c.handler_fragment[0].transform_base_address, 0);
    assert_eq!(c.handler_fragment[0].parameter, 602);
    assert_eq!(c.handler_fragment[1].parameter, 604);

    let next = block(&mut rt.memory, &[0, 0, 5, 0]);
    let resumed = runtime_prepare_resume_continuation(&mut rt, tip, captured, 0, 99, next);
    assert_eq!(rt.memory.read_words(tip - 16, 2), vec![80, 2]);
    assert_eq!(rt.memory.read(tip - 24), 99);
    assert_eq!(resumed, tip - 48);
    assert_eq!(
        rt.memory.read_words(resumed, 3),
        vec![900, tip - 16, tip - 24]
    );
    assert_eq!(rt.memory.read(matching + 8), next);
    assert_eq!(rt.memory.read(next + 16), 6);
    assert!(rt.captured.is_empty());
    assert_eq!(rt.handlers.len(), 3);
    let handler = runtime_get_current_handler(&mut rt);
    assert_eq!(handler.parameter, 604);
    assert_eq!(runtime_pop_handler(&mut rt), 604);
    let handler = runtime_get_current_handler(&mut rt);
    assert_eq!(handler.transform_base_address, tip + 8);
    assert_eq!(handler.complex_handler, vec![(8, handler_impl, 2)]);
    assert_eq!(runtime_pop_handler(&mut rt), 602);
}

#[test]
fn a_nested_handler_is_captured_and_resumed() {
    let (mut rt, tip, caller) = start();
    let transform = thunk(&mut rt.memory, function(516), &[2]);
    let matching = runtime_register_handler_and_get_transform_continuation(
        &mut rt, tip, caller, 602, 0, 0, transform, 1, 0,
    );
    let handler = runtime_get_current_handler(&mut rt);
    runtime_add_complex_handler(handler, 8, function(1024), 1);
    // The computation has two words on the stack before the nested handler.
    rt.memory.write(tip - 16, 80);
    rt.memory.write(tip - 24, 82);
    let inner = runtime_register_handler_and_get_transform_continuation(
        &mut rt,
        tip - 24,
        matching,
        604,
        0,
        0,
        function(520),
        0,
        0,
    );
    let handler = runtime_get_current_handler(&mut rt);
    assert_eq!(handler.transform_base_address, tip - 24);
    let tip_continuation = block(&mut rt.memory, &[900, inner, 1, 0]);
    rt.memory.write(tip - 32, 90);
    assert!(can_prepare_operation(&rt, 8, tip - 32, tip_continuation, 0));
    let r = runtime_prepare_complex_operation(&mut rt, 8, tip - 32, tip_continuation);
    let base = tip - 24;
    assert_eq!(r, base - 24);
    let captured = to_normal_ptr(rt.memory.read(base));
    assert_eq!(rt.memory.read_words(base, 3), vec![captured + 1, 90, 602]);
    assert!(rt.handlers.is_empty());
    let c = &rt.captured[&captured];
    assert_eq!(c.stack_fragment, vec![82, 80, 2]);
    assert_eq!(c.handler_fragment[0].transform_base_address, 0);
    assert_eq!(c.handler_fragment[1].transform_base_address, 0usize.wrapping_sub(16));
    assert_eq!(c.handler_fragment[1].parameter, 604);

    let next = block(&mut rt.memory, &[0, 0, 5, 0]);
    runtime_prepare_resume_continuation(&mut rt, tip, captured, 0, 99, next);
    assert_eq!(rt.memory.read_words(tip - 24, 3), vec![82, 80, 2]);
    assert_eq!(rt.memory.read(tip - 32), 99);
    let handler = runtime_get_current_handler(&mut rt);
    assert_eq!(handler.parameter, 604);
    assert_eq!(handler.transform_base_address, tip + 8 - 8 * 16);
    assert_eq!(runtime_pop_handler(&mut rt), 604);
    assert_eq!(runtime_pop_handler(&mut rt), 602);
}

#[test]
fn an_implementation_may_have_fewer_arguments_than_the_transform_function() {
    let (mut rt, tip, caller) = start();
    let transform = thunk(&mut rt.memory, function(516), &[2, 4, 6, 10]);
    let matching = runtime_register_handler_and_get_transform_continuation(
        &mut rt, tip, caller, 602, 0, 0, transform, 4, 0,
    );
    let handler = runtime_get_current_handler(&mut rt);
    runtime_add_complex_handler(handler, 8, function(1024), 0);
    let height = rt.memory.read(caller + 16);
    assert_eq!(height, 14);
    let tip_continuation = block(&mut rt.memory, &[900, matching, 0, 0]);
    assert!(can_prepare_operation(&rt, 8, tip - 32, tip_continuation, 0));
    runtime_prepare_complex_operation(&mut rt, 8, tip - 32, tip_continuation);
    assert_eq!(rt.memory.read(caller + 16), 12);
}

#[test]
fn words_are_compared_if_they_are_there() {
    let mut memory = Memory::new(4096);
    let a = UniformType::to_uniform_sptr(block(&mut memory, &[2, 4]));
    let b = UniformType::to_uniform_sptr(block(&mut memory, &[2, 4]));
    let c = UniformType::to_uniform_sptr(block(&mut memory, &[2, 6]));
    assert_eq!(try_compare_uniform(&memory, 4, 4, 0), Some(true));
    assert_eq!(try_compare_uniform(&memory, 4, 6, 0), Some(false));
    assert_eq!(try_compare_uniform(&memory, a, b, 1), Some(true));
    assert_eq!(try_compare_uniform(&memory, a, c, 1), Some(false));
    assert_eq!(try_compare_uniform(&memory, a, b, 0), None);
    assert_eq!(try_compare_uniform(&memory, a, 1, 1), None);
    // two blocks that hold themselves
    let x = block(&mut memory, &[0]);
    let y = block(&mut memory, &[0]);
    memory.write(x, UniformType::to_uniform_sptr(x));
    memory.write(y, UniformType::to_uniform_sptr(y));
    let x = UniformType::to_uniform_sptr(x);
    let y = UniformType::to_uniform_sptr(y);
    assert_eq!(try_compare_uniform(&memory, x, y, 100), None);
}

#[test]
fn a_handler_is_searched_for() {
    let (mut rt, tip, caller) = start();
    assert_eq!(try_find_matching_handler(&rt, 8, true, 0), None);
    runtime_register_handler_and_get_transform_continuation(
        &mut rt,
        tip,
        caller,
        30,
        0,
        0,
        function(512),
        0,
        0,
    );
    let effect = UniformType::to_uniform_sptr(block(&mut rt.memory, &[2]));
    let same_effect = UniformType::to_uniform_sptr(block(&mut rt.memory, &[2]));
    let handler = runtime_get_current_handler(&mut rt);
    runtime_add_simple_handler(handler, effect, 40, 1);
    runtime_add_simple_handler(handler, 8, 42, 2);
    rt.handlers.push(HandlerEntry::Marker);
    assert_eq!(try_find_matching_handler(&rt, 8, true, 0), Some((1, 42, 2)));
    assert_eq!(try_find_matching_handler(&rt, same_effect, true, 1), Some((1, 40, 1)));
    assert_eq!(try_find_matching_handler(&rt, same_effect, true, 0), None);
    assert_eq!(try_find_matching_handler(&rt, 8, false, 1), None);
    assert_eq!(try_find_matching_handler(&rt, 10, true, 1), None);
}
