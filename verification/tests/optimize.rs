//! The passes that optimize definitions.
use cbpv::ast::lifter::LambdaLifter;
use cbpv::ast::naming::generate_name;
use cbpv::ast::primitive_functions::{PrimitiveFunction, PrimitiveFunctions};
use cbpv::ast::reducer::RedexReducer;
use cbpv::ast::redundancy::RedundancyRemover;
use cbpv::ast::signature::{FunctionDefinition, Signature};
use cbpv::ast::substitutor::Substitutor;
use cbpv::ast::term::{CTerm, CType, PType, SpecializedType, VTerm, VType};

const INTEGER: VType = VType::Specialized(SpecializedType::Integer);

fn var(index: usize) -> VTerm {
    VTerm::Var { index }
}

fn num(value: i64) -> VTerm {
    VTerm::Int { value }
}

fn thunk(t: CTerm) -> VTerm {
    VTerm::Thunk { t: Box::new(t), may_have_complex_effects: false }
}

fn ret(value: VTerm) -> CTerm {
    CTerm::Return { value }
}

fn force(thunk: VTerm) -> CTerm {
    CTerm::Force { thunk, may_have_complex_effects: false }
}

fn def(name: &str) -> CTerm {
    CTerm::Def { name: name.to_owned(), may_have_complex_effects: false }
}

fn redex(function: CTerm, args: Vec<VTerm>) -> CTerm {
    CTerm::Redex { function: Box::new(function), args }
}

fn primitive(name: &str, args: Vec<VTerm>) -> CTerm {
    CTerm::PrimitiveCall { name: name.to_owned(), args }
}

fn lambda(params: &[usize], body: CTerm) -> CTerm {
    lambda_with_effects(params, body, false)
}

fn lambda_with_effects(params: &[usize], body: CTerm, effects: bool) -> CTerm {
    CTerm::Lambda {
        args: params.iter().map(|i| (*i, VType::Uniform)).collect(),
        body: Box::new(body),
        may_have_complex_effects: effects,
    }
}

fn function(params: &[usize], body: CTerm, var_bound: usize) -> FunctionDefinition {
    FunctionDefinition {
        args: params.iter().map(|i| (*i, VType::Uniform)).collect(),
        body,
        c_type: CType::Default,
        var_bound,
        may_be_simple: true,
        may_be_complex: true,
    }
}

fn signature(defs: Vec<(&str, FunctionDefinition)>) -> Signature {
    let mut r = Signature::new();
    for (name, def) in defs {
        r.insert(name.to_owned(), def);
    }
    r
}

fn get<'a>(signature: &'a Signature, name: &str) -> &'a FunctionDefinition {
    &signature.defs.iter().find(|d| d.0 == name).unwrap().1
}

fn primitives() -> PrimitiveFunctions {
    let mut r = PrimitiveFunctions::new();
    r.insert(
        "_add".to_owned(),
        PrimitiveFunction { arg_types: vec![INTEGER, INTEGER], return_type: INTEGER },
    );
    r.insert(
        "_negate".to_owned(),
        PrimitiveFunction { arg_types: vec![INTEGER], return_type: INTEGER },
    );
    r
}

fn same(actual: &CTerm, expected: &CTerm) {
    assert_eq!(format!("{:?}", actual), format!("{:?}", expected));
}

fn indexes(def: &FunctionDefinition) -> Vec<usize> {
    def.args.iter().map(|a| a.0).collect()
}

#[test]
fn definitions_are_replaced() {
    let mut s = signature(vec![("f", function(&[], ret(num(1)), 0))]);
    s.insert("g".to_owned(), function(&[], ret(num(2)), 0));
    s.insert("f".to_owned(), function(&[], ret(num(3)), 0));
    let defs = s.into_defs();
    assert_eq!(defs.len(), 2);
    assert_eq!(defs[0].0, "f");
    same(&defs[0].1.body, &ret(num(3)));
    assert_eq!(defs[1].0, "g");
    same(&defs[1].1.body, &ret(num(2)));
    assert!(Signature::new().into_defs().is_empty());
}

#[test]
fn specializable_definitions() {
    let mut d = function(&[], ret(num(1)), 0);
    assert!(!d.is_specializable());
    d.c_type = CType::SpecializedF(VType::Specialized(SpecializedType::Primitive(PType::F64)));
    assert!(d.is_specializable());
    d.may_be_simple = false;
    assert!(!d.is_specializable());
}

#[test]
fn free_variables_are_listed_in_order() {
    let c = redex(
        lambda(&[3], ret(thunk(redex(force(var(7)), vec![var(3), var(5)])))),
        vec![var(5), var(1), num(9)],
    );
    assert_eq!(c.free_vars(), vec![1, 5, 7]);
    assert_eq!(thunk(c).free_vars(), vec![1, 5, 7]);
    assert_eq!(def("f").free_vars(), Vec::<usize>::new());
}

#[test]
fn names_are_numbered() {
    assert_eq!(generate_name("f", "$__lambda_", 0), "f$__lambda_0");
    assert_eq!(generate_name("f", "$__lambda_", 1207), "f$__lambda_1207");
    assert_eq!(generate_name("", "_", usize::MAX), "_18446744073709551615");
}

#[test]
fn redundant_applications_and_lambdas_are_removed() {
    let remover = RedundancyRemover {};
    same(&remover.transform_c_term(&redex(def("f"), vec![])), &def("f"));
    same(
        &remover.transform_c_term(&redex(redex(def("f"), vec![num(1)]), vec![num(2)])),
        &redex(def("f"), vec![num(1), num(2)]),
    );
    same(
        &remover.transform_c_term(&redex(
            redex(redex(def("f"), vec![num(1)]), vec![]),
            vec![thunk(redex(def("g"), vec![]))],
        )),
        &redex(def("f"), vec![num(1), thunk(def("g"))]),
    );
    same(&remover.transform_c_term(&lambda(&[], ret(num(1)))), &ret(num(1)));
    same(
        &remover.transform_c_term(&lambda(
            &[1],
            lambda_with_effects(&[2], lambda(&[], ret(var(2))), true),
        )),
        &lambda_with_effects(&[1, 2], ret(var(2)), true),
    );
}

#[test]
fn removing_redundancy_twice_changes_nothing() {
    let remover = RedundancyRemover {};
    let c = lambda(
        &[],
        lambda(&[1], redex(redex(force(var(1)), vec![]), vec![thunk(lambda(&[], def("f")))])),
    );
    let once = remover.transform_c_term(&c);
    same(&once, &lambda(&[1], redex(force(var(1)), vec![thunk(def("f"))])));
    same(&remover.transform_c_term(&once), &once);
}

#[test]
fn the_signature_removes_redundancy() {
    let mut s = signature(vec![("f", function(&[0], redex(def("g"), vec![]), 1))]);
    s.reduce_redundancy();
    same(&get(&s, "f").body, &def("g"));
}

#[test]
fn full_calls_become_primitive_calls() {
    let mut s = signature(vec![(
        "f",
        function(&[0], redex(def("_add"), vec![var(0), thunk(redex(def("_negate"), vec![num(4)]))]), 1),
    )]);
    s.specialize_calls(&primitives());
    assert_eq!(s.defs.len(), 1);
    same(
        &get(&s, "f").body,
        &primitive("_add", vec![var(0), thunk(primitive("_negate", vec![num(4)]))]),
    );
}

#[test]
fn partial_calls_become_calls_of_a_wrapper() {
    let mut s = signature(vec![
        ("f", function(&[], redex(def("_add"), vec![num(1)]), 0)),
        ("g", function(&[], redex(def("h"), vec![num(1)]), 0)),
    ]);
    s.specialize_calls(&primitives());
    assert_eq!(s.defs.len(), 3);
    same(&get(&s, "f").body, &redex(def("f$__primitive_wrapper_0"), vec![num(1)]));
    same(&get(&s, "g").body, &redex(def("h"), vec![num(1)]));
    let wrapper = get(&s, "f$__primitive_wrapper_0");
    assert_eq!(wrapper.args, vec![(0, INTEGER), (1, INTEGER)]);
    same(&wrapper.body, &primitive("_add", vec![var(0), var(1)]));
    assert_eq!(wrapper.c_type, CType::SpecializedF(INTEGER));
    assert_eq!(wrapper.var_bound, 2);
    assert!(wrapper.may_be_simple);
    assert!(!wrapper.may_be_complex);
}

#[test]
fn a_definition_has_one_wrapper() {
    let body = redex(
        def("f"),
        vec![
            thunk(redex(def("_negate"), vec![])),
            thunk(redex(def("_add"), vec![num(1)])),
        ],
    );
    let mut s = signature(vec![("f", function(&[], body, 0))]);
    s.specialize_calls(&primitives());
    assert_eq!(s.defs.len(), 2);
    // The later of the two wrappers of the same name stays.
    same(
        &get(&s, "f$__primitive_wrapper_0").body,
        &primitive("_add", vec![var(0), var(1)]),
    );
}

#[test]
fn local_variables_become_distinct() {
    let body = redex(
        lambda(&[5], redex(force(var(5)), vec![thunk(lambda(&[5, 7], redex(force(var(5)), vec![var(7), var(9)])))])),
        vec![var(7), var(5)],
    );
    let mut s = signature(vec![("f", function(&[5, 9, 7], body, 100))]);
    s.rename_local_vars();
    let f = get(&s, "f");
    assert_eq!(indexes(f), vec![0, 1, 2]);
    assert_eq!(f.var_bound, 6);
    same(
        &f.body,
        &redex(
            lambda(&[3], redex(force(var(3)), vec![thunk(lambda(&[4, 5], redex(force(var(4)), vec![var(5), var(1)])))])),
            vec![var(2), var(0)],
        ),
    );
}

#[test]
fn a_repeated_parameter_stands_for_the_last() {
    let mut s = signature(vec![("f", function(&[5, 5], ret(var(5)), 6))]);
    s.rename_local_vars();
    assert_eq!(indexes(get(&s, "f")), vec![0, 1]);
    same(&get(&s, "f").body, &ret(var(1)));
}

#[test]
fn unbound_variables_stay() {
    let mut s = signature(vec![("f", function(&[], ret(var(5)), 6))]);
    s.rename_local_vars();
    same(&get(&s, "f").body, &ret(var(5)));
    assert_eq!(get(&s, "f").var_bound, 0);
}

#[test]
fn values_are_substituted() {
    let substitutor = Substitutor::new(
        &vec![(1, VType::Uniform), (2, VType::Uniform)],
        &vec![num(10), thunk(def("f"))],
    );
    same(
        &substitutor.transform_c_term(&redex(force(var(2)), vec![var(1), var(3), thunk(ret(var(1)))])),
        &redex(force(thunk(def("f"))), vec![num(10), var(3), thunk(ret(num(10)))]),
    );
}

#[test]
fn applied_lambdas_and_forced_thunks_are_reduced() {
    let mut reducer = RedexReducer { next_index: 10 };
    same(
        &reducer.reduce(&redex(lambda(&[0, 1], primitive("_add", vec![var(0), var(1)])), vec![num(1), num(2)])),
        &primitive("_add", vec![num(1), num(2)]),
    );
    // too few arguments
    same(
        &reducer.reduce(&redex(lambda(&[0, 1], primitive("_add", vec![var(0), var(1)])), vec![num(1)])),
        &lambda(&[1], primitive("_add", vec![num(1), var(1)])),
    );
    // too many arguments
    same(
        &reducer.reduce(&redex(lambda(&[0], force(var(0))), vec![var(9), num(2)])),
        &redex(force(var(9)), vec![num(2)]),
    );
    same(&reducer.reduce(&force(thunk(redex(def("f"), vec![num(1)])))), &redex(def("f"), vec![num(1)]));
    same(&reducer.reduce(&force(var(1))), &force(var(1)));
}

#[test]
fn reduction_goes_on_until_nothing_is_left() {
    let mut reducer = RedexReducer { next_index: 10 };
    // The function is passed as a thunk, and only becomes a redex when it is substituted.
    let apply = lambda(&[0, 1], redex(force(var(0)), vec![var(1)]));
    let negate = thunk(lambda(&[2], primitive("_negate", vec![var(2)])));
    let r = reducer.reduce(&ret(thunk(redex(apply, vec![negate, num(4)]))));
    same(&r, &ret(thunk(primitive("_negate", vec![num(4)]))));
    same(&reducer.reduce(&r), &r);
}

#[test]
fn the_signature_reduces_redexes() {
    let mut s = signature(vec![("f", function(&[0], redex(lambda(&[1], ret(var(1))), vec![var(0)]), 2))]);
    s.reduce_immediate_redexes();
    same(&get(&s, "f").body, &ret(var(0)));
    assert_eq!(get(&s, "f").var_bound, 2);
}

#[test]
fn lambdas_and_thunks_are_lifted() {
    // \0 1 -> return thunk (force 1 (thunk of a lambda that captures 0))
    let inner = lambda_with_effects(&[3], redex(def("g"), vec![var(3), var(0)]), true);
    let body = ret(thunk(redex(force(var(1)), vec![thunk(inner), var(0)])));
    let mut f = function(&[0, 1], body, 4);
    f.args[0].1 = INTEGER;
    let mut s = signature(vec![("f", f)]);
    s.lift_lambdas();
    assert_eq!(s.defs.len(), 3);
    same(&get(&s, "f").body, &ret(thunk(redex(def("f$__lambda_1"), vec![var(0), var(1)]))));

    let lambda_def = get(&s, "f$__lambda_0");
    assert_eq!(lambda_def.args, vec![(0, INTEGER), (1, VType::Uniform)]);
    same(&lambda_def.body, &redex(def("g"), vec![var(1), var(0)]));
    assert_eq!(lambda_def.var_bound, 2);
    assert_eq!(lambda_def.c_type, CType::Default);
    assert!(!lambda_def.may_be_simple);
    assert!(lambda_def.may_be_complex);

    let thunk_def = get(&s, "f$__lambda_1");
    assert_eq!(thunk_def.args, vec![(0, INTEGER), (1, VType::Uniform)]);
    assert!(thunk_def.may_be_simple);
    assert!(thunk_def.may_be_complex);
    let call = CTerm::Redex {
        function: Box::new(CTerm::Def {
            name: "f$__lambda_0".to_owned(),
            may_have_complex_effects: true,
        }),
        args: vec![var(0)],
    };
    same(&thunk_def.body, &redex(force(var(1)), vec![thunk(call), var(0)]));
}

#[test]
fn thunks_of_plain_calls_stay() {
    let body = ret(thunk(redex(def("g"), vec![var(0), thunk(def("h"))])));
    let mut s = signature(vec![("f", function(&[0], body.clone(), 1))]);
    s.lift_lambdas();
    assert_eq!(s.defs.len(), 1);
    same(&get(&s, "f").body, &body);
}

#[test]
fn lifted_definitions_are_numbered() {
    let args: Vec<VTerm> = (0..12).map(|i| thunk(ret(num(i)))).collect();
    let mut s = signature(vec![("f", function(&[], primitive("p", args), 0))]);
    s.lift_lambdas();
    assert_eq!(s.defs.len(), 13);
    for i in 0..12 {
        let def = get(&s, &format!("f$__lambda_{}", i));
        same(&def.body, &ret(num(i)));
        assert!(def.args.is_empty());
    }
}

#[test]
fn everything_is_optimized() {
    // f x = (\y. (\z. _add y z)) x (\ applied through a thunk), with a leftover lambda
    let sum = lambda(&[8], lambda(&[9], redex(redex(def("_add"), vec![var(8)]), vec![var(9)])));
    let body = redex(
        force(thunk(sum)),
        vec![var(4), thunk(lambda(&[4], redex(force(var(4)), vec![var(6), var(4)])))],
    );
    let mut s = signature(vec![("f", function(&[4, 6], body, 10))]);
    s.optimize(&primitives());
    assert_eq!(s.defs.len(), 2);
    let f = get(&s, "f");
    assert_eq!(indexes(f), vec![0, 1]);
    assert_eq!(f.var_bound, 2);
    same(
        &f.body,
        &primitive("_add", vec![var(0), thunk(redex(def("f$__lambda_0"), vec![var(1)]))]),
    );
    let lifted = get(&s, "f$__lambda_0");
    assert_eq!(indexes(lifted), vec![0, 1]);
    assert_eq!(lifted.var_bound, 2);
    same(&lifted.body, &redex(force(var(1)), vec![var(0), var(1)]));
}

#[test]
fn copied_binders_are_distinct_after_reduction() {
    // The argument holds a lambda and is used twice.
    let pair = lambda(&[0], primitive("pair", vec![var(0), var(0)]));
    let arg = thunk(lambda(&[1], ret(var(1))));
    let body = redex(pair, vec![arg]);
    let distinct = primitive(
        "pair",
        vec![thunk(lambda(&[2], ret(var(2)))), thunk(lambda(&[3], ret(var(3))))],
    );
    let mut reducer = RedexReducer { next_index: 2 };
    same(&reducer.reduce(&body), &distinct);
    assert_eq!(reducer.next_index, 4);

    let mut s = signature(vec![("f", function(&[], body, 2))]);
    s.reduce_immediate_redexes();
    same(&get(&s, "f").body, &distinct);
    assert_eq!(get(&s, "f").var_bound, 4);
}

#[test]
fn copies_do_not_capture_variables() {
    // (\k. force k 5) (thunk ((\x. force x x) (thunk \p y. prim p y)))
    let prim = thunk(lambda(&[2, 3], primitive("prim", vec![var(2), var(3)])));
    let twice = lambda(&[1], redex(force(var(1)), vec![var(1)]));
    let body = redex(
        lambda(&[0], redex(force(var(0)), vec![num(5)])),
        vec![thunk(redex(twice, vec![prim]))],
    );
    let mut s = signature(vec![("f", function(&[], body, 4))]);
    s.reduce_immediate_redexes();
    let f = get(&s, "f");
    same(
        &f.body,
        &primitive(
            "prim",
            vec![thunk(lambda(&[6, 7], primitive("prim", vec![var(6), var(7)]))), num(5)],
        ),
    );
    assert_eq!(f.var_bound, 8);
}

#[test]
fn indexes_in_use_are_not_taken_for_copies() {
    // Both the parameter and a variable are greater than what `var_bound` says.
    let pair = lambda(&[0], primitive("pair", vec![var(0), var(0), var(9)]));
    let body = redex(pair, vec![thunk(lambda(&[1], ret(var(12))))]);
    let mut s = signature(vec![("f", function(&[12, 9], body, 0))]);
    s.reduce_immediate_redexes();
    let f = get(&s, "f");
    same(
        &f.body,
        &primitive(
            "pair",
            vec![thunk(lambda(&[13], ret(var(12)))), thunk(lambda(&[14], ret(var(12)))), var(9)],
        ),
    );
    assert_eq!(indexes(f), vec![12, 9]);
    assert_eq!(f.var_bound, 15);
}

#[test]
fn moved_binders_keep_their_indexes() {
    // The argument holds a lambda and is used once.
    let keep = lambda(&[0], ret(var(0)));
    let arg = thunk(lambda(&[1], ret(var(1))));
    let mut s = signature(vec![("f", function(&[], redex(keep, vec![arg.clone()]), 2))]);
    s.reduce_immediate_redexes();
    same(&get(&s, "f").body, &ret(arg));
    assert_eq!(get(&s, "f").var_bound, 2);
}

#[test]
fn copies_can_be_lifted() {
    let pair = lambda(&[1], primitive("pair", vec![var(1), var(1)]));
    let arg = thunk(lambda(&[2], redex(force(var(2)), vec![var(0)])));
    let mut s = signature(vec![("f", function(&[0], redex(pair, vec![arg]), 3))]);
    s.optimize(&primitives());
    assert_eq!(s.defs.len(), 3);
    same(
        &get(&s, "f").body,
        &primitive(
            "pair",
            vec![
                thunk(redex(def("f$__lambda_0"), vec![var(0)])),
                thunk(redex(def("f$__lambda_1"), vec![var(0)])),
            ],
        ),
    );
    for name in ["f$__lambda_0", "f$__lambda_1"] {
        let lifted = get(&s, name);
        assert_eq!(indexes(lifted), vec![0, 1]);
        assert_eq!(lifted.var_bound, 2);
        same(&lifted.body, &redex(force(var(1)), vec![var(0)]));
    }
}

#[test]
fn lifted_parameters_are_less_than_the_bound() {
    let types = vec![VType::Uniform; 8];
    let mut lifter =
        LambdaLifter { def_name: "f", counter: 0, new_defs: Vec::new(), local_var_types: &types };
    let inner = lambda(&[2], primitive("p", vec![var(7), var(2), var(3)]));
    lifter.transform_c_term(&ret(thunk(inner)));
    let lifted = &lifter.new_defs[0].1;
    assert_eq!(indexes(lifted), vec![3, 7, 2]);
    assert_eq!(lifted.var_bound, 8);
    lifter.transform_c_term(&ret(thunk(ret(num(1)))));
    assert_eq!(lifter.new_defs[1].1.var_bound, 0);
}

#[test]
fn renaming_twice_is_renaming_once() {
    let body = lambda(&[5, 5], redex(force(var(5)), vec![var(8), thunk(lambda(&[8], ret(var(8))))]));
    let mut s = signature(vec![("f", function(&[8, 2], body, 9))]);
    s.rename_local_vars();
    let once = get(&s, "f").clone();
    assert_eq!(indexes(&once), vec![0, 1]);
    s.rename_local_vars();
    let twice = get(&s, "f");
    assert_eq!(twice.args, once.args);
    assert_eq!(twice.var_bound, once.var_bound);
    same(&twice.body, &once.body);
}

#[test]
fn optimizing_keeps_names_types_and_flags() {
    let mut f = function(&[4], ret(thunk(redex(def("_add"), vec![var(4)]))), 5);
    f.args[0].1 = INTEGER;
    f.c_type = CType::SpecializedF(INTEGER);
    f.may_be_complex = false;
    let g = function(&[], ret(thunk(ret(num(1)))), 0);
    let mut s = signature(vec![("f", f), ("g", g)]);
    s.optimize(&primitives());
    let names: Vec<&str> = s.defs.iter().map(|d| d.0.as_str()).collect();
    assert_eq!(names, vec!["f", "g", "f$__primitive_wrapper_0", "g$__lambda_0"]);
    let f = get(&s, "f");
    assert_eq!(f.args, vec![(0, INTEGER)]);
    assert_eq!(f.c_type, CType::SpecializedF(INTEGER));
    assert!(f.may_be_simple);
    assert!(!f.may_be_complex);
    assert_eq!(get(&s, "g").c_type, CType::Default);
}

/// A computation whose reduction does not come to an end.
fn endless() -> CTerm {
    let twice = |x: usize| lambda(&[x], redex(force(var(x)), vec![var(x)]));
    redex(twice(0), vec![thunk(twice(1))])
}

#[test]
fn reduction_can_be_bounded() {
    let apply = lambda(&[0, 1], redex(force(var(0)), vec![var(1)]));
    let negate = thunk(lambda(&[2], primitive("_negate", vec![var(2)])));
    let c = redex(apply, vec![negate, num(4)]);
    let mut reducer = RedexReducer { next_index: 3 };
    same(&reducer.try_reduce(&c, 3).unwrap(), &primitive("_negate", vec![num(4)]));
    assert_eq!(reducer.next_index, 3);
    assert!(reducer.try_reduce(&c, 0).is_none());
    assert!(RedexReducer { next_index: 2 }.try_reduce(&endless(), 20).is_none());
    // There is no index left for a copy.
    let pair = lambda(&[0], primitive("pair", vec![var(0), var(0)]));
    let copied = redex(pair, vec![thunk(lambda(&[1], ret(var(1))))]);
    assert!(RedexReducer { next_index: usize::MAX - 1 }.try_reduce(&copied, 5).is_none());
    let mut reducer = RedexReducer { next_index: usize::MAX - 2 };
    assert!(reducer.try_reduce(&copied, 5).is_some());
    assert_eq!(reducer.next_index, usize::MAX);
}

#[test]
fn nothing_changes_where_reduction_does_not_end() {
    let body = redex(lambda(&[0], ret(var(0))), vec![num(1)]);
    let mut s = signature(vec![
        ("f", function(&[], body.clone(), 1)),
        ("g", function(&[], endless(), 2)),
    ]);
    assert!(!s.try_reduce_immediate_redexes(20));
    same(&get(&s, "f").body, &body);
    assert!(!s.try_optimize(&primitives(), 20));
    same(&get(&s, "f").body, &body);
    same(&get(&s, "g").body, &endless());
    s.insert("g".to_owned(), function(&[], body, 1));
    assert!(s.try_reduce_immediate_redexes(20));
    same(&get(&s, "f").body, &ret(num(1)));
    same(&get(&s, "g").body, &ret(num(1)));
}

#[test]
fn definitions_are_optimized_if_they_can_be() {
    let f = || function(&[4], ret(thunk(redex(def("_add"), vec![var(4)]))), 5);
    let mut s = signature(vec![("f", f())]);
    let mut tried = signature(vec![("f", f())]);
    s.optimize(&primitives());
    assert!(tried.try_optimize(&primitives(), 0));
    assert_eq!(format!("{:?}", s.defs), format!("{:?}", tried.defs));
    // too many arguments
    let body = redex(def("_add"), vec![num(1), num(2), num(3)]);
    let mut s = signature(vec![("f", function(&[], body.clone(), 0))]);
    assert!(!s.try_optimize(&primitives(), 5));
    same(&get(&s, "f").body, &body);
    // a thunk that captures a variable that is not bound
    let mut s = signature(vec![("f", function(&[], ret(thunk(ret(var(9)))), 10))]);
    assert!(!s.try_optimize(&primitives(), 5));
    same(&get(&s, "f").body, &ret(thunk(ret(var(9)))));
}
