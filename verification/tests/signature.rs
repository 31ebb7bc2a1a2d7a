//! Definitions without effect flavors.
use cbpv::ast::term::{CTerm, CType, SpecializedType, VTerm, VType};
use cbpv::signature::{FunctionDefinition, Signature, ThunkLifter};

const INTEGER: VType = VType::Specialized(SpecializedType::Integer);

fn var(index: usize) -> VTerm {
    VTerm::Var { index }
}

fn num(value: i64) -> VTerm {
    VTerm::Int { value }
}

fn thunk(t: CTerm) -> VTerm {
    VTerm::Thunk { t: Box::new(t), may_have_complex_effects: true }
}

fn ret(value: VTerm) -> CTerm {
    CTerm::Return { value }
}

fn def(name: &str) -> CTerm {
    CTerm::Def { name: name.to_owned(), may_have_complex_effects: true }
}

fn redex(function: CTerm, args: Vec<VTerm>) -> CTerm {
    CTerm::Redex { function: Box::new(function), args }
}

fn lambda(params: &[usize], body: CTerm) -> CTerm {
    CTerm::Lambda {
        args: params.iter().map(|i| (*i, VType::Uniform)).collect(),
        body: Box::new(body),
        may_have_complex_effects: true,
    }
}

fn function(args: Vec<(usize, VType)>, body: CTerm) -> FunctionDefinition {
    FunctionDefinition { args, body, c_type: CType::Default, var_bound: 0 }
}

fn signature(name: &str, def: FunctionDefinition) -> Signature {
    let mut r = Signature::new();
    r.insert(name.to_owned(), def);
    r
}

fn get<'a>(signature: &'a Signature, name: &str) -> &'a FunctionDefinition {
    &signature.defs.iter().find(|d| d.0 == name).unwrap().1
}

fn same(actual: &CTerm, expected: &CTerm) {
    assert_eq!(format!("{:?}", actual), format!("{:?}", expected));
}

#[test]
fn plain_definitions_are_replaced() {
    let mut s = signature("f", function(vec![], ret(num(1))));
    s.insert("f".to_owned(), function(vec![], ret(num(2))));
    let defs = s.into_defs();
    assert_eq!(defs.len(), 1);
    same(&defs[0].1.body, &ret(num(2)));
}

#[test]
fn applications_are_normalized() {
    let body = lambda(&[1], redex(redex(redex(def("g"), vec![num(1)]), vec![]), vec![num(2)]));
    let mut s = signature("f", function(vec![], body));
    s.normalize_redex();
    same(&get(&s, "f").body, &lambda(&[1], redex(def("g"), vec![num(1), num(2)])));
    // An application to nothing is what is applied.
    let mut s = signature("f", function(vec![], redex(def("g"), vec![])));
    s.normalize_redex();
    same(&get(&s, "f").body, &def("g"));
}

#[test]
fn arguments_of_applications_are_not_normalized() {
    let body = redex(def("g"), vec![thunk(redex(def("h"), vec![]))]);
    let mut s = signature("f", function(vec![], body.clone()));
    s.normalize_redex();
    same(&get(&s, "f").body, &body);
}

#[test]
fn thunks_are_lifted() {
    let inner = thunk(ret(thunk(ret(var(9)))));
    let body = redex(def("g"), vec![inner, var(4), thunk(redex(def("h"), vec![var(4)])), thunk(ret(var(4)))]);
    let mut s = signature("f", function(vec![(4, INTEGER), (9, VType::Uniform)], body));
    s.lift_thunks();
    assert_eq!(s.defs.len(), 3);
    let f = get(&s, "f");
    assert_eq!(f.args, vec![(0, INTEGER), (1, VType::Uniform)]);
    assert_eq!(f.var_bound, 2);
    same(
        &f.body,
        &redex(
            def("g"),
            vec![
                thunk(redex(def("f$__thunk_0"), vec![var(1)])),
                var(0),
                thunk(redex(def("h"), vec![var(0)])),
                thunk(redex(def("f$__thunk_1"), vec![var(0)])),
            ],
        ),
    );
    let first = get(&s, "f$__thunk_0");
    assert_eq!(first.args, vec![(0, VType::Uniform)]);
    // What is inside of a lifted thunk stays.
    same(&first.body, &ret(thunk(ret(var(0)))));
    assert_eq!(first.var_bound, 1);
    let second = get(&s, "f$__thunk_1");
    assert_eq!(second.args, vec![(0, INTEGER)]);
    same(&second.body, &ret(var(0)));
}

#[test]
fn lambdas_are_not_lifted() {
    let mut s = signature("f", function(vec![], lambda(&[3], ret(thunk(ret(var(3)))))));
    s.optimize();
    assert_eq!(s.defs.len(), 2);
    same(
        &get(&s, "f").body,
        &lambda(&[0], ret(thunk(redex(def("f$__thunk_0"), vec![var(0)])))),
    );
    assert_eq!(get(&s, "f").var_bound, 1);
    same(&get(&s, "f$__thunk_0").body, &ret(var(0)));
}

#[test]
fn plain_definitions_are_optimized() {
    let body = ret(thunk(redex(redex(def("g"), vec![var(2)]), vec![num(1)])));
    let mut s = signature("f", function(vec![(2, VType::Uniform)], body));
    s.optimize();
    // The thunk is of a plain call once its applications are merged.
    assert_eq!(s.defs.len(), 1);
    same(&get(&s, "f").body, &ret(thunk(redex(def("g"), vec![var(0), num(1)]))));
}

#[test]
fn normalizing_twice_changes_nothing() {
    let body = lambda(&[1], redex(redex(redex(def("g"), vec![num(1)]), vec![]), vec![num(2)]));
    let mut s = signature("f", function(vec![], body));
    s.normalize_redex();
    let once = get(&s, "f").body.clone();
    s.normalize_redex();
    same(&get(&s, "f").body, &once);
}

#[test]
fn lifted_thunks_of_two_definitions_have_different_names() {
    let mut s = signature("f", function(vec![], ret(thunk(ret(num(1))))));
    s.insert("f$__thunk_0x".to_owned(), function(vec![], ret(thunk(ret(num(2))))));
    s.lift_thunks();
    assert_eq!(s.defs.len(), 4);
    same(&get(&s, "f$__thunk_0").body, &ret(num(1)));
    same(&get(&s, "f$__thunk_0x$__thunk_0").body, &ret(num(2)));
}

#[test]
fn binders_stay_distinct_when_thunks_are_lifted() {
    let inner = thunk(lambda(&[1], ret(var(2))));
    let body = lambda(&[1], redex(def("g"), vec![inner, thunk(redex(def("h"), vec![thunk(lambda(&[1], ret(var(1))))]))]));
    let mut s = signature("f", function(vec![(2, VType::Uniform)], body));
    s.lift_thunks();
    let f = get(&s, "f");
    same(
        &f.body,
        &lambda(
            &[1],
            redex(
                def("g"),
                vec![
                    thunk(redex(def("f$__thunk_0"), vec![var(0)])),
                    thunk(redex(def("h"), vec![thunk(lambda(&[3], ret(var(3))))])),
                ],
            ),
        ),
    );
    assert_eq!(f.var_bound, 4);
    let lifted = get(&s, "f$__thunk_0");
    same(&lifted.body, &lambda(&[1], ret(var(0))));
    assert_eq!(lifted.var_bound, 2);
}

#[test]
fn lifted_locals_are_less_than_the_bound() {
    let types = vec![VType::Uniform; 6];
    let mut lifter =
        ThunkLifter { def_name: "f", thunk_counter: 0, new_defs: Vec::new(), local_var_types: &types };
    lifter.transform_c_term(&ret(thunk(lambda(&[9], ret(var(5))))));
    let lifted = &lifter.new_defs[0].1;
    assert_eq!(lifted.args, vec![(5, VType::Uniform)]);
    assert_eq!(lifted.var_bound, 10);
    lifter.transform_c_term(&ret(thunk(ret(var(3)))));
    assert_eq!(lifter.new_defs[1].1.var_bound, 4);
}
