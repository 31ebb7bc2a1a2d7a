//! What the code generator needs to know.
use cbpv::ast::term::{PType, SpecializedType, VType};
use cbpv::backend::common::{BuiltinFunction, FunctionFlavor, HasType, Type};
use cranelift::codegen::ir::{ArgumentExtension, ArgumentPurpose, Function};
use cranelift::prelude::types::I64;
use cranelift::prelude::AbiParam;

#[test]
fn types_in_generated_code() {
    assert_eq!(VType::Uniform.get_type(), Type::I64);
    assert_eq!(VType::Specialized(SpecializedType::Integer).get_type(), Type::I64);
    assert_eq!(VType::Specialized(SpecializedType::StructPtr).get_type(), Type::I64);
    assert_eq!(VType::Specialized(SpecializedType::PrimitivePtr).get_type(), Type::I64);
    for (t, expected) in [
        (PType::I64, Type::I64),
        (PType::I32, Type::I32),
        (PType::F64, Type::F64),
        (PType::F32, Type::F32),
    ] {
        assert_eq!(t.get_type(), expected);
        assert_eq!(
            VType::Specialized(SpecializedType::Primitive(t)).get_type(),
            expected
        );
    }
}

#[test]
fn signatures_are_filled() {
    for (builtin, params) in [
        (BuiltinFunction::Alloc, 1),
        (BuiltinFunction::ForceThunk, 2),
        (BuiltinFunction::AllocStack, 0),
        (BuiltinFunction::HandleSimpleOperation, 0),
        (BuiltinFunction::PrepareComplexOperation, 0),
    ] {
        let mut func = Function::new();
        builtin.signature(&mut func);
        assert_eq!(func.signature.params.len(), params);
        assert_eq!(func.signature.returns.len(), 1);
        assert!(func.signature.params.iter().all(|p| *p == AbiParam::new(I64)));
        assert_eq!(func.signature.returns[0], AbiParam::new(I64));
        for passed in func.signature.params.iter().chain(&func.signature.returns) {
            assert_eq!(passed.value_type, I64);
            assert_eq!(passed.purpose, ArgumentPurpose::Normal);
            assert_eq!(passed.extension, ArgumentExtension::None);
        }
    }
}

#[test]
fn signatures_are_extended() {
    let mut func = Function::new();
    BuiltinFunction::Alloc.signature(&mut func);
    BuiltinFunction::ForceThunk.signature(&mut func);
    assert_eq!(func.signature.params.len(), 3);
    assert_eq!(func.signature.returns.len(), 2);
}

#[test]
fn symbols_of_the_runtime() {
    assert_eq!(BuiltinFunction::Alloc.func_name(), "__runtime_alloc__");
    assert_eq!(BuiltinFunction::ForceThunk.func_name(), "__runtime_force_thunk__");
    assert_eq!(BuiltinFunction::AllocStack.func_name(), "__runtime_alloc_stack__");
    assert_eq!(
        BuiltinFunction::HandleSimpleOperation.func_name(),
        "__runtime_handle_simple_operation"
    );
    assert_eq!(
        BuiltinFunction::PrepareComplexOperation.func_name(),
        "__runtime_prepare_complex_operation"
    );
}

#[test]
fn names_are_decorated() {
    assert_eq!(FunctionFlavor::Cps.decorate_name("f"), "f");
    assert_eq!(FunctionFlavor::CpsImpl.decorate_name("f"), "f__cps_impl");
    assert_eq!(FunctionFlavor::Simple.decorate_name("f"), "f__simple");
    assert_eq!(FunctionFlavor::Specialized.decorate_name("f"), "f__specialized");
}
