//! What the code generator needs to know of types and of the functions of the runtime.
use crate::ast::term::{PType, SpecializedType, VType};
use vstd::prelude::*;

verus! {

/// The type of a value in generated code.
#[derive(Debug, Clone, Copy, PartialEq, Eq, Hash, Structural)]
pub enum Type {
    I64,
    I32,
    F64,
    F32,
}

/// Something whose values have a type in generated code.
pub trait HasType {
    /// The type in generated code.
    spec fn code_type(&self) -> Type;

    /// The type in generated code.
    fn get_type(&self) -> (r: Type)
        ensures
            r == self.code_type(),
    ;
}

/// Values in uniform representation, integers and pointers all take a machine word.
impl HasType for VType {
    open spec fn code_type(&self) -> Type {
        match *self {
            VType::Specialized(SpecializedType::Primitive(t)) => primitive_code_type(t),
            _ => Type::I64,
        }
    }

    fn get_type(&self) -> (r: Type) {
        match self {
            VType::Uniform => Type::I64,
            VType::Specialized(t) => match t {
                SpecializedType::Integer => Type::I64,
                SpecializedType::StructPtr => Type::I64,
                SpecializedType::PrimitivePtr => Type::I64,
                SpecializedType::Primitive(t) => t.get_type(),
            },
        }
    }
}

/// The type of a primitive in generated code.
pub open spec fn primitive_code_type(t: PType) -> Type {
    match t {
        PType::I64 => Type::I64,
        PType::I32 => Type::I32,
        PType::F64 => Type::F64,
        PType::F32 => Type::F32,
    }
}

impl HasType for PType {
    open spec fn code_type(&self) -> Type {
        primitive_code_type(*self)
    }

    fn get_type(&self) -> (r: Type) {
        match self {
            PType::I64 => Type::I64,
            PType::I32 => Type::I32,
            PType::F64 => Type::F64,
            PType::F32 => Type::F32,
        }
    }
}

/// The function under construction of the code generator, of which the signature is filled here.
#[verifier::external_type_specification]
#[verifier::external_body]
pub struct ExFunction(cranelift::codegen::ir::Function);

/// How a value is passed to a function, or returned by it.
pub struct Passing {
    pub value_type: Type,
    /// Whether it is a value of the program, and not one with a special purpose.
    pub is_normal: bool,
    /// Whether it is to be extended to a full register.
    pub is_extended: bool,
}

/// How a value of the given type is passed in the plain way: it has no special purpose, and is not
/// extended.
pub open spec fn plain(ty: Type) -> Passing {
    Passing { value_type: ty, is_normal: true, is_extended: false }
}

/// How the parameters in the signature of `func` are passed, in order.
pub uninterp spec fn function_params(func: cranelift::codegen::ir::Function) -> Seq<Passing>;

/// How the return values in the signature of `func` are returned, in order.
pub uninterp spec fn function_returns(func: cranelift::codegen::ir::Function) -> Seq<Passing>;

/// Adds a parameter made by `cranelift::prelude::AbiParam::new` at the end of the parameters in
/// the signature of `func`. It is passed in the plain way: its purpose is the normal one, and it is
/// not extended. The return values stay as they are.
#[verifier::external_body]
fn push_param(func: &mut cranelift::codegen::ir::Function, ty: Type)
    ensures
        function_params(*final(func)) == function_params(*old(func)).push(plain(ty)),
        function_returns(*final(func)) == function_returns(*old(func)),
{
    let value_type = match ty {
        Type::I64 => cranelift::prelude::types::I64,
        Type::I32 => cranelift::prelude::types::I32,
        Type::F64 => cranelift::prelude::types::F64,
        Type::F32 => cranelift::prelude::types::F32,
    };
    func.signature.params.push(cranelift::prelude::AbiParam::new(value_type));
}

/// Adds a return value made by `cranelift::prelude::AbiParam::new` at the end of the return values
/// in the signature of `func`. It is returned in the plain way: its purpose is the normal one, and
/// it is not extended. The parameters stay as they are.
#[verifier::external_body]
fn push_return(func: &mut cranelift::codegen::ir::Function, ty: Type)
    ensures
        function_returns(*final(func)) == function_returns(*old(func)).push(plain(ty)),
        function_params(*final(func)) == function_params(*old(func)),
{
    let value_type = match ty {
        Type::I64 => cranelift::prelude::types::I64,
        Type::I32 => cranelift::prelude::types::I32,
        Type::F64 => cranelift::prelude::types::F64,
        Type::F32 => cranelift::prelude::types::F32,
    };
    func.signature.returns.push(cranelift::prelude::AbiParam::new(value_type));
}

/// A function of the runtime that generated code calls.
#[derive(Debug, Clone, Copy, PartialEq, Eq, Hash, Structural)]
pub enum BuiltinFunction {
    Alloc,
    ForceThunk,
    AllocStack,
    HandleSimpleOperation,
    PrepareComplexOperation,
}

impl BuiltinFunction {
    /// The symbol of the function.
    pub open spec fn symbol(self) -> Seq<char> {
        match self {
            BuiltinFunction::Alloc => "__runtime_alloc__"@,
            BuiltinFunction::ForceThunk => "__runtime_force_thunk__"@,
            BuiltinFunction::AllocStack => "__runtime_alloc_stack__"@,
            BuiltinFunction::HandleSimpleOperation => "__runtime_handle_simple_operation"@,
            BuiltinFunction::PrepareComplexOperation => "__runtime_prepare_complex_operation"@,
        }
    }

    /// How the parameters of the function are passed.
    pub open spec fn params(self) -> Seq<Passing> {
        match self {
            BuiltinFunction::Alloc => seq![plain(Type::I64)],
            BuiltinFunction::ForceThunk => seq![plain(Type::I64), plain(Type::I64)],
            _ => Seq::empty(),
        }
    }

    /// The symbol of the function.
    pub fn func_name(&self) -> (r: &'static str)
        ensures
            r@ == self.symbol(),
    {
        match self {
            BuiltinFunction::Alloc => "__runtime_alloc__",
            BuiltinFunction::ForceThunk => "__runtime_force_thunk__",
            BuiltinFunction::AllocStack => "__runtime_alloc_stack__",
            BuiltinFunction::HandleSimpleOperation => "__runtime_handle_simple_operation",
            BuiltinFunction::PrepareComplexOperation => "__runtime_prepare_complex_operation",
        }
    }

    /// Adds the parameters and the return value of this function to the signature of `func`. Every
    /// function returns one machine word. All of them are passed in the plain way.
    pub fn signature(&self, func: &mut cranelift::codegen::ir::Function)
        ensures
            function_params(*final(func)) == function_params(*old(func)) + self.params(),
            function_returns(*final(func)) == function_returns(*old(func)).push(
                plain(Type::I64),
            ),
    {
        match self {
            BuiltinFunction::Alloc => {
                push_param(func, Type::I64);
                push_return(func, Type::I64);
            },
            BuiltinFunction::ForceThunk => {
                push_param(func, Type::I64);
                push_param(func, Type::I64);
                push_return(func, Type::I64);
            },
            BuiltinFunction::AllocStack => {
                push_return(func, Type::I64);
            },
            BuiltinFunction::HandleSimpleOperation => {
                push_return(func, Type::I64);
            },
            BuiltinFunction::PrepareComplexOperation => {
                push_return(func, Type::I64);
            },
        }
        assert(function_params(*func) =~= function_params(*old(func)) + self.params());
    }
}

/// The ways in which a function is compiled.
#[derive(Debug, Clone, Copy, PartialEq, Eq, Hash, Structural)]
pub enum FunctionFlavor {
    /// The function arguments are pushed via pushing to the argument stack and a continuation is
    /// passed to accept the return value. This is the default mode and all functions are compiled
    /// to this mode.
    Cps,
    /// The CPS implementation of the function. This function transitions the continuation object
    /// from one state to the next.
    CpsImpl,
    /// The function arguments are passed via pushing to the argument stack. The function does not
    /// perform any complex effects so return value is returned directly. Only functions that can
    /// possibly perform no or just simple effects are compiled to this mode.
    Simple,
    /// The function arguments are passed directly and return value is returned directly. Only
    /// functions that may only perform no or simple effects and are specializable are compiled to
    /// this mode.
    Specialized,
}

impl FunctionFlavor {
    /// What a function's name ends in when it is compiled in this way.
    pub open spec fn suffix(self) -> Seq<char> {
        match self {
            FunctionFlavor::Cps => Seq::empty(),
            FunctionFlavor::CpsImpl => "__cps_impl"@,
            FunctionFlavor::Simple => "__simple"@,
            FunctionFlavor::Specialized => "__specialized"@,
        }
    }

    /// The name of the code that the function `function_name` is compiled to in this way.
    pub fn decorate_name(&self, function_name: &str) -> (r: String)
        ensures
            r@ == function_name@ + self.suffix(),
    {
        let mut r = function_name.to_owned();
        match self {
            FunctionFlavor::Cps => {},
            FunctionFlavor::CpsImpl => r.append("__cps_impl"),
            FunctionFlavor::Simple => r.append("__simple"),
            FunctionFlavor::Specialized => r.append("__specialized"),
        }
        assert(r@ =~= function_name@ + self.suffix());
        r
    }
}

/// Compilations of functions are told apart by their names: two functions compiled in the same way
/// have the same name only if they are the same.
pub proof fn lemma_decorated_names_differ(flavor: FunctionFlavor, a: Seq<char>, b: Seq<char>)
    requires
        a + flavor.suffix() == b + flavor.suffix(),
    ensures
        a == b,
{
    assert((a + flavor.suffix()).len() == a.len() + flavor.suffix().len());
    assert((b + flavor.suffix()).len() == b.len() + flavor.suffix().len());
    assert(a =~= (a + flavor.suffix()).take(a.len() as int));
    assert(b =~= (b + flavor.suffix()).take(a.len() as int));
}

/// The compilations of a function have different names.
pub proof fn lemma_flavors_differ(name: Seq<char>, a: FunctionFlavor, b: FunctionFlavor)
    requires
        name + a.suffix() == name + b.suffix(),
    ensures
        a == b,
{
    reveal_strlit("__cps_impl");
    reveal_strlit("__simple");
    reveal_strlit("__specialized");
    assert((name + a.suffix()).len() == name.len() + a.suffix().len());
    assert((name + b.suffix()).len() == name.len() + b.suffix().len());
}

/// The functions of the runtime have different symbols.
pub proof fn lemma_symbols_differ(a: BuiltinFunction, b: BuiltinFunction)
    requires
        a.symbol() == b.symbol(),
    ensures
        a == b,
{
    reveal_strlit("__runtime_alloc__");
    reveal_strlit("__runtime_force_thunk__");
    reveal_strlit("__runtime_alloc_stack__");
    reveal_strlit("__runtime_handle_simple_operation");
    reveal_strlit("__runtime_prepare_complex_operation");
    assert("__runtime_alloc__"@.len() == 17);
    assert("__runtime_force_thunk__"@.len() == 23);
    assert("__runtime_alloc_stack__"@.len() == 23);
    assert("__runtime_handle_simple_operation"@.len() == 33);
    assert("__runtime_prepare_complex_operation"@.len() == 35);
    assert("__runtime_force_thunk__"@[10] == 'f');
    assert("__runtime_alloc_stack__"@[10] == 'a');
}

} // verus!
