//! The uniform representation of values.
use vstd::prelude::*;

verus! {

/// A value in uniform representation. Its two lowest bits tell what it is.
pub type Uniform = usize;

/// An effect, in uniform representation.
pub type Eff = usize;

/// A thunk or a function, in uniform representation.
pub type ThunkPtr = usize;

/// What a value in uniform representation is.
#[derive(Debug, Clone, Copy, PartialEq, Eq, Hash, Structural)]
pub enum UniformType {
    /// Raw data such as an integer. The lowest bit is 0.
    Raw,
    /// A pointer to a block of values in uniform representation. The two lowest bits are `01`.
    StructPtr,
    /// A pointer to a block of primitive data or to code. The two lowest bits are `11`.
    PrimitivePtr,
}

/// What the value `bits` is.
pub open spec fn uniform_type(bits: int) -> UniformType {
    if bits % 2 == 0 {
        UniformType::Raw
    } else if bits % 4 == 1 {
        UniformType::StructPtr
    } else {
        UniformType::PrimitivePtr
    }
}

/// The address that the value `bits` holds if it is a pointer.
pub open spec fn normal_ptr(bits: int) -> int {
    bits - bits % 4
}

/// The value that is a pointer to the block of values at `address`.
pub open spec fn uniform_sptr(address: int) -> int {
    address + 1
}

impl UniformType {
    /// What the value `bits` is.
    pub fn from_bits(bits: usize) -> (r: UniformType)
        ensures
            r == uniform_type(bits as int),
    {
        if bits % 2 == 0 {
            UniformType::Raw
        } else if bits % 4 == 1 {
            UniformType::StructPtr
        } else {
            UniformType::PrimitivePtr
        }
    }

    /// The value that is a pointer to the block of values at `address`.
    pub fn to_uniform_sptr(address: usize) -> (r: usize)
        requires
            address % 8 == 0,
        ensures
            r == uniform_sptr(address as int),
    {
        address + 1
    }
}

/// The address that `bits` holds.
pub fn to_normal_ptr(bits: usize) -> (r: usize)
    ensures
        r == normal_ptr(bits as int),
{
    bits - bits % 4
}

/// A pointer to a block of values is told to be one, and gives back the address it was made from.
pub proof fn lemma_uniform_sptr_round_trip(address: int)
    requires
        address % 8 == 0,
    ensures
        uniform_type(uniform_sptr(address)) == UniformType::StructPtr,
        normal_ptr(uniform_sptr(address)) == address,
{
}

/// The lowest bits of a value tell what it is, and an address has none of them.
pub proof fn lemma_lowest_bits(bits: int)
    ensures
        uniform_type(bits) == UniformType::Raw <==> bits % 2 == 0,
        uniform_type(bits) == UniformType::StructPtr <==> bits % 4 == 1,
        uniform_type(bits) == UniformType::PrimitivePtr <==> bits % 4 == 3,
        normal_ptr(bits) % 4 == 0,
        normal_ptr(bits) <= bits < normal_ptr(bits) + 4,
{
}

} // verus!
