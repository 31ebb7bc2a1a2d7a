//! The primitive functions that definitions can call.
use crate::ast::term::VType;
use vstd::hash_map::StringHashMap;
use vstd::prelude::*;

verus! {

/// The type of a primitive function.
#[derive(Debug)]
pub struct PrimitiveFunction {
    pub arg_types: Vec<VType>,
    pub return_type: VType,
}

/// The mathematical counterpart of [`PrimitiveFunction`].
pub struct Primitive {
    pub arg_types: Seq<VType>,
    pub return_type: VType,
}

impl View for PrimitiveFunction {
    type V = Primitive;

    open spec fn view(&self) -> Primitive {
        Primitive { arg_types: self.arg_types@, return_type: self.return_type }
    }
}

/// The primitive functions by name.
pub struct PrimitiveFunctions {
    table: StringHashMap<PrimitiveFunction>,
}

impl View for PrimitiveFunctions {
    type V = Map<Seq<char>, Primitive>;

    closed spec fn view(&self) -> Map<Seq<char>, Primitive> {
        self.table@.map_values(|f: PrimitiveFunction| f@)
    }
}

impl PrimitiveFunctions {
    /// No primitive functions.
    pub fn new() -> (r: Self)
        ensures
            r@ == Map::<Seq<char>, Primitive>::empty(),
    {
        let r = PrimitiveFunctions { table: StringHashMap::new() };
        assert(r@ =~= Map::<Seq<char>, Primitive>::empty());
        r
    }

    /// Adds a primitive function, in place of one of the same name.
    pub fn insert(&mut self, name: String, function: PrimitiveFunction)
        ensures
            final(self)@ == old(self)@.insert(name@, function@),
    {
        self.table.insert(name, function);
        assert(self@ =~= old(self)@.insert(name@, function@));
    }

    /// The primitive function of the given name.
    pub fn get(&self, name: &str) -> (r: Option<&PrimitiveFunction>)
        ensures
            match r {
                Some(f) => self@.contains_key(name@) && f@ == self@[name@],
                None => !self@.contains_key(name@),
            },
    {
        self.table.get(name)
    }
}

} // verus!
