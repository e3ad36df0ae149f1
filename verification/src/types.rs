//! The value types of the intermediate representation and the linkage of symbols.

use vstd::prelude::*;

verus! {

/// The type of a value, of a global variable or of a local slot.
#[derive(Clone, Copy, Debug, PartialEq, Eq, Structural, Hash)]
pub enum Type {
    I1,
    I8,
    U8,
    I16,
    U16,
    I32,
    U32,
    I64,
    U64,
    I128,
    U128,
    /// An element of the machine's native field.
    Felt,
    /// An address in linear memory.
    Ptr,
}

impl Type {
    /// The number of bytes a value of this type occupies in linear memory.
    pub open spec fn spec_size_in_bytes(self) -> nat {
        match self {
            Type::I1 | Type::I8 | Type::U8 => 1,
            Type::I16 | Type::U16 => 2,
            Type::I32 | Type::U32 | Type::Ptr => 4,
            Type::I64 | Type::U64 | Type::Felt => 8,
            Type::I128 | Type::U128 => 16,
        }
    }

    /// The number of bytes a value of this type occupies in linear memory.
    pub fn size_in_bytes(&self) -> (n: u32)
        ensures
            n == self.spec_size_in_bytes(),
            1 <= n <= 16,
    {
        match self {
            Type::I1 | Type::I8 | Type::U8 => 1,
            Type::I16 | Type::U16 => 2,
            Type::I32 | Type::U32 | Type::Ptr => 4,
            Type::I64 | Type::U64 | Type::Felt => 8,
            Type::I128 | Type::U128 => 16,
        }
    }

    /// True for the integer types, whatever their width and sign.
    pub open spec fn spec_is_integer(self) -> bool {
        !(self is Felt) && !(self is Ptr)
    }

    /// True for the integer types, whatever their width and sign.
    pub fn is_integer(&self) -> (r: bool)
        ensures
            r == self.spec_is_integer(),
    {
        match self {
            Type::Felt | Type::Ptr => false,
            _ => true,
        }
    }
}

/// Who may see a global symbol.
#[derive(Clone, Copy, Debug, PartialEq, Eq, Structural, Hash)]
pub enum Linkage {
    /// Defined in its module and visible there only.
    Internal,
    /// Defined in its module and visible to every module of the program.
    Exported,
    /// Used in its module and defined by another module of the program.
    Imported,
}

impl Linkage {
    /// True when a symbol with this linkage is defined by the module that declares it.
    pub open spec fn spec_is_definition(self) -> bool {
        !(self is Imported)
    }

    /// True when a symbol with this linkage is defined by the module that declares it.
    pub fn is_definition(&self) -> (r: bool)
        ensures
            r == self.spec_is_definition(),
    {
        match self {
            Linkage::Imported => false,
            _ => true,
        }
    }
}

} // verus!
