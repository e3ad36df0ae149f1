//! Names: interned symbols and the identifiers built from them.

use miden_diagnostics::SourceSpan;
use vstd::prelude::*;
use vstd::std_specs::cmp::PartialEqSpecImpl;

verus! {

/// `miden_diagnostics::SourceSpan`: a range of bytes in one source file.
/// Nothing is known of a span here; it is carried along for diagnostics.
#[verifier::external_type_specification]
#[verifier::external_body]
pub struct ExSourceSpan(miden_diagnostics::SourceSpan);

/// An interned string, identified by its index in the symbol table.
#[derive(Clone, Copy, Debug, PartialEq, Eq, Structural, Hash)]
pub struct Symbol(pub u32);

impl Symbol {
    /// The symbol with index `id`.
    pub fn new(id: u32) -> (s: Self)
        ensures
            s == Symbol(id),
    {
        Symbol(id)
    }

    /// The index of this symbol.
    pub fn as_u32(&self) -> (id: u32)
        ensures
            id == self.0,
    {
        self.0
    }
}

/// A name together with the place in the source where it was written.
///
/// Two identifiers are the same name when their symbols agree; the span
/// takes no part in comparisons.
#[derive(Clone, Copy, Debug)]
pub struct Ident {
    pub name: Symbol,
    pub span: SourceSpan,
}

impl Ident {
    /// The identifier `name` written at `span`.
    pub fn new(name: Symbol, span: SourceSpan) -> (id: Self)
        ensures
            id.name == name,
            id.span == span,
    {
        Ident { name, span }
    }

    /// The symbol this identifier names.
    pub fn as_symbol(&self) -> (s: Symbol)
        ensures
            s == self.name,
    {
        self.name
    }

    /// The place in the source where this identifier was written.
    pub fn span(&self) -> (s: SourceSpan)
        ensures
            s == self.span,
    {
        self.span
    }
}

impl PartialEq for Ident {
    fn eq(&self, other: &Self) -> (r: bool) {
        self.name == other.name
    }
}

impl Eq for Ident {}

impl PartialEqSpecImpl for Ident {
    open spec fn obeys_eq_spec() -> bool {
        true
    }

    open spec fn eq_spec(&self, other: &Self) -> bool {
        self.name == other.name
    }
}

/// The full name of a function: the module that defines it and its name there.
#[derive(Clone, Copy, Debug)]
pub struct FunctionIdent {
    pub module: Ident,
    pub function: Ident,
}

impl FunctionIdent {
    /// The function `function` of module `module`.
    pub fn new(module: Ident, function: Ident) -> (id: Self)
        ensures
            id.module == module,
            id.function == function,
    {
        FunctionIdent { module, function }
    }

    /// True when `self` and `other` name the same function of the same module.
    pub fn same_as(&self, other: &FunctionIdent) -> (r: bool)
        ensures
            r == (self.module.name == other.module.name && self.function.name
                == other.function.name),
    {
        self.module == other.module && self.function == other.function
    }
}

} // verus!
