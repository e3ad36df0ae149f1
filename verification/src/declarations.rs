//! The declarations of global variables and constants, as the parser hands
//! them over.

use crate::globals::GlobalVariable;
use crate::ident::Ident;
use crate::types::{Linkage, Type};
use miden_diagnostics::SourceSpan;
use vstd::prelude::*;
use vstd::std_specs::cmp::PartialEqSpecImpl;

verus! {

/// A handle to a constant: its place in the constant pool of its module.
#[derive(Clone, Copy, Debug, PartialEq, Eq, Structural, Hash)]
pub struct Constant(pub u32);

impl Constant {
    /// The handle for place `index`.
    pub fn new(index: u32) -> (c: Self)
        ensures
            c == Constant(index),
    {
        Constant(index)
    }

    /// The place this handle stands for.
    pub fn index(&self) -> (i: u32)
        ensures
            i == self.0,
    {
        self.0
    }
}

/// The bytes of a constant.
#[derive(Debug)]
pub struct ConstantData {
    pub bytes: Vec<u8>,
}

impl View for ConstantData {
    type V = Seq<u8>;

    open spec fn view(&self) -> Seq<u8> {
        self.bytes@
    }
}

impl ConstantData {
    /// The constant made of `bytes`.
    pub fn new(bytes: Vec<u8>) -> (c: Self)
        ensures
            c@ == bytes@,
    {
        ConstantData { bytes }
    }

    /// The number of bytes.
    pub fn len(&self) -> (n: usize)
        ensures
            n == self@.len(),
    {
        self.bytes.len()
    }

    /// True when `self` and `other` hold the same bytes.
    pub fn same_bytes(&self, other: &ConstantData) -> (r: bool)
        ensures
            r == (self@ == other@),
    {
        if self.bytes.len() != other.bytes.len() {
            return false;
        }
        let mut i: usize = 0;
        while i < self.bytes.len()
            invariant
                0 <= i <= self.bytes.len() == other.bytes.len(),
                forall|k: int| 0 <= k < i ==> self@[k] == other@[k],
            decreases self.bytes.len() - i,
        {
            if self.bytes[i] != other.bytes[i] {
                return false;
            }
            i += 1;
        }
        assert(self@ =~= other@);
        true
    }
}

/// The declaration of a global variable.
///
/// Two declarations are equal when they agree in everything but the span.
#[derive(Debug)]
pub struct GlobalVarDeclaration {
    pub span: SourceSpan,
    pub id: GlobalVariable,
    pub name: Ident,
    pub ty: Type,
    pub linkage: Linkage,
    pub init: Option<Constant>,
}

impl GlobalVarDeclaration {
    /// The declaration, written at `span`, of the variable `id` under `name`,
    /// with type `ty`, linkage `linkage` and, where it has one, the
    /// initializer `init`.
    pub fn new(
        span: SourceSpan,
        id: GlobalVariable,
        name: Ident,
        ty: Type,
        linkage: Linkage,
        init: Option<Constant>,
    ) -> (d: Self)
        ensures
            d == (GlobalVarDeclaration { span, id, name, ty, linkage, init }),
    {
        Self { span, id, name, ty, linkage, init }
    }

    /// The place in the source where the declaration was written.
    pub fn span(&self) -> (s: SourceSpan)
        ensures
            s == self.span,
    {
        self.span
    }

    /// What `==` compares: everything but the span, and of the name its symbol.
    pub open spec fn same_declaration(&self, other: &Self) -> bool {
        &&& self.id == other.id
        &&& self.name.name == other.name.name
        &&& self.ty == other.ty
        &&& self.linkage == other.linkage
        &&& self.init == other.init
    }
}

impl PartialEq for GlobalVarDeclaration {
    fn eq(&self, other: &Self) -> (r: bool) {
        let same_init = match (self.init, other.init) {
            (Some(a), Some(b)) => a == b,
            (None, None) => true,
            _ => false,
        };
        self.id == other.id && self.name == other.name && self.ty == other.ty && self.linkage
            == other.linkage && same_init
    }
}

impl PartialEqSpecImpl for GlobalVarDeclaration {
    open spec fn obeys_eq_spec() -> bool {
        true
    }

    open spec fn eq_spec(&self, other: &Self) -> bool {
        self.same_declaration(other)
    }
}

/// The declaration of a constant.
///
/// Two declarations are equal when they agree in the handle and the bytes.
#[derive(Debug)]
pub struct ConstantDeclaration {
    pub span: SourceSpan,
    pub id: Constant,
    pub init: ConstantData,
}

impl ConstantDeclaration {
    /// The declaration, written at `span`, of the constant `id` with the bytes `init`.
    pub fn new(span: SourceSpan, id: Constant, init: ConstantData) -> (d: Self)
        ensures
            d == (ConstantDeclaration { span, id, init }),
    {
        Self { span, id, init }
    }

    /// The place in the source where the declaration was written.
    pub fn span(&self) -> (s: SourceSpan)
        ensures
            s == self.span,
    {
        self.span
    }

    /// What `==` compares: the handle and the bytes.
    pub open spec fn same_declaration(&self, other: &Self) -> bool {
        self.id == other.id && self.init@ == other.init@
    }
}

impl PartialEq for ConstantDeclaration {
    fn eq(&self, other: &Self) -> (r: bool) {
        self.id == other.id && self.init.same_bytes(&other.init)
    }
}

impl PartialEqSpecImpl for ConstantDeclaration {
    open spec fn obeys_eq_spec() -> bool {
        true
    }

    open spec fn eq_spec(&self, other: &Self) -> bool {
        self.same_declaration(other)
    }
}

} // verus!
