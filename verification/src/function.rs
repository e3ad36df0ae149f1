//! Functions: a name, a signature and a body in static single assignment form.

use crate::ident::Ident;
use crate::ir::Body;
use crate::types::Type;
use vstd::prelude::*;

verus! {

/// The types of the parameters and of the results of a function.
#[derive(Debug)]
pub struct Signature {
    pub params: Vec<Type>,
    pub results: Vec<Type>,
}

impl Signature {
    /// The signature with the parameters `params` and the results `results`.
    pub fn new(params: Vec<Type>, results: Vec<Type>) -> (s: Self)
        ensures
            s.params == params,
            s.results == results,
    {
        Signature { params, results }
    }

    /// The number of parameters.
    pub fn arity(&self) -> (n: usize)
        ensures
            n == self.params@.len(),
    {
        self.params.len()
    }
}

/// A function of a module.
#[derive(Debug)]
pub struct Function {
    pub name: Ident,
    pub signature: Signature,
    /// The code of the function, in static single assignment form.
    pub body: Body,
}

impl Function {
    /// The function `name` with the signature `signature` and the code `body`.
    pub fn new(name: Ident, signature: Signature, body: Body) -> (f: Self)
        ensures
            f.name == name,
            f.signature == signature,
            f.body == body,
    {
        Function { name, signature, body }
    }
}

} // verus!
