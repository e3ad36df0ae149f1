//! Modules, and the builder that gathers what a module declares.

use crate::declarations::GlobalVarDeclaration;
use crate::function::{Function, Signature};
use crate::ident::{Ident, Symbol};
use crate::segments::{DataSegment, SegmentView};
use crate::config::TranslationConfig;
use crate::translate::{
    branch_free, branches_match, one_block_body, opcodes_of, placed_translation,
    straight_body_opcodes, straight_line, straight_outcome, translate_function_at, translation,
    unbranched_body, Operator, TranslateError,
};
use crate::types::Type;
use vstd::prelude::*;

verus! {

/// A linear memory that a module declares, in pages.
#[derive(Clone, Copy, Debug)]
pub struct Memory {
    pub initial_pages: u32,
    pub maximum_pages: Option<u32>,
}

/// What a module is, as a mathematical value.
pub ghost struct ModuleView {
    pub name: Symbol,
    pub functions: Seq<Function>,
    pub globals: Seq<GlobalVarDeclaration>,
    pub memories: Seq<Memory>,
    pub segments: Seq<SegmentView>,
    /// The name of the function that the module marks as the entrypoint of
    /// the program, if it marks one.
    pub entrypoint: Option<Symbol>,
}

impl ModuleView {
    /// True when the module defines a function called `name`.
    pub open spec fn defines_function(self, name: Symbol) -> bool {
        exists|i: int| 0 <= i < self.functions.len() && (#[trigger] self.functions[i]).name.name == name
    }

    /// True when the module declares a global variable called `name`.
    pub open spec fn declares_global(self, name: Symbol) -> bool {
        exists|i: int| 0 <= i < self.globals.len() && (#[trigger] self.globals[i]).name.name == name
    }

    /// The invariant of a module: no two functions and no two global
    /// variables share a name, and the entrypoint, where one is marked, is a
    /// function of the module.
    pub open spec fn wf(self) -> bool {
        &&& forall|i: int, j: int|
            0 <= i < j < self.functions.len() ==> (#[trigger] self.functions[i]).name.name != (
            #[trigger] self.functions[j]).name.name
        &&& forall|i: int, j: int|
            0 <= i < j < self.globals.len() ==> (#[trigger] self.globals[i]).name.name != (
            #[trigger] self.globals[j]).name.name
        &&& self.entrypoint matches Some(f) ==> self.defines_function(f)
    }
}

/// A translated unit: functions, global variables, memories and data segments
/// under one name.
#[derive(Debug)]
pub struct Module {
    name: Ident,
    functions: Vec<Function>,
    globals: Vec<GlobalVarDeclaration>,
    memories: Vec<Memory>,
    segments: Vec<DataSegment>,
    entrypoint: Option<Ident>,
}

impl View for Module {
    type V = ModuleView;

    closed spec fn view(&self) -> ModuleView {
        ModuleView {
            name: self.name.name,
            functions: self.functions@,
            globals: self.globals@,
            memories: self.memories@,
            segments: self.segments@.map_values(|s: DataSegment| s@),
            entrypoint: match self.entrypoint {
                Some(id) => Some(id.name),
                None => None,
            },
        }
    }
}

impl Module {
    /// The invariant of a module, see [`ModuleView::wf`].
    pub open spec fn wf(&self) -> bool {
        self@.wf()
    }

    /// The name of the module.
    pub fn name(&self) -> (n: Ident)
        ensures
            n.name == self@.name,
    {
        self.name
    }

    /// The functions of the module, in the order of their declaration.
    pub fn functions(&self) -> (f: &Vec<Function>)
        ensures
            f@ == self@.functions,
    {
        &self.functions
    }

    /// The global variables of the module, in the order of their declaration.
    pub fn globals(&self) -> (g: &Vec<GlobalVarDeclaration>)
        ensures
            g@ == self@.globals,
    {
        &self.globals
    }

    /// The memories of the module, in the order of their declaration.
    pub fn memories(&self) -> (m: &Vec<Memory>)
        ensures
            m@ == self@.memories,
    {
        &self.memories
    }

    /// The data segments of the module, in the order of their declaration.
    pub fn segments(&self) -> (s: &Vec<DataSegment>)
        ensures
            s@.map_values(|s: DataSegment| s@) == self@.segments,
    {
        &self.segments
    }

    /// The name of the function that the module marks as the entrypoint of
    /// the program, if it marks one.
    pub fn entrypoint(&self) -> (e: Option<Ident>)
        ensures
            match e {
                Some(id) => self@.entrypoint == Some(id.name),
                None => self@.entrypoint is None,
            },
    {
        self.entrypoint
    }

    /// The place of the function called `name` among the functions of the module.
    pub fn find_function(&self, name: Symbol) -> (r: Option<usize>)
        ensures
            r is Some == self@.defines_function(name),
            r matches Some(i) ==> i < self@.functions.len() && self@.functions[i as int].name.name
                == name,
    {
        let mut i: usize = 0;
        while i < self.functions.len()
            invariant
                0 <= i <= self.functions.len(),
                forall|k: int| 0 <= k < i ==> (#[trigger] self.functions@[k]).name.name != name,
            decreases self.functions.len() - i,
        {
            if self.functions[i].name.name == name {
                assert(self@.functions[i as int].name.name == name);
                return Some(i);
            }
            i += 1;
        }
        None
    }

    /// The function called `name`.
    pub fn function(&self, name: Symbol) -> (r: Option<&Function>)
        ensures
            r is Some == self@.defines_function(name),
            r matches Some(f) ==> f.name.name == name && self@.functions.contains(*f),
    {
        match self.find_function(name) {
            Some(i) => Some(&self.functions[i]),
            None => None,
        }
    }

    /// The place of the global variable called `name` among the global
    /// variables of the module.
    pub fn find_global(&self, name: Symbol) -> (r: Option<usize>)
        ensures
            r is Some == self@.declares_global(name),
            r matches Some(i) ==> i < self@.globals.len() && self@.globals[i as int].name.name
                == name,
    {
        let mut i: usize = 0;
        while i < self.globals.len()
            invariant
                0 <= i <= self.globals.len(),
                forall|k: int| 0 <= k < i ==> (#[trigger] self.globals@[k]).name.name != name,
            decreases self.globals.len() - i,
        {
            if self.globals[i].name.name == name {
                assert(self@.globals[i as int].name.name == name);
                return Some(i);
            }
            i += 1;
        }
        None
    }
}

/// A module keeps its entrypoint among its functions while no function leaves.
proof fn lemma_entrypoint_kept(before: ModuleView, after: ModuleView)
    requires
        before.wf(),
        after.entrypoint == before.entrypoint,
        before.functions.len() <= after.functions.len(),
        forall|i: int|
            0 <= i < before.functions.len() ==> (#[trigger] after.functions[i]) == before.functions[i],
    ensures
        after.entrypoint matches Some(f) ==> after.defines_function(f),
{
    match before.entrypoint {
        Some(f) => {
            let i = choose|i: int|
                0 <= i < before.functions.len() && (#[trigger] before.functions[i]).name.name == f;
            assert(after.functions[i].name.name == f);
        },
        None => {},
    }
}

/// Why a module turned a declaration down.
#[derive(Clone, Copy, Debug, PartialEq, Eq, Structural)]
pub enum ModuleError {
    /// The module has a function, or a global variable, of that name already.
    DuplicateDefinition(Symbol),
    /// The module has no function of that name.
    UndefinedFunction(Symbol),
}

/// Gathers the functions, global variables, memories and data segments of
/// one module as they are declared.
#[derive(Debug)]
pub struct ModuleBuilder {
    module: Module,
}

impl View for ModuleBuilder {
    type V = ModuleView;

    closed spec fn view(&self) -> ModuleView {
        self.module@
    }
}

impl ModuleBuilder {
    /// The invariant of the builder: what it has gathered is a module.
    pub open spec fn wf(&self) -> bool {
        self@.wf()
    }

    /// A builder for the module `name`, with nothing declared.
    pub fn new(name: Ident) -> (b: Self)
        ensures
            b.wf(),
            b@ == (ModuleView {
                name: name.name,
                functions: Seq::empty(),
                globals: Seq::empty(),
                memories: Seq::empty(),
                segments: Seq::empty(),
                entrypoint: None,
            }),
    {
        let b = ModuleBuilder {
            module: Module {
                name,
                functions: Vec::new(),
                globals: Vec::new(),
                memories: Vec::new(),
                segments: Vec::new(),
                entrypoint: None,
            },
        };
        assert(b@.segments =~= Seq::empty());
        b
    }

    /// Adds `function` behind the functions declared so far, unless the
    /// module has a function of that name: then nothing changes.
    pub fn declare_function(&mut self, function: Function) -> (r: Result<(), ModuleError>)
        requires
            old(self).wf(),
        ensures
            final(self).wf(),
            match r {
                Ok(_) => !old(self)@.defines_function(function.name.name) && final(self)@ == (
                ModuleView { functions: old(self)@.functions.push(function), ..old(self)@ }),
                Err(e) => old(self)@.defines_function(function.name.name) && e
                    == ModuleError::DuplicateDefinition(function.name.name) && final(self)@ == old(
                    self,
                )@,
            },
    {
        if self.module.find_function(function.name.name).is_some() {
            return Err(ModuleError::DuplicateDefinition(function.name.name));
        }
        let ghost before = self@;
        self.module.functions.push(function);
        proof {
            assert(self@.segments == before.segments);
            lemma_entrypoint_kept(before, self@);
        }
        Ok(())
    }

    /// Adds `global` behind the global variables declared so far, and returns
    /// its place among them, unless the module has a global variable of that
    /// name: then nothing changes.
    pub fn declare_global(&mut self, global: GlobalVarDeclaration) -> (r: Result<usize, ModuleError>)
        requires
            old(self).wf(),
        ensures
            final(self).wf(),
            match r {
                Ok(i) => !old(self)@.declares_global(global.name.name) && i == old(
                    self,
                )@.globals.len() && final(self)@ == (ModuleView {
                    globals: old(self)@.globals.push(global),
                    ..old(self)@
                }),
                Err(e) => old(self)@.declares_global(global.name.name) && e
                    == ModuleError::DuplicateDefinition(global.name.name) && final(self)@ == old(
                    self,
                )@,
            },
    {
        if self.module.find_global(global.name.name).is_some() {
            return Err(ModuleError::DuplicateDefinition(global.name.name));
        }
        let ghost before = self@;
        let n = self.module.globals.len();
        self.module.globals.push(global);
        proof {
            assert(self@.segments == before.segments);
            lemma_entrypoint_kept(before, self@);
        }
        Ok(n)
    }

    /// Adds `memory` behind the memories declared so far.
    pub fn declare_memory(&mut self, memory: Memory)
        requires
            old(self).wf(),
        ensures
            final(self).wf(),
            final(self)@ == (ModuleView {
                memories: old(self)@.memories.push(memory),
                ..old(self)@
            }),
    {
        let ghost before = self@;
        self.module.memories.push(memory);
        proof {
            assert(self@.segments == before.segments);
            lemma_entrypoint_kept(before, self@);
        }
    }

    /// Adds `segment` behind the data segments declared so far. Whether it
    /// overlaps another one is found out when the module is linked.
    pub fn declare_data_segment(&mut self, segment: DataSegment)
        requires
            old(self).wf(),
        ensures
            final(self).wf(),
            final(self)@ == (ModuleView {
                segments: old(self)@.segments.push(segment@),
                ..old(self)@
            }),
    {
        self.module.segments.push(segment);
        proof {
            assert(self@.segments =~= old(self)@.segments.push(segment@));
            lemma_entrypoint_kept(old(self)@, self@);
        }
    }

    /// Marks the function called `name` as the entrypoint of the program, in
    /// place of the one marked before, unless the module has no function of
    /// that name: then nothing changes.
    pub fn set_entrypoint(&mut self, name: Ident) -> (r: Result<(), ModuleError>)
        requires
            old(self).wf(),
        ensures
            final(self).wf(),
            match r {
                Ok(_) => old(self)@.defines_function(name.name) && final(self)@ == (ModuleView {
                    entrypoint: Some(name.name),
                    ..old(self)@
                }),
                Err(e) => !old(self)@.defines_function(name.name) && e
                    == ModuleError::UndefinedFunction(name.name) && final(self)@ == old(self)@,
            },
    {
        if self.module.find_function(name.name).is_none() {
            return Err(ModuleError::UndefinedFunction(name.name));
        }
        self.module.entrypoint = Some(name);
        Ok(())
    }

    /// The module gathered so far.
    pub fn build(self) -> (m: Module)
        requires
            self.wf(),
        ensures
            m.wf(),
            m@ == self@,
    {
        self.module
    }
}

/// Why a function could not be added to a module.
#[derive(Clone, Copy, Debug, PartialEq, Eq, Structural)]
pub enum FunctionError {
    /// The module has a function of that name already.
    DuplicateDefinition(Symbol),
    /// The code of the function `function` of the module `module` is
    /// defective: the operator at the place `position` of the code, counted
    /// from zero, has the defect `error`.
    Translation { module: Symbol, function: Symbol, position: usize, error: TranslateError },
}

impl ModuleBuilder {
    /// Translates the code `code` of the function `name`, whose parameters
    /// and results are those of `signature` and whose further local
    /// variables are `locals`, and adds the function behind the functions
    /// declared so far. Where the module has a function of that name, and
    /// where the code is defective, nothing changes.
    ///
    /// The code is translated under the options that
    /// [`TranslationConfig::new`] gives, and the body of the new function is
    /// the one that [`translation`] describes: the code is defective where
    /// that is a defect, and then the error names it and its place.
    pub fn define_function(
        &mut self,
        name: Ident,
        signature: Signature,
        locals: &Vec<Type>,
        code: &Vec<Operator>,
    ) -> (r: Result<(), FunctionError>)
        requires
            old(self).wf(),
        ensures
            final(self).wf(),
            old(self)@.defines_function(name.name) <==> r matches Err(FunctionError::DuplicateDefinition(_)),
            !old(self)@.defines_function(name.name) && straight_line(code@) ==> (r is Ok <==> (
            straight_outcome(
                &TranslationConfig::spec_default(),
                signature.params@.len() + locals@.len(),
                code@.drop_last(),
            ) matches Ok(h) && h >= signature.results@.len())),
            match r {
                Ok(_) => {
                    let body = final(self)@.functions.last().body;
                    &&& !old(self)@.defines_function(name.name)
                    &&& final(self)@.functions.len() == old(self)@.functions.len() + 1
                    &&& final(self)@.functions.drop_last() == old(self)@.functions
                    &&& final(self)@.functions.last().name == name
                    &&& final(self)@.functions.last().signature == signature
                    &&& translation(
                        &TranslationConfig::spec_default(),
                        signature.params@,
                        locals@,
                        signature.results.len(),
                        code@,
                        Ok(body),
                    )
                    &&& body.wf()
                    &&& body.complete()
                    &&& forall|b: int| 0 <= b < body.blocks().len() ==> #[trigger] body.terminated(b)
                    &&& straight_line(code@) ==> one_block_body(
                        &body,
                        signature.params@.len(),
                        signature.results@.len(),
                    )
                    &&& branch_free(code@) ==> unbranched_body(&body, signature.params@.len())
                    &&& branches_match(&body, code@, code@.len() as int)
                    &&& straight_line(code@) ==> opcodes_of(&body) == straight_body_opcodes(
                        &TranslationConfig::spec_default(),
                        locals@.len(),
                        code@,
                    )
                    &&& final(self)@ == (ModuleView { functions: final(self)@.functions, ..old(self)@ })
                },
                Err(FunctionError::DuplicateDefinition(n)) => n == name.name && old(self)@.defines_function(
                    name.name,
                ) && final(self)@ == old(self)@,
                Err(FunctionError::Translation { module, function, position, error }) => {
                    &&& module == old(self)@.name
                    &&& function == name.name
                    &&& !old(self)@.defines_function(name.name)
                    &&& final(self)@ == old(self)@
                    &&& position <= code@.len()
                    &&& placed_translation(
                        &TranslationConfig::spec_default(),
                        signature.params@,
                        locals@,
                        signature.results.len(),
                        code@,
                        Err((position, error)),
                    )
                },
            },
    {
        if self.module.find_function(name.name).is_some() {
            return Err(FunctionError::DuplicateDefinition(name.name));
        }
        let config = TranslationConfig::new();
        let body = match translate_function_at(&config, &signature.params, locals, signature.results.len(),
            code) {
            Ok(body) => body,
            Err(d) => {
                return Err(
                    FunctionError::Translation {
                        module: self.module.name.name,
                        function: name.name,
                        position: d.0,
                        error: d.1,
                    },
                );
            },
        };
        let ghost before = self@;
        match self.declare_function(Function::new(name, signature, body)) {
            Ok(_) => {
                proof {
                    assert(self@.functions.drop_last() =~= before.functions);
                }
                Ok(())
            },
            Err(_) => {
                proof {
                    assert(false);
                }
                Err(FunctionError::DuplicateDefinition(name.name))
            },
        }
    }
}

} // verus!
