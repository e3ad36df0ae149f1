//! Programs: modules linked into one address space.

use crate::function::Function;
use crate::globals::{
    declarations, declares, heap_size, laid_out, layout, lemma_heap_exhausted,
    lemma_heap_size_of_declarations, lemma_laid_out_is_layout, lemma_unresolved_names,
    unresolved_names, GlobalEntry, GlobalVariableTable,
};
use crate::ident::{FunctionIdent, Ident, Symbol};
use crate::module::{Module, ModuleView};
use crate::segments::{
    address_ordered, lemma_merge_failure_stays, lemma_merge_segments, merge_segments,
    DataSegmentTable, SegmentView,
};
use vstd::prelude::*;

verus! {

/// Why a program turned a module down, or could not be finalized.
#[derive(Debug, PartialEq, Eq)]
pub enum LinkerError {
    /// The program has a module of that name already.
    DuplicateModule(Symbol),
    /// The module named marks an entrypoint, and the program has one already.
    MultipleEntrypoints(Symbol),
    /// The data segment at place `index` of module `module` overlaps a
    /// segment of the program or an earlier one of the module.
    OverlappingSegment { module: Symbol, index: usize },
    /// With the global variables of the module named, the heap would grow
    /// beyond its limit.
    HeapExhausted(Symbol),
    /// The names of the imported global variables that no module exports,
    /// one for each such import, in the order of the global variable table.
    UnresolvedGlobal(Vec<Symbol>),
    /// The program is meant to be executable and has no entrypoint.
    MissingEntrypoint,
}

/// What a [`LinkerError`] is, as a mathematical value.
pub ghost enum LinkFailure {
    DuplicateModule(Symbol),
    MultipleEntrypoints(Symbol),
    OverlappingSegment { module: Symbol, index: int },
    HeapExhausted(Symbol),
    UnresolvedGlobal(Seq<Symbol>),
    MissingEntrypoint,
}

impl View for LinkerError {
    type V = LinkFailure;

    open spec fn view(&self) -> LinkFailure {
        match self {
            LinkerError::DuplicateModule(m) => LinkFailure::DuplicateModule(*m),
            LinkerError::MultipleEntrypoints(m) => LinkFailure::MultipleEntrypoints(*m),
            LinkerError::OverlappingSegment { module, index } => LinkFailure::OverlappingSegment {
                module: *module,
                index: *index as int,
            },
            LinkerError::HeapExhausted(m) => LinkFailure::HeapExhausted(*m),
            LinkerError::UnresolvedGlobal(names) => LinkFailure::UnresolvedGlobal(names@),
            LinkerError::MissingEntrypoint => LinkFailure::MissingEntrypoint,
        }
    }
}

/// What the global variables of module `m` add to the table of a program:
/// one entry for each, in the order of their declaration, the offset still
/// to be assigned.
pub open spec fn module_entries(m: ModuleView) -> Seq<GlobalEntry> {
    Seq::new(
        m.globals.len(),
        |i: int|
            GlobalEntry {
                module: m.name,
                name: m.globals[i].name.name,
                ty: m.globals[i].ty,
                linkage: m.globals[i].linkage,
                offset: None,
            },
    )
}

/// What a program is, as a mathematical value.
pub ghost struct ProgramView {
    /// The modules, in the order in which they were added.
    pub modules: Seq<ModuleView>,
    /// The module and the name of the entrypoint, where one is set.
    pub entrypoint: Option<(Symbol, Symbol)>,
    /// The data segments of all modules, in address order.
    pub segments: Seq<SegmentView>,
    /// The global variables of all modules, in the order of their declaration.
    pub globals: Seq<GlobalEntry>,
    /// True once linking has been declared complete.
    pub finalized: bool,
    /// The number of bytes up to which the heap of the global variables may grow.
    pub heap_limit: u32,
}

impl ProgramView {
    /// True when the program has a module called `name`.
    pub open spec fn contains_module(self, name: Symbol) -> bool {
        exists|i: int| 0 <= i < self.modules.len() && (#[trigger] self.modules[i]).name == name
    }

    /// The invariant of a program.
    ///
    /// Its modules are well formed and no two of them share a name. The
    /// entrypoint, where one is set, is the function that one of the modules
    /// marks, and no module marks another. The data segments stand in address
    /// order without overlap. The global variables are laid out within the
    /// limit of the heap, and each of them belongs to a module of the
    /// program. Once the program is finalized, no import waits for its
    /// definition.
    pub open spec fn wf(self) -> bool {
        &&& forall|i: int| 0 <= i < self.modules.len() ==> (#[trigger] self.modules[i]).wf()
        &&& forall|i: int, j: int|
            0 <= i < j < self.modules.len() ==> (#[trigger] self.modules[i]).name != (
            #[trigger] self.modules[j]).name
        &&& self.entrypoint matches Some((m, f)) ==> exists|i: int|
            0 <= i < self.modules.len() && (#[trigger] self.modules[i]).name == m
                && self.modules[i].entrypoint == Some(f)
        &&& forall|i: int|
            0 <= i < self.modules.len() ==> ((#[trigger] self.modules[i]).entrypoint matches Some(f)
                ==> self.entrypoint == Some((self.modules[i].name, f)))
        &&& address_ordered(self.segments)
        &&& laid_out(self.globals)
        &&& heap_size(self.globals) <= self.heap_limit
        &&& forall|k: int|
            0 <= k < self.globals.len() ==> self.contains_module((#[trigger] self.globals[k]).module)
        &&& self.finalized ==> forall|k: int|
            0 <= k < self.globals.len() ==> !(#[trigger] self.globals[k]).is_pending()
    }

    /// The program after module `m` has been added to it, or the reason why
    /// it cannot be added.
    ///
    /// A module is turned down, in this order: when the program has a module
    /// of its name; when it marks an entrypoint and the program has one; when
    /// one of its data segments overlaps a segment of the program or another
    /// of its own; when its global variables do not fit the heap. Otherwise
    /// the module stands behind the others, its entrypoint becomes that of the
    /// program if it marks one, its data segments take their places in
    /// address order, and the global variables of the program are laid out
    /// anew with those of the module behind them.
    pub open spec fn add_module(self, m: ModuleView) -> Result<ProgramView, LinkFailure> {
        if self.contains_module(m.name) {
            Err(LinkFailure::DuplicateModule(m.name))
        } else if m.entrypoint is Some && self.entrypoint is Some {
            Err(LinkFailure::MultipleEntrypoints(m.name))
        } else {
            match merge_segments(self.segments, m.segments) {
                Err(i) => Err(LinkFailure::OverlappingSegment { module: m.name, index: i }),
                Ok(segments) => {
                    let declared = declarations(self.globals) + module_entries(m);
                    if heap_size(declared) > self.heap_limit {
                        Err(LinkFailure::HeapExhausted(m.name))
                    } else {
                        Ok(
                            ProgramView {
                                modules: self.modules.push(m),
                                entrypoint: match m.entrypoint {
                                    Some(f) => Some((m.name, f)),
                                    None => self.entrypoint,
                                },
                                segments,
                                globals: layout(declared),
                                finalized: false,
                                heap_limit: self.heap_limit,
                            },
                        )
                    }
                },
            }
        }
    }

    /// The program after linking has been declared complete, or the reason
    /// why it cannot be: first, that imports are left which no module
    /// exports; then, that the program is meant to be executable and has no
    /// entrypoint.
    pub open spec fn finalize(self, executable: bool) -> Result<ProgramView, LinkFailure> {
        if unresolved_names(self.globals).len() > 0 {
            Err(LinkFailure::UnresolvedGlobal(unresolved_names(self.globals)))
        } else if executable && self.entrypoint is None {
            Err(LinkFailure::MissingEntrypoint)
        } else {
            Ok(ProgramView { finalized: true, ..self })
        }
    }
}

/// While the global variables of module `m` are declared one after another
/// behind those of a program that has no module of that name, the next one
/// is not in the table yet.
proof fn lemma_key_is_fresh(base: Seq<GlobalEntry>, m: ModuleView, table: Seq<GlobalEntry>, k: int)
    requires
        m.wf(),
        0 <= k < m.globals.len(),
        forall|x: int| 0 <= x < base.len() ==> (#[trigger] base[x]).module != m.name,
        declarations(table) == (declarations(base) + module_entries(m)).take(base.len() + k),
    ensures
        table.len() == base.len() + k,
        !declares(table, m.name, m.globals[k].name.name),
        (declarations(base) + module_entries(m))[base.len() + k] == (GlobalEntry {
            module: m.name,
            name: m.globals[k].name.name,
            ty: m.globals[k].ty,
            linkage: m.globals[k].linkage,
            offset: None,
        }),
{
    let all = declarations(base) + module_entries(m);
    assert(declarations(table).len() == table.len());
    assert forall|x: int| 0 <= x < table.len() implies !((#[trigger] table[x]).module == m.name
        && table[x].name == m.globals[k].name.name) by {
        assert(declarations(table)[x] == table[x].declaration());
        assert(declarations(table)[x] == all[x]);
        if x < base.len() {
            assert(declarations(base)[x] == base[x].declaration());
        } else {
            assert(all[x] == module_entries(m)[x - base.len()]);
        }
    }
}

/// A well-formed program stays well formed when a well-formed module is
/// added to it.
pub proof fn lemma_add_module_wf(p: ProgramView, m: ModuleView)
    requires
        p.wf(),
        m.wf(),
    ensures
        p.add_module(m) matches Ok(q) ==> q.wf(),
{
    if let Ok(after) = p.add_module(m) {
        let n = p.modules.len() as int;
        let all = declarations(p.globals) + module_entries(m);
        lemma_merge_segments(p.segments, m.segments);
        assert(crate::globals::distinct_keys(all)) by {
            assert forall|a: int, b: int| 0 <= a < b < all.len() implies !((#[trigger] all[a]).module
                == (#[trigger] all[b]).module && all[a].name == all[b].name) by {
                if b < p.globals.len() {
                    assert(all[a] == p.globals[a].declaration());
                    assert(all[b] == p.globals[b].declaration());
                } else if a < p.globals.len() {
                    assert(all[a] == p.globals[a].declaration());
                    assert(all[b] == module_entries(m)[b - p.globals.len()]);
                    assert(p.contains_module(p.globals[a].module));
                } else {
                    assert(all[a] == module_entries(m)[a - p.globals.len()]);
                    assert(all[b] == module_entries(m)[b - p.globals.len()]);
                }
            }
        }
        crate::globals::lemma_layout_is_laid_out(all);
        crate::globals::lemma_layout_of_declarations(layout(all), all);
        assert forall|k: int| 0 <= k < after.globals.len() implies after.contains_module(
            (#[trigger] after.globals[k]).module,
        ) by {
            if k < p.globals.len() {
                assert(all[k] == p.globals[k].declaration());
                assert(p.contains_module(p.globals[k].module));
                let i = choose|i: int|
                    0 <= i < p.modules.len() && (#[trigger] p.modules[i]).name
                        == p.globals[k].module;
                assert(after.modules[i].name == after.globals[k].module);
            } else {
                assert(all[k] == module_entries(m)[k - p.globals.len()]);
                assert(after.modules[n].name == after.globals[k].module);
            }
        }
        match p.entrypoint {
            Some((em, ef)) => {
                let i = choose|i: int|
                    0 <= i < p.modules.len() && (#[trigger] p.modules[i]).name == em
                        && p.modules[i].entrypoint == Some(ef);
                assert(after.modules[i].name == em);
            },
            None => {
                if m.entrypoint is Some {
                    assert(after.modules[n].name == m.name);
                }
            },
        }
        assert forall|i: int| 0 <= i < after.modules.len() implies ((
        #[trigger] after.modules[i]).entrypoint matches Some(f) ==> after.entrypoint == Some(
            (after.modules[i].name, f),
        )) by {
            if i < n {
                assert(after.modules[i] == p.modules[i]);
            }
        }
        assert forall|i: int, j: int| 0 <= i < j < after.modules.len() implies (
        #[trigger] after.modules[i]).name != (#[trigger] after.modules[j]).name by {
            assert(after.modules[i] == p.modules[i]);
            if j < n {
                assert(after.modules[j] == p.modules[j]);
            }
        }
        assert forall|i: int| 0 <= i < after.modules.len() implies (#[trigger] after.modules[i]).wf() by {
            if i < n {
                assert(after.modules[i] == p.modules[i]);
            }
        }
    }
}

/// A module is turned down for its data segments exactly when one of them
/// overlaps a segment of the program or another segment of the module,
/// provided that neither its name nor its entrypoint stands in the way.
/// Where the module is accepted, the segments of the program are those it
/// had and those of the module, in address order.
pub proof fn lemma_overlapping_segments_rejected(p: ProgramView, m: ModuleView)
    requires
        p.wf(),
        !p.contains_module(m.name),
        !(m.entrypoint is Some && p.entrypoint is Some),
    ensures
        p.add_module(m) matches Err(LinkFailure::OverlappingSegment { module, index }) <==> (exists|
            i: int,
            k: int,
        |
            0 <= i < m.segments.len() && 0 <= k < p.segments.len() && (#[trigger] m.segments[i]).overlaps(
                #[trigger] p.segments[k],
            )) || (exists|i: int, j: int|
            0 <= i < j < m.segments.len() && (#[trigger] m.segments[i]).overlaps(
                #[trigger] m.segments[j],
            )),
        p.add_module(m) matches Ok(q) ==> address_ordered(q.segments) && q.segments.to_multiset()
            == p.segments.to_multiset().add(m.segments.to_multiset()),
{
    lemma_merge_segments(p.segments, m.segments);
    match merge_segments(p.segments, m.segments) {
        Err(i) => {
            if exists|k: int| 0 <= k < p.segments.len()
                && (#[trigger] p.segments[k]).overlaps(m.segments[i]) {
                let k = choose|k: int|
                    0 <= k < p.segments.len() && (#[trigger] p.segments[k]).overlaps(m.segments[i]);
                assert(m.segments[i].overlaps(p.segments[k]));
            } else {
                let k = choose|k: int| 0 <= k < i && (#[trigger] m.segments[k]).overlaps(m.segments[i]);
                assert(m.segments[k].overlaps(m.segments[i]));
            }
        },
        Ok(_) => {},
    }
}

/// Once a program has an entrypoint, a module that marks one is turned down,
/// whatever else it holds, unless its name is taken: then it is turned down
/// for its name.
pub proof fn lemma_second_entrypoint_rejected(p: ProgramView, m: ModuleView)
    requires
        p.entrypoint is Some,
        m.entrypoint is Some,
    ensures
        p.add_module(m) == Err::<ProgramView, LinkFailure>(
            if p.contains_module(m.name) {
                LinkFailure::DuplicateModule(m.name)
            } else {
                LinkFailure::MultipleEntrypoints(m.name)
            },
        ),
{
}

/// The entrypoint of a program is the one that the first module to mark one
/// has set: a module that is accepted and marks an entrypoint makes it that
/// of the program, and no module accepted or turned down after it changes it.
pub proof fn lemma_first_entrypoint_stays(p: ProgramView, first: ModuleView, second: ModuleView)
    requires
        p.wf(),
        first.wf(),
        first.entrypoint is Some,
        second.entrypoint is Some,
        first.name != second.name,
        !p.contains_module(second.name),
        p.add_module(first) is Ok,
    ensures
        p.add_module(first)->Ok_0.entrypoint == Some((first.name, first.entrypoint->Some_0)),
        p.add_module(first)->Ok_0.add_module(second) == Err::<ProgramView, LinkFailure>(
            LinkFailure::MultipleEntrypoints(second.name),
        ),
{
    let q = p.add_module(first)->Ok_0;
    if q.contains_module(second.name) {
        let i = choose|i: int| 0 <= i < q.modules.len() && (#[trigger] q.modules[i]).name == second.name;
        if i < p.modules.len() {
            assert(p.modules[i].name == second.name);
        }
    }
}

/// In a finalized program every import refers to the storage of a global
/// variable that a module of the program exports under the same name: the
/// two entries hold one offset.
pub proof fn lemma_finalized_imports_resolved(p: ProgramView, i: int)
    requires
        p.wf(),
        p.finalized,
        0 <= i < p.globals.len(),
        p.globals[i].linkage is Imported,
    ensures
        crate::globals::first_export(p.globals, p.globals[i].name) matches Some(j) && 0 <= j
            < p.globals.len() && p.globals[j].exports(p.globals[i].name) && p.globals[i].offset
            is Some && p.globals[i].offset == p.globals[j].offset,
{
    assert(!p.globals[i].is_pending());
    crate::globals::lemma_import_shares_offset(p.globals, i);
}

/// Linking cannot be declared complete, for want of a definition, exactly
/// when the program holds an import whose name no module exports. The error
/// then names every such import.
pub proof fn lemma_finalize_reports_unresolved(p: ProgramView, executable: bool)
    requires
        p.wf(),
    ensures
        p.finalize(executable) matches Err(LinkFailure::UnresolvedGlobal(names)) <==> exists|i: int|
            0 <= i < p.globals.len() && (#[trigger] p.globals[i]).linkage is Imported && forall|
                j: int,
            |
                0 <= j < p.globals.len() ==> !(#[trigger] p.globals[j]).exports(p.globals[i].name),
        p.finalize(executable) matches Err(LinkFailure::UnresolvedGlobal(names)) ==> names
            == unresolved_names(p.globals) && forall|i: int|
            0 <= i < p.globals.len() && (#[trigger] p.globals[i]).is_pending() ==> names.contains(
                p.globals[i].name,
            ),
        p.finalize(executable) matches Ok(q) ==> q.wf() && q.finalized,
{
    lemma_unresolved_names(p.globals);
    crate::globals::lemma_pending_names_listed(p.globals);
    assert forall|i: int| 0 <= i < p.globals.len() implies ((#[trigger] p.globals[i]).is_pending()
        <==> p.globals[i].linkage is Imported && forall|j: int|
        0 <= j < p.globals.len() ==> !(#[trigger] p.globals[j]).exports(p.globals[i].name)) by {
        if p.globals[i].linkage is Imported {
            crate::globals::lemma_import_shares_offset(p.globals, i);
            crate::globals::lemma_first_export(p.globals, p.globals[i].name);
        }
    }
}

/// What the global variables of the modules `modules` add to the table of
/// a program, one module after another.
pub open spec fn all_entries(modules: Seq<ModuleView>) -> Seq<GlobalEntry>
    decreases modules.len(),
{
    if modules.len() == 0 {
        Seq::empty()
    } else {
        all_entries(modules.drop_last()) + module_entries(modules.last())
    }
}

/// The program that comes of adding the modules `modules` to the empty
/// program with a heap of `heap_limit` bytes at most, one after another, or
/// the reason why the first of them that cannot be added is turned down.
pub open spec fn link(modules: Seq<ModuleView>, heap_limit: u32) -> Result<ProgramView, LinkFailure>
    decreases modules.len(),
{
    if modules.len() == 0 {
        Ok(
            ProgramView {
                modules: Seq::empty(),
                entrypoint: None,
                segments: Seq::empty(),
                globals: Seq::empty(),
                finalized: false,
                heap_limit,
            },
        )
    } else {
        match link(modules.drop_last(), heap_limit) {
            Err(e) => Err(e),
            Ok(p) => p.add_module(modules.last()),
        }
    }
}

/// The layout of the global variables depends on nothing but the modules
/// and the order in which they are added: the program that comes of adding
/// well-formed modules one after another is well formed, holds these
/// modules in that order, and its global variables are the layout of what
/// the modules declare, in that order.
pub proof fn lemma_link_is_layout(modules: Seq<ModuleView>, heap_limit: u32)
    requires
        forall|i: int| 0 <= i < modules.len() ==> (#[trigger] modules[i]).wf(),
    ensures
        link(modules, heap_limit) matches Ok(p) ==> p.wf() && p.modules == modules && p.globals == layout(
            all_entries(modules),
        ) && !p.finalized && p.heap_limit == heap_limit,
        declarations(all_entries(modules)) == all_entries(modules),
    decreases modules.len(),
{
    if modules.len() == 0 {
        assert(layout(all_entries(modules)) =~= Seq::<GlobalEntry>::empty());
        assert(declarations(all_entries(modules)) =~= all_entries(modules));
    } else {
        let front = modules.drop_last();
        let m = modules.last();
        assert forall|i: int| 0 <= i < front.len() implies (#[trigger] front[i]).wf() by {
            assert(front[i] == modules[i]);
        }
        lemma_link_is_layout(front, heap_limit);
        assert(declarations(all_entries(modules)) =~= all_entries(modules)) by {
            assert(declarations(module_entries(m)) =~= module_entries(m));
            assert(declarations(all_entries(front) + module_entries(m)) =~= declarations(all_entries(front))
                + declarations(module_entries(m)));
        }
        if let Ok(p) = link(front, heap_limit) {
            assert(m == modules[modules.len() - 1]);
            lemma_add_module_wf(p, m);
            assert(declarations(p.globals) =~= declarations(all_entries(front)));
            if let Ok(q) = p.add_module(m) {
                assert(q.modules =~= modules);
            }
        }
    }
}

/// A collection of modules that are compiled together, with what they share:
/// the entrypoint, the data segments in address order, and the global
/// variables laid out on one heap.
#[derive(Debug)]
pub struct Program {
    modules: Vec<Module>,
    entrypoint: Option<FunctionIdent>,
    segments: DataSegmentTable,
    globals: GlobalVariableTable,
    finalized: bool,
}

impl View for Program {
    type V = ProgramView;

    open spec fn view(&self) -> ProgramView {
        ProgramView {
            modules: self.module_list().map_values(|m: Module| m@),
            entrypoint: match self.entrypoint_id() {
                Some(id) => Some((id.module.name, id.function.name)),
                None => None,
            },
            segments: self.segment_table()@,
            globals: self.global_table()@,
            finalized: self.spec_is_finalized(),
            heap_limit: self.global_table().spec_limit(),
        }
    }
}

impl Program {
    /// The modules of the program, in the order in which they were added.
    pub closed spec fn module_list(&self) -> Seq<Module> {
        self.modules@
    }

    /// The identifier of the entrypoint, where one is set.
    pub closed spec fn entrypoint_id(&self) -> Option<FunctionIdent> {
        self.entrypoint
    }

    /// The table of the data segments.
    pub closed spec fn segment_table(&self) -> DataSegmentTable {
        self.segments
    }

    /// The table of the global variables.
    pub closed spec fn global_table(&self) -> GlobalVariableTable {
        self.globals
    }

    /// True once linking has been declared complete.
    pub closed spec fn spec_is_finalized(&self) -> bool {
        self.finalized
    }

    /// The invariant of a program: see [`ProgramView::wf`]. The global
    /// variable table also holds the size of the heap.
    pub open spec fn wf(&self) -> bool {
        &&& self@.wf()
        &&& self.global_table().wf()
    }

    /// A program without modules, whose global variables may fill the
    /// 32-bit address space.
    pub fn empty() -> (p: Self)
        ensures
            p.wf(),
            p@ == (ProgramView {
                modules: Seq::empty(),
                entrypoint: None,
                segments: Seq::empty(),
                globals: Seq::empty(),
                finalized: false,
                heap_limit: u32::MAX,
            }),
    {
        let p = Program {
            modules: Vec::new(),
            entrypoint: None,
            segments: DataSegmentTable::new(),
            globals: GlobalVariableTable::new(),
            finalized: false,
        };
        assert(p@.modules =~= Seq::empty());
        p
    }

    /// A program without modules, whose global variables may take up to
    /// `limit` bytes of heap.
    pub fn with_heap_limit(limit: u32) -> (p: Self)
        ensures
            p.wf(),
            p@ == (ProgramView {
                modules: Seq::empty(),
                entrypoint: None,
                segments: Seq::empty(),
                globals: Seq::empty(),
                finalized: false,
                heap_limit: limit,
            }),
    {
        let p = Program {
            modules: Vec::new(),
            entrypoint: None,
            segments: DataSegmentTable::new(),
            globals: GlobalVariableTable::with_limit(limit),
            finalized: false,
        };
        assert(p@.modules =~= Seq::empty());
        p
    }

    /// A program with what every program starts from. There is nothing of
    /// that kind yet, so it is the empty program.
    pub fn new() -> (p: Self)
        ensures
            p.wf(),
            p@ == (ProgramView {
                modules: Seq::empty(),
                entrypoint: None,
                segments: Seq::empty(),
                globals: Seq::empty(),
                finalized: false,
                heap_limit: u32::MAX,
            }),
    {
        Self::empty()
    }

    /// True when the program has an entrypoint.
    pub fn has_entrypoint(&self) -> (r: bool)
        ensures
            r == self@.entrypoint is Some,
    {
        self.entrypoint.is_some()
    }

    /// True when the program can be run: when it has an entrypoint, which is
    /// called after the program is loaded.
    pub fn is_executable(&self) -> (r: bool)
        ensures
            r == self@.entrypoint is Some,
    {
        self.has_entrypoint()
    }

    /// True once linking has been declared complete.
    pub fn is_finalized(&self) -> (r: bool)
        ensures
            r == self@.finalized,
    {
        self.finalized
    }

    /// The identifier of the entrypoint, where one is set.
    pub fn entrypoint_ident(&self) -> (r: Option<FunctionIdent>)
        ensures
            r == self.entrypoint_id(),
    {
        self.entrypoint
    }

    /// The place of the module called `name` among the modules.
    pub fn find_module(&self, name: Symbol) -> (r: Option<usize>)
        ensures
            r is Some == self@.contains_module(name),
            r matches Some(i) ==> i < self@.modules.len() && self@.modules[i as int].name == name,
    {
        let mut i: usize = 0;
        while i < self.modules.len()
            invariant
                0 <= i <= self.modules.len(),
                forall|k: int| 0 <= k < i ==> (#[trigger] self@.modules[k]).name != name,
            decreases self.modules.len() - i,
        {
            if self.modules[i].name().name == name {
                assert(self@.modules[i as int].name == name);
                return Some(i);
            }
            i += 1;
        }
        None
    }

    /// True when the program has a module called `name`.
    pub fn contains(&self, name: Ident) -> (r: bool)
        ensures
            r == self@.contains_module(name.name),
    {
        self.find_module(name.name).is_some()
    }

    /// The modules of the program, in the order in which they were added.
    pub fn modules(&self) -> (m: &Vec<Module>)
        ensures
            m@ == self.module_list(),
    {
        &self.modules
    }

    /// The module called `name`.
    pub fn module(&self, name: Symbol) -> (r: Option<&Module>)
        ensures
            r is Some == self@.contains_module(name),
            r matches Some(m) ==> m@.name == name && self.module_list().contains(*m),
    {
        match self.find_module(name) {
            Some(i) => {
                assert(self.module_list()[i as int] == self.modules@[i as int]);
                Some(&self.modules[i])
            },
            None => None,
        }
    }

    /// The function called `function` of the module called `module`.
    pub fn function(&self, module: Symbol, function: Symbol) -> (r: Option<&Function>)
        requires
            self.wf(),
        ensures
            r is Some <==> exists|i: int|
                0 <= i < self@.modules.len() && (#[trigger] self@.modules[i]).name == module
                    && self@.modules[i].defines_function(function),
            r matches Some(f) ==> f.name.name == function && exists|i: int|
                0 <= i < self@.modules.len() && (#[trigger] self@.modules[i]).name == module
                    && self@.modules[i].functions.contains(*f),
    {
        match self.find_module(module) {
            Some(i) => {
                let r = self.modules[i].function(function);
                proof {
                    assert(self@.modules[i as int] == self.modules@[i as int]@);
                    if r is None {
                        assert forall|k: int|
                            0 <= k < self@.modules.len() && (#[trigger] self@.modules[k]).name
                                == module implies !self@.modules[k].defines_function(function) by {
                            assert(self@.modules[k].name == self@.modules[i as int].name);
                            assert(k == i);
                        }
                    }
                }
                r
            },
            None => None,
        }
    }

    /// The function that is the entrypoint of the program, where one is set.
    pub fn entrypoint(&self) -> (r: Option<&Function>)
        requires
            self.wf(),
        ensures
            r is Some == self@.entrypoint is Some,
            r matches Some(f) ==> self@.entrypoint matches Some((m, name)) && f.name.name == name
                && exists|i: int|
                0 <= i < self@.modules.len() && (#[trigger] self@.modules[i]).name == m
                    && self@.modules[i].functions.contains(*f),
    {
        match self.entrypoint {
            Some(id) => {
                proof {
                    let i = choose|i: int|
                        0 <= i < self@.modules.len() && (#[trigger] self@.modules[i]).name
                            == id.module.name && self@.modules[i].entrypoint == Some(
                            id.function.name,
                        );
                    assert(self@.modules[i].wf());
                }
                self.function(id.module.name, id.function.name)
            },
            None => None,
        }
    }

    /// The data segments of the program, in address order.
    pub fn segments(&self) -> (s: &DataSegmentTable)
        ensures
            *s == self.segment_table(),
    {
        &self.segments
    }

    /// The global variables of the program.
    pub fn globals(&self) -> (g: &GlobalVariableTable)
        ensures
            *g == self.global_table(),
    {
        &self.globals
    }
}

impl Program {
    /// The data segments of the program with those of `module` merged in.
    /// Where a segment of `module` overlaps one that is there by then, its
    /// place among the segments of `module` is the error.
    fn merged_segments(&self, module: &Module) -> (r: Result<DataSegmentTable, usize>)
        requires
            self.wf(),
        ensures
            match r {
                Ok(t) => t.wf() && merge_segments(self@.segments, module@.segments) == Ok::<
                    Seq<SegmentView>,
                    int,
                >(t@),
                Err(i) => merge_segments(self@.segments, module@.segments) == Err::<
                    Seq<SegmentView>,
                    int,
                >(i as int),
            },
    {
        let mut table = self.segments.clone();
        let segments = module.segments();
        let ghost all = module@.segments;
        let mut i: usize = 0;
        while i < segments.len()
            invariant
                0 <= i <= segments.len(),
                table.wf(),
                all == module@.segments,
                segments@.map_values(|s: crate::segments::DataSegment| s@) == all,
                merge_segments(self@.segments, all.take(i as int)) == Ok::<Seq<SegmentView>, int>(
                    table@,
                ),
            decreases segments.len() - i,
        {
            proof {
                assert(all.take(i + 1).drop_last() =~= all.take(i as int));
                assert(all.take(i + 1).last() == segments@[i as int]@);
            }
            match table.insert(segments[i].clone()) {
                Ok(_) => {},
                Err(_) => {
                    proof {
                        lemma_merge_failure_stays(self@.segments, all, i + 1);
                    }
                    return Err(i);
                },
            }
            i += 1;
        }
        proof {
            assert(all.take(i as int) =~= all);
        }
        Ok(table)
    }

    /// The global variables of the program laid out anew with those of
    /// `module` behind them, or nothing where they do not fit the heap.
    fn linked_globals(&self, module: &Module) -> (r: Option<GlobalVariableTable>)
        requires
            self.wf(),
            module.wf(),
            !self@.contains_module(module@.name),
        ensures
            match r {
                Some(g) => g.wf() && g.spec_limit() == self@.heap_limit && heap_size(
                    declarations(self@.globals) + module_entries(module@),
                ) <= self@.heap_limit && g@ == layout(
                    declarations(self@.globals) + module_entries(module@),
                ),
                None => heap_size(declarations(self@.globals) + module_entries(module@))
                    > self@.heap_limit,
            },
    {
        let mut table = self.globals.clone();
        let name = module.name().name;
        let globals = module.globals();
        let ghost base = self@.globals;
        let ghost m = module@;
        let ghost all = declarations(base) + module_entries(m);
        let mut k: usize = 0;
        proof {
            assert(all.take(base.len() as int) =~= declarations(base));
            assert forall|x: int| 0 <= x < base.len() implies (#[trigger] base[x]).module
                != name by {
                assert(self@.contains_module(base[x].module));
            }
        }
        while k < globals.len()
            invariant
                0 <= k <= globals.len(),
                table.wf(),
                table.spec_limit() == self@.heap_limit,
                m.wf(),
                m == module@,
                base == self@.globals,
                name == m.name,
                globals@ == m.globals,
                forall|x: int| 0 <= x < base.len() ==> (#[trigger] base[x]).module != name,
                all == declarations(base) + module_entries(m),
                declarations(table@) == all.take(base.len() + k),
            decreases globals.len() - k,
        {
            let d = &globals[k];
            let ghost before = table@;
            proof {
                lemma_key_is_fresh(base, m, before, k as int);
                assert(all.take(base.len() + k + 1) =~= all.take(base.len() + k).push(
                    all[base.len() + k],
                ));
            }
            match table.declare(name, d.name.name, d.ty, d.linkage) {
                Ok(_) => {},
                Err(_) => {
                    proof {
                        lemma_heap_exhausted(all, before, base.len() + k, self@.heap_limit as int);
                    }
                    return None;
                },
            }
            k += 1;
        }
        proof {
            assert(all.take(base.len() + k) =~= all);
            lemma_laid_out_is_layout(table@);
            lemma_heap_size_of_declarations(table@);
        }
        Some(table)
    }

    /// Adds `module` to the program, as [`ProgramView::add_module`] says.
    /// A module that is turned down leaves the program as it was.
    pub fn add_module(&mut self, module: Module) -> (r: Result<(), LinkerError>)
        requires
            old(self).wf(),
            !old(self)@.finalized,
            module.wf(),
        ensures
            final(self).wf(),
            match r {
                Ok(_) => old(self)@.add_module(module@) == Ok::<ProgramView, LinkFailure>(
                    final(self)@,
                ),
                Err(e) => old(self)@.add_module(module@) == Err::<ProgramView, LinkFailure>(e@)
                    && *final(self) == *old(self),
            },
    {
        let name = module.name();
        if self.find_module(name.name).is_some() {
            return Err(LinkerError::DuplicateModule(name.name));
        }
        let marked = module.entrypoint();
        if marked.is_some() && self.entrypoint.is_some() {
            return Err(LinkerError::MultipleEntrypoints(name.name));
        }
        let segments = match self.merged_segments(&module) {
            Ok(t) => t,
            Err(index) => {
                return Err(LinkerError::OverlappingSegment { module: name.name, index });
            },
        };
        let globals = match self.linked_globals(&module) {
            Some(g) => g,
            None => {
                return Err(LinkerError::HeapExhausted(name.name));
            },
        };
        let ghost before = self@;
        let ghost m = module@;
        if let Some(function) = marked {
            self.entrypoint = Some(FunctionIdent::new(name, function));
        }
        self.modules.push(module);
        self.segments = segments;
        self.globals = globals;
        proof {
            assert(self@.modules =~= before.modules.push(m));
            lemma_add_module_wf(before, m);
        }
        Ok(())
    }

    /// Declares linking complete, as [`ProgramView::finalize`] says.
    /// `executable` tells whether the program is meant to be run. Where
    /// linking cannot be completed, the program stays as it was.
    pub fn finalize(&mut self, executable: bool) -> (r: Result<(), LinkerError>)
        requires
            old(self).wf(),
        ensures
            final(self).wf(),
            match r {
                Ok(_) => old(self)@.finalize(executable) == Ok::<ProgramView, LinkFailure>(
                    final(self)@,
                ),
                Err(e) => old(self)@.finalize(executable) == Err::<ProgramView, LinkFailure>(e@)
                    && *final(self) == *old(self),
            },
    {
        let names = self.globals.unresolved();
        if names.len() > 0 {
            return Err(LinkerError::UnresolvedGlobal(names));
        }
        if executable && self.entrypoint.is_none() {
            return Err(LinkerError::MissingEntrypoint);
        }
        proof {
            lemma_unresolved_names(self@.globals);
        }
        self.finalized = true;
        Ok(())
    }

    /// The global variables of the program, to declare more of them.
    ///
    /// The program is well formed again when the table is, each of its
    /// variables belongs to a module of the program, and, where the program
    /// is finalized, no import waits for its definition.
    pub fn globals_mut(&mut self) -> (g: &mut GlobalVariableTable)
        ensures
            *g == old(self).global_table(),
            final(self).global_table() == *final(g),
            final(self).module_list() == old(self).module_list(),
            final(self).entrypoint_id() == old(self).entrypoint_id(),
            final(self).segment_table() == old(self).segment_table(),
            final(self).spec_is_finalized() == old(self).spec_is_finalized(),
    {
        &mut self.globals
    }
}

impl Default for Program {
    /// The same as [`Program::new`].
    fn default() -> (p: Self)
        ensures
            p.wf(),
            p@ == (ProgramView {
                modules: Seq::empty(),
                entrypoint: None,
                segments: Seq::empty(),
                globals: Seq::empty(),
                finalized: false,
                heap_limit: u32::MAX,
            }),
    {
        Self::new()
    }
}

} // verus!
