use miden_diagnostics::SourceSpan;
use miden_hir::declarations::GlobalVarDeclaration;
use miden_hir::function::{Function, Signature};
use miden_hir::globals::GlobalVariable;
use miden_hir::ident::{Ident, Symbol};
use miden_hir::ir::Body;
use miden_hir::module::{Module, ModuleBuilder, ModuleError};
use miden_hir::program::{LinkerError, Program};
use miden_hir::segments::DataSegment;
use miden_hir::types::{Linkage, Type};

const SHARED: u32 = 100;

fn ident(id: u32) -> Ident {
    Ident::new(Symbol::new(id), SourceSpan::UNKNOWN)
}

fn function(id: u32) -> Function {
    Function::new(ident(id), Signature::new(vec![], vec![]), Body::new())
}

fn global(index: u32, name: u32, ty: Type, linkage: Linkage) -> GlobalVarDeclaration {
    GlobalVarDeclaration::new(
        SourceSpan::UNKNOWN,
        GlobalVariable::new(index),
        ident(name),
        ty,
        linkage,
        None,
    )
}

fn module_with_globals(name: u32, globals: Vec<GlobalVarDeclaration>) -> Module {
    let mut b = ModuleBuilder::new(ident(name));
    for g in globals {
        b.declare_global(g).unwrap();
    }
    b.build()
}

fn module_with_segments(name: u32, ranges: &[(u32, usize)]) -> Module {
    let mut b = ModuleBuilder::new(ident(name));
    for (offset, len) in ranges {
        b.declare_data_segment(DataSegment::new(0, *offset, vec![0xAB; *len], false));
    }
    b.build()
}

fn module_with_entrypoint(name: u32, entry: u32) -> Module {
    let mut b = ModuleBuilder::new(ident(name));
    b.declare_function(function(entry)).unwrap();
    b.set_entrypoint(ident(entry)).unwrap();
    b.build()
}

#[test]
fn empty_program_has_nothing() {
    let p = Program::empty();
    assert!(!p.has_entrypoint());
    assert!(!p.is_executable());
    assert!(p.entrypoint().is_none());
    assert!(p.entrypoint_ident().is_none());
    assert!(p.segments().is_empty());
    assert!(p.globals().is_empty());
    assert!(p.modules().is_empty());
    assert!(!p.contains(ident(1)));
    assert!(!p.is_finalized());
}

#[test]
fn new_and_default_are_empty() {
    let p = Program::new();
    assert!(p.modules().is_empty() && p.globals().is_empty() && p.segments().is_empty());
    let d = Program::default();
    assert!(d.modules().is_empty() && !d.has_entrypoint());
}

#[test]
fn contains_finds_added_modules_only() {
    let mut p = Program::new();
    p.add_module(ModuleBuilder::new(ident(1)).build()).unwrap();
    p.add_module(ModuleBuilder::new(ident(2)).build()).unwrap();
    assert!(p.contains(ident(1)));
    assert!(p.contains(ident(2)));
    assert!(!p.contains(ident(3)));
    assert_eq!(p.find_module(Symbol::new(2)), Some(1));
    assert_eq!(p.module(Symbol::new(2)).unwrap().name().as_symbol(), Symbol::new(2));
    assert!(p.module(Symbol::new(3)).is_none());
}

#[test]
fn duplicate_module_is_rejected() {
    let mut p = Program::new();
    p.add_module(module_with_globals(1, vec![global(0, 10, Type::I32, Linkage::Internal)]))
        .unwrap();
    let r = p.add_module(module_with_globals(1, vec![global(0, 11, Type::I64, Linkage::Internal)]));
    assert_eq!(r, Err(LinkerError::DuplicateModule(Symbol::new(1))));
    assert_eq!(p.modules().len(), 1);
    assert_eq!(p.globals().len(), 1);
    assert_eq!(p.globals().size_in_bytes(), 4);
}

#[test]
fn import_and_export_share_one_offset() {
    let mut p = Program::new();
    let exporter = module_with_globals(
        1,
        vec![
            global(0, 10, Type::I64, Linkage::Internal),
            global(1, SHARED, Type::I32, Linkage::Exported),
        ],
    );
    let importer = module_with_globals(2, vec![global(0, SHARED, Type::I32, Linkage::Imported)]);
    p.add_module(exporter).unwrap();
    p.add_module(importer).unwrap();
    assert_eq!(p.finalize(false), Ok(()));
    assert!(p.is_finalized());
    let exported = p.globals().find(Symbol::new(1), Symbol::new(SHARED)).unwrap();
    let imported = p.globals().find(Symbol::new(2), Symbol::new(SHARED)).unwrap();
    let e = p.globals().get(exported).unwrap();
    let i = p.globals().get(imported).unwrap();
    assert_eq!(e.offset, Some(8));
    assert_eq!(i.offset, Some(8));
    assert_eq!(i.linkage, Linkage::Imported);
    assert_eq!(p.globals().size_in_bytes(), 12);
}

#[test]
fn import_added_before_its_export_is_resolved_later() {
    let mut p = Program::new();
    p.add_module(module_with_globals(2, vec![global(0, SHARED, Type::I32, Linkage::Imported)]))
        .unwrap();
    assert_eq!(p.globals().get(0).unwrap().offset, None);
    assert_eq!(p.globals().unresolved(), vec![Symbol::new(SHARED)]);
    p.add_module(module_with_globals(
        1,
        vec![
            global(0, 10, Type::U8, Linkage::Internal),
            global(1, SHARED, Type::I32, Linkage::Exported),
        ],
    ))
    .unwrap();
    assert_eq!(p.globals().get(0).unwrap().offset, Some(1));
    assert_eq!(p.globals().get(2).unwrap().offset, Some(1));
    assert!(p.globals().unresolved().is_empty());
    assert_eq!(p.finalize(false), Ok(()));
}

#[test]
fn missing_export_fails_finalize() {
    let mut p = Program::new();
    p.add_module(module_with_globals(2, vec![global(0, SHARED, Type::I32, Linkage::Imported)]))
        .unwrap();
    assert_eq!(
        p.finalize(false),
        Err(LinkerError::UnresolvedGlobal(vec![Symbol::new(SHARED)]))
    );
    assert!(!p.is_finalized());
}

#[test]
fn internal_global_does_not_resolve_an_import() {
    let mut p = Program::new();
    p.add_module(module_with_globals(1, vec![global(0, SHARED, Type::I32, Linkage::Internal)]))
        .unwrap();
    p.add_module(module_with_globals(2, vec![global(0, SHARED, Type::I32, Linkage::Imported)]))
        .unwrap();
    p.add_module(module_with_globals(3, vec![global(0, 77, Type::I32, Linkage::Imported)]))
        .unwrap();
    assert_eq!(
        p.finalize(false),
        Err(LinkerError::UnresolvedGlobal(vec![Symbol::new(SHARED), Symbol::new(77)]))
    );
}

#[test]
fn globals_are_laid_out_in_submission_and_declaration_order() {
    let mut p = Program::new();
    p.add_module(module_with_globals(
        1,
        vec![
            global(0, 10, Type::I32, Linkage::Internal),
            global(1, 11, Type::U128, Linkage::Exported),
            global(2, 12, Type::I1, Linkage::Internal),
        ],
    ))
    .unwrap();
    p.add_module(module_with_globals(
        2,
        vec![
            global(0, 10, Type::Felt, Linkage::Internal),
            global(1, 11, Type::Ptr, Linkage::Imported),
            global(2, 13, Type::U16, Linkage::Exported),
        ],
    ))
    .unwrap();
    let offsets: Vec<Option<u32>> =
        (0..p.globals().len()).map(|i| p.globals().get(i).unwrap().offset).collect();
    assert_eq!(offsets, vec![Some(0), Some(4), Some(20), Some(21), Some(4), Some(29)]);
    assert_eq!(p.globals().size_in_bytes(), 31);
    assert_eq!(p.globals().find_export(Symbol::new(11)), Some(1));
    assert_eq!(p.globals().find_export(Symbol::new(10)), None);
}

#[test]
fn overlapping_segments_in_one_module_are_rejected() {
    let mut p = Program::new();
    let r = p.add_module(module_with_segments(1, &[(0, 10), (5, 10)]));
    assert_eq!(r, Err(LinkerError::OverlappingSegment { module: Symbol::new(1), index: 1 }));
    assert!(p.segments().is_empty());
    assert!(p.modules().is_empty());
}

#[test]
fn overlapping_segments_in_two_modules_are_rejected() {
    let mut p = Program::new();
    p.add_module(module_with_segments(1, &[(0, 10)])).unwrap();
    let r = p.add_module(module_with_segments(2, &[(100, 4), (5, 10)]));
    assert_eq!(r, Err(LinkerError::OverlappingSegment { module: Symbol::new(2), index: 1 }));
    assert_eq!(p.segments().len(), 1);
    assert_eq!(p.segments().get(0).unwrap().offset, 0);
    assert!(!p.contains(ident(2)));
}

#[test]
fn adjacent_segments_are_accepted_in_address_order() {
    let mut p = Program::new();
    p.add_module(module_with_segments(1, &[(10, 10)])).unwrap();
    p.add_module(module_with_segments(2, &[(0, 10)])).unwrap();
    assert_eq!(p.segments().len(), 2);
    let first = p.segments().get(0).unwrap();
    let second = p.segments().get(1).unwrap();
    assert_eq!((first.offset, first.size()), (0, 10));
    assert_eq!((second.offset, second.size()), (10, 10));
    assert_eq!(p.segments().find(9), Some(0));
    assert_eq!(p.segments().find(10), Some(1));
    assert_eq!(p.segments().find(20), None);
}

#[test]
fn second_entrypoint_is_rejected_and_first_stays() {
    let mut p = Program::new();
    p.add_module(module_with_entrypoint(1, 50)).unwrap();
    let r = p.add_module(module_with_entrypoint(2, 60));
    assert_eq!(r, Err(LinkerError::MultipleEntrypoints(Symbol::new(2))));
    assert!(p.has_entrypoint());
    assert!(p.is_executable());
    let id = p.entrypoint_ident().unwrap();
    assert_eq!(id.module.as_symbol(), Symbol::new(1));
    assert_eq!(id.function.as_symbol(), Symbol::new(50));
    assert_eq!(p.entrypoint().unwrap().name.as_symbol(), Symbol::new(50));
    assert!(!p.contains(ident(2)));
}

#[test]
fn executable_program_needs_an_entrypoint() {
    let mut p = Program::new();
    p.add_module(ModuleBuilder::new(ident(1)).build()).unwrap();
    assert_eq!(p.finalize(true), Err(LinkerError::MissingEntrypoint));
    assert!(!p.is_finalized());
    assert_eq!(p.finalize(false), Ok(()));
    assert!(p.is_finalized());
}

#[test]
fn unresolved_globals_are_reported_before_a_missing_entrypoint() {
    let mut p = Program::new();
    p.add_module(module_with_globals(1, vec![global(0, 9, Type::I32, Linkage::Imported)]))
        .unwrap();
    assert_eq!(p.finalize(true), Err(LinkerError::UnresolvedGlobal(vec![Symbol::new(9)])));
}

#[test]
fn function_lookup_goes_by_module_and_name() {
    let mut p = Program::new();
    let mut b = ModuleBuilder::new(ident(1));
    b.declare_function(function(50)).unwrap();
    b.declare_function(function(51)).unwrap();
    p.add_module(b.build()).unwrap();
    assert_eq!(
        p.function(Symbol::new(1), Symbol::new(51)).unwrap().name.as_symbol(),
        Symbol::new(51)
    );
    assert!(p.function(Symbol::new(1), Symbol::new(52)).is_none());
    assert!(p.function(Symbol::new(2), Symbol::new(50)).is_none());
}

#[test]
fn globals_mut_declares_into_the_program_table() {
    let mut p = Program::new();
    p.add_module(module_with_globals(1, vec![global(0, 10, Type::I32, Linkage::Internal)]))
        .unwrap();
    let r = p.globals_mut().declare(Symbol::new(1), Symbol::new(11), Type::I64, Linkage::Exported);
    assert_eq!(r, Ok(1));
    assert_eq!(p.globals().get(1).unwrap().offset, Some(4));
    assert_eq!(p.globals().size_in_bytes(), 12);
}

#[test]
fn module_builder_rejects_duplicates() {
    let mut b = ModuleBuilder::new(ident(1));
    assert_eq!(b.declare_function(function(50)), Ok(()));
    assert_eq!(
        b.declare_function(function(50)),
        Err(ModuleError::DuplicateDefinition(Symbol::new(50)))
    );
    assert_eq!(b.declare_global(global(0, 10, Type::I32, Linkage::Internal)), Ok(0));
    assert_eq!(
        b.declare_global(global(1, 10, Type::I64, Linkage::Exported)),
        Err(ModuleError::DuplicateDefinition(Symbol::new(10)))
    );
    assert_eq!(b.declare_global(global(1, 50, Type::I64, Linkage::Exported)), Ok(1));
    assert_eq!(
        b.set_entrypoint(ident(51)),
        Err(ModuleError::UndefinedFunction(Symbol::new(51)))
    );
    assert_eq!(b.set_entrypoint(ident(50)), Ok(()));
    let m = b.build();
    assert_eq!(m.functions().len(), 1);
    assert_eq!(m.globals().len(), 2);
    assert_eq!(m.entrypoint().unwrap().as_symbol(), Symbol::new(50));
    assert_eq!(m.find_function(Symbol::new(50)), Some(0));
    assert_eq!(m.find_global(Symbol::new(50)), Some(1));
    assert!(m.function(Symbol::new(10)).is_none());
}

#[test]
fn globals_beyond_the_heap_limit_are_rejected() {
    let mut p = Program::with_heap_limit(12);
    p.add_module(module_with_globals(
        1,
        vec![
            global(0, 10, Type::I64, Linkage::Internal),
            global(1, 11, Type::I32, Linkage::Exported),
        ],
    ))
    .unwrap();
    assert_eq!(p.globals().size_in_bytes(), 12);
    assert_eq!(p.globals().limit(), 12);
    let r = p.add_module(module_with_globals(
        2,
        vec![
            global(0, 11, Type::I32, Linkage::Imported),
            global(1, 12, Type::I1, Linkage::Internal),
        ],
    ));
    assert_eq!(r, Err(LinkerError::HeapExhausted(Symbol::new(2))));
    assert_eq!(p.globals().len(), 2);
    assert_eq!(p.modules().len(), 1);
    assert_eq!(p.globals().size_in_bytes(), 12);
    p.add_module(module_with_globals(3, vec![global(0, 11, Type::I32, Linkage::Imported)]))
        .unwrap();
    assert_eq!(p.globals().get(2).unwrap().offset, Some(8));
    assert_eq!(Program::new().globals().limit(), u32::MAX);
}
