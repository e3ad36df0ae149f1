use miden_diagnostics::SourceSpan;
use miden_hir::declarations::{Constant, ConstantData, ConstantDeclaration, GlobalVarDeclaration};
use miden_hir::globals::{DeclareError, GlobalVariable, GlobalVariableTable};
use miden_hir::ident::{FunctionIdent, Ident, Symbol};
use miden_hir::segments::{DataSegment, DataSegmentTable};
use miden_hir::target::{
    advance, parse_sysroot, start, sysroot_step, Install, Outcome, Request, Step, TargetError,
    WASM32_WASI_RUSTLIB, WASM32_WASI_TARGET,
};
use miden_hir::types::{Linkage, Type};

fn outcome(success: bool, stdout: &[u8], stderr: &[u8]) -> Outcome {
    Outcome { success, stdout: stdout.to_vec(), stderr: stderr.to_vec() }
}

#[test]
fn sysroot_is_the_trimmed_output() {
    assert_eq!(parse_sysroot(b"  /home/user/.rustup/toolchains/nightly \n".to_vec()).unwrap(),
        "/home/user/.rustup/toolchains/nightly");
    assert_eq!(parse_sysroot(b"/opt/rust\n".to_vec()).unwrap(), "/opt/rust");
    assert_eq!(parse_sysroot(b"\t\n ".to_vec()).unwrap(), "");
    assert_eq!(
        parse_sysroot("\u{2003}\u{a0}/opt/my rust\u{3000}\u{85}".as_bytes().to_vec()).unwrap(),
        "/opt/my rust"
    );
    assert_eq!(parse_sysroot("\u{200b}/opt\u{feff}".as_bytes().to_vec()).unwrap(), "\u{200b}/opt\u{feff}");
    assert_eq!(parse_sysroot("/b\u{fc}ro/rust\r\n".as_bytes().to_vec()).unwrap(), "/b\u{fc}ro/rust");
}

#[test]
fn sysroot_that_is_not_text_is_rejected() {
    assert_eq!(
        parse_sysroot(vec![b'/', 0xff, 0xfe]).unwrap_err().utf8_error().valid_up_to(),
        1
    );
    assert!(parse_sysroot(vec![0xc3]).is_err());
}

#[test]
fn installation_starts_with_the_sysroot() {
    let (state, request) = start();
    assert_eq!(state, Install::AwaitSysroot);
    assert!(matches!(request, Request::QuerySysroot));
    assert_eq!(WASM32_WASI_TARGET, "wasm32-wasi");
    assert_eq!(WASM32_WASI_RUSTLIB, "lib/rustlib/wasm32-wasi");
}

#[test]
fn installed_target_needs_nothing_more() {
    let step = advance(Install::AwaitSysroot, outcome(true, b"/opt/rust\n", b""));
    let state = match step {
        Step::Next { state, request: Request::CheckTarget { sysroot } } => {
            assert_eq!(sysroot, "/opt/rust");
            state
        }
        other => panic!("unexpected step {:?}", other),
    };
    assert_eq!(state, Install::AwaitTargetCheck);
    assert!(matches!(advance(state, outcome(true, b"", b"")), Step::Done));
}

#[test]
fn missing_target_is_added_with_rustup() {
    let step = advance(Install::AwaitTargetCheck, outcome(false, b"", b""));
    assert!(matches!(
        step,
        Step::Next { state: Install::AwaitRustupCheck, request: Request::CheckRustup }
    ));
    let step = advance(Install::AwaitRustupCheck, outcome(true, b"", b""));
    assert!(matches!(step, Step::Next { state: Install::AwaitInstall, request: Request::AddTarget }));
    assert!(matches!(advance(Install::AwaitInstall, outcome(true, b"", b"")), Step::Done));
}

#[test]
fn installation_fails_for_each_reason() {
    match advance(Install::AwaitSysroot, outcome(false, b"/opt/rust", b"no rustc")) {
        Step::Failed(TargetError::SysrootQueryFailed { stderr }) => assert_eq!(stderr, b"no rustc"),
        other => panic!("unexpected step {:?}", other),
    }
    assert!(matches!(
        advance(Install::AwaitSysroot, outcome(true, &[0x80], b"")),
        Step::Failed(TargetError::SysrootNotUtf8 { .. })
    ));
    assert!(matches!(
        advance(Install::AwaitRustupCheck, outcome(false, b"", b"")),
        Step::Failed(TargetError::RustupUnavailable)
    ));
    assert!(matches!(
        advance(Install::AwaitInstall, outcome(false, b"", b"")),
        Step::Failed(TargetError::InstallFailed)
    ));
}

fn ident(id: u32) -> Ident {
    Ident::new(Symbol::new(id), SourceSpan::UNKNOWN)
}

#[test]
fn identifiers_compare_by_symbol() {
    let a = ident(3);
    let b = Ident::new(Symbol::new(3), SourceSpan::default());
    assert!(a == b);
    assert!(a != ident(4));
    assert_eq!(a.as_symbol().as_u32(), 3);
    assert!(a.span().is_unknown());
    let f = FunctionIdent::new(ident(1), ident(2));
    assert!(f.same_as(&FunctionIdent::new(ident(1), ident(2))));
    assert!(!f.same_as(&FunctionIdent::new(ident(2), ident(1))));
}

#[test]
fn declarations_compare_without_their_span() {
    let d = |name: u32, ty: Type, linkage: Linkage, init: Option<Constant>| {
        GlobalVarDeclaration::new(
            SourceSpan::UNKNOWN,
            GlobalVariable::new(0),
            ident(name),
            ty,
            linkage,
            init,
        )
    };
    let base = d(1, Type::I32, Linkage::Internal, Some(Constant::new(0)));
    assert!(base == d(1, Type::I32, Linkage::Internal, Some(Constant::new(0))));
    assert!(base != d(2, Type::I32, Linkage::Internal, Some(Constant::new(0))));
    assert!(base != d(1, Type::I64, Linkage::Internal, Some(Constant::new(0))));
    assert!(base != d(1, Type::I32, Linkage::Exported, Some(Constant::new(0))));
    assert!(base != d(1, Type::I32, Linkage::Internal, Some(Constant::new(1))));
    assert!(base != d(1, Type::I32, Linkage::Internal, None));
    assert!(base.span().is_unknown());
    let mut other = d(1, Type::I32, Linkage::Internal, Some(Constant::new(0)));
    other.id = GlobalVariable::new(5);
    assert!(base != other);
    assert_eq!(other.id.index(), 5);

    let c = |id: u32, bytes: Vec<u8>| {
        ConstantDeclaration::new(SourceSpan::UNKNOWN, Constant::new(id), ConstantData::new(bytes))
    };
    assert!(c(0, vec![1, 2]) == c(0, vec![1, 2]));
    assert!(c(0, vec![1, 2]) != c(1, vec![1, 2]));
    assert!(c(0, vec![1, 2]) != c(0, vec![1, 3]));
    assert!(c(0, vec![1, 2]) != c(0, vec![1]));
    assert_eq!(c(0, vec![1, 2]).init.len(), 2);
    assert_eq!(Constant::new(4).index(), 4);
}

#[test]
fn types_have_their_sizes() {
    let sizes: Vec<u32> = [
        Type::I1,
        Type::I8,
        Type::U8,
        Type::I16,
        Type::U16,
        Type::I32,
        Type::U32,
        Type::I64,
        Type::U64,
        Type::I128,
        Type::U128,
        Type::Felt,
        Type::Ptr,
    ]
    .iter()
    .map(|t| t.size_in_bytes())
    .collect();
    assert_eq!(sizes, vec![1, 1, 1, 2, 2, 4, 4, 8, 8, 16, 16, 8, 4]);
    assert!(Type::U64.is_integer() && !Type::Felt.is_integer() && !Type::Ptr.is_integer());
    assert!(Linkage::Internal.is_definition() && Linkage::Exported.is_definition());
    assert!(!Linkage::Imported.is_definition());
}

#[test]
fn segment_table_keeps_address_order() {
    let seg = |offset: u32, len: usize| DataSegment::new(0, offset, vec![1; len], true);
    let mut t = DataSegmentTable::new();
    assert_eq!(t.insert(seg(20, 5)), Ok(0));
    assert_eq!(t.insert(seg(0, 10)), Ok(0));
    assert_eq!(t.insert(seg(10, 10)), Ok(1));
    assert_eq!(t.insert(seg(10, 0)), Ok(1));
    assert_eq!(t.insert(seg(12, 0)), Err(2));
    assert_eq!(t.insert(seg(5, 30)), Err(0));
    assert_eq!(t.insert(seg(24, 1)), Err(3));
    assert_eq!(t.insert(seg(u32::MAX, 9)), Ok(4));
    assert_eq!(t.len(), 5);
    let starts: Vec<u32> = (0..t.len()).map(|i| t.get(i).unwrap().offset).collect();
    assert_eq!(starts, vec![0, 10, 10, 20, u32::MAX]);
    assert!(t.get(5).is_none());
    assert_eq!(t.find_overlap(&seg(9, 2)), Some(0));
    assert_eq!(t.find_overlap(&seg(25, 2)), None);
    assert_eq!(t.position(&seg(25, 2)), 4);
    assert_eq!(t.find(24), Some(3));
    assert_eq!(t.find(25), None);
    assert_eq!(t.find(u32::MAX), Some(4));
    let last = t.get(4).unwrap();
    assert_eq!(last.start(), u32::MAX as u128);
    assert_eq!(last.end(), u32::MAX as u128 + 9);
    assert!(last.overlaps(&seg(u32::MAX, 1)) && !last.overlaps(&seg(0, 10)));
    let copy = t.clone();
    assert_eq!(copy.len(), 5);
    assert_eq!(copy.get(1).unwrap().size(), 0);
}

#[test]
fn global_table_declares_and_resolves() {
    let m = Symbol::new(1);
    let mut t = GlobalVariableTable::new();
    assert!(t.is_empty());
    assert_eq!(t.declare(m, Symbol::new(10), Type::I64, Linkage::Imported), Ok(0));
    assert_eq!(t.declare(m, Symbol::new(11), Type::I16, Linkage::Internal), Ok(1));
    assert_eq!(
        t.declare(m, Symbol::new(11), Type::I16, Linkage::Exported),
        Err(DeclareError::AlreadyDeclared(1))
    );
    assert_eq!(t.get(0).unwrap().offset, None);
    assert_eq!(t.declare(Symbol::new(2), Symbol::new(10), Type::I64, Linkage::Exported), Ok(2));
    assert_eq!(t.declare(Symbol::new(3), Symbol::new(10), Type::I64, Linkage::Exported), Ok(3));
    assert_eq!(t.declare(Symbol::new(3), Symbol::new(12), Type::I64, Linkage::Imported), Ok(4));
    let offsets: Vec<Option<u32>> = (0..t.len()).map(|i| t.get(i).unwrap().offset).collect();
    assert_eq!(offsets, vec![Some(2), Some(0), Some(2), Some(10), None]);
    assert_eq!(t.size_in_bytes(), 18);
    assert_eq!(t.find(Symbol::new(3), Symbol::new(10)), Some(3));
    assert_eq!(t.find(Symbol::new(3), Symbol::new(11)), None);
    assert_eq!(t.find_export(Symbol::new(10)), Some(2));
    assert_eq!(t.unresolved(), vec![Symbol::new(12)]);
    assert!(t.get(5).is_none());
    let copy = t.clone();
    assert_eq!(copy.len(), 5);
    assert_eq!(copy.size_in_bytes(), 18);
}

#[test]
fn declaration_beyond_the_limit_is_rejected() {
    let m = Symbol::new(1);
    let mut t = GlobalVariableTable::with_limit(5);
    assert_eq!(t.declare(m, Symbol::new(1), Type::I32, Linkage::Internal), Ok(0));
    assert_eq!(
        t.declare(m, Symbol::new(2), Type::I16, Linkage::Internal),
        Err(DeclareError::HeapExhausted)
    );
    assert_eq!(t.declare(m, Symbol::new(2), Type::I16, Linkage::Imported), Ok(1));
    assert_eq!(t.declare(m, Symbol::new(3), Type::U8, Linkage::Exported), Ok(2));
    assert_eq!(
        t.declare(m, Symbol::new(4), Type::U8, Linkage::Exported),
        Err(DeclareError::HeapExhausted)
    );
    assert_eq!(t.size_in_bytes(), 5);
    assert_eq!(t.len(), 3);
    assert_eq!(t.limit(), 5);
}

#[test]
fn sysroot_decides_the_next_step() {
    match sysroot_step(Ok("/opt/rust".to_string())) {
        Step::Next { state: Install::AwaitTargetCheck, request: Request::CheckTarget { sysroot } } => {
            assert_eq!(sysroot, "/opt/rust")
        }
        other => panic!("unexpected step {:?}", other),
    }
    let why = String::from_utf8(vec![b'a', 0xff]).unwrap_err();
    match sysroot_step(Err(why.clone())) {
        Step::Failed(TargetError::SysrootNotUtf8 { error }) => assert_eq!(error, why),
        other => panic!("unexpected step {:?}", other),
    }
}
