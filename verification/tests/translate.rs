use miden_diagnostics::SourceSpan;
use miden_hir::config::{parse_decimal, parse_flag, same_text, TranslationConfig};
use miden_hir::function::Signature;
use miden_hir::ident::{Ident, Symbol};
use miden_hir::ir::{Block, Body, Inst, Opcode, Value, ValueData};
use miden_hir::module::{FunctionError, ModuleBuilder};
use miden_hir::program::Program;
use miden_hir::ssa::Local;
use miden_hir::translate::{
    translate_function, translate_function_at, translate_function_with, BinaryOp, FrameKind,
    FunctionTranslator, Operator,
    TranslateError,
};
use miden_hir::types::Type;

fn add() -> Operator {
    Operator::Binary { op: BinaryOp::Add, ty: Type::I32 }
}

fn konst(bits: u64) -> Operator {
    Operator::Const { ty: Type::I32, bits }
}

fn insts_of(body: &Body, block: usize) -> Vec<Inst> {
    body.block(Block(block)).insts.clone()
}

fn opcodes(body: &Body, block: usize) -> Vec<Opcode> {
    insts_of(body, block).iter().map(|n| body.inst(*n).opcode).collect()
}

fn result(body: &Body, n: Inst) -> Value {
    body.inst(n).results[0]
}

fn edge_args(body: &Body, block: usize) -> Vec<Vec<Value>> {
    body.block(Block(block)).preds.iter().map(|e| e.args.clone()).collect()
}

fn edge_sources(body: &Body, block: usize) -> Vec<Block> {
    body.block(Block(block)).preds.iter().map(|e| e.from).collect()
}

fn target_blocks(body: &Body, n: Inst) -> Vec<Block> {
    body.inst(n).targets.iter().map(|t| t.block).collect()
}

/// Every block holds one terminator, as its last instruction.
fn check_blocks(body: &Body) {
    for b in 0..body.num_blocks() {
        let ops = opcodes(body, b);
        assert!(!ops.is_empty(), "block {} is empty", b);
        for (i, op) in ops.iter().enumerate() {
            assert_eq!(op.is_terminator(), i + 1 == ops.len(), "block {} instruction {}", b, i);
        }
    }
}

/// Every edge passes one live argument for each parameter of its block, and
/// no instruction takes a value that has been taken out.
fn check_values(body: &Body) {
    for b in 0..body.num_blocks() {
        let data = body.block(Block(b));
        for e in &data.preds {
            assert_eq!(e.args.len(), data.params.len());
            assert!(e.args.iter().all(|v| body.is_live(*v)));
        }
    }
    for n in 0..body.num_insts() {
        assert!(body.inst(Inst(n)).args.iter().all(|v| body.is_live(*v)));
    }
}

fn translate(params: Vec<Type>, locals: Vec<Type>, results: usize, code: Vec<Operator>) -> Body {
    let body = translate_function(&params, &locals, results, &code).unwrap();
    check_blocks(&body);
    check_values(&body);
    body
}

#[test]
fn straight_line_arithmetic_is_one_block_that_returns_the_sum() {
    let body = translate(
        vec![],
        vec![Type::I32],
        1,
        vec![konst(1), konst(2), add(), Operator::LocalSet(0), Operator::LocalGet(0), Operator::End],
    );
    assert_eq!(body.num_blocks(), 1);
    assert_eq!(
        opcodes(&body, 0),
        vec![Opcode::Const(0), Opcode::Const(1), Opcode::Const(2), Opcode::Add, Opcode::Ret]
    );
    let insts = insts_of(&body, 0);
    let one = result(&body, insts[1]);
    let two = result(&body, insts[2]);
    let sum = result(&body, insts[3]);
    assert_eq!(body.inst(insts[3]).args, vec![one, two]);
    assert_eq!(body.inst(insts[4]).args, vec![sum]);
    assert_eq!(body.value(sum), ValueData::Result { ty: Type::I32, inst: insts[3] });
    assert!(body.block(Block(0)).params.is_empty());
    assert!(body.block(Block(0)).preds.is_empty());
}

#[test]
fn parameters_of_the_function_are_the_first_locals() {
    let body = translate(
        vec![Type::I32, Type::I64],
        vec![],
        1,
        vec![Operator::LocalGet(1), Operator::Drop, Operator::LocalGet(0), Operator::End],
    );
    let params = body.block(Block(0)).params.clone();
    assert_eq!(params.len(), 2);
    assert_eq!(body.value(params[1]), ValueData::Param { ty: Type::I64, block: Block(0) });
    assert_eq!(opcodes(&body, 0), vec![Opcode::Ret]);
    assert_eq!(body.inst(insts_of(&body, 0)[0]).args, vec![params[0]]);
}

#[test]
fn branch_table_is_one_branch_with_a_target_for_each_case_and_the_default() {
    // block0 { block1 { block2 { br_table [0, 1, 0, 2] default 1 } } }
    let body = translate(
        vec![Type::I32],
        vec![],
        0,
        vec![
            Operator::Block { results: vec![] },
            Operator::Block { results: vec![] },
            Operator::Block { results: vec![] },
            Operator::LocalGet(0),
            Operator::BrTable { targets: vec![0, 1, 0, 2], default: 1 },
            Operator::End,
            Operator::End,
            Operator::End,
            Operator::End,
        ],
    );
    let table: Vec<Inst> = (0..body.num_insts())
        .map(Inst)
        .filter(|n| body.inst(*n).opcode == Opcode::BrTable)
        .collect();
    assert_eq!(table.len(), 1);
    let n = table[0];
    assert_eq!(body.inst(n).block, Block(0));
    assert_eq!(body.inst(n).args, body.block(Block(0)).params);
    // The blocks behind the three constructs are 1, 2 and 3, from the outside in.
    assert_eq!(
        target_blocks(&body, n),
        vec![Block(3), Block(2), Block(3), Block(1), Block(2)]
    );
    let conditional =
        (0..body.num_insts()).filter(|n| body.inst(Inst(*n)).opcode == Opcode::CondBr).count();
    assert_eq!(conditional, 0);
    assert_eq!(edge_sources(&body, 3)[..2], [Block(0), Block(0)]);
}

#[test]
fn branch_table_to_the_function_returns() {
    let body = translate(
        vec![Type::I32],
        vec![],
        1,
        vec![
            Operator::Block { results: vec![Type::I32] },
            konst(7),
            Operator::LocalGet(0),
            Operator::BrTable { targets: vec![1], default: 0 },
            Operator::End,
            Operator::End,
        ],
    );
    let n = insts_of(&body, 0)[1];
    assert_eq!(body.inst(n).opcode, Opcode::BrTable);
    let targets = target_blocks(&body, n);
    assert_eq!(targets.len(), 2);
    assert_eq!(targets[1], Block(1));
    let seven = result(&body, insts_of(&body, 0)[0]);
    assert_eq!(opcodes(&body, targets[0].0), vec![Opcode::Ret]);
    assert_eq!(body.inst(insts_of(&body, targets[0].0)[0]).args, vec![seven]);
    assert_eq!(edge_args(&body, 1)[0], vec![seven]);
}

#[test]
fn if_with_results_merges_them_through_a_parameter() {
    let body = translate(
        vec![Type::I32],
        vec![],
        1,
        vec![
            Operator::LocalGet(0),
            Operator::If { results: vec![Type::I32] },
            konst(1),
            Operator::Else,
            konst(2),
            Operator::End,
            Operator::End,
        ],
    );
    // entry 0, first arm 1, second arm 2, behind 3
    assert_eq!(body.num_blocks(), 4);
    let cond = insts_of(&body, 0)[0];
    assert_eq!(body.inst(cond).opcode, Opcode::CondBr);
    assert_eq!(body.inst(cond).args, body.block(Block(0)).params);
    assert_eq!(target_blocks(&body, cond), vec![Block(1), Block(2)]);
    let one = result(&body, insts_of(&body, 1)[0]);
    let two = result(&body, insts_of(&body, 2)[0]);
    assert_eq!(edge_sources(&body, 3), vec![Block(1), Block(2)]);
    assert_eq!(edge_args(&body, 3), vec![vec![one], vec![two]]);
    let merged = body.block(Block(3)).params.clone();
    assert_eq!(merged.len(), 1);
    assert_eq!(opcodes(&body, 3), vec![Opcode::Ret]);
    assert_eq!(body.inst(insts_of(&body, 3)[0]).args, merged);
}

#[test]
fn locals_set_in_both_arms_merge_through_a_parameter() {
    let body = translate(
        vec![Type::I32],
        vec![Type::I32],
        1,
        vec![
            Operator::LocalGet(0),
            Operator::If { results: vec![] },
            konst(1),
            Operator::LocalSet(1),
            Operator::Else,
            konst(2),
            Operator::LocalSet(1),
            Operator::End,
            Operator::LocalGet(1),
            Operator::LocalGet(0),
            add(),
            Operator::End,
        ],
    );
    let one = result(&body, insts_of(&body, 1)[0]);
    let two = result(&body, insts_of(&body, 2)[0]);
    let merged = body.block(Block(3)).params.clone();
    assert_eq!(merged.len(), 1);
    assert_eq!(edge_args(&body, 3), vec![vec![one], vec![two]]);
    let sum = insts_of(&body, 3)[0];
    assert_eq!(body.inst(sum).args, vec![merged[0], body.block(Block(0)).params[0]]);
}

#[test]
fn if_without_else_jumps_from_both_arms() {
    let body = translate(
        vec![Type::I32],
        vec![Type::I32],
        1,
        vec![
            Operator::LocalGet(0),
            Operator::If { results: vec![] },
            konst(5),
            Operator::LocalSet(1),
            Operator::End,
            Operator::LocalGet(1),
            Operator::End,
        ],
    );
    let zero = result(&body, insts_of(&body, 0)[0]);
    let five = result(&body, insts_of(&body, 1)[0]);
    assert_eq!(edge_sources(&body, 3), vec![Block(1), Block(2)]);
    assert_eq!(edge_args(&body, 3), vec![vec![five], vec![zero]]);
    assert_eq!(opcodes(&body, 2), vec![Opcode::Br]);
}

#[test]
fn loop_header_gets_the_entry_and_the_back_edge_in_order() {
    // loop { x = x + 1; br_if 0 (x) } ; return x
    let body = translate(
        vec![Type::I32],
        vec![],
        1,
        vec![
            Operator::Loop { results: vec![] },
            Operator::LocalGet(0),
            konst(1),
            add(),
            Operator::LocalTee(0),
            Operator::BrIf { depth: 0 },
            Operator::End,
            Operator::LocalGet(0),
            Operator::End,
        ],
    );
    // entry 0, header 1, behind the loop 2, behind the branch 3
    let x = body.block(Block(0)).params[0];
    let header = body.block(Block(1)).params.clone();
    assert_eq!(header.len(), 1);
    let sum = result(&body, insts_of(&body, 1)[1]);
    assert_eq!(body.inst(insts_of(&body, 1)[1]).args[0], header[0]);
    assert_eq!(edge_sources(&body, 1), vec![Block(0), Block(1)]);
    assert_eq!(edge_args(&body, 1), vec![vec![x], vec![sum]]);
    let branch = insts_of(&body, 1)[2];
    assert_eq!(body.inst(branch).opcode, Opcode::CondBr);
    assert_eq!(body.inst(branch).args, vec![sum]);
    assert_eq!(target_blocks(&body, branch), vec![Block(1), Block(3)]);
    assert_eq!(opcodes(&body, 2), vec![Opcode::Ret]);
    assert_eq!(body.inst(insts_of(&body, 2)[0]).args, vec![sum]);
    assert!(body.block(Block(2)).params.is_empty());
}

#[test]
fn code_behind_a_branch_may_take_operands_that_are_not_there() {
    let body = translate(
        vec![],
        vec![Type::I32],
        1,
        vec![
            Operator::Block { results: vec![Type::I32] },
            konst(1),
            Operator::Br { depth: 0 },
            add(),
            Operator::LocalGet(0),
            Operator::Drop,
            Operator::End,
            Operator::End,
        ],
    );
    // entry 0, behind the block 1, code that cannot run 2
    let one = result(&body, insts_of(&body, 0)[1]);
    assert_eq!(opcodes(&body, 2), vec![Opcode::Add, Opcode::Br]);
    let dead_add = insts_of(&body, 2)[0];
    for v in &body.inst(dead_add).args {
        assert_eq!(body.value(*v), ValueData::Placeholder);
    }
    assert_eq!(edge_sources(&body, 1), vec![Block(0), Block(2)]);
    assert_eq!(edge_args(&body, 1)[0], vec![one]);
    assert_eq!(edge_args(&body, 1)[1], vec![result(&body, dead_add)]);
}

#[test]
fn return_in_the_middle_leaves_dead_code_behind() {
    let body = translate(
        vec![Type::I32],
        vec![],
        1,
        vec![Operator::LocalGet(0), Operator::Return, Operator::Unreachable, Operator::End],
    );
    assert_eq!(opcodes(&body, 0), vec![Opcode::Ret]);
    assert_eq!(opcodes(&body, 1), vec![Opcode::Unreachable]);
    assert_eq!(opcodes(&body, 2), vec![Opcode::Ret]);
    assert_eq!(body.value(body.inst(insts_of(&body, 2)[0]).args[0]), ValueData::Placeholder);
}

#[test]
fn calls_take_their_operands_in_stack_order() {
    let body = translate(
        vec![Type::I32, Type::I64],
        vec![],
        2,
        vec![
            Operator::LocalGet(0),
            Operator::LocalGet(1),
            konst(3),
            Operator::CallIndirect { signature: 4, params: 2, results: vec![Type::I64, Type::I32] },
            Operator::Call { callee: 9, params: 1, results: vec![Type::I32, Type::I32] },
            Operator::GlobalSet { global: 2 },
            Operator::Load { ty: Type::I64, offset: 8 },
            Operator::GlobalGet { global: 1, ty: Type::I32 },
            Operator::Eqz,
            Operator::End,
        ],
    );
    let p = body.block(Block(0)).params.clone();
    let insts = insts_of(&body, 0);
    let three = result(&body, insts[0]);
    assert_eq!(body.inst(insts[1]).opcode, Opcode::CallIndirect(4));
    assert_eq!(body.inst(insts[1]).args, vec![p[0], p[1], three]);
    let indirect = body.inst(insts[1]).results.clone();
    assert_eq!(body.value(indirect[0]), ValueData::Result { ty: Type::I64, inst: insts[1] });
    assert_eq!(body.inst(insts[2]).opcode, Opcode::Call(9));
    assert_eq!(body.inst(insts[2]).args, vec![indirect[1]]);
    let direct = body.inst(insts[2]).results.clone();
    assert_eq!(body.inst(insts[3]).opcode, Opcode::GlobalSet(2));
    assert_eq!(body.inst(insts[3]).args, vec![direct[1]]);
    assert_eq!(body.inst(insts[4]).opcode, Opcode::Load(8));
    assert_eq!(body.inst(insts[4]).args, vec![direct[0]]);
    assert_eq!(body.inst(insts[6]).opcode, Opcode::Eqz);
    assert_eq!(
        body.inst(insts[7]).args,
        vec![result(&body, insts[4]), result(&body, insts[6])]
    );
    assert_eq!(body.value(result(&body, insts[6])), ValueData::Result { ty: Type::I32, inst: insts[6] });
}

#[test]
fn select_store_and_comparison_have_their_shapes() {
    let body = translate(
        vec![Type::I64, Type::I64, Type::I32],
        vec![],
        0,
        vec![
            Operator::LocalGet(2),
            Operator::LocalGet(0),
            Operator::LocalGet(1),
            Operator::LocalGet(2),
            Operator::Select { ty: Type::I64 },
            Operator::LocalGet(1),
            Operator::Binary { op: BinaryOp::Lt, ty: Type::I64 },
            Operator::Store { offset: 16 },
            Operator::Nop,
            Operator::End,
        ],
    );
    let p = body.block(Block(0)).params.clone();
    let insts = insts_of(&body, 0);
    assert_eq!(opcodes(&body, 0), vec![Opcode::Select, Opcode::Lt, Opcode::Store(16), Opcode::Ret]);
    assert_eq!(body.inst(insts[0]).args, vec![p[0], p[1], p[2]]);
    let chosen = result(&body, insts[0]);
    assert_eq!(body.value(chosen), ValueData::Result { ty: Type::I64, inst: insts[0] });
    assert_eq!(body.inst(insts[1]).args, vec![chosen, p[1]]);
    let less = result(&body, insts[1]);
    assert_eq!(body.value(less), ValueData::Result { ty: Type::I32, inst: insts[1] });
    assert_eq!(body.inst(insts[2]).args, vec![p[2], less]);
    assert!(body.inst(insts[2]).results.is_empty());
    assert!(body.inst(insts[3]).args.is_empty());
}

fn failure(params: Vec<Type>, locals: Vec<Type>, results: usize, code: Vec<Operator>) -> TranslateError {
    translate_function(&params, &locals, results, &code).unwrap_err()
}

#[test]
fn defects_are_reported() {
    assert_eq!(failure(vec![], vec![], 0, vec![add()]), TranslateError::StackUnderflow);
    assert_eq!(failure(vec![], vec![], 1, vec![Operator::End]), TranslateError::StackUnderflow);
    assert_eq!(
        failure(vec![Type::I32], vec![], 0, vec![Operator::LocalGet(1)]),
        TranslateError::UnknownLocal(1)
    );
    assert_eq!(
        failure(vec![], vec![], 0, vec![konst(1), Operator::LocalSet(0)]),
        TranslateError::UnknownLocal(0)
    );
    assert_eq!(
        failure(vec![], vec![], 0, vec![Operator::Br { depth: 1 }]),
        TranslateError::UnknownLabel(1)
    );
    assert_eq!(
        failure(
            vec![],
            vec![],
            0,
            vec![konst(0), Operator::BrTable { targets: vec![0, 3], default: 0 }]
        ),
        TranslateError::UnknownLabel(3)
    );
    assert_eq!(failure(vec![], vec![], 0, vec![Operator::Else]), TranslateError::MisplacedElse);
    assert_eq!(
        failure(
            vec![],
            vec![],
            0,
            vec![
                konst(1),
                Operator::If { results: vec![Type::I32] },
                konst(2),
                Operator::End,
            ]
        ),
        TranslateError::MissingElse
    );
    assert_eq!(
        failure(vec![], vec![], 0, vec![Operator::End, Operator::Nop]),
        TranslateError::AfterEnd
    );
    assert_eq!(
        failure(vec![], vec![], 0, vec![Operator::Block { results: vec![] }, Operator::End]),
        TranslateError::MissingEnd
    );
    assert_eq!(failure(vec![], vec![], 0, vec![]), TranslateError::MissingEnd);
    assert_eq!(
        failure(
            vec![],
            vec![],
            0,
            vec![
                Operator::Block { results: vec![Type::I32] },
                Operator::Loop { results: vec![] },
                konst(0),
                Operator::BrTable { targets: vec![0], default: 1 },
            ]
        ),
        TranslateError::ArityMismatch
    );
}

#[test]
fn operand_of_an_outer_construct_is_out_of_reach() {
    assert_eq!(
        failure(
            vec![],
            vec![],
            0,
            vec![konst(1), Operator::Block { results: vec![] }, Operator::Drop]
        ),
        TranslateError::StackUnderflow
    );
}

#[test]
fn translator_tracks_constructs_stack_and_current_block() {
    let mut t = FunctionTranslator::new(&vec![Type::I32], &vec![], 0);
    assert_eq!(t.depth(), 1);
    assert_eq!(t.current_block(), Block(0));
    assert!(!t.is_polymorphic() && !t.is_finished());
    assert_eq!(t.builder_ref().local_def(Block(0), Local(0)), Some(Value(0)));
    t.translate_operator(&konst(4)).unwrap();
    t.translate_block(&vec![Type::I32]);
    assert_eq!(t.depth(), 2);
    assert_eq!(t.stack_ref().floor(), 1);
    assert_eq!(t.label(0), Ok(1));
    assert_eq!(t.label(1), Ok(0));
    assert_eq!(t.label(2), Err(TranslateError::UnknownLabel(2)));
    assert_eq!(t.label_arity(0), 0);
    assert_eq!(t.label_arity(1), 1);
    t.translate_operator(&konst(5)).unwrap();
    t.translate_br(0).unwrap();
    assert!(t.is_polymorphic());
    assert_eq!(t.current_block(), Block(2));
    t.translate_end().unwrap();
    assert!(!t.is_polymorphic());
    assert_eq!(t.current_block(), Block(1));
    assert_eq!(t.stack_ref().height(), 2);
    assert_eq!(t.stack_ref().floor(), 0);
    assert_eq!(t.stack_ref().peek(0), Ok(t.builder_ref().body_ref().block(Block(1)).params[0]));
    t.translate_drop().unwrap();
    t.translate_drop().unwrap();
    t.translate_end().unwrap();
    assert!(t.is_finished());
    assert_eq!(t.translate_operator(&Operator::Nop), Err(TranslateError::AfterEnd));
    let body = t.finish();
    check_blocks(&body);
    check_values(&body);
    assert_eq!(FrameKind::Loop, FrameKind::Loop);
}

#[test]
fn functions_are_translated_into_their_module() {
    let ident = |id: u32| Ident::new(Symbol::new(id), SourceSpan::UNKNOWN);
    let mut b = ModuleBuilder::new(ident(1));
    let sig = || Signature::new(vec![Type::I32, Type::I32], vec![Type::I32]);
    let code = vec![Operator::LocalGet(0), Operator::LocalGet(1), add(), Operator::End];
    assert_eq!(b.define_function(ident(10), sig(), &vec![], &code), Ok(()));
    assert_eq!(
        b.define_function(ident(10), sig(), &vec![], &code),
        Err(FunctionError::DuplicateDefinition(Symbol::new(10)))
    );
    assert_eq!(
        b.define_function(ident(11), sig(), &vec![], &vec![add(), Operator::End]),
        Err(FunctionError::Translation {
            module: Symbol::new(1),
            function: Symbol::new(11),
            position: 0,
            error: TranslateError::StackUnderflow
        })
    );
    assert_eq!(b.set_entrypoint(ident(10)), Ok(()));
    let module = b.build();
    assert_eq!(module.functions().len(), 1);
    let f = module.function(Symbol::new(10)).unwrap();
    assert_eq!(f.signature.arity(), 2);
    check_blocks(&f.body);
    assert_eq!(opcodes(&f.body, 0), vec![Opcode::Add, Opcode::Ret]);

    let mut p = Program::new();
    p.add_module(module).unwrap();
    assert_eq!(p.finalize(true), Ok(()));
    let entry = p.entrypoint().unwrap();
    assert_eq!(entry.name.as_symbol(), Symbol::new(10));
    assert_eq!(entry.body.num_insts(), 2);
    assert_eq!(entry.body.inst(Inst(1)).args, vec![result(&entry.body, Inst(0))]);
}

#[test]
fn options_are_set_by_name() {
    let mut c = TranslationConfig::new();
    assert_eq!(
        c,
        TranslationConfig { memory_page_size: 65536, multi_value: true, indirect_call_checks: true }
    );
    assert!(c.set_option("memory-page-size", "4096"));
    assert!(c.set_option("multi-value", "false"));
    assert!(c.set_option("indirect-call-checks", "false"));
    assert_eq!(
        c,
        TranslationConfig { memory_page_size: 4096, multi_value: false, indirect_call_checks: false }
    );
    assert!(c.set_option("multi-value", "true"));
    assert!(c.multi_value);
    assert_eq!(c.bytes_in_pages(3), 12288);
    c.memory_page_size = u32::MAX;
    assert_eq!(c.bytes_in_pages(u32::MAX), (u32::MAX as u64) * (u32::MAX as u64));
}

#[test]
fn unknown_options_and_values_are_passed_over() {
    let mut c = TranslationConfig::new();
    let before = c;
    assert!(!c.set_option("memory-page-size", "0"));
    assert!(!c.set_option("memory-page-size", ""));
    assert!(!c.set_option("memory-page-size", "64k"));
    assert!(!c.set_option("memory-page-size", "-1"));
    assert!(!c.set_option("memory-page-size", "4294967296"));
    assert!(!c.set_option("multi-value", "yes"));
    assert!(!c.set_option("indirect-call-checks", "TRUE"));
    assert!(!c.set_option("page-size", "4096"));
    assert!(!c.set_option("", "true"));
    assert_eq!(c, before);
    assert!(c.set_option("memory-page-size", "4294967295"));
    assert_eq!(c.memory_page_size, u32::MAX);
    assert!(c.set_option("memory-page-size", "00016"));
    assert_eq!(c.memory_page_size, 16);
}

#[test]
fn numerals_and_flags_are_parsed() {
    assert_eq!(parse_decimal("0"), Some(0));
    assert_eq!(parse_decimal("1234567890"), Some(1234567890));
    assert_eq!(parse_decimal("4294967295"), Some(u32::MAX));
    assert_eq!(parse_decimal("4294967296"), None);
    assert_eq!(parse_decimal("99999999999999999999"), None);
    assert_eq!(parse_decimal(""), None);
    assert_eq!(parse_decimal("12a"), None);
    assert_eq!(parse_decimal("+12"), None);
    assert_eq!(parse_decimal("\u{661}\u{662}"), None);
    assert_eq!(parse_flag("true"), Some(true));
    assert_eq!(parse_flag("false"), Some(false));
    assert_eq!(parse_flag("True"), None);
    assert_eq!(parse_flag(""), None);
    assert!(same_text("a-b", "a-b") && !same_text("a-b", "a_b"));
}

#[test]
fn options_steer_the_translation() {
    let code = || {
        vec![
            Operator::LocalGet(0),
            Operator::CallIndirect { signature: 3, params: 0, results: vec![Type::I32] },
            Operator::End,
        ]
    };
    let mut c = TranslationConfig::new();
    let checked = translate_function_with(&c, &vec![Type::I32], &vec![], 1, &code()).unwrap();
    assert_eq!(opcodes(&checked, 0), vec![Opcode::CallIndirect(3), Opcode::Ret]);
    c.set_option("indirect-call-checks", "false");
    let unchecked = translate_function_with(&c, &vec![Type::I32], &vec![], 1, &code()).unwrap();
    check_blocks(&unchecked);
    assert_eq!(opcodes(&unchecked, 0), vec![Opcode::CallIndirectUnchecked(3), Opcode::Ret]);
    assert_eq!(unchecked.inst(Inst(0)).args, unchecked.block(Block(0)).params);

    let several = vec![
        Operator::Block { results: vec![Type::I32, Type::I32] },
        konst(1),
        konst(2),
        Operator::End,
        Operator::End,
    ];
    assert!(translate_function_with(&c, &vec![], &vec![], 2, &several).is_ok());
    c.set_option("multi-value", "false");
    assert_eq!(
        translate_function_with(&c, &vec![], &vec![], 2, &several).unwrap_err(),
        TranslateError::MultiValueDisabled
    );
    assert_eq!(
        translate_function_with(&c, &vec![], &vec![], 0, &several).unwrap_err(),
        TranslateError::MultiValueDisabled
    );
    let single = vec![konst(1), Operator::End];
    assert!(translate_function_with(&c, &vec![], &vec![], 1, &single).is_ok());
    assert_eq!(
        translate_function_with(&c, &vec![], &vec![], 1, &vec![]).unwrap_err(),
        TranslateError::MissingEnd
    );
}

#[test]
fn counting_loop_carries_its_variables_through_the_header() {
    // i = 0; acc = 0; loop { acc += i; i += 1; if i < n { continue } }; return acc
    let body = translate(
        vec![Type::I32],
        vec![Type::I32, Type::I32],
        1,
        vec![
            Operator::Loop { results: vec![] },
            Operator::LocalGet(2),
            Operator::LocalGet(1),
            add(),
            Operator::LocalSet(2),
            Operator::LocalGet(1),
            konst(1),
            add(),
            Operator::LocalTee(1),
            Operator::LocalGet(0),
            Operator::Binary { op: BinaryOp::Lt, ty: Type::I32 },
            Operator::BrIf { depth: 0 },
            Operator::End,
            Operator::LocalGet(2),
            Operator::End,
        ],
    );
    // entry 0, header 1, behind the loop 2, behind the branch 3
    assert_eq!(body.num_blocks(), 4);
    let n = body.block(Block(0)).params[0];
    let entry = insts_of(&body, 0);
    let i0 = result(&body, entry[0]);
    let acc0 = result(&body, entry[1]);
    let header = body.block(Block(1)).params.clone();
    assert_eq!(header.len(), 3);
    let (acc, i, limit) = (header[0], header[1], header[2]);
    let code = insts_of(&body, 1);
    assert_eq!(
        opcodes(&body, 1),
        vec![Opcode::Add, Opcode::Const(1), Opcode::Add, Opcode::Lt, Opcode::CondBr]
    );
    let acc1 = result(&body, code[0]);
    let i1 = result(&body, code[2]);
    assert_eq!(body.inst(code[0]).args, vec![acc, i]);
    assert_eq!(body.inst(code[2]).args, vec![i, result(&body, code[1])]);
    assert_eq!(body.inst(code[3]).args, vec![i1, limit]);
    assert_eq!(edge_sources(&body, 1), vec![Block(0), Block(1)]);
    assert_eq!(edge_args(&body, 1), vec![vec![acc0, i0, n], vec![acc1, i1, limit]]);
    assert_eq!(target_blocks(&body, code[4]), vec![Block(1), Block(3)]);
    assert_eq!(opcodes(&body, 3), vec![Opcode::Br]);
    assert_eq!(target_blocks(&body, insts_of(&body, 3)[0]), vec![Block(2)]);
    assert!(body.block(Block(2)).params.is_empty() && body.block(Block(3)).params.is_empty());
    assert_eq!(opcodes(&body, 2), vec![Opcode::Ret]);
    assert_eq!(body.inst(insts_of(&body, 2)[0]).args, vec![acc1]);
}

#[test]
fn branch_out_of_a_nested_if_merges_behind_the_block() {
    // block (result i32) { if (x) { 1; br 1 } ; 2 } ; return
    let body = translate(
        vec![Type::I32],
        vec![],
        1,
        vec![
            Operator::Block { results: vec![Type::I32] },
            Operator::LocalGet(0),
            Operator::If { results: vec![] },
            konst(1),
            Operator::Br { depth: 1 },
            Operator::End,
            konst(2),
            Operator::End,
            Operator::End,
        ],
    );
    // entry 0, behind the block 1, first arm 2, second arm 3, behind the if 4, dead 5
    assert_eq!(body.num_blocks(), 6);
    let one = result(&body, insts_of(&body, 2)[0]);
    let two = result(&body, insts_of(&body, 4)[0]);
    assert_eq!(edge_sources(&body, 1), vec![Block(2), Block(4)]);
    assert_eq!(edge_args(&body, 1), vec![vec![one], vec![two]]);
    assert_eq!(edge_sources(&body, 4), vec![Block(5), Block(3)]);
    assert_eq!(opcodes(&body, 5), vec![Opcode::Br]);
    assert_eq!(opcodes(&body, 3), vec![Opcode::Br]);
    let merged = body.block(Block(1)).params.clone();
    assert_eq!(body.inst(insts_of(&body, 1)[0]).args, merged);
}

#[test]
fn a_defect_leaves_the_translation_as_it_was() {
    let mut t = FunctionTranslator::new(&vec![], &vec![], 1);
    t.translate_operator(&konst(7)).unwrap();
    let insts = t.builder_ref().body_ref().num_insts();
    assert_eq!(t.translate_br_if(0), Err(TranslateError::StackUnderflow));
    assert_eq!(t.stack_ref().height(), 1);
    assert_eq!(t.builder_ref().body_ref().num_insts(), insts);
    assert_eq!(
        t.translate_br_table(&vec![0, 0], 0),
        Err(TranslateError::StackUnderflow)
    );
    assert_eq!(t.stack_ref().height(), 1);
    assert_eq!(t.translate_br_table(&vec![0, 1], 0), Err(TranslateError::UnknownLabel(1)));
    assert_eq!(t.translate_local_get(0), Err(TranslateError::UnknownLocal(0)));
    assert_eq!(t.translate_local_set(0, true), Err(TranslateError::UnknownLocal(0)));
    assert_eq!(t.translate_else(), Err(TranslateError::MisplacedElse));
    assert_eq!(t.stack_ref().height(), 1);
    assert_eq!(t.depth(), 1);
    assert_eq!(t.builder_ref().body_ref().num_insts(), insts);

    t.translate_if(&vec![Type::I32]).unwrap();
    let insts = t.builder_ref().body_ref().num_insts();
    let blocks = t.builder_ref().body_ref().num_blocks();
    assert_eq!(t.translate_end(), Err(TranslateError::StackUnderflow));
    assert_eq!(t.translate_else(), Err(TranslateError::StackUnderflow));
    t.translate_operator(&konst(8)).unwrap();
    assert_eq!(t.translate_end(), Err(TranslateError::MissingElse));
    assert_eq!(t.stack_ref().height(), 1);
    assert_eq!(t.depth(), 2);
    assert_eq!(t.builder_ref().body_ref().num_insts(), insts + 1);
    assert_eq!(t.builder_ref().body_ref().num_blocks(), blocks);
    t.translate_else().unwrap();
    t.translate_operator(&konst(9)).unwrap();
    t.translate_end().unwrap();
    assert_eq!(t.translate_return(), Ok(()));
    t.translate_end().unwrap();
    let body = t.finish();
    check_blocks(&body);
    check_values(&body);
}

#[test]
fn defects_name_their_place_in_the_code() {
    let c = TranslationConfig::new();
    let at = |results: usize, code: Vec<Operator>| {
        translate_function_at(&c, &vec![], &vec![], results, &code).unwrap_err()
    };
    assert_eq!(at(0, vec![]), (0, TranslateError::MissingEnd));
    assert_eq!(at(0, vec![konst(1), add(), Operator::End]), (1, TranslateError::StackUnderflow));
    assert_eq!(at(1, vec![Operator::Nop, Operator::Nop, Operator::End]), (2, TranslateError::StackUnderflow));
    assert_eq!(
        at(0, vec![Operator::Block { results: vec![] }, Operator::End]),
        (2, TranslateError::MissingEnd)
    );
    assert_eq!(at(0, vec![Operator::End, Operator::Nop]), (1, TranslateError::AfterEnd));
    let mut single = TranslationConfig::new();
    assert!(single.set_option("multi-value", "false"));
    assert_eq!(
        translate_function_at(&single, &vec![], &vec![], 2, &vec![Operator::End]).unwrap_err(),
        (0, TranslateError::MultiValueDisabled)
    );
    let body = translate_function_at(&c, &vec![], &vec![], 1, &vec![konst(1), Operator::End]).unwrap();
    assert_eq!(opcodes(&body, 0), vec![Opcode::Const(1), Opcode::Ret]);
}

#[test]
fn code_without_branches_has_no_block_parameter_but_those_of_the_function() {
    let body = translate(
        vec![Type::I32, Type::I32],
        vec![Type::I32],
        1,
        vec![
            Operator::LocalGet(0),
            Operator::LocalGet(1),
            add(),
            Operator::LocalTee(2),
            Operator::Return,
            Operator::LocalGet(2),
            Operator::Unreachable,
            Operator::LocalGet(0),
            Operator::End,
        ],
    );
    check_blocks(&body);
    assert_eq!(body.num_blocks(), 3);
    assert_eq!(body.block(Block(0)).params.len(), 2);
    for b in 0..body.num_blocks() {
        assert!(body.block(Block(b)).preds.is_empty());
        if b > 0 {
            assert!(body.block(Block(b)).params.is_empty());
        }
    }
    assert_eq!(opcodes(&body, 0), vec![Opcode::Const(0), Opcode::Add, Opcode::Ret]);
    assert_eq!(opcodes(&body, 1), vec![Opcode::Unreachable]);
    assert_eq!(opcodes(&body, 2), vec![Opcode::Ret]);
}

#[test]
fn a_replacement_reaches_the_arguments_of_a_parameter_that_stays() {
    let body = translate(
        vec![Type::I32],
        vec![Type::I32, Type::I32],
        0,
        vec![
            Operator::LocalGet(0),
            Operator::LocalSet(1),
            Operator::Loop { results: vec![] },
            Operator::LocalGet(0),
            Operator::If { results: vec![] },
            Operator::LocalGet(0),
            Operator::LocalSet(2),
            Operator::Else,
            Operator::LocalGet(1),
            Operator::LocalSet(2),
            Operator::End,
            Operator::LocalGet(2),
            Operator::Drop,
            Operator::End,
            Operator::End,
        ],
    );
    check_blocks(&body);
    check_values(&body);
    let header = Block(2);
    assert!(body.block(header).params.is_empty());
    assert_eq!(edge_args(&body, 2), vec![Vec::<Value>::new()]);
    let merge = (1..body.num_blocks()).find(|b| body.block(Block(*b)).params.len() == 1).unwrap();
    assert_eq!(edge_args(&body, merge), vec![vec![Value(0)], vec![Value(0)]]);
    let cond = (0..body.num_insts()).find(|n| body.inst(Inst(*n)).opcode == Opcode::CondBr).unwrap();
    assert_eq!(body.inst(Inst(cond)).args, vec![Value(0)]);
}
