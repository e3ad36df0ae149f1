use miden_hir::ir::{Block, Opcode, Value, ValueData};
use miden_hir::ssa::{Local, SsaBuilder, SsaError};
use miden_hir::stack::{OperandStack, StackError};
use miden_hir::types::Type;

const X: Local = Local(0);
const Y: Local = Local(1);

fn builder() -> SsaBuilder {
    SsaBuilder::new(vec![Type::I32, Type::I64])
}

fn constant(b: &mut SsaBuilder, block: Block, bits: u64) -> Value {
    let n = b.ins(block, Opcode::Const(bits), vec![], &vec![Type::I32]);
    b.body_ref().inst(n).results[0]
}

fn jump(b: &mut SsaBuilder, from: Block, to: Block) {
    let n = b.ins(from, Opcode::Br, vec![], &vec![]);
    b.add_target(n, to, vec![]);
}

fn params(b: &SsaBuilder, block: Block) -> Vec<Value> {
    b.body_ref().block(block).params.clone()
}

fn edge_args(b: &SsaBuilder, block: Block) -> Vec<Vec<Value>> {
    b.body_ref().block(block).preds.iter().map(|e| e.args.clone()).collect()
}

fn total_params(b: &SsaBuilder) -> usize {
    (0..b.body_ref().num_blocks()).map(|i| b.body_ref().block(Block(i)).params.len()).sum()
}

#[test]
fn straight_line_code_gets_no_block_parameter() {
    let mut b = builder();
    let entry = b.create_block();
    assert_eq!(b.seal_block(entry), Ok(vec![]));
    let one = constant(&mut b, entry, 1);
    let two = constant(&mut b, entry, 2);
    b.define_local(entry, X, one);
    assert_eq!(b.use_local(entry, X), Ok(one));
    b.define_local(entry, X, two);
    assert_eq!(b.use_local(entry, X), Ok(two));
    assert_eq!(total_params(&b), 0);
    assert_eq!(b.body_ref().num_values(), 2);
}

#[test]
fn undefined_local_in_the_entry_block_is_a_defect() {
    let mut b = builder();
    let entry = b.create_block();
    b.seal_block(entry).unwrap();
    assert_eq!(b.use_local(entry, Y), Err(SsaError::UndefinedLocal { block: entry, local: Y }));
    assert_eq!(total_params(&b), 0);
}

#[test]
fn single_predecessor_chain_finds_the_definition_without_parameters() {
    let mut b = builder();
    let first = b.create_block();
    b.seal_block(first).unwrap();
    let v = constant(&mut b, first, 7);
    b.define_local(first, X, v);
    let second = b.create_block();
    jump(&mut b, first, second);
    b.seal_block(second).unwrap();
    let third = b.create_block();
    jump(&mut b, second, third);
    b.seal_block(third).unwrap();
    assert_eq!(b.use_local(third, X), Ok(v));
    assert_eq!(total_params(&b), 0);
    assert_eq!(b.use_local(third, Y), Err(SsaError::UndefinedLocal { block: first, local: Y }));
}

#[test]
fn a_circle_of_single_predecessors_has_no_definition() {
    let mut b = builder();
    let first = b.create_block();
    let second = b.create_block();
    jump(&mut b, first, second);
    jump(&mut b, second, first);
    b.seal_block(first).unwrap();
    b.seal_block(second).unwrap();
    let r = b.use_local(first, X);
    assert!(matches!(r, Err(SsaError::UndefinedLocal { local: X, .. })));
    assert_eq!(total_params(&b), 0);
}

fn diamond(redefine: bool) -> (SsaBuilder, Block, Value, Value) {
    let mut b = builder();
    let top = b.create_block();
    b.seal_block(top).unwrap();
    let v1 = constant(&mut b, top, 1);
    b.define_local(top, X, v1);
    let left = b.create_block();
    let right = b.create_block();
    let cond = b.ins(top, Opcode::CondBr, vec![v1], &vec![]);
    b.add_target(cond, left, vec![]);
    b.add_target(cond, right, vec![]);
    b.seal_block(left).unwrap();
    b.seal_block(right).unwrap();
    let v2 = constant(&mut b, left, 2);
    if redefine {
        b.define_local(left, X, v2);
    }
    let join = b.create_block();
    jump(&mut b, left, join);
    jump(&mut b, right, join);
    (b, join, v1, v2)
}

#[test]
fn merge_of_two_definitions_gets_a_parameter_with_one_argument_per_edge() {
    let (mut b, join, v1, v2) = diamond(true);
    b.seal_block(join).unwrap();
    let p = b.use_local(join, X).unwrap();
    assert_eq!(params(&b, join), vec![p]);
    assert_eq!(edge_args(&b, join), vec![vec![v2], vec![v1]]);
    assert_eq!(b.body_ref().value(p), ValueData::Param { ty: Type::I32, block: join });
    assert_eq!(b.use_local(join, X), Ok(p));
    assert_eq!(total_params(&b), 1);
}

#[test]
fn merge_of_one_definition_gets_no_parameter() {
    let (mut b, join, v1, _) = diamond(false);
    b.seal_block(join).unwrap();
    let before = b.body_ref().num_values();
    assert_eq!(b.use_local(join, X), Ok(v1));
    assert_eq!(total_params(&b), 0);
    assert_eq!(edge_args(&b, join), vec![Vec::<Value>::new(), vec![]]);
    let removed = Value(before);
    assert_eq!(b.body_ref().value(removed), ValueData::Removed);
    assert!(!b.body_ref().is_live(removed));
    assert_eq!(b.local_def(join, X), Some(v1));
}

#[test]
fn parameter_of_an_unsealed_block_is_replaced_everywhere_when_it_is_trivial() {
    let (mut b, join, v1, _) = diamond(false);
    let p = b.use_local(join, X).unwrap();
    assert_eq!(params(&b, join), vec![p]);
    assert_eq!(edge_args(&b, join), vec![Vec::<Value>::new(), vec![]]);
    let add = b.ins(join, Opcode::Add, vec![p, p], &vec![Type::I32]);
    let sum = b.body_ref().inst(add).results[0];
    let after = b.create_block();
    let br = b.ins(join, Opcode::Br, vec![], &vec![]);
    let carried = b.append_block_param(after, Type::I32);
    b.add_target(br, after, vec![p]);
    b.define_local(join, Y, p);
    let mut stack = OperandStack::new();
    stack.push(p);
    stack.push(sum);

    let out = b.seal_block(join).unwrap();
    assert_eq!(out, vec![(p, v1)]);
    for (from, to) in out {
        stack.replace(from, to);
    }
    assert_eq!(stack.peek_top(2), Ok(vec![v1, sum]));
    assert_eq!(params(&b, join), Vec::<Value>::new());
    assert_eq!(b.body_ref().inst(add).args, vec![v1, v1]);
    assert_eq!(edge_args(&b, after), vec![vec![v1]]);
    assert_eq!(params(&b, after), vec![carried]);
    assert_eq!(b.local_def(join, X), Some(v1));
    assert_eq!(b.local_def(join, Y), Some(v1));
    assert_eq!(b.body_ref().value(p), ValueData::Removed);
    assert!(b.is_sealed(join));
}

#[test]
fn loop_header_gets_one_argument_per_edge_in_edge_order() {
    let mut b = builder();
    let entry = b.create_block();
    b.seal_block(entry).unwrap();
    let v0 = constant(&mut b, entry, 0);
    b.define_local(entry, X, v0);
    b.define_local(entry, Y, v0);
    let header = b.create_block();
    jump(&mut b, entry, header);
    let px = b.use_local(header, X).unwrap();
    let py = b.use_local(header, Y).unwrap();
    assert_eq!(params(&b, header), vec![px, py]);
    assert_eq!(edge_args(&b, header), vec![Vec::<Value>::new()]);
    let add = b.ins(header, Opcode::Add, vec![px, py], &vec![Type::I32]);
    let next = b.body_ref().inst(add).results[0];
    b.define_local(header, X, next);
    jump(&mut b, header, header);
    assert!(!b.is_sealed(header));

    assert_eq!(b.seal_block(header), Ok(vec![]));
    assert!(b.is_sealed(header));
    assert_eq!(params(&b, header), vec![px, py]);
    assert_eq!(edge_args(&b, header), vec![vec![v0, v0], vec![next, py]]);
    assert_eq!(b.body_ref().inst(add).args, vec![px, py]);
}

#[test]
fn loop_that_nothing_enters_has_no_definition() {
    let mut b = builder();
    let header = b.create_block();
    let p = b.use_local(header, X).unwrap();
    assert_eq!(params(&b, header), vec![p]);
    jump(&mut b, header, header);
    assert_eq!(
        b.seal_block(header),
        Err(SsaError::UndefinedLocal { block: header, local: X })
    );
}

#[test]
fn sealing_twice_changes_nothing() {
    let (mut b, join, _, _) = diamond(true);
    b.seal_block(join).unwrap();
    let p = b.use_local(join, X).unwrap();
    assert_eq!(b.seal_block(join), Ok(vec![]));
    assert_eq!(params(&b, join), vec![p]);
}

#[test]
fn nested_merges_resolve_through_each_other() {
    // top -> (a | b) -> mid -> (c | d) -> bottom, with one definition in `a`.
    let mut b = builder();
    let top = b.create_block();
    b.seal_block(top).unwrap();
    let v0 = constant(&mut b, top, 0);
    b.define_local(top, X, v0);
    let a = b.create_block();
    let bb = b.create_block();
    let n = b.ins(top, Opcode::CondBr, vec![v0], &vec![]);
    b.add_target(n, a, vec![]);
    b.add_target(n, bb, vec![]);
    b.seal_block(a).unwrap();
    b.seal_block(bb).unwrap();
    let v1 = constant(&mut b, a, 1);
    b.define_local(a, X, v1);
    let mid = b.create_block();
    jump(&mut b, a, mid);
    jump(&mut b, bb, mid);
    b.seal_block(mid).unwrap();
    let c = b.create_block();
    let d = b.create_block();
    let n = b.ins(mid, Opcode::CondBr, vec![v0], &vec![]);
    b.add_target(n, c, vec![]);
    b.add_target(n, d, vec![]);
    b.seal_block(c).unwrap();
    b.seal_block(d).unwrap();
    let bottom = b.create_block();
    jump(&mut b, c, bottom);
    jump(&mut b, d, bottom);
    b.seal_block(bottom).unwrap();

    let r = b.use_local(bottom, X).unwrap();
    assert_eq!(params(&b, mid), vec![r]);
    assert_eq!(edge_args(&b, mid), vec![vec![v1], vec![v0]]);
    assert_eq!(params(&b, bottom), Vec::<Value>::new());
    assert_eq!(edge_args(&b, bottom), vec![Vec::<Value>::new(), vec![]]);
    assert_eq!(total_params(&b), 1);
}

#[test]
fn stack_pops_stop_at_the_floor() {
    let mut s = OperandStack::new();
    assert_eq!(s.pop(), Err(StackError::StackUnderflow));
    s.push(Value(1));
    s.push(Value(2));
    s.push(Value(3));
    assert_eq!(s.height(), 3);
    assert_eq!(s.peek(0), Ok(Value(3)));
    assert_eq!(s.peek(2), Ok(Value(1)));
    assert_eq!(s.peek(3), Err(StackError::StackUnderflow));
    s.set_floor(2);
    assert_eq!(s.floor(), 2);
    assert_eq!(s.peek(1), Err(StackError::StackUnderflow));
    assert_eq!(s.peek_top(2), Err(StackError::StackUnderflow));
    assert_eq!(s.peek_top(1), Ok(vec![Value(3)]));
    assert_eq!(s.peek_top(0), Ok(vec![]));
    assert_eq!(s.pop(), Ok(Value(3)));
    assert_eq!(s.pop(), Err(StackError::StackUnderflow));
    assert_eq!(s.height(), 2);
    s.set_floor(0);
    assert_eq!(s.pop(), Ok(Value(2)));
}

#[test]
fn stack_truncates_to_a_height() {
    let mut s = OperandStack::new();
    for i in 0..5 {
        s.push(Value(i));
    }
    s.truncate_to(7);
    assert_eq!(s.height(), 5);
    s.truncate_to(2);
    assert_eq!(s.height(), 2);
    assert_eq!(s.peek_top(2), Ok(vec![Value(0), Value(1)]));
    s.push(Value(0));
    s.replace(Value(0), Value(9));
    assert_eq!(s.peek_top(3), Ok(vec![Value(9), Value(1), Value(9)]));
}
