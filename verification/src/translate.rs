//! Translating the stack code of one function into a body in static single
//! assignment form, one operator at a time.

use crate::ir::{
    inst_appended, substitute_in, target_added, Block, EdgeRef, Inst, Opcode, Value, ValueData,
};
use crate::ssa::{lemma_renamed_step, renamed_all, Local, SsaBuilder, SsaError};
use crate::config::TranslationConfig;
use crate::stack::OperandStack;
use crate::types::Type;
use vstd::prelude::*;

verus! {

/// The control constructs that the code can be in.
#[derive(Clone, Copy, Debug, PartialEq, Eq, Structural)]
pub enum FrameKind {
    /// The function itself: a branch to it returns.
    Function,
    Block,
    Loop,
    /// The first arm of an `if`, while no `else` has been seen.
    If,
    /// The second arm of an `if`.
    Else,
}

/// What is known of a control construct that the code is in.
#[derive(Debug)]
pub struct ControlFrame {
    pub kind: FrameKind,
    /// The block in which the code behind the construct stands.
    pub following: Block,
    /// The block at the head of a loop, to which a branch to the loop goes.
    /// For the other constructs it is `following`.
    pub header: Block,
    /// The block for the second arm of an `if`. For the other constructs it
    /// is `following`.
    pub else_block: Block,
    /// The height of the operand stack at the start of the construct.
    pub height: usize,
    /// The number of operands that the construct leaves on the stack.
    pub arity: usize,
    /// The values that stand for these operands behind the construct: the
    /// parameters of `following`. The function itself has none.
    pub results: Vec<Value>,
}

impl ControlFrame {
    /// The block to which a branch to this construct goes.
    pub open spec fn spec_branch_target(&self) -> Block {
        if self.kind is Loop {
            self.header
        } else {
            self.following
        }
    }

    /// The number of arguments that a branch to this construct passes: none
    /// to a loop, one for each result to the others.
    pub open spec fn spec_branch_arity(&self) -> nat {
        if self.kind is Loop {
            0
        } else {
            self.arity as nat
        }
    }

    /// The block to which a branch to this construct goes.
    pub fn branch_target(&self) -> (b: Block)
        ensures
            b == self.spec_branch_target(),
    {
        match self.kind {
            FrameKind::Loop => self.header,
            _ => self.following,
        }
    }

    /// The number of arguments that a branch to this construct passes.
    pub fn branch_arity(&self) -> (n: usize)
        ensures
            n == self.spec_branch_arity(),
    {
        match self.kind {
            FrameKind::Loop => 0,
            _ => self.arity,
        }
    }
}

/// A defect of the translation: something that cannot happen when the code
/// that is translated is valid.
#[derive(Clone, Copy, Debug, PartialEq, Eq, Structural)]
pub enum TranslateError {
    /// An operator needs more operands than its control construct has.
    StackUnderflow,
    /// A local variable was read in a place that no definition of it reaches.
    UndefinedLocal { block: Block, local: Local },
    /// The function has no local variable with this index.
    UnknownLocal(u32),
    /// The code is in fewer control constructs than the branch names.
    UnknownLabel(u32),
    /// An `else` stands outside the first arm of an `if`.
    MisplacedElse,
    /// An `if` that leaves operands on the stack has no `else`.
    MissingElse,
    /// The targets of a branch table take different numbers of operands.
    ArityMismatch,
    /// An operator stands behind the end of the function.
    AfterEnd,
    /// The code ends inside a control construct.
    MissingEnd,
    /// Something leaves several operands on the stack, and the options of
    /// the translation do not allow that.
    MultiValueDisabled,
}

/// The arguments that the branch `n` passes to its target at place `i`.
pub open spec fn target_args(body: &crate::ir::Body, n: int, i: int) -> Seq<Value> {
    let t = body.insts()[n].targets@[i];
    body.blocks()[t.block.0 as int].preds@[t.edge as int].args@
}

/// True when `after` has the instructions of `before`, with their opcodes,
/// perhaps with more behind them, and the blocks of `before`, perhaps with
/// more behind them, each with the instructions that it has in `before` or
/// terminated, but block `c`, which has the instructions of `appended`
/// behind those that it has in `before`.
pub open spec fn code_kept(after: &crate::ir::Body, before: &crate::ir::Body, c: int,
    appended: Seq<Inst>) -> bool {
    &&& before.insts().len() <= after.insts().len()
    &&& before.blocks().len() <= after.blocks().len()
    &&& forall|k: int|
        0 <= k < before.insts().len() ==> (#[trigger] after.insts()[k]).opcode == before.insts()[k].opcode
    &&& forall|b: int|
        0 <= b < before.blocks().len() && b != c ==> (#[trigger] after.blocks()[b]).insts@
            == before.blocks()[b].insts@ || after.terminated(b)
    &&& 0 <= c < before.blocks().len() ==> after.blocks()[c].insts@ == before.blocks()[c].insts@ + appended
}

/// The translation of one function: the body built so far, the operand
/// stack, and the control constructs that the code is in.
#[derive(Debug)]
pub struct FunctionTranslator {
    builder: SsaBuilder,
    stack: OperandStack,
    frames: Vec<ControlFrame>,
    current: Block,
    polymorphic: bool,
}

impl FunctionTranslator {
    /// The builder with the body built so far.
    pub closed spec fn builder(&self) -> SsaBuilder {
        self.builder
    }

    /// The operand stack.
    pub closed spec fn stack(&self) -> OperandStack {
        self.stack
    }

    /// The control constructs that the code is in, the innermost last.
    pub closed spec fn frames(&self) -> Seq<ControlFrame> {
        self.frames@
    }

    /// The block to which the next instruction goes.
    pub closed spec fn current(&self) -> Block {
        self.current
    }

    /// True when the code stands behind a branch that is always taken: it
    /// can never run, and may take operands that are not there.
    pub closed spec fn polymorphic(&self) -> bool {
        self.polymorphic
    }

    /// True once the end of the function has been translated.
    pub open spec fn finished(&self) -> bool {
        self.frames().len() == 0
    }

    /// True when a step that takes `count` operands finds too few of them
    /// in code that can run.
    pub open spec fn short_of(&self, count: nat) -> bool {
        count > self.stack().available() && !self.polymorphic()
    }

    /// The defect of a step that takes `count` operands: there is one where
    /// code that can run has too few of them.
    pub open spec fn operands_refusal(&self, count: nat) -> Option<TranslateError> {
        if self.short_of(count) {
            Some(TranslateError::StackUnderflow)
        } else {
            None
        }
    }

    /// The defect of reading the local variable with the index `index`,
    /// as far as the index tells it.
    pub open spec fn local_refusal(&self, index: u32) -> Option<TranslateError> {
        if index >= self.builder().locals().len() {
            Some(TranslateError::UnknownLocal(index))
        } else {
            None
        }
    }

    /// The defect of writing the local variable with the index `index`.
    pub open spec fn set_refusal(&self, index: u32) -> Option<TranslateError> {
        if index >= self.builder().locals().len() {
            Some(TranslateError::UnknownLocal(index))
        } else {
            self.operands_refusal(1)
        }
    }

    /// The defect of an `else`.
    pub open spec fn else_refusal(&self) -> Option<TranslateError> {
        if !(self.frames().last().kind is If) {
            Some(TranslateError::MisplacedElse)
        } else {
            self.operands_refusal(self.frames().last().arity as nat)
        }
    }

    /// True when the innermost control construct has a block with a
    /// parameter that waits for the block to be sealed: the head of a loop,
    /// or the block behind the construct.
    pub open spec fn has_waiting(&self) -> bool {
        let f = self.frames().last();
        ||| f.kind is Loop && self.builder().state()[f.header.0 as int].incomplete@.len() > 0
        ||| self.builder().state()[f.following.0 as int].incomplete@.len() > 0
    }

    /// The defect of an `end`, as far as the operands and the control
    /// construct tell it.
    pub open spec fn end_refusal(&self) -> Option<TranslateError> {
        if self.short_of(self.frames().last().arity as nat) {
            Some(TranslateError::StackUnderflow)
        } else if self.frames().len() > 1 && self.frames().last().kind is If && self.frames().last().arity
            > 0 {
            Some(TranslateError::MissingElse)
        } else {
            None
        }
    }

    /// The defect of a branch to the control construct that `depth` names.
    pub open spec fn br_refusal(&self, depth: u32) -> Option<TranslateError> {
        if depth >= self.frames().len() {
            Some(TranslateError::UnknownLabel(depth))
        } else {
            self.operands_refusal(self.spec_label_arity(self.frames().len() - 1 - depth))
        }
    }

    /// The defect of a conditional branch to the control construct that
    /// `depth` names.
    pub open spec fn br_if_refusal(&self, depth: u32) -> Option<TranslateError> {
        if depth >= self.frames().len() {
            Some(TranslateError::UnknownLabel(depth))
        } else {
            self.operands_refusal(self.spec_label_arity(self.frames().len() - 1 - depth) + 1)
        }
    }

    /// The defect of the first of `targets` that names no control construct,
    /// or one that takes another number of operands than `arity`.
    pub open spec fn targets_refusal(&self, targets: Seq<u32>, arity: nat) -> Option<TranslateError>
        decreases targets.len(),
    {
        if targets.len() == 0 {
            None
        } else {
            match self.targets_refusal(targets.drop_last(), arity) {
                Some(e) => Some(e),
                None => if targets.last() >= self.frames().len() {
                    Some(TranslateError::UnknownLabel(targets.last()))
                } else if self.spec_label_arity(self.frames().len() - 1 - targets.last()) != arity {
                    Some(TranslateError::ArityMismatch)
                } else {
                    None
                },
            }
        }
    }

    /// A defect found among the first `n` targets is the defect of them all.
    proof fn lemma_targets_refusal_kept(&self, targets: Seq<u32>, arity: nat, n: int)
        requires
            0 <= n <= targets.len(),
            self.targets_refusal(targets.take(n), arity) is Some,
        ensures
            self.targets_refusal(targets, arity) == self.targets_refusal(targets.take(n), arity),
        decreases targets.len() - n,
    {
        if n < targets.len() {
            assert(targets.take(n + 1).drop_last() =~= targets.take(n));
            self.lemma_targets_refusal_kept(targets, arity, n + 1);
        } else {
            assert(targets.take(n) =~= targets);
        }
    }

    /// The defect of a branch table: that of its default, then that of its
    /// targets, then that of its operands.
    pub open spec fn table_refusal(&self, targets: Seq<u32>, default: u32) -> Option<TranslateError> {
        if default >= self.frames().len() {
            Some(TranslateError::UnknownLabel(default))
        } else {
            let arity = self.spec_label_arity(self.frames().len() - 1 - default);
            match self.targets_refusal(targets, arity) {
                Some(e) => Some(e),
                None => self.operands_refusal(arity + 1),
            }
        }
    }

    /// True when nothing has branched so far: the code is in no control
    /// construct but the function, every block is sealed, no block is
    /// entered by an edge, the entry has `params` parameters, and no other
    /// block has a parameter.
    pub open spec fn unbranched(&self, params: nat) -> bool {
        &&& self.frames().len() == 1
        &&& unbranched_body(&self.builder().body(), params)
        &&& forall|b: int| 0 <= b < self.builder().state().len()
            ==> (#[trigger] self.builder().state()[b]).sealed
    }

    /// True when the body is still the one block that the translation
    /// began with: the code is in no control construct but the function, the
    /// entry is the current block and the only one, nothing enters it, and
    /// it has `params` parameters.
    pub open spec fn single_block(&self, params: nat) -> bool {
        &&& self.frames().len() == 1
        &&& self.current() == Block(0)
        &&& self.builder().state().len() == 1
        &&& self.builder().state()[0].sealed
        &&& self.builder().body().blocks().len() == 1
        &&& self.builder().body().blocks()[0].preds@.len() == 0
        &&& self.builder().body().blocks()[0].params@.len() == params
    }

    /// The invariant of the control construct at depth `i`, counted from
    /// the function itself.
    ///
    /// Its blocks are blocks of the body, and its results are live. The
    /// outermost construct, and no other, is the function. For the others:
    /// there is one result for each operand that the construct leaves; the
    /// block behind the construct is not sealed and takes that many
    /// arguments; the head of a loop is a block of its own, is not sealed
    /// and takes no argument; the second arm of an `if` is a block of its own.
    pub open spec fn frame_wf(&self, i: int) -> bool {
        let f = self.frames()[i];
        let b = self.builder();
        &&& (f.kind is Function) == (i == 0)
        &&& b.body().all_live(f.results@)
        &&& b.valid_block(f.following)
        &&& b.valid_block(f.header)
        &&& b.valid_block(f.else_block)
        &&& i > 0 ==> {
            &&& f.results@.len() == f.arity
            &&& !b.state()[f.following.0 as int].sealed
            &&& b.resolved(f.following.0 as int) == f.arity
            &&& (f.kind is Loop ==> !b.state()[f.header.0 as int].sealed
                && b.resolved(f.header.0 as int) == 0
                && f.header != f.following)
            &&& (!(f.kind is Loop) ==> f.header == f.following)
            &&& (f.kind is If ==> f.else_block != f.following)
            &&& (!(f.kind is If) ==> f.else_block == f.following)
        }
    }

    /// True when the constructs at depths `i` and `j` share no block.
    pub open spec fn separate(&self, i: int, j: int) -> bool {
        let f = self.frames()[i];
        let g = self.frames()[j];
        &&& g.following != f.following
        &&& g.following != f.header
        &&& g.following != f.else_block
        &&& g.header != f.following
        &&& g.header != f.header
        &&& g.header != f.else_block
        &&& g.else_block != f.following
        &&& g.else_block != f.header
        &&& g.else_block != f.else_block
    }

    /// The invariant of the control constructs: each is well formed, an
    /// inner one starts no lower on the stack than an outer one, and no two
    /// share a block.
    pub open spec fn control_wf(&self) -> bool {
        &&& forall|i: int| 0 <= i < self.frames().len() ==> #[trigger] self.frame_wf(i)
        &&& forall|i: int, j: int|
            0 <= i < j < self.frames().len() ==> (#[trigger] self.frames()[i]).height <= (
            #[trigger] self.frames()[j]).height && self.separate(i, j)
    }

    /// The invariant of the translation.
    ///
    /// The builder and the control constructs are well formed, the current
    /// block is a block of the body, the operands on the stack are live, and
    /// the floor of the stack is the height at which the innermost construct
    /// starts, which the stack has reached.
    pub open spec fn wf(&self) -> bool {
        &&& self.builder().wf()
        &&& self.builder().valid_block(self.current())
        &&& self.builder().body().all_live(self.stack()@)
        &&& self.control_wf()
        &&& self.frames().len() > 0 ==> self.stack().spec_floor() == self.frames().last().height
            && self.frames().last().height <= self.stack()@.len()
    }

    /// The builder with the body built so far.
    pub fn builder_ref(&self) -> (b: &SsaBuilder)
        ensures
            *b == self.builder(),
    {
        &self.builder
    }

    /// The operand stack.
    pub fn stack_ref(&self) -> (s: &OperandStack)
        ensures
            *s == self.stack(),
    {
        &self.stack
    }

    /// The block to which the next instruction goes.
    pub fn current_block(&self) -> (b: Block)
        ensures
            b == self.current(),
    {
        self.current
    }

    /// The number of control constructs that the code is in.
    pub fn depth(&self) -> (n: usize)
        ensures
            n == self.frames().len(),
    {
        self.frames.len()
    }

    /// True once the end of the function has been translated.
    pub fn is_finished(&self) -> (r: bool)
        ensures
            r == self.finished(),
    {
        self.frames.len() == 0
    }

    /// True when the code stands behind a branch that is always taken.
    pub fn is_polymorphic(&self) -> (r: bool)
        ensures
            r == self.polymorphic(),
    {
        self.polymorphic
    }

    /// True when block `b` is kept for code that is still to come: it is
    /// the block behind a control construct that the code is in, or the
    /// block for the second arm of an `if` whose first arm the code is in.
    pub open spec fn pending(&self, b: int) -> bool {
        exists|i: int|
            0 < i < self.frames().len() && ((#[trigger] self.frames()[i]).following.0 == b
                || (self.frames()[i].kind
                is If && self.frames()[i].else_block.0 == b))
    }

    /// The invariant of the blocks.
    ///
    /// While the function is being translated, the current block holds no
    /// terminator, and no control construct keeps it for later; every other
    /// block either ends in exactly one terminator, or is empty and kept
    /// for code that is still to come. Once the end of the function has
    /// been translated, every block ends in exactly one terminator.
    pub open spec fn blocks_wf(&self) -> bool {
        let body = self.builder().body();
        &&& !self.finished() ==> body.unterminated(self.current().0 as int) && !self.pending(
            self.current().0 as int,
        )
        &&& forall|b: int|
            0 <= b < body.blocks().len() && (self.finished() || b != self.current().0)
                ==> if self.pending(b) {
                (#[trigger] body.blocks()[b]).insts@.len() == 0
            } else {
                body.terminated(b)
            }
    }

    /// The blocks stay in order through a step that leaves the current
    /// block and its instructions as they are: the body keeps its code;
    /// the blocks that are kept for later are empty; and the other blocks
    /// that are new, or were kept for later, are terminated.
    proof fn lemma_blocks_same_current(&self, before: &FunctionTranslator)
        requires
            before.wf(),
            before.blocks_wf(),
            !before.finished(),
            !self.finished(),
            self.current() == before.current(),
            code_kept(&self.builder().body(), &before.builder().body(), before.current().0 as int,
                Seq::empty()),
            !self.pending(self.current().0 as int),
            forall|b: int|
                0 <= b < self.builder().body().blocks().len() && self.pending(b)
                    ==> (#[trigger] self.builder().body().blocks()[b]).insts@.len()
                    == 0,
            forall|b: int|
                0 <= b < self.builder().body().blocks().len() && b != self.current().0
                    && !self.pending(b) && (b
                    >= before.builder().body().blocks().len() || before.pending(b))
                        ==> #[trigger] self.builder().body().terminated(
                    b,
                ),
        ensures
            self.blocks_wf(),
    {
        let body = self.builder().body();
        let old_body = before.builder().body();
        let c = self.current().0 as int;
        assert(before.builder().body().block_wf(c));
        assert forall|b: int| 0 <= b < body.blocks().len() && b != c implies if self.pending(b) {
            (#[trigger] body.blocks()[b]).insts@.len() == 0
        } else {
            body.terminated(b)
        } by {
            if !self.pending(b) && b < old_body.blocks().len() && !before.pending(b) {
                assert(old_body.blocks()[b].insts@.len() >= 0);
                assert(old_body.terminated(b));
                if !body.terminated(b) {
                    assert(body.blocks()[b].insts@ == old_body.blocks()[b].insts@);
                    body.lemma_block_kept(&old_body, b);
                }
            }
        }
        assert(body.blocks()[c].insts@ =~= old_body.blocks()[c].insts@);
        body.lemma_block_kept(&old_body, c);
    }

    /// The blocks stay in order through a step that ends the current block
    /// with the terminator `n` and goes on in another block, which is empty
    /// and not kept for later: the body keeps its code otherwise; the
    /// blocks that are kept for later are empty; and the other blocks that
    /// are new, or were kept for later, are terminated.
    proof fn lemma_blocks_new_current(&self, before: &FunctionTranslator, n: Inst)
        requires
            before.wf(),
            before.blocks_wf(),
            !before.finished(),
            !self.finished(),
            self.current() != before.current(),
            self.builder().valid_block(self.current()),
            self.builder().body().blocks()[self.current().0 as int].insts@.len() == 0,
            !self.pending(self.current().0 as int),
            code_kept(&self.builder().body(), &before.builder().body(), before.current().0 as int, seq![n]),
            n.0 < self.builder().body().insts().len(),
            self.builder().body().insts()[n.0 as int].opcode.spec_is_terminator(),
            !self.pending(before.current().0 as int),
            forall|b: int|
                0 <= b < self.builder().body().blocks().len() && self.pending(b)
                    ==> (#[trigger] self.builder().body().blocks()[b]).insts@.len()
                    == 0,
            forall|b: int|
                0 <= b < self.builder().body().blocks().len() && b != self.current().0 && b
                    != before.current().0
                    && !self.pending(b) && (b >= before.builder().body().blocks().len()
                        || before.pending(b))
                    ==> #[trigger] self.builder().body().terminated(b),
        ensures
            self.blocks_wf(),
    {
        let body = self.builder().body();
        let old_body = before.builder().body();
        let c0 = before.current().0 as int;
        let c = self.current().0 as int;
        assert forall|b: int| 0 <= b < body.blocks().len() && b != c implies if self.pending(b) {
            (#[trigger] body.blocks()[b]).insts@.len() == 0
        } else {
            body.terminated(b)
        } by {
            if b == c0 {
                assert(body.blocks()[c0].insts@ =~= old_body.blocks()[c0].insts@.push(n));
                body.lemma_block_appended(&old_body, c0, n);
            } else if !self.pending(b) && b < old_body.blocks().len() && !before.pending(b) {
                assert(old_body.blocks()[b].insts@.len() >= 0);
                assert(old_body.terminated(b));
                if !body.terminated(b) {
                    assert(body.blocks()[b].insts@ == old_body.blocks()[b].insts@);
                    body.lemma_block_kept(&old_body, b);
                }
            }
        }
        assert forall|i: int| 0 <= i < body.blocks()[c].insts@.len()
            implies !#[trigger] body.terminator_at(c, i) by {}
    }

    /// The blocks are in order once the end of the function has been
    /// translated: the current block has been ended with the terminator
    /// `n`, and the body keeps its code otherwise.
    proof fn lemma_blocks_finished(&self, before: &FunctionTranslator, n: Inst)
        requires
            before.wf(),
            before.blocks_wf(),
            before.frames().len() == 1,
            self.finished(),
            code_kept(&self.builder().body(), &before.builder().body(), before.current().0 as int, seq![n]),
            self.builder().body().blocks().len() == before.builder().body().blocks().len(),
            n.0 < self.builder().body().insts().len(),
            self.builder().body().insts()[n.0 as int].opcode.spec_is_terminator(),
        ensures
            self.blocks_wf(),
    {
        let body = self.builder().body();
        let old_body = before.builder().body();
        let c0 = before.current().0 as int;
        assert forall|b: int| 0 <= b < body.blocks().len() implies !self.pending(b)
            && #[trigger] body.terminated(
            b,
        ) by {
            if b == c0 {
                assert(body.blocks()[c0].insts@ =~= old_body.blocks()[c0].insts@.push(n));
                body.lemma_block_appended(&old_body, c0, n);
            } else {
                assert(!before.pending(b));
                assert(old_body.blocks()[b].insts@.len() >= 0);
                assert(old_body.terminated(b));
                if !body.terminated(b) {
                    assert(body.blocks()[b].insts@ == old_body.blocks()[b].insts@);
                    body.lemma_block_kept(&old_body, b);
                }
            }
        }
    }

    /// The blocks stay in order through a step that leaves the control
    /// constructs, the current block, the opcodes of the instructions and
    /// the instructions of every block as they are.
    proof fn lemma_blocks_untouched(&self, before: &FunctionTranslator)
        requires
            before.wf(),
            before.blocks_wf(),
            !before.finished(),
            self.frames() == before.frames(),
            self.current() == before.current(),
            self.builder().body().blocks().len() == before.builder().body().blocks().len(),
            self.builder().body().insts().len() == before.builder().body().insts().len(),
            forall|k: int|
                0 <= k < before.builder().body().insts().len()
                    ==> (#[trigger] self.builder().body().insts()[k]).opcode
                    == before.builder().body().insts()[k].opcode,
            forall|b: int|
                0 <= b < before.builder().body().blocks().len()
                    ==> (#[trigger] self.builder().body().blocks()[b]).insts
                    == before.builder().body().blocks()[b].insts,
        ensures
            self.blocks_wf(),
    {
        let body = self.builder().body();
        let old_body = before.builder().body();
        assert forall|b: int| 0 <= b < body.blocks().len() implies body.terminated(b)
            == old_body.terminated(b)
            && body.unterminated(b) == old_body.unterminated(b)
                && (#[trigger] body.blocks()[b]).insts@.len()
            == old_body.blocks()[b].insts@.len() by {
            body.lemma_block_kept(&old_body, b);
        }
        assert forall|b: int| self.pending(b) == before.pending(b) by {}
    }

    /// Entering a control construct keeps for later what was kept, and the
    /// blocks of the construct besides.
    proof fn lemma_pending_pushed(&self, before: &FunctionTranslator)
        requires
            self.frames().len() == before.frames().len() + 1,
            self.frames().drop_last() == before.frames(),
            before.frames().len() > 0,
        ensures
            forall|b: int|
                #[trigger] self.pending(b) <==> before.pending(b) || self.frames().last().following.0
                    == b || (
                self.frames().last().kind is If && self.frames().last().else_block.0 == b),
    {
        let f = self.frames().last();
        let n = before.frames().len() as int;
        assert forall|b: int|
            #[trigger] self.pending(b) <==> before.pending(b) || f.following.0 == b || (f.kind is If
                && f.else_block.0 == b) by {
            if self.pending(b) {
                let i = choose|i: int|
                    0 < i < self.frames().len() && ((#[trigger] self.frames()[i]).following.0 == b
                        || (self.frames()[i].kind
                        is If && self.frames()[i].else_block.0 == b));
                if i < n {
                    assert(self.frames()[i] == before.frames()[i]);
                }
            }
            if before.pending(b) {
                let i = choose|i: int|
                    0 < i < before.frames().len() && ((#[trigger] before.frames()[i]).following.0 == b
                        || (before.frames()[i].kind
                        is If && before.frames()[i].else_block.0 == b));
                assert(self.frames()[i] == before.frames()[i]);
            }
            if f.following.0 == b || (f.kind is If && f.else_block.0 == b) {
                assert(self.frames()[n] == f);
            }
        }
    }

    /// True when a control construct keeps block `b` open for further
    /// predecessors: it is the block behind a construct that the code is
    /// in, or the head of a loop that the code is in.
    pub open spec fn kept_open(&self, b: int) -> bool {
        exists|i: int|
            0 < i < self.frames().len() && ((#[trigger] self.frames()[i]).following.0 == b
                || (self.frames()[i].kind
                is Loop && self.frames()[i].header.0 == b))
    }

    /// The invariant of the seals: every block is sealed, but those that a
    /// control construct keeps open.
    pub open spec fn seals_wf(&self) -> bool {
        forall|b: int|
            0 <= b < self.builder().state().len() ==> (#[trigger] self.builder().state()[b]).sealed
                || self.kept_open(
                b,
            )
    }

    /// The seals stay in order through a step that leaves sealed what was
    /// sealed, seals what is kept open no longer, and seals the new blocks
    /// that are not kept open.
    proof fn lemma_seals_step(&self, before: &FunctionTranslator)
        requires
            before.seals_wf(),
            before.builder().state().len() <= self.builder().state().len(),
            forall|b: int|
                0 <= b < before.builder().state().len() && before.builder().state()[b].sealed ==> (
                #[trigger] self.builder().state()[b]).sealed,
            forall|b: int|
                0 <= b < before.builder().state().len() && before.kept_open(b)
                    ==> (#[trigger] self.builder().state()[b]).sealed
                    || self.kept_open(b),
            forall|b: int|
                before.builder().state().len() <= b < self.builder().state().len()
                    ==> (#[trigger] self.builder().state()[b]).sealed
                    || self.kept_open(b),
        ensures
            self.seals_wf(),
    {
        assert forall|b: int| 0 <= b < self.builder().state().len()
            implies (#[trigger] self.builder().state()[b]).sealed
            || self.kept_open(b) by {
            if b < before.builder().state().len() {
                assert(before.builder().state()[b].sealed || before.kept_open(b));
            }
        }
    }

    /// The seals stay in order through a step in which the builder grows,
    /// with new blocks that are sealed, and the control constructs keep
    /// their kinds and blocks.
    proof fn lemma_seals_grown(&self, before: &FunctionTranslator)
        requires
            before.seals_wf(),
            self.builder().extends(&before.builder()),
            self.frames().len() == before.frames().len(),
            forall|i: int|
                0 <= i < before.frames().len() ==> ((#[trigger] self.frames()[i]).kind is Loop)
                    == (before.frames()[i].kind
                    is Loop) && self.frames()[i].following == before.frames()[i].following
                        && self.frames()[i].header
                    == before.frames()[i].header,
            forall|b: int|
                before.builder().state().len() <= b < self.builder().state().len()
                    ==> (#[trigger] self.builder().state()[b]).sealed,
        ensures
            self.seals_wf(),
    {
        assert forall|b: int| 0 <= b < before.builder().state().len() && before.kept_open(b) implies (
        #[trigger] self.builder().state()[b]).sealed || self.kept_open(b) by {
            let i = choose|i: int|
                0 < i < before.frames().len() && ((#[trigger] before.frames()[i]).following.0 == b
                    || (before.frames()[i].kind
                    is Loop && before.frames()[i].header.0 == b));
            assert(self.frames()[i].following == before.frames()[i].following);
        }
        self.lemma_seals_step(before);
    }

    /// Leaving the innermost control construct keeps for later what was
    /// kept, but for the blocks of that construct.
    proof fn lemma_pending_popped(&self, before: &FunctionTranslator)
        requires
            before.control_wf(),
            before.frames().len() >= 2,
            self.frames().len() == before.frames().len() - 1,
            forall|i: int|
                0 <= i < before.frames().len() - 1 ==> frame_with_results(
                    before.frames()[i],
                    #[trigger] self.frames()[i],
                    self.frames()[i].results@,
                ),
        ensures
            forall|b: int|
                #[trigger] before.pending(b) <==> self.pending(b)
                    || before.frames().last().following.0 == b || (
                before.frames().last().kind is If && before.frames().last().else_block.0 == b),
            forall|b: int|
                #[trigger] self.pending(b) ==> before.frames().last().following.0 != b
                    && before.frames().last().else_block.0
                    != b && before.frames().last().header.0 != b,
    {
        let t = before.frames().len() - 1;
        let f = before.frames().last();
        assert forall|b: int|
            #[trigger] before.pending(b) <==> self.pending(b) || f.following.0 == b || (f.kind is If
                && f.else_block.0 == b) by {
            if before.pending(b) {
                let i = choose|i: int|
                    0 < i < before.frames().len() && ((#[trigger] before.frames()[i]).following.0 == b
                        || (before.frames()[i].kind
                        is If && before.frames()[i].else_block.0 == b));
                if i < t {
                    assert(frame_with_results(before.frames()[i], self.frames()[i],
                        self.frames()[i].results@));
                }
            }
            if self.pending(b) {
                let i = choose|i: int|
                    0 < i < self.frames().len() && ((#[trigger] self.frames()[i]).following.0 == b
                        || (self.frames()[i].kind
                        is If && self.frames()[i].else_block.0 == b));
                assert(frame_with_results(before.frames()[i], self.frames()[i], self.frames()[i].results@));
                assert(before.frames()[i].following.0 == b || (before.frames()[i].kind is If
                    && before.frames()[i].else_block.0
                    == b));
            }
            if f.following.0 == b || (f.kind is If && f.else_block.0 == b) {
                assert(before.frames()[t] == f);
            }
        }
        assert forall|b: int|
            #[trigger] self.pending(b) implies f.following.0 != b && f.else_block.0 != b && f.header.0
                != b by {
            let i = choose|i: int|
                0 < i < self.frames().len() && ((#[trigger] self.frames()[i]).following.0 == b
                    || (self.frames()[i].kind
                    is If && self.frames()[i].else_block.0 == b));
            assert(frame_with_results(before.frames()[i], self.frames()[i], self.frames()[i].results@));
            assert(before.separate(i, t));
        }
    }

    /// Going on to the second arm of the innermost `if` keeps for later
    /// what was kept, but for the block of the second arm.
    proof fn lemma_pending_else(&self, before: &FunctionTranslator)
        requires
            before.control_wf(),
            before.frames().len() >= 2,
            before.frames().last().kind is If,
            self.frames().len() == before.frames().len(),
            self.frames().drop_last() == before.frames().drop_last(),
            self.frames().last().kind is Else,
            self.frames().last().following == before.frames().last().following,
            self.frames().last().else_block == before.frames().last().following,
        ensures
            forall|b: int|
                #[trigger] self.pending(b) <==> before.pending(b)
                    && before.frames().last().else_block.0 != b,
    {
        let t = before.frames().len() - 1;
        let f = before.frames().last();
        assert(before.frame_wf(t));
        assert forall|b: int| #[trigger] self.pending(b) <==> before.pending(b) && f.else_block.0 != b by {
            if self.pending(b) {
                let i = choose|i: int|
                    0 < i < self.frames().len() && ((#[trigger] self.frames()[i]).following.0 == b
                        || (self.frames()[i].kind
                        is If && self.frames()[i].else_block.0 == b));
                if i < t {
                    assert(self.frames()[i] == self.frames().drop_last()[i]);
                    assert(before.frames()[i] == before.frames().drop_last()[i]);
                    assert(before.separate(i, t));
                } else {
                    assert(before.frames()[t].following.0 == b);
                }
            }
            if before.pending(b) && f.else_block.0 != b {
                let i = choose|i: int|
                    0 < i < before.frames().len() && ((#[trigger] before.frames()[i]).following.0 == b
                        || (before.frames()[i].kind
                        is If && before.frames()[i].else_block.0 == b));
                if i < t {
                    assert(self.frames()[i] == self.frames().drop_last()[i]);
                    assert(before.frames()[i] == before.frames().drop_last()[i]);
                } else {
                    assert(self.frames()[t].following.0 == b);
                }
            }
        }
    }

    /// The blocks are in order after the current block has been ended with
    /// the jump `n` and the code has gone on in a block that was kept for
    /// later: `ended` is the translation after the jump, in which the block
    /// of the second arm of an `if` may have been ended too.
    proof fn lemma_blocks_after_switch(&self, before: &FunctionTranslator, ended: &crate::ir::Body, n: Inst)
        requires
            before.wf(),
            before.blocks_wf(),
            !before.finished(),
            !self.finished(),
            self.builder().wf(),
            self.builder().valid_block(self.current()),
            before.pending(self.current().0 as int),
            !self.pending(self.current().0 as int),
            forall|b: int| #[trigger] self.pending(b) ==> before.pending(b),
            n.0 == before.builder().body().insts().len(),
            n.0 < ended.insts().len(),
            ended.insts()[n.0 as int].opcode.spec_is_terminator(),
            forall|k: int| 0 <= k < n.0 ==> (#[trigger] ended.insts()[k]).opcode
                == before.builder().body().insts()[k].opcode,
            before.builder().body().blocks().len() == ended.blocks().len(),
            ended.blocks()[before.current().0 as int].insts@
                == before.builder().body().blocks()[before.current().0 as int].insts@.push(
                n,
            ),
            forall|b: int|
                0 <= b < ended.blocks().len() && b != before.current().0
                    ==> (#[trigger] ended.blocks()[b]).insts@
                    == before.builder().body().blocks()[b].insts@ || (before.pending(b)
                        && !self.pending(b) && b
                    != self.current().0 && ended.terminated(b)),
            ended.wf(),
            self.builder().body().insts().len() == ended.insts().len(),
            self.builder().body().blocks().len() == ended.blocks().len(),
            forall|k: int|
                0 <= k < ended.insts().len() ==> (#[trigger] self.builder().body().insts()[k]).opcode
                    == ended.insts()[k].opcode,
            forall|b: int|
                0 <= b < ended.blocks().len() ==> (#[trigger] self.builder().body().blocks()[b]).insts
                    == ended.blocks()[b].insts,
            forall|b: int|
                0 <= b < ended.blocks().len() && before.pending(b) && !self.pending(b) && b
                    != self.current().0
                    ==> #[trigger] ended.terminated(b),
        ensures
            self.blocks_wf(),
    {
        let body = self.builder().body();
        let old_body = before.builder().body();
        let c0 = before.current().0 as int;
        let c = self.current().0 as int;
        before.lemma_pending_is_old(c);
        assert(ended.blocks()[c].insts@ == old_body.blocks()[c].insts@);
        assert forall|b: int| 0 <= b < body.blocks().len() implies body.terminated(b) == ended.terminated(b)
            && (#[trigger] body.blocks()[b]).insts@ == ended.blocks()[b].insts@ by {
            body.lemma_block_kept(ended, b);
        }
        assert forall|b: int| 0 <= b < body.blocks().len() && self.pending(b)
            implies (#[trigger] body.blocks()[b]).insts@.len()
            == 0 by {
            assert(before.pending(b));
            assert(ended.blocks()[b].insts@ == old_body.blocks()[b].insts@);
        }
        assert(code_kept(&body, &old_body, c0, seq![n])) by {
            assert(body.blocks()[c0].insts@ =~= old_body.blocks()[c0].insts@ + seq![n]);
            assert forall|b: int| 0 <= b < old_body.blocks().len() && b != c0
                implies (#[trigger] body.blocks()[b]).insts@
                == old_body.blocks()[b].insts@ || body.terminated(b) by {
                assert(body.blocks()[b].insts@ == ended.blocks()[b].insts@);
            }
            assert forall|k: int| 0 <= k < old_body.insts().len()
                implies (#[trigger] body.insts()[k]).opcode
                == old_body.insts()[k].opcode by {
                assert(ended.insts()[k].opcode == old_body.insts()[k].opcode);
            }
        }
        assert forall|b: int|
            0 <= b < body.blocks().len() && b != c && b != c0 && !self.pending(b) && (b
                >= old_body.blocks().len()
                || before.pending(b)) implies #[trigger] body.terminated(b) by {
            assert(ended.terminated(b));
        }
        self.lemma_blocks_new_current(before, n);
    }

    /// The blocks that are kept for later are blocks that the builder of
    /// a well-formed translation has.
    proof fn lemma_pending_is_old(&self, b: int)
        requires
            self.control_wf(),
            self.builder().wf(),
            self.pending(b),
        ensures
            0 <= b < self.builder().state().len(),
            0 <= b < self.builder().body().blocks().len(),
    {
        let i = choose|i: int|
            0 < i < self.frames().len() && ((#[trigger] self.frames()[i]).following.0 == b
                || (self.frames()[i].kind
                is If && self.frames()[i].else_block.0 == b));
        assert(self.frame_wf(i));
    }

    /// Where the builder has grown, the stack holds live values and has
    /// reached the innermost construct, and the constructs and the current
    /// block are those of a well-formed `before`, `self` is well formed.
    proof fn lemma_step(&self, before: &FunctionTranslator)
        requires
            before.wf(),
            self.builder().extends(&before.builder()),
            self.frames() == before.frames(),
            self.builder().valid_block(self.current()),
            self.builder().body().all_live(self.stack()@),
            self.frames().len() > 0 ==> self.stack().spec_floor() == self.frames().last().height
                && self.frames().last().height <= self.stack()@.len(),
        ensures
            self.wf(),
    {
        assert forall|i: int| 0 <= i < self.frames().len() implies #[trigger] self.frame_wf(i) by {
            assert(before.frame_wf(i));
            let f = self.frames()[i];
            assert forall|k: int| 0 <= k < f.results@.len() implies self.builder().body().live(
                #[trigger] f.results@[k],
            ) by {
                assert(before.builder().body().live(f.results@[k]));
            }
        }
        assert forall|i: int, j: int| 0 <= i < j < self.frames().len() implies (
        #[trigger] self.frames()[i]).height <= (#[trigger] self.frames()[j]).height && self.separate(
            i,
            j,
        ) by {
            assert(before.separate(i, j));
        }
    }
}

impl FunctionTranslator {
    /// Adds an instruction behind the instructions of the current block.
    pub fn emit(&mut self, opcode: Opcode, args: Vec<Value>, result_types: &Vec<Type>) -> (n: Inst)
        requires
            old(self).wf(),
            old(self).builder().body().all_live(args@),
        ensures
            final(self).wf(),
            final(self).builder().extends(&old(self).builder()),
            inst_appended(
                &old(self).builder().body(),
                &final(self).builder().body(),
                old(self).current(),
                opcode,
                args@,
                result_types@,
                n,
            ),
            final(self).builder().state() == old(self).builder().state(),
            final(self).stack() == old(self).stack(),
            final(self).frames() == old(self).frames(),
            final(self).current() == old(self).current(),
            final(self).polymorphic() == old(self).polymorphic(),
    {
        let n = self.builder.ins(self.current, opcode, args, result_types);
        proof {
            self.builder().lemma_extends_same_state(&old(self).builder());
            self.lemma_step(old(self));
        }
        n
    }

    /// Takes the top operand off the stack. Where the control construct
    /// has none, code that can never run gets a stand-in, and other code is
    /// defective.
    pub fn pop_operand(&mut self) -> (r: Result<Value, TranslateError>)
        requires
            old(self).wf(),
            !old(self).finished(),
        ensures
            final(self).frames() == old(self).frames(),
            final(self).current() == old(self).current(),
            final(self).polymorphic() == old(self).polymorphic(),
            final(self).stack().spec_floor() == old(self).stack().spec_floor(),
            match r {
                Ok(v) => {
                    &&& final(self).wf()
                    &&& final(self).builder().extends(&old(self).builder())
                    &&& final(self).builder().body().live(v)
                    &&& final(self).builder().body().insts() == old(self).builder().body().insts()
                    &&& final(self).builder().body().blocks() == old(self).builder().body().blocks()
                    &&& final(self).builder().state() == old(self).builder().state()
                    &&& if old(self).stack().available() > 0 {
                        &&& v == old(self).stack()@.last()
                        &&& final(self).stack()@ == old(self).stack()@.drop_last()
                        &&& final(self).builder() == old(self).builder()
                    } else {
                        &&& old(self).polymorphic()
                        &&& final(self).stack()@ == old(self).stack()@
                        &&& v.0 == old(self).builder().body().values().len()
                        &&& final(self).builder().body().values()
                            == old(self).builder().body().values().push(
                            ValueData::Placeholder,
                        )
                    }
                },
                Err(e) => {
                    &&& e == TranslateError::StackUnderflow
                    &&& old(self).stack().available() == 0
                    &&& !old(self).polymorphic()
                    &&& *final(self) == *old(self)
                },
            },
    {
        match self.stack.pop() {
            Ok(v) => {
                proof {
                    assert(self.builder().extends(&old(self).builder()));
                    assert(old(self).builder().body().live(old(self).stack()@.last()));
                    assert forall|k: int| 0 <= k < self.stack()@.len() implies self.builder().body().live(
                        #[trigger] self.stack()@[k],
                    ) by {
                        assert(old(self).builder().body().live(old(self).stack()@[k]));
                    }
                    self.lemma_step(old(self));
                }
                Ok(v)
            },
            Err(_) => {
                if self.polymorphic {
                    let v = self.builder.make_placeholder();
                    proof {
                        self.builder().lemma_extends_same_state(&old(self).builder());
                        assert forall|k: int| 0 <= k < self.stack()@.len()
                            implies self.builder().body().live(
                            #[trigger] self.stack()@[k],
                        ) by {
                            assert(old(self).builder().body().live(old(self).stack()@[k]));
                        }
                        self.lemma_step(old(self));
                    }
                    Ok(v)
                } else {
                    Err(TranslateError::StackUnderflow)
                }
            },
        }
    }

    /// Takes the top `count` operands off the stack, the topmost last in
    /// the result, each as [`FunctionTranslator::pop_operand`] does.
    pub fn pop_operands(&mut self, count: usize) -> (r: Result<Vec<Value>, TranslateError>)
        requires
            old(self).wf(),
            !old(self).finished(),
        ensures
            match r {
                Ok(args) => {
                    &&& final(self).wf()
                    &&& final(self).builder().extends(&old(self).builder())
                    &&& final(self).builder().body().all_live(args@)
                    &&& args@.len() == count
                    &&& final(self).builder().body().insts() == old(self).builder().body().insts()
                    &&& final(self).builder().body().blocks() == old(self).builder().body().blocks()
                    &&& final(self).builder().state() == old(self).builder().state()
                    &&& final(self).frames() == old(self).frames()
                    &&& final(self).current() == old(self).current()
                    &&& final(self).polymorphic() == old(self).polymorphic()
                    &&& final(self).stack().spec_floor() == old(self).stack().spec_floor()
                    &&& if count <= old(self).stack().available() {
                        &&& final(self).stack()@
                            == old(self).stack()@.take(old(self).stack()@.len() - count)
                        &&& args@ == old(self).stack()@.skip(old(self).stack()@.len() - count)
                        &&& final(self).builder() == old(self).builder()
                    } else {
                        &&& old(self).polymorphic()
                        &&& final(self).stack()@
                            == old(self).stack()@.take(old(self).stack().spec_floor() as int)
                    }
                },
                Err(e) => e == TranslateError::StackUnderflow && count > old(self).stack().available()
                    && !old(self).polymorphic() && *final(self) == *old(self),
            },
            r is Err <==> count > old(self).stack().available() && !old(self).polymorphic(),
    {
        if !self.polymorphic && count > self.stack.count_available() {
            return Err(TranslateError::StackUnderflow);
        }
        let mut args: Vec<Value> = Vec::new();
        let mut i: usize = 0;
        let ghost height = self.stack()@.len() as int;
        let ghost floor = self.stack().spec_floor() as int;
        while i < count
            invariant
                0 <= i <= count,
                self.wf(),
                !self.finished(),
                height == old(self).stack()@.len(),
                floor == old(self).stack().spec_floor(),
                floor <= height,
                self.builder().extends(&old(self).builder()),
                self.builder().body().all_live(args@),
                args@.len() == i,
                self.builder().body().insts() == old(self).builder().body().insts(),
                self.builder().body().blocks() == old(self).builder().body().blocks(),
                self.builder().state() == old(self).builder().state(),
                self.frames() == old(self).frames(),
                self.current() == old(self).current(),
                self.polymorphic() == old(self).polymorphic(),
                self.stack().spec_floor() == floor,
                self.polymorphic() || count <= height - floor,
                if i <= height - floor {
                    &&& self.stack()@ == old(self).stack()@.take(height - i)
                    &&& args@ == old(self).stack()@.subrange(height - i, height)
                    &&& self.builder() == old(self).builder()
                } else {
                    &&& old(self).polymorphic()
                    &&& self.stack()@ == old(self).stack()@.take(floor)
                },
            decreases count - i,
        {
            let ghost prev = *self;
            let ghost sofar = args@;
            let v = match self.pop_operand() {
                Ok(v) => v,
                Err(e) => {
                    proof {
                        assert(false);
                    }
                    return Err(e);
                },
            };
            proof {
                self.builder().lemma_extends_trans(&prev.builder(), &old(self).builder());
                assert forall|k: int| 0 <= k < sofar.len()
                    implies self.builder().body().live(#[trigger] sofar[k]) by {
                    assert(prev.builder().body().live(sofar[k]));
                }
            }
            args.insert(0, v);
            i += 1;
            proof {
                if i <= height - floor {
                    assert(self.stack()@ =~= old(self).stack()@.take(height - i));
                    assert(args@ =~= old(self).stack()@.subrange(height - i, height));
                }
                assert forall|k: int| 0 <= k < args@.len()
                    implies self.builder().body().live(#[trigger] args@[k]) by {
                    if k > 0 {
                        assert(args@[k] == sofar[k - 1]);
                    }
                }
            }
        }
        proof {
            if count <= height - floor {
                assert(old(self).stack()@.skip(height - count) =~= old(self).stack()@.subrange(
                    height - count,
                    height,
                ));
            }
        }
        Ok(args)
    }

    /// Puts `v` on top of the stack.
    pub fn push_operand(&mut self, v: Value)
        requires
            old(self).wf(),
            !old(self).finished(),
            old(self).builder().body().live(v),
        ensures
            final(self).wf(),
            final(self).builder() == old(self).builder(),
            final(self).frames() == old(self).frames(),
            final(self).current() == old(self).current(),
            final(self).polymorphic() == old(self).polymorphic(),
            final(self).stack().spec_floor() == old(self).stack().spec_floor(),
            final(self).stack()@ == old(self).stack()@.push(v),
    {
        self.stack.push(v);
        proof {
            assert(self.builder().extends(&old(self).builder()));
            assert forall|k: int| 0 <= k < self.stack()@.len() implies self.builder().body().live(
                #[trigger] self.stack()@[k],
            ) by {
                if k < old(self).stack()@.len() {
                    assert(old(self).builder().body().live(old(self).stack()@[k]));
                }
            }
            self.lemma_step(old(self));
        }
    }

    /// Puts the values of `values` on top of the stack, the last one topmost.
    pub fn push_operands(&mut self, values: &Vec<Value>)
        requires
            old(self).wf(),
            !old(self).finished(),
            old(self).builder().body().all_live(values@),
        ensures
            final(self).wf(),
            final(self).builder() == old(self).builder(),
            final(self).frames() == old(self).frames(),
            final(self).current() == old(self).current(),
            final(self).polymorphic() == old(self).polymorphic(),
            final(self).stack().spec_floor() == old(self).stack().spec_floor(),
            final(self).stack()@ == old(self).stack()@ + values@,
    {
        let mut i: usize = 0;
        while i < values.len()
            invariant
                0 <= i <= values.len(),
                self.wf(),
                !self.finished(),
                self.builder() == old(self).builder(),
                self.builder().body().all_live(values@),
                self.frames() == old(self).frames(),
                self.current() == old(self).current(),
                self.polymorphic() == old(self).polymorphic(),
                self.stack().spec_floor() == old(self).stack().spec_floor(),
                self.stack()@ == old(self).stack()@ + values@.take(i as int),
            decreases values.len() - i,
        {
            self.push_operand(values[i]);
            i += 1;
            proof {
                assert(self.stack()@ =~= old(self).stack()@ + values@.take(i as int));
            }
        }
        proof {
            assert(values@.take(values@.len() as int) =~= values@);
        }
    }

    /// The local variable with the index `index`, where the function has one.
    pub fn local(&self, index: u32) -> (r: Result<Local, TranslateError>)
        ensures
            match r {
                Ok(x) => x.0 == index && self.builder().valid_local(x),
                Err(e) => e == TranslateError::UnknownLocal(index) && index
                    >= self.builder().locals().len(),
            },
    {
        if (index as usize) < self.builder.num_locals() {
            Ok(Local(index as usize))
        } else {
            Err(TranslateError::UnknownLocal(index))
        }
    }
}

impl FunctionTranslator {
    /// True of the translator that [`FunctionTranslator::new`] makes for a
    /// function with the parameters `params`, the further local variables
    /// `locals` and `results` results.
    pub open spec fn begun(&self, params: Seq<Type>, locals: Seq<Type>, results: usize) -> bool {
        &&& self.wf()
        &&& self.frames().len() == 1
        &&& self.frames()[0].arity == results
        &&& self.frames()[0].height == 0
        &&& self.stack()@.len() == 0
        &&& self.current() == Block(0)
        &&& !self.polymorphic()
        &&& self.builder().locals() == params + locals
        &&& self.builder().state().len() == 1
        &&& self.builder().state()[0].sealed
        &&& self.builder().body().blocks()[0].params@.len() == params.len()
        &&& self.builder().body().blocks()[0].preds@.len() == 0
        &&& self.builder().body().insts().len() == locals.len()
        &&& (forall|i: int|
            0 <= i < locals.len() ==> (#[trigger] self.builder().body().insts()[i]).opcode
                == Opcode::Const(0))
        &&& (forall|x: int|
            0 <= x < params.len() + locals.len()
                ==> (#[trigger] self.builder().state()[0].defs@[x]) is Some)
        &&& (forall|x: int|
            0 <= x < params.len() ==> (#[trigger] self.builder().state()[0].defs@[x]) == Some(
                self.builder().body().blocks()[0].params@[x],
            ))
        &&& (forall|x: int|
            0 <= x < locals.len() ==> (#[trigger] self.builder().body().insts()[x]).results@.len() == 1
                && self.builder().state()[0].defs@[params.len() + x] == Some(
                self.builder().body().insts()[x].results@[0],
            ))
        &&& self.builder().body().blocks()[0].insts@.len() == locals.len()
        &&& (forall|x: int|
            0 <= x < locals.len() ==> (#[trigger] self.builder().body().blocks()[0].insts@[x]).0 == x)
        &&& self.blocks_wf()
        &&& self.seals_wf()
    }

    /// The translation of a function with the parameters `params`, the
    /// further local variables `locals`, and `results` results, at its start.
    ///
    /// The body has one block, the entry, which is sealed. Its parameters
    /// are the parameters of the function, which define the first local
    /// variables. Each further local variable is defined by a constant zero
    /// of its type, as the first instructions of the entry. The code is in
    /// one control construct, the function itself, with an empty stack.
    pub fn new(params: &Vec<Type>, locals: &Vec<Type>, results: usize) -> (t: Self)
        ensures
            t.begun(params@, locals@, results),
    {
        let mut all: Vec<Type> = Vec::new();
        let mut i: usize = 0;
        while i < params.len()
            invariant
                0 <= i <= params.len(),
                all@ == params@.take(i as int),
            decreases params.len() - i,
        {
            all.push(params[i]);
            i += 1;
            proof {
                assert(all@ =~= params@.take(i as int));
            }
        }
        let mut k: usize = 0;
        while k < locals.len()
            invariant
                0 <= k <= locals.len(),
                all@ == params@ + locals@.take(k as int),
            decreases locals.len() - k,
        {
            all.push(locals[k]);
            k += 1;
            proof {
                assert(all@ =~= params@ + locals@.take(k as int));
            }
        }
        proof {
            assert(all@ =~= params@ + locals@);
        }
        let total = all.len();
        let mut builder = SsaBuilder::new(all);
        let (entry, values) = builder.create_block_with_params(params);
        match builder.seal_block(entry) {
            Ok(_) => {},
            Err(_) => {
                proof {
                    assert(false);
                }
            },
        }
        proof {
            assert(builder.block_wf(0));
        }
        let mut x: usize = 0;
        while x < params.len()
            invariant
                0 <= x <= params.len(),
                builder.wf(),
                entry == Block(0),
                builder.state().len() == 1,
                builder.state()[0].sealed,
                builder.locals() == params@ + locals@,
                builder.body().insts().len() == 0,
                builder.body().blocks()[0].insts@.len() == 0,
                builder.body().blocks()[0].params@.len() == params@.len(),
                builder.body().blocks()[0].preds@.len() == 0,
                values@.len() == params@.len(),
                builder.body().all_live(values@),
                builder.state()[0].defs@.len() == params@.len() + locals@.len(),
                forall|y: int| 0 <= y < x ==> (#[trigger] builder.state()[0].defs@[y]) is Some,
                values@ == builder.body().blocks()[0].params@,
                forall|y: int| 0 <= y < x ==> (#[trigger] builder.state()[0].defs@[y]) == Some(values@[y]),
            decreases params.len() - x,
        {
            let ghost prev = builder;
            builder.define_local(entry, Local(x), values[x]);
            proof {
                assert forall|y: int| 0 <= y < x + 1 implies (#[trigger] builder.state()[0].defs@[y])
                    == Some(values@[y]) by {
                    if y < x {
                        assert(prev.state()[0].defs@[y] == Some(values@[y]));
                    }
                }
            }
            x += 1;
        }
        let n = params.len();
        let mut j: usize = 0;
        while j < locals.len()
            invariant
                0 <= j <= locals.len(),
                n == params@.len(),
                total == params@.len() + locals@.len(),
                builder.wf(),
                entry == Block(0),
                builder.state().len() == 1,
                builder.state()[0].sealed,
                builder.locals() == params@ + locals@,
                builder.body().insts().len() == j,
                builder.body().blocks()[0].params@.len() == params@.len(),
                builder.body().blocks()[0].preds@.len() == 0,
                builder.state()[0].defs@.len() == params@.len() + locals@.len(),
                forall|y: int| 0 <= y < n + j ==> (#[trigger] builder.state()[0].defs@[y]) is Some,
                forall|i: int| 0 <= i < j ==> (#[trigger] builder.body().insts()[i]).opcode
                    == Opcode::Const(0),
                builder.body().blocks()[0].insts@.len() == j,
                forall|i: int| 0 <= i < j ==> (#[trigger] builder.body().blocks()[0].insts@[i]).0 == i,
                forall|y: int|
                    0 <= y < n ==> (#[trigger] builder.state()[0].defs@[y]) == Some(
                        builder.body().blocks()[0].params@[y],
                    ),
                forall|i: int|
                    0 <= i < j ==> (#[trigger] builder.body().insts()[i]).results@.len() == 1
                        && builder.state()[0].defs@[n + i] == Some(builder.body().insts()[i].results@[0]),
            decreases locals.len() - j,
        {
            let mut types: Vec<Type> = Vec::new();
            types.push(locals[j]);
            let ghost prev = builder;
            let inst = builder.ins(entry, Opcode::Const(0), Vec::new(), &types);
            let count = builder.body_ref().num_values();
            let v = builder.body_ref().inst(inst).results[0];
            proof {
                assert(count == prev.body().values().len() + 1);
                assert(v.0 == prev.body().values().len());
                assert(builder.body().values()[v.0 as int] == ValueData::Result { ty: types@[0], inst });
                assert(builder.block_wf(0));
                assert(prev.block_wf(0));
            }
            let ghost made = builder;
            builder.define_local(entry, Local(n + j), v);
            proof {
                assert forall|y: int| 0 <= y < n implies (#[trigger] builder.state()[0].defs@[y]) == Some(
                    builder.body().blocks()[0].params@[y],
                ) by {
                    assert(prev.state()[0].defs@[y] == Some(prev.body().blocks()[0].params@[y]));
                    assert(made.state()[0].defs@[y] == prev.state()[0].defs@[y]);
                }
                assert forall|i: int| 0 <= i < j + 1 implies (#[trigger] builder.body().insts()[i]).results@.len()
                    == 1 && builder.state()[0].defs@[n + i] == Some(
                    builder.body().insts()[i].results@[0],
                ) by {
                    if i < j {
                        assert(builder.body().insts()[i] == prev.body().insts()[i]);
                        assert(prev.body().insts()[i].results@.len() == 1);
                        assert(made.state()[0].defs@[n + i] == prev.state()[0].defs@[n + i]);
                    }
                }
                assert forall|i: int| 0 <= i < j + 1 implies (#[trigger] builder.body().insts()[i]).opcode
                    == Opcode::Const(0) by {
                    if i < j {
                        assert(builder.body().insts()[i] == prev.body().insts()[i]);
                    }
                }
            }
            j += 1;
        }
        let mut frames: Vec<ControlFrame> = Vec::new();
        frames.push(
            ControlFrame {
                kind: FrameKind::Function,
                following: entry,
                header: entry,
                else_block: entry,
                height: 0,
                arity: results,
                results: Vec::new(),
            },
        );
        let t = FunctionTranslator { builder, stack: OperandStack::new(), frames, current: entry,
            polymorphic: false };
        proof {
            assert(t.frame_wf(0));
            let body = t.builder().body();
            assert forall|i: int| 0 <= i < body.blocks()[0].insts@.len()
                implies !#[trigger] body.terminator_at(0, i) by {
                assert(body.blocks()[0].insts@[i].0 == i);
                assert(body.insts()[i].opcode == Opcode::Const(0));
            }
        }
        t
    }

    /// What [`FunctionTranslator::apply`] does to `before`, with `self`
    /// as what comes of it and `r` as its result.
    ///
    /// One instruction is added, the last of the current block, with the
    /// opcode, without targets, and with as many operands and results as
    /// asked for. The operands are the top of the stack, in stack order,
    /// where the control construct has that many. They are taken off the
    /// stack, as far as the construct has them, and the results are put on
    /// it. Everything else stays. Without enough operands, code that can run
    /// is defective, and nothing changes.
    pub open spec fn applied(
        &self,
        before: &FunctionTranslator,
        opcode: Opcode,
        operands: nat,
        result_types: Seq<Type>,
        r: Result<Inst, TranslateError>,
    ) -> bool {
        &&& (match before.operands_refusal(operands) {
            Some(e) => r matches Err(x) && x == e && *self == *before,
            None => r is Ok,
        })
        &&& (match r {
            Ok(n) => {
                let taken = if operands <= before.stack().available() {
                    operands as int
                } else {
                    before.stack().available()
                };
                let data = self.builder().body().insts()[n.0 as int];
                let current = before.current().0 as int;
                &&& self.wf()
                &&& self.builder().extends(&before.builder())
                &&& self.frames() == before.frames()
                &&& self.current() == before.current()
                &&& self.polymorphic() == before.polymorphic()
                &&& self.builder().state() == before.builder().state()
                &&& n.0 == before.builder().body().insts().len()
                &&& self.builder().body().insts().len() == n.0 + 1
                &&& forall|k: int|
                    0 <= k < n.0 ==> #[trigger] self.builder().body().insts()[k]
                        == before.builder().body().insts()[k]
                &&& data.opcode == opcode
                &&& data.block == before.current()
                &&& data.args@.len() == operands
                &&& data.targets@.len() == 0
                &&& data.results@.len() == result_types.len()
                &&& operands <= before.stack().available() ==> data.args@ == before.stack()@.skip(
                    before.stack()@.len() - operands,
                )
                &&& self.stack()@ == before.stack()@.take(before.stack()@.len() - taken) + data.results@
                &&& self.builder().body().blocks().len() == before.builder().body().blocks().len()
                &&& forall|j: int|
                    0 <= j < before.builder().body().blocks().len() && j != current
                        ==> #[trigger] self.builder().body().blocks()[j]
                        == before.builder().body().blocks()[j]
                &&& self.builder().body().blocks()[current].insts@
                    == before.builder().body().blocks()[current].insts@.push(
                    n,
                )
                &&& self.builder().body().blocks()[current].params
                    == before.builder().body().blocks()[current].params
                &&& self.builder().body().blocks()[current].preds
                    == before.builder().body().blocks()[current].preds
            },
            Err(e) => e == TranslateError::StackUnderflow && operands > before.stack().available()
                && !before.polymorphic(),
        })
    }

    /// Translates an operator that takes `operands` operands off the stack
    /// and puts its results on it: one instruction with the opcode `opcode`
    /// goes to the current block, with the operands in the order in which
    /// they stood on the stack, and with one result of each type of
    /// `result_types`. Code that can never run gets stand-ins for the
    /// operands that its control construct lacks.
    pub fn apply(&mut self, opcode: Opcode, operands: usize, result_types: &Vec<Type>) -> (r: Result<
        Inst,
        TranslateError,
    >)
        requires
            old(self).wf(),
            !old(self).finished(),
        ensures
            final(self).applied(old(self), opcode, operands as nat, result_types@, r),
            r is Ok && old(self).blocks_wf() && !opcode.spec_is_terminator() ==> final(self).blocks_wf(),
            r is Ok && old(self).seals_wf() ==> final(self).seals_wf(),
    {
        let args = match self.pop_operands(operands) {
            Ok(args) => args,
            Err(e) => {
                return Err(e);
            },
        };
        let ghost mid = *self;
        let ghost taken = args@;
        let n = self.emit(opcode, args, result_types);
        let mut results: Vec<Value> = Vec::new();
        let data = self.builder.body_ref().inst(n);
        let count = data.results.len();
        let mut i: usize = 0;
        while i < count
            invariant
                0 <= i <= count,
                count == data.results@.len(),
                results@ == data.results@.take(i as int),
            decreases count - i,
        {
            results.push(data.results[i]);
            i += 1;
            proof {
                assert(results@ =~= data.results@.take(i as int));
            }
        }
        proof {
            assert(data.results@.take(count as int) =~= data.results@);
            assert(self.builder().body().inst_wf(n.0 as int));
            assert forall|k: int| 0 <= k < results@.len()
                implies self.builder().body().live(#[trigger] results@[k]) by {
                assert(self.builder().body().is_result_of(data.results@[k], n.0 as int));
            }
            self.builder().lemma_extends_trans(&mid.builder(), &old(self).builder());
        }
        self.push_operands(&results);
        proof {
            if old(self).seals_wf() {
                self.lemma_seals_grown(old(self));
            }
            if old(self).blocks_wf() && !opcode.spec_is_terminator() {
                let body = self.builder().body();
                let old_body = old(self).builder().body();
                let c = self.current().0 as int;
                assert forall|b: int| 0 <= b < body.blocks().len() && b != c implies if self.pending(b) {
                    (#[trigger] body.blocks()[b]).insts@.len() == 0
                } else {
                    body.terminated(b)
                } by {
                    body.lemma_block_kept(&old_body, b);
                    assert(old_body.blocks()[b].insts@.len() >= 0);
                    assert(self.pending(b) == old(self).pending(b));
                }
                body.lemma_block_appended(&old_body, c, n);
                assert(self.pending(c) == old(self).pending(c));
            }
        }
        Ok(n)
    }

    /// What [`FunctionTranslator::translate_drop`] does to `before`, with `self`
    /// as what comes of it and `r` as its result.
    pub open spec fn dropped(&self, before: &FunctionTranslator, r: Result<(), TranslateError>) -> bool {
        &&& (match before.operands_refusal(1) {
            Some(e) => r matches Err(x) && x == e && *self == *before,
            None => r is Ok,
        })
        &&& (match r {
            Ok(_) => {
                &&& self.wf()
                &&& self.builder().extends(&before.builder())
                &&& self.frames() == before.frames()
                &&& self.current() == before.current()
                &&& self.polymorphic() == before.polymorphic()
                &&& self.builder().state() == before.builder().state()
                &&& self.builder().body().insts() == before.builder().body().insts()
                &&& self.builder().body().blocks() == before.builder().body().blocks()
                &&& self.stack()@ == (if before.stack().available() > 0 {
                    before.stack()@.drop_last()
                } else {
                    before.stack()@
                })
            },
            Err(e) => e == TranslateError::StackUnderflow && before.stack().available() == 0
                && !before.polymorphic(),
        })
        &&& (r is Ok && before.blocks_wf() ==> self.blocks_wf())
        &&& (r is Ok && before.seals_wf() ==> self.seals_wf())
        &&& (r is Ok ==> self.code_grown(before, 0))
    }

    /// Translates `drop`: takes the top operand off the stack.
    pub fn translate_drop(&mut self) -> (r: Result<(), TranslateError>)
        requires
            old(self).wf(),
            !old(self).finished(),
        ensures
            final(self).dropped(old(self), r),
    {
        match self.pop_operand() {
            Ok(_) => {
                proof {
                    if old(self).blocks_wf() {
                        self.lemma_blocks_untouched(old(self));
                    }
                }
                Ok(())
            },
            Err(e) => Err(e),
        }
    }

    /// What [`FunctionTranslator::translate_local_get`] does to `before`, with `self`
    /// as what comes of it and `r` as its result.
    pub open spec fn local_read(
        &self,
        before: &FunctionTranslator,
        index: u32,
        r: Result<(), TranslateError>,
    ) -> bool {
        &&& (match before.local_refusal(index) {
            Some(e) => r matches Err(x) && x == e && *self == *before,
            None => r is Ok || r matches Err(TranslateError::UndefinedLocal { .. }),
        })
        &&& (match r {
            Ok(_) => {
                &&& self.wf()
                &&& index < before.builder().locals().len()
                &&& self.builder().extends(&before.builder())
                &&& self.frames() == before.frames()
                &&& self.current() == before.current()
                &&& self.polymorphic() == before.polymorphic()
                &&& self.stack()@.len() == before.stack()@.len() + 1
                &&& self.stack()@.drop_last() == before.stack()@
                &&& before.builder().lookup_outcome(
                    before.current(),
                    Local(index as usize),
                    Ok(self.stack()@.last()),
                    &self.builder(),
                )
            },
            Err(TranslateError::UnknownLocal(i)) => i == index && index
                >= before.builder().locals().len(),
            Err(TranslateError::UndefinedLocal { block, local }) => {
                &&& local.0 == index
                &&& index < before.builder().locals().len()
                &&& before.builder().lookup_outcome(
                    before.current(),
                    local,
                    Err(SsaError::UndefinedLocal { block, local }),
                    &self.builder(),
                )
                &&& self.stack() == before.stack()
                &&& self.frames() == before.frames()
                &&& self.current() == before.current()
                &&& self.polymorphic() == before.polymorphic()
            },
            Err(_) => false,
        })
        &&& (r is Ok ==> self.builder().same_insts(&before.builder()))
        &&& (r is Ok && before.builder().no_merge_points() ==> self.builder()
            == before.builder())
        &&& (r is Ok && before.blocks_wf() ==> self.blocks_wf())
        &&& (r is Ok && before.seals_wf() ==> self.seals_wf())
        &&& (r is Ok ==> self.code_grown(before, 0))
    }

    /// Translates `local.get`: puts the definition of the local variable
    /// that reaches the current block on the stack.
    ///
    /// An index that names no local variable is a defect, and nothing
    /// changes. The only other defect is that no definition reaches the
    /// block: [`SsaBuilder::lookup_outcome`] says when.
    pub fn translate_local_get(&mut self, index: u32) -> (r: Result<(), TranslateError>)
        requires
            old(self).wf(),
            !old(self).finished(),
        ensures
            final(self).local_read(old(self), index, r),
    {
        let x = match self.local(index) {
            Ok(x) => x,
            Err(e) => {
                return Err(e);
            },
        };
        let v = match self.builder.use_local(self.current, x) {
            Ok(v) => v,
            Err(SsaError::UndefinedLocal { block, local }) => {
                return Err(TranslateError::UndefinedLocal { block, local: x });
            },
        };
        proof {
            assert forall|k: int| 0 <= k < self.stack()@.len() implies self.builder().body().live(
                #[trigger] self.stack()@[k],
            ) by {
                assert(old(self).builder().body().live(old(self).stack()@[k]));
            }
            self.lemma_step(old(self));
        }
        self.push_operand(v);
        proof {
            assert(self.stack()@.drop_last() =~= old(self).stack()@);
            if old(self).blocks_wf() {
                self.lemma_blocks_untouched(old(self));
            }
        }
        Ok(())
    }

    /// What [`FunctionTranslator::translate_local_set`] does to `before`, with `self`
    /// as what comes of it and `r` as its result.
    pub open spec fn local_written(
        &self,
        before: &FunctionTranslator,
        index: u32,
        keep: bool,
        r: Result<(), TranslateError>,
    ) -> bool {
        &&& (match before.set_refusal(index) {
            Some(e) => r matches Err(x) && x == e && *self == *before,
            None => r is Ok,
        })
        &&& (match r {
            Ok(_) => {
                &&& self.wf()
                &&& index < before.builder().locals().len()
                &&& self.builder().extends(&before.builder())
                &&& self.frames() == before.frames()
                &&& self.current() == before.current()
                &&& self.polymorphic() == before.polymorphic()
                &&& self.builder().body().insts() == before.builder().body().insts()
                &&& self.builder().body().blocks() == before.builder().body().blocks()
                &&& self.builder().state().len() == before.builder().state().len()
                &&& forall|j: int|
                    0 <= j < before.builder().state().len() && j != before.current().0
                        ==> #[trigger] self.builder().state()[j] == before.builder().state()[j]
                &&& forall|x: int|
                    0 <= x < before.builder().locals().len() && x != index ==> (
                    #[trigger] self.builder().state()[before.current().0 as int].defs@[x])
                        == before.builder().state()[before.current().0 as int].defs@[x]
                &&& self.builder().state()[before.current().0 as int].defs@[index as int] matches Some(
                    v,
                ) && if before.stack().available() > 0 {
                    &&& v == before.stack()@.last()
                    &&& self.stack()@ == (if keep {
                        before.stack()@
                    } else {
                        before.stack()@.drop_last()
                    })
                } else {
                    &&& v.0 == before.builder().body().values().len()
                    &&& self.stack()@ == (if keep {
                        before.stack()@.push(v)
                    } else {
                        before.stack()@
                    })
                }
            },
            Err(TranslateError::UnknownLocal(i)) => i == index && index
                >= before.builder().locals().len(),
            Err(TranslateError::StackUnderflow) => index < before.builder().locals().len()
                && before.stack().available() == 0 && !before.polymorphic(),
            Err(_) => false,
        })
        &&& (r is Ok && before.blocks_wf() ==> self.blocks_wf())
        &&& (r is Ok && before.seals_wf() ==> self.seals_wf())
        &&& (r is Ok ==> self.code_grown(before, 0))
    }

    /// Translates `local.set`, and `local.tee` where `keep` is true: makes
    /// the top operand the definition of the local variable in the current
    /// block, and takes it off the stack unless it is to be kept.
    pub fn translate_local_set(&mut self, index: u32, keep: bool) -> (r: Result<(), TranslateError>)
        requires
            old(self).wf(),
            !old(self).finished(),
        ensures
            final(self).local_written(old(self), index, keep, r),
    {
        let x = match self.local(index) {
            Ok(x) => x,
            Err(e) => {
                return Err(e);
            },
        };
        let v = match self.pop_operand() {
            Ok(v) => v,
            Err(e) => {
                return Err(e);
            },
        };
        let ghost mid = *self;
        proof {
            assert(mid.builder().block_wf(mid.current().0 as int));
        }
        self.builder.define_local(self.current, x, v);
        proof {
            assert(self.builder().extends(&mid.builder())) by {
                assert forall|j: int| 0 <= j < mid.builder().state().len() implies (
                #[trigger] self.builder().state()[j]).sealed == mid.builder().state()[j].sealed by {}
                assert forall|j: int|
                    0 <= j < mid.builder().state().len() && !mid.builder().state()[j].sealed
                        implies #[trigger] self.builder().resolved(
                    j,
                ) == mid.builder().resolved(j) by {
                    assert(self.builder().state()[j].incomplete == mid.builder().state()[j].incomplete);
                }
            }
            self.lemma_step(&mid);
            self.builder().lemma_extends_trans(&mid.builder(), &old(self).builder());
        }
        if keep {
            self.push_operand(v);
            proof {
                if old(self).stack().available() > 0 {
                    assert(self.stack()@ =~= old(self).stack()@);
                }
            }
        }
        proof {
            if old(self).blocks_wf() {
                self.lemma_blocks_untouched(old(self));
            }
        }
        Ok(())
    }
}

/// A copy of `values`.
pub fn copy_values(values: &Vec<Value>) -> (r: Vec<Value>)
    ensures
        r@ == values@,
{
    let mut r: Vec<Value> = Vec::new();
    let mut i: usize = 0;
    while i < values.len()
        invariant
            0 <= i <= values.len(),
            r@ == values@.take(i as int),
        decreases values.len() - i,
    {
        r.push(values[i]);
        i += 1;
        proof {
            assert(r@ =~= values@.take(i as int));
        }
    }
    proof {
        assert(values@.take(values@.len() as int) =~= values@);
    }
    r
}

/// True when the control construct `g` is `f` with the values of `results`
/// as its results.
pub open spec fn frame_with_results(f: ControlFrame, g: ControlFrame, results: Seq<Value>) -> bool {
    &&& g.kind == f.kind
    &&& g.following == f.following
    &&& g.header == f.header
    &&& g.else_block == f.else_block
    &&& g.height == f.height
    &&& g.arity == f.arity
    &&& g.results@ == results
}

impl FunctionTranslator {
    /// Adds a block that nothing enters and makes it the current block, for
    /// code that can never run: the block is sealed, and a stand-in defines
    /// every local variable in it. Such code may take operands that are not
    /// there.
    pub fn go_dead(&mut self)
        requires
            old(self).wf(),
        ensures
            final(self).wf(),
            final(self).builder().extends(&old(self).builder()),
            final(self).frames() == old(self).frames(),
            final(self).stack() == old(self).stack(),
            final(self).polymorphic(),
            final(self).current().0 == old(self).builder().state().len(),
            final(self).builder().state().len() == old(self).builder().state().len() + 1,
            final(self).builder().body().insts() == old(self).builder().body().insts(),
            forall|j: int|
                0 <= j < old(self).builder().state().len()
                    ==> #[trigger] final(self).builder().body().blocks()[j]
                    == old(self).builder().body().blocks()[j],
            final(self).builder().body().blocks()[final(self).current().0 as int].preds@.len() == 0,
            final(self).builder().body().blocks()[final(self).current().0 as int].insts@.len() == 0,
            final(self).builder().body().blocks()[final(self).current().0 as int].params@.len() == 0,
            final(self).builder().state()[final(self).current().0 as int].sealed,
            exists|v: Value|
                0 <= v.0 < final(self).builder().body().values().len()
                    && #[trigger] final(self).builder().body().values()[v.0 as int]
                    == crate::ir::ValueData::Placeholder && forall|x: int|
                    0 <= x < old(self).builder().locals().len() ==> (
                    #[trigger] final(self).builder().state()[final(self).current().0 as int].defs@[x])
                        == Some(v),
    {
        let empty: Vec<Type> = Vec::new();
        let (b, _) = self.builder.create_block_with_params(&empty);
        let ghost created = self.builder;
        match self.builder.seal_block(b) {
            Ok(_) => {},
            Err(_) => {
                proof {
                    assert(false);
                }
            },
        }
        proof {
            assert(self.builder().keeps_live(&created)) by {
                assert forall|v: Value| created.body().live(v) implies self.builder().body().live(v) by {
                    assert(self.builder().body() == created.body());
                }
            }
            self.builder().lemma_extends_after_seal(&created, &old(self).builder(), b);
        }
        let ghost sealed = self.builder;
        let v = self.builder.make_placeholder();
        proof {
            self.builder().lemma_extends_same_state(&sealed);
            self.builder().lemma_extends_trans(&sealed, &old(self).builder());
        }
        let n = self.builder.num_locals();
        let mut x: usize = 0;
        while x < n
            invariant
                0 <= x <= n,
                n == self.builder().locals().len(),
                self.builder().extends(&old(self).builder()),
                self.builder().valid_block(b),
                self.builder().body().live(v),
                b.0 == old(self).builder().state().len(),
                self.builder().state().len() == old(self).builder().state().len() + 1,
                self.builder().body().insts() == old(self).builder().body().insts(),
                forall|j: int|
                    0 <= j < old(self).builder().state().len()
                        ==> #[trigger] self.builder().body().blocks()[j]
                        == old(self).builder().body().blocks()[j],
                self.builder().body().blocks()[b.0 as int].preds@.len() == 0,
                self.builder().body().blocks()[b.0 as int].insts@.len() == 0,
                self.builder().body().blocks()[b.0 as int].params@.len() == 0,
                self.builder().state()[b.0 as int].sealed,
                self.frames() == old(self).frames(),
                self.stack() == old(self).stack(),
                0 <= v.0 < self.builder().body().values().len(),
                self.builder().body().values()[v.0 as int] == crate::ir::ValueData::Placeholder,
                forall|y: int|
                    0 <= y < x ==> (#[trigger] self.builder().state()[b.0 as int].defs@[y]) == Some(v),
            decreases n - x,
        {
            let ghost prev = self.builder;
            self.builder.define_local(b, Local(x), v);
            proof {
                assert(prev.block_wf(b.0 as int));
                assert forall|y: int| 0 <= y < x + 1 implies (
                #[trigger] self.builder().state()[b.0 as int].defs@[y]) == Some(v) by {
                    if y < x {
                        assert(prev.state()[b.0 as int].defs@[y] == Some(v));
                    }
                }
                assert(self.builder().extends(&prev)) by {
                    assert forall|j: int| 0 <= j < prev.state().len() && !prev.state()[j].sealed
                        implies #[trigger] self.builder().resolved(
                        j,
                    ) == prev.resolved(j) by {
                        assert(self.builder().state()[j].incomplete == prev.state()[j].incomplete);
                    }
                }
                self.builder().lemma_extends_trans(&prev, &old(self).builder());
            }
            x += 1;
        }
        self.current = b;
        self.polymorphic = true;
        proof {
            assert forall|k: int| 0 <= k < self.stack()@.len() implies self.builder().body().live(
                #[trigger] self.stack()@[k],
            ) by {
                assert(old(self).builder().body().live(old(self).stack()@[k]));
            }
            self.lemma_step(old(self));
        }
    }

    /// True when the instructions of `before` stand in `self`, each with
    /// the opcode and with as many targets as it has there.
    pub open spec fn insts_kept(&self, before: &FunctionTranslator) -> bool {
        let body = self.builder().body();
        let old_body = before.builder().body();
        &&& old_body.insts().len() <= body.insts().len()
        &&& forall|k: int|
            0 <= k < old_body.insts().len() ==> (#[trigger] body.insts()[k]).opcode
                == old_body.insts()[k].opcode
                && body.insts()[k].targets@.len() == old_body.insts()[k].targets@.len()
    }

    /// True when none of the instructions from place `from` on is a
    /// conditional branch or a branch table.
    pub open spec fn plain_from(&self, from: int) -> bool {
        forall|k: int|
            from <= k < self.builder().body().insts().len() ==> !((#[trigger] self.builder().body().insts()[
                k
            ]).opcode is CondBr) && !(self.builder().body().insts()[k].opcode is BrTable)
    }

    /// True when `self` keeps the instructions of `before`, and the
    /// instructions behind them, but for the first `branches` of them, are
    /// neither conditional branches nor branch tables.
    pub open spec fn code_grown(&self, before: &FunctionTranslator, branches: int) -> bool {
        self.insts_kept(before) && self.plain_from(before.builder().body().insts().len() + branches)
    }

    /// True when the operands on the stack and the results of the control
    /// constructs are those of `before` after the replacements of `out`.
    pub open spec fn renamed_from(&self, before: &FunctionTranslator, out: Seq<(Value, Value)>) -> bool {
        &&& self.stack()@ == renamed_all(out, before.stack()@)
        &&& self.frames().len() == before.frames().len()
        &&& forall|i: int|
            0 <= i < before.frames().len() ==> (#[trigger] self.frames()[i]).results@ == renamed_all(
                out,
                before.frames()[i].results@,
            )
    }

    /// True when block `b` is not one that a control construct around the
    /// code keeps open for further predecessors.
    pub open spec fn closable(&self, b: Block) -> bool {
        forall|i: int|
            0 < i < self.frames().len() ==> (#[trigger] self.frames()[i]).following != b
                && self.frames()[i].header
                != b
    }

    /// Seals block `b` and makes, on the stack, in the results of the
    /// control constructs and in `extra`, the replacements that this brings:
    /// see [`SsaBuilder::seal_block`].
    pub fn seal_renaming(&mut self, b: Block, extra: &mut Vec<Value>) -> (r: Result<(), TranslateError>)
        requires
            old(self).wf(),
            old(self).builder().valid_block(b),
            old(self).closable(b),
            old(self).builder().body().all_live(old(extra)@),
        ensures
            match r {
                Ok(_) => {
                    &&& final(self).wf()
                    &&& final(self).builder().sealed_from(&old(self).builder(), b)
                    &&& final(self).builder().body().all_live(final(extra)@)
                    &&& final(extra)@.len() == old(extra)@.len()
                    &&& final(self).frames().len() == old(self).frames().len()
                    &&& forall|i: int|
                        0 <= i < old(self).frames().len() ==> frame_with_results(
                            old(self).frames()[i],
                            #[trigger] final(self).frames()[i],
                            final(self).frames()[i].results@,
                        ) && final(self).frames()[i].results@.len() == old(self).frames()[i].results@.len()
                    &&& final(self).current() == old(self).current()
                    &&& final(self).polymorphic() == old(self).polymorphic()
                    &&& final(self).stack()@.len() == old(self).stack()@.len()
                    &&& final(self).stack().spec_floor() == old(self).stack().spec_floor()
                    &&& exists|out: Seq<(Value, Value)>| #[trigger]
                        old(self).builder().sealing(b, Ok(out), &final(self).builder())
                            && final(self).renamed_from(old(self), out)
                            && final(extra)@ == renamed_all(out, old(extra)@)
                    &&& old(self).builder().state()[b.0 as int].incomplete@.len() == 0 ==> {
                        &&& final(self).builder().body() == old(self).builder().body()
                        &&& final(self).stack() == old(self).stack()
                        &&& final(self).frames() == old(self).frames()
                        &&& final(extra)@ == old(extra)@
                    }
                },
                Err(e) => {
                    &&& e matches TranslateError::UndefinedLocal { block, local } && old(
                        self,
                    ).builder().sealing(
                        b,
                        Err(SsaError::UndefinedLocal { block, local }),
                        &final(self).builder(),
                    )
                    &&& final(self).stack() == old(self).stack()
                    &&& final(self).frames() == old(self).frames()
                    &&& final(self).current() == old(self).current()
                    &&& final(self).polymorphic() == old(self).polymorphic()
                    &&& final(extra)@ == old(extra)@
                },
            },
            old(self).builder().state()[b.0 as int].incomplete@.len() == 0 ==> r is Ok
                && final(self).builder().state()[b.0 as int].incomplete@.len()
                == 0 && forall|j: int|
                0 <= j < old(self).builder().state().len() && j != b.0
                    ==> #[trigger] final(self).builder().state()[j]
                    == old(self).builder().state()[j],
    {
        let out = match self.builder.seal_block(b) {
            Ok(out) => out,
            Err(SsaError::UndefinedLocal { block, local }) => {
                return Err(TranslateError::UndefinedLocal { block, local });
            },
        };
        let ghost sealed = self.builder;
        let ghost stack0 = old(self).stack()@;
        let ghost extra0 = old(extra)@;
        let ghost frames0 = old(self).frames();
        let n = self.frames.len();
        proof {
            lemma_renamed_step_zero(out@, stack0);
            lemma_renamed_step_zero(out@, extra0);
            assert forall|i: int| 0 <= i < n implies frame_with_results(
                frames0[i],
                #[trigger] self.frames()[i],
                renamed_all(out@.take(0), frames0[i].results@),
            ) by {
                lemma_renamed_step_zero(out@, frames0[i].results@);
            }
        }
        let mut k: usize = 0;
        while k < out.len()
            invariant
                0 <= k <= out@.len(),
                n == frames0.len(),
                self.builder() == sealed,
                self.frames().len() == n,
                k == 0 ==> self.frames() == old(self).frames() && self.stack() == old(self).stack(),
                self.current() == old(self).current(),
                self.polymorphic() == old(self).polymorphic(),
                self.stack().spec_floor() == old(self).stack().spec_floor(),
                self.stack()@ == renamed_all(out@.take(k as int), stack0),
                extra@ == renamed_all(out@.take(k as int), extra0),
                forall|i: int|
                    0 <= i < n ==> frame_with_results(
                        frames0[i],
                        #[trigger] self.frames()[i],
                        renamed_all(out@.take(k as int), frames0[i].results@),
                    ),
            decreases out@.len() - k,
        {
            let pair = out[k];
            let p = pair.0;
            let v = pair.1;
            self.stack.replace(p, v);
            substitute_in(extra, p, v);
            proof {
                lemma_renamed_step(out@, k as int, stack0);
                lemma_renamed_step(out@, k as int, extra0);
            }
            let mut i: usize = 0;
            while i < n
                invariant
                    0 <= i <= n,
                    0 <= k < out@.len(),
                    n == frames0.len(),
                    self.builder() == sealed,
                    self.frames().len() == n,
                    p == out@[k as int].0,
                    v == out@[k as int].1,
                    self.current() == old(self).current(),
                    self.polymorphic() == old(self).polymorphic(),
                    self.stack().spec_floor() == old(self).stack().spec_floor(),
                    self.stack()@ == renamed_all(out@.take(k + 1), stack0),
                    extra@ == renamed_all(out@.take(k + 1), extra0),
                    forall|j: int|
                        0 <= j < i ==> frame_with_results(
                            frames0[j],
                            #[trigger] self.frames()[j],
                            renamed_all(out@.take(k + 1), frames0[j].results@),
                        ),
                    forall|j: int|
                        i <= j < n ==> frame_with_results(
                            frames0[j],
                            #[trigger] self.frames()[j],
                            renamed_all(out@.take(k as int), frames0[j].results@),
                        ),
                decreases n - i,
            {
                substitute_in(&mut self.frames[i].results, p, v);
                proof {
                    lemma_renamed_step(out@, k as int, frames0[i as int].results@);
                }
                i += 1;
            }
            k += 1;
        }
        proof {
            let out_seq = out@;
            assert(out_seq.take(out_seq.len() as int) =~= out_seq);
            self.lemma_sealed(old(self), b, out_seq, extra0, extra@);
            if old(self).builder().state()[b.0 as int].incomplete@.len() == 0 {
                assert(extra@ =~= extra0);
                assert(k == 0);
            }
        }
        Ok(())
    }
}

/// No replacement leaves a sequence as it is.
proof fn lemma_renamed_step_zero(subst: Seq<(Value, Value)>, s: Seq<Value>)
    ensures
        renamed_all(subst.take(0), s) == s,
{
    assert(renamed_all(subst.take(0), s) =~= s);
}

impl FunctionTranslator {
    /// After a block that no control construct keeps open has been sealed,
    /// and the replacements have been made in what the translation holds,
    /// the translation is well formed.
    proof fn lemma_sealed(
        &self,
        before: &FunctionTranslator,
        b: Block,
        out: Seq<(Value, Value)>,
        extra0: Seq<Value>,
        extra: Seq<Value>,
    )
        requires
            before.wf(),
            before.builder().valid_block(b),
            before.closable(b),
            before.builder().body().all_live(extra0),
            self.builder().wf(),
            self.builder().sealed_from(&before.builder(), b),
            forall|y: Value| before.builder().body().live(y)
                ==> self.builder().body().live(#[trigger] crate::ssa::renamed(out, y)),
            self.frames().len() == before.frames().len(),
            self.current() == before.current(),
            self.stack().spec_floor() == before.stack().spec_floor(),
            self.stack()@ == renamed_all(out, before.stack()@),
            extra == renamed_all(out, extra0),
            forall|i: int|
                0 <= i < before.frames().len() ==> frame_with_results(
                    before.frames()[i],
                    #[trigger] self.frames()[i],
                    renamed_all(out, before.frames()[i].results@),
                ),
        ensures
            self.wf(),
            self.builder().body().all_live(extra),
            extra.len() == extra0.len(),
            self.stack()@.len() == before.stack()@.len(),
            forall|i: int|
                0 <= i < before.frames().len() ==> (#[trigger] self.frames()[i]).results@.len()
                    == before.frames()[i].results@.len(),
    {
        assert forall|k: int| 0 <= k < self.stack()@.len() implies self.builder().body().live(
            #[trigger] self.stack()@[k],
        ) by {
            assert(before.builder().body().live(before.stack()@[k]));
            assert(self.stack()@[k] == crate::ssa::renamed(out, before.stack()@[k]));
        }
        assert forall|k: int| 0 <= k < extra.len()
            implies self.builder().body().live(#[trigger] extra[k]) by {
            assert(before.builder().body().live(extra0[k]));
            assert(extra[k] == crate::ssa::renamed(out, extra0[k]));
        }
        assert forall|i: int| 0 <= i < self.frames().len() implies #[trigger] self.frame_wf(i) by {
            assert(before.frame_wf(i));
            let f = before.frames()[i];
            let g = self.frames()[i];
            assert(frame_with_results(f, g, renamed_all(out, f.results@)));
            assert forall|k: int| 0 <= k < g.results@.len() implies self.builder().body().live(
                #[trigger] g.results@[k],
            ) by {
                assert(before.builder().body().live(f.results@[k]));
                assert(g.results@[k] == crate::ssa::renamed(out, f.results@[k]));
            }
            if i > 0 {
                assert(f.following != b && f.header != b);
                assert(self.builder().state()[f.following.0 as int].sealed
                    == (before.builder().state()[f.following.0 as int].sealed
                    || f.following.0 == b.0));
                assert(self.builder().resolved(f.following.0 as int) == before.builder().resolved(
                    f.following.0 as int,
                ));
                if f.kind is Loop {
                    assert(self.builder().state()[f.header.0 as int].sealed
                        == (before.builder().state()[f.header.0 as int].sealed
                        || f.header.0 == b.0));
                    assert(self.builder().resolved(f.header.0 as int) == before.builder().resolved(
                        f.header.0 as int,
                    ));
                }
            }
        }
        assert forall|i: int, j: int| 0 <= i < j < self.frames().len() implies (
        #[trigger] self.frames()[i]).height <= (#[trigger] self.frames()[j]).height && self.separate(
            i,
            j,
        ) by {
            assert(before.separate(i, j));
            assert(frame_with_results(
                before.frames()[i],
                self.frames()[i],
                renamed_all(out, before.frames()[i].results@),
            ));
            assert(frame_with_results(
                before.frames()[j],
                self.frames()[j],
                renamed_all(out, before.frames()[j].results@),
            ));
        }
        if self.frames().len() > 0 {
            let last = self.frames().len() - 1;
            assert(frame_with_results(
                before.frames()[last],
                self.frames()[last],
                renamed_all(out, before.frames()[last].results@),
            ));
        }
        assert forall|i: int| 0 <= i < before.frames().len()
            implies (#[trigger] self.frames()[i]).results@.len()
            == before.frames()[i].results@.len() by {
            assert(frame_with_results(
                before.frames()[i],
                self.frames()[i],
                renamed_all(out, before.frames()[i].results@),
            ));
        }
    }
}

impl FunctionTranslator {
    /// Gives the branch `n` one more target: an edge into block `dest`,
    /// which is not sealed, with `args` for its parameters.
    pub fn add_branch_target(&mut self, n: Inst, dest: Block, args: Vec<Value>) -> (t: EdgeRef)
        requires
            old(self).wf(),
            old(self).builder().body().valid_inst(n),
            old(self).builder().valid_block(dest),
            !old(self).builder().state()[dest.0 as int].sealed,
            old(self).builder().body().all_live(args@),
            args@.len() == old(self).builder().resolved(dest.0 as int),
        ensures
            final(self).wf(),
            final(self).builder().extends(&old(self).builder()),
            target_added(&old(self).builder().body(), &final(self).builder().body(), n, dest, args, t),
            final(self).builder().state() == old(self).builder().state(),
            final(self).stack() == old(self).stack(),
            final(self).frames() == old(self).frames(),
            final(self).current() == old(self).current(),
            final(self).polymorphic() == old(self).polymorphic(),
    {
        let t = self.builder.add_target(n, dest, args);
        proof {
            assert(self.builder().keeps_live(&old(self).builder())) by {
                assert(self.builder().body().values() == old(self).builder().body().values());
            }
            assert forall|j: int| 0 <= j < old(self).builder().state().len() implies (
            #[trigger] self.builder().body().blocks()[j]).params@
                == old(self).builder().body().blocks()[j].params@ by {}
            self.builder().lemma_extends_same_state(&old(self).builder());
            self.lemma_step(old(self));
        }
        t
    }

    /// Where the builder has grown and one control construct has been
    /// entered, whose blocks are new and which starts at the top of the
    /// stack, the translation is well formed.
    proof fn lemma_frame_pushed(&self, before: &FunctionTranslator)
        requires
            before.wf(),
            !before.finished(),
            self.builder().extends(&before.builder()),
            self.frames().len() == before.frames().len() + 1,
            self.frames().drop_last() == before.frames(),
            self.builder().valid_block(self.current()),
            self.builder().body().all_live(self.stack()@),
            before.frames().last().height <= self.stack()@.len(),
            ({
                let f = self.frames().last();
                let b = self.builder();
                &&& !(f.kind is Function)
                &&& f.height == self.stack()@.len()
                &&& self.stack().spec_floor() == f.height
                &&& b.body().all_live(f.results@)
                &&& f.results@.len() == f.arity
                &&& b.valid_block(f.following)
                &&& b.valid_block(f.header)
                &&& b.valid_block(f.else_block)
                &&& f.following.0 >= before.builder().state().len()
                &&& f.header.0 >= before.builder().state().len()
                &&& f.else_block.0 >= before.builder().state().len()
                &&& !b.state()[f.following.0 as int].sealed
                &&& b.resolved(f.following.0 as int) == f.arity
                &&& (f.kind is Loop ==> !b.state()[f.header.0 as int].sealed
                    && b.resolved(f.header.0 as int) == 0
                    && f.header != f.following)
                &&& (!(f.kind is Loop) ==> f.header == f.following)
                &&& (f.kind is If ==> f.else_block != f.following)
                &&& (!(f.kind is If) ==> f.else_block == f.following)
            }),
        ensures
            self.wf(),
    {
        let n = before.frames().len() as int;
        assert forall|i: int| 0 <= i < self.frames().len() implies #[trigger] self.frame_wf(i) by {
            if i < n {
                assert(self.frames()[i] == before.frames()[i]);
                assert(before.frame_wf(i));
                let f = self.frames()[i];
                assert forall|k: int| 0 <= k < f.results@.len() implies self.builder().body().live(
                    #[trigger] f.results@[k],
                ) by {
                    assert(before.builder().body().live(f.results@[k]));
                }
            }
        }
        assert forall|i: int, j: int| 0 <= i < j < self.frames().len() implies (
        #[trigger] self.frames()[i]).height <= (#[trigger] self.frames()[j]).height && self.separate(
            i,
            j,
        ) by {
            assert(self.frames()[i] == before.frames()[i]);
            assert(before.frame_wf(i));
            if j < n {
                assert(self.frames()[j] == before.frames()[j]);
                assert(before.separate(i, j));
            } else {
                if i < n - 1 {
                    assert(before.frames()[i].height <= before.frames()[n - 1].height);
                }
            }
        }
    }

    /// What [`FunctionTranslator::translate_block`] does to `before`, with `self`
    /// as what comes of it.
    pub open spec fn block_begun(&self, before: &FunctionTranslator, results: &Vec<Type>) -> bool {
        &&& self.wf()
        &&& self.builder().extends(&before.builder())
        &&& self.frames().len() == before.frames().len() + 1
        &&& self.frames().drop_last() == before.frames()
        &&& self.frames().last().kind == FrameKind::Block
        &&& self.frames().last().arity == results@.len()
        &&& self.frames().last().height == before.stack()@.len()
        &&& self.frames().last().following.0 == before.builder().state().len()
        &&& self.builder().state().len() == before.builder().state().len() + 1
        &&& self.builder().body().insts() == before.builder().body().insts()
        &&& self.stack()@ == before.stack()@
        &&& self.current() == before.current()
        &&& self.polymorphic() == before.polymorphic()
        &&& (before.blocks_wf() ==> self.blocks_wf())
        &&& (before.seals_wf() ==> self.seals_wf())
        &&& self.code_grown(before, 0)
        &&& (self.frames().last().results@ == self.builder().params(
            self.frames().last().following.0 as int,
        ))
    }

    /// Translates `block`: enters a block construct that leaves one operand
    /// of each type of `results`. The code behind the construct gets a new
    /// block, with one parameter for each result.
    pub fn translate_block(&mut self, results: &Vec<Type>)
        requires
            old(self).wf(),
            !old(self).finished(),
        ensures
            final(self).block_begun(old(self), results),
    {
        let (following, values) = self.builder.create_block_with_params(results);
        let height = self.stack.height();
        self.frames.push(
            ControlFrame {
                kind: FrameKind::Block,
                following,
                header: following,
                else_block: following,
                height,
                arity: results.len(),
                results: values,
            },
        );
        self.stack.set_floor(height);
        proof {
            assert(self.frames().drop_last() =~= old(self).frames());
            assert forall|k: int| 0 <= k < self.stack()@.len() implies self.builder().body().live(
                #[trigger] self.stack()@[k],
            ) by {
                assert(old(self).builder().body().live(old(self).stack()@[k]));
            }
            self.lemma_frame_pushed(old(self));
            if old(self).blocks_wf() {
                self.lemma_pending_pushed(old(self));
                let body = self.builder().body();
                let old_body = old(self).builder().body();
                assert forall|b: int| 0 <= b < body.blocks().len() && self.pending(b) implies (
                #[trigger] body.blocks()[b]).insts@.len() == 0 by {
                    if old(self).pending(b) {
                        old(self).lemma_pending_is_old(b);
                        assert(body.blocks()[b] == old_body.blocks()[b]);
                    }
                }
                self.lemma_blocks_same_current(old(self));
            }
        }
    }

    /// What [`FunctionTranslator::translate_loop`] does to `before`, with `self`
    /// as what comes of it.
    pub open spec fn loop_begun(&self, before: &FunctionTranslator, results: &Vec<Type>) -> bool {
        &&& self.wf()
        &&& self.builder().extends(&before.builder())
        &&& self.frames().len() == before.frames().len() + 1
        &&& self.frames().drop_last() == before.frames()
        &&& self.frames().last().kind == FrameKind::Loop
        &&& self.frames().last().arity == results@.len()
        &&& self.frames().last().height == before.stack()@.len()
        &&& self.frames().last().header.0 == before.builder().state().len()
        &&& self.frames().last().following.0 == before.builder().state().len() + 1
        &&& self.builder().state().len() == before.builder().state().len() + 2
        &&& self.builder().body().insts().len() == before.builder().body().insts().len() + 1
        &&& self.builder().body().insts().last().opcode == Opcode::Br
        &&& self.builder().body().insts().last().block == before.current()
        &&& (self.builder().body().insts().last().targets@ == seq![
            EdgeRef { block: self.frames().last().header, edge: 0 },
        ])
        &&& self.stack()@ == before.stack()@
        &&& self.current() == self.frames().last().header
        &&& self.polymorphic() == before.polymorphic()
        &&& (before.blocks_wf() ==> self.blocks_wf())
        &&& (before.seals_wf() ==> self.seals_wf())
        &&& self.code_grown(before, 0)
        &&& (self.frames().last().results@ == self.builder().params(
            self.frames().last().following.0 as int,
        ))
    }

    /// Translates `loop`: enters a loop construct that leaves one operand
    /// of each type of `results`. The head of the loop and the code behind
    /// it get new blocks, the current block jumps to the head, and the head
    /// becomes the current block. It is not sealed before the loop ends.
    pub fn translate_loop(&mut self, results: &Vec<Type>)
        requires
            old(self).wf(),
            !old(self).finished(),
        ensures
            final(self).loop_begun(old(self), results),
    {
        let empty: Vec<Type> = Vec::new();
        let (header, _) = self.builder.create_block_with_params(&empty);
        let ghost first = self.builder;
        let (following, values) = self.builder.create_block_with_params(results);
        proof {
            self.builder().lemma_extends_trans(&first, &old(self).builder());
            assert forall|k: int| 0 <= k < self.stack()@.len() implies self.builder().body().live(
                #[trigger] self.stack()@[k],
            ) by {
                assert(old(self).builder().body().live(old(self).stack()@[k]));
            }
            self.lemma_step(old(self));
            assert(self.builder().state()[header.0 as int] == first.state()[header.0 as int]);
            assert(self.builder().body().blocks()[header.0 as int]
                == first.body().blocks()[header.0 as int]);
        }
        let ghost created = *self;
        let n = self.emit(Opcode::Br, Vec::new(), &empty);
        let ghost emitted = *self;
        proof {
            assert(self.builder().body().blocks()[header.0 as int].params
                == created.builder().body().blocks()[header.0 as int].params);
        }
        let t = self.add_branch_target(n, header, Vec::new());
        let height = self.stack.height();
        proof {
            self.builder().lemma_extends_trans(&emitted.builder(), &created.builder());
            self.builder().lemma_extends_trans(&created.builder(), &old(self).builder());
            assert(self.builder().body().blocks()[following.0 as int].params
                == created.builder().body().blocks()[following.0 as int].params);
            assert forall|k: int| 0 <= k < values@.len()
                implies self.builder().body().live(#[trigger] values@[k]) by {
                assert(created.builder().body().live(values@[k]));
            }
        }
        self.frames.push(
            ControlFrame {
                kind: FrameKind::Loop,
                following,
                header,
                else_block: following,
                height,
                arity: results.len(),
                results: values,
            },
        );
        self.stack.set_floor(height);
        self.current = header;
        proof {
            assert(self.frames().drop_last() =~= old(self).frames());
            assert(self.builder().body().insts().last().targets@ =~= seq![EdgeRef { block: header,
                edge: 0 }]);
            self.lemma_frame_pushed(old(self));
            if old(self).blocks_wf() {
                self.lemma_pending_pushed(old(self));
                let body = self.builder().body();
                let old_body = old(self).builder().body();
                let c0 = old(self).current().0 as int;
                assert forall|b: int| 0 <= b < old_body.blocks().len() && b != c0
                    implies (#[trigger] body.blocks()[b]).insts@
                    == old_body.blocks()[b].insts@ by {
                    assert(emitted.builder().body().blocks()[b] == created.builder().body().blocks()[b]);
                    assert(created.builder().body().blocks()[b] == first.body().blocks()[b]);
                }
                assert(body.blocks()[c0].insts@ =~= old_body.blocks()[c0].insts@ + seq![n]) by {
                    assert(created.builder().body().blocks()[c0] == first.body().blocks()[c0]);
                }
                assert forall|k: int| 0 <= k < old_body.insts().len()
                    implies (#[trigger] body.insts()[k]).opcode
                    == old_body.insts()[k].opcode by {
                    assert(emitted.builder().body().insts()[k] == created.builder().body().insts()[k]);
                }
                assert forall|b: int| 0 <= b < body.blocks().len() && self.pending(b) implies (
                #[trigger] body.blocks()[b]).insts@.len() == 0 by {
                    if old(self).pending(b) {
                        old(self).lemma_pending_is_old(b);
                    }
                }
                if old(self).pending(header.0 as int) {
                    old(self).lemma_pending_is_old(header.0 as int);
                }
                assert forall|b: int|
                    0 <= b < body.blocks().len() && b != self.current().0 && b != c0
                        && !self.pending(b) && (b
                        >= old_body.blocks().len() || old(self).pending(b))
                            implies #[trigger] body.terminated(b) by {}
                self.lemma_blocks_new_current(old(self), n);
            }
        }
    }
}

impl FunctionTranslator {
    /// Seals block `b`, which the translation has made itself, which no
    /// control construct keeps open, and in which no parameter waits.
    fn seal_fresh(&mut self, b: Block)
        requires
            old(self).wf(),
            old(self).builder().valid_block(b),
            old(self).closable(b),
            old(self).builder().state()[b.0 as int].incomplete@.len() == 0,
        ensures
            final(self).wf(),
            final(self).builder().sealed_from(&old(self).builder(), b),
            final(self).builder().keeps_live(&old(self).builder()),
            final(self).builder().body() == old(self).builder().body(),
            final(self).builder().state().len() == old(self).builder().state().len(),
            forall|j: int|
                0 <= j < old(self).builder().state().len() && j != b.0
                    ==> #[trigger] final(self).builder().state()[j]
                    == old(self).builder().state()[j],
            final(self).builder().state()[b.0 as int].sealed,
            final(self).stack() == old(self).stack(),
            final(self).frames() == old(self).frames(),
            final(self).current() == old(self).current(),
            final(self).polymorphic() == old(self).polymorphic(),
    {
        let mut none: Vec<Value> = Vec::new();
        match self.seal_renaming(b, &mut none) {
            Ok(_) => {},
            Err(_) => {
                proof {
                    assert(false);
                }
            },
        }
    }

    /// A block that the builder of `before` does not have is none of those
    /// that the control constructs keep open.
    proof fn lemma_new_is_closable(&self, before: &FunctionTranslator, b: Block)
        requires
            before.control_wf(),
            self.frames() == before.frames(),
            b.0 >= before.builder().state().len(),
            before.builder().wf(),
        ensures
            self.closable(b),
    {
        assert forall|i: int| 0 < i < self.frames().len()
            implies (#[trigger] self.frames()[i]).following != b
            && self.frames()[i].header != b by {
            assert(before.frame_wf(i));
        }
    }

    /// What [`FunctionTranslator::translate_if`] does to `before`, with `self`
    /// as what comes of it and `r` as its result.
    pub open spec fn if_begun(
        &self,
        before: &FunctionTranslator,
        results: &Vec<Type>,
        r: Result<(), TranslateError>,
    ) -> bool {
        &&& (match before.operands_refusal(1) {
            Some(e) => r matches Err(x) && x == e && *self == *before,
            None => r is Ok,
        })
        &&& (match r {
            Ok(_) => {
                let f = self.frames().last();
                let n = before.builder().body().insts().len() as int;
                let base = before.builder().state().len() as int;
                &&& self.wf()
                &&& self.builder().extends(&before.builder())
                &&& self.frames().len() == before.frames().len() + 1
                &&& self.frames().drop_last() == before.frames()
                &&& f.kind == FrameKind::If
                &&& f.arity == results@.len()
                &&& f.else_block.0 == base + 1
                &&& f.following.0 == base + 2
                &&& self.current().0 == base
                &&& self.builder().state().len() == base + 3
                &&& self.builder().state()[base as int].sealed
                &&& self.builder().state()[base + 1].sealed
                &&& self.builder().body().insts().len() == n + 1
                &&& self.builder().body().insts()[n].opcode == Opcode::CondBr
                &&& self.builder().body().insts()[n].block == before.current()
                &&& self.builder().body().insts()[n].args@.len() == 1
                &&& self.builder().body().insts()[n].targets@ == seq![
                    EdgeRef { block: self.current(), edge: 0 },
                    EdgeRef { block: f.else_block, edge: 0 },
                ]
                &&& f.height == self.stack()@.len()
                &&& self.stack()@ == (if before.stack().available() > 0 {
                    before.stack()@.drop_last()
                } else {
                    before.stack()@
                })
                &&& before.stack().available() > 0
                    ==> self.builder().body().insts()[n].args@[0]
                    == before.stack()@.last()
                &&& self.polymorphic() == before.polymorphic()
            },
            Err(e) => e == TranslateError::StackUnderflow && before.stack().available() == 0
                && !before.polymorphic(),
        })
        &&& (r is Ok && before.blocks_wf() ==> self.blocks_wf())
        &&& (r is Ok && before.seals_wf() ==> self.seals_wf())
        &&& (r is Ok ==> self.code_grown(before, 1))
        &&& (r is Ok ==> self.frames().last().results@ == self.builder().params(
            self.frames().last().following.0 as int,
        ))
    }

    /// Translates `if`: takes the condition off the stack and enters the
    /// first arm of an `if` construct that leaves one operand of each type
    /// of `results`. The two arms and the code behind the construct get new
    /// blocks; the current block branches to the first arm where the
    /// condition is true and to the second where it is false, and the first
    /// arm becomes the current block.
    ///
    /// Code that can run without a condition on the stack is defective, and
    /// nothing changes.
    pub fn translate_if(&mut self, results: &Vec<Type>) -> (r: Result<(), TranslateError>)
        requires
            old(self).wf(),
            !old(self).finished(),
        ensures
            final(self).if_begun(old(self), results, r),
    {
        let cond = match self.pop_operand() {
            Ok(v) => v,
            Err(e) => {
                return Err(e);
            },
        };
        let ghost popped = *self;
        let empty: Vec<Type> = Vec::new();
        let (then_block, _) = self.builder.create_block_with_params(&empty);
        let ghost b1 = self.builder;
        let (else_block, _) = self.builder.create_block_with_params(&empty);
        let ghost b2 = self.builder;
        let (following, values) = self.builder.create_block_with_params(results);
        proof {
            self.builder().lemma_extends_trans(&b2, &b1);
            self.builder().lemma_extends_trans(&b1, &popped.builder());
            assert forall|k: int| 0 <= k < self.stack()@.len() implies self.builder().body().live(
                #[trigger] self.stack()@[k],
            ) by {
                assert(popped.builder().body().live(popped.stack()@[k]));
            }
            self.lemma_step(&popped);
            assert(self.builder().state()[then_block.0 as int] == b1.state()[then_block.0 as int]);
            assert(self.builder().body().blocks()[then_block.0 as int]
                == b1.body().blocks()[then_block.0 as int]);
            assert(self.builder().state()[else_block.0 as int] == b2.state()[else_block.0 as int]);
            assert(self.builder().body().blocks()[else_block.0 as int]
                == b2.body().blocks()[else_block.0 as int]);
            assert(b2.state()[then_block.0 as int] == b1.state()[then_block.0 as int]);
            assert(b2.body().blocks()[then_block.0 as int] == b1.body().blocks()[then_block.0 as int]);
        }
        let ghost created = *self;
        let mut args: Vec<Value> = Vec::new();
        args.push(cond);
        proof {
            assert(self.builder().body().live(cond));
        }
        let n = self.emit(Opcode::CondBr, args, &empty);
        let ghost emitted = *self;
        let t1 = self.add_branch_target(n, then_block, Vec::new());
        let ghost one = *self;
        let t2 = self.add_branch_target(n, else_block, Vec::new());
        let ghost two = *self;
        proof {
            self.lemma_new_is_closable(old(self), then_block);
            self.lemma_new_is_closable(old(self), else_block);
        }
        self.seal_fresh(then_block);
        let ghost three = *self;
        self.seal_fresh(else_block);
        let height = self.stack.height();
        proof {
            two.builder().lemma_extends_trans(&one.builder(), &emitted.builder());
            two.builder().lemma_extends_trans(&emitted.builder(), &created.builder());
            two.builder().lemma_extends_trans(&created.builder(), &popped.builder());
            two.builder().lemma_extends_trans(&popped.builder(), &old(self).builder());
            three.builder().lemma_extends_after_seal(&two.builder(), &old(self).builder(), then_block);
            self.builder().lemma_extends_after_seal(&three.builder(), &old(self).builder(), else_block);
            assert forall|k: int| 0 <= k < values@.len()
                implies self.builder().body().live(#[trigger] values@[k]) by {
                assert(created.builder().body().live(values@[k]));
                assert(emitted.builder().body().live(values@[k]));
            }
            assert(self.builder().body().blocks()[following.0 as int].params
                == created.builder().body().blocks()[following.0 as int].params);
        }
        self.frames.push(
            ControlFrame {
                kind: FrameKind::If,
                following,
                header: following,
                else_block,
                height,
                arity: results.len(),
                results: values,
            },
        );
        self.stack.set_floor(height);
        self.current = then_block;
        proof {
            assert(self.frames().drop_last() =~= old(self).frames());
            assert(self.builder().body().insts()[n.0 as int].targets@ =~= seq![
                EdgeRef { block: then_block, edge: 0 },
                EdgeRef { block: else_block, edge: 0 },
            ]);
            self.lemma_frame_pushed(old(self));
            if old(self).blocks_wf() {
                self.lemma_pending_pushed(old(self));
                let body = self.builder().body();
                let old_body = old(self).builder().body();
                let c0 = old(self).current().0 as int;
                assert(body == two.builder().body());
                assert forall|b: int| 0 <= b < created.builder().body().blocks().len() && b != c0 implies (
                #[trigger] body.blocks()[b]).insts@ == created.builder().body().blocks()[b].insts@ by {
                    assert(one.builder().body().blocks()[b].insts@
                        == emitted.builder().body().blocks()[b].insts@);
                    assert(emitted.builder().body().blocks()[b] == created.builder().body().blocks()[b]);
                }
                assert forall|b: int| 0 <= b < old_body.blocks().len() implies (
                #[trigger] created.builder().body().blocks()[b]) == old_body.blocks()[b] by {
                    assert(b2.body().blocks()[b] == b1.body().blocks()[b]);
                    assert(b1.body().blocks()[b] == popped.builder().body().blocks()[b]);
                }
                assert(body.blocks()[c0].insts@ =~= old_body.blocks()[c0].insts@ + seq![n]) by {
                    assert(one.builder().body().blocks()[c0].insts@
                        == emitted.builder().body().blocks()[c0].insts@);
                }
                assert forall|k: int| 0 <= k < old_body.insts().len()
                    implies (#[trigger] body.insts()[k]).opcode
                    == old_body.insts()[k].opcode by {
                    assert(one.builder().body().insts()[k] == emitted.builder().body().insts()[k]);
                    assert(emitted.builder().body().insts()[k] == created.builder().body().insts()[k]);
                }
                assert forall|b: int| 0 <= b < body.blocks().len() && self.pending(b) implies (
                #[trigger] body.blocks()[b]).insts@.len() == 0 by {
                    if old(self).pending(b) {
                        old(self).lemma_pending_is_old(b);
                    }
                }
                if old(self).pending(then_block.0 as int) {
                    old(self).lemma_pending_is_old(then_block.0 as int);
                }
                assert forall|b: int|
                    0 <= b < body.blocks().len() && b != self.current().0 && b != c0
                        && !self.pending(b) && (b
                        >= old_body.blocks().len() || old(self).pending(b))
                            implies #[trigger] body.terminated(b) by {}
                self.lemma_blocks_new_current(old(self), n);
            }
        }
        Ok(())
    }
}

impl FunctionTranslator {
    /// Where the builder has grown and the innermost control construct has
    /// been left, the translation is well formed.
    proof fn lemma_frame_popped(&self, before: &FunctionTranslator)
        requires
            before.wf(),
            before.frames().len() >= 2,
            self.builder().extends(&before.builder()),
            self.frames() == before.frames().drop_last(),
            self.builder().valid_block(self.current()),
            self.builder().body().all_live(self.stack()@),
            self.stack().spec_floor() == self.frames().last().height,
            self.frames().last().height <= self.stack()@.len(),
        ensures
            self.wf(),
    {
        assert forall|i: int| 0 <= i < self.frames().len() implies #[trigger] self.frame_wf(i) by {
            assert(self.frames()[i] == before.frames()[i]);
            assert(before.frame_wf(i));
            let f = self.frames()[i];
            assert forall|k: int| 0 <= k < f.results@.len() implies self.builder().body().live(
                #[trigger] f.results@[k],
            ) by {
                assert(before.builder().body().live(f.results@[k]));
            }
        }
        assert forall|i: int, j: int| 0 <= i < j < self.frames().len() implies (
        #[trigger] self.frames()[i]).height <= (#[trigger] self.frames()[j]).height && self.separate(
            i,
            j,
        ) by {
            assert(self.frames()[i] == before.frames()[i]);
            assert(self.frames()[j] == before.frames()[j]);
            assert(before.separate(i, j));
        }
    }

    /// What [`FunctionTranslator::translate_else`] does to `before`, with `self`
    /// as what comes of it and `r` as its result.
    pub open spec fn else_begun(&self, before: &FunctionTranslator, r: Result<(), TranslateError>) -> bool {
        &&& (match before.else_refusal() {
            Some(e) => r matches Err(x) && x == e && *self == *before,
            None => r is Ok,
        })
        &&& (match r {
            Ok(_) => {
                let f = before.frames().last();
                let g = self.frames().last();
                let n = before.builder().body().insts().len() as int;
                &&& self.wf()
                &&& f.kind == FrameKind::If
                &&& self.builder().extends(&before.builder())
                &&& self.frames().len() == before.frames().len()
                &&& self.frames().drop_last() == before.frames().drop_last()
                &&& g.kind == FrameKind::Else
                &&& g.following == f.following
                &&& g.height == f.height
                &&& g.arity == f.arity
                &&& g.results == f.results
                &&& self.current() == f.else_block
                &&& !self.polymorphic()
                &&& self.stack()@ == before.stack()@.take(f.height as int)
                &&& self.builder().body().insts().len() == n + 1
                &&& self.builder().body().insts()[n].opcode == Opcode::Br
                &&& self.builder().body().insts()[n].block == before.current()
                &&& self.builder().body().insts()[n].targets@.len() == 1
                &&& self.builder().body().insts()[n].targets@[0].block == f.following
                &&& f.arity <= before.stack().available() ==> target_args(
                    &self.builder().body(),
                    n,
                    0,
                ) == before.stack()@.skip(before.stack()@.len() - f.arity)
            },
            Err(TranslateError::MisplacedElse) => !(before.frames().last().kind is If),
            Err(TranslateError::StackUnderflow) => before.frames().last().kind is If
                && before.frames().last().arity > before.stack().available() && !before.polymorphic(),
            Err(_) => false,
        })
        &&& (r is Ok && before.blocks_wf() ==> self.blocks_wf())
        &&& (r is Ok && before.seals_wf() ==> self.seals_wf())
        &&& (r is Ok ==> self.code_grown(before, 0))
    }

    /// Translates `else`: ends the first arm of the innermost `if` and
    /// begins the second. The current block jumps to the block behind the
    /// construct and passes the results of the first arm, the stack is cut
    /// down to where the construct began, and the block of the second arm
    /// becomes the current block.
    ///
    /// Outside an `if`, and in code that can run with fewer operands than
    /// the construct leaves, it is a defect, and nothing changes.
    pub fn translate_else(&mut self) -> (r: Result<(), TranslateError>)
        requires
            old(self).wf(),
            !old(self).finished(),
        ensures
            final(self).else_begun(old(self), r),
    {
        let t = self.frames.len() - 1;
        proof {
            assert(self.frame_wf(t as int));
        }
        if !matches!(self.frames[t].kind, FrameKind::If) {
            return Err(TranslateError::MisplacedElse);
        }
        proof {
            assert(t > 0);
        }
        let arity = self.frames[t].arity;
        let following = self.frames[t].following;
        let else_block = self.frames[t].else_block;
        let height = self.frames[t].height;
        let args = match self.pop_operands(arity) {
            Ok(args) => args,
            Err(e) => {
                return Err(e);
            },
        };
        let ghost popped = *self;
        let empty: Vec<Type> = Vec::new();
        let n = self.emit(Opcode::Br, Vec::new(), &empty);
        let ghost emitted = *self;
        proof {
            assert(self.frame_wf(t as int));
            assert forall|k: int| 0 <= k < args@.len()
                implies self.builder().body().live(#[trigger] args@[k]) by {
                assert(popped.builder().body().live(args@[k]));
            }
        }
        let edge = self.add_branch_target(n, following, args);
        let ghost branched = *self;
        proof {
            self.builder().lemma_extends_trans(&emitted.builder(), &popped.builder());
            self.builder().lemma_extends_trans(&popped.builder(), &old(self).builder());
        }
        self.stack.truncate_to(height);
        self.frames[t].kind = FrameKind::Else;
        self.frames[t].else_block = following;
        self.current = else_block;
        self.polymorphic = false;
        proof {
            assert(self.frames().drop_last() =~= old(self).frames().drop_last());
            assert forall|k: int| 0 <= k < self.stack()@.len() implies self.builder().body().live(
                #[trigger] self.stack()@[k],
            ) by {
                assert(branched.builder().body().live(branched.stack()@[k]));
            }
            assert(self.stack()@ =~= old(self).stack()@.take(height as int));
            assert forall|i: int| 0 <= i < self.frames().len() implies #[trigger] self.frame_wf(i) by {
                assert(branched.frame_wf(i));
                if i < t {
                    assert(self.frames()[i] == branched.frames()[i]);
                }
            }
            assert forall|i: int, j: int| 0 <= i < j < self.frames().len() implies (
            #[trigger] self.frames()[i]).height <= (#[trigger] self.frames()[j]).height && self.separate(
                i,
                j,
            ) by {
                assert(branched.separate(i, j));
                assert(self.frames()[i] == branched.frames()[i]);
            }
            if old(self).seals_wf() {
                assert forall|i: int| 0 <= i < old(self).frames().len()
                    implies ((#[trigger] self.frames()[i]).kind
                    is Loop) == (old(self).frames()[i].kind is Loop) && self.frames()[i].following == old(
                    self,
                ).frames()[i].following && self.frames()[i].header == old(self).frames()[i].header by {
                    assert(branched.frame_wf(i));
                    if i < t {
                        assert(self.frames()[i] == branched.frames()[i]);
                    }
                }
                self.lemma_seals_grown(old(self));
            }
            if old(self).blocks_wf() {
                self.lemma_pending_else(old(self));
                let old_body = old(self).builder().body();
                let ended = branched.builder().body();
                assert(old(self).frames()[t as int].kind is If);
                assert(old(self).pending(else_block.0 as int));
                assert forall|k: int| 0 <= k < n.0 implies (#[trigger] ended.insts()[k]).opcode
                    == old_body.insts()[k].opcode by {
                    assert(emitted.builder().body().insts()[k] == popped.builder().body().insts()[k]);
                }
                assert forall|b: int| 0 <= b < ended.blocks().len() && b != old(self).current().0 implies (
                #[trigger] ended.blocks()[b]).insts@ == old_body.blocks()[b].insts@ by {
                    assert(emitted.builder().body().blocks()[b] == popped.builder().body().blocks()[b]);
                }
                assert(ended.blocks()[old(self).current().0 as int].insts@
                    == old_body.blocks()[old(self).current().0 as int].insts@.push(
                    n,
                ));
                self.lemma_blocks_after_switch(old(self), &ended, n);
            }
        }
        Ok(())
    }

    /// What [`FunctionTranslator::translate_end`] does to `before`, with `self`
    /// as what comes of it and `r` as its result.
    pub open spec fn ended(&self, before: &FunctionTranslator, r: Result<(), TranslateError>) -> bool {
        &&& (match r {
            Ok(_) => {
                let f = before.frames().last();
                let n = before.builder().body().insts().len() as int;
                &&& self.wf()
                &&& self.frames().len() == before.frames().len() - 1
                &&& self.builder().body().insts().len() >= n + 1
                &&& forall|k: int|
                    0 <= k < n ==> (#[trigger] self.builder().body().insts()[k]).opcode
                        == before.builder().body().insts()[k].opcode
                        && self.builder().body().insts()[k].block
                        == before.builder().body().insts()[k].block
                &&& self.builder().body().insts()[n].opcode == (if f.kind is Function {
                    Opcode::Ret
                } else {
                    Opcode::Br
                })
                &&& self.builder().body().insts()[n].block == before.current()
                &&& self.builder().body().insts()[n].args@.len() == (if f.kind is Function {
                    f.arity as int
                } else {
                    0
                })
                &&& if f.kind is Function {
                    &&& self.finished()
                    &&& self.builder().body().insts().len() == n + 1
                    &&& self.builder().body().insts()[n].opcode == Opcode::Ret
                    &&& self.builder().body().insts()[n].targets@.len() == 0
                    &&& self.builder().body().blocks().len()
                        == before.builder().body().blocks().len()
                    &&& forall|b: int|
                        0 <= b < before.builder().body().blocks().len() ==> (
                        #[trigger] self.builder().body().blocks()[b]).params
                            == before.builder().body().blocks()[b].params
                            && self.builder().body().blocks()[b].preds
                                == before.builder().body().blocks()[b].preds
                    &&& f.arity <= before.stack().available()
                        ==> self.builder().body().insts()[n].args@
                        == before.stack()@.skip(before.stack()@.len() - f.arity)
                } else {
                    &&& self.current() == f.following
                    &&& self.builder().state()[f.following.0 as int].sealed
                    &&& f.kind is Loop ==> self.builder().state()[f.header.0 as int].sealed
                    &&& self.stack()@.len() == f.height + f.arity
                    &&& !self.polymorphic()
                }
            },
            Err(e) => if e is UndefinedLocal {
                before.end_refusal() is None && !(before.frames().last().kind is Function)
                    && before.has_waiting()
            } else {
                before.end_refusal() == Some(e) && *self == *before
            },
        })
        &&& (before.end_refusal() is Some ==> r is Err)
        &&& (r is Ok && before.blocks_wf() ==> self.blocks_wf())
        &&& (r is Ok && before.seals_wf() ==> self.seals_wf())
        &&& (r is Ok ==> self.code_grown(before, 0))
        &&& (before.frames().len() > 1 && before.end_refusal() is None ==> exists|arms: FunctionTranslator|
            #[trigger] arms.arms_closed(before, Inst(before.builder().body().insts().len() as usize))
                && self.construct_left(&arms, r))
    }

    /// Translates `end`: leaves the innermost control construct.
    ///
    /// At the end of the function, the current block returns the results,
    /// which are taken off the stack, and the translation is finished.
    /// Otherwise the current block jumps to the block behind the construct
    /// and passes the results. An `if` without a second arm must leave no
    /// result; its second arm jumps to the block behind the construct too.
    /// The head of a loop is sealed now, then the block behind the construct,
    /// which becomes the current block. The stack is cut down to where the
    /// construct began, and the results of the construct are put on it. The
    /// instructions made before stay, each in its block.
    ///
    /// Code that can run with fewer operands than the construct leaves is
    /// defective, and so is an `if` without a second arm that leaves a
    /// result: [`FunctionTranslator::end_refusal`] names the defect, and
    /// nothing changes. The only other defect is a parameter that waits at
    /// the head of the loop or behind the construct and that no definition
    /// reaches when the block is sealed; the end of the function has none.
    pub fn translate_end(&mut self) -> (r: Result<(), TranslateError>)
        requires
            old(self).wf(),
            !old(self).finished(),
        ensures
            final(self).ended(old(self), r),
    {
        if self.frames.len() == 1 {
            self.end_function()
        } else {
            self.end_construct()
        }
    }

    /// Translates the `end` of the function: see
    /// [`FunctionTranslator::translate_end`].
    fn end_function(&mut self) -> (r: Result<(), TranslateError>)
        requires
            old(self).wf(),
            old(self).frames().len() == 1,
        ensures
            final(self).ended(old(self), r),
    {
        let t: usize = 0;
        proof {
            assert(self.frame_wf(0));
        }
        let arity = self.frames[t].arity;
        let empty: Vec<Type> = Vec::new();
        let args = match self.pop_operands(arity) {
            Ok(args) => args,
            Err(e) => {
                return Err(e);
            },
        };
        let ghost popped = *self;
        let n = self.emit(Opcode::Ret, args, &empty);
        self.frames.pop();
        proof {
            if old(self).blocks_wf() {
                let body = self.builder().body();
                let old_body = old(self).builder().body();
                let c0 = old(self).current().0 as int;
                assert(code_kept(&body, &old_body, c0, seq![n])) by {
                    assert(body.blocks()[c0].insts@ =~= old_body.blocks()[c0].insts@ + seq![n]);
                    assert forall|k: int| 0 <= k < old_body.insts().len()
                        implies (#[trigger] body.insts()[k]).opcode
                        == old_body.insts()[k].opcode by {
                        assert(body.insts()[k] == popped.builder().body().insts()[k]);
                    }
                }
                self.lemma_blocks_finished(old(self), n);
            }
        }
        Ok(())
    }

    /// Translates the `end` of a control construct other than the function:
    /// see [`FunctionTranslator::translate_end`].
    fn end_construct(&mut self) -> (r: Result<(), TranslateError>)
        requires
            old(self).wf(),
            old(self).frames().len() >= 2,
        ensures
            final(self).ended(old(self), r),
    {
        let ghost f = self.frames().last();
        proof {
            assert(self.frame_wf(self.frames().len() - 1));
        }
        let n = match self.close_arms() {
            Ok(n) => n,
            Err(e) => {
                return Err(e);
            },
        };
        let ghost ended = *self;
        proof {
            assert(n == Inst(old(self).builder().body().insts().len() as usize));
            assert(ended.arms_closed(old(self), n));
        }
        match self.leave_construct() {
            Ok(_) => {},
            Err(e) => {
                proof {
                    assert(self.construct_left(&ended, Err(e)));
                    assert(ended.has_waiting() == old(self).has_waiting());
                }
                return Err(e);
            },
        }
        proof {
            assert(self.construct_left(&ended, Ok(())));
            let t = old(self).frames().len() - 1;
            assert(old(self).frame_wf(t));
            assert(self.builder().body().insts()[n.0 as int].block
                == ended.builder().body().insts()[n.0 as int].block);
            assert forall|k: int| 0 <= k < n.0 implies (#[trigger] self.builder().body().insts()[k]).opcode
                == old(self).builder().body().insts()[k].opcode && self.builder().body().insts()[k].block
                == old(self).builder().body().insts()[k].block by {
                assert(ended.builder().body().insts()[k].opcode
                    == old(self).builder().body().insts()[k].opcode);
            }
            assert(self.insts_kept(old(self))) by {
                assert(ended.insts_kept(old(self)));
                assert forall|k: int| 0 <= k < n.0 implies (
                #[trigger] self.builder().body().insts()[k]).targets@.len()
                    == old(self).builder().body().insts()[k].targets@.len() by {
                    assert(ended.builder().body().insts()[k].targets@.len()
                        == old(self).builder().body().insts()[k].targets@.len());
                }
            }
            assert(self.plain_from(n.0 as int)) by {
                assert forall|k: int| n.0 <= k < self.builder().body().insts().len() implies (
                #[trigger] self.builder().body().insts()[k]).opcode == Opcode::Br by {
                    assert(ended.builder().body().insts()[k].opcode == Opcode::Br);
                }
            }
            self.lemma_pending_popped(&ended);
            if old(self).seals_wf() {
                assert forall|b: int|
                    0 <= b < old(self).builder().state().len() && old(self).kept_open(b) implies (
                #[trigger] self.builder().state()[b]).sealed || self.kept_open(b) by {
                    let i = choose|i: int|
                        0 < i < old(self).frames().len()
                            && ((#[trigger] old(self).frames()[i]).following.0 == b || (old(
                            self,
                        ).frames()[i].kind is Loop && old(self).frames()[i].header.0 == b));
                    if i < t {
                        assert(frame_with_results(ended.frames()[i], self.frames()[i],
                            self.frames()[i].results@));
                    }
                }
                assert forall|b: int|
                    0 <= b < old(self).builder().state().len()
                        && old(self).builder().state()[b].sealed implies (
                #[trigger] self.builder().state()[b]).sealed by {
                    assert(ended.builder().state()[b].sealed);
                }
                self.lemma_seals_step(old(self));
            }
            if old(self).blocks_wf() {
                assert(old(self).pending(f.following.0 as int));
                assert forall|b: int| #[trigger] ended.pending(b) == old(self).pending(b) by {}
                let body = ended.builder().body();
                assert forall|b: int| 0 <= b < body.blocks().len() && b != old(self).current().0 implies (
                #[trigger] body.blocks()[b]).insts@ == old(self).builder().body().blocks()[b].insts@
                    || (old(
                    self,
                ).pending(b) && !self.pending(b) && b != self.current().0 && body.terminated(b)) by {
                    if f.kind is If && b == f.else_block.0 {
                        assert(old(self).pending(b));
                        assert(old(self).builder().body().blocks()[b].insts@.len() == 0);
                    }
                }
                assert forall|b: int|
                    0 <= b < body.blocks().len() && old(self).pending(b) && !self.pending(b) && b
                        != self.current().0 implies #[trigger] body.terminated(b) by {
                    assert(ended.pending(b));
                    assert(f.kind is If && f.else_block.0 == b);
                    assert(old(self).builder().body().blocks()[b].insts@.len() == 0);
                }
                self.lemma_blocks_after_switch(old(self), &body, n);
            }
        }
        Ok(())
    }

    /// True when `self` comes of `before` by ending the arms of the
    /// innermost control construct, which is not the function, with `n` as
    /// the jump of the current block: that block jumps to the block behind
    /// the construct and passes the results, which are taken off the stack,
    /// and so does the block of the second arm of an `if` that has none.
    pub open spec fn arms_closed(&self, before: &FunctionTranslator, n: Inst) -> bool {
        let f = before.frames().last();
        let c0 = before.current().0 as int;
        let body = self.builder().body();
        let old_body = before.builder().body();
        &&& self.wf()
        &&& self.builder().extends(&before.builder())
        &&& self.frames() == before.frames()
        &&& self.current() == before.current()
        &&& self.polymorphic() == before.polymorphic()
        &&& self.builder().state() == before.builder().state()
        &&& body.blocks().len() == old_body.blocks().len()
        &&& n.0 == old_body.insts().len()
        &&& body.insts().len() >= n.0 + 1
        &&& forall|k: int| 0 <= k < n.0 ==> (#[trigger] body.insts()[k]).opcode
            == old_body.insts()[k].opcode && body.insts()[k].block == old_body.insts()[k].block
        &&& self.insts_kept(before)
        &&& forall|k: int|
            n.0 <= k < body.insts().len() ==> (#[trigger] body.insts()[k]).opcode == Opcode::Br
        &&& body.insts()[n.0 as int].block == before.current()
        &&& body.insts()[n.0 as int].args@.len() == 0
        &&& before.blocks_wf() ==> {
            &&& body.blocks()[c0].insts@ == old_body.blocks()[c0].insts@.push(n)
            &&& forall|b: int|
                0 <= b < old_body.blocks().len() && b != c0 && !(f.kind is If && b
                    == f.else_block.0)
                    ==> (#[trigger] body.blocks()[b]).insts@ == old_body.blocks()[b].insts@
            &&& f.kind is If ==> body.terminated(f.else_block.0 as int)
        }
        &&& body.insts()[n.0 as int].targets@.len() == 1
        &&& body.insts()[n.0 as int].targets@[0].block == f.following
        &&& f.arity <= before.stack().available() ==> target_args(&body, n.0 as int, 0)
            == before.stack()@.skip(before.stack()@.len() - f.arity)
        &&& self.stack()@ == before.stack()@.take(
            before.stack()@.len() - (if f.arity <= before.stack().available() {
                f.arity as int
            } else {
                before.stack().available()
            }),
        )
    }

    /// Ends the arms of the innermost control construct, which is not the
    /// function: the current block jumps to the block behind the construct
    /// and passes the results, and so does the block of the second arm of an
    /// `if` that has none, and leaves no result. The result is the jump of
    /// the current block.
    fn close_arms(&mut self) -> (r: Result<Inst, TranslateError>)
        requires
            old(self).wf(),
            old(self).frames().len() >= 2,
        ensures
            match r {
                Ok(n) => final(self).arms_closed(old(self), n),
                Err(e) => old(self).end_refusal() == Some(e) && *final(self) == *old(self),
            },
            old(self).end_refusal() is None <==> r is Ok,
    {
        let t = self.frames.len() - 1;
        proof {
            assert(self.frame_wf(t as int));
        }
        let arity = self.frames[t].arity;
        let empty: Vec<Type> = Vec::new();
        let kind = self.frames[t].kind;
        let following = self.frames[t].following;
        let else_block = self.frames[t].else_block;
        if !self.polymorphic && arity > self.stack.count_available() {
            return Err(TranslateError::StackUnderflow);
        }
        if matches!(kind, FrameKind::If) && arity > 0 {
            return Err(TranslateError::MissingElse);
        }
        let args = match self.pop_operands(arity) {
            Ok(args) => args,
            Err(e) => {
                proof {
                    assert(false);
                }
                return Err(e);
            },
        };
        let ghost popped = *self;
        let n = self.emit(Opcode::Br, Vec::new(), &empty);
        let ghost emitted = *self;
        proof {
            assert(self.frame_wf(t as int));
            assert forall|k: int| 0 <= k < args@.len()
                implies self.builder().body().live(#[trigger] args@[k]) by {
                assert(popped.builder().body().live(args@[k]));
            }
        }
        self.add_branch_target(n, following, args);
        proof {
            self.builder().lemma_extends_trans(&emitted.builder(), &popped.builder());
            self.builder().lemma_extends_trans(&popped.builder(), &old(self).builder());
            assert forall|k: int| 0 <= k < n.0 implies (#[trigger] self.builder().body().insts()[k]).opcode
                == old(self).builder().body().insts()[k].opcode && self.builder().body().insts()[k].block
                == old(self).builder().body().insts()[k].block && self.builder().body().insts()[k].targets
                == old(self).builder().body().insts()[k].targets by {
                assert(emitted.builder().body().insts()[k] == popped.builder().body().insts()[k]);
            }
            assert forall|b: int|
                0 <= b < old(self).builder().body().blocks().len() && b != old(self).current().0 implies (
            #[trigger] self.builder().body().blocks()[b]).insts@
                == old(self).builder().body().blocks()[b].insts@ by {
                assert(emitted.builder().body().blocks()[b] == popped.builder().body().blocks()[b]);
            }
            if old(self).blocks_wf() {
                assert(old(self).pending(following.0 as int));
            }
        }
        if matches!(kind, FrameKind::If) {
            let ghost before_else = *self;
            proof {
                assert(self.frame_wf(t as int));
            }
            let other = self.builder.ins(else_block, Opcode::Br, Vec::new(), &empty);
            proof {
                self.builder().lemma_extends_same_state(&before_else.builder());
                self.lemma_step(&before_else);
                assert(self.frame_wf(t as int));
            }
            let ghost with_jump = *self;
            self.add_branch_target(other, following, Vec::new());
            proof {
                self.builder().lemma_extends_trans(&with_jump.builder(), &before_else.builder());
                self.builder().lemma_extends_trans(&before_else.builder(), &old(self).builder());
                assert(self.builder().body().insts()[n.0 as int]
                    == before_else.builder().body().insts()[n.0 as int]);
                assert forall|k: int| 0 <= k < n.0
                    implies (#[trigger] self.builder().body().insts()[k]).opcode
                    == old(self).builder().body().insts()[k].opcode && self.builder().body().insts()[k].block
                    == old(self).builder().body().insts()[k].block && self.builder().body().insts()[k].targets
                    == old(self).builder().body().insts()[k].targets by {
                    assert(with_jump.builder().body().insts()[k]
                        == before_else.builder().body().insts()[k]);
                    assert(before_else.builder().body().insts()[k].targets
                        == old(self).builder().body().insts()[k].targets);
                }
                if old(self).blocks_wf() {
                    let e = else_block.0 as int;
                    assert(old(self).frames()[t as int].kind is If);
                    assert(old(self).pending(e));
                    assert(old(self).builder().body().blocks()[e].insts@.len() == 0);
                    assert(before_else.builder().body().unterminated(e));
                    with_jump.builder().body().lemma_block_appended(&before_else.builder().body(), e,
                        other);
                    self.builder().body().lemma_block_kept(&with_jump.builder().body(), e);
                    assert forall|b: int|
                        0 <= b < old(self).builder().body().blocks().len() && b != e implies (
                    #[trigger] self.builder().body().blocks()[b]).insts@
                        == before_else.builder().body().blocks()[b].insts@ by {
                        assert(with_jump.builder().body().blocks()[b].insts@
                            == before_else.builder().body().blocks()[b].insts@);
                    }
                }
            }
        }
        Ok(n)
    }

    /// True when `self` comes of `before` by a sealing that ended with the
    /// defect `e`, as [`SsaBuilder::sealing`] says: that of the head of the
    /// loop, where the innermost control construct is one, or, after it,
    /// that of the block behind the construct.
    pub open spec fn left_with_defect(&self, before: &FunctionTranslator, e: TranslateError) -> bool {
        let f = before.frames().last();
        e matches TranslateError::UndefinedLocal { block, local } && {
            let d = Err::<Seq<(Value, Value)>, SsaError>(SsaError::UndefinedLocal { block, local });
            ||| f.kind is Loop && before.builder().sealing(f.header, d, &self.builder())
            ||| exists|mid: SsaBuilder| #[trigger]
                mid.sealing(f.following, d, &self.builder()) && if f.kind is Loop {
                    exists|out: Seq<(Value, Value)>| #[trigger]
                        before.builder().sealing(f.header, Ok(out), &mid)
                } else {
                    mid == before.builder()
                }
        }
    }

    /// True when `self` comes of `before` by leaving the innermost control
    /// construct with the replacements `first`, made when the head of the
    /// loop was sealed, and `second`, made when the block behind the
    /// construct was sealed, as [`SsaBuilder::sealing`] says: the stack is
    /// what it was where the construct began, and on it the results of the
    /// construct, all after these replacements. Only a loop has a head.
    pub open spec fn left_renamed(
        &self,
        before: &FunctionTranslator,
        first: Seq<(Value, Value)>,
        second: Seq<(Value, Value)>,
    ) -> bool {
        let f = before.frames().last();
        &&& self.stack()@ == renamed_all(
            second,
            renamed_all(first, before.stack()@.take(f.height as int) + f.results@),
        )
        &&& exists|mid: SsaBuilder| #[trigger]
            mid.sealing(f.following, Ok(second), &self.builder()) && if f.kind is Loop {
                before.builder().sealing(f.header, Ok(first), &mid)
            } else {
                mid == before.builder() && first.len() == 0
            }
    }

    /// What leaving the innermost control construct of `before`, which is
    /// not the function and whose arms have been ended, comes to, with
    /// `self` as what comes of it and `r` as the result.
    pub open spec fn construct_left(&self, before: &FunctionTranslator, r: Result<(), TranslateError>) -> bool {
        match r {
            Ok(_) => {
                let f = before.frames().last();
                &&& self.wf()
                &&& self.frames().len() == before.frames().len() - 1
                &&& forall|i: int|
                    0 <= i < before.frames().len() - 1 ==> frame_with_results(
                        before.frames()[i],
                        #[trigger] self.frames()[i],
                        self.frames()[i].results@,
                    )
                &&& self.current() == f.following
                &&& !self.polymorphic()
                &&& exists|first: Seq<(Value, Value)>, second: Seq<(Value, Value)>| #[trigger]
                    self.left_renamed(before, first, second)
                &&& self.stack()@.len() == f.height + f.arity
                &&& self.builder().same_insts(&before.builder())
                &&& self.builder().state().len() == before.builder().state().len()
                &&& forall|j: int|
                    0 <= j < before.builder().state().len()
                        ==> (#[trigger] self.builder().state()[j]).sealed
                        == (before.builder().state()[j].sealed || j == f.following.0
                            || (f.kind is Loop && j
                        == f.header.0))
            },
            Err(e) => before.has_waiting() && self.left_with_defect(before, e),
        }
    }

    /// Leaves the innermost control construct, which is not the function,
    /// once its arms have been ended: the head of a loop is sealed, then
    /// the block behind the construct, which becomes the current block; the
    /// stack is cut down to where the construct began, and the results of
    /// the construct are put on it.
    #[verifier::rlimit(40)]
    fn leave_construct(&mut self) -> (r: Result<(), TranslateError>)
        requires
            old(self).wf(),
            old(self).frames().len() >= 2,
        ensures
            final(self).construct_left(old(self), r),
    {
        let t = self.frames.len() - 1;
        proof {
            assert(self.frame_wf(t as int));
            assert(self.frame_wf(t - 1));
            assert(self.frames()[t - 1].height <= self.frames()[t as int].height);
        }
        let kind = self.frames[t].kind;
        let following = self.frames[t].following;
        let header = self.frames[t].header;
        let height = self.frames[t].height;
        match self.frames.pop() {
            Some(frame) => {
                let floor = self.frames[t - 1].height;
                self.stack.set_floor(floor);
                self.stack.truncate_to(height);
                proof {
                    assert(self.frames() =~= old(self).frames().drop_last());
                    assert(self.stack()@ =~= old(self).stack()@.take(height as int));
                    assert forall|k: int| 0 <= k < self.stack()@.len() implies self.builder().body().live(
                        #[trigger] self.stack()@[k],
                    ) by {
                        assert(old(self).builder().body().live(old(self).stack()@[k]));
                    }
                    assert(self.builder().extends(&old(self).builder()));
                    self.lemma_frame_popped(old(self));
                    assert forall|i: int| 0 < i < self.frames().len()
                        implies (#[trigger] self.frames()[i]).following
                        != header && self.frames()[i].header != header && self.frames()[i].following
                        != following && self.frames()[i].header != following by {
                        assert(old(self).separate(i, t as int));
                        assert(self.frames()[i] == old(self).frames()[i]);
                    }
                }
                let ghost popped = *self;
                let mut results = frame.results;
                let ghost results0 = results@;
                if matches!(kind, FrameKind::Loop) {
                    match self.seal_renaming(header, &mut results) {
                        Ok(_) => {},
                        Err(e) => {
                            return Err(e);
                        },
                    }
                }
                let ghost looped = *self;
                let ghost results1 = results@;
                proof {
                    assert forall|i: int| 0 < i < self.frames().len()
                        implies (#[trigger] self.frames()[i]).following
                        != following && self.frames()[i].header != following by {
                        if kind is Loop {
                            assert(frame_with_results(popped.frames()[i], self.frames()[i],
                                self.frames()[i].results@));
                        }
                        assert(old(self).separate(i, t as int));
                    }
                }
                match self.seal_renaming(following, &mut results) {
                    Ok(_) => {},
                    Err(e) => {
                        return Err(e);
                    },
                }
                let ghost sealed = *self;
                let ghost results2 = results@;
                self.push_operands(&results);
                let ghost pushed = *self;
                self.current = following;
                self.polymorphic = false;
                proof {
                    assert(self.builder().valid_block(following));
                    assert forall|i: int| 0 <= i < self.frames().len()
                        implies #[trigger] self.frame_wf(i) by {
                        assert(pushed.frame_wf(i));
                    }
                    assert forall|i: int, j: int| 0 <= i < j < self.frames().len() implies (
                    #[trigger] self.frames()[i]).height <= (#[trigger] self.frames()[j]).height
                        && self.separate(
                        i,
                        j,
                    ) by {
                        assert(pushed.separate(i, j));
                    }
                    let first = if kind is Loop {
                        choose|out: Seq<(Value, Value)>| #[trigger]
                            popped.builder().sealing(header, Ok(out), &looped.builder())
                                && looped.renamed_from(&popped, out) && results1 == renamed_all(
                                out,
                                results0,
                            )
                    } else {
                        Seq::<(Value, Value)>::empty()
                    };
                    let second = choose|out: Seq<(Value, Value)>| #[trigger]
                        looped.builder().sealing(following, Ok(out), &sealed.builder())
                            && sealed.renamed_from(&looped, out) && results2 == renamed_all(out, results1);
                    let kept = old(self).stack()@.take(height as int);
                    assert(popped.stack()@ == kept);
                    assert(renamed_all(Seq::<(Value, Value)>::empty(), kept) =~= kept);
                    assert(renamed_all(Seq::<(Value, Value)>::empty(), results0) =~= results0);
                    assert(renamed_all(Seq::<(Value, Value)>::empty(), kept + results0) =~= kept + results0);
                    assert(renamed_all(first, kept + results0) =~= renamed_all(first, kept) + renamed_all(
                        first,
                        results0,
                    ));
                    assert(renamed_all(second, renamed_all(first, kept) + renamed_all(first, results0))
                        =~= renamed_all(second, renamed_all(first, kept)) + renamed_all(
                        second,
                        renamed_all(first, results0),
                    ));
                    assert(self.stack()@ =~= sealed.stack()@ + results2);
                    assert(looped.builder().sealing(following, Ok(second), &self.builder()));
                    assert(self.left_renamed(old(self), first, second));
                    assert(sealed.builder().same_insts(&looped.builder()));
                    if kind is Loop {
                        assert(looped.builder().same_insts(&popped.builder()));
                        sealed.builder().lemma_same_insts_trans(&looped.builder(), &popped.builder());
                    }
                    assert forall|i: int| 0 <= i < old(self).frames().len() - 1 implies frame_with_results(
                        old(self).frames()[i],
                        #[trigger] self.frames()[i],
                        self.frames()[i].results@,
                    ) by {
                        assert(popped.frames()[i] == old(self).frames()[i]);
                        assert(frame_with_results(looped.frames()[i], sealed.frames()[i],
                            sealed.frames()[i].results@));
                        if kind is Loop {
                            assert(frame_with_results(popped.frames()[i], looped.frames()[i],
                                looped.frames()[i].results@));
                        }
                    }
                    assert forall|j: int| 0 <= j < old(self).builder().state().len() implies (
                    #[trigger] self.builder().state()[j]).sealed
                        == (old(self).builder().state()[j].sealed || j
                        == following.0 || (kind is Loop && j == header.0)) by {
                        assert(sealed.builder().state()[j].sealed
                            == (looped.builder().state()[j].sealed || j
                            == following.0));
                        if kind is Loop {
                            assert(looped.builder().state()[j].sealed
                                == (popped.builder().state()[j].sealed || j
                                == header.0));
                        }
                    }
                }
                Ok(())
            },
            None => {
                proof {
                    assert(false);
                }
                Ok(())
            },
        }
    }
}

impl FunctionTranslator {
    /// The number of operands that a branch to the control construct at
    /// depth `index`, counted from the function itself, passes on: the
    /// results of the function for a branch to the function, which returns.
    pub open spec fn spec_label_arity(&self, index: int) -> nat {
        if index == 0 {
            self.frames()[0].arity as nat
        } else {
            self.frames()[index].spec_branch_arity()
        }
    }

    /// The number of operands that a branch to the control construct at
    /// depth `index` passes on.
    pub fn label_arity(&self, index: usize) -> (n: usize)
        requires
            index < self.frames().len(),
        ensures
            n == self.spec_label_arity(index as int),
    {
        if index == 0 {
            self.frames[0].arity
        } else {
            self.frames[index].branch_arity()
        }
    }

    /// The depth, counted from the function itself, of the control construct
    /// that a branch names by `depth`, counted from the innermost construct.
    pub fn label(&self, depth: u32) -> (r: Result<usize, TranslateError>)
        ensures
            match r {
                Ok(index) => depth < self.frames().len() && index == self.frames().len() - 1 - depth,
                Err(e) => depth >= self.frames().len() && e == TranslateError::UnknownLabel(depth),
            },
    {
        if (depth as usize) < self.frames.len() {
            Ok(self.frames.len() - 1 - depth as usize)
        } else {
            Err(TranslateError::UnknownLabel(depth))
        }
    }

    /// True when `self` has the blocks of `before`, each with the
    /// parameters and the entering edges that it has there, and behind them
    /// one more, the current block, which is sealed, has no parameter and is
    /// entered by no edge: the code that follows cannot be reached.
    pub open spec fn dead_block_added(&self, before: &FunctionTranslator) -> bool {
        let body = self.builder().body();
        let old_body = before.builder().body();
        &&& body.blocks().len() == old_body.blocks().len() + 1
        &&& self.current().0 == old_body.blocks().len()
        &&& forall|j: int|
            0 <= j < old_body.blocks().len() ==> (#[trigger] body.blocks()[j]).params
                == old_body.blocks()[j].params && body.blocks()[j].preds == old_body.blocks()[j].preds
        &&& body.blocks()[self.current().0 as int].params@.len() == 0
        &&& body.blocks()[self.current().0 as int].preds@.len() == 0
        &&& self.builder().state()[self.current().0 as int].sealed
    }

    /// What [`FunctionTranslator::translate_return`] does to `before`, with `self`
    /// as what comes of it and `r` as its result.
    pub open spec fn returned(&self, before: &FunctionTranslator, r: Result<(), TranslateError>) -> bool {
        &&& (match before.operands_refusal(before.frames()[0].arity as nat) {
            Some(e) => r matches Err(x) && x == e && *self == *before,
            None => r is Ok,
        })
        &&& (match r {
            Ok(_) => {
                let n = before.builder().body().insts().len() as int;
                let arity = before.frames()[0].arity;
                &&& self.wf()
                &&& self.builder().extends(&before.builder())
                &&& self.frames() == before.frames()
                &&& self.polymorphic()
                &&& self.current().0 == before.builder().state().len()
                &&& self.builder().state().len() == before.builder().state().len() + 1
                &&& self.builder().body().insts().len() == n + 1
                &&& forall|k: int|
                    0 <= k < n ==> #[trigger] self.builder().body().insts()[k]
                        == before.builder().body().insts()[k]
                &&& self.builder().body().insts()[n].opcode == Opcode::Ret
                &&& self.builder().body().insts()[n].block == before.current()
                &&& self.builder().body().insts()[n].targets@.len() == 0
                &&& self.builder().body().insts()[n].args@.len() == arity
                &&& arity <= before.stack().available()
                    ==> self.builder().body().insts()[n].args@
                    == before.stack()@.skip(before.stack()@.len() - arity)
                &&& self.dead_block_added(before)
            },
            Err(e) => e == TranslateError::StackUnderflow && before.frames()[0].arity
                > before.stack().available() && !before.polymorphic(),
        })
        &&& (r is Ok && before.blocks_wf() ==> self.blocks_wf())
        &&& (r is Ok && before.seals_wf() ==> self.seals_wf())
        &&& (r is Ok ==> self.code_grown(before, 0))
    }

    /// Translates `return`, and a branch to the function itself: the
    /// current block returns the results of the function, which are taken
    /// off the stack, and the code behind it can never run.
    pub fn translate_return(&mut self) -> (r: Result<(), TranslateError>)
        requires
            old(self).wf(),
            !old(self).finished(),
        ensures
            final(self).returned(old(self), r),
    {
        let arity = self.frames[0].arity;
        let args = match self.pop_operands(arity) {
            Ok(args) => args,
            Err(e) => {
                return Err(e);
            },
        };
        let ghost popped = *self;
        let empty: Vec<Type> = Vec::new();
        let n = self.emit(Opcode::Ret, args, &empty);
        let ghost emitted = *self;
        self.go_dead();
        proof {
            self.builder().lemma_extends_trans(&emitted.builder(), &popped.builder());
            self.builder().lemma_extends_trans(&popped.builder(), &old(self).builder());
            if old(self).blocks_wf() {
                self.lemma_blocks_after_jump(old(self), &emitted, n);
            }
        }
        Ok(())
    }

    /// What [`FunctionTranslator::translate_unreachable`] does to `before`, with `self`
    /// as what comes of it.
    pub open spec fn made_unreachable(&self, before: &FunctionTranslator) -> bool {
        &&& self.wf()
        &&& self.builder().extends(&before.builder())
        &&& self.frames() == before.frames()
        &&& self.stack() == before.stack()
        &&& self.polymorphic()
        &&& self.current().0 == before.builder().state().len()
        &&& self.builder().state().len() == before.builder().state().len() + 1
        &&& self.builder().body().insts().len() == before.builder().body().insts().len() + 1
        &&& (forall|k: int|
            0 <= k < before.builder().body().insts().len()
                ==> #[trigger] self.builder().body().insts()[k]
                == before.builder().body().insts()[k])
        &&& self.builder().body().insts().last().opcode == Opcode::Unreachable
        &&& self.builder().body().insts().last().block == before.current()
        &&& self.builder().body().insts().last().targets@.len() == 0
        &&& self.dead_block_added(before)
        &&& (before.blocks_wf() ==> self.blocks_wf())
        &&& (before.seals_wf() ==> self.seals_wf())
        &&& self.code_grown(before, 0)
    }

    /// Translates `unreachable`: the current block traps, and the code
    /// behind it can never run.
    pub fn translate_unreachable(&mut self)
        requires
            old(self).wf(),
            !old(self).finished(),
        ensures
            final(self).made_unreachable(old(self)),
    {
        let empty: Vec<Type> = Vec::new();
        let n = self.emit(Opcode::Unreachable, Vec::new(), &empty);
        let ghost emitted = *self;
        self.go_dead();
        proof {
            self.builder().lemma_extends_trans(&emitted.builder(), &old(self).builder());
            if old(self).blocks_wf() {
                self.lemma_blocks_after_jump(old(self), &emitted, n);
            }
        }
    }

    /// The blocks are in order after the current block has been ended with
    /// the terminator `n`, perhaps with targets in new blocks that return,
    /// and the code has gone on in a new block for code that can never run.
    proof fn lemma_blocks_after_jump(&self, before: &FunctionTranslator, ended: &FunctionTranslator,
        n: Inst)
        requires
            before.wf(),
            before.blocks_wf(),
            !before.finished(),
            ended.wf(),
            self.frames() == before.frames(),
            ended.frames() == before.frames(),
            n.0 == before.builder().body().insts().len(),
            n.0 < ended.builder().body().insts().len(),
            ended.builder().body().insts()[n.0 as int].opcode.spec_is_terminator(),
            forall|k: int|
                0 <= k < n.0 ==> (#[trigger] ended.builder().body().insts()[k]).opcode
                    == before.builder().body().insts()[k].opcode,
            before.builder().body().blocks().len() <= ended.builder().body().blocks().len(),
            forall|b: int|
                0 <= b < before.builder().body().blocks().len() && b != before.current().0 ==> (
                #[trigger] ended.builder().body().blocks()[b]).insts@
                    == before.builder().body().blocks()[b].insts@,
            ended.builder().body().blocks()[before.current().0 as int].insts@
                == before.builder().body().blocks()[before.current().0 as int].insts@.push(
                n,
            ),
            forall|b: int|
                before.builder().body().blocks().len() <= b < ended.builder().body().blocks().len()
                    ==> #[trigger] ended.builder().body().terminated(b),
            self.current().0 == ended.builder().body().blocks().len(),
            self.builder().body().blocks().len() == ended.builder().body().blocks().len() + 1,
            self.builder().body().insts().len() == ended.builder().body().insts().len(),
            forall|k: int|
                0 <= k < ended.builder().body().insts().len()
                    ==> (#[trigger] self.builder().body().insts()[k]).opcode
                    == ended.builder().body().insts()[k].opcode,
            forall|b: int|
                0 <= b < ended.builder().body().blocks().len()
                    ==> #[trigger] self.builder().body().blocks()[b]
                    == ended.builder().body().blocks()[b],
            self.builder().body().blocks()[self.current().0 as int].insts@.len() == 0,
            self.builder().wf(),
        ensures
            self.blocks_wf(),
    {
        let body = self.builder().body();
        let mid = ended.builder().body();
        let old_body = before.builder().body();
        let c0 = before.current().0 as int;
        assert forall|b: int| self.pending(b) == before.pending(b) by {}
        assert forall|b: int| 0 <= b < body.blocks().len() && self.pending(b)
            implies (#[trigger] body.blocks()[b]).insts@.len()
            == 0 by {
            before.lemma_pending_is_old(b);
            assert(body.blocks()[b] == mid.blocks()[b]);
            assert(mid.blocks()[b].insts@ == old_body.blocks()[b].insts@);
        }
        assert forall|b: int|
            0 <= b < body.blocks().len() && b != self.current().0 && b != c0 && !self.pending(b) && (b
                >= old_body.blocks().len() || before.pending(b)) implies #[trigger] body.terminated(b) by {
            assert(body.blocks()[b] == mid.blocks()[b]);
            assert(mid.terminated(b));
            body.lemma_block_kept(&mid, b);
        }
        if self.pending(self.current().0 as int) {
            before.lemma_pending_is_old(self.current().0 as int);
        }
        assert(code_kept(&body, &old_body, c0, seq![n])) by {
            assert(body.blocks()[c0] == mid.blocks()[c0]);
            assert(body.blocks()[c0].insts@ =~= old_body.blocks()[c0].insts@ + seq![n]);
            assert forall|b: int| 0 <= b < old_body.blocks().len() && b != c0
                implies (#[trigger] body.blocks()[b]).insts@
                == old_body.blocks()[b].insts@ || body.terminated(b) by {
                assert(body.blocks()[b] == mid.blocks()[b]);
            }
        }
        self.lemma_blocks_new_current(before, n);
    }

    /// Gives the branch `n` one more target: the control construct at depth
    /// `index`, counted from the function itself, with `args` as the
    /// operands that the branch passes on. A branch to the function goes to
    /// a new block that returns `args`.
    pub fn add_label_target(&mut self, n: Inst, index: usize, args: &Vec<Value>)
        requires
            old(self).wf(),
            old(self).builder().body().valid_inst(n),
            index < old(self).frames().len(),
            old(self).builder().body().all_live(args@),
            args@.len() == old(self).spec_label_arity(index as int),
        ensures
            final(self).wf(),
            final(self).builder().extends(&old(self).builder()),
            final(self).frames() == old(self).frames(),
            final(self).stack() == old(self).stack(),
            final(self).current() == old(self).current(),
            final(self).polymorphic() == old(self).polymorphic(),
            final(self).builder().body().insts().len() == old(self).builder().body().insts().len()
                + (if index
                == 0 {
                1int
            } else {
                0int
            }),
            forall|k: int|
                0 <= k < old(self).builder().body().insts().len() && k != n.0
                    ==> #[trigger] final(self).builder().body().insts()[k]
                    == old(self).builder().body().insts()[k],
            forall|k: int|
                old(self).builder().body().insts().len()
                    <= k < final(self).builder().body().insts().len() ==> (
                #[trigger] final(self).builder().body().insts()[k]).opcode == Opcode::Ret,
            final(self).builder().body().insts()[n.0 as int].opcode
                == old(self).builder().body().insts()[n.0 as int].opcode,
            final(self).builder().body().insts()[n.0 as int].block
                == old(self).builder().body().insts()[n.0 as int].block,
            final(self).builder().body().insts()[n.0 as int].args
                == old(self).builder().body().insts()[n.0 as int].args,
            final(self).builder().body().insts()[n.0 as int].results
                == old(self).builder().body().insts()[n.0 as int].results,
            final(self).builder().body().insts()[n.0 as int].targets@.len()
                == old(self).builder().body().insts()[n.0 as int].targets@.len()
                + 1,
            final(self).builder().body().insts()[n.0 as int].targets@.drop_last()
                == old(self).builder().body().insts()[n.0 as int].targets@,
            index > 0 ==> final(self).builder().body().insts()[n.0 as int].targets@.last().block == old(
                self,
            ).frames()[index as int].spec_branch_target(),
            index == 0 ==> final(self).builder().body().insts()[n.0 as int].targets@.last().block.0 == old(
                self,
            ).builder().state().len(),
            final(self).builder().body().blocks().len() == old(self).builder().body().blocks().len()
                + (if index
                == 0 {
                1int
            } else {
                0int
            }),
            forall|b: int|
                0 <= b < old(self).builder().body().blocks().len()
                    ==> (#[trigger] final(self).builder().body().blocks()[b]).insts@
                    == old(self).builder().body().blocks()[b].insts@,
            index == 0
                ==> final(self).builder().body().terminated(old(self).builder().body().blocks().len() as int),
            index == 0 ==> final(self).builder().state()[old(self).builder().state().len() as int].sealed,
            final(self).builder().state().len() == final(self).builder().body().blocks().len(),
            index > 0 ==> target_args(
                &final(self).builder().body(),
                n.0 as int,
                old(self).builder().body().insts()[n.0 as int].targets@.len() as int,
            ) == args@,
            forall|b: int, e: int|
                0 <= b < old(self).builder().body().blocks().len() && 0
                    <= e < old(self).builder().body().blocks()[b].preds@.len()
                    ==> #[trigger] final(self).builder().body().blocks()[b].preds@[e]
                        == old(self).builder().body().blocks()[b].preds@[e],
    {
        proof {
            assert(self.frame_wf(index as int));
        }
        if index == 0 {
            let empty: Vec<Type> = Vec::new();
            let (ret, _) = self.builder.create_block_with_params(&empty);
            proof {
                assert forall|k: int| 0 <= k < self.stack()@.len() implies self.builder().body().live(
                    #[trigger] self.stack()@[k],
                ) by {
                    assert(old(self).builder().body().live(old(self).stack()@[k]));
                }
                self.lemma_step(old(self));
            }
            let ghost created = *self;
            let t = self.add_branch_target(n, ret, Vec::new());
            let ghost branched = *self;
            proof {
                self.lemma_new_is_closable(old(self), ret);
            }
            self.seal_fresh(ret);
            let ghost sealed = *self;
            proof {
                branched.builder().lemma_extends_trans(&created.builder(), &old(self).builder());
                self.builder().lemma_extends_after_seal(&branched.builder(), &old(self).builder(), ret);
                assert forall|k: int| 0 <= k < args@.len()
                    implies self.builder().body().live(#[trigger] args@[k]) by {
                    assert(old(self).builder().body().live(args@[k]));
                }
            }
            let values = copy_values(args);
            let inst = self.builder.ins(ret, Opcode::Ret, values, &empty);
            proof {
                self.builder().lemma_extends_same_state(&sealed.builder());
                self.builder().lemma_extends_trans(&sealed.builder(), &old(self).builder());
                assert forall|k: int| 0 <= k < self.stack()@.len() implies self.builder().body().live(
                    #[trigger] self.stack()@[k],
                ) by {
                    assert(old(self).builder().body().live(old(self).stack()@[k]));
                }
                self.lemma_step(old(self));
                assert(self.builder().body().insts()[n.0 as int].targets@.drop_last()
                    =~= old(self).builder().body().insts()[n.0 as int].targets@);
                let body = self.builder().body();
                let r = ret.0 as int;
                assert(body.blocks()[r].insts@ =~= seq![inst]);
                assert(body.terminator_at(r, 0));
                assert forall|b: int| 0 <= b < old(self).builder().body().blocks().len() implies (
                #[trigger] body.blocks()[b]).insts@ == old(self).builder().body().blocks()[b].insts@ by {
                    assert(sealed.builder().body().blocks()[b] == branched.builder().body().blocks()[b]);
                    assert(created.builder().body().blocks()[b] == old(self).builder().body().blocks()[b]);
                }
                assert forall|b: int, e: int|
                    0 <= b < old(self).builder().body().blocks().len() && 0
                        <= e < old(self).builder().body().blocks()[b].preds@.len()
                            implies #[trigger] body.blocks()[b].preds@[e]
                    == old(self).builder().body().blocks()[b].preds@[e] by {
                    assert(sealed.builder().body().blocks()[b] == branched.builder().body().blocks()[b]);
                    assert(branched.builder().body().blocks()[b] == created.builder().body().blocks()[b]);
                    assert(created.builder().body().blocks()[b] == old(self).builder().body().blocks()[b]);
                }
            }
        } else {
            let target = self.frames[index].branch_target();
            let values = copy_values(args);
            let t = self.add_branch_target(n, target, values);
            proof {
                assert(self.builder().body().insts()[n.0 as int].targets@.drop_last()
                    =~= old(self).builder().body().insts()[n.0 as int].targets@);
            }
        }
    }

    /// What [`FunctionTranslator::translate_br`] does to `before`, with `self`
    /// as what comes of it and `r` as its result.
    pub open spec fn branched(
        &self,
        before: &FunctionTranslator,
        depth: u32,
        r: Result<(), TranslateError>,
    ) -> bool {
        &&& (match before.br_refusal(depth) {
            Some(e) => r matches Err(x) && x == e && *self == *before,
            None => r is Ok,
        })
        &&& (match r {
            Ok(_) => {
                let n = before.builder().body().insts().len() as int;
                let index = before.frames().len() - 1 - depth;
                &&& self.wf()
                &&& depth < before.frames().len()
                &&& self.builder().extends(&before.builder())
                &&& self.frames() == before.frames()
                &&& self.polymorphic()
                &&& self.builder().body().insts().len() == n + 1
                &&& forall|k: int|
                    0 <= k < n ==> #[trigger] self.builder().body().insts()[k]
                        == before.builder().body().insts()[k]
                &&& self.builder().body().insts()[n].block == before.current()
                &&& if index == 0 {
                    &&& self.builder().body().insts()[n].opcode == Opcode::Ret
                    &&& self.builder().body().insts()[n].targets@.len() == 0
                    &&& self.builder().body().insts()[n].args@.len()
                        == before.frames()[0].arity
                } else {
                    &&& self.builder().body().insts()[n].opcode == Opcode::Br
                    &&& self.builder().body().insts()[n].targets@.len() == 1
                    &&& self.builder().body().insts()[n].targets@[0].block
                        == before.frames()[index].spec_branch_target()
                    &&& before.frames()[index].spec_branch_arity() <= before.stack().available()
                        ==> target_args(&self.builder().body(), n, 0) == before.stack()@.skip(
                        before.stack()@.len() - before.frames()[index].spec_branch_arity(),
                    )
                }
            },
            Err(TranslateError::UnknownLabel(d)) => d == depth && depth >= before.frames().len(),
            Err(TranslateError::StackUnderflow) => depth < before.frames().len()
                && before.spec_label_arity(before.frames().len() - 1 - depth) > before.stack().available()
                && !before.polymorphic(),
            Err(_) => false,
        })
        &&& (r is Ok && before.blocks_wf() ==> self.blocks_wf())
        &&& (r is Ok && before.seals_wf() ==> self.seals_wf())
        &&& (r is Ok ==> self.code_grown(before, 0))
    }

    /// Translates `br`: the current block jumps to the control construct
    /// that `depth` names and passes on the operands that the construct
    /// takes, from the top of the stack. A branch to the function returns.
    /// The code behind the branch can never run.
    pub fn translate_br(&mut self, depth: u32) -> (r: Result<(), TranslateError>)
        requires
            old(self).wf(),
            !old(self).finished(),
        ensures
            final(self).branched(old(self), depth, r),
    {
        let index = match self.label(depth) {
            Ok(index) => index,
            Err(e) => {
                return Err(e);
            },
        };
        if index == 0 {
            return self.translate_return();
        }
        let arity = self.label_arity(index);
        let args = match self.pop_operands(arity) {
            Ok(args) => args,
            Err(e) => {
                return Err(e);
            },
        };
        let ghost popped = *self;
        let empty: Vec<Type> = Vec::new();
        let n = self.emit(Opcode::Br, Vec::new(), &empty);
        let ghost emitted = *self;
        proof {
            assert forall|k: int| 0 <= k < args@.len()
                implies self.builder().body().live(#[trigger] args@[k]) by {
                assert(popped.builder().body().live(args@[k]));
            }
        }
        self.add_label_target(n, index, &args);
        let ghost branched = *self;
        self.go_dead();
        proof {
            branched.builder().lemma_extends_trans(&emitted.builder(), &popped.builder());
            branched.builder().lemma_extends_trans(&popped.builder(), &old(self).builder());
            self.builder().lemma_extends_trans(&branched.builder(), &old(self).builder());
            assert(branched.builder().body().insts()[n.0 as int].targets@.len() == 1);
            assert(branched.builder().body().insts()[n.0 as int].targets@[0]
                == branched.builder().body().insts()[n.0 as int].targets@.last());
            assert(branched.frame_wf(index as int));
            assert(branched.builder().body().inst_wf(n.0 as int));
            assert(branched.builder().body().target_wf(branched.builder().body().insts()[n.0 as int].targets@[0], n.0 as int));
            assert(target_args(&self.builder().body(), n.0 as int, 0) == target_args(
                &branched.builder().body(),
                n.0 as int,
                0,
            ));
            if old(self).blocks_wf() {
                assert forall|b: int|
                    0 <= b < old(self).builder().body().blocks().len() && b
                        != old(self).current().0 implies (
                #[trigger] branched.builder().body().blocks()[b]).insts@
                    == old(self).builder().body().blocks()[b].insts@ by {
                    assert(emitted.builder().body().blocks()[b] == popped.builder().body().blocks()[b]);
                }
                self.lemma_blocks_after_jump(old(self), &branched, n);
            }
        }
        Ok(())
    }
}

impl FunctionTranslator {
    /// What [`FunctionTranslator::translate_br_if`] does to `before`, with `self`
    /// as what comes of it and `r` as its result.
    pub open spec fn branched_if(
        &self,
        before: &FunctionTranslator,
        depth: u32,
        r: Result<(), TranslateError>,
    ) -> bool {
        &&& (match before.br_if_refusal(depth) {
            Some(e) => r matches Err(x) && x == e && *self == *before,
            None => r is Ok,
        })
        &&& (match r {
            Ok(_) => {
                let n = before.builder().body().insts().len() as int;
                let index = before.frames().len() - 1 - depth;
                &&& self.wf()
                &&& depth < before.frames().len()
                &&& self.builder().extends(&before.builder())
                &&& self.frames() == before.frames()
                &&& self.polymorphic() == before.polymorphic()
                &&& self.builder().state()[self.current().0 as int].sealed
                &&& self.builder().body().insts().len() >= n + 1
                &&& forall|k: int|
                    0 <= k < n ==> #[trigger] self.builder().body().insts()[k]
                        == before.builder().body().insts()[k]
                &&& forall|k: int|
                    n < k < self.builder().body().insts().len()
                        ==> (#[trigger] self.builder().body().insts()[k]).opcode
                        == Opcode::Ret
                &&& self.builder().body().insts()[n].opcode == Opcode::CondBr
                &&& self.builder().body().insts()[n].block == before.current()
                &&& self.builder().body().insts()[n].args@.len() == 1
                &&& self.builder().body().insts()[n].targets@.len() == 2
                &&& self.builder().body().insts()[n].targets@[1].block == self.current()
                &&& index > 0 ==> self.builder().body().insts()[n].targets@[0].block
                    == before.frames()[index].spec_branch_target()
                &&& before.spec_label_arity(index) < before.stack().available()
                    ==> self.stack()@
                    == before.stack()@.drop_last()
                        && self.builder().body().insts()[n].args@[0]
                    == before.stack()@.last()
                &&& index > 0 && before.spec_label_arity(index) < before.stack().available()
                    ==> target_args(&self.builder().body(), n, 0)
                        == before.stack()@.drop_last().skip(
                    before.stack()@.len() - 1 - before.spec_label_arity(index),
                )
            },
            Err(TranslateError::UnknownLabel(d)) => d == depth && depth >= before.frames().len(),
            Err(TranslateError::StackUnderflow) => !before.polymorphic(),
            Err(_) => false,
        })
        &&& (r is Ok && before.blocks_wf() ==> self.blocks_wf())
        &&& (r is Ok && before.seals_wf() ==> self.seals_wf())
        &&& (r is Ok ==> self.code_grown(before, 1))
    }

    /// Translates `br_if`: takes the condition off the stack; the current
    /// block branches to the control construct that `depth` names where the
    /// condition is true, passing on the operands that the construct takes,
    /// and to a new block where it is false. The operands stay on the
    /// stack, and the new block, which is sealed, becomes the current block.
    ///
    /// A label that names no control construct is a defect, and so is code
    /// that can run with fewer operands than the condition and what the
    /// construct takes: [`FunctionTranslator::br_if_refusal`] names the
    /// defect, and nothing changes.
    pub fn translate_br_if(&mut self, depth: u32) -> (r: Result<(), TranslateError>)
        requires
            old(self).wf(),
            !old(self).finished(),
        ensures
            final(self).branched_if(old(self), depth, r),
    {
        let index = match self.label(depth) {
            Ok(index) => index,
            Err(e) => {
                return Err(e);
            },
        };
        let arity = self.label_arity(index);
        if !self.polymorphic && self.stack.count_available() <= arity {
            return Err(TranslateError::StackUnderflow);
        }
        let cond = match self.pop_operand() {
            Ok(v) => v,
            Err(e) => {
                return Err(e);
            },
        };
        let ghost first = *self;
        let args = match self.pop_operands(arity) {
            Ok(args) => args,
            Err(e) => {
                proof {
                    assert(false);
                }
                return Err(e);
            },
        };
        let ghost second = *self;
        self.push_operands(&args);
        let ghost restored = *self;
        proof {
            second.builder().lemma_extends_trans(&first.builder(), &old(self).builder());
            if arity < old(self).stack().available() {
                assert(self.stack()@ =~= old(self).stack()@.drop_last());
            }
        }
        let empty: Vec<Type> = Vec::new();
        proof {
            self.builder().lemma_extends_trans(&second.builder(), &old(self).builder());
            assert(self.builder().body().live(cond)) by {
                assert(first.builder().body().live(cond));
                assert(second.builder().body().live(cond));
            }
        }
        let mut operands: Vec<Value> = Vec::new();
        operands.push(cond);
        let n = self.emit(Opcode::CondBr, operands, &empty);
        let ghost emitted = *self;
        proof {
            self.builder().lemma_extends_trans(&restored.builder(), &old(self).builder());
            assert forall|k: int| 0 <= k < args@.len()
                implies self.builder().body().live(#[trigger] args@[k]) by {
                assert(second.builder().body().live(args@[k]));
            }
        }
        self.add_label_target(n, index, &args);
        let ghost one = *self;
        proof {
            self.builder().lemma_extends_trans(&emitted.builder(), &old(self).builder());
        }
        let (next, _) = self.builder.create_block_with_params(&empty);
        proof {
            assert forall|k: int| 0 <= k < self.stack()@.len() implies self.builder().body().live(
                #[trigger] self.stack()@[k],
            ) by {
                assert(one.builder().body().live(one.stack()@[k]));
            }
            self.lemma_step(&one);
            self.builder().lemma_extends_trans(&one.builder(), &old(self).builder());
        }
        let ghost created = *self;
        self.add_branch_target(n, next, Vec::new());
        let ghost two = *self;
        proof {
            self.builder().lemma_extends_trans(&created.builder(), &old(self).builder());
            self.lemma_new_is_closable(old(self), next);
        }
        self.seal_fresh(next);
        self.current = next;
        proof {
            self.builder().lemma_extends_after_seal(&two.builder(), &old(self).builder(), next);
            assert forall|k: int| 0 <= k < self.stack()@.len() implies self.builder().body().live(
                #[trigger] self.stack()@[k],
            ) by {
                assert(two.builder().body().live(two.stack()@[k]));
            }
            self.lemma_step(old(self));
            let data = self.builder().body().insts()[n.0 as int];
            assert(data.targets@[0] == one.builder().body().insts()[n.0 as int].targets@[0]);
            assert(one.builder().body().insts()[n.0 as int].targets@[0]
                == one.builder().body().insts()[n.0 as int].targets@.last());
            if index > 0 {
                let t = data.targets@[0];
                assert(one.builder().body().inst_wf(n.0 as int));
                assert(one.builder().body().target_wf(t, n.0 as int));
                assert(created.builder().body().blocks()[t.block.0 as int]
                    == one.builder().body().blocks()[t.block.0 as int]);
                assert(two.builder().body().blocks()[t.block.0 as int]
                    == created.builder().body().blocks()[t.block.0 as int]);
                assert(target_args(&self.builder().body(), n.0 as int, 0) == target_args(
                    &one.builder().body(),
                    n.0 as int,
                    0,
                ));
                if arity < old(self).stack().available() {
                    assert(first.stack()@ == old(self).stack()@.drop_last());
                }
            }
            assert forall|k: int| n.0 < k < self.builder().body().insts().len() implies (
            #[trigger] self.builder().body().insts()[k]).opcode == Opcode::Ret by {
                assert(self.builder().body().insts()[k] == one.builder().body().insts()[k]);
            }
            if old(self).blocks_wf() {
                let old_body = old(self).builder().body();
                assert forall|b: int|
                    0 <= b < old_body.blocks().len() && b != old(self).current().0 implies (
                #[trigger] one.builder().body().blocks()[b]).insts@ == old_body.blocks()[b].insts@ by {
                    assert(emitted.builder().body().blocks()[b] == restored.builder().body().blocks()[b]);
                }
                assert forall|k: int| 0 <= k < n.0
                    implies (#[trigger] one.builder().body().insts()[k]).opcode
                    == old_body.insts()[k].opcode by {
                    assert(emitted.builder().body().insts()[k] == restored.builder().body().insts()[k]);
                }
                assert forall|b: int| 0 <= b < one.builder().body().blocks().len()
                    implies #[trigger] self.builder().body().blocks()[b]
                    == one.builder().body().blocks()[b] by {
                    assert(created.builder().body().blocks()[b] == one.builder().body().blocks()[b]);
                }
                assert forall|k: int| 0 <= k < one.builder().body().insts().len() implies (
                #[trigger] self.builder().body().insts()[k]).opcode
                    == one.builder().body().insts()[k].opcode by {}
                self.lemma_blocks_after_jump(old(self), &one, n);
            }
        }
        Ok(())
    }

    /// What [`FunctionTranslator::translate_br_table`] does to `before`, with `self`
    /// as what comes of it and `r` as its result.
    pub open spec fn branched_by_table(
        &self,
        before: &FunctionTranslator,
        targets: &Vec<u32>,
        default: u32,
        r: Result<(),
        TranslateError>,
    ) -> bool {
        &&& (match before.table_refusal(targets@, default) {
            Some(e) => r matches Err(x) && x == e && *self == *before,
            None => r is Ok,
        })
        &&& (match r {
            Ok(_) => {
                let n = before.builder().body().insts().len() as int;
                let depth = before.frames().len();
                let data = self.builder().body().insts()[n];
                &&& self.wf()
                &&& self.builder().extends(&before.builder())
                &&& self.frames() == before.frames()
                &&& self.polymorphic()
                &&& self.builder().body().insts().len() >= n + 1
                &&& forall|k: int|
                    0 <= k < n ==> #[trigger] self.builder().body().insts()[k]
                        == before.builder().body().insts()[k]
                &&& forall|k: int|
                    n < k < self.builder().body().insts().len()
                        ==> (#[trigger] self.builder().body().insts()[k]).opcode
                        == Opcode::Ret
                &&& data.opcode == Opcode::BrTable
                &&& data.block == before.current()
                &&& data.args@.len() == 1
                &&& data.targets@.len() == targets@.len() + 1
                &&& default < depth
                &&& forall|i: int|
                    0 <= i < targets@.len() ==> #[trigger] targets@[i] < depth
                        && (depth - 1 - targets@[i] > 0
                        ==> data.targets@[i].block
                            == before.frames()[depth - 1 - targets@[i]].spec_branch_target())
                &&& depth - 1 - default > 0 ==> data.targets@.last().block
                    == before.frames()[depth - 1
                    - default].spec_branch_target()
                &&& before.stack().available() > 0 ==> data.args@[0] == before.stack()@.last()
                &&& before.spec_label_arity(depth - 1 - default) < before.stack().available() ==> {
                    let passed = before.stack()@.drop_last().skip(
                        before.stack()@.len() - 1 - before.spec_label_arity(depth - 1 - default),
                    );
                    &&& forall|i: int|
                        0 <= i < targets@.len() && depth - 1 - targets@[i] > 0
                            ==> #[trigger] target_args(
                            &self.builder().body(),
                            n,
                            i,
                        ) == passed
                    &&& depth - 1 - default > 0 ==> target_args(
                        &self.builder().body(),
                        n,
                        targets@.len() as int,
                    ) == passed
                }
            },
            Err(TranslateError::UnknownLabel(d)) => d >= before.frames().len() && (d == default
                || targets@.contains(d)),
            Err(TranslateError::ArityMismatch) => default < before.frames().len() && exists|i: int|
                0 <= i < targets@.len() && #[trigger] targets@[i] < before.frames().len()
                    && before.spec_label_arity(before.frames().len() - 1 - targets@[i])
                    != before.spec_label_arity(
                    before.frames().len() - 1 - default,
                ),
            Err(TranslateError::StackUnderflow) => !before.polymorphic(),
            Err(_) => false,
        })
        &&& (r is Ok && before.blocks_wf() ==> self.blocks_wf())
        &&& (r is Ok && before.seals_wf() ==> self.seals_wf())
        &&& (r is Ok ==> self.code_grown(before, 1))
    }

    /// Translates `br_table`: takes the selector off the stack; the current
    /// block gets one branch with a target for each entry of `targets`, in
    /// order, and a last one for `default`. Each target is the control
    /// construct that its entry names and is passed the operands that the
    /// construct takes, from the top of the stack; all must take equally
    /// many. No other branch is made. The code behind can never run.
    ///
    /// The defects are those that [`FunctionTranslator::table_refusal`]
    /// names: a label that names no control construct, targets that do not
    /// take equally many operands, and code that can run with fewer operands
    /// than the selector and what the targets take. A defect changes nothing.
    pub fn translate_br_table(&mut self, targets: &Vec<u32>, default: u32) -> (r: Result<(),
        TranslateError>)
        requires
            old(self).wf(),
            !old(self).finished(),
        ensures
            final(self).branched_by_table(old(self), targets, default, r),
    {
        let default_index = match self.label(default) {
            Ok(index) => index,
            Err(e) => {
                return Err(e);
            },
        };
        let arity = self.label_arity(default_index);
        let mut i: usize = 0;
        while i < targets.len()
            invariant
                0 <= i <= targets.len(),
                *self == *old(self),
                arity == self.spec_label_arity(default_index as int),
                default_index == self.frames().len() - 1 - default,
                forall|k: int|
                    0 <= k < i ==> #[trigger] targets@[k] < self.frames().len() && self.spec_label_arity(
                        self.frames().len() - 1 - targets@[k],
                    ) == arity,
                self.targets_refusal(targets@.take(i as int), arity as nat) is None,
            decreases targets.len() - i,
        {
            proof {
                assert(targets@.take(i + 1).drop_last() =~= targets@.take(i as int));
                assert(targets@.take(i + 1).last() == targets@[i as int]);
                if self.targets_refusal(targets@.take(i + 1), arity as nat) is Some {
                    self.lemma_targets_refusal_kept(targets@, arity as nat, i + 1);
                }
            }
            let index = match self.label(targets[i]) {
                Ok(index) => index,
                Err(e) => {
                    return Err(e);
                },
            };
            if self.label_arity(index) != arity {
                return Err(TranslateError::ArityMismatch);
            }
            i += 1;
        }
        proof {
            assert(targets@.take(targets@.len() as int) =~= targets@);
        }
        if !self.polymorphic && self.stack.count_available() <= arity {
            return Err(TranslateError::StackUnderflow);
        }
        let selector = match self.pop_operand() {
            Ok(v) => v,
            Err(e) => {
                return Err(e);
            },
        };
        let ghost first = *self;
        let args = match self.pop_operands(arity) {
            Ok(args) => args,
            Err(e) => {
                proof {
                    assert(false);
                }
                return Err(e);
            },
        };
        let ghost second = *self;
        let empty: Vec<Type> = Vec::new();
        let mut operands: Vec<Value> = Vec::new();
        operands.push(selector);
        proof {
            second.builder().lemma_extends_trans(&first.builder(), &old(self).builder());
            assert(second.builder().body().live(selector)) by {
                assert(first.builder().body().live(selector));
            }
        }
        let n = self.emit(Opcode::BrTable, operands, &empty);
        let ghost emitted = *self;
        proof {
            self.builder().lemma_extends_trans(&second.builder(), &old(self).builder());
            assert forall|k: int| 0 <= k < args@.len()
                implies self.builder().body().live(#[trigger] args@[k]) by {
                assert(second.builder().body().live(args@[k]));
            }
        }
        let ghost depth = old(self).frames().len() as int;
        let mut j: usize = 0;
        while j < targets.len()
            invariant
                0 <= j <= targets.len(),
                self.wf(),
                depth == old(self).frames().len(),
                self.builder().extends(&old(self).builder()),
                self.frames() == old(self).frames(),
                self.stack() == emitted.stack(),
                self.current() == old(self).current(),
                self.polymorphic() == old(self).polymorphic(),
                self.builder().body().all_live(args@),
                args@.len() == arity,
                arity == old(self).spec_label_arity(default_index as int),
                default_index == depth - 1 - default,
                default < depth,
                forall|k: int|
                    0 <= k < targets@.len() ==> #[trigger] targets@[k] < depth
                        && old(self).spec_label_arity(
                        depth - 1 - targets@[k],
                    ) == arity,
                n.0 == old(self).builder().body().insts().len(),
                self.builder().body().insts().len() >= n.0 + 1,
                forall|k: int|
                    0 <= k < n.0 ==> #[trigger] self.builder().body().insts()[k]
                        == old(self).builder().body().insts()[k],
                forall|k: int|
                    n.0 < k < self.builder().body().insts().len()
                        ==> (#[trigger] self.builder().body().insts()[k]).opcode
                        == Opcode::Ret,
                self.builder().body().insts()[n.0 as int].opcode == Opcode::BrTable,
                self.builder().body().insts()[n.0 as int].block == old(self).current(),
                self.builder().body().insts()[n.0 as int].args
                    == emitted.builder().body().insts()[n.0 as int].args,
                self.builder().body().insts()[n.0 as int].targets@.len() == j,
                forall|k: int|
                    0 <= k < j ==> (depth - 1 - targets@[k] > 0
                        ==> (#[trigger] self.builder().body().insts()[n.0 as int].targets@[k]).block
                        == old(self).frames()[depth - 1 - targets@[k]].spec_branch_target()),
                emitted.builder().body().blocks().len() <= self.builder().body().blocks().len(),
                forall|b: int|
                    0 <= b < emitted.builder().body().blocks().len()
                        ==> (#[trigger] self.builder().body().blocks()[b]).insts@
                        == emitted.builder().body().blocks()[b].insts@,
                forall|b: int|
                    emitted.builder().body().blocks().len() <= b < self.builder().body().blocks().len()
                        ==> #[trigger] self.builder().body().terminated(b),
                forall|b: int|
                    emitted.builder().state().len() <= b < self.builder().state().len()
                        ==> (#[trigger] self.builder().state()[b]).sealed,
                forall|k: int|
                    0 <= k < j && depth - 1 - targets@[k] > 0 ==> #[trigger] target_args(
                        &self.builder().body(),
                        n.0 as int,
                        k,
                    ) == args@,
            decreases targets.len() - j,
        {
            let index = self.frames.len() - 1 - targets[j] as usize;
            let ghost prev = *self;
            self.add_label_target(n, index, &args);
            proof {
                self.builder().lemma_extends_trans(&prev.builder(), &old(self).builder());
                assert forall|k: int| 0 <= k < args@.len()
                    implies self.builder().body().live(#[trigger] args@[k]) by {
                    assert(prev.builder().body().live(args@[k]));
                }
                let now = self.builder().body().insts()[n.0 as int].targets@;
                let was = prev.builder().body().insts()[n.0 as int].targets@;
                assert forall|k: int| 0 <= k < j + 1 && depth - 1 - targets@[k] > 0
                    implies (#[trigger] now[k]).block
                    == old(self).frames()[depth - 1 - targets@[k]].spec_branch_target() by {
                    if k < j {
                        assert(now[k] == now.drop_last()[k]);
                        assert(was[k].block
                            == old(self).frames()[depth - 1 - targets@[k]].spec_branch_target() || depth
                            - 1 - targets@[k] <= 0);
                    } else {
                        assert(now[k] == now.last());
                    }
                }
                assert forall|k: int| n.0 < k < self.builder().body().insts().len() implies (
                #[trigger] self.builder().body().insts()[k]).opcode == Opcode::Ret by {
                    if k < prev.builder().body().insts().len() {
                        assert(self.builder().body().insts()[k] == prev.builder().body().insts()[k]);
                    }
                }
                self.lemma_targets_kept(&prev, &emitted);
                assert forall|k: int| 0 <= k < j + 1 && depth - 1 - targets@[k] > 0
                    implies #[trigger] target_args(
                    &self.builder().body(),
                    n.0 as int,
                    k,
                ) == args@ by {
                    if k < j {
                        self.lemma_target_args_kept(&prev, n, k);
                    }
                }
            }
            j += 1;
        }
        let ghost prev = *self;
        self.add_label_target(n, default_index, &args);
        let ghost branched = *self;
        proof {
            self.builder().lemma_extends_trans(&prev.builder(), &old(self).builder());
            let now = self.builder().body().insts()[n.0 as int].targets@;
            let was = prev.builder().body().insts()[n.0 as int].targets@;
            assert forall|k: int| 0 <= k < targets@.len() implies #[trigger] targets@[k] < depth
                && (depth - 1
                - targets@[k] > 0 ==> now[k].block
                    == old(self).frames()[depth - 1 - targets@[k]].spec_branch_target()) by {
                assert(now[k] == now.drop_last()[k]);
                assert(was[k].block == old(self).frames()[depth - 1 - targets@[k]].spec_branch_target()
                    || depth - 1
                    - targets@[k] <= 0);
            }
            assert forall|k: int| n.0 < k < self.builder().body().insts().len() implies (
            #[trigger] self.builder().body().insts()[k]).opcode == Opcode::Ret by {
                if k < prev.builder().body().insts().len() {
                    assert(self.builder().body().insts()[k] == prev.builder().body().insts()[k]);
                }
            }
            self.lemma_targets_kept(&prev, &emitted);
            assert forall|k: int| 0 <= k < targets@.len() && depth - 1 - targets@[k] > 0
                implies #[trigger] target_args(
                &self.builder().body(),
                n.0 as int,
                k,
            ) == args@ by {
                self.lemma_target_args_kept(&prev, n, k);
            }
        }
        let ghost passed = args@;
        self.go_dead();
        proof {
            self.builder().lemma_extends_trans(&branched.builder(), &old(self).builder());
            if old(self).seals_wf() {
                assert forall|b: int|
                    old(self).builder().state().len() <= b < self.builder().state().len() implies (
                #[trigger] self.builder().state()[b]).sealed by {
                    if b < branched.builder().state().len() {
                        assert(branched.builder().state()[b].sealed);
                    }
                }
                self.lemma_seals_grown(old(self));
            }
            if old(self).blocks_wf() {
                let old_body = old(self).builder().body();
                assert forall|b: int|
                    0 <= b < old_body.blocks().len() && b != old(self).current().0 implies (
                #[trigger] branched.builder().body().blocks()[b]).insts@ == old_body.blocks()[b].insts@ by {
                    assert(emitted.builder().body().blocks()[b] == second.builder().body().blocks()[b]);
                }
                assert forall|k: int| 0 <= k < n.0
                    implies (#[trigger] branched.builder().body().insts()[k]).opcode
                    == old_body.insts()[k].opcode by {}
                self.lemma_blocks_after_jump(old(self), &branched, n);
            }
            assert forall|k: int| 0 <= k <= targets@.len() implies #[trigger] target_args(
                &self.builder().body(),
                n.0 as int,
                k,
            ) == target_args(&branched.builder().body(), n.0 as int, k) by {
                assert(branched.builder().body().inst_wf(n.0 as int));
                let t = branched.builder().body().insts()[n.0 as int].targets@[k];
                assert(branched.builder().body().target_wf(t, n.0 as int));
            }
            if arity < old(self).stack().available() {
                assert(first.stack()@ == old(self).stack()@.drop_last());
            }
        }
        Ok(())
    }

    /// One more target of the branch `n` leaves the arguments that `n`
    /// passes to its target at place `k` as they are.
    proof fn lemma_target_args_kept(&self, prev: &FunctionTranslator, n: Inst, k: int)
        requires
            prev.builder().body().wf(),
            prev.builder().body().valid_inst(n),
            0 <= k < prev.builder().body().insts()[n.0 as int].targets@.len(),
            self.builder().body().insts()[n.0 as int].targets@.drop_last()
                == prev.builder().body().insts()[n.0 as int].targets@,
            self.builder().body().insts()[n.0 as int].targets@.len()
                == prev.builder().body().insts()[n.0 as int].targets@.len()
                + 1,
            forall|b: int, e: int|
                0 <= b < prev.builder().body().blocks().len() && 0
                    <= e < prev.builder().body().blocks()[b].preds@.len()
                    ==> #[trigger] self.builder().body().blocks()[b].preds@[e]
                        == prev.builder().body().blocks()[b].preds@[e],
        ensures
            target_args(&self.builder().body(), n.0 as int, k)
                == target_args(&prev.builder().body(), n.0 as int, k),
    {
        let t = prev.builder().body().insts()[n.0 as int].targets@[k];
        assert(self.builder().body().insts()[n.0 as int].targets@[k]
            == self.builder().body().insts()[n.0 as int].targets@.drop_last()[k]);
        assert(prev.builder().body().inst_wf(n.0 as int));
        assert(prev.builder().body().target_wf(t, n.0 as int));
    }

    /// One more target of a branch leaves the blocks that were there with
    /// their instructions, and the blocks that have come since `base`
    /// terminated.
    proof fn lemma_targets_kept(&self, prev: &FunctionTranslator, base: &FunctionTranslator)
        requires
            prev.builder().body().wf(),
            base.builder().body().blocks().len() <= prev.builder().body().blocks().len(),
            prev.builder().body().blocks().len() <= self.builder().body().blocks().len(),
            prev.builder().body().insts().len() <= self.builder().body().insts().len(),
            forall|k: int|
                0 <= k < prev.builder().body().insts().len()
                    ==> (#[trigger] self.builder().body().insts()[k]).opcode
                    == prev.builder().body().insts()[k].opcode,
            forall|b: int|
                0 <= b < base.builder().body().blocks().len()
                    ==> (#[trigger] prev.builder().body().blocks()[b]).insts@
                    == base.builder().body().blocks()[b].insts@,
            forall|b: int|
                base.builder().body().blocks().len() <= b < prev.builder().body().blocks().len()
                    ==> #[trigger] prev.builder().body().terminated(b),
            forall|b: int|
                0 <= b < prev.builder().body().blocks().len()
                    ==> (#[trigger] self.builder().body().blocks()[b]).insts@
                    == prev.builder().body().blocks()[b].insts@,
            forall|b: int|
                prev.builder().body().blocks().len() <= b < self.builder().body().blocks().len()
                    ==> #[trigger] self.builder().body().terminated(b),
        ensures
            forall|b: int|
                0 <= b < base.builder().body().blocks().len()
                    ==> (#[trigger] self.builder().body().blocks()[b]).insts@
                    == base.builder().body().blocks()[b].insts@,
            forall|b: int|
                base.builder().body().blocks().len() <= b < self.builder().body().blocks().len()
                    ==> #[trigger] self.builder().body().terminated(b),
    {
        assert forall|b: int| 0 <= b < base.builder().body().blocks().len() implies (
        #[trigger] self.builder().body().blocks()[b]).insts@
            == base.builder().body().blocks()[b].insts@ by {
            assert(prev.builder().body().blocks()[b].insts@ == base.builder().body().blocks()[b].insts@);
        }
        assert forall|b: int|
            base.builder().body().blocks().len() <= b < self.builder().body().blocks().len()
                implies #[trigger] self.builder().body().terminated(
            b,
        ) by {
            if b < prev.builder().body().blocks().len() {
                assert(prev.builder().body().terminated(b));
                self.builder().body().lemma_block_kept(&prev.builder().body(), b);
            }
        }
    }

    /// The body that has been built, once the end of the function has been
    /// translated.
    pub fn finish(self) -> (body: crate::ir::Body)
        requires
            self.wf(),
        ensures
            body == self.builder().body(),
            body.wf(),
    {
        self.builder.finish()
    }
}

/// The operations on two operands.
#[derive(Clone, Copy, Debug, PartialEq, Eq, Structural)]
pub enum BinaryOp {
    Add,
    Sub,
    Mul,
    And,
    Or,
    Xor,
    Eq,
    Ne,
    Lt,
    Gt,
}

impl BinaryOp {
    /// The opcode of the instruction that performs the operation.
    pub open spec fn spec_opcode(self) -> Opcode {
        match self {
            BinaryOp::Add => Opcode::Add,
            BinaryOp::Sub => Opcode::Sub,
            BinaryOp::Mul => Opcode::Mul,
            BinaryOp::And => Opcode::And,
            BinaryOp::Or => Opcode::Or,
            BinaryOp::Xor => Opcode::Xor,
            BinaryOp::Eq => Opcode::Eq,
            BinaryOp::Ne => Opcode::Ne,
            BinaryOp::Lt => Opcode::Lt,
            BinaryOp::Gt => Opcode::Gt,
        }
    }

    /// The type of the result for operands of type `ty`: a comparison gives
    /// a 32-bit integer, the other operations give what they take.
    pub open spec fn spec_result_type(self, ty: Type) -> Type {
        match self {
            BinaryOp::Eq | BinaryOp::Ne | BinaryOp::Lt | BinaryOp::Gt => Type::I32,
            _ => ty,
        }
    }

    /// The opcode of the instruction that performs the operation.
    pub fn opcode(&self) -> (o: Opcode)
        ensures
            o == self.spec_opcode(),
    {
        match self {
            BinaryOp::Add => Opcode::Add,
            BinaryOp::Sub => Opcode::Sub,
            BinaryOp::Mul => Opcode::Mul,
            BinaryOp::And => Opcode::And,
            BinaryOp::Or => Opcode::Or,
            BinaryOp::Xor => Opcode::Xor,
            BinaryOp::Eq => Opcode::Eq,
            BinaryOp::Ne => Opcode::Ne,
            BinaryOp::Lt => Opcode::Lt,
            BinaryOp::Gt => Opcode::Gt,
        }
    }

    /// The type of the result for operands of type `ty`.
    pub fn result_type(&self, ty: Type) -> (t: Type)
        ensures
            t == self.spec_result_type(ty),
    {
        match self {
            BinaryOp::Eq | BinaryOp::Ne | BinaryOp::Lt | BinaryOp::Gt => Type::I32,
            _ => ty,
        }
    }
}

/// The operators of the stack code.
#[derive(Debug)]
pub enum Operator {
    Unreachable,
    Nop,
    Block { results: Vec<Type> },
    Loop { results: Vec<Type> },
    If { results: Vec<Type> },
    Else,
    End,
    Br { depth: u32 },
    BrIf { depth: u32 },
    BrTable { targets: Vec<u32>, default: u32 },
    Return,
    /// A call of the function with the index `callee` in the module, which
    /// takes `params` operands and gives results of the types `results`.
    Call { callee: u32, params: u16, results: Vec<Type> },
    /// A call through the table of a function with the signature of the
    /// index `signature`, which takes `params` operands, and the place in
    /// the table on top of them, and gives results of the types `results`.
    CallIndirect { signature: u32, params: u16, results: Vec<Type> },
    Drop,
    Select { ty: Type },
    LocalGet(u32),
    LocalSet(u32),
    LocalTee(u32),
    GlobalGet { global: u32, ty: Type },
    GlobalSet { global: u32 },
    Load { ty: Type, offset: u32 },
    Store { offset: u32 },
    Const { ty: Type, bits: u64 },
    Eqz,
    Binary { op: BinaryOp, ty: Type },
}

/// True when `code` is straight-line code: operators that neither begin
/// nor end a control construct and do not branch, and behind them the `end`
/// of the function.
pub open spec fn straight_line(code: Seq<Operator>) -> bool {
    &&& code.len() > 0
    &&& code.last() is End
    &&& forall|i: int| 0 <= i < code.len() - 1 ==> (#[trigger] code[i]).is_straight()
}

impl Operator {
    /// The number of conditional branches and branch tables that the
    /// operator is translated into: one for `if`, `br_if` and `br_table`,
    /// none for the others.
    pub open spec fn branches(&self) -> int {
        if self is If || self is BrIf || self is BrTable {
            1
        } else {
            0
        }
    }

    /// True for the operators that neither begin a control construct nor
    /// branch to one: those of straight-line code, `return`, `unreachable`
    /// and `end`.
    pub open spec fn is_branch_free(&self) -> bool {
        self.is_straight() || self is Return || self is Unreachable || self is End
    }

    /// True for the operators that neither begin nor end a control
    /// construct and do not branch.
    pub open spec fn is_straight(&self) -> bool {
        self.shape() is Some || self is Nop || self is Drop || self is LocalGet || self is LocalSet || self
            is LocalTee
    }

    /// True when the operator says of a control construct or of a call that
    /// it leaves several operands on the stack.
    pub open spec fn spec_leaves_several(&self) -> bool {
        match self {
            Operator::Block { results } => results@.len() > 1,
            Operator::Loop { results } => results@.len() > 1,
            Operator::If { results } => results@.len() > 1,
            Operator::Call { results, .. } => results@.len() > 1,
            Operator::CallIndirect { results, .. } => results@.len() > 1,
            _ => false,
        }
    }

    /// True when the operator says of a control construct or of a call that
    /// it leaves several operands on the stack.
    pub fn leaves_several(&self) -> (r: bool)
        ensures
            r == self.spec_leaves_several(),
    {
        match self {
            Operator::Block { results } => results.len() > 1,
            Operator::Loop { results } => results.len() > 1,
            Operator::If { results } => results.len() > 1,
            Operator::Call { results, .. } => results.len() > 1,
            Operator::CallIndirect { results, .. } => results.len() > 1,
            _ => false,
        }
    }

    /// For an operator that is translated into one instruction which takes
    /// its operands from the stack and puts its results there: the opcode,
    /// the number of operands, and the types of the results.
    pub open spec fn shape(&self) -> Option<(Opcode, nat, Seq<Type>)> {
        match self {
            Operator::Const { ty, bits } => Some((Opcode::Const(*bits), 0nat, seq![*ty])),
            Operator::Eqz => Some((Opcode::Eqz, 1nat, seq![Type::I32])),
            Operator::Binary { op, ty } => Some((op.spec_opcode(), 2nat, seq![op.spec_result_type(*ty)])),
            Operator::Select { ty } => Some((Opcode::Select, 3nat, seq![*ty])),
            Operator::Load { ty, offset } => Some((Opcode::Load(*offset), 1nat, seq![*ty])),
            Operator::Store { offset } => Some((Opcode::Store(*offset), 2nat, Seq::empty())),
            Operator::GlobalGet { global, ty } => Some((Opcode::GlobalGet(*global), 0nat, seq![*ty])),
            Operator::GlobalSet { global } => Some((Opcode::GlobalSet(*global), 1nat, Seq::empty())),
            Operator::Call { callee, params, results } => Some(
                (Opcode::Call(*callee), *params as nat, results@),
            ),
            Operator::CallIndirect { signature, params, results } => Some(
                (Opcode::CallIndirect(*signature), (*params + 1) as nat, results@),
            ),
            _ => None,
        }
    }
}

/// The vector with the one type `ty`.
fn one_type(ty: Type) -> (v: Vec<Type>)
    ensures
        v@ == seq![ty],
{
    let mut v: Vec<Type> = Vec::new();
    v.push(ty);
    v
}

impl FunctionTranslator {
    /// What [`FunctionTranslator::translate_operator`] does to `before`
    /// for the operator `op`, with `self` as what comes of it and `r` as its
    /// result.
    pub open spec fn translated(&self, before: &FunctionTranslator, op: &Operator, r: Result<(),
        TranslateError>) -> bool {
        &&& (r is Ok ==> self.wf())
        &&& (before.finished() ==> r == Err::<(), TranslateError>(TranslateError::AfterEnd) && *self
                == *before)
        &&& (!before.finished() ==> match op {
                Operator::Nop => r is Ok && *self == *before,
                Operator::Unreachable => r is Ok && self.made_unreachable(before),
                Operator::Block { results } => r is Ok && self.block_begun(before, results),
                Operator::Loop { results } => r is Ok && self.loop_begun(before, results),
                Operator::If { results } => self.if_begun(before, results, r),
                Operator::Else => self.else_begun(before, r),
                Operator::End => self.ended(before, r),
                Operator::Br { depth } => self.branched(before, *depth, r),
                Operator::BrIf { depth } => self.branched_if(before, *depth, r),
                Operator::BrTable { targets, default } => self.branched_by_table(
                    before,
                    targets,
                    *default,
                    r,
                ),
                Operator::Return => self.returned(before, r),
                Operator::Drop => self.dropped(before, r),
                Operator::LocalGet(index) => self.local_read(before, *index, r),
                Operator::LocalSet(index) => self.local_written(before, *index, false, r),
                Operator::LocalTee(index) => self.local_written(before, *index, true, r),
                _ => {
                    let shape = op.shape().unwrap();
                    self.applied(
                        before,
                        shape.0,
                        shape.1,
                        shape.2,
                        match r {
                            Ok(_) => Ok(Inst(before.builder().body().insts().len() as usize)),
                            Err(e) => Err(e),
                        },
                    )
                },
            })
        &&& (r is Ok && op.is_straight() ==> self.frames() == before.frames())
        &&& (forall|p: nat|
                r is Ok && op.is_straight() && #[trigger] before.single_block(p) ==> self.single_block(p))
        &&& (forall|p: nat|
                r is Ok && op.is_branch_free() && #[trigger] before.unbranched(p) ==> unbranched_body(
                    &self.builder().body(),
                    p,
                ) && if op is End {
                    self.finished()
                } else {
                    self.unbranched(p)
                })
        &&& (forall|p: nat|
                r is Ok && op is End && #[trigger] before.single_block(p) ==> {
                    let body = self.builder().body();
                    &&& self.finished()
                    &&& body.blocks().len() == 1
                    &&& body.blocks()[0].preds@.len() == 0
                    &&& body.blocks()[0].params@.len() == p
                    &&& body.insts().len() == before.builder().body().insts().len() + 1
                    &&& body.insts().last().opcode == Opcode::Ret
                    &&& body.insts().last().args@.len() == before.frames()[0].arity
                    &&& before.frames()[0].arity <= before.stack().available() ==> body.insts().last().args@
                        == before.stack()@.skip(before.stack()@.len() - before.frames()[0].arity)
                })
        &&& (r is Ok && before.blocks_wf() ==> self.blocks_wf())
        &&& (r is Ok && before.seals_wf() ==> self.seals_wf())
        &&& (r is Ok ==> self.code_grown(before, op.branches()))
        &&& ((op is BrTable && r is Ok) ==> {
                let n = before.builder().body().insts().len() as int;
                &&& self.builder().body().insts().len() >= n + 1
                &&& self.builder().body().insts()[n].opcode == Opcode::BrTable
                &&& self.builder().body().insts()[n].targets@.len() == op->targets@.len() + 1
                &&& forall|k: int|
                    n < k < self.builder().body().insts().len()
                        ==> (#[trigger] self.builder().body().insts()[k]).opcode
                        == Opcode::Ret
            })
    }

    /// Translates one operator.
    ///
    /// An operator with a [`Operator::shape`] becomes one instruction, as
    /// [`FunctionTranslator::applied`] says. `nop` changes nothing. Each of
    /// the other operators is translated by the function that is named
    /// after it, and does what that function says. Behind the end of the
    /// function every operator is a defect, and nothing changes.
    pub fn translate_operator(&mut self, op: &Operator) -> (r: Result<(), TranslateError>)
        requires
            old(self).wf(),
        ensures
            final(self).translated(old(self), op, r),
    {
        if self.frames.len() == 0 {
            return Err(TranslateError::AfterEnd);
        }
        match op {
            Operator::Unreachable => {
                self.translate_unreachable();
                Ok(())
            },
            Operator::Nop => Ok(()),
            Operator::Block { results } => {
                self.translate_block(results);
                Ok(())
            },
            Operator::Loop { results } => {
                self.translate_loop(results);
                Ok(())
            },
            Operator::If { results } => self.translate_if(results),
            Operator::Else => self.translate_else(),
            Operator::End => {
                let r = self.translate_end();
                proof {
                    if r is Ok && old(self).frames().len() == 1 {
                        assert(old(self).frame_wf(0));
                        let body = self.builder().body();
                        let n = old(self).builder().body().insts().len() as int;
                        assert(body.insts().last() == body.insts()[n]);
                        assert(body.blocks()[0].params == old(self).builder().body().blocks()[0].params
                            || old(self).builder().body().blocks().len() == 0);
                    }
                }
                r
            },
            Operator::Br { depth } => self.translate_br(*depth),
            Operator::BrIf { depth } => self.translate_br_if(*depth),
            Operator::BrTable { targets, default } => self.translate_br_table(targets, *default),
            Operator::Return => self.translate_return(),
            Operator::Drop => self.translate_drop(),
            Operator::LocalGet(index) => self.translate_local_get(*index),
            Operator::LocalSet(index) => self.translate_local_set(*index, false),
            Operator::LocalTee(index) => self.translate_local_set(*index, true),
            Operator::Const { ty, bits } => {
                let types = one_type(*ty);
                match self.apply(Opcode::Const(*bits), 0, &types) {
                    Ok(_) => Ok(()),
                    Err(e) => Err(e),
                }
            },
            Operator::Eqz => {
                let types = one_type(Type::I32);
                match self.apply(Opcode::Eqz, 1, &types) {
                    Ok(_) => Ok(()),
                    Err(e) => Err(e),
                }
            },
            Operator::Binary { op, ty } => {
                let types = one_type(op.result_type(*ty));
                match self.apply(op.opcode(), 2, &types) {
                    Ok(_) => Ok(()),
                    Err(e) => Err(e),
                }
            },
            Operator::Select { ty } => {
                let types = one_type(*ty);
                match self.apply(Opcode::Select, 3, &types) {
                    Ok(_) => Ok(()),
                    Err(e) => Err(e),
                }
            },
            Operator::Load { ty, offset } => {
                let types = one_type(*ty);
                match self.apply(Opcode::Load(*offset), 1, &types) {
                    Ok(_) => Ok(()),
                    Err(e) => Err(e),
                }
            },
            Operator::Store { offset } => {
                let types: Vec<Type> = Vec::new();
                match self.apply(Opcode::Store(*offset), 2, &types) {
                    Ok(_) => Ok(()),
                    Err(e) => Err(e),
                }
            },
            Operator::GlobalGet { global, ty } => {
                let types = one_type(*ty);
                match self.apply(Opcode::GlobalGet(*global), 0, &types) {
                    Ok(_) => Ok(()),
                    Err(e) => Err(e),
                }
            },
            Operator::GlobalSet { global } => {
                let types: Vec<Type> = Vec::new();
                match self.apply(Opcode::GlobalSet(*global), 1, &types) {
                    Ok(_) => Ok(()),
                    Err(e) => Err(e),
                }
            },
            Operator::Call { callee, params, results } => {
                match self.apply(Opcode::Call(*callee), *params as usize, results) {
                    Ok(_) => Ok(()),
                    Err(e) => Err(e),
                }
            },
            Operator::CallIndirect { signature, params, results } => {
                match self.apply(Opcode::CallIndirect(*signature), *params as usize + 1, results) {
                    Ok(_) => Ok(()),
                    Err(e) => Err(e),
                }
            },
        }
    }
}

impl FunctionTranslator {
    /// What [`FunctionTranslator::translate_operator_with`] does to `before`
    /// for the operator `op` under the options `config`, with `self` as what
    /// comes of it and `r` as its result.
    pub open spec fn stepped(
        &self,
        config: &TranslationConfig,
        before: &FunctionTranslator,
        op: &Operator,
        r: Result<(), TranslateError>,
    ) -> bool {
        &&& (r is Ok ==> self.wf())
        &&& (r is Ok && before.blocks_wf() ==> self.blocks_wf())
        &&& (r is Ok && before.seals_wf() ==> self.seals_wf())
        &&& (if !config.multi_value && op.spec_leaves_several() {
            r == Err::<(), TranslateError>(TranslateError::MultiValueDisabled) && *self
                == *before
        } else if op is CallIndirect && !config.indirect_call_checks && !before.finished() {
            self.applied(
                before,
                Opcode::CallIndirectUnchecked(op->CallIndirect_signature),
                (op->CallIndirect_params + 1) as nat,
                op->CallIndirect_results@,
                match r {
                    Ok(_) => Ok(Inst(before.builder().body().insts().len() as usize)),
                    Err(e) => Err(e),
                },
            )
        } else {
            self.translated(before, op, r)
        })
        &&& (r is Ok ==> self.code_grown(before, op.branches()))
        &&& (forall|p: nat|
            r is Ok && op.is_straight() && #[trigger] before.single_block(p) ==> self.single_block(p))
        &&& (forall|p: nat|
            r is Ok && op.is_branch_free() && #[trigger] before.unbranched(p) ==> unbranched_body(
                &self.builder().body(),
                p,
            ) && if op is End {
                self.finished()
            } else {
                self.unbranched(p)
            })
    }

    /// Translates one operator under the options `config`.
    ///
    /// Where the options do not allow several results, an operator that
    /// leaves several operands on the stack is a defect, and nothing
    /// changes. Where they ask for no checks of indirect calls, a call
    /// through the table becomes one instruction that does not check the
    /// signature, as [`FunctionTranslator::applied`] says. Every other
    /// operator is translated as [`FunctionTranslator::translated`] says.
    pub fn translate_operator_with(&mut self, config: &TranslationConfig, op: &Operator) -> (r: Result<
        (),
        TranslateError,
    >)
        requires
            old(self).wf(),
        ensures
            final(self).stepped(config, old(self), op, r),
    {
        if !config.multi_value && op.leaves_several() {
            return Err(TranslateError::MultiValueDisabled);
        }
        if !config.indirect_call_checks && self.frames.len() > 0 {
            if let Operator::CallIndirect { signature, params, results } = op {
                return match self.apply(Opcode::CallIndirectUnchecked(*signature), *params as usize
                    + 1, results) {
                    Ok(_) => Ok(()),
                    Err(e) => Err(e),
                };
            }
        }
        self.translate_operator(op)
    }
}

/// True when `trace` holds the states that the translation of `code` goes
/// through under the options `config`, for a function with the parameters
/// `params`, the further local variables `locals` and `results` results:
/// the first is that of [`FunctionTranslator::new`], and each of the others
/// comes of the one before it by the operator at its place in `code`, as
/// [`FunctionTranslator::stepped`] says, without a defect.
pub open spec fn translation_run(
    config: &TranslationConfig,
    params: Seq<Type>,
    locals: Seq<Type>,
    results: usize,
    code: Seq<Operator>,
    trace: Seq<FunctionTranslator>,
) -> bool {
    &&& 1 <= trace.len() <= code.len() + 1
    &&& trace[0].begun(params, locals, results)
    &&& forall|i: int|
        0 <= i < trace.len() - 1 ==> trace[i + 1].stepped(config, &(#[trigger] trace[i]), &code[i], Ok(()))
}

/// True when `r` is what the translation of `code` comes to after the
/// states of `trace`. It is the body of the last state, where that state
/// comes of the last operator and is behind the end of the function. It is
/// the defect of the first operator that has one. It is
/// [`TranslateError::MissingEnd`] where the code is used up and the end of
/// the function has not come.
pub open spec fn translation_end(
    config: &TranslationConfig,
    code: Seq<Operator>,
    trace: Seq<FunctionTranslator>,
    r: Result<crate::ir::Body, TranslateError>,
) -> bool {
    let last = trace.last();
    let k = trace.len() - 1;
    match r {
        Ok(body) => k == code.len() && last.finished() && body == last.builder().body(),
        Err(e) => if k == code.len() {
            !last.finished() && e == TranslateError::MissingEnd
        } else {
            exists|after: FunctionTranslator| #[trigger] after.stepped(config, &last, &code[k], Err(e))
        },
    }
}

/// True when `r` is the translation of the code `code` of a function with
/// the parameters `params`, the further local variables `locals` and
/// `results` results under the options `config`.
///
/// A function with several results is a defect where the options do not
/// allow them. Otherwise the operators are translated one after another,
/// from the state that [`FunctionTranslator::new`] makes, until one has a
/// defect or the code is used up: see [`translation_run`] and
/// [`translation_end`].
pub open spec fn translation(
    config: &TranslationConfig,
    params: Seq<Type>,
    locals: Seq<Type>,
    results: usize,
    code: Seq<Operator>,
    r: Result<crate::ir::Body, TranslateError>,
) -> bool {
    if !config.multi_value && results > 1 {
        r matches Err(e) && e == TranslateError::MultiValueDisabled
    } else {
        exists|trace: Seq<FunctionTranslator>| #[trigger]
            translation_run(config, params, locals, results, code, trace) && translation_end(
                config,
                code,
                trace,
                r,
            )
    }
}

/// The opcode of the one instruction that the operator `op` is translated
/// into under the options `config`, where it has a [`Operator::shape`].
pub open spec fn shape_opcode(config: &TranslationConfig, op: &Operator) -> Option<Opcode> {
    match op.shape() {
        Some(shape) => if op is CallIndirect && !config.indirect_call_checks {
            Some(Opcode::CallIndirectUnchecked(op->CallIndirect_signature))
        } else {
            Some(shape.0)
        },
        None => None,
    }
}

/// The opcodes of the instructions that the operators of the straight-line
/// code `code` are translated into under the options `config`, in the
/// order of the code: one for each operator with a [`Operator::shape`].
pub open spec fn straight_opcodes(config: &TranslationConfig, code: Seq<Operator>) -> Seq<Opcode>
    decreases code.len(),
{
    if code.len() == 0 {
        Seq::empty()
    } else {
        match shape_opcode(config, &code.last()) {
            Some(opcode) => straight_opcodes(config, code.drop_last()).push(opcode),
            None => straight_opcodes(config, code.drop_last()),
        }
    }
}

/// The opcodes of the instructions of `body`, in the order in which they
/// were made.
pub open spec fn opcodes_of(body: &crate::ir::Body) -> Seq<Opcode> {
    Seq::new(body.insts().len(), |k: int| body.insts()[k].opcode)
}

/// The opcodes of the body that straight-line code is translated into: a
/// constant zero for each of the `locals` further local variables, then
/// the opcodes of the operators before the `end`, then the return.
pub open spec fn straight_body_opcodes(config: &TranslationConfig, locals: nat, code: Seq<Operator>) -> Seq<
    Opcode,
> {
    Seq::new(locals, |k: int| Opcode::Const(0)) + straight_opcodes(config, code.drop_last()).push(Opcode::Ret)
}

/// One more operator of straight-line code adds its opcode to those of the
/// body.
proof fn lemma_straight_step(
    before: &FunctionTranslator,
    after: &FunctionTranslator,
    config: &TranslationConfig,
    code: Seq<Operator>,
    i: int,
    p: nat,
    head: Seq<Opcode>,
)
    requires
        0 <= i < code.len(),
        code[i].is_straight() || code[i] is End,
        before.wf(),
        before.single_block(p),
        after.stepped(config, before, &code[i], Ok(())),
        opcodes_of(&before.builder().body()) == head + straight_opcodes(config, code.take(i)),
    ensures
        code[i].is_straight() ==> opcodes_of(&after.builder().body()) == head + straight_opcodes(
            config,
            code.take(i + 1),
        ),
        code[i] is End ==> opcodes_of(&after.builder().body()) == head + straight_opcodes(
            config,
            code.take(i),
        ).push(Opcode::Ret),
{
    let body = after.builder().body();
    let old_body = before.builder().body();
    let n = old_body.insts().len() as int;
    let op = code[i];
    assert(code.take(i + 1).drop_last() =~= code.take(i));
    assert(code.take(i + 1).last() == op);
    assert(before.builder().no_merge_points());
    assert(forall|k: int| 0 <= k < n ==> opcodes_of(&old_body)[k] == old_body.insts()[k].opcode);
    if op is End {
        assert(after.translated(before, &op, Ok(())));
        assert(before.frame_wf(0));
        assert(opcodes_of(&body) =~= opcodes_of(&old_body).push(Opcode::Ret));
        assert(opcodes_of(&body) =~= head + straight_opcodes(config, code.take(i)).push(Opcode::Ret));
    } else {
        match shape_opcode(config, &op) {
            Some(opcode) => {
                assert(body.insts().len() == n + 1);
                assert(opcodes_of(&body) =~= opcodes_of(&old_body).push(opcode));
                assert(opcodes_of(&body) =~= head + straight_opcodes(config, code.take(i)).push(opcode));
            },
            None => {
                assert(after.translated(before, &op, Ok(())));
                assert(body.insts().len() == n);
                assert(opcodes_of(&body) =~= opcodes_of(&old_body));
            },
        }
    }
}

/// What the operator `op` of straight-line code comes to under the options
/// `config`, in a function with `locals` local variables and with `height`
/// operands on the stack: the number of operands behind it, or its defect.
pub open spec fn straight_step(config: &TranslationConfig, locals: nat, height: nat, op: &Operator) -> Result<
    nat,
    TranslateError,
> {
    if !config.multi_value && op.spec_leaves_several() {
        Err(TranslateError::MultiValueDisabled)
    } else {
        match op {
            Operator::Drop => if height < 1 {
                Err(TranslateError::StackUnderflow)
            } else {
                Ok((height - 1) as nat)
            },
            Operator::LocalGet(index) => if *index >= locals {
                Err(TranslateError::UnknownLocal(*index))
            } else {
                Ok(height + 1)
            },
            Operator::LocalSet(index) => if *index >= locals {
                Err(TranslateError::UnknownLocal(*index))
            } else if height < 1 {
                Err(TranslateError::StackUnderflow)
            } else {
                Ok((height - 1) as nat)
            },
            Operator::LocalTee(index) => if *index >= locals {
                Err(TranslateError::UnknownLocal(*index))
            } else if height < 1 {
                Err(TranslateError::StackUnderflow)
            } else {
                Ok(height)
            },
            _ => match op.shape() {
                Some(shape) => if shape.1 > height {
                    Err(TranslateError::StackUnderflow)
                } else {
                    Ok((height - shape.1 + shape.2.len()) as nat)
                },
                None => Ok(height),
            },
        }
    }
}

/// What the straight-line code `code` comes to under the options `config`,
/// in a function with `locals` local variables, from an empty stack: the
/// number of operands behind it, or the place of the first operator that
/// has a defect, counted from zero, and that defect.
pub open spec fn straight_outcome(config: &TranslationConfig, locals: nat, code: Seq<Operator>) -> Result<
    nat,
    (int, TranslateError),
>
    decreases code.len(),
{
    if code.len() == 0 {
        Ok(0)
    } else {
        match straight_outcome(config, locals, code.drop_last()) {
            Err(d) => Err(d),
            Ok(height) => match straight_step(config, locals, height, &code.last()) {
                Ok(h) => Ok(h),
                Err(e) => Err((code.len() - 1, e)),
            },
        }
    }
}

/// True when `r` is what the translation of the straight-line code `code`
/// owes: the defect of the first operator that has one, a stack underflow
/// at the `end` where the code leaves fewer operands than the function has
/// results, and a body otherwise.
pub open spec fn straight_result(
    config: &TranslationConfig,
    locals: nat,
    results: nat,
    code: Seq<Operator>,
    r: Result<crate::ir::Body, (usize, TranslateError)>,
) -> bool {
    match straight_outcome(config, locals, code.drop_last()) {
        Err(d) => r matches Err(x) && x.0 == d.0 && x.1 == d.1,
        Ok(height) => if height < results {
            r matches Err(x) && x.0 == code.len() - 1 && x.1 == TranslateError::StackUnderflow
        } else {
            r is Ok
        },
    }
}

/// A defect among the first `n` operators of straight-line code is the
/// defect of the code.
proof fn lemma_straight_outcome_kept(config: &TranslationConfig, locals: nat, code: Seq<Operator>, n: int)
    requires
        0 <= n <= code.len(),
        straight_outcome(config, locals, code.take(n)) is Err,
    ensures
        straight_outcome(config, locals, code) == straight_outcome(config, locals, code.take(n)),
    decreases code.len() - n,
{
    if n < code.len() {
        assert(code.take(n + 1).drop_last() =~= code.take(n));
        lemma_straight_outcome_kept(config, locals, code, n + 1);
    } else {
        assert(code.take(n) =~= code);
    }
}

impl FunctionTranslator {
    /// True while straight-line code is translated: the body is one block,
    /// which defines each of the `locals` local variables, the code can
    /// run, and the stack begins where the function does.
    pub open spec fn straight(&self, params: nat, locals: nat) -> bool {
        &&& self.wf()
        &&& self.single_block(params)
        &&& !self.polymorphic()
        &&& self.frames()[0].height == 0
        &&& self.builder().locals().len() == locals
        &&& forall|x: int| 0 <= x < locals ==> (#[trigger] self.builder().state()[0].defs@[x]) is Some
    }

    /// One operator of straight-line code comes to what
    /// [`straight_step`] says.
    proof fn lemma_straight_outcome_step(
        &self,
        before: &FunctionTranslator,
        config: &TranslationConfig,
        op: &Operator,
        r: Result<(), TranslateError>,
        params: nat,
        locals: nat,
    )
        requires
            before.straight(params, locals),
            op.is_straight(),
            self.stepped(config, before, op, r),
        ensures
            match straight_step(config, locals, before.stack()@.len(), op) {
                Ok(h) => r is Ok && self.straight(params, locals) && self.stack()@.len() == h,
                Err(e) => r == Err::<(), TranslateError>(e),
            },
    {
        reveal_with_fuel(SsaBuilder::chain_end, 2);
        assert(before.frame_wf(0));
        assert(before.stack().available() == before.stack()@.len());
        assert(before.builder().no_merge_points());
        if !config.multi_value && op.spec_leaves_several() {
        } else {
            match op {
                Operator::LocalGet(index) => {
                    if *index < locals {
                        let x = Local(*index as usize);
                        assert(before.builder().state()[0].defs@[*index as int] is Some);
                        assert(!before.builder().continues(Block(0), x));
                        assert(before.builder().search_end(Block(0), x) == Block(0));
                    }
                },
                Operator::LocalSet(index) => {
                    if r is Ok {
                        assert(self.builder().block_wf(0));
                    }
                },
                Operator::LocalTee(index) => {
                    if r is Ok {
                        assert(self.builder().block_wf(0));
                    }
                },
                _ => {},
            }
        }
    }
}

/// True when instruction `k` of `body` has one target for each target of
/// one of the branch tables among the first `n` operators of `code`, and
/// one for its default.
pub open spec fn from_table(body: &crate::ir::Body, k: int, code: Seq<Operator>, n: int) -> bool {
    exists|j: int|
        0 <= j < n && (#[trigger] code[j]) is BrTable && body.insts()[k].targets@.len()
            == code[j]->targets@.len() + 1
}

/// True when `body` has a branch table with one target for each target of
/// the operator at place `j` of `code`, which is a branch table, and one
/// for its default.
pub open spec fn table_of(body: &crate::ir::Body, code: Seq<Operator>, j: int) -> bool {
    exists|k: int|
        0 <= k < body.insts().len() && (#[trigger] body.insts()[k]).opcode is BrTable
            && body.insts()[k].targets@.len() == code[j]->targets@.len() + 1
}

/// True when the branches of `body` are those of the first `n` operators
/// of `code`. Each branch table among the operators is one instruction, a
/// branch table with one target for each of its targets and one for its
/// default, and the body has no other branch table. Where none of the
/// operators is an `if` or a `br_if`, the body has no conditional branch.
pub open spec fn branches_match(body: &crate::ir::Body, code: Seq<Operator>, n: int) -> bool {
    &&& forall|j: int| 0 <= j < n && (#[trigger] code[j]) is BrTable ==> table_of(body, code, j)
    &&& forall|k: int|
        0 <= k < body.insts().len() && (#[trigger] body.insts()[k]).opcode is BrTable ==> from_table(
            body,
            k,
            code,
            n,
        )
    &&& (forall|j: int| 0 <= j < n ==> !((#[trigger] code[j]) is If) && !(code[j] is BrIf)) ==> forall|k: int|
        0 <= k < body.insts().len() ==> !((#[trigger] body.insts()[k]).opcode is CondBr)
}

/// True when the code `code` neither begins a control construct nor
/// branches: it may return, and may come to a place that cannot be reached.
pub open spec fn branch_free(code: Seq<Operator>) -> bool {
    forall|i: int| 0 <= i < code.len() ==> (#[trigger] code[i]).is_branch_free()
}

/// True when no block of `body` is entered by an edge, the entry has
/// `params` parameters, and no other block has a parameter.
pub open spec fn unbranched_body(body: &crate::ir::Body, params: nat) -> bool {
    &&& body.blocks().len() >= 1
    &&& forall|b: int|
        0 <= b < body.blocks().len() ==> (#[trigger] body.blocks()[b]).preds@.len() == 0
            && body.blocks()[b].params@.len() == (if b == 0 {
            params
        } else {
            0
        })
}

/// True when `body` is one block that nothing enters, with `params`
/// parameters, whose last instruction is the last instruction of the body
/// and returns `results` values.
pub open spec fn one_block_body(body: &crate::ir::Body, params: nat, results: nat) -> bool {
    &&& body.blocks().len() == 1
    &&& body.blocks()[0].preds@.len() == 0
    &&& body.blocks()[0].params@.len() == params
    &&& body.insts().len() > 0
    &&& body.insts().last().opcode == Opcode::Ret
    &&& body.insts().last().args@.len() == results
    &&& body.blocks()[0].insts@.len() > 0
    &&& body.blocks()[0].insts@.last().0 == body.insts().len() - 1
}

/// The result `r` without the place of the defect.
pub open spec fn unplaced(r: Result<crate::ir::Body, (usize, TranslateError)>) -> Result<
    crate::ir::Body,
    TranslateError,
> {
    match r {
        Ok(body) => Ok(body),
        Err(d) => Err(d.1),
    }
}

/// True when `r` is the translation of `code`, as [`translation`] says, and
/// names with a defect the place of the operator that has it, counted from
/// zero: for a function with more results than the options allow that is
/// zero, and for code that lacks the end of the function it is the length
/// of the code.
pub open spec fn placed_translation(
    config: &TranslationConfig,
    params: Seq<Type>,
    locals: Seq<Type>,
    results: usize,
    code: Seq<Operator>,
    r: Result<crate::ir::Body, (usize, TranslateError)>,
) -> bool {
    if !config.multi_value && results > 1 {
        r matches Err(d) && d == (0usize, TranslateError::MultiValueDisabled)
    } else {
        exists|trace: Seq<FunctionTranslator>| #[trigger]
            translation_run(config, params, locals, results, code, trace) && translation_end(
                config,
                code,
                trace,
                unplaced(r),
            ) && (r matches Err(d) ==> d.0 == trace.len() - 1)
    }
}

/// The branches of the body match the operators after one more step.
proof fn lemma_branches_step(
    before: &FunctionTranslator,
    after: &FunctionTranslator,
    config: &TranslationConfig,
    code: Seq<Operator>,
    i: int,
)
    requires
        0 <= i < code.len(),
        after.stepped(config, before, &code[i], Ok(())),
        branches_match(&before.builder().body(), code, i),
    ensures
        branches_match(&after.builder().body(), code, i + 1),
{
    let body = after.builder().body();
    let old_body = before.builder().body();
    let n = old_body.insts().len() as int;
    let op = code[i];
    assert(after.code_grown(before, op.branches()));
    assert forall|j: int| 0 <= j < i + 1 && (#[trigger] code[j]) is BrTable implies table_of(
        &body,
        code,
        j,
    ) by {
        if j < i {
            assert(table_of(&old_body, code, j));
            let k = choose|k: int|
                0 <= k < old_body.insts().len() && (#[trigger] old_body.insts()[k]).opcode is BrTable
                    && old_body.insts()[k].targets@.len() == code[j]->targets@.len() + 1;
            assert(body.insts()[k].opcode is BrTable);
        } else {
            assert(after.translated(before, &op, Ok(())));
            assert(body.insts()[n].opcode is BrTable);
        }
    }
    assert forall|k: int| 0 <= k < body.insts().len() && (#[trigger] body.insts()[k]).opcode is BrTable
        implies from_table(&body, k, code, i + 1) by {
        if k < n {
            assert(old_body.insts()[k].opcode is BrTable);
            assert(from_table(&old_body, k, code, i));
            let j = choose|j: int|
                0 <= j < i && (#[trigger] code[j]) is BrTable && old_body.insts()[k].targets@.len()
                    == code[j]->targets@.len() + 1;
            assert(code[j] is BrTable);
        } else {
            assert(k < n + op.branches());
            assert(op is BrTable);
            assert(after.translated(before, &op, Ok(())));
            assert(code[i] is BrTable);
        }
    }
    if forall|j: int| 0 <= j < i + 1 ==> !((#[trigger] code[j]) is If) && !(code[j] is BrIf) {
        assert forall|k: int| 0 <= k < body.insts().len() implies !((#[trigger] body.insts()[k]).opcode
            is CondBr) by {
            if k < n {
                assert(!(old_body.insts()[k].opcode is CondBr));
            } else if k < n + op.branches() {
                assert(!(code[i] is If) && !(code[i] is BrIf));
                assert(op is BrTable);
                assert(after.translated(before, &op, Ok(())));
            }
        }
    }
}

/// Translates the code `code` of a function under the options `config` as
/// [`translate_function_with`] does, and names with a defect the place in
/// `code` of the operator that has it.
///
/// The result is the one that [`placed_translation`] describes. Code that
/// neither begins a control construct nor branches gives a body in which
/// no block but the entry has a parameter, and nothing enters a block. For
/// straight-line code [`straight_result`] says when there is a body, and
/// which defect there is otherwise; the body is one block that ends in the
/// return, with the instructions that [`straight_body_opcodes`] lists. The
/// branches of the body are those of the code, as [`branches_match`] says.
pub fn translate_function_at(
    config: &TranslationConfig,
    params: &Vec<Type>,
    locals: &Vec<Type>,
    results: usize,
    code: &Vec<Operator>,
) -> (r: Result<crate::ir::Body, (usize, TranslateError)>)
    ensures
        placed_translation(config, params@, locals@, results, code@, r),
        translation(config, params@, locals@, results, code@, unplaced(r)),
        r matches Err(d) ==> d.0 <= code@.len(),
        r matches Ok(body) ==> body.wf() && body.complete() && forall|b: int|
            0 <= b < body.blocks().len() ==> #[trigger] body.terminated(b),
        !config.multi_value && results > 1 ==> (r matches Err(d) && d.1
            == TranslateError::MultiValueDisabled),
        r is Ok && !config.multi_value ==> forall|i: int|
            0 <= i < code@.len() ==> !(#[trigger] code@[i]).spec_leaves_several(),
        code@.len() == 0 && (config.multi_value || results <= 1) ==> (r matches Err(d) && d.1
            == TranslateError::MissingEnd),
        straight_line(code@) ==> (r matches Ok(body) ==> one_block_body(
            &body,
            params@.len(),
            results as nat,
        )),
        branch_free(code@) ==> (r matches Ok(body) ==> unbranched_body(&body, params@.len())),
        r matches Ok(body) ==> branches_match(&body, code@, code@.len() as int),
        straight_line(code@) ==> (r matches Ok(body) ==> opcodes_of(&body) == straight_body_opcodes(
            config,
            locals@.len(),
            code@,
        )),
        straight_line(code@) && (config.multi_value || results <= 1) ==> straight_result(
            config,
            params@.len() + locals@.len(),
            results as nat,
            code@,
            r,
        ),
{
    if !config.multi_value && results > 1 {
        return Err((0, TranslateError::MultiValueDisabled));
    }
    let mut t = FunctionTranslator::new(params, locals, results);
    let ghost mut trace: Seq<FunctionTranslator> = seq![t];
    proof {
        assert(code@.take(0) =~= Seq::<Operator>::empty());
        assert(opcodes_of(&t.builder().body()) =~= Seq::new(locals@.len(), |k: int| Opcode::Const(0))
            + straight_opcodes(config, code@.take(0)));
    }
    let mut i: usize = 0;
    while i < code.len()
        invariant
            0 <= i <= code.len(),
            t.wf(),
            t.blocks_wf(),
            t.seals_wf(),
            i == 0 ==> !t.finished(),
            config.multi_value || results <= 1,
            !config.multi_value ==> forall|k: int| 0 <= k < i
                ==> !(#[trigger] code@[k]).spec_leaves_several(),
            trace.len() == i + 1,
            trace.last() == t,
            translation_run(config, params@, locals@, results, code@, trace),
            straight_line(code@) && i < code.len() ==> t.single_block(params@.len()) && t.frames()[0].arity
                == results,
            straight_line(code@) && i == code.len() ==> one_block_body(
                &t.builder().body(),
                params@.len(),
                results as nat,
            ),
            branch_free(code@) ==> unbranched_body(&t.builder().body(), params@.len()) && (t.finished()
                || t.unbranched(params@.len())),
            branches_match(&t.builder().body(), code@, i as int),
            straight_line(code@) && i < code.len() ==> opcodes_of(&t.builder().body()) == Seq::new(
                locals@.len(),
                |k: int| Opcode::Const(0),
            ) + straight_opcodes(config, code@.take(i as int)),
            straight_line(code@) && i == code.len() ==> opcodes_of(&t.builder().body())
                == straight_body_opcodes(config, locals@.len(), code@),
            straight_line(code@) && i < code.len() ==> t.straight(params@.len(), params@.len() + locals@.len())
                && straight_outcome(config, params@.len() + locals@.len(), code@.take(i as int)) == Ok::<
                nat,
                (int, TranslateError),
            >(t.stack()@.len()),
            straight_line(code@) && i == code.len() ==> straight_result(
                config,
                params@.len() + locals@.len(),
                results as nat,
                code@,
                Ok(t.builder().body()),
            ),
        decreases code.len() - i,
    {
        let ghost prev = t;
        let ghost all = params@.len() + locals@.len();
        proof {
            if straight_line(code@) {
                assert(code@.take(i + 1).drop_last() =~= code@.take(i as int));
                assert(code@.take(i + 1).last() == code@[i as int]);
                if i == code.len() - 1 {
                    assert(code@.take(i as int) =~= code@.drop_last());
                }
            }
        }
        match t.translate_operator_with(config, &code[i]) {
            Ok(_) => {},
            Err(e) => {
                proof {
                    assert(t.stepped(config, &prev, &code@[i as int], Err(e)));
                    assert(translation_end(config, code@, trace, Err(e)));
                    if straight_line(code@) {
                        if i < code.len() - 1 {
                            t.lemma_straight_outcome_step(
                                &prev,
                                config,
                                &code@[i as int],
                                Err(e),
                                params@.len(),
                                all,
                            );
                            assert(code@.drop_last().take(i + 1) =~= code@.take(i + 1));
                            lemma_straight_outcome_kept(config, all, code@.drop_last(), i + 1);
                        } else {
                            assert(code@[i as int] is End);
                            assert(t.translated(&prev, &code@[i as int], Err(e)));
                            assert(prev.frame_wf(0));
                        }
                    }
                }
                return Err((i, e));
            },
        }
        proof {
            if straight_line(code@) {
                if i < code.len() - 1 {
                    t.lemma_straight_outcome_step(&prev, config, &code@[i as int], Ok(()), params@.len(), all);
                } else {
                    assert(code@[i as int] is End);
                    assert(t.translated(&prev, &code@[i as int], Ok(())));
                    assert(prev.frame_wf(0));
                }
            }
            let longer = trace.push(t);
            assert forall|k: int| 0 <= k < longer.len() - 1 implies longer[k + 1].stepped(
                config,
                &(#[trigger] longer[k]),
                &code@[k],
                Ok(()),
            ) by {
                if k < trace.len() - 1 {
                    assert(longer[k] == trace[k]);
                    assert(longer[k + 1] == trace[k + 1]);
                }
            }
            assert(longer[0] == trace[0]);
            trace = longer;
            lemma_branches_step(&prev, &t, config, code@, i as int);
            if branch_free(code@) {
                assert(code@[i as int].is_branch_free());
                assert(prev.unbranched(params@.len()));
            }
            if straight_line(code@) {
                assert(prev.single_block(params@.len()));
                assert(code@[i as int].is_straight() || code@[i as int] is End);
                lemma_straight_step(
                    &prev,
                    &t,
                    config,
                    code@,
                    i as int,
                    params@.len(),
                    Seq::new(locals@.len(), |k: int| Opcode::Const(0)),
                );
                if i == code.len() - 1 {
                    assert(code@.take(i as int) =~= code@.drop_last());
                }
                if i < code.len() - 1 {
                    assert(code@[i as int].is_straight());
                    assert(t.frames().len() == 1);
                } else {
                    assert(code@[i as int] == code@.last());
                    assert(prev.frame_wf(0));
                    let body = t.builder().body();
                    let n = prev.builder().body().insts().len() as int;
                    assert(body.insts().last() == body.insts()[n]);
                    assert(!t.pending(0));
                    assert(body.terminated(0));
                    assert(body.inst_wf(n));
                    let at = choose|at: int|
                        0 <= at < body.blocks()[0].insts@.len() && (#[trigger] body.blocks()[0].insts@[at]).0
                            == n;
                    assert(body.terminator_at(0, at));
                }
            }
        }
        i += 1;
    }
    if !t.is_finished() {
        proof {
            assert(translation_end(config, code@, trace, Err(TranslateError::MissingEnd)));
        }
        return Err((i, TranslateError::MissingEnd));
    }
    proof {
        assert forall|b: int| 0 <= b < t.builder().body().blocks().len()
            implies #[trigger] t.builder().body().terminated(
            b,
        ) by {
            assert(!t.pending(b));
        }
        assert forall|b: int| 0 <= b < t.builder().state().len()
            implies (#[trigger] t.builder().state()[b]).sealed by {
            assert(!t.kept_open(b));
        }
        t.builder().lemma_sealed_is_complete();
    }
    let body = t.finish();
    proof {
        assert(translation_end(config, code@, trace, Ok(body)));
    }
    Ok(body)
}

/// Translates the code `code` of a function under the options `config`: as
/// [`translate_function`] does, but that each operator is translated as
/// [`FunctionTranslator::translate_operator_with`] says, and that a function
/// with several results is a defect where the options do not allow them.
/// The result is the one that [`translation`] describes.
pub fn translate_function_with(
    config: &TranslationConfig,
    params: &Vec<Type>,
    locals: &Vec<Type>,
    results: usize,
    code: &Vec<Operator>,
) -> (r: Result<crate::ir::Body, TranslateError>)
    ensures
        translation(config, params@, locals@, results, code@, r),
        r matches Ok(body) ==> body.wf() && body.complete() && forall|b: int|
            0 <= b < body.blocks().len() ==> #[trigger] body.terminated(b),
        !config.multi_value && results > 1 ==> r matches Err(TranslateError::MultiValueDisabled),
        r is Ok && !config.multi_value ==> forall|i: int|
            0 <= i < code@.len() ==> !(#[trigger] code@[i]).spec_leaves_several(),
        code@.len() == 0 && (config.multi_value || results <= 1)
            ==> r matches Err(TranslateError::MissingEnd),
        straight_line(code@) ==> (r matches Ok(body) ==> one_block_body(
            &body,
            params@.len(),
            results as nat,
        )),
        branch_free(code@) ==> (r matches Ok(body) ==> unbranched_body(&body, params@.len())),
        r matches Ok(body) ==> branches_match(&body, code@, code@.len() as int),
        straight_line(code@) ==> (r matches Ok(body) ==> opcodes_of(&body) == straight_body_opcodes(
            config,
            locals@.len(),
            code@,
        )),
        straight_line(code@) && (config.multi_value || results <= 1) ==> (r is Ok <==> (straight_outcome(
            config,
            params@.len() + locals@.len(),
            code@.drop_last(),
        ) matches Ok(h) && h >= results)),
{
    match translate_function_at(config, params, locals, results, code) {
        Ok(body) => Ok(body),
        Err(d) => Err(d.1),
    }
}

/// Translates the code `code` of a function with the parameters `params`,
/// the further local variables `locals` and `results` results into a body
/// in static single assignment form, operator by operator, under the
/// options that [`TranslationConfig::new`] gives: see
/// [`FunctionTranslator::new`] and [`FunctionTranslator::translate_operator`].
/// The result is the one that [`translation`] describes. The code must end
/// with the `end` of the function. Every block of the body ends in exactly
/// one terminator, and every edge passes one argument for each parameter of
/// the block that it enters.
pub fn translate_function(params: &Vec<Type>, locals: &Vec<Type>, results: usize,
    code: &Vec<Operator>) -> (r:
    Result<crate::ir::Body, TranslateError>)
    ensures
        translation(&TranslationConfig::spec_default(), params@, locals@, results, code@, r),
        r matches Ok(body) ==> body.wf() && body.complete() && forall|b: int|
            0 <= b < body.blocks().len() ==> #[trigger] body.terminated(b),
        code@.len() == 0 ==> r matches Err(TranslateError::MissingEnd),
        straight_line(code@) ==> (r matches Ok(body) ==> one_block_body(
            &body,
            params@.len(),
            results as nat,
        )),
        branch_free(code@) ==> (r matches Ok(body) ==> unbranched_body(&body, params@.len())),
        r matches Ok(body) ==> branches_match(&body, code@, code@.len() as int),
        straight_line(code@) ==> (r matches Ok(body) ==> opcodes_of(&body) == straight_body_opcodes(
            &TranslationConfig::spec_default(),
            locals@.len(),
            code@,
        )),
        straight_line(code@) ==> (r is Ok <==> (straight_outcome(
            &TranslationConfig::spec_default(),
            params@.len() + locals@.len(),
            code@.drop_last(),
        ) matches Ok(h) && h >= results)),
{
    let config = TranslationConfig::new();
    translate_function_with(&config, params, locals, results, code)
}

} // verus!
