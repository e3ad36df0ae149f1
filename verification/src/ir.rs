//! The body of a function in static single assignment form: values,
//! instructions and basic blocks, each kept in an arena and named by its place
//! there.

use crate::types::Type;
use vstd::prelude::*;

verus! {

/// A value: something that is defined once, by an instruction or as the
/// parameter of a block.
#[derive(Clone, Copy, Debug, PartialEq, Eq, Structural, Hash)]
pub struct Value(pub usize);

/// A basic block.
#[derive(Clone, Copy, Debug, PartialEq, Eq, Structural, Hash)]
pub struct Block(pub usize);

/// An instruction.
#[derive(Clone, Copy, Debug, PartialEq, Eq, Structural, Hash)]
pub struct Inst(pub usize);

/// How a value came to be.
#[derive(Clone, Copy, Debug, PartialEq, Eq, Structural)]
pub enum ValueData {
    /// A result of the instruction `inst`.
    Result { ty: Type, inst: Inst },
    /// A parameter of the block `block`.
    Param { ty: Type, block: Block },
    /// A stand-in for an operand in code that can never run. It has no
    /// definition and no type of its own.
    Placeholder,
    /// A parameter that turned out to be another value under a second name
    /// and was taken out of its block. Nothing refers to it.
    Removed,
}

/// What an instruction does. Operands, results and branch targets are kept
/// beside the opcode, in [`InstData`].
#[derive(Clone, Copy, Debug, PartialEq, Eq, Structural)]
pub enum Opcode {
    /// The constant with the given bits.
    Const(u64),
    Add,
    Sub,
    Mul,
    And,
    Or,
    Xor,
    Eq,
    Ne,
    Lt,
    Gt,
    /// True when the operand is zero.
    Eqz,
    /// The first or the second operand, as the third is true or false.
    Select,
    /// Reads from memory at the address operand plus the given offset.
    Load(u32),
    /// Writes the second operand to memory at the first plus the given offset.
    Store(u32),
    /// Reads the global variable with the given index.
    GlobalGet(u32),
    /// Writes the global variable with the given index.
    GlobalSet(u32),
    /// Calls the function with the given index in the module.
    Call(u32),
    /// Calls the function that the last operand selects from the table,
    /// after checking it against the signature with the given index.
    CallIndirect(u32),
    /// Calls the function that the last operand selects from the table, as
    /// one with the signature with the given index, without checking it.
    CallIndirectUnchecked(u32),
    /// Jumps to the one target.
    Br,
    /// Jumps to the first target when the operand is true, to the second otherwise.
    CondBr,
    /// Jumps to the target that the operand selects, to the last one when
    /// the operand selects none.
    BrTable,
    /// Returns the operands to the caller.
    Ret,
    /// Traps.
    Unreachable,
}

impl Opcode {
    /// True for the opcodes that end a block.
    pub open spec fn spec_is_terminator(self) -> bool {
        self is Br || self is CondBr || self is BrTable || self is Ret || self is Unreachable
    }

    /// True for the opcodes that end a block.
    pub fn is_terminator(&self) -> (r: bool)
        ensures
            r == self.spec_is_terminator(),
    {
        match self {
            Opcode::Br | Opcode::CondBr | Opcode::BrTable | Opcode::Ret | Opcode::Unreachable => true,
            _ => false,
        }
    }
}

/// One of the edges that enter a block: its place among them.
#[derive(Clone, Copy, Debug, PartialEq, Eq, Structural)]
pub struct EdgeRef {
    pub block: Block,
    pub edge: usize,
}

/// An edge of the control-flow graph, as the block it enters sees it.
#[derive(Debug)]
pub struct Edge {
    /// The block that the edge leaves.
    pub from: Block,
    /// The branch that the edge belongs to.
    pub inst: Inst,
    /// The arguments that the branch passes for the parameters of the block.
    pub args: Vec<Value>,
}

/// An instruction with its operands, results and targets.
#[derive(Debug)]
pub struct InstData {
    pub opcode: Opcode,
    /// The block that holds the instruction.
    pub block: Block,
    pub args: Vec<Value>,
    pub results: Vec<Value>,
    /// The edges that the instruction may take, for a branch.
    pub targets: Vec<EdgeRef>,
}

/// A basic block.
#[derive(Debug)]
pub struct BlockData {
    /// The parameters, which take the place of phi nodes.
    pub params: Vec<Value>,
    /// The instructions, in order.
    pub insts: Vec<Inst>,
    /// The edges that enter the block, in the order in which they were made.
    pub preds: Vec<Edge>,
}

/// `s` with `v` in every place where `p` stood.
pub open spec fn substitute(s: Seq<Value>, p: Value, v: Value) -> Seq<Value> {
    s.map_values(
        |x: Value|
            if x == p {
                v
            } else {
                x
            },
    )
}

/// `substitute` on a vector, in place.
pub fn substitute_in(values: &mut Vec<Value>, p: Value, v: Value)
    ensures
        final(values)@ == substitute(old(values)@, p, v),
{
    let mut i: usize = 0;
    while i < values.len()
        invariant
            0 <= i <= values.len() == old(values)@.len(),
            forall|k: int| 0 <= k < i ==> values@[k] == substitute(old(values)@, p, v)[k],
            forall|k: int| i <= k < values.len() ==> values@[k] == old(values)@[k],
        decreases values.len() - i,
    {
        if values[i] == p {
            values.set(i, v);
        }
        i += 1;
    }
    assert(values@ =~= substitute(old(values)@, p, v));
}

/// The values, instructions and blocks of one function.
#[derive(Debug)]
pub struct Body {
    values: Vec<ValueData>,
    insts: Vec<InstData>,
    blocks: Vec<BlockData>,
}

impl Body {
    /// The values, each at the place that its handle names.
    pub closed spec fn values(&self) -> Seq<ValueData> {
        self.values@
    }

    /// The instructions, each at the place that its handle names.
    pub closed spec fn insts(&self) -> Seq<InstData> {
        self.insts@
    }

    /// The blocks, each at the place that its handle names.
    pub closed spec fn blocks(&self) -> Seq<BlockData> {
        self.blocks@
    }

    /// True when `v` names a value of this body.
    pub open spec fn valid_value(&self, v: Value) -> bool {
        v.0 < self.values().len()
    }

    /// True when `b` names a block of this body.
    pub open spec fn valid_block(&self, b: Block) -> bool {
        b.0 < self.blocks().len()
    }

    /// True when `n` names an instruction of this body.
    pub open spec fn valid_inst(&self, n: Inst) -> bool {
        n.0 < self.insts().len()
    }

    /// The body without values, instructions and blocks.
    pub fn new() -> (body: Self)
        ensures
            body.values().len() == 0,
            body.insts().len() == 0,
            body.blocks().len() == 0,
    {
        Body { values: Vec::new(), insts: Vec::new(), blocks: Vec::new() }
    }

    /// True when `v` names a value of this body that has not been taken out.
    pub open spec fn live(&self, v: Value) -> bool {
        self.valid_value(v) && !(self.values()[v.0 as int] is Removed)
    }

    /// True when `v` names a value of this body that has been taken out.
    pub open spec fn removed(&self, v: Value) -> bool {
        self.valid_value(v) && self.values()[v.0 as int] is Removed
    }

    /// True when every value of `s` is live.
    pub open spec fn all_live(&self, s: Seq<Value>) -> bool {
        forall|i: int| 0 <= i < s.len() ==> self.live(#[trigger] s[i])
    }

    /// True when `v` is recorded as a parameter of block `b`.
    pub open spec fn is_param_of(&self, v: Value, b: int) -> bool {
        self.valid_value(v) && (self.values()[v.0 as int] matches ValueData::Param { block, .. }
            && block.0 == b)
    }

    /// True when `v` is recorded as a result of instruction `n`.
    pub open spec fn is_result_of(&self, v: Value, n: int) -> bool {
        self.valid_value(v) && (self.values()[v.0 as int] matches ValueData::Result { inst, .. }
            && inst.0 == n)
    }

    /// True when `edge` leaves a block of this body with a branch of this
    /// body, and passes live values for at most `params` parameters.
    pub open spec fn edge_wf(&self, edge: Edge, params: int) -> bool {
        &&& self.valid_block(edge.from)
        &&& self.valid_inst(edge.inst)
        &&& self.all_live(edge.args@)
        &&& edge.args@.len() <= params
    }

    /// True when `t` names an edge of this body that belongs to instruction `n`.
    pub open spec fn target_wf(&self, t: EdgeRef, n: int) -> bool {
        &&& self.valid_block(t.block)
        &&& t.edge < self.blocks()[t.block.0 as int].preds@.len()
        &&& self.blocks()[t.block.0 as int].preds@[t.edge as int].inst.0 == n
    }

    /// The invariant of block `b`: its parameters are recorded as such and
    /// are all different, its instructions are instructions of this body
    /// that name it as their block, and the edges that enter it are well formed.
    pub open spec fn block_wf(&self, b: int) -> bool {
        let data = self.blocks()[b];
        &&& forall|i: int| 0 <= i < data.params@.len() ==> self.is_param_of(#[trigger] data.params@[i], b)
        &&& data.params@.no_duplicates()
        &&& forall|i: int|
            0 <= i < data.insts@.len() ==> self.valid_inst(#[trigger] data.insts@[i])
                && self.insts()[data.insts@[i].0 as int].block.0 == b
        &&& forall|e: int|
            0 <= e < data.preds@.len()
                ==> self.edge_wf(#[trigger] data.preds@[e], data.params@.len() as int)
    }

    /// True when instruction `n` stands in the list of the instructions of
    /// block `b`.
    pub open spec fn stands_in(&self, n: int, b: int) -> bool {
        exists|i: int| 0 <= i < self.blocks()[b].insts@.len() && (#[trigger] self.blocks()[b].insts@[i]).0 == n
    }

    /// An instruction that stands in a block stands there still when the
    /// list of the block has grown at its end.
    pub(crate) proof fn lemma_stands_kept(&self, before: &Body, n: int, b: int)
        requires
            before.stands_in(n, b),
            before.blocks()[b].insts@.len() <= self.blocks()[b].insts@.len(),
            forall|i: int|
                0 <= i < before.blocks()[b].insts@.len() ==> (#[trigger] self.blocks()[b].insts@[i])
                    == before.blocks()[b].insts@[i],
        ensures
            self.stands_in(n, b),
    {
        let i = choose|i: int|
            0 <= i < before.blocks()[b].insts@.len() && (#[trigger] before.blocks()[b].insts@[i]).0 == n;
        assert(self.blocks()[b].insts@[i].0 == n);
    }

    /// The invariant of instruction `n`: it stands in a block of this body,
    /// and in the list of the instructions of that block, its operands are
    /// live, its results are recorded as such and are all different, and its
    /// targets are edges that belong to it.
    pub open spec fn inst_wf(&self, n: int) -> bool {
        let data = self.insts()[n];
        &&& self.valid_block(data.block)
        &&& self.stands_in(n, data.block.0 as int)
        &&& self.all_live(data.args@)
        &&& forall|i: int|
            0 <= i < data.results@.len() ==> self.is_result_of(#[trigger] data.results@[i], n)
        &&& data.results@.no_duplicates()
        &&& forall|t: int| 0 <= t < data.targets@.len() ==> self.target_wf(#[trigger] data.targets@[t], n)
    }

    /// The invariant of a body: every block and every instruction is well formed.
    pub open spec fn wf(&self) -> bool {
        &&& forall|b: int| 0 <= b < self.blocks().len() ==> #[trigger] self.block_wf(b)
        &&& forall|n: int| 0 <= n < self.insts().len() ==> #[trigger] self.inst_wf(n)
    }

    /// The number of blocks.
    pub fn num_blocks(&self) -> (n: usize)
        ensures
            n == self.blocks().len(),
    {
        self.blocks.len()
    }

    /// The number of values.
    pub fn num_values(&self) -> (n: usize)
        ensures
            n == self.values().len(),
    {
        self.values.len()
    }

    /// The number of instructions.
    pub fn num_insts(&self) -> (n: usize)
        ensures
            n == self.insts().len(),
    {
        self.insts.len()
    }

    /// The block `b`.
    pub fn block(&self, b: Block) -> (data: &BlockData)
        requires
            self.valid_block(b),
        ensures
            *data == self.blocks()[b.0 as int],
    {
        &self.blocks[b.0]
    }

    /// The instruction `n`.
    pub fn inst(&self, n: Inst) -> (data: &InstData)
        requires
            self.valid_inst(n),
        ensures
            *data == self.insts()[n.0 as int],
    {
        &self.insts[n.0]
    }

    /// How the value `v` came to be.
    pub fn value(&self, v: Value) -> (data: ValueData)
        requires
            self.valid_value(v),
        ensures
            data == self.values()[v.0 as int],
    {
        self.values[v.0]
    }

    /// True when `v` names a value of this body that has not been taken out.
    pub fn is_live(&self, v: Value) -> (r: bool)
        ensures
            r == self.live(v),
    {
        v.0 < self.values.len() && !matches!(self.values[v.0], ValueData::Removed)
    }

    /// Adds an empty block.
    pub fn create_block(&mut self) -> (b: Block)
        requires
            old(self).wf(),
        ensures
            final(self).wf(),
            block_created(old(self), final(self), b),
    {
        let b = Block(self.blocks.len());
        self.blocks.push(BlockData { params: Vec::new(), insts: Vec::new(), preds: Vec::new() });
        proof {
            assert forall|j: int| 0 <= j < self.blocks().len() implies #[trigger] self.block_wf(j) by {
                if j < old(self).blocks().len() {
                    assert(old(self).block_wf(j));
                }
            }
            assert forall|n: int| 0 <= n < self.insts().len() implies #[trigger] self.inst_wf(n) by {
                assert(old(self).inst_wf(n));
                self.lemma_stands_kept(old(self), n, old(self).insts()[n].block.0 as int);
            }
        }
        b
    }

    /// Adds a stand-in for an operand in code that can never run.
    pub fn make_placeholder(&mut self) -> (v: Value)
        requires
            old(self).wf(),
        ensures
            final(self).wf(),
            v.0 == old(self).values().len(),
            final(self).values() == old(self).values().push(ValueData::Placeholder),
            final(self).insts() == old(self).insts(),
            final(self).blocks() == old(self).blocks(),
    {
        let v = Value(self.values.len());
        self.values.push(ValueData::Placeholder);
        proof {
            self.lemma_more_values(old(self));
        }
        v
    }

    /// Where `self` has the blocks and instructions of `before` and its
    /// values, perhaps with more behind them, `self` is well formed as
    /// `before` is.
    proof fn lemma_more_values(&self, before: &Body)
        requires
            before.wf(),
            self.blocks() == before.blocks(),
            self.insts() == before.insts(),
            before.values().len() <= self.values().len(),
            forall|i: int| 0 <= i < before.values().len() ==> self.values()[i] == before.values()[i],
        ensures
            self.wf(),
            forall|v: Value| before.live(v) ==> self.live(v),
    {
        assert forall|j: int| 0 <= j < self.blocks().len() implies #[trigger] self.block_wf(j) by {
            assert(before.block_wf(j));
            let data = self.blocks()[j];
            assert forall|e: int| 0 <= e < data.preds@.len() implies self.edge_wf(
                #[trigger] data.preds@[e],
                data.params@.len() as int,
            ) by {
                assert(before.edge_wf(data.preds@[e], data.params@.len() as int));
            }
        }
        assert forall|n: int| 0 <= n < self.insts().len() implies #[trigger] self.inst_wf(n) by {
            assert(before.inst_wf(n));
        }
    }

    /// Adds a parameter of type `ty` behind the parameters of block `b`.
    pub fn append_param(&mut self, b: Block, ty: Type) -> (v: Value)
        requires
            old(self).wf(),
            old(self).valid_block(b),
        ensures
            final(self).wf(),
            param_appended(old(self), final(self), b, ty, v),
            forall|x: Value| old(self).live(x) ==> final(self).live(x),
    {
        let v = Value(self.values.len());
        self.values.push(ValueData::Param { ty, block: b });
        self.blocks[b.0].params.push(v);
        proof {
            assert forall|j: int| 0 <= j < self.blocks().len() implies #[trigger] self.block_wf(j) by {
                assert(old(self).block_wf(j));
                let data = self.blocks()[j];
                let before = old(self).blocks()[j];
                assert forall|e: int| 0 <= e < data.preds@.len() implies self.edge_wf(
                    #[trigger] data.preds@[e],
                    data.params@.len() as int,
                ) by {
                    assert(old(self).edge_wf(before.preds@[e], before.params@.len() as int));
                }
                if j == b.0 {
                    assert forall|i: int, k: int|
                        0 <= i < data.params@.len() && 0 <= k < data.params@.len() && i
                            != k implies data.params@[i] != data.params@[k] by {
                        if i < before.params@.len() {
                            assert(old(self).is_param_of(before.params@[i], j));
                        }
                        if k < before.params@.len() {
                            assert(old(self).is_param_of(before.params@[k], j));
                        }
                    }
                }
            }
            assert forall|n: int| 0 <= n < self.insts().len() implies #[trigger] self.inst_wf(n) by {
                assert(old(self).inst_wf(n));
                self.lemma_stands_kept(old(self), n, old(self).insts()[n].block.0 as int);
            }
        }
        v
    }
}

impl Body {
    /// Adds an instruction behind the instructions of block `b`, with one
    /// new value for each type of `result_types` as its results and without
    /// targets.
    pub fn append_inst(&mut self, b: Block, opcode: Opcode, args: Vec<Value>,
        result_types: &Vec<Type>) -> (n: Inst)
        requires
            old(self).wf(),
            old(self).valid_block(b),
            old(self).all_live(args@),
        ensures
            final(self).wf(),
            inst_appended(old(self), final(self), b, opcode, args@, result_types@, n),
            forall|x: Value| old(self).live(x) ==> final(self).live(x),
    {
        let n = Inst(self.insts.len());
        let mut results: Vec<Value> = Vec::new();
        let mut i: usize = 0;
        while i < result_types.len()
            invariant
                0 <= i <= result_types.len(),
                n.0 == self.insts().len(),
                self.insts() == old(self).insts(),
                self.blocks() == old(self).blocks(),
                self.values() == old(self).values() + Seq::new(
                    i as nat,
                    |k: int| ValueData::Result { ty: result_types@[k], inst: n },
                ),
                results@ == Seq::new(i as nat, |k: int| Value((old(self).values().len() + k) as usize)),
            decreases result_types.len() - i,
        {
            let v = Value(self.values.len());
            let ghost sofar = self.values();
            self.values.push(ValueData::Result { ty: result_types[i], inst: n });
            results.push(v);
            i += 1;
            proof {
                assert(self.values() =~= old(self).values() + Seq::new(
                    i as nat,
                    |k: int| ValueData::Result { ty: result_types@[k], inst: n },
                ));
                assert(results@ =~= Seq::new(
                    i as nat,
                    |k: int| Value((old(self).values().len() + k) as usize),
                ));
            }
        }
        let ghost grown = *self;
        let total = self.values.len();
        proof {
            grown.lemma_more_values(old(self));
            assert(total == old(self).values().len() + result_types@.len());
        }
        self.insts.push(InstData { opcode, block: b, args, results, targets: Vec::new() });
        self.blocks[b.0].insts.push(n);
        proof {
            assert forall|j: int| 0 <= j < self.blocks().len() implies #[trigger] self.block_wf(j) by {
                assert(grown.block_wf(j));
                let data = self.blocks()[j];
                assert forall|e: int| 0 <= e < data.preds@.len() implies self.edge_wf(
                    #[trigger] data.preds@[e],
                    data.params@.len() as int,
                ) by {
                    assert(grown.edge_wf(data.preds@[e], data.params@.len() as int));
                }
            }
            assert forall|k: int| 0 <= k < self.insts().len() implies #[trigger] self.inst_wf(k) by {
                if k < n.0 {
                    assert(grown.inst_wf(k));
                    self.lemma_stands_kept(&grown, k, grown.insts()[k].block.0 as int);
                    let data = self.insts()[k];
                    assert forall|t: int| 0 <= t < data.targets@.len() implies self.target_wf(
                        #[trigger] data.targets@[t],
                        k,
                    ) by {
                        assert(grown.target_wf(data.targets@[t], k));
                    }
                } else {
                    let data = self.insts()[k];
                    assert(self.blocks()[b.0 as int].insts@.last() == n);
                    assert(self.values().len() == total);
                    assert forall|x: int| 0 <= x < data.args@.len() implies self.live(
                        #[trigger] data.args@[x],
                    ) by {
                        assert(old(self).live(args@[x]));
                        assert(grown.live(args@[x]));
                    }
                    assert forall|x: int| 0 <= x < data.results@.len() implies self.is_result_of(
                        #[trigger] data.results@[x],
                        k,
                    ) by {
                        assert(data.results@[x].0 == old(self).values().len() + x);
                    }
                    assert forall|x: int, y: int|
                        0 <= x < data.results@.len() && 0 <= y < data.results@.len() && x
                            != y implies data.results@[x] != data.results@[y] by {
                        assert(data.results@[x].0 == old(self).values().len() + x);
                        assert(data.results@[y].0 == old(self).values().len() + y);
                    }
                }
            }
        }
        n
    }

    /// Gives the branch `n` one more target: an edge into `dest` behind the
    /// edges that enter it, with `args` for its parameters.
    pub fn add_target(&mut self, n: Inst, dest: Block, args: Vec<Value>) -> (t: EdgeRef)
        requires
            old(self).wf(),
            old(self).valid_inst(n),
            old(self).valid_block(dest),
            old(self).all_live(args@),
            args@.len() <= old(self).blocks()[dest.0 as int].params@.len(),
        ensures
            final(self).wf(),
            target_added(old(self), final(self), n, dest, args, t),
    {
        let from = self.insts[n.0].block;
        let t = EdgeRef { block: dest, edge: self.blocks[dest.0].preds.len() };
        proof {
            assert(old(self).inst_wf(n.0 as int));
        }
        self.blocks[dest.0].preds.push(Edge { from, inst: n, args });
        self.insts[n.0].targets.push(t);
        proof {
            assert forall|j: int| 0 <= j < self.blocks().len() implies #[trigger] self.block_wf(j) by {
                assert(old(self).block_wf(j));
                let data = self.blocks()[j];
                let before = old(self).blocks()[j];
                assert forall|i: int| 0 <= i < data.insts@.len() implies self.valid_inst(
                    #[trigger] data.insts@[i],
                ) && self.insts()[data.insts@[i].0 as int].block.0 == j by {
                    assert(old(self).valid_inst(before.insts@[i]));
                }
                assert forall|e: int| 0 <= e < data.preds@.len() implies self.edge_wf(
                    #[trigger] data.preds@[e],
                    data.params@.len() as int,
                ) by {
                    if e < before.preds@.len() {
                        assert(old(self).edge_wf(before.preds@[e], before.params@.len() as int));
                    } else {
                        assert(data.preds@[e].args == args);
                    }
                }
            }
            assert forall|k: int| 0 <= k < self.insts().len() implies #[trigger] self.inst_wf(k) by {
                assert(old(self).inst_wf(k));
                self.lemma_stands_kept(old(self), k, old(self).insts()[k].block.0 as int);
                let data = self.insts()[k];
                let before = old(self).insts()[k];
                assert forall|x: int| 0 <= x < data.targets@.len() implies self.target_wf(
                    #[trigger] data.targets@[x],
                    k,
                ) by {
                    if x < before.targets@.len() {
                        assert(old(self).target_wf(before.targets@[x], k));
                    }
                }
            }
        }
        t
    }

    /// Appends `v` to the arguments of edge `e` of block `b`.
    pub fn push_edge_arg(&mut self, b: Block, e: usize, v: Value)
        requires
            old(self).wf(),
            old(self).valid_block(b),
            e < old(self).blocks()[b.0 as int].preds@.len(),
            old(self).blocks()[b.0 as int].preds@[e as int].args@.len() < old(self).blocks()[b.0 as int].params@.len(),
            old(self).live(v),
        ensures
            final(self).wf(),
            edge_arg_pushed(old(self), final(self), b, e as int, v),
    {
        self.blocks[b.0].preds[e].args.push(v);
        proof {
            assert forall|j: int| 0 <= j < self.blocks().len() implies #[trigger] self.block_wf(j) by {
                assert(old(self).block_wf(j));
                let data = self.blocks()[j];
                let before = old(self).blocks()[j];
                assert forall|k: int| 0 <= k < data.preds@.len() implies self.edge_wf(
                    #[trigger] data.preds@[k],
                    data.params@.len() as int,
                ) by {
                    assert(old(self).edge_wf(before.preds@[k], before.params@.len() as int));
                    if j == b.0 && k == e {
                        let now = data.preds@[k].args@;
                        assert forall|x: int| 0 <= x < now.len() implies self.live(#[trigger] now[x]) by {
                            if x < now.len() - 1 {
                                assert(old(self).live(before.preds@[k].args@[x]));
                            }
                        }
                    }
                }
            }
            assert forall|k: int| 0 <= k < self.insts().len() implies #[trigger] self.inst_wf(k) by {
                assert(old(self).inst_wf(k));
                self.lemma_stands_kept(old(self), k, old(self).insts()[k].block.0 as int);
                let data = self.insts()[k];
                assert forall|x: int| 0 <= x < data.targets@.len() implies self.target_wf(
                    #[trigger] data.targets@[x],
                    k,
                ) by {
                    assert(old(self).target_wf(data.targets@[x], k));
                }
            }
        }
    }
}

/// True when `after` is `before` with one more block, the empty block `b`.
pub open spec fn block_created(before: &Body, after: &Body, b: Block) -> bool {
    &&& b.0 == before.blocks().len()
    &&& after.values() == before.values()
    &&& after.insts() == before.insts()
    &&& after.blocks().len() == before.blocks().len() + 1
    &&& forall|j: int| 0 <= j < before.blocks().len() ==> #[trigger] after.blocks()[j] == before.blocks()[j]
    &&& after.blocks()[b.0 as int].params@.len() == 0
    &&& after.blocks()[b.0 as int].insts@.len() == 0
    &&& after.blocks()[b.0 as int].preds@.len() == 0
}

/// True when `after` is `before` with one more value, `v`, as the last
/// parameter of block `b`, of type `ty`.
pub open spec fn param_appended(before: &Body, after: &Body, b: Block, ty: Type, v: Value) -> bool {
    &&& v.0 == before.values().len()
    &&& after.values() == before.values().push(ValueData::Param { ty, block: b })
    &&& after.insts() == before.insts()
    &&& after.blocks().len() == before.blocks().len()
    &&& forall|j: int|
        0 <= j < before.blocks().len() && j != b.0 ==> #[trigger] after.blocks()[j] == before.blocks()[j]
    &&& after.blocks()[b.0 as int].params@ == before.blocks()[b.0 as int].params@.push(v)
    &&& after.blocks()[b.0 as int].insts == before.blocks()[b.0 as int].insts
    &&& after.blocks()[b.0 as int].preds == before.blocks()[b.0 as int].preds
}

/// True when `after` is `before` with one more instruction, `n`, as the
/// last of block `b`: it has the opcode `opcode`, the operands `args`, one
/// new value of each type of `result_types` as its results, and no target.
pub open spec fn inst_appended(
    before: &Body,
    after: &Body,
    b: Block,
    opcode: Opcode,
    args: Seq<Value>,
    result_types: Seq<Type>,
    n: Inst,
) -> bool {
    &&& n.0 == before.insts().len()
    &&& after.values() == before.values() + Seq::new(
        result_types.len(),
        |i: int| ValueData::Result { ty: result_types[i], inst: n },
    )
    &&& after.insts().len() == before.insts().len() + 1
    &&& forall|k: int| 0 <= k < before.insts().len() ==> #[trigger] after.insts()[k] == before.insts()[k]
    &&& after.insts()[n.0 as int].opcode == opcode
    &&& after.insts()[n.0 as int].block == b
    &&& after.insts()[n.0 as int].args@ == args
    &&& after.insts()[n.0 as int].results@ == Seq::new(
        result_types.len(),
        |i: int| Value((before.values().len() + i) as usize),
    )
    &&& after.insts()[n.0 as int].targets@.len() == 0
    &&& after.blocks().len() == before.blocks().len()
    &&& forall|j: int|
        0 <= j < before.blocks().len() && j != b.0 ==> #[trigger] after.blocks()[j] == before.blocks()[j]
    &&& after.blocks()[b.0 as int].params == before.blocks()[b.0 as int].params
    &&& after.blocks()[b.0 as int].insts@ == before.blocks()[b.0 as int].insts@.push(n)
    &&& after.blocks()[b.0 as int].preds == before.blocks()[b.0 as int].preds
}

/// True when `after` is `before` with one more target, `t`, of the branch
/// `n`: the last edge into block `dest`, with the arguments `args`.
pub open spec fn target_added(before: &Body, after: &Body, n: Inst, dest: Block, args: Vec<Value>,
    t: EdgeRef) -> bool {
    let x = before.insts()[n.0 as int];
    let y = after.insts()[n.0 as int];
    let from = before.blocks()[dest.0 as int];
    let to = after.blocks()[dest.0 as int];
    &&& t.block == dest
    &&& t.edge == from.preds@.len()
    &&& after.values() == before.values()
    &&& after.insts().len() == before.insts().len()
    &&& forall|k: int|
        0 <= k < before.insts().len() && k != n.0 ==> #[trigger] after.insts()[k] == before.insts()[k]
    &&& y.opcode == x.opcode
    &&& y.block == x.block
    &&& y.args == x.args
    &&& y.results == x.results
    &&& y.targets@ == x.targets@.push(t)
    &&& after.blocks().len() == before.blocks().len()
    &&& forall|j: int|
        0 <= j < before.blocks().len() && j != dest.0 ==> #[trigger] after.blocks()[j] == before.blocks()[j]
    &&& to.params == from.params
    &&& to.insts == from.insts
    &&& to.preds@.len() == from.preds@.len() + 1
    &&& forall|e: int| 0 <= e < from.preds@.len() ==> #[trigger] to.preds@[e] == from.preds@[e]
    &&& to.preds@[t.edge as int].from == x.block
    &&& to.preds@[t.edge as int].inst == n
    &&& to.preds@[t.edge as int].args == args
}

/// True when `after` is `before` with `v` as one more argument of edge `e`
/// into block `b`.
pub open spec fn edge_arg_pushed(before: &Body, after: &Body, b: Block, e: int, v: Value) -> bool {
    let from = before.blocks()[b.0 as int];
    let to = after.blocks()[b.0 as int];
    &&& after.values() == before.values()
    &&& after.insts() == before.insts()
    &&& after.blocks().len() == before.blocks().len()
    &&& forall|j: int|
        0 <= j < before.blocks().len() && j != b.0 ==> #[trigger] after.blocks()[j] == before.blocks()[j]
    &&& to.params == from.params
    &&& to.insts == from.insts
    &&& to.preds@.len() == from.preds@.len()
    &&& forall|k: int| 0 <= k < from.preds@.len() && k != e ==> #[trigger] to.preds@[k] == from.preds@[k]
    &&& to.preds@[e].from == from.preds@[e].from
    &&& to.preds@[e].inst == from.preds@[e].inst
    &&& to.preds@[e].args@ == from.preds@[e].args@.push(v)
}

/// True when the edge `y` is the edge `x` with `v` in the place of `p`.
pub open spec fn edge_substituted(x: Edge, y: Edge, p: Value, v: Value) -> bool {
    &&& y.from == x.from
    &&& y.inst == x.inst
    &&& y.args@ == substitute(x.args@, p, v)
}

/// True when the instruction `y` is the instruction `x` with `v` in the
/// place of `p` among its operands.
pub open spec fn inst_substituted(x: InstData, y: InstData, p: Value, v: Value) -> bool {
    &&& y.opcode == x.opcode
    &&& y.block == x.block
    &&& y.results == x.results
    &&& y.targets == x.targets
    &&& y.args@ == substitute(x.args@, p, v)
}

/// True when the block `y` is the block `x` with `v` in the place of `p`
/// among the arguments of the edges that enter it, and without the
/// parameter at place `removed`, where that is given.
pub open spec fn block_substituted(x: BlockData, y: BlockData, p: Value, v: Value,
    removed: Option<int>) -> bool {
    &&& y.insts == x.insts
    &&& y.params@ == (match removed {
        Some(i) => x.params@.remove(i),
        None => x.params@,
    })
    &&& y.preds@.len() == x.preds@.len()
    &&& forall|e: int| 0 <= e < x.preds@.len()
        ==> edge_substituted(x.preds@[e], #[trigger] y.preds@[e], p, v)
}

/// True when `after` is `before` without parameter `index` of block `b`,
/// and with `v` in every place where that parameter stood as an operand or
/// as an argument.
pub open spec fn param_replaced(before: &Body, after: &Body, b: Block, index: int, v: Value) -> bool {
    let p = before.blocks()[b.0 as int].params@[index];
    &&& after.values() == before.values().update(p.0 as int, ValueData::Removed)
    &&& after.insts().len() == before.insts().len()
    &&& forall|n: int|
        0 <= n < before.insts().len()
            ==> inst_substituted(before.insts()[n], #[trigger] after.insts()[n], p, v)
    &&& after.blocks().len() == before.blocks().len()
    &&& forall|j: int|
        0 <= j < before.blocks().len() ==> block_substituted(
            before.blocks()[j],
            #[trigger] after.blocks()[j],
            p,
            v,
            if j == b.0 {
                Some(index)
            } else {
                None
            },
        )
}

/// Taking a parameter out, and putting a live value in its place wherever
/// it stood, leaves a body well formed, provided that no edge into the block
/// passed an argument for that parameter or for one behind it. The values
/// that were live stay live, but for the parameter.
proof fn lemma_param_replaced(before: &Body, after: &Body, b: Block, index: int, v: Value)
    requires
        before.wf(),
        before.valid_block(b),
        0 <= index < before.blocks()[b.0 as int].params@.len(),
        before.live(v),
        v != before.blocks()[b.0 as int].params@[index],
        forall|e: int|
            0 <= e < before.blocks()[b.0 as int].preds@.len()
                ==> (#[trigger] before.blocks()[b.0 as int].preds@[e]).args@.len()
                <= index,
        param_replaced(before, after, b, index, v),
    ensures
        after.wf(),
        !after.live(before.blocks()[b.0 as int].params@[index]),
        forall|x: Value|
            before.live(x) && x != before.blocks()[b.0 as int].params@[index] ==> after.live(x),
        forall|x: Value| after.live(x) ==> before.live(x),
{
    let p = before.blocks()[b.0 as int].params@[index];
    assert(before.block_wf(b.0 as int));
    assert(before.is_param_of(p, b.0 as int));
    assert forall|j: int| 0 <= j < after.blocks().len() implies #[trigger] after.block_wf(j) by {
        assert(before.block_wf(j));
        let x = before.blocks()[j];
        let y = after.blocks()[j];
        assert forall|i: int| 0 <= i < y.params@.len() implies after.is_param_of(
            #[trigger] y.params@[i],
            j,
        ) by {
            if j == b.0 {
                if i < index {
                    assert(y.params@[i] == x.params@[i]);
                    assert(before.is_param_of(x.params@[i], j));
                } else {
                    assert(y.params@[i] == x.params@[i + 1]);
                    assert(before.is_param_of(x.params@[i + 1], j));
                }
            } else {
                assert(before.is_param_of(x.params@[i], j));
            }
        }
        assert forall|i: int, k: int|
            0 <= i < y.params@.len() && 0 <= k < y.params@.len() && i != k implies y.params@[i]
            != y.params@[k] by {
            if j == b.0 {
                let i0 = if i < index { i } else { i + 1 };
                let k0 = if k < index { k } else { k + 1 };
                assert(y.params@[i] == x.params@[i0] && y.params@[k] == x.params@[k0]);
            }
        }
        assert forall|i: int| 0 <= i < y.insts@.len() implies after.valid_inst(
            #[trigger] y.insts@[i],
        ) && after.insts()[y.insts@[i].0 as int].block.0 == j by {
            assert(before.valid_inst(x.insts@[i]));
        }
        assert forall|e: int| 0 <= e < y.preds@.len() implies after.edge_wf(
            #[trigger] y.preds@[e],
            y.params@.len() as int,
        ) by {
            assert(before.edge_wf(x.preds@[e], x.params@.len() as int));
            assert(edge_substituted(x.preds@[e], y.preds@[e], p, v));
            let old_args = x.preds@[e].args@;
            let new_args = y.preds@[e].args@;
            assert forall|k: int| 0 <= k < new_args.len() implies after.live(#[trigger] new_args[k]) by {
                assert(before.live(old_args[k]));
            }
        }
    }
    assert forall|n: int| 0 <= n < after.insts().len() implies #[trigger] after.inst_wf(n) by {
        assert(before.inst_wf(n));
        after.lemma_stands_kept(before, n, before.insts()[n].block.0 as int);
        let x = before.insts()[n];
        let y = after.insts()[n];
        assert(inst_substituted(x, y, p, v));
        assert forall|k: int| 0 <= k < y.args@.len() implies after.live(#[trigger] y.args@[k]) by {
            assert(before.live(x.args@[k]));
        }
        assert forall|k: int| 0 <= k < y.results@.len() implies after.is_result_of(
            #[trigger] y.results@[k],
            n,
        ) by {
            assert(before.is_result_of(x.results@[k], n));
        }
        assert forall|t: int| 0 <= t < y.targets@.len() implies after.target_wf(
            #[trigger] y.targets@[t],
            n,
        ) by {
            assert(before.target_wf(x.targets@[t], n));
            let r = x.targets@[t];
            assert(edge_substituted(
                before.blocks()[r.block.0 as int].preds@[r.edge as int],
                after.blocks()[r.block.0 as int].preds@[r.edge as int],
                p,
                v,
            ));
        }
    }
}

impl Body {
    /// A value that has been taken out stands nowhere in a well formed
    /// body: it is no operand, no result, no parameter and no argument.
    pub proof fn lemma_removed_stands_nowhere(&self, p: Value)
        requires
            self.wf(),
            !self.live(p),
        ensures
            forall|n: int|
                0 <= n < self.insts().len() ==> !(#[trigger] self.insts()[n]).args@.contains(p)
                    && !self.insts()[n].results@.contains(p),
            forall|j: int|
                0 <= j < self.blocks().len() ==> !(#[trigger] self.blocks()[j]).params@.contains(p),
            forall|j: int, e: int|
                0 <= j < self.blocks().len() && 0 <= e < self.blocks()[j].preds@.len() ==> !(
                #[trigger] self.blocks()[j].preds@[e]).args@.contains(p),
    {
        assert forall|n: int| 0 <= n < self.insts().len()
            implies !(#[trigger] self.insts()[n]).args@.contains(
            p,
        ) && !self.insts()[n].results@.contains(p) by {
            assert(self.inst_wf(n));
            let data = self.insts()[n];
            if data.args@.contains(p) {
                let i = choose|i: int| 0 <= i < data.args@.len() && data.args@[i] == p;
                assert(self.live(data.args@[i]));
            }
            if data.results@.contains(p) {
                let i = choose|i: int| 0 <= i < data.results@.len() && data.results@[i] == p;
                assert(self.is_result_of(data.results@[i], n));
            }
        }
        assert forall|j: int| 0 <= j < self.blocks().len()
            implies !(#[trigger] self.blocks()[j]).params@.contains(
            p,
        ) by {
            assert(self.block_wf(j));
            let data = self.blocks()[j];
            if data.params@.contains(p) {
                let i = choose|i: int| 0 <= i < data.params@.len() && data.params@[i] == p;
                assert(self.is_param_of(data.params@[i], j));
            }
        }
        assert forall|j: int, e: int|
            0 <= j < self.blocks().len() && 0 <= e < self.blocks()[j].preds@.len() implies !(
        #[trigger] self.blocks()[j].preds@[e]).args@.contains(p) by {
            assert(self.block_wf(j));
            let edge = self.blocks()[j].preds@[e];
            assert(self.edge_wf(edge, self.blocks()[j].params@.len() as int));
            if edge.args@.contains(p) {
                let i = choose|i: int| 0 <= i < edge.args@.len() && edge.args@[i] == p;
                assert(self.live(edge.args@[i]));
            }
        }
    }

    /// Takes parameter `index` out of block `b` and puts `v` in every place
    /// where it stood as an operand or as an argument.
    pub fn replace_param(&mut self, b: Block, index: usize, v: Value) -> (p: Value)
        requires
            old(self).wf(),
            old(self).valid_block(b),
            index < old(self).blocks()[b.0 as int].params@.len(),
            old(self).live(v),
            v != old(self).blocks()[b.0 as int].params@[index as int],
            forall|e: int|
                0 <= e < old(self).blocks()[b.0 as int].preds@.len()
                    ==> (#[trigger] old(self).blocks()[b.0 as int].preds@[e]).args@.len()
                    <= index,
        ensures
            final(self).wf(),
            p == old(self).blocks()[b.0 as int].params@[index as int],
            param_replaced(old(self), final(self), b, index as int, v),
            !final(self).live(p),
            forall|x: Value| old(self).live(x) && x != p ==> final(self).live(x),
            forall|x: Value| final(self).live(x) ==> old(self).live(x),
    {
        proof {
            assert(old(self).block_wf(b.0 as int));
            assert(old(self).is_param_of(old(self).blocks()[b.0 as int].params@[index as int], b.0 as int));
        }
        let p = self.blocks[b.0].params[index];
        self.blocks[b.0].params.remove(index);
        self.values.set(p.0, ValueData::Removed);
        let ghost mid = *self;
        let mut n: usize = 0;
        while n < self.insts.len()
            invariant
                0 <= n <= self.insts().len() == mid.insts().len(),
                self.values() == mid.values(),
                self.blocks() == mid.blocks(),
                forall|k: int| 0 <= k < n
                    ==> inst_substituted(mid.insts()[k], #[trigger] self.insts()[k], p, v),
                forall|k: int| n <= k < self.insts().len() ==> #[trigger] self.insts()[k] == mid.insts()[k],
            decreases self.insts.len() - n,
        {
            substitute_in(&mut self.insts[n].args, p, v);
            n += 1;
        }
        let ghost mid2 = *self;
        let mut j: usize = 0;
        while j < self.blocks.len()
            invariant
                0 <= j <= self.blocks().len() == mid.blocks().len(),
                self.values() == mid.values(),
                self.insts() == mid2.insts(),
                forall|k: int|
                    0 <= k < j ==> block_substituted(mid.blocks()[k], #[trigger] self.blocks()[k], p, v,
                        None),
                forall|k: int| j <= k < self.blocks().len() ==> #[trigger] self.blocks()[k]
                    == mid.blocks()[k],
            decreases self.blocks.len() - j,
        {
            let mut e: usize = 0;
            while e < self.blocks[j].preds.len()
                invariant
                    0 <= j < self.blocks().len() == mid.blocks().len(),
                    0 <= e <= self.blocks()[j as int].preds@.len() == mid.blocks()[j as int].preds@.len(),
                    self.values() == mid.values(),
                    self.insts() == mid2.insts(),
                    self.blocks()[j as int].params == mid.blocks()[j as int].params,
                    self.blocks()[j as int].insts == mid.blocks()[j as int].insts,
                    forall|k: int|
                        0 <= k < e ==> edge_substituted(
                            mid.blocks()[j as int].preds@[k],
                            #[trigger] self.blocks()[j as int].preds@[k],
                            p,
                            v,
                        ),
                    forall|k: int|
                        e <= k < self.blocks()[j as int].preds@.len()
                            ==> #[trigger] self.blocks()[j as int].preds@[k]
                            == mid.blocks()[j as int].preds@[k],
                    forall|k: int|
                        0 <= k < j ==> block_substituted(mid.blocks()[k], #[trigger] self.blocks()[k], p,
                            v, None),
                    forall|k: int|
                        j < k < self.blocks().len() ==> #[trigger] self.blocks()[k] == mid.blocks()[k],
                decreases self.blocks[j as int].preds.len() - e,
            {
                substitute_in(&mut self.blocks[j].preds[e].args, p, v);
                e += 1;
            }
            j += 1;
        }
        proof {
            assert forall|k: int| 0 <= k < old(self).blocks().len() implies block_substituted(
                old(self).blocks()[k],
                #[trigger] self.blocks()[k],
                p,
                v,
                if k == b.0 {
                    Some(index as int)
                } else {
                    None
                },
            ) by {
                assert(block_substituted(mid.blocks()[k], self.blocks()[k], p, v, None));
            }
            assert forall|k: int| 0 <= k < old(self).insts().len() implies inst_substituted(
                old(self).insts()[k],
                #[trigger] self.insts()[k],
                p,
                v,
            ) by {
                assert(inst_substituted(mid.insts()[k], mid2.insts()[k], p, v));
            }
            lemma_param_replaced(old(self), self, b, index as int, v);
        }
        p
    }
}

impl Body {
    /// True when every edge passes one argument for each parameter of the
    /// block that it enters.
    pub open spec fn complete(&self) -> bool {
        forall|b: int, e: int|
            0 <= b < self.blocks().len() && 0 <= e < self.blocks()[b].preds@.len() ==> (
            #[trigger] self.blocks()[b].preds@[e]).args@.len() == self.blocks()[b].params@.len()
    }

    /// True when instruction `i` of block `b` ends a block.
    pub open spec fn terminator_at(&self, b: int, i: int) -> bool {
        self.insts()[self.blocks()[b].insts@[i].0 as int].opcode.spec_is_terminator()
    }

    /// True when block `b` holds no instruction that ends a block: more
    /// instructions may follow.
    pub open spec fn unterminated(&self, b: int) -> bool {
        forall|i: int| 0 <= i < self.blocks()[b].insts@.len() ==> !#[trigger] self.terminator_at(b, i)
    }

    /// True when block `b` ends in exactly one terminator: its last
    /// instruction ends a block, and no other does.
    pub open spec fn terminated(&self, b: int) -> bool {
        let n = self.blocks()[b].insts@.len() as int;
        &&& n > 0
        &&& self.terminator_at(b, n - 1)
        &&& forall|i: int| 0 <= i < n - 1 ==> !#[trigger] self.terminator_at(b, i)
    }

    /// A block that keeps its instructions, in a body that keeps the
    /// opcodes of its instructions, is terminated as before.
    pub(crate) proof fn lemma_block_kept(&self, before: &Body, b: int)
        requires
            before.wf(),
            0 <= b < before.blocks().len(),
            b < self.blocks().len(),
            self.blocks()[b].insts@ == before.blocks()[b].insts@,
            before.insts().len() <= self.insts().len(),
            forall|k: int|
                0 <= k < before.insts().len() ==> (#[trigger] self.insts()[k]).opcode
                    == before.insts()[k].opcode,
        ensures
            self.unterminated(b) == before.unterminated(b),
            self.terminated(b) == before.terminated(b),
    {
        assert(before.block_wf(b));
        assert forall|i: int| 0 <= i < before.blocks()[b].insts@.len() implies self.terminator_at(b, i)
            == before.terminator_at(b, i) by {
            assert(before.valid_inst(before.blocks()[b].insts@[i]));
        }
        if before.unterminated(b) {
            assert forall|i: int| 0 <= i < self.blocks()[b].insts@.len()
                implies !#[trigger] self.terminator_at(
                b,
                i,
            ) by {
                assert(!before.terminator_at(b, i));
            }
        }
        if self.unterminated(b) {
            assert forall|i: int| 0 <= i < before.blocks()[b].insts@.len()
                implies !#[trigger] before.terminator_at(
                b,
                i,
            ) by {
                assert(!self.terminator_at(b, i));
            }
        }
        let n = before.blocks()[b].insts@.len() as int;
        if before.terminated(b) {
            assert forall|i: int| 0 <= i < n - 1 implies !#[trigger] self.terminator_at(b, i) by {
                assert(!before.terminator_at(b, i));
            }
        }
        if self.terminated(b) {
            assert forall|i: int| 0 <= i < n - 1 implies !#[trigger] before.terminator_at(b, i) by {
                assert(!self.terminator_at(b, i));
            }
        }
    }

    /// A block without a terminator that gets one more instruction is
    /// terminated where that instruction ends a block, and is without a
    /// terminator still where it does not.
    pub(crate) proof fn lemma_block_appended(&self, before: &Body, b: int, n: Inst)
        requires
            before.wf(),
            0 <= b < before.blocks().len(),
            b < self.blocks().len(),
            before.unterminated(b),
            self.blocks()[b].insts@ == before.blocks()[b].insts@.push(n),
            n.0 < self.insts().len(),
            before.insts().len() <= self.insts().len(),
            forall|k: int|
                0 <= k < before.insts().len() ==> (#[trigger] self.insts()[k]).opcode
                    == before.insts()[k].opcode,
        ensures
            self.insts()[n.0 as int].opcode.spec_is_terminator() ==> self.terminated(b),
            !self.insts()[n.0 as int].opcode.spec_is_terminator() ==> self.unterminated(b),
    {
        assert(before.block_wf(b));
        let len = before.blocks()[b].insts@.len() as int;
        assert forall|i: int| 0 <= i < len implies !#[trigger] self.terminator_at(b, i) by {
            assert(before.valid_inst(before.blocks()[b].insts@[i]));
            assert(!before.terminator_at(b, i));
        }
        assert(self.terminator_at(b, len) == self.insts()[n.0 as int].opcode.spec_is_terminator());
    }
}

} // verus!
