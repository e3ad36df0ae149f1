//! Building static single assignment form in one pass: the current
//! definition of every local variable in every block, found on demand, with
//! block parameters where control flow merges.

use crate::ir::{
    block_created, edge_arg_pushed, inst_appended, param_appended, param_replaced, target_added,
    Block, Body, EdgeRef, Inst, Opcode, Value,
};
use crate::types::Type;
use vstd::prelude::*;

verus! {

/// A local variable of the function that is being translated.
#[derive(Clone, Copy, Debug, PartialEq, Eq, Structural, Hash)]
pub struct Local(pub usize);

/// A block parameter that stands for a local variable whose definition is
/// not known yet, because the block may still get predecessors.
#[derive(Clone, Copy, Debug, PartialEq, Eq, Structural)]
pub struct Incomplete {
    pub local: Local,
    pub param: Value,
}

/// What the builder knows of one block.
#[derive(Debug)]
pub struct SsaBlock {
    /// True once no further predecessor will be added.
    pub sealed: bool,
    /// The current definition of each local variable in the block, where it has one.
    pub defs: Vec<Option<Value>>,
    /// The parameters that wait for the block to be sealed, in the order
    /// in which they were made. They are the last parameters of the block.
    pub incomplete: Vec<Incomplete>,
}

/// A defect of the translation: something that cannot happen when the
/// program that is translated is valid.
#[derive(Clone, Copy, Debug, PartialEq, Eq, Structural)]
pub enum SsaError {
    /// The local variable was read in a place that no definition of it reaches.
    /// The search for one ended at the block named.
    UndefinedLocal { block: Block, local: Local },
}

/// `d` with `v` in the place of `p`.
pub open spec fn substitute_def(d: Option<Value>, p: Value, v: Value) -> Option<Value> {
    if d == Some(p) {
        Some(v)
    } else {
        d
    }
}

/// The number of blocks of `s` in which local variable `x` has no definition.
pub open spec fn count_missing(s: Seq<SsaBlock>, x: int) -> nat
    decreases s.len(),
{
    if s.len() == 0 {
        0
    } else {
        count_missing(s.drop_last(), x) + if s.last().defs@[x] is None {
            1nat
        } else {
            0nat
        }
    }
}

/// Where every block that has a definition of `x` in `a` has one in `b`,
/// `b` lacks a definition in no more blocks than `a` does, and in fewer
/// when some block has one in `b` and none in `a`.
proof fn lemma_count_missing(a: Seq<SsaBlock>, b: Seq<SsaBlock>, x: int)
    requires
        a.len() == b.len(),
        forall|i: int| 0 <= i < a.len() && (#[trigger] a[i]).defs@[x] is Some ==> b[i].defs@[x] is Some,
    ensures
        count_missing(b, x) <= count_missing(a, x),
        (exists|i: int| 0 <= i < a.len() && (#[trigger] a[i]).defs@[x] is None && b[i].defs@[x] is Some)
            ==> count_missing(b, x) < count_missing(a, x),
    decreases a.len(),
{
    if a.len() > 0 {
        let a0 = a.drop_last();
        let b0 = b.drop_last();
        assert forall|i: int| 0 <= i < a0.len() && (#[trigger] a0[i]).defs@[x] is Some
            implies b0[i].defs@[x] is Some by {
            assert(a0[i] == a[i]);
            assert(b0[i] == b[i]);
        }
        lemma_count_missing(a0, b0, x);
        assert(a.last() == a[a.len() - 1]);
        if exists|i: int| 0 <= i < a.len() && (#[trigger] a[i]).defs@[x] is None && b[i].defs@[x] is Some {
            let i = choose|i: int| 0 <= i < a.len() && (#[trigger] a[i]).defs@[x] is None
                && b[i].defs@[x] is Some;
            if i < a.len() - 1 {
                assert(a0[i] == a[i]);
                assert(b0[i] == b[i]);
            }
        }
    }
}

/// A function body under construction, with the definitions of its local
/// variables.
#[derive(Debug)]
pub struct SsaBuilder {
    body: Body,
    locals: Vec<Type>,
    state: Vec<SsaBlock>,
}

impl SsaBuilder {
    /// The body built so far.
    pub closed spec fn body(&self) -> Body {
        self.body
    }

    /// The types of the local variables.
    pub closed spec fn locals(&self) -> Seq<Type> {
        self.locals@
    }

    /// What the builder knows of each block.
    pub closed spec fn state(&self) -> Seq<SsaBlock> {
        self.state@
    }

    /// True when `x` names a local variable.
    pub open spec fn valid_local(&self, x: Local) -> bool {
        x.0 < self.locals().len()
    }

    /// True when `b` names a block.
    pub open spec fn valid_block(&self, b: Block) -> bool {
        self.body().valid_block(b)
    }

    /// The parameters of block `b`.
    pub open spec fn params(&self, b: int) -> Seq<Value> {
        self.body().blocks()[b].params@
    }

    /// The number of parameters of block `b` that do not wait for the block
    /// to be sealed: those for which every edge into the block passes an argument.
    pub open spec fn resolved(&self, b: int) -> int {
        self.params(b).len() - self.state()[b].incomplete@.len()
    }

    /// The invariant of block `b`.
    ///
    /// Every local variable has a slot for its definition, and the
    /// definitions are live values. The parameters that wait for the block
    /// to be sealed are its last parameters, each stands for a local
    /// variable, and that variable has a definition in the block. Every
    /// edge into the block passes one argument for each other parameter.
    pub open spec fn block_wf(&self, b: int) -> bool {
        let st = self.state()[b];
        let data = self.body().blocks()[b];
        &&& st.defs@.len() == self.locals().len()
        &&& forall|x: int| 0 <= x < st.defs@.len() ==> ((#[trigger] st.defs@[x]) matches Some(v)
            ==> self.body().live(v))
        &&& st.incomplete@.len() <= data.params@.len()
        &&& forall|k: int|
            0 <= k < st.incomplete@.len() ==> {
                &&& self.valid_local((#[trigger] st.incomplete@[k]).local)
                &&& st.incomplete@[k].param == data.params@[self.resolved(b) + k]
                &&& st.defs@[st.incomplete@[k].local.0 as int] is Some
            }
        &&& forall|e: int| 0 <= e < data.preds@.len() ==> (#[trigger] data.preds@[e]).args@.len()
            == self.resolved(b)
    }

    /// The invariant that holds while the definition of a local variable is
    /// being searched for: the body is well formed, and so is every block.
    pub open spec fn wf_inner(&self) -> bool {
        &&& self.body().wf()
        &&& self.state().len() == self.body().blocks().len()
        &&& forall|b: int| 0 <= b < self.state().len() ==> #[trigger] self.block_wf(b)
    }

    /// The invariant of the builder: that of the search, and no parameter
    /// of a sealed block waits for anything.
    pub open spec fn wf(&self) -> bool {
        &&& self.wf_inner()
        &&& forall|b: int| 0 <= b < self.state().len() && (#[trigger] self.state()[b]).sealed
            ==> self.state()[b].incomplete@.len() == 0
    }

    /// A builder for a function with the local variables `locals`, without blocks.
    pub fn new(locals: Vec<Type>) -> (s: Self)
        ensures
            s.wf(),
            s.locals() == locals@,
            s.state().len() == 0,
            s.body().blocks().len() == 0,
            s.body().insts().len() == 0,
            s.body().values().len() == 0,
    {
        SsaBuilder { body: Body::new(), locals, state: Vec::new() }
    }

    /// The body built so far.
    pub fn body_ref(&self) -> (b: &Body)
        ensures
            *b == self.body(),
    {
        &self.body
    }

    /// The number of local variables.
    pub fn num_locals(&self) -> (n: usize)
        ensures
            n == self.locals().len(),
    {
        self.locals.len()
    }

    /// The type of the local variable `x`.
    pub fn local_type(&self, x: Local) -> (ty: Type)
        requires
            self.valid_local(x),
        ensures
            ty == self.locals()[x.0 as int],
    {
        self.locals[x.0]
    }

    /// True once block `b` has been sealed.
    pub fn is_sealed(&self, b: Block) -> (r: bool)
        requires
            self.wf_inner(),
            self.valid_block(b),
        ensures
            r == self.state()[b.0 as int].sealed,
    {
        self.state[b.0].sealed
    }

    /// Where `self` differs from `before` in its body only, and every block
    /// of the body has the parameters, and edges with the arguments, that it
    /// had, `self` is well formed as `before` is.
    proof fn lemma_same_blocks(&self, before: &SsaBuilder)
        requires
            before.wf_inner(),
            self.body().wf(),
            self.state() == before.state(),
            self.locals() == before.locals(),
            self.body().blocks().len() == before.body().blocks().len(),
            forall|b: int|
                0 <= b < self.body().blocks().len() ==> (#[trigger] self.body().blocks()[b]).params@
                    == before.body().blocks()[b].params@,
            forall|b: int|
                0 <= b < self.body().blocks().len() ==> (#[trigger] self.body().blocks()[b]).preds@.len()
                    == before.body().blocks()[b].preds@.len(),
            forall|b: int, e: int|
                0 <= b < self.body().blocks().len() && 0 <= e < self.body().blocks()[b].preds@.len()
                    ==> (#[trigger] self.body().blocks()[b].preds@[e]).args@.len()
                    == before.body().blocks()[b].preds@[e].args@.len(),
            forall|v: Value| before.body().live(v) ==> self.body().live(v),
        ensures
            self.wf_inner(),
            before.wf() ==> self.wf(),
    {
        assert forall|b: int| 0 <= b < self.state().len() implies #[trigger] self.block_wf(b) by {
            assert(before.block_wf(b));
            assert(self.params(b) == before.params(b));
            let data = self.body().blocks()[b];
            assert forall|e: int| 0 <= e < data.preds@.len() implies (#[trigger] data.preds@[e]).args@.len()
                == self.resolved(b) by {
                assert(before.body().blocks()[b].preds@[e].args@.len() == before.resolved(b));
            }
        }
    }
}

impl SsaBuilder {
    /// Adds an empty block that is not sealed and defines no local variable.
    pub fn create_block(&mut self) -> (b: Block)
        requires
            old(self).wf(),
        ensures
            final(self).wf(),
            block_created(&old(self).body(), &final(self).body(), b),
            final(self).locals() == old(self).locals(),
            final(self).state().len() == old(self).state().len() + 1,
            forall|j: int| 0 <= j < old(self).state().len() ==> final(self).state()[j]
                == old(self).state()[j],
            !final(self).state()[b.0 as int].sealed,
            final(self).state()[b.0 as int].incomplete@.len() == 0,
            forall|x: int| 0 <= x < old(self).locals().len()
                ==> final(self).state()[b.0 as int].defs@[x] is None,
    {
        let b = self.body.create_block();
        let mut defs: Vec<Option<Value>> = Vec::new();
        let mut i: usize = 0;
        while i < self.locals.len()
            invariant
                0 <= i <= self.locals.len(),
                defs@.len() == i,
                forall|x: int| 0 <= x < i ==> defs@[x] is None,
            decreases self.locals.len() - i,
        {
            defs.push(None);
            i += 1;
        }
        self.state.push(SsaBlock { sealed: false, defs, incomplete: Vec::new() });
        proof {
            assert forall|j: int| 0 <= j < self.state().len() implies #[trigger] self.block_wf(j) by {
                if j < old(self).state().len() {
                    assert(old(self).block_wf(j));
                }
            }
        }
        b
    }

    /// Adds a parameter of type `ty` to block `b`, which no edge enters yet.
    /// The branches to `b` pass an argument for it when they are made.
    pub fn append_block_param(&mut self, b: Block, ty: Type) -> (v: Value)
        requires
            old(self).wf(),
            old(self).valid_block(b),
            old(self).body().blocks()[b.0 as int].preds@.len() == 0,
            old(self).state()[b.0 as int].incomplete@.len() == 0,
        ensures
            final(self).wf(),
            param_appended(&old(self).body(), &final(self).body(), b, ty, v),
            final(self).locals() == old(self).locals(),
            final(self).state() == old(self).state(),
            forall|x: Value| old(self).body().live(x) ==> final(self).body().live(x),
    {
        let v = self.body.append_param(b, ty);
        proof {
            assert forall|j: int| 0 <= j < self.state().len() implies #[trigger] self.block_wf(j) by {
                assert(old(self).block_wf(j));
            }
        }
        v
    }

    /// Makes `v` the current definition of the local variable `x` in block `b`.
    pub fn define_local(&mut self, b: Block, x: Local, v: Value)
        requires
            old(self).wf(),
            old(self).valid_block(b),
            old(self).valid_local(x),
            old(self).body().live(v),
        ensures
            final(self).wf(),
            final(self).body() == old(self).body(),
            final(self).locals() == old(self).locals(),
            final(self).state().len() == old(self).state().len(),
            forall|j: int|
                0 <= j < old(self).state().len() && j != b.0 ==> final(self).state()[j]
                    == old(self).state()[j],
            final(self).state()[b.0 as int].sealed == old(self).state()[b.0 as int].sealed,
            final(self).state()[b.0 as int].incomplete == old(self).state()[b.0 as int].incomplete,
            final(self).state()[b.0 as int].defs@
                == old(self).state()[b.0 as int].defs@.update(x.0 as int, Some(v)),
    {
        proof {
            assert(old(self).block_wf(b.0 as int));
        }
        self.state[b.0].defs.set(x.0, Some(v));
        proof {
            assert forall|j: int| 0 <= j < self.state().len() implies #[trigger] self.block_wf(j) by {
                assert(old(self).block_wf(j));
            }
        }
    }

    /// The current definition of the local variable `x` in block `b`, where
    /// the block has one of its own.
    pub fn local_def(&self, b: Block, x: Local) -> (d: Option<Value>)
        requires
            self.wf_inner(),
            self.valid_block(b),
            self.valid_local(x),
        ensures
            d == self.state()[b.0 as int].defs@[x.0 as int],
    {
        proof {
            assert(self.block_wf(b.0 as int));
        }
        self.state[b.0].defs[x.0]
    }

    /// Adds an instruction behind the instructions of block `b`, see
    /// [`Body::append_inst`].
    pub fn ins(&mut self, b: Block, opcode: Opcode, args: Vec<Value>, result_types: &Vec<Type>) -> (n: Inst)
        requires
            old(self).wf(),
            old(self).valid_block(b),
            old(self).body().all_live(args@),
        ensures
            final(self).wf(),
            inst_appended(&old(self).body(), &final(self).body(), b, opcode, args@, result_types@, n),
            final(self).locals() == old(self).locals(),
            final(self).state() == old(self).state(),
            forall|x: Value| old(self).body().live(x) ==> final(self).body().live(x),
    {
        let n = self.body.append_inst(b, opcode, args, result_types);
        proof {
            assert forall|j: int| 0 <= j < self.body().blocks().len()
                implies (#[trigger] self.body().blocks()[j]).params@
                == old(self).body().blocks()[j].params@ && self.body().blocks()[j].preds@
                == old(self).body().blocks()[j].preds@ by {}
            self.lemma_same_blocks(old(self));
        }
        n
    }

    /// Gives the branch `n` one more target: an edge into block `dest`,
    /// which is not sealed, with one argument for each parameter of `dest`
    /// that does not wait for the block to be sealed.
    pub fn add_target(&mut self, n: Inst, dest: Block, args: Vec<Value>) -> (t: EdgeRef)
        requires
            old(self).wf(),
            old(self).body().valid_inst(n),
            old(self).valid_block(dest),
            !old(self).state()[dest.0 as int].sealed,
            old(self).body().all_live(args@),
            args@.len() == old(self).resolved(dest.0 as int),
        ensures
            final(self).wf(),
            target_added(&old(self).body(), &final(self).body(), n, dest, args, t),
            final(self).locals() == old(self).locals(),
            final(self).state() == old(self).state(),
    {
        proof {
            assert(old(self).block_wf(dest.0 as int));
        }
        let t = self.body.add_target(n, dest, args);
        proof {
            assert forall|j: int| 0 <= j < self.state().len() implies #[trigger] self.block_wf(j) by {
                assert(old(self).block_wf(j));
                let data = self.body().blocks()[j];
                let before = old(self).body().blocks()[j];
                assert(forall|v: Value| old(self).body().live(v) == self.body().live(v));
                if j == dest.0 {
                    assert forall|e: int| 0 <= e < data.preds@.len()
                        implies (#[trigger] data.preds@[e]).args@.len()
                        == self.resolved(j) by {
                        if e < before.preds@.len() {
                            assert(data.preds@[e] == before.preds@[e]);
                        }
                    }
                }
            }
        }
        t
    }

    /// Adds a stand-in for an operand in code that can never run.
    pub fn make_placeholder(&mut self) -> (v: Value)
        requires
            old(self).wf(),
        ensures
            final(self).wf(),
            v.0 == old(self).body().values().len(),
            final(self).body().live(v),
            final(self).body().values()
                == old(self).body().values().push(crate::ir::ValueData::Placeholder),
            final(self).body().insts() == old(self).body().insts(),
            final(self).body().blocks() == old(self).body().blocks(),
            final(self).locals() == old(self).locals(),
            final(self).state() == old(self).state(),
            forall|x: Value| old(self).body().live(x) ==> final(self).body().live(x),
    {
        let v = self.body.make_placeholder();
        proof {
            self.lemma_same_blocks(old(self));
        }
        v
    }
}

impl SsaBuilder {
    /// True when the search for a definition of `x` goes on from block `b`
    /// to its predecessor: `b` has no definition of `x`, is sealed and has
    /// one predecessor.
    pub open spec fn continues(&self, b: Block, x: Local) -> bool {
        &&& self.state()[b.0 as int].defs@[x.0 as int] is None
        &&& self.state()[b.0 as int].sealed
        &&& self.body().blocks()[b.0 as int].preds@.len() == 1
    }

    /// The block at which the search for a definition of `x` arrives when
    /// it starts in `b` and goes from block to predecessor, for `fuel` steps
    /// at most, as long as it `continues`.
    pub open spec fn chain_end(&self, b: Block, x: Local, fuel: nat) -> Block
        decreases fuel,
    {
        if fuel == 0 || !self.continues(b, x) {
            b
        } else {
            self.chain_end(self.body().blocks()[b.0 as int].preds@[0].from, x, (fuel - 1) as nat)
        }
    }

    /// The block at which a definition of `x` is looked for when it is
    /// asked for in `b`: the end of the chain of single predecessors. A
    /// chain that is longer than the number of blocks goes in a circle.
    pub open spec fn search_end(&self, b: Block, x: Local) -> Block {
        self.chain_end(b, x, self.state().len())
    }

    /// The number of blocks in which `x` has no definition.
    pub open spec fn missing(&self, x: Local) -> nat {
        count_missing(self.state(), x.0 as int)
    }

    /// The invariant that holds while a definition of `x` is searched for:
    /// that of the search, and every sealed block with a parameter that
    /// waits to be resolved has a definition of `x`.
    pub open spec fn wf_lookup(&self, x: Local) -> bool {
        &&& self.wf_inner()
        &&& self.valid_local(x)
        &&& forall|b: int|
            0 <= b < self.state().len() && (#[trigger] self.state()[b]).sealed
                && self.state()[b].incomplete@.len()
                > 0 ==> self.state()[b].defs@[x.0 as int] is Some
    }

    /// True when `self` has the instructions of `before`, in the same
    /// blocks and in the same order, each with the opcode, the results, the
    /// targets and the number of operands that it has in `before`.
    pub open spec fn same_insts(&self, before: &SsaBuilder) -> bool {
        &&& self.body().insts().len() == before.body().insts().len()
        &&& forall|n: int|
            0 <= n < before.body().insts().len() ==> {
                let x = before.body().insts()[n];
                let y = #[trigger] self.body().insts()[n];
                &&& y.opcode == x.opcode
                &&& y.block == x.block
                &&& y.targets == x.targets
                &&& y.results == x.results
                &&& y.args@.len() == x.args@.len()
            }
        &&& forall|b: int|
            0 <= b < before.body().blocks().len() ==> (#[trigger] self.body().blocks()[b]).insts
                == before.body().blocks()[b].insts
    }

    /// Having the instructions of an earlier state carries over two steps.
    pub(crate) proof fn lemma_same_insts_trans(&self, mid: &SsaBuilder, before: &SsaBuilder)
        requires
            self.same_insts(mid),
            mid.same_insts(before),
            mid.body().blocks().len() == before.body().blocks().len(),
        ensures
            self.same_insts(before),
    {
        assert forall|n: int| 0 <= n < before.body().insts().len() implies {
            let x = before.body().insts()[n];
            let y = #[trigger] self.body().insts()[n];
            &&& y.opcode == x.opcode
            &&& y.block == x.block
            &&& y.targets == x.targets
            &&& y.results == x.results
            &&& y.args@.len() == x.args@.len()
        } by {
            let m = mid.body().insts()[n];
            assert(m.opcode == before.body().insts()[n].opcode);
        }
        assert forall|b: int| 0 <= b < before.body().blocks().len()
            implies (#[trigger] self.body().blocks()[b]).insts
            == before.body().blocks()[b].insts by {
            assert(mid.body().blocks()[b].insts == before.body().blocks()[b].insts);
        }
    }

    /// What a search leaves as it was in `before`: the local variables, the
    /// blocks with their seals and the edges between them, and that a local
    /// variable has a definition where it had one.
    pub open spec fn same_graph(&self, before: &SsaBuilder) -> bool {
        &&& self.locals() == before.locals()
        &&& self.state().len() == before.state().len()
        &&& self.body().blocks().len() == before.body().blocks().len()
        &&& forall|b: int|
            0 <= b < before.state().len() ==> (#[trigger] self.state()[b]).sealed
                == before.state()[b].sealed
        &&& forall|b: int|
            0 <= b < before.state().len() ==> (#[trigger] self.body().blocks()[b]).preds@.len()
                == before.body().blocks()[b].preds@.len()
        &&& forall|b: int, e: int|
            0 <= b < before.state().len() && 0 <= e < before.body().blocks()[b].preds@.len() ==> (
            #[trigger] self.body().blocks()[b].preds@[e]).from == before.body().blocks()[b].preds@[e].from
        &&& forall|b: int, y: int|
            0 <= b < before.state().len() && 0 <= y < before.locals().len()
                && before.state()[b].defs@[y] is Some
                ==> (#[trigger] self.state()[b].defs@[y]) is Some
        &&& forall|b: int|
            0 <= b < before.state().len() && !before.state()[b].sealed ==> #[trigger] self.resolved(b)
                == before.resolved(b)
        &&& self.same_insts(before)
    }

    /// True when the parameters that wait in sealed blocks are those of `before`.
    pub open spec fn same_pending(&self, before: &SsaBuilder) -> bool {
        forall|b: int|
            0 <= b < before.state().len() && before.state()[b].sealed
                ==> (#[trigger] self.state()[b]).incomplete@
                == before.state()[b].incomplete@
    }

    /// True when every value that is live in `before` is live in `self`.
    pub open spec fn keeps_live(&self, before: &SsaBuilder) -> bool {
        forall|v: Value| before.body().live(v) ==> self.body().live(v)
    }

    /// True when every value of `before` that had been taken out is still
    /// taken out in `self`.
    pub open spec fn keeps_dead(&self, before: &SsaBuilder) -> bool {
        &&& before.body().values().len() <= self.body().values().len()
        &&& forall|i: int|
            0 <= i < before.body().values().len() && before.body().values()[i] is Removed ==> (
            #[trigger] self.body().values()[i]) is Removed
    }

    /// What is left as it was by two searches, one after the other, is left
    /// as it was by both together.
    proof fn lemma_same_graph_trans(&self, mid: &SsaBuilder, before: &SsaBuilder)
        requires
            self.same_graph(mid),
            mid.same_graph(before),
            before.wf_inner(),
        ensures
            self.same_graph(before),
            self.missing_le(before),
    {
        assert forall|b: int, y: int|
            0 <= b < before.state().len() && 0 <= y < before.locals().len()
                && before.state()[b].defs@[y] is Some implies (
        #[trigger] self.state()[b].defs@[y]) is Some by {
            assert(mid.state()[b].defs@[y] is Some);
        }
        assert forall|b: int, e: int|
            0 <= b < before.state().len() && 0 <= e < before.body().blocks()[b].preds@.len() implies (
        #[trigger] self.body().blocks()[b].preds@[e]).from == before.body().blocks()[b].preds@[e].from by {
            assert(mid.body().blocks()[b].preds@.len() == before.body().blocks()[b].preds@.len());
            assert(mid.body().blocks()[b].preds@[e].from == before.body().blocks()[b].preds@[e].from);
        }
        assert forall|b: int| 0 <= b < before.state().len() implies (#[trigger] self.state()[b]).sealed
            == before.state()[b].sealed by {
            assert(mid.state()[b].sealed == before.state()[b].sealed);
        }
        assert forall|b: int| 0 <= b < before.state().len()
            implies (#[trigger] self.body().blocks()[b]).preds@.len()
            == before.body().blocks()[b].preds@.len() by {
            assert(mid.body().blocks()[b].preds@.len() == before.body().blocks()[b].preds@.len());
        }
        assert forall|b: int| 0 <= b < before.state().len() && !before.state()[b].sealed
            implies #[trigger] self.resolved(
            b,
        ) == before.resolved(b) by {
            assert(mid.state()[b].sealed == before.state()[b].sealed);
            assert(mid.resolved(b) == before.resolved(b));
        }
        self.lemma_same_insts_trans(mid, before);
        self.lemma_missing_le(before);
    }

    /// What was taken out before the first of two searches is still taken
    /// out after the second.
    proof fn lemma_keeps_dead_trans(&self, mid: &SsaBuilder, before: &SsaBuilder)
        requires
            self.keeps_dead(mid),
            mid.keeps_dead(before),
        ensures
            self.keeps_dead(before),
    {
        assert forall|i: int|
            0 <= i < before.body().values().len() && before.body().values()[i] is Removed implies (
        #[trigger] self.body().values()[i]) is Removed by {
            assert(mid.body().values()[i] is Removed);
        }
    }

    /// True when no local variable lacks a definition in more blocks than
    /// it does in `before`.
    pub open spec fn missing_le(&self, before: &SsaBuilder) -> bool {
        forall|y: Local| before.valid_local(y) ==> #[trigger] self.missing(y) <= before.missing(y)
    }

    /// A search does not take definitions away.
    proof fn lemma_missing_le(&self, before: &SsaBuilder)
        requires
            self.same_graph(before),
        ensures
            self.missing_le(before),
    {
        assert forall|y: Local| before.valid_local(y) implies #[trigger] self.missing(y)
            <= before.missing(y) by {
            assert forall|i: int|
                0 <= i < before.state().len()
                    && (#[trigger] before.state()[i]).defs@[y.0 as int] is Some
                        implies self.state()[i].defs@[y.0 as int] is Some by {
                assert(self.state()[i].defs@[y.0 as int] is Some);
            }
            lemma_count_missing(before.state(), self.state(), y.0 as int);
        }
    }

    /// The block at which a definition of `x` is looked for when it is
    /// asked for in `b`.
    pub fn find_search_end(&self, b: Block, x: Local) -> (end: Block)
        requires
            self.wf_inner(),
            self.valid_block(b),
            self.valid_local(x),
        ensures
            end == self.search_end(b, x),
            self.valid_block(end),
    {
        let mut cur = b;
        let mut fuel = self.state.len();
        loop
            invariant
                self.wf_inner(),
                self.valid_block(cur),
                self.valid_local(x),
                fuel <= self.state().len(),
                self.chain_end(b, x, self.state().len()) == self.chain_end(cur, x, fuel as nat),
            ensures
                cur == self.search_end(b, x),
                self.valid_block(cur),
            decreases fuel,
        {
            proof {
                assert(self.block_wf(cur.0 as int));
                assert(self.body().block_wf(cur.0 as int));
            }
            if fuel == 0 {
                break ;
            }
            let st = &self.state[cur.0];
            if st.defs[x.0].is_some() || !st.sealed {
                break ;
            }
            let data = self.body.block(cur);
            if data.preds.len() != 1 {
                break ;
            }
            proof {
                assert(self.body().edge_wf(data.preds@[0], data.params@.len() as int));
            }
            cur = data.preds[0].from;
            fuel = fuel - 1;
        }
        cur
    }
}

impl SsaBuilder {
    /// True when `self` is `before` with one more parameter, `p`, of block
    /// `b`: it stands for the local variable `x`, is the definition of `x`
    /// in `b`, and waits to be resolved.
    pub open spec fn pending_added(&self, before: &SsaBuilder, b: Block, x: Local, p: Value) -> bool {
        &&& param_appended(&before.body(), &self.body(), b, before.locals()[x.0 as int], p)
        &&& self.locals() == before.locals()
        &&& self.state().len() == before.state().len()
        &&& forall|j: int|
            0 <= j < before.state().len() && j != b.0 ==> #[trigger] self.state()[j] == before.state()[j]
        &&& self.state()[b.0 as int].sealed == before.state()[b.0 as int].sealed
        &&& self.state()[b.0 as int].defs@ == before.state()[b.0 as int].defs@.update(x.0 as int, Some(p))
        &&& self.state()[b.0 as int].incomplete@ == before.state()[b.0 as int].incomplete@.push(
            Incomplete { local: x, param: p },
        )
    }

    /// Gives block `b`, which has no definition of `x`, a parameter that
    /// stands for `x` and waits to be resolved.
    fn add_pending(&mut self, b: Block, x: Local) -> (p: Value)
        requires
            old(self).wf_inner(),
            old(self).valid_block(b),
            old(self).valid_local(x),
            old(self).state()[b.0 as int].defs@[x.0 as int] is None,
        ensures
            final(self).wf_inner(),
            final(self).pending_added(old(self), b, x, p),
            final(self).same_graph(old(self)),
            final(self).keeps_live(old(self)),
            final(self).keeps_dead(old(self)),
            final(self).body().live(p),
            final(self).missing(x) < old(self).missing(x),
    {
        proof {
            assert(old(self).block_wf(b.0 as int));
        }
        let p = self.body.append_param(b, self.locals[x.0]);
        self.state[b.0].defs.set(x.0, Some(p));
        self.state[b.0].incomplete.push(Incomplete { local: x, param: p });
        proof {
            assert forall|j: int| 0 <= j < self.state().len() implies #[trigger] self.block_wf(j) by {
                assert(old(self).block_wf(j));
                if j == b.0 {
                    let st = self.state()[j];
                    let before = old(self).state()[j];
                    assert forall|k: int| 0 <= k < st.incomplete@.len() implies {
                        &&& self.valid_local((#[trigger] st.incomplete@[k]).local)
                        &&& st.incomplete@[k].param == self.params(j)[self.resolved(j) + k]
                        &&& st.defs@[st.incomplete@[k].local.0 as int] is Some
                    } by {
                        if k < before.incomplete@.len() {
                            assert(st.incomplete@[k] == before.incomplete@[k]);
                        }
                    }
                }
            }
            assert(self.state()[b.0 as int].defs@[x.0 as int] is Some);
            lemma_count_missing(old(self).state(), self.state(), x.0 as int);
        }
        p
    }

    /// True when `self` is `before` without the first waiting parameter of
    /// block `b`, and with `v` in every place where that parameter stood.
    pub open spec fn trivial_removed(&self, before: &SsaBuilder, b: Block, v: Value) -> bool {
        let p = before.state()[b.0 as int].incomplete@[0].param;
        &&& param_replaced(&before.body(), &self.body(), b, before.resolved(b.0 as int), v)
        &&& self.locals() == before.locals()
        &&& self.state().len() == before.state().len()
        &&& forall|j: int|
            0 <= j < before.state().len() ==> (#[trigger] self.state()[j]).sealed
                == before.state()[j].sealed
        &&& forall|j: int|
            0 <= j < before.state().len() ==> (#[trigger] self.state()[j]).incomplete@ == (if j == b.0 {
                before.state()[j].incomplete@.drop_first()
            } else {
                before.state()[j].incomplete@
            })
        &&& forall|j: int|
            0 <= j < before.state().len() ==> (#[trigger] self.state()[j]).defs@.len()
                == before.state()[j].defs@.len()
        &&& forall|j: int, y: int|
            0 <= j < before.state().len() && 0 <= y < before.state()[j].defs@.len() ==> (
            #[trigger] self.state()[j].defs@[y]) == substitute_def(before.state()[j].defs@[y], p, v)
    }

    /// Takes the first waiting parameter out of block `b` and puts `v` in
    /// every place where it stood: among operands, arguments and definitions.
    fn remove_trivial(&mut self, b: Block, v: Value) -> (p: Value)
        requires
            old(self).wf_inner(),
            old(self).valid_block(b),
            old(self).state()[b.0 as int].sealed,
            old(self).state()[b.0 as int].incomplete@.len() > 0,
            old(self).body().live(v),
            v != old(self).state()[b.0 as int].incomplete@[0].param,
        ensures
            final(self).wf_inner(),
            p == old(self).state()[b.0 as int].incomplete@[0].param,
            final(self).trivial_removed(old(self), b, v),
            final(self).same_graph(old(self)),
            final(self).keeps_dead(old(self)),
            final(self).body().removed(p),
            final(self).body().live(v),
            forall|y: Value| old(self).body().live(y) && y != p ==> final(self).body().live(y),
    {
        proof {
            assert(old(self).block_wf(b.0 as int));
        }
        let index = self.body.block(b).params.len() - self.state[b.0].incomplete.len();
        let p = self.body.replace_param(b, index, v);
        let ghost mid = *self;
        let mut j: usize = 0;
        while j < self.state.len()
            invariant
                0 <= j <= self.state().len() == mid.state().len(),
                self.body() == mid.body(),
                self.locals() == mid.locals(),
                forall|k: int|
                    0 <= k < self.state().len() ==> (#[trigger] self.state()[k]).sealed
                        == mid.state()[k].sealed
                        && self.state()[k].incomplete == mid.state()[k].incomplete
                            && self.state()[k].defs@.len()
                        == mid.state()[k].defs@.len(),
                forall|k: int, y: int|
                    0 <= k < j && 0 <= y < mid.state()[k].defs@.len()
                        ==> (#[trigger] self.state()[k].defs@[y])
                        == substitute_def(mid.state()[k].defs@[y], p, v),
                forall|k: int| j <= k < self.state().len() ==> (#[trigger] self.state()[k]).defs@
                    == mid.state()[k].defs@,
            decreases self.state.len() - j,
        {
            let mut y: usize = 0;
            while y < self.state[j].defs.len()
                invariant
                    0 <= j < self.state().len() == mid.state().len(),
                    0 <= y <= self.state()[j as int].defs@.len(),
                    self.body() == mid.body(),
                    self.locals() == mid.locals(),
                    forall|k: int|
                        0 <= k < self.state().len() ==> (#[trigger] self.state()[k]).sealed
                            == mid.state()[k].sealed
                            && self.state()[k].incomplete == mid.state()[k].incomplete
                                && self.state()[k].defs@.len()
                            == mid.state()[k].defs@.len(),
                    forall|k: int, z: int|
                        0 <= k < j && 0 <= z < mid.state()[k].defs@.len()
                            ==> (#[trigger] self.state()[k].defs@[z])
                            == substitute_def(mid.state()[k].defs@[z], p, v),
                    forall|k: int| j < k < self.state().len() ==> (#[trigger] self.state()[k]).defs@
                        == mid.state()[k].defs@,
                    forall|z: int|
                        0 <= z < y ==> (#[trigger] self.state()[j as int].defs@[z]) == substitute_def(
                            mid.state()[j as int].defs@[z],
                            p,
                            v,
                        ),
                    forall|z: int|
                        y <= z < self.state()[j as int].defs@.len()
                            ==> (#[trigger] self.state()[j as int].defs@[z])
                            == mid.state()[j as int].defs@[z],
                decreases self.state[j as int].defs.len() - y,
            {
                let stale = match self.state[j].defs[y] {
                    Some(d) => d == p,
                    None => false,
                };
                if stale {
                    self.state[j].defs.set(y, Some(v));
                }
                y += 1;
            }
            j += 1;
        }
        self.state[b.0].incomplete.remove(0);
        proof {
            assert(self.state()[b.0 as int].incomplete@
                =~= old(self).state()[b.0 as int].incomplete@.drop_first());
            self.lemma_trivial_removed(old(self), b, v);
            assert(old(self).body().block_wf(b.0 as int));
            assert(old(self).body().is_param_of(p, b.0 as int));
            assert(self.body().values() == old(self).body().values().update(
                p.0 as int,
                crate::ir::ValueData::Removed,
            ));
        }
        p
    }

    /// Taking a waiting parameter out leaves the builder well formed.
    proof fn lemma_trivial_removed(&self, before: &SsaBuilder, b: Block, v: Value)
        requires
            before.wf_inner(),
            before.valid_block(b),
            before.state()[b.0 as int].sealed,
            before.state()[b.0 as int].incomplete@.len() > 0,
            before.body().live(v),
            v != before.state()[b.0 as int].incomplete@[0].param,
            self.trivial_removed(before, b, v),
            self.body().wf(),
            !self.body().live(before.state()[b.0 as int].incomplete@[0].param),
            forall|y: Value|
                before.body().live(y) && y != before.state()[b.0 as int].incomplete@[0].param
                    ==> self.body().live(y),
        ensures
            self.wf_inner(),
            self.same_graph(before),
    {
        let p = before.state()[b.0 as int].incomplete@[0].param;
        assert(before.block_wf(b.0 as int));
        assert forall|j: int| 0 <= j < self.state().len() implies #[trigger] self.block_wf(j) by {
            assert(before.block_wf(j));
            let st = self.state()[j];
            let data = self.body().blocks()[j];
            let st0 = before.state()[j];
            let data0 = before.body().blocks()[j];
            assert(block_substituted_here(data0, data, p, v, j == b.0, before.resolved(b.0 as int)));
            assert forall|y: int| 0 <= y < st.defs@.len()
                implies ((#[trigger] st.defs@[y]) matches Some(d) ==> self.body().live(d)) by {
                assert(st.defs@[y] == substitute_def(st0.defs@[y], p, v));
            }
            assert forall|k: int| 0 <= k < st.incomplete@.len() implies {
                &&& self.valid_local((#[trigger] st.incomplete@[k]).local)
                &&& st.incomplete@[k].param == data.params@[self.resolved(j) + k]
                &&& st.defs@[st.incomplete@[k].local.0 as int] is Some
            } by {
                if j == b.0 {
                    assert(st.incomplete@[k] == st0.incomplete@[k + 1]);
                    assert(self.valid_local(st0.incomplete@[k + 1].local));
                    assert(st.defs@[st.incomplete@[k].local.0 as int] == substitute_def(
                        st0.defs@[st.incomplete@[k].local.0 as int],
                        p,
                        v,
                    ));
                } else {
                    assert(st.incomplete@[k] == st0.incomplete@[k]);
                    assert(self.valid_local(st0.incomplete@[k].local));
                    assert(st.defs@[st.incomplete@[k].local.0 as int] == substitute_def(
                        st0.defs@[st.incomplete@[k].local.0 as int],
                        p,
                        v,
                    ));
                }
            }
            assert forall|e: int| 0 <= e < data.preds@.len() implies (#[trigger] data.preds@[e]).args@.len()
                == self.resolved(j) by {
                assert(data0.preds@[e].args@.len() == before.resolved(j));
                assert(crate::ir::edge_substituted(data0.preds@[e], data.preds@[e], p, v));
            }
        }
        assert forall|j: int, e: int|
            0 <= j < before.state().len() && 0 <= e < before.body().blocks()[j].preds@.len() implies (
        #[trigger] self.body().blocks()[j].preds@[e]).from == before.body().blocks()[j].preds@[e].from by {
            assert(block_substituted_here(
                before.body().blocks()[j],
                self.body().blocks()[j],
                p,
                v,
                j == b.0,
                before.resolved(b.0 as int),
            ));
            assert(crate::ir::edge_substituted(
                before.body().blocks()[j].preds@[e],
                self.body().blocks()[j].preds@[e],
                p,
                v,
            ));
        }
        assert forall|j: int| 0 <= j < before.state().len()
            implies (#[trigger] self.body().blocks()[j]).preds@.len()
            == before.body().blocks()[j].preds@.len() by {
            assert(block_substituted_here(
                before.body().blocks()[j],
                self.body().blocks()[j],
                p,
                v,
                j == b.0,
                before.resolved(b.0 as int),
            ));
        }
        assert forall|j: int, y: int|
            0 <= j < before.state().len() && 0 <= y < before.locals().len()
                && before.state()[j].defs@[y] is Some implies (
        #[trigger] self.state()[j].defs@[y]) is Some by {
            assert(before.block_wf(j));
            assert(self.state()[j].defs@[y] == substitute_def(before.state()[j].defs@[y], p, v));
        }
        assert forall|j: int| 0 <= j < before.state().len() && !before.state()[j].sealed
            implies #[trigger] self.resolved(
            j,
        ) == before.resolved(j) by {
            assert(block_substituted_here(
                before.body().blocks()[j],
                self.body().blocks()[j],
                p,
                v,
                j == b.0,
                before.resolved(b.0 as int),
            ));
            assert(self.state()[j].incomplete@ == before.state()[j].incomplete@);
        }
        assert(self.same_insts(before)) by {
            assert forall|n: int| 0 <= n < before.body().insts().len() implies {
                let x = before.body().insts()[n];
                let y = #[trigger] self.body().insts()[n];
                &&& y.opcode == x.opcode
                &&& y.block == x.block
                &&& y.targets == x.targets
                &&& y.results == x.results
                &&& y.args@.len() == x.args@.len()
            } by {
                assert(crate::ir::inst_substituted(before.body().insts()[n], self.body().insts()[n], p, v));
            }
            assert forall|j: int| 0 <= j < before.body().blocks().len()
                implies (#[trigger] self.body().blocks()[j]).insts
                == before.body().blocks()[j].insts by {
                assert(block_substituted_here(
                    before.body().blocks()[j],
                    self.body().blocks()[j],
                    p,
                    v,
                    j == b.0,
                    before.resolved(b.0 as int),
                ));
            }
        }
    }
}

impl SsaBuilder {
    /// True when `self` is `before` with one more argument on every edge
    /// into block `b`, the values of `vals` in the order of the edges, for
    /// the first waiting parameter of `b`, which waits no longer.
    pub open spec fn param_kept(&self, before: &SsaBuilder, b: Block, vals: Seq<Value>) -> bool {
        let data = self.body().blocks()[b.0 as int];
        let data0 = before.body().blocks()[b.0 as int];
        &&& self.locals() == before.locals()
        &&& self.body().values() == before.body().values()
        &&& self.body().insts() == before.body().insts()
        &&& self.body().blocks().len() == before.body().blocks().len()
        &&& forall|j: int|
            0 <= j < before.body().blocks().len() && j != b.0 ==> #[trigger] self.body().blocks()[j]
                == before.body().blocks()[j]
        &&& data.params == data0.params
        &&& data.insts == data0.insts
        &&& data.preds@.len() == data0.preds@.len()
        &&& forall|e: int|
            0 <= e < data0.preds@.len() ==> {
                &&& (#[trigger] data.preds@[e]).from == data0.preds@[e].from
                &&& data.preds@[e].inst == data0.preds@[e].inst
                &&& data.preds@[e].args@ == data0.preds@[e].args@.push(vals[e])
            }
        &&& self.state().len() == before.state().len()
        &&& forall|j: int|
            0 <= j < before.state().len() && j != b.0 ==> #[trigger] self.state()[j] == before.state()[j]
        &&& self.state()[b.0 as int].sealed == before.state()[b.0 as int].sealed
        &&& self.state()[b.0 as int].defs == before.state()[b.0 as int].defs
        &&& self.state()[b.0 as int].incomplete@ == before.state()[b.0 as int].incomplete@.drop_first()
    }

    /// Lets every edge into block `b` pass its value of `vals` for the first
    /// waiting parameter of `b`, which waits no longer.
    fn keep_param(&mut self, b: Block, vals: &Vec<Value>)
        requires
            old(self).wf_inner(),
            old(self).valid_block(b),
            old(self).state()[b.0 as int].sealed,
            old(self).state()[b.0 as int].incomplete@.len() > 0,
            vals@.len() == old(self).body().blocks()[b.0 as int].preds@.len(),
            old(self).body().all_live(vals@),
        ensures
            final(self).wf_inner(),
            final(self).param_kept(old(self), b, vals@),
            final(self).same_graph(old(self)),
            final(self).keeps_live(old(self)),
            final(self).keeps_dead(old(self)),
    {
        proof {
            assert(old(self).block_wf(b.0 as int));
        }
        let n = vals.len();
        let mut e: usize = 0;
        while e < n
            invariant
                0 <= e <= n == vals@.len(),
                self.body().wf(),
                self.valid_block(b),
                self.state() == old(self).state(),
                self.locals() == old(self).locals(),
                old(self).body().all_live(vals@),
                old(self).state()[b.0 as int].incomplete@.len() > 0,
                old(self).block_wf(b.0 as int),
                self.body().values() == old(self).body().values(),
                self.body().insts() == old(self).body().insts(),
                self.body().blocks().len() == old(self).body().blocks().len(),
                forall|j: int|
                    0 <= j < old(self).body().blocks().len() && j != b.0
                        ==> #[trigger] self.body().blocks()[j]
                        == old(self).body().blocks()[j],
                self.body().blocks()[b.0 as int].params == old(self).body().blocks()[b.0 as int].params,
                self.body().blocks()[b.0 as int].insts == old(self).body().blocks()[b.0 as int].insts,
                self.body().blocks()[b.0 as int].preds@.len() == n,
                old(self).body().blocks()[b.0 as int].preds@.len() == n,
                forall|k: int|
                    0 <= k < n ==> (#[trigger] self.body().blocks()[b.0 as int].preds@[k]).from
                        == old(self).body().blocks()[b.0 as int].preds@[k].from
                            && self.body().blocks()[b.0 as int].preds@[k].inst
                        == old(self).body().blocks()[b.0 as int].preds@[k].inst,
                forall|k: int|
                    0 <= k < e ==> (#[trigger] self.body().blocks()[b.0 as int].preds@[k]).args@
                        == old(self).body().blocks()[b.0 as int].preds@[k].args@.push(vals@[k]),
                forall|k: int|
                    e <= k < n ==> (#[trigger] self.body().blocks()[b.0 as int].preds@[k]).args@
                        == old(self).body().blocks()[b.0 as int].preds@[k].args@,
            decreases n - e,
        {
            proof {
                assert(old(self).body().blocks()[b.0 as int].preds@[e as int].args@.len()
                    == old(self).resolved(b.0 as int));
                assert(old(self).body().live(vals@[e as int]));
            }
            let ghost prev = self.body();
            self.body.push_edge_arg(b, e, vals[e]);
            proof {
                assert(edge_arg_pushed(&prev, &self.body(), b, e as int, vals@[e as int]));
                assert forall|k: int| 0 <= k < n
                    implies (#[trigger] self.body().blocks()[b.0 as int].preds@[k]).from
                    == old(self).body().blocks()[b.0 as int].preds@[k].from
                        && self.body().blocks()[b.0 as int].preds@[k].inst
                    == old(self).body().blocks()[b.0 as int].preds@[k].inst by {
                    assert(prev.blocks()[b.0 as int].preds@[k].from
                        == old(self).body().blocks()[b.0 as int].preds@[k].from);
                }
                assert forall|k: int| e + 1 <= k < n
                    implies (#[trigger] self.body().blocks()[b.0 as int].preds@[k]).args@
                    == old(self).body().blocks()[b.0 as int].preds@[k].args@ by {
                    assert(prev.blocks()[b.0 as int].preds@[k].args@
                        == old(self).body().blocks()[b.0 as int].preds@[k].args@);
                }
                assert forall|k: int| 0 <= k < e + 1
                    implies (#[trigger] self.body().blocks()[b.0 as int].preds@[k]).args@
                    == old(self).body().blocks()[b.0 as int].preds@[k].args@.push(vals@[k]) by {
                    if k < e {
                        assert(prev.blocks()[b.0 as int].preds@[k].args@
                            == old(self).body().blocks()[b.0 as int].preds@[k].args@.push(vals@[k]));
                    }
                }
            }
            e += 1;
        }
        self.state[b.0].incomplete.remove(0);
        proof {
            assert(self.state()[b.0 as int].incomplete@
                =~= old(self).state()[b.0 as int].incomplete@.drop_first());
            assert forall|j: int| 0 <= j < self.state().len() implies #[trigger] self.block_wf(j) by {
                assert(old(self).block_wf(j));
                if j == b.0 {
                    let st = self.state()[j];
                    let st0 = old(self).state()[j];
                    let data = self.body().blocks()[j];
                    assert forall|k: int| 0 <= k < st.incomplete@.len() implies {
                        &&& self.valid_local((#[trigger] st.incomplete@[k]).local)
                        &&& st.incomplete@[k].param == data.params@[self.resolved(j) + k]
                        &&& st.defs@[st.incomplete@[k].local.0 as int] is Some
                    } by {
                        assert(st.incomplete@[k] == st0.incomplete@[k + 1]);
                        assert(old(self).valid_local(st0.incomplete@[k + 1].local));
                    }
                    assert forall|e: int| 0 <= e < data.preds@.len()
                        implies (#[trigger] data.preds@[e]).args@.len()
                        == self.resolved(j) by {
                        assert(old(self).body().blocks()[j].preds@[e].args@.len() == old(self).resolved(j));
                    }
                }
            }
        }
    }

    /// The definition of `x` that the search from block `b` finds at the
    /// block where it ends, where that block has one.
    pub open spec fn found(&self, b: Block, x: Local) -> Option<Value> {
        self.state()[self.search_end(b, x).0 as int].defs@[x.0 as int]
    }

    /// True when the search for a definition of `x` finds one from every
    /// block that an edge into `b` leaves.
    pub open spec fn all_found(&self, b: Block, x: Local) -> bool {
        forall|e: int|
            0 <= e < self.body().blocks()[b.0 as int].preds@.len() ==> self.found(
                (#[trigger] self.body().blocks()[b.0 as int].preds@[e]).from,
                x,
            ) is Some
    }

    /// The definitions of `x` that the search finds from the blocks that
    /// the edges into `b` leave, in the order of the edges.
    pub open spec fn found_values(&self, b: Block, x: Local) -> Seq<Value> {
        Seq::new(
            self.body().blocks()[b.0 as int].preds@.len(),
            |e: int| self.found(self.body().blocks()[b.0 as int].preds@[e].from, x).unwrap(),
        )
    }

    /// What resolving the first waiting parameter of block `b`, which stands
    /// for `x`, comes to where the search finds a definition of `x` along
    /// every edge into `b`, with `after` as the builder that comes of it.
    ///
    /// Where there is no edge, or every edge brings the parameter itself,
    /// no definition reaches the block, and nothing changes. Where every
    /// edge brings one and the same value, the parameter is taken out and
    /// that value stands in its place. Otherwise the parameter stays, and
    /// every edge passes the value that it brings.
    pub open spec fn resolved_from_found(
        &self,
        b: Block,
        x: Local,
        r: Result<Option<(Value, Value)>, SsaError>,
        after: &SsaBuilder,
    ) -> bool {
        let vals = self.found_values(b, x);
        let p = self.state()[b.0 as int].incomplete@[0].param;
        if vals.len() == 0 || (forall|e: int| 0 <= e < vals.len() ==> #[trigger] vals[e] == p) {
            r == Err::<Option<(Value, Value)>, SsaError>(SsaError::UndefinedLocal { block: b, local: x })
                && *after == *self
        } else if forall|e: int| 0 <= e < vals.len() ==> #[trigger] vals[e] == vals[0] {
            r == Ok::<Option<(Value, Value)>, SsaError>(Some((p, vals[0]))) && after.trivial_removed(
                self,
                b,
                vals[0],
            )
        } else {
            r == Ok::<Option<(Value, Value)>, SsaError>(None) && after.param_kept(self, b, vals)
        }
    }

    /// Resolves the first waiting parameter of the sealed block `b`, which
    /// stands for the local variable `x`.
    ///
    /// The definition of `x` is asked for in the block that each edge into
    /// `b` leaves, in the order of the edges. Where all these values are one
    /// value, other than the parameter, the parameter is taken out and that
    /// value stands in its place everywhere: the result names both. Where
    /// they differ, every edge passes its value as an argument, and the
    /// parameter stays. Where there is no edge, or every edge passes the
    /// parameter itself, no definition of `x` reaches the block. It fails for
    /// no other reason where the search finds a definition along every edge:
    /// then [`SsaBuilder::resolved_from_found`] says what it comes to.
    fn resolve_front(&mut self, b: Block, x: Local) -> (r: Result<Option<(Value, Value)>, SsaError>)
        requires
            old(self).wf_lookup(x),
            old(self).valid_block(b),
            old(self).state()[b.0 as int].sealed,
            old(self).state()[b.0 as int].incomplete@.len() > 0,
            old(self).state()[b.0 as int].incomplete@[0].local == x,
        ensures
            r matches Ok(o) ==> {
                &&& final(self).wf_lookup(x)
                &&& final(self).same_graph(old(self))
                &&& final(self).keeps_dead(old(self))
                &&& final(self).state()[b.0 as int].incomplete@
                    == old(self).state()[b.0 as int].incomplete@.drop_first()
                &&& forall|j: int|
                    0 <= j < old(self).state().len() && j != b.0 && old(self).state()[j].sealed ==> (
                    #[trigger] final(self).state()[j]).incomplete@ == old(self).state()[j].incomplete@
                &&& match o {
                    Some((p, v)) => {
                        &&& p == old(self).state()[b.0 as int].incomplete@[0].param
                        &&& p != v
                        &&& final(self).body().removed(p)
                        &&& final(self).body().live(v)
                        &&& forall|y: Value| old(self).body().live(y) && y != p
                            ==> final(self).body().live(y)
                    },
                    None => {
                        &&& final(self).keeps_live(old(self))
                        &&& final(self).kept_is_not_trivial(b)
                        &&& final(self).resolved(b.0 as int) >= 1
                        &&& final(self).params(b.0 as int)[final(self).resolved(b.0 as int) - 1] == old(
                            self,
                        ).state()[b.0 as int].incomplete@[0].param
                    },
                }
            },
            r matches Err(e) ==> e matches SsaError::UndefinedLocal { local, .. } && local == x,
            old(self).all_found(b, x) ==> old(self).resolved_from_found(b, x, r, final(self)),
        decreases 2 * old(self).missing(x) + 2,
    {
        proof {
            assert(old(self).block_wf(b.0 as int));
        }
        let n = self.body.block(b).preds.len();
        let mut vals: Vec<Value> = Vec::new();
        let mut e: usize = 0;
        while e < n
            invariant
                0 <= e <= n,
                n == old(self).body().blocks()[b.0 as int].preds@.len(),
                vals@.len() == e,
                self.wf_lookup(x),
                self.valid_block(b),
                old(self).wf_lookup(x),
                old(self).state()[b.0 as int].sealed,
                old(self).state()[b.0 as int].incomplete@.len() > 0,
                self.same_graph(old(self)),
                self.same_pending(old(self)),
                self.keeps_live(old(self)),
                self.keeps_dead(old(self)),
                self.missing(x) <= old(self).missing(x),
                self.body().all_live(vals@),
                old(self).all_found(b, x) ==> *self == *old(self) && forall|k: int|
                    0 <= k < e ==> #[trigger] vals@[k] == old(self).found_values(b, x)[k],
            decreases n - e,
        {
            proof {
                assert(self.block_wf(b.0 as int));
                assert(self.body().block_wf(b.0 as int));
                assert(self.body().edge_wf(
                    self.body().blocks()[b.0 as int].preds@[e as int],
                    self.body().blocks()[b.0 as int].params@.len() as int,
                ));
            }
            let from = self.body.block(b).preds[e].from;
            let ghost prev = *self;
            let v = match self.use_local_inner(from, x) {
                Ok(v) => v,
                Err(err) => {
                    return Err(err);
                },
            };
            proof {
                self.lemma_same_graph_trans(&prev, old(self));
                assert forall|j: int|
                    0 <= j < old(self).state().len() && old(self).state()[j].sealed implies (
                #[trigger] self.state()[j]).incomplete@ == old(self).state()[j].incomplete@ by {
                    assert(prev.state()[j].incomplete@ == old(self).state()[j].incomplete@);
                    assert(prev.state()[j].sealed);
                }
                assert(self.missing(x) <= prev.missing(x)) by {
                    self.lemma_missing_le(&prev);
                }
                assert forall|i: int|
                    0 <= i < old(self).body().values().len()
                        && old(self).body().values()[i] is Removed implies (
                #[trigger] self.body().values()[i]) is Removed by {
                    assert(prev.body().values()[i] is Removed);
                }
                assert forall|k: int| 0 <= k < vals@.len()
                    implies self.body().live(#[trigger] vals@[k]) by {
                    assert(prev.body().live(vals@[k]));
                }
            }
            vals.push(v);
            e += 1;
        }
        proof {
            assert(self.block_wf(b.0 as int));
            assert(self.state()[b.0 as int].incomplete@ == old(self).state()[b.0 as int].incomplete@);
            if old(self).all_found(b, x) {
                assert(vals@ =~= old(self).found_values(b, x));
            }
        }
        let p = self.state[b.0].incomplete[0].param;
        let mut same = n > 0;
        let mut k: usize = 1;
        while same && k < n
            invariant
                1 <= k,
                n == vals@.len(),
                same ==> n > 0 && k <= n && forall|i: int| 0 <= i < k ==> #[trigger] vals@[i] == vals@[0],
                !same ==> n == 0 || exists|i: int| 0 <= i < n && #[trigger] vals@[i] != vals@[0],
            decreases n + 1 - k - (if same { 0int } else { 1int }),
        {
            if vals[k] != vals[0] {
                same = false;
            } else {
                k += 1;
            }
        }
        if !same && n > 0 {
            let ghost prev = *self;
            self.keep_param(b, &vals);
            proof {
                self.lemma_same_graph_trans(&prev, old(self));
                self.lemma_keeps_dead_trans(&prev, old(self));
                assert(prev.block_wf(b.0 as int));
                assert(self.kept_is_not_trivial(b)) by {
                    let data = self.body().blocks()[b.0 as int];
                    let i = choose|i: int| 0 <= i < n && #[trigger] vals@[i] != vals@[0];
                    assert(data.preds@[i].args@.last() == vals@[i]);
                    assert(data.preds@[0].args@.last() == vals@[0]);
                }
                assert forall|j: int|
                    0 <= j < self.state().len() && (#[trigger] self.state()[j]).sealed
                        && self.state()[j].incomplete@.len()
                        > 0 implies self.state()[j].defs@[x.0 as int] is Some by {
                    assert(prev.state()[j].sealed);
                    if j != b.0 {
                        assert(self.state()[j] == prev.state()[j]);
                    }
                }
            }
            return Ok(None);
        }
        if n == 0 || vals[0] == p {
            return Err(SsaError::UndefinedLocal { block: b, local: x });
        }
        let v = vals[0];
        let ghost prev = *self;
        let removed = self.remove_trivial(b, v);
        proof {
            self.lemma_same_graph_trans(&prev, old(self));
            self.lemma_keeps_dead_trans(&prev, old(self));
            assert forall|j: int|
                0 <= j < self.state().len() && (#[trigger] self.state()[j]).sealed
                    && self.state()[j].incomplete@.len()
                    > 0 implies self.state()[j].defs@[x.0 as int] is Some by {
                assert(prev.state()[j].sealed);
                assert(prev.block_wf(j));
                assert(self.state()[j].defs@[x.0 as int]
                    == substitute_def(prev.state()[j].defs@[x.0 as int], removed, v));
            }
        }
        Ok(Some((removed, v)))
    }

    /// True when the last parameter of block `b` that does not wait gets
    /// different values along different edges into `b`.
    pub open spec fn kept_is_not_trivial(&self, b: Block) -> bool {
        let data = self.body().blocks()[b.0 as int];
        exists|i: int| 0 <= i < data.preds@.len() && (#[trigger] data.preds@[i]).args@.last()
            != data.preds@[0].args@.last()
    }

    /// The definition of the local variable `x` that reaches block `b`,
    /// while other definitions are searched for.
    fn use_local_inner(&mut self, b: Block, x: Local) -> (r: Result<Value, SsaError>)
        requires
            old(self).wf_lookup(x),
            old(self).valid_block(b),
        ensures
            r matches Ok(v) ==> {
                &&& final(self).wf_lookup(x)
                &&& final(self).same_graph(old(self))
                &&& final(self).same_pending(old(self))
                &&& final(self).keeps_live(old(self))
                &&& final(self).keeps_dead(old(self))
                &&& final(self).body().live(v)
            },
            r matches Err(e) ==> e matches SsaError::UndefinedLocal { local, .. } && local == x,
            old(self).lookup_outcome(b, x, r, final(self)),
        decreases 2 * old(self).missing(x) + 1,
    {
        let end = self.find_search_end(b, x);
        proof {
            assert(self.block_wf(end.0 as int));
        }
        match self.state[end.0].defs[x.0] {
            Some(v) => {
                return Ok(v);
            },
            None => {},
        }
        if !self.state[end.0].sealed {
            let p = self.add_pending(end, x);
            proof {
                assert forall|j: int|
                    0 <= j < self.state().len() && (#[trigger] self.state()[j]).sealed
                        && self.state()[j].incomplete@.len()
                        > 0 implies self.state()[j].defs@[x.0 as int] is Some by {
                    assert(self.state()[j] == old(self).state()[j]);
                }
            }
            return Ok(p);
        }
        if self.body.block(end).preds.len() <= 1 {
            return Err(SsaError::UndefinedLocal { block: end, local: x });
        }
        let p = self.add_pending(end, x);
        let ghost prev = *self;
        proof {
            assert(old(self).state()[end.0 as int].incomplete@.len() == 0);
            assert forall|j: int|
                0 <= j < self.state().len() && (#[trigger] self.state()[j]).sealed
                    && self.state()[j].incomplete@.len()
                    > 0 implies self.state()[j].defs@[x.0 as int] is Some by {
                if j != end.0 {
                    assert(self.state()[j] == old(self).state()[j]);
                }
            }
        }
        match self.resolve_front(end, x) {
            Ok(o) => {
                proof {
                    self.lemma_same_graph_trans(&prev, old(self));
                    self.lemma_keeps_dead_trans(&prev, old(self));
                    assert forall|j: int|
                        0 <= j < old(self).state().len() && old(self).state()[j].sealed implies (
                    #[trigger] self.state()[j]).incomplete@ == old(self).state()[j].incomplete@ by {
                        if j == end.0 {
                            assert(prev.state()[j].incomplete@.drop_first()
                                =~= old(self).state()[j].incomplete@);
                        } else {
                            assert(prev.state()[j] == old(self).state()[j]);
                        }
                    }
                }
                proof {
                    assert(self.block_wf(end.0 as int));
                    assert(p.0 == old(self).body().values().len());
                }
                match o {
                    Some((_, v)) => Ok(v),
                    None => Ok(p),
                }
            },
            Err(err) => Err(err),
        }
    }

    /// What asking for the definition of `x` in block `b` comes to, as far
    /// as the search alone decides it.
    ///
    /// Where the block at which the search ends has a definition of `x`,
    /// that is the result, and nothing changes. Where it has none and is not
    /// sealed, the result is a new parameter of that block, which waits for
    /// the block to be sealed. Where it has none, is sealed and has at most
    /// one predecessor, no definition reaches `b`: the search has come to a
    /// block that nothing enters, or has gone in a circle. Where it has
    /// none, is sealed and has several predecessors, the block gets a new
    /// parameter: either that is the result, it is the last parameter of
    /// the block, and the predecessors pass different values for it, or the
    /// parameter has been taken out again and another value is the result.
    /// Where, with that parameter in place, the search finds a definition
    /// along every edge into the block, [`SsaBuilder::resolved_from_found`]
    /// says which of these it is, and when no definition reaches the block.
    pub open spec fn lookup_outcome(&self, b: Block, x: Local, r: Result<Value, SsaError>,
        after: &SsaBuilder) -> bool {
        let end = self.search_end(b, x);
        match self.state()[end.0 as int].defs@[x.0 as int] {
            Some(v) => r == Ok::<Value, SsaError>(v) && *after == *self,
            None => if !self.state()[end.0 as int].sealed {
                r matches Ok(p) && after.pending_added(self, end, x, p)
            } else if self.body().blocks()[end.0 as int].preds@.len() <= 1 {
                r == Err::<Value, SsaError>(SsaError::UndefinedLocal { block: end, local: x }) && *after
                    == *self
            } else {
                let p = Value(self.body().values().len() as usize);
                &&& r matches Ok(v) ==> if v == p {
                    &&& after.params(end.0 as int).len() > 0
                    &&& after.params(end.0 as int).last() == p
                    &&& after.kept_is_not_trivial(end)
                } else {
                    after.body().removed(p)
                }
                &&& exists|mid: SsaBuilder| #[trigger]
                    mid.pending_added(self, end, x, p) && (mid.all_found(end, x)
                        ==> mid.resolved_from_found(end, x, Self::resolution(p, r), after))
            },
        }
    }

    /// What resolving the parameter `p` came to, where `r` is the result of
    /// the search that made it: the parameter stays where it is the result,
    /// and is replaced by the result otherwise.
    pub open spec fn resolution(p: Value, r: Result<Value, SsaError>) -> Result<
        Option<(Value, Value)>,
        SsaError,
    > {
        match r {
            Ok(v) => if v == p {
                Ok(None)
            } else {
                Ok(Some((p, v)))
            },
            Err(e) => Err(e),
        }
    }
}

/// The value that stands for `y` after the replacements of `subst` have
/// been made one after another, each putting its second value in the place
/// of its first.
pub open spec fn renamed(subst: Seq<(Value, Value)>, y: Value) -> Value
    decreases subst.len(),
{
    if subst.len() == 0 {
        y
    } else {
        let z = renamed(subst.drop_last(), y);
        if z == subst.last().0 {
            subst.last().1
        } else {
            z
        }
    }
}

/// The values that stand for those of `s` after the replacements of `subst`.
pub open spec fn renamed_all(subst: Seq<(Value, Value)>, s: Seq<Value>) -> Seq<Value> {
    s.map_values(|y: Value| renamed(subst, y))
}

/// Making one more replacement in a sequence that has been through the
/// first `k` replacements of `subst` takes it through the first `k + 1`.
pub(crate) proof fn lemma_renamed_step(subst: Seq<(Value, Value)>, k: int, s: Seq<Value>)
    requires
        0 <= k < subst.len(),
    ensures
        crate::ir::substitute(renamed_all(subst.take(k), s), subst[k].0, subst[k].1) == renamed_all(
            subst.take(k + 1),
            s,
        ),
        renamed_all(subst.take(0), s) == s,
        renamed_all(subst.take(subst.len() as int), s) == renamed_all(subst, s),
{
    assert(subst.take(k + 1).drop_last() =~= subst.take(k));
    assert(subst.take(k + 1).last() == subst[k]);
    assert(crate::ir::substitute(renamed_all(subst.take(k), s), subst[k].0, subst[k].1) =~= renamed_all(
        subst.take(k + 1),
        s,
    ));
    assert(renamed_all(subst.take(0), s) =~= s);
    assert(subst.take(subst.len() as int) =~= subst);
}

/// The parameters that the resolutions `steps` took out, each with the
/// value in its place, in the order of the resolutions.
pub open spec fn taken_out(steps: Seq<Option<(Value, Value)>>) -> Seq<(Value, Value)>
    decreases steps.len(),
{
    if steps.len() == 0 {
        Seq::empty()
    } else {
        match steps.last() {
            Some(pair) => taken_out(steps.drop_last()).push(pair),
            None => taken_out(steps.drop_last()),
        }
    }
}

impl SsaBuilder {
    /// True when no block is a place where control flow merges or may come
    /// to merge: every block is sealed and has one predecessor at most.
    pub open spec fn no_merge_points(&self) -> bool {
        forall|b: int|
            0 <= b < self.state().len() ==> (#[trigger] self.state()[b]).sealed
                && self.body().blocks()[b].preds@.len()
                <= 1
    }

    /// The definition of the local variable `x` that reaches block `b`.
    ///
    /// The search goes from `b` to its predecessor as long as the block has
    /// no definition of `x`, is sealed and has one predecessor. What it
    /// finds at the block where it ends, [`SsaBuilder::lookup_outcome`] says.
    /// Where that block has no definition, is sealed and has several
    /// predecessors, it gets a parameter, and the definition of `x` is asked
    /// for in each predecessor: the parameter stays, with these values as
    /// its arguments, unless they are all one value, which then is the result.
    ///
    /// Where no block is a place where control flow merges, nothing changes.
    pub fn use_local(&mut self, b: Block, x: Local) -> (r: Result<Value, SsaError>)
        requires
            old(self).wf(),
            old(self).valid_block(b),
            old(self).valid_local(x),
        ensures
            r matches Ok(v) ==> {
                &&& final(self).wf()
                &&& final(self).same_graph(old(self))
                &&& final(self).keeps_live(old(self))
                &&& final(self).keeps_dead(old(self))
                &&& final(self).body().live(v)
            },
            r is Ok ==> final(self).extends(old(self)),
            old(self).lookup_outcome(b, x, r, final(self)),
            old(self).no_merge_points() ==> *final(self) == *old(self),
    {
        proof {
            self.lemma_chain_end_valid(b, x, self.state().len());
        }
        let r = self.use_local_inner(b, x);
        proof {
            if r is Ok {
                assert forall|j: int| 0 <= j < self.state().len()
                    && (#[trigger] self.state()[j]).sealed implies self.state()[j].incomplete@.len()
                    == 0 by {
                    assert(old(self).state()[j].sealed);
                }
            }
        }
        r
    }

    /// The search ends at a block.
    proof fn lemma_chain_end_valid(&self, b: Block, x: Local, fuel: nat)
        requires
            self.wf_inner(),
            self.valid_block(b),
        ensures
            self.valid_block(self.chain_end(b, x, fuel)),
        decreases fuel,
    {
        if fuel > 0 && self.continues(b, x) {
            assert(self.body().block_wf(b.0 as int));
            let data = self.body().blocks()[b.0 as int];
            assert(self.body().edge_wf(data.preds@[0], data.params@.len() as int));
            self.lemma_chain_end_valid(data.preds@[0].from, x, (fuel - 1) as nat);
        }
    }

    /// True when `self` has the blocks of `before` with their edges, block
    /// `b` sealed and the others sealed as they were, and a definition for a
    /// local variable wherever `before` has one.
    pub open spec fn sealed_from(&self, before: &SsaBuilder, b: Block) -> bool {
        &&& self.locals() == before.locals()
        &&& self.state().len() == before.state().len()
        &&& self.body().blocks().len() == before.body().blocks().len()
        &&& forall|j: int|
            0 <= j < before.state().len() ==> (#[trigger] self.state()[j]).sealed
                == (before.state()[j].sealed
                || j == b.0)
        &&& forall|j: int|
            0 <= j < before.state().len() ==> (#[trigger] self.body().blocks()[j]).preds@.len()
                == before.body().blocks()[j].preds@.len()
        &&& forall|j: int, e: int|
            0 <= j < before.state().len() && 0 <= e < before.body().blocks()[j].preds@.len() ==> (
            #[trigger] self.body().blocks()[j].preds@[e]).from == before.body().blocks()[j].preds@[e].from
        &&& forall|j: int, y: int|
            0 <= j < before.state().len() && 0 <= y < before.locals().len()
                && before.state()[j].defs@[y] is Some
                ==> (#[trigger] self.state()[j].defs@[y]) is Some
        &&& forall|j: int|
            0 <= j < before.state().len() && !before.state()[j].sealed && j != b.0
                ==> #[trigger] self.resolved(j)
                == before.resolved(j)
        &&& self.same_insts(before)
    }

    /// True when `self` is `before` with block `b` counted as sealed, and
    /// nothing else changed.
    pub open spec fn marked_sealed(&self, before: &SsaBuilder, b: Block) -> bool {
        &&& self.body() == before.body()
        &&& self.locals() == before.locals()
        &&& self.state().len() == before.state().len()
        &&& forall|j: int|
            0 <= j < before.state().len() ==> (#[trigger] self.state()[j]).defs == before.state()[j].defs
                && self.state()[j].incomplete == before.state()[j].incomplete && self.state()[j].sealed == (
            before.state()[j].sealed || j == b.0)
    }

    /// True when `states` holds the states that sealing block `b` goes
    /// through, one for each waiting parameter that it resolves and one
    /// more, and `steps` what each resolution comes to: the parameter that
    /// was taken out and the value in its place, or nothing where the
    /// parameter stays. Each state has a waiting parameter of `b`, and where
    /// the search finds a definition of its local variable along every edge
    /// into `b`, the next state comes of it as
    /// [`SsaBuilder::resolved_from_found`] says.
    pub open spec fn resolutions(b: Block, states: Seq<SsaBuilder>, steps: Seq<Option<(Value, Value)>>) -> bool {
        &&& states.len() == steps.len() + 1
        &&& forall|i: int|
            0 <= i < steps.len() ==> {
                let s = #[trigger] states[i];
                let x = s.state()[b.0 as int].incomplete@[0].local;
                &&& s.state()[b.0 as int].incomplete@.len() > 0
                &&& s.all_found(b, x) ==> s.resolved_from_found(b, x, Ok(steps[i]), &states[i + 1])
            }
    }

    /// What sealing block `b` of `self` comes to, with `after` as the
    /// builder that comes of it and `r` as the result.
    ///
    /// The block counts as sealed, and the parameters that wait are
    /// resolved one after another, as [`SsaBuilder::resolutions`] says. The
    /// result lists the parameters that were taken out, in that order. A
    /// resolution that finds no definition ends the sealing with that defect.
    pub open spec fn sealing(&self, b: Block, r: Result<Seq<(Value, Value)>, SsaError>, after: &SsaBuilder) -> bool {
        exists|states: Seq<SsaBuilder>, steps: Seq<Option<(Value, Value)>>| #[trigger]
            Self::resolutions(b, states, steps) && states[0].marked_sealed(self, b) && match r {
                Ok(out) => {
                    &&& states.last() == *after
                    &&& steps.len() == self.state()[b.0 as int].incomplete@.len()
                    &&& out == taken_out(steps)
                },
                Err(e) => {
                    let s = states.last();
                    let x = s.state()[b.0 as int].incomplete@[0].local;
                    &&& s.state()[b.0 as int].incomplete@.len() > 0
                    &&& e matches SsaError::UndefinedLocal { local, .. } && local == x
                    &&& s.all_found(b, x) ==> s.resolved_from_found(b, x, Err(e), after)
                },
            }
    }

    /// One more resolution, said as [`SsaBuilder::resolved_from_found`]
    /// says it, is one more step of a sealing.
    proof fn lemma_resolutions_step(
        b: Block,
        states: Seq<SsaBuilder>,
        steps: Seq<Option<(Value, Value)>>,
        next: SsaBuilder,
        step: Option<(Value, Value)>,
    )
        requires
            Self::resolutions(b, states, steps),
            states.last().state()[b.0 as int].incomplete@.len() > 0,
            states.last().all_found(b, states.last().state()[b.0 as int].incomplete@[0].local)
                ==> states.last().resolved_from_found(
                b,
                states.last().state()[b.0 as int].incomplete@[0].local,
                Ok(step),
                &next,
            ),
        ensures
            Self::resolutions(b, states.push(next), steps.push(step)),
            taken_out(steps.push(step)) == (match step {
                Some(pair) => taken_out(steps).push(pair),
                None => taken_out(steps),
            }),
    {
        let longer = states.push(next);
        let more = steps.push(step);
        assert(more.drop_last() =~= steps);
        assert forall|i: int| 0 <= i < more.len() implies {
            let s = #[trigger] longer[i];
            let x = s.state()[b.0 as int].incomplete@[0].local;
            &&& s.state()[b.0 as int].incomplete@.len() > 0
            &&& s.all_found(b, x) ==> s.resolved_from_found(b, x, Ok(more[i]), &longer[i + 1])
        } by {
            if i < steps.len() {
                assert(longer[i] == states[i]);
                assert(longer[i + 1] == states[i + 1]);
                assert(more[i] == steps[i]);
            }
        }
    }

    /// Declares that block `b` has all its predecessors, and resolves the
    /// parameters of `b` that waited for that, in the order in which they
    /// were made. For each, the definition of its local variable is asked
    /// for in the block that each edge into `b` leaves, in the order of the
    /// edges. Where all these values are one value, other than the
    /// parameter, the parameter is taken out and that value stands in its
    /// place everywhere. Where they differ, every edge passes its value as
    /// an argument, and the parameter stays. Where there is no edge, or
    /// every edge passes the parameter itself, no definition reaches the
    /// block, which is a defect.
    ///
    /// Afterwards every edge into `b` passes one argument for each
    /// parameter of `b`, in the order of the parameters. The result lists
    /// the parameters that were taken out, each with the value that stands
    /// in its place, in the order in which they were taken out. None of them
    /// is live any more, and what was live before is live after these
    /// replacements. The parameter that was resolved last has been taken
    /// out, or is the last parameter of `b` and gets different values along
    /// different edges. What each resolution comes to, and when the sealing
    /// ends with a defect, [`SsaBuilder::sealing`] says.
    pub fn seal_block(&mut self, b: Block) -> (r: Result<Vec<(Value, Value)>, SsaError>)
        requires
            old(self).wf(),
            old(self).valid_block(b),
        ensures
            r matches Ok(out) ==> {
                &&& final(self).wf()
                &&& final(self).sealed_from(old(self), b)
                &&& final(self).keeps_dead(old(self))
                &&& forall|e: int|
                    0 <= e < final(self).body().blocks()[b.0 as int].preds@.len() ==> (
                    #[trigger] final(self).body().blocks()[b.0 as int].preds@[e]).args@.len()
                        == final(self).params(b.0 as int).len()
                &&& forall|i: int| 0 <= i < out@.len()
                    ==> final(self).body().removed((#[trigger] out@[i]).0)
                &&& forall|y: Value| old(self).body().live(y)
                    ==> final(self).body().live(#[trigger] renamed(out@, y))
                &&& old(self).state()[b.0 as int].incomplete@.len() == 0 ==> out@.len() == 0
                    && final(self).body()
                    == old(self).body()
                &&& old(self).state()[b.0 as int].incomplete@.len() > 0 ==> {
                    let last = old(self).state()[b.0 as int].incomplete@.last().param;
                    ||| final(self).body().removed(last)
                    ||| (final(self).params(b.0 as int).len() > 0
                        && final(self).params(b.0 as int).last() == last
                        && final(self).kept_is_not_trivial(b))
                }
            },
            old(self).sealing(
                b,
                match r {
                    Ok(out) => Ok(out@),
                    Err(e) => Err(e),
                },
                final(self),
            ),
            old(self).state()[b.0 as int].incomplete@.len() == 0 ==> r is Ok
                && final(self).state()[b.0 as int].incomplete@.len()
                == 0 && final(self).state()[b.0 as int].defs == old(self).state()[b.0 as int].defs
                    && forall|j: int|
                0 <= j < old(self).state().len() && j != b.0 ==> #[trigger] final(self).state()[j]
                    == old(self).state()[j],
    {
        self.state[b.0].sealed = true;
        let ghost start = *self;
        proof {
            assert forall|j: int| 0 <= j < self.state().len() implies #[trigger] self.block_wf(j) by {
                assert(old(self).block_wf(j));
            }
            assert(self.same_graph(&start));
        }
        let mut out: Vec<(Value, Value)> = Vec::new();
        let ghost mut states: Seq<SsaBuilder> = seq![*self];
        let ghost mut steps: Seq<Option<(Value, Value)>> = Seq::empty();
        while self.state[b.0].incomplete.len() > 0
            invariant
                Self::resolutions(b, states, steps),
                states[0] == start,
                states.last() == *self,
                out@ == taken_out(steps),
                steps.len() == start.state()[b.0 as int].incomplete@.len()
                    - self.state()[b.0 as int].incomplete@.len(),
                start.marked_sealed(old(self), b),
                self.wf_inner(),
                self.valid_block(b),
                start.wf_inner(),
                self.state()[b.0 as int].sealed,
                self.same_graph(&start),
                self.keeps_dead(old(self)),
                start.locals() == old(self).locals(),
                start.state().len() == old(self).state().len(),
                start.body() == old(self).body(),
                forall|j: int|
                    0 <= j < old(self).state().len() ==> (#[trigger] start.state()[j]).sealed
                        == (old(self).state()[j].sealed
                        || j == b.0) && start.state()[j].defs == old(self).state()[j].defs,
                forall|j: int|
                    0 <= j < self.state().len() && j != b.0 && (#[trigger] self.state()[j]).sealed
                        ==> self.state()[j].incomplete@.len()
                        == 0,
                forall|i: int| 0 <= i < out@.len() ==> self.body().removed((#[trigger] out@[i]).0),
                forall|y: Value| old(self).body().live(y) ==> self.body().live(#[trigger] renamed(out@, y)),
                old(self).state()[b.0 as int].incomplete@.len() == 0 ==> out@.len() == 0 && *self == start,
                old(self).state()[b.0 as int].incomplete@.len() > 0
                    || self.state()[b.0 as int].incomplete@.len() == 0,
                self.state()[b.0 as int].incomplete@.len() <= start.state()[b.0 as int].incomplete@.len(),
                start.state()[b.0 as int].incomplete@ == old(self).state()[b.0 as int].incomplete@,
                self.state()[b.0 as int].incomplete@.len()
                    == start.state()[b.0 as int].incomplete@.len() ==> out@.len()
                    == 0 && self.state()[b.0 as int].incomplete@ == start.state()[b.0 as int].incomplete@,
                start.state()[b.0 as int].incomplete@.len() >= self.state()[b.0 as int].incomplete@.len(),
                self.state()[b.0 as int].incomplete@ == start.state()[b.0 as int].incomplete@.skip(
                    start.state()[b.0 as int].incomplete@.len() - self.state()[b.0 as int].incomplete@.len(),
                ),
                self.state()[b.0 as int].incomplete@.len() < start.state()[b.0 as int].incomplete@.len() ==> {
                    let done = start.state()[b.0 as int].incomplete@.len() - self.state()[b.0 as int].incomplete@.len();
                    let last = start.state()[b.0 as int].incomplete@[done - 1].param;
                    ||| self.body().removed(last)
                    ||| (self.resolved(b.0 as int) >= 1
                        && self.params(b.0 as int)[self.resolved(b.0 as int) - 1]
                        == last && self.kept_is_not_trivial(b))
                },
            decreases self.state()[b.0 as int].incomplete@.len(),
        {
            proof {
                assert(self.block_wf(b.0 as int));
            }
            let x = self.state[b.0].incomplete[0].local;
            let ghost prev = *self;
            let ghost sofar = out@;
            match self.resolve_front(b, x) {
                Ok(Some(pair)) => {
                    out.push(pair);
                    proof {
                        Self::lemma_resolutions_step(b, states, steps, *self, Some(pair));
                        states = states.push(*self);
                        steps = steps.push(Some(pair));
                        assert(out@.drop_last() =~= sofar);
                        assert forall|y: Value| old(self).body().live(y) implies self.body().live(
                            #[trigger] renamed(out@, y),
                        ) by {
                            assert(prev.body().live(renamed(sofar, y)));
                        }
                        assert forall|i: int| 0 <= i < out@.len() implies self.body().removed(
                            (#[trigger] out@[i]).0,
                        ) by {
                            if i < sofar.len() {
                                assert(out@[i] == sofar[i]);
                                assert(prev.body().removed(sofar[i].0));
                            }
                        }
                    }
                },
                Ok(None) => {
                    proof {
                        Self::lemma_resolutions_step(b, states, steps, *self, None);
                        states = states.push(*self);
                        steps = steps.push(None);
                        assert forall|y: Value| old(self).body().live(y) implies self.body().live(
                            #[trigger] renamed(out@, y),
                        ) by {
                            assert(prev.body().live(renamed(sofar, y)));
                        }
                        assert forall|i: int| 0 <= i < out@.len() implies self.body().removed(
                            (#[trigger] out@[i]).0,
                        ) by {
                            assert(prev.body().removed(out@[i].0));
                        }
                    }
                },
                Err(err) => {
                    return Err(err);
                },
            }
            proof {
                let all = start.state()[b.0 as int].incomplete@;
                let left = prev.state()[b.0 as int].incomplete@;
                assert(self.state()[b.0 as int].incomplete@ =~= all.skip(all.len() - left.len() + 1));
                assert(left[0] == all[all.len() - left.len()]);
                self.lemma_same_graph_trans(&prev, &start);
                assert forall|j: int|
                    0 <= j < self.state().len() && j != b.0
                        && (#[trigger] self.state()[j]).sealed implies self.state()[j].incomplete@.len()
                    == 0 by {
                    assert(prev.state()[j].sealed);
                    assert(self.state()[j].incomplete@ == prev.state()[j].incomplete@);
                }
                assert forall|i: int|
                    0 <= i < old(self).body().values().len()
                        && old(self).body().values()[i] is Removed implies (
                #[trigger] self.body().values()[i]) is Removed by {
                    assert(prev.body().values()[i] is Removed);
                }
            }
        }
        proof {
            assert(self.block_wf(b.0 as int));
            assert forall|j: int, y: int|
                0 <= j < old(self).state().len() && 0 <= y < old(self).locals().len()
                    && old(self).state()[j].defs@[y] is Some implies (
            #[trigger] self.state()[j].defs@[y]) is Some by {
                assert(start.state()[j].defs@[y] is Some);
            }
            assert forall|j: int| 0 <= j < old(self).state().len()
                implies (#[trigger] self.state()[j]).sealed
                == (old(self).state()[j].sealed || j == b.0) by {
                assert(start.state()[j].sealed == (old(self).state()[j].sealed || j == b.0));
            }
            assert(self.same_insts(&start));
            assert(self.same_insts(old(self)));
            assert(self.state()[b.0 as int].incomplete@.len() == 0);
        }
        Ok(out)
    }

    /// True when every block is sealed.
    pub open spec fn all_sealed(&self) -> bool {
        forall|b: int| 0 <= b < self.state().len() ==> (#[trigger] self.state()[b]).sealed
    }

    /// Once every block is sealed, every edge passes one argument for each
    /// parameter of the block that it enters.
    pub proof fn lemma_sealed_is_complete(&self)
        requires
            self.wf(),
            self.all_sealed(),
        ensures
            self.body().complete(),
    {
        assert forall|b: int, e: int|
            0 <= b < self.body().blocks().len() && 0 <= e < self.body().blocks()[b].preds@.len() implies (
        #[trigger] self.body().blocks()[b].preds@[e]).args@.len()
            == self.body().blocks()[b].params@.len() by {
            assert(self.block_wf(b));
            assert(self.state()[b].sealed);
        }
    }

    /// The body that has been built.
    pub fn finish(self) -> (body: Body)
        requires
            self.wf(),
        ensures
            body == self.body(),
            body.wf(),
    {
        self.body
    }
}

impl SsaBuilder {
    /// True when `self` has grown out of `before` by steps that leave alone
    /// what the code around the builder relies on: the builder is well
    /// formed, has the local variables and the blocks of `before`, perhaps
    /// with more blocks behind them, each old block is sealed as it was, an
    /// old block that is not sealed has as many parameters with arguments as
    /// it had, and what was live is live.
    pub open spec fn extends(&self, before: &SsaBuilder) -> bool {
        &&& self.wf()
        &&& self.locals() == before.locals()
        &&& before.state().len() <= self.state().len()
        &&& forall|j: int|
            0 <= j < before.state().len() ==> (#[trigger] self.state()[j]).sealed
                == before.state()[j].sealed
        &&& forall|j: int|
            0 <= j < before.state().len() && !before.state()[j].sealed ==> #[trigger] self.resolved(j)
                == before.resolved(j)
        &&& self.keeps_live(before)
    }

    /// Growing by two steps is growing.
    pub(crate) proof fn lemma_extends_trans(&self, mid: &SsaBuilder, before: &SsaBuilder)
        requires
            self.extends(mid),
            mid.extends(before),
        ensures
            self.extends(before),
    {
        assert forall|j: int| 0 <= j < before.state().len() implies (#[trigger] self.state()[j]).sealed
            == before.state()[j].sealed by {
            assert(mid.state()[j].sealed == before.state()[j].sealed);
        }
        assert forall|j: int| 0 <= j < before.state().len() && !before.state()[j].sealed
            implies #[trigger] self.resolved(
            j,
        ) == before.resolved(j) by {
            assert(mid.state()[j].sealed == before.state()[j].sealed);
            assert(mid.resolved(j) == before.resolved(j));
        }
    }

    /// Sealing a block that `before` does not have yet, in a builder that
    /// has grown out of `before`, leaves a builder that has grown out of it.
    pub(crate) proof fn lemma_extends_after_seal(&self, mid: &SsaBuilder, before: &SsaBuilder, b: Block)
        requires
            mid.extends(before),
            b.0 >= before.state().len(),
            self.wf(),
            self.sealed_from(mid, b),
            self.keeps_live(mid),
        ensures
            self.extends(before),
    {
        assert forall|j: int| 0 <= j < before.state().len() implies (#[trigger] self.state()[j]).sealed
            == before.state()[j].sealed by {
            assert(mid.state()[j].sealed == before.state()[j].sealed);
        }
        assert forall|j: int| 0 <= j < before.state().len() && !before.state()[j].sealed
            implies #[trigger] self.resolved(
            j,
        ) == before.resolved(j) by {
            assert(mid.state()[j].sealed == before.state()[j].sealed);
            assert(mid.resolved(j) == before.resolved(j));
        }
    }

    /// A builder that differs from a well-formed `before` in nothing but
    /// instructions, their targets into blocks that keep their parameters,
    /// and values behind the old ones, has grown out of it.
    pub(crate) proof fn lemma_extends_same_state(&self, before: &SsaBuilder)
        requires
            before.wf(),
            self.wf(),
            self.state() == before.state(),
            self.locals() == before.locals(),
            forall|j: int|
                0 <= j < before.state().len() ==> (#[trigger] self.body().blocks()[j]).params@
                    == before.body().blocks()[j].params@,
            self.keeps_live(before),
        ensures
            self.extends(before),
    {
        assert forall|j: int| 0 <= j < before.state().len() && !before.state()[j].sealed
            implies #[trigger] self.resolved(
            j,
        ) == before.resolved(j) by {
            assert(self.body().blocks()[j].params@ == before.body().blocks()[j].params@);
        }
    }

    /// Adds a block that is not sealed, with one parameter for each type of
    /// `types`, in that order. The branches to the block pass an argument
    /// for each of them.
    pub fn create_block_with_params(&mut self, types: &Vec<Type>) -> (r: (Block, Vec<Value>))
        requires
            old(self).wf(),
        ensures
            final(self).extends(old(self)),
            r.0.0 == old(self).state().len(),
            final(self).state().len() == old(self).state().len() + 1,
            final(self).body().insts() == old(self).body().insts(),
            forall|j: int|
                0 <= j < old(self).state().len() ==> #[trigger] final(self).body().blocks()[j]
                    == old(self).body().blocks()[j],
            forall|j: int|
                0 <= j < old(self).state().len() ==> #[trigger] final(self).state()[j]
                    == old(self).state()[j],
            !final(self).state()[r.0.0 as int].sealed,
            final(self).state()[r.0.0 as int].incomplete@.len() == 0,
            forall|x: int| 0 <= x < old(self).locals().len()
                ==> final(self).state()[r.0.0 as int].defs@[x] is None,
            final(self).params(r.0.0 as int) == r.1@,
            r.1@.len() == types@.len(),
            final(self).body().all_live(r.1@),
            final(self).body().blocks()[r.0.0 as int].preds@.len() == 0,
            final(self).body().blocks()[r.0.0 as int].insts@.len() == 0,
    {
        let b = self.create_block();
        let mut values: Vec<Value> = Vec::new();
        let mut i: usize = 0;
        while i < types.len()
            invariant
                0 <= i <= types.len(),
                self.wf(),
                self.valid_block(b),
                b.0 == old(self).state().len(),
                self.locals() == old(self).locals(),
                self.state().len() == old(self).state().len() + 1,
                self.body().insts() == old(self).body().insts(),
                forall|j: int|
                    0 <= j < old(self).state().len() ==> #[trigger] self.body().blocks()[j]
                        == old(self).body().blocks()[j],
                forall|j: int| 0 <= j < old(self).state().len() ==> #[trigger] self.state()[j]
                    == old(self).state()[j],
                !self.state()[b.0 as int].sealed,
                self.state()[b.0 as int].incomplete@.len() == 0,
                forall|x: int| 0 <= x < old(self).locals().len()
                    ==> self.state()[b.0 as int].defs@[x] is None,
                self.params(b.0 as int) == values@,
                values@.len() == i,
                self.body().all_live(values@),
                self.body().blocks()[b.0 as int].preds@.len() == 0,
                self.body().blocks()[b.0 as int].insts@.len() == 0,
                self.keeps_live(old(self)),
            decreases types.len() - i,
        {
            let ghost prev = *self;
            let v = self.append_block_param(b, types[i]);
            proof {
                assert forall|k: int| 0 <= k < values@.len()
                    implies self.body().live(#[trigger] values@[k]) by {
                    assert(prev.body().live(values@[k]));
                }
                assert(self.body().live(v));
            }
            values.push(v);
            i += 1;
        }
        proof {
            assert forall|j: int| 0 <= j < old(self).state().len()
                && !old(self).state()[j].sealed implies #[trigger] self.resolved(
                j,
            ) == old(self).resolved(j) by {
                assert(self.body().blocks()[j] == old(self).body().blocks()[j]);
                assert(self.state()[j] == old(self).state()[j]);
            }
            assert forall|j: int| 0 <= j < old(self).state().len()
                implies (#[trigger] self.state()[j]).sealed
                == old(self).state()[j].sealed by {
                assert(self.state()[j] == old(self).state()[j]);
            }
        }
        (b, values)
    }
}

/// `block_substituted` for a block that loses the parameter at place
/// `index` where `here` is true.
spec fn block_substituted_here(
    x: crate::ir::BlockData,
    y: crate::ir::BlockData,
    p: Value,
    v: Value,
    here: bool,
    index: int,
) -> bool {
    crate::ir::block_substituted(
        x,
        y,
        p,
        v,
        if here {
            Some(index)
        } else {
            None
        },
    )
}

} // verus!
