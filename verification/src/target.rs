use vstd::prelude::*;

verus! {

/// A target-side SSA value. Instruction results are identified by their
/// position (block index, instruction index), phis by (block index, phi
/// index); both stay stable because blocks, phis and instructions are
/// only ever appended.
#[derive(Clone, Copy, PartialEq, Eq, Structural, Debug)]
pub enum TargetValue {
    Arg(usize),
    Phi { block: usize, index: usize },
    Inst { block: usize, index: usize },
    Const(u64),
}

#[derive(Clone, Copy, PartialEq, Eq, Structural, Debug)]
pub enum IntPredicate {
    Eq,
}

#[derive(Clone, Copy, PartialEq, Eq, Structural, Debug)]
pub enum BinOp {
    Add,
    Sub,
}

/// One target instruction. The value an instruction produces is named by
/// its position, so no instruction declares a result explicitly.
#[derive(Clone, Copy, PartialEq, Eq, Structural, Debug)]
pub enum TargetInst {
    Binary { op: BinOp, lhs: TargetValue, rhs: TargetValue },
    IntCompare { predicate: IntPredicate, lhs: TargetValue, rhs: TargetValue },
    CondBr { cond: TargetValue, then_block: usize, else_block: usize },
    Br { dest: usize },
    Ret,
}

/// One incoming pair of a phi: the value that flows in when control
/// arrives from predecessor block `pred`.
#[derive(Clone, Copy, PartialEq, Eq, Structural, Debug)]
pub struct Incoming {
    pub value: TargetValue,
    pub pred: usize,
}

/// A phi placeholder at the head of a block, selecting one of its
/// incoming pairs by predecessor.
#[derive(Clone, Debug, PartialEq, Eq)]
pub struct PhiNode {
    pub incoming: Vec<Incoming>,
}

/// A target block: phi placeholders at its head, then instructions.
#[derive(Clone, Debug, PartialEq, Eq)]
pub struct TargetBlock {
    pub phis: Vec<PhiNode>,
    pub insts: Vec<TargetInst>,
}

/// A target function under construction or finished. `entry` is set when
/// the synthetic entry block has been created and bound.
#[derive(Clone, Debug, PartialEq, Eq)]
pub struct TargetFunction {
    pub name: Vec<u8>,
    pub n_params: usize,
    pub entry: Option<usize>,
    pub blocks: Vec<TargetBlock>,
}

/// The translated module: one target function per source function, in order.
#[derive(Clone, Debug, PartialEq, Eq)]
pub struct TargetModule {
    pub functions: Vec<TargetFunction>,
}

#[verifier::ext_equal]
pub ghost struct TargetBlockView {
    pub phis: Seq<Seq<Incoming>>,
    pub insts: Seq<TargetInst>,
}

#[verifier::ext_equal]
pub ghost struct TargetFunctionView {
    pub name: Seq<u8>,
    pub n_params: usize,
    pub entry: Option<usize>,
    pub blocks: Seq<TargetBlockView>,
}

#[verifier::ext_equal]
pub ghost struct TargetModuleView {
    pub functions: Seq<TargetFunctionView>,
}

impl View for PhiNode {
    type V = Seq<Incoming>;

    open spec fn view(&self) -> Seq<Incoming> {
        self.incoming@
    }
}

impl View for TargetBlock {
    type V = TargetBlockView;

    open spec fn view(&self) -> TargetBlockView {
        TargetBlockView {
            phis: self.phis@.map_values(|p: PhiNode| p@),
            insts: self.insts@,
        }
    }
}

impl View for TargetFunction {
    type V = TargetFunctionView;

    open spec fn view(&self) -> TargetFunctionView {
        TargetFunctionView {
            name: self.name@,
            n_params: self.n_params,
            entry: self.entry,
            blocks: self.blocks@.map_values(|b: TargetBlock| b@),
        }
    }
}

impl View for TargetModule {
    type V = TargetModuleView;

    open spec fn view(&self) -> TargetModuleView {
        TargetModuleView { functions: self.functions@.map_values(|f: TargetFunction| f@) }
    }
}

pub open spec fn empty_block_v() -> TargetBlockView {
    TargetBlockView { phis: Seq::empty(), insts: Seq::empty() }
}

/// Appending one fresh, empty block.
pub open spec fn append_block_s(f: TargetFunctionView) -> TargetFunctionView {
    TargetFunctionView { blocks: f.blocks.push(empty_block_v()), ..f }
}

/// Appending one fresh phi placeholder (no incoming pairs yet) to block `bb`.
pub open spec fn build_phi_s(f: TargetFunctionView, bb: usize) -> TargetFunctionView
    recommends
        bb < f.blocks.len(),
{
    TargetFunctionView {
        blocks: f.blocks.update(
            bb as int,
            TargetBlockView { phis: f.blocks[bb as int].phis.push(Seq::empty()), ..f.blocks[bb as int] },
        ),
        ..f
    }
}

/// Recording one incoming pair on phi `phi` of block `bb`.
pub open spec fn add_incoming_s(
    f: TargetFunctionView,
    bb: usize,
    phi: usize,
    inc: Incoming,
) -> TargetFunctionView
    recommends
        bb < f.blocks.len(),
        phi < f.blocks[bb as int].phis.len(),
{
    TargetFunctionView {
        blocks: f.blocks.update(
            bb as int,
            TargetBlockView {
                phis: f.blocks[bb as int].phis.update(
                    phi as int,
                    f.blocks[bb as int].phis[phi as int].push(inc),
                ),
                ..f.blocks[bb as int]
            },
        ),
        ..f
    }
}

/// Appending one instruction at the end of block `bb`.
pub open spec fn push_inst_s(
    f: TargetFunctionView,
    bb: usize,
    inst: TargetInst,
) -> TargetFunctionView
    recommends
        bb < f.blocks.len(),
{
    TargetFunctionView {
        blocks: f.blocks.update(
            bb as int,
            TargetBlockView { insts: f.blocks[bb as int].insts.push(inst), ..f.blocks[bb as int] },
        ),
        ..f
    }
}

impl TargetFunction {
    /// Appends a fresh empty block and returns its handle (its index).
    pub fn append_basic_block(&mut self) -> (r: usize)
        ensures
            final(self)@ == append_block_s(old(self)@),
            r == old(self)@.blocks.len(),
    {
        let r = self.blocks.len();
        self.blocks.push(TargetBlock { phis: Vec::new(), insts: Vec::new() });
        assert(self@.blocks =~~= append_block_s(old(self)@).blocks);
        r
    }

    /// Creates a fresh phi placeholder at the head of block `bb` and
    /// returns its index within that block.
    pub fn build_phi(&mut self, bb: usize) -> (r: usize)
        requires
            bb < old(self)@.blocks.len(),
        ensures
            final(self)@ == build_phi_s(old(self)@, bb),
            r == old(self)@.blocks[bb as int].phis.len(),
    {
        let r = self.blocks[bb].phis.len();
        self.blocks[bb].phis.push(PhiNode { incoming: Vec::new() });
        assert(self@.blocks =~~= build_phi_s(old(self)@, bb).blocks);
        r
    }

    /// Records one incoming pair on phi `phi` of block `bb`.
    pub fn add_incoming(&mut self, bb: usize, phi: usize, inc: Incoming)
        requires
            bb < old(self)@.blocks.len(),
            phi < old(self)@.blocks[bb as int].phis.len(),
        ensures
            final(self)@ == add_incoming_s(old(self)@, bb, phi, inc),
    {
        self.blocks[bb].phis[phi].incoming.push(inc);
        assert(self@.blocks =~~= add_incoming_s(old(self)@, bb, phi, inc).blocks);
    }

    /// Appends one instruction at the end of block `bb` and returns its
    /// index within that block.
    pub fn push_inst(&mut self, bb: usize, inst: TargetInst) -> (r: usize)
        requires
            bb < old(self)@.blocks.len(),
        ensures
            final(self)@ == push_inst_s(old(self)@, bb, inst),
            r == old(self)@.blocks[bb as int].insts.len(),
    {
        let r = self.blocks[bb].insts.len();
        self.blocks[bb].insts.push(inst);
        assert(self@.blocks =~~= push_inst_s(old(self)@, bb, inst).blocks);
        r
    }
}

} // verus!
