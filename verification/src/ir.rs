use vstd::prelude::*;

verus! {

/// Type descriptor carried by source parameters and block parameters.
/// The translator maps every value onto the target's 64-bit integer type.
#[derive(Clone, Copy, PartialEq, Eq, Structural, Debug)]
pub enum Ty {
    I64,
}

/// Opcodes of the source instruction set. The translator supports only a
/// subset; every other opcode must be reported as `UnsupportedOpcode`,
/// never skipped.
#[derive(Clone, Copy, PartialEq, Eq, Structural, Debug)]
pub enum Opcode {
    Iadd,
    Isub,
    Imul,
    Iconst,
    Jump,
    Fallthrough,
    Brz,
    Brnz,
    Return,
    Call,
    Trap,
}

/// A typed formal parameter of a block; `value` is the SSA value id it defines.
#[derive(Clone, Copy, PartialEq, Eq, Structural, Debug)]
pub struct BlockParam {
    pub value: usize,
    pub ty: Ty,
}

/// The payload of one instruction, tagged by shape.
///
/// For `Branch`, `args[0]` is the condition value and the remaining
/// arguments are passed to the destination block's parameters.
#[derive(Clone, Debug)]
pub enum InstData {
    Binary { opcode: Opcode, arg0: usize, arg1: usize },
    UnaryImm { opcode: Opcode, imm: i64 },
    Jump { opcode: Opcode, destination: usize, args: Vec<usize> },
    Branch { opcode: Opcode, destination: usize, args: Vec<usize> },
    MultiAry { opcode: Opcode, args: Vec<usize> },
}

/// One instruction: its payload and the SSA values it defines.
#[derive(Clone, Debug)]
pub struct Inst {
    pub data: InstData,
    pub results: Vec<usize>,
}

/// An extended basic block: typed parameters, then instructions in
/// program order, the last of which is expected to transfer control.
#[derive(Clone, Debug)]
pub struct Block {
    pub params: Vec<BlockParam>,
    pub insts: Vec<Inst>,
}

/// A source function. Blocks are identified by their index in `blocks`,
/// and `entry` is the index of the entry block. SSA value ids are dense
/// indices below `n_values`.
#[derive(Clone, Debug)]
pub struct Function {
    pub name: Vec<u8>,
    pub params: Vec<Ty>,
    pub entry: usize,
    pub blocks: Vec<Block>,
    pub n_values: usize,
}

/// A source module: functions in declaration order.
#[derive(Clone, Debug)]
pub struct CtonModule {
    pub functions: Vec<Function>,
}

pub ghost enum InstDataView {
    Binary { opcode: Opcode, arg0: usize, arg1: usize },
    UnaryImm { opcode: Opcode, imm: i64 },
    Jump { opcode: Opcode, destination: usize, args: Seq<usize> },
    Branch { opcode: Opcode, destination: usize, args: Seq<usize> },
    MultiAry { opcode: Opcode, args: Seq<usize> },
}

pub ghost struct InstView {
    pub data: InstDataView,
    pub results: Seq<usize>,
}

pub ghost struct BlockView {
    pub params: Seq<BlockParam>,
    pub insts: Seq<InstView>,
}

pub ghost struct FunctionView {
    pub name: Seq<u8>,
    pub params: Seq<Ty>,
    pub entry: usize,
    pub blocks: Seq<BlockView>,
    pub n_values: usize,
}

pub ghost struct CtonModuleView {
    pub functions: Seq<FunctionView>,
}

impl View for InstData {
    type V = InstDataView;

    open spec fn view(&self) -> InstDataView {
        match self {
            InstData::Binary { opcode, arg0, arg1 } => InstDataView::Binary {
                opcode: *opcode,
                arg0: *arg0,
                arg1: *arg1,
            },
            InstData::UnaryImm { opcode, imm } => InstDataView::UnaryImm {
                opcode: *opcode,
                imm: *imm,
            },
            InstData::Jump { opcode, destination, args } => InstDataView::Jump {
                opcode: *opcode,
                destination: *destination,
                args: args@,
            },
            InstData::Branch { opcode, destination, args } => InstDataView::Branch {
                opcode: *opcode,
                destination: *destination,
                args: args@,
            },
            InstData::MultiAry { opcode, args } => InstDataView::MultiAry {
                opcode: *opcode,
                args: args@,
            },
        }
    }
}

impl View for Inst {
    type V = InstView;

    open spec fn view(&self) -> InstView {
        InstView { data: self.data@, results: self.results@ }
    }
}

impl View for Block {
    type V = BlockView;

    open spec fn view(&self) -> BlockView {
        BlockView {
            params: self.params@,
            insts: self.insts@.map_values(|i: Inst| i@),
        }
    }
}

impl View for Function {
    type V = FunctionView;

    open spec fn view(&self) -> FunctionView {
        FunctionView {
            name: self.name@,
            params: self.params@,
            entry: self.entry,
            blocks: self.blocks@.map_values(|b: Block| b@),
            n_values: self.n_values,
        }
    }
}

impl View for CtonModule {
    type V = CtonModuleView;

    open spec fn view(&self) -> CtonModuleView {
        CtonModuleView { functions: self.functions@.map_values(|f: Function| f@) }
    }
}

/// Structural consistency of one instruction, as the front end guarantees
/// it: declared results are real value ids, destinations are real blocks,
/// a binary or constant instruction declares exactly one result, and a
/// conditional branch carries at least its condition argument.
pub open spec fn wf_inst(f: FunctionView, i: InstView) -> bool {
    match i.data {
        InstDataView::Binary { .. } => i.results.len() == 1 && i.results[0] < f.n_values,
        InstDataView::UnaryImm { .. } => i.results.len() == 1 && i.results[0] < f.n_values,
        InstDataView::Jump { destination, .. } => destination < f.blocks.len(),
        InstDataView::Branch { destination, args, .. } => destination < f.blocks.len()
            && args.len() >= 1,
        InstDataView::MultiAry { .. } => true,
    }
}

pub open spec fn wf_block(f: FunctionView, b: BlockView) -> bool {
    &&& forall|j: int| 0 <= j < b.params.len() ==> (#[trigger] b.params[j]).value < f.n_values
    &&& forall|j: int| 0 <= j < b.insts.len() ==> wf_inst(f, #[trigger] b.insts[j])
}

/// The shape invariants the front end establishes before handing a
/// function to the translator: the entry block exists, every block
/// parameter defines a real value id, and every instruction is
/// structurally consistent.
pub open spec fn wf_function(f: FunctionView) -> bool {
    &&& f.entry < f.blocks.len()
    &&& forall|b: int| 0 <= b < f.blocks.len() ==> wf_block(f, #[trigger] f.blocks[b])
}

pub open spec fn wf_module(m: CtonModuleView) -> bool {
    forall|i: int| 0 <= i < m.functions.len() ==> wf_function(#[trigger] m.functions[i])
}

} // verus!
