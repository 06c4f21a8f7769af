use vstd::prelude::*;

use crate::ir::{BlockParam, CtonModule, Function, FunctionView, Inst, InstData, InstDataView, InstView, Opcode};
use crate::ir::{wf_block, wf_function, wf_inst, wf_module};
use crate::target::{BinOp, Incoming, IntPredicate, TargetFunction, TargetFunctionView, TargetInst,
    TargetModule, TargetValue};
use crate::target::{add_incoming_s, append_block_s, build_phi_s, empty_block_v, push_inst_s};

verus! {

/// Why the translation of a function was aborted. Every failure aborts
/// the enclosing function's translation; no instruction is ever skipped
/// silently.
#[derive(Clone, Copy, PartialEq, Eq, Structural, Debug)]
pub enum TranslationError {
    /// An instruction variant the translator does not implement.
    UnsupportedOpcode(Opcode),
    /// A value was referenced before being bound in the environment, or a
    /// block parameter's environment entry was not the phi placeholder the
    /// parameter binder created for it; either way a front-end SSA
    /// invariant was violated.
    UndefinedValue(usize),
    /// A branch or jump argument count does not match the destination
    /// block's parameter count, or the function's formal parameter count
    /// does not match its entry block's parameter count.
    ArityMismatch { block: usize, expected: usize, got: usize },
    /// The function's declared name cannot be decoded into the target's
    /// naming convention.
    MalformedExternalName,
}

/// A translated value in the environment: either a concrete target value
/// or the phi cell created for a block parameter.
#[derive(Clone, Copy, PartialEq, Eq, Structural, Debug)]
pub enum TV {
    Int(TargetValue),
    Phi { block: usize, index: usize },
}

impl TV {
    pub fn phi(block: usize, index: usize) -> (r: TV)
        ensures
            r == (TV::Phi { block, index }),
    {
        TV::Phi { block, index }
    }

    pub fn int_val(v: TargetValue) -> (r: TV)
        ensures
            r == TV::Int(v),
    {
        TV::Int(v)
    }

    /// The value this entry stands for when used as an operand; a phi
    /// cell is itself a value of its block.
    pub fn into_int_value(&self) -> (r: TargetValue)
        ensures
            r == tv_value_s(*self),
    {
        match self {
            TV::Int(x) => *x,
            TV::Phi { block, index } => TargetValue::Phi { block: *block, index: *index },
        }
    }

    /// The phi cell this entry stands for, if it is one.
    pub fn into_phi_value(&self) -> (r: Option<(usize, usize)>)
        ensures
            r == tv_phi_s(*self),
    {
        match self {
            TV::Phi { block, index } => Some((*block, *index)),
            TV::Int(_) => None,
        }
    }
}

pub open spec fn tv_value_s(tv: TV) -> TargetValue {
    match tv {
        TV::Int(x) => x,
        TV::Phi { block, index } => TargetValue::Phi { block, index },
    }
}

pub open spec fn tv_phi_s(tv: TV) -> Option<(usize, usize)> {
    match tv {
        TV::Phi { block, index } => Some((block, index)),
        TV::Int(_) => None,
    }
}

/// The working state of one function's translation: the target function
/// under construction, the value environment, the memo of the block
/// materializer, and the insertion block.
pub struct FunctionContext {
    pub tfunc: TargetFunction,
    pub values: Vec<Option<TV>>,
    pub ebb_to_entry: Vec<Option<usize>>,
    pub current: usize,
}

#[verifier::ext_equal]
pub ghost struct CtxView {
    pub tfunc: TargetFunctionView,
    pub values: Seq<Option<TV>>,
    pub memo: Seq<Option<usize>>,
    pub current: usize,
}

impl View for FunctionContext {
    type V = CtxView;

    open spec fn view(&self) -> CtxView {
        CtxView {
            tfunc: self.tfunc@,
            values: self.values@,
            memo: self.ebb_to_entry@,
            current: self.current,
        }
    }
}

/// Every memoized handle names an existing target block.
pub open spec fn memo_ok(c: CtxView) -> bool {
    forall|e: int|
        0 <= e < c.memo.len() ==> ((#[trigger] c.memo[e]) matches Some(b) ==> b
            < c.tfunc.blocks.len())
}

pub open spec fn phi_ref_ok(tf: TargetFunctionView, tv: TV) -> bool {
    tv matches TV::Phi { block, index } ==> block < tf.blocks.len() && index < tf.blocks[
        block as int
    ].phis.len()
}

/// Every phi cell recorded in the environment names an existing phi.
pub open spec fn env_ok(c: CtxView) -> bool {
    forall|v: int|
        0 <= v < c.values.len() ==> ((#[trigger] c.values[v]) matches Some(tv) ==> phi_ref_ok(
            c.tfunc,
            tv,
        ))
}

pub open spec fn ctx_ok(c: CtxView) -> bool {
    memo_ok(c) && env_ok(c)
}

/// The environment covers the function's value ids and the memo covers
/// its blocks.
pub open spec fn ctx_lens(c: CtxView, f: FunctionView) -> bool {
    c.values.len() == f.n_values && c.memo.len() == f.blocks.len()
}

/// A name is decodable into the target's naming convention when it is
/// pure ASCII.
pub open spec fn valid_name(name: Seq<u8>) -> bool {
    forall|i: int| 0 <= i < name.len() ==> name[i] < 128
}

/// The two's-complement bit pattern of a source immediate, reinterpreted
/// as the target's unsigned 64-bit constant.
pub open spec fn imm_bits(imm: i64) -> u64 {
    if imm >= 0 {
        imm as u64
    } else {
        (imm + 0x1_0000_0000_0000_0000) as u64
    }
}

/// Resolving a value id to an operand.
pub open spec fn lookup_int_s(c: CtxView, v: usize) -> Result<TargetValue, TranslationError> {
    if v < c.values.len() {
        match c.values[v as int] {
            Some(tv) => Ok(tv_value_s(tv)),
            None => Err(TranslationError::UndefinedValue(v)),
        }
    } else {
        Err(TranslationError::UndefinedValue(v))
    }
}

/// Resolving a block parameter's value id to its phi cell.
pub open spec fn lookup_phi_s(c: CtxView, v: usize) -> Result<(usize, usize), TranslationError> {
    if v < c.values.len() {
        match c.values[v as int] {
            Some(tv) => match tv_phi_s(tv) {
                Some(p) => Ok(p),
                None => Err(TranslationError::UndefinedValue(v)),
            },
            None => Err(TranslationError::UndefinedValue(v)),
        }
    } else {
        Err(TranslationError::UndefinedValue(v))
    }
}

/// Binding a value id in the environment.
pub open spec fn bind_s(c: CtxView, v: usize, tv: TV) -> CtxView
    recommends
        v < c.values.len(),
{
    CtxView { values: c.values.update(v as int, Some(tv)), ..c }
}

/// Emitting one instruction at the insertion block.
pub open spec fn emit_s(c: CtxView, inst: TargetInst) -> CtxView
    recommends
        c.current < c.tfunc.blocks.len(),
{
    CtxView { tfunc: push_inst_s(c.tfunc, c.current, inst), ..c }
}

/// Lazy materialization of the target block for source block `ebb`: a
/// memo hit returns the recorded handle unchanged, a miss appends one
/// fresh block and records its handle.
pub open spec fn materialize_s(c: CtxView, ebb: usize) -> (CtxView, usize)
    recommends
        ebb < c.memo.len(),
{
    match c.memo[ebb as int] {
        Some(b) => (c, b),
        None => {
            let nb = c.tfunc.blocks.len() as usize;
            (
                CtxView {
                    tfunc: append_block_s(c.tfunc),
                    memo: c.memo.update(ebb as int, Some(nb)),
                    ..c
                },
                nb,
            )
        },
    }
}

/// First pass, one block's parameters: one phi placeholder per parameter,
/// each recorded in the environment.
pub open spec fn bind_params_s(c: CtxView, bb: usize, params: Seq<BlockParam>) -> CtxView
    decreases params.len(),
{
    if params.len() == 0 {
        c
    } else {
        let pi = c.tfunc.blocks[bb as int].phis.len() as usize;
        let c1 = CtxView { tfunc: build_phi_s(c.tfunc, bb), ..c };
        let c2 = bind_s(c1, params[0].value, TV::Phi { block: bb, index: pi });
        bind_params_s(c2, bb, params.drop_first())
    }
}

pub open spec fn bind_block_params_s(c: CtxView, f: FunctionView, ebb: usize) -> CtxView
    recommends
        ebb < f.blocks.len(),
{
    let m = materialize_s(c, ebb);
    bind_params_s(m.0, m.1, f.blocks[ebb as int].params)
}

/// First pass over all blocks, from block `i` on.
pub open spec fn bind_all_params_s(c: CtxView, f: FunctionView, i: int) -> CtxView
    decreases f.blocks.len() - i,
{
    if i < 0 || i >= f.blocks.len() {
        c
    } else {
        bind_all_params_s(bind_block_params_s(c, f, i as usize), f, i + 1)
    }
}

/// Edge stitching: attach, for each destination parameter / argument pair
/// in positional order, one incoming pair on the parameter's phi for the
/// predecessor edge `pred`.
pub open spec fn stitch_s(c: CtxView, pred: usize, dparams: Seq<BlockParam>, args: Seq<usize>)
    -> Result<CtxView, TranslationError>
    recommends
        dparams.len() == args.len(),
    decreases args.len(),
{
    if args.len() == 0 {
        Ok(c)
    } else {
        match lookup_phi_s(c, dparams[0].value) {
            Err(e) => Err(e),
            Ok(p) => match lookup_int_s(c, args[0]) {
                Err(e) => Err(e),
                Ok(v) => {
                    let c1 = CtxView {
                        tfunc: add_incoming_s(c.tfunc, p.0, p.1, Incoming { value: v, pred }),
                        ..c
                    };
                    stitch_s(c1, pred, dparams.drop_first(), args.drop_first())
                },
            },
        }
    }
}

/// Translating a jump-shaped instruction: resolve the destination block,
/// check arity, emit the transfer, stitch the edge.
pub open spec fn tr_jump_s(c: CtxView, f: FunctionView, opcode: Opcode, destination: usize, args: Seq<usize>)
    -> Result<CtxView, TranslationError>
    recommends
        destination < f.blocks.len(),
{
    if opcode != Opcode::Jump {
        Err(TranslationError::UnsupportedOpcode(opcode))
    } else {
    let m = materialize_s(c, destination);
    let dparams = f.blocks[destination as int].params;
    if args.len() != dparams.len() {
        Err(
            TranslationError::ArityMismatch {
                block: destination,
                expected: dparams.len() as usize,
                got: args.len() as usize,
            },
        )
    } else {
        let c2 = emit_s(m.0, TargetInst::Br { dest: m.1 });
        stitch_s(c2, c2.current, dparams, args)
    }
    }
}

/// Translating a branch-if-zero: resolve the destination, create the
/// fall-through continuation, check arity, compare the condition against
/// zero, emit the conditional transfer, stitch the taken edge, and move
/// the insertion point to the continuation.
pub open spec fn tr_branch_s(c: CtxView, f: FunctionView, opcode: Opcode, destination: usize, args: Seq<usize>)
    -> Result<CtxView, TranslationError>
    recommends
        destination < f.blocks.len(),
        args.len() >= 1,
{
    if opcode != Opcode::Brz {
        Err(TranslationError::UnsupportedOpcode(opcode))
    } else {
    let m = materialize_s(c, destination);
    let new_bb = m.0.tfunc.blocks.len() as usize;
    let c2 = CtxView { tfunc: append_block_s(m.0.tfunc), ..m.0 };
    let dparams = f.blocks[destination as int].params;
    if args.len() - 1 != dparams.len() {
        Err(
            TranslationError::ArityMismatch {
                block: destination,
                expected: dparams.len() as usize,
                got: (args.len() - 1) as usize,
            },
        )
    } else {
        match lookup_int_s(c2, args[0]) {
            Err(e) => Err(e),
            Ok(lhs) => {
                let curr = c2.current;
                let cmp_idx = c2.tfunc.blocks[curr as int].insts.len() as usize;
                let c3 = emit_s(
                    c2,
                    TargetInst::IntCompare {
                        predicate: IntPredicate::Eq,
                        lhs,
                        rhs: TargetValue::Const(0),
                    },
                );
                let c4 = emit_s(
                    c3,
                    TargetInst::CondBr {
                        cond: TargetValue::Inst { block: curr, index: cmp_idx },
                        then_block: m.1,
                        else_block: new_bb,
                    },
                );
                match stitch_s(c4, curr, dparams, args.drop_first()) {
                    Err(e) => Err(e),
                    Ok(c5) => Ok(CtxView { current: new_bb, ..c5 }),
                }
            },
        }
    }
    }
}

/// Translating a binary arithmetic instruction: resolve both operands,
/// emit the target operation, bind the declared result to its value.
pub open spec fn tr_binary_s(c: CtxView, opcode: Opcode, arg0: usize, arg1: usize, result: usize)
    -> Result<CtxView, TranslationError>
    recommends
        c.current < c.tfunc.blocks.len(),
        result < c.values.len(),
{
    if opcode == Opcode::Iadd || opcode == Opcode::Isub {
        match lookup_int_s(c, arg0) {
            Err(e) => Err(e),
            Ok(lhs) => match lookup_int_s(c, arg1) {
                Err(e) => Err(e),
                Ok(rhs) => {
                    let op = if opcode == Opcode::Iadd {
                        BinOp::Add
                    } else {
                        BinOp::Sub
                    };
                    let idx = c.tfunc.blocks[c.current as int].insts.len() as usize;
                    let c1 = emit_s(c, TargetInst::Binary { op, lhs, rhs });
                    Ok(
                        bind_s(
                            c1,
                            result,
                            TV::Int(TargetValue::Inst { block: c.current, index: idx }),
                        ),
                    )
                },
            },
        }
    } else {
        Err(TranslationError::UnsupportedOpcode(opcode))
    }
}

/// Translating a constant materialization: no instruction is emitted, the
/// declared result is bound to the immediate's 64-bit bit pattern.
pub open spec fn tr_unary_imm_s(c: CtxView, opcode: Opcode, imm: i64, result: usize) -> Result<
    CtxView,
    TranslationError,
>
    recommends
        result < c.values.len(),
{
    if opcode == Opcode::Iconst {
        Ok(bind_s(c, result, TV::Int(TargetValue::Const(imm_bits(imm)))))
    } else {
        Err(TranslationError::UnsupportedOpcode(opcode))
    }
}

/// Translating a variable-arity instruction; only return is implemented,
/// and the design does not model return values.
pub open spec fn tr_multiary_s(c: CtxView, opcode: Opcode) -> Result<CtxView, TranslationError>
    recommends
        c.current < c.tfunc.blocks.len(),
{
    if opcode == Opcode::Return {
        Ok(emit_s(c, TargetInst::Ret))
    } else {
        Err(TranslationError::UnsupportedOpcode(opcode))
    }
}

/// Translating one instruction: dispatch on its tag, with an explicit
/// `UnsupportedOpcode` failure for every unimplemented opcode.
pub open spec fn tr_inst_s(c: CtxView, f: FunctionView, inst: InstView) -> Result<
    CtxView,
    TranslationError,
> {
    match inst.data {
        InstDataView::Binary { opcode, arg0, arg1 } => tr_binary_s(
            c,
            opcode,
            arg0,
            arg1,
            inst.results[0],
        ),
        InstDataView::UnaryImm { opcode, imm } => tr_unary_imm_s(c, opcode, imm, inst.results[0]),
        InstDataView::Jump { opcode, destination, args } => tr_jump_s(
            c,
            f,
            opcode,
            destination,
            args,
        ),
        InstDataView::Branch { opcode, destination, args } => tr_branch_s(
            c,
            f,
            opcode,
            destination,
            args,
        ),
        InstDataView::MultiAry { opcode, .. } => tr_multiary_s(c, opcode),
    }
}

/// Second pass, one block's instructions in program order, failing fast.
pub open spec fn tr_insts_s(c: CtxView, f: FunctionView, insts: Seq<InstView>) -> Result<
    CtxView,
    TranslationError,
>
    decreases insts.len(),
{
    if insts.len() == 0 {
        Ok(c)
    } else {
        match tr_inst_s(c, f, insts[0]) {
            Err(e) => Err(e),
            Ok(c1) => tr_insts_s(c1, f, insts.drop_first()),
        }
    }
}

/// Second pass, one block: position at its target block, then translate
/// its instructions.
pub open spec fn tr_block_s(c: CtxView, f: FunctionView, ebb: usize) -> Result<
    CtxView,
    TranslationError,
>
    recommends
        ebb < f.blocks.len(),
{
    let m = materialize_s(c, ebb);
    tr_insts_s(CtxView { current: m.1, ..m.0 }, f, f.blocks[ebb as int].insts)
}

/// Second pass over all blocks, from block `i` on.
pub open spec fn tr_blocks_s(c: CtxView, f: FunctionView, i: int) -> Result<
    CtxView,
    TranslationError,
>
    decreases f.blocks.len() - i,
{
    if i < 0 || i >= f.blocks.len() {
        Ok(c)
    } else {
        match tr_block_s(c, f, i as usize) {
            Err(e) => Err(e),
            Ok(c1) => tr_blocks_s(c1, f, i + 1),
        }
    }
}

/// Post-pass, the entry argument bindings from formal parameter `i` on:
/// each formal parameter becomes the incoming value from the synthetic
/// predecessor `pred` on the entry block's phi of the same position.
pub open spec fn bind_entry_args_s(c: CtxView, pred: usize, eparams: Seq<BlockParam>, i: int)
    -> Result<CtxView, TranslationError>
    decreases eparams.len() - i,
{
    if i < 0 || i >= eparams.len() {
        Ok(c)
    } else {
        match lookup_phi_s(c, eparams[i].value) {
            Err(e) => Err(e),
            Ok(p) => {
                let c1 = CtxView {
                    tfunc: add_incoming_s(
                        c.tfunc,
                        p.0,
                        p.1,
                        Incoming { value: TargetValue::Arg(i as usize), pred },
                    ),
                    ..c
                };
                bind_entry_args_s(c1, pred, eparams, i + 1)
            },
        }
    }
}

/// Post-pass: validate the formal parameter count against the entry
/// block's parameter count, create the synthetic predecessor block, make
/// it jump into the entry block, and bind the formal parameters.
pub open spec fn bind_entry_s(c: CtxView, f: FunctionView) -> Result<
    TargetFunctionView,
    TranslationError,
>
    recommends
        f.entry < f.blocks.len(),
{
    let eparams = f.blocks[f.entry as int].params;
    if f.params.len() != eparams.len() {
        Err(
            TranslationError::ArityMismatch {
                block: f.entry,
                expected: eparams.len() as usize,
                got: f.params.len() as usize,
            },
        )
    } else {
        let ne = c.tfunc.blocks.len() as usize;
        let c1 = CtxView { tfunc: append_block_s(c.tfunc), current: ne, ..c };
        let m = materialize_s(c1, f.entry);
        let c3 = emit_s(m.0, TargetInst::Br { dest: m.1 });
        match bind_entry_args_s(c3, ne, eparams, 0) {
            Err(e) => Err(e),
            Ok(c4) => Ok(TargetFunctionView { entry: Some(ne), ..c4.tfunc }),
        }
    }
}

/// Creating the target function shell: decode the name, declare one
/// 64-bit integer parameter per formal parameter.
pub open spec fn create_func_s(f: FunctionView) -> Result<TargetFunctionView, TranslationError> {
    if valid_name(f.name) {
        Ok(
            TargetFunctionView {
                name: f.name,
                n_params: f.params.len() as usize,
                entry: None,
                blocks: Seq::empty(),
            },
        )
    } else {
        Err(TranslationError::MalformedExternalName)
    }
}

pub open spec fn init_ctx_s(tf: TargetFunctionView, f: FunctionView) -> CtxView {
    CtxView {
        tfunc: tf,
        values: Seq::new(f.n_values as nat, |i: int| None),
        memo: Seq::new(f.blocks.len(), |i: int| None),
        current: 0,
    }
}

/// The whole translation of one function: create the shell, pre-bind all
/// block parameters to phi placeholders, translate every block, then bind
/// the entry arguments through the synthetic predecessor.
pub open spec fn translate_function_s(f: FunctionView) -> Result<
    TargetFunctionView,
    TranslationError,
> {
    match create_func_s(f) {
        Err(e) => Err(e),
        Ok(tf0) => {
            let c1 = bind_all_params_s(init_ctx_s(tf0, f), f, 0);
            match tr_blocks_s(c1, f, 0) {
                Err(e) => Err(e),
                Ok(c2) => bind_entry_s(c2, f),
            }
        },
    }
}

/// The whole translation of a module: every function in order, stopping
/// at the first error.
pub open spec fn translate_s(fns: Seq<FunctionView>) -> Result<
    Seq<TargetFunctionView>,
    TranslationError,
>
    decreases fns.len(),
{
    if fns.len() == 0 {
        Ok(Seq::empty())
    } else {
        match translate_function_s(fns[0]) {
            Err(e) => Err(e),
            Ok(tf) => match translate_s(fns.drop_first()) {
                Err(e) => Err(e),
                Ok(rest) => Ok(seq![tf] + rest),
            },
        }
    }
}

impl FunctionContext {
    /// Records `value` as the translation of source value `key`.
    pub fn insert_value(&mut self, key: usize, value: TV)
        requires
            key < old(self)@.values.len(),
        ensures
            final(self)@ == bind_s(old(self)@, key, value),
            ctx_ok(old(self)@) && phi_ref_ok(old(self)@.tfunc, value) ==> ctx_ok(final(self)@),
    {
        self.values[key] = Some(value);
        proof {
            assert(final(self)@ =~~= bind_s(old(self)@, key, value));
            if ctx_ok(old(self)@) && phi_ref_ok(old(self)@.tfunc, value) {
                assert forall|e: int| 0 <= e < self@.memo.len() implies ((#[trigger] self@.memo[e])
                    matches Some(b) ==> b < self@.tfunc.blocks.len()) by {
                    assert(self@.memo[e] == old(self)@.memo[e]);
                };
                assert forall|v: int| 0 <= v < self@.values.len() implies ((
                #[trigger] self@.values[v]) matches Some(tv) ==> phi_ref_ok(self@.tfunc, tv)) by {
                    if v != key as int {
                        assert(self@.values[v] == old(self)@.values[v]);
                    }
                };
            }
        }
    }

    /// Resolves a value id to an operand.
    pub fn lookup_int(&self, v: usize) -> (r: Result<TargetValue, TranslationError>)
        ensures
            r == lookup_int_s(self@, v),
    {
        if v < self.values.len() {
            match self.values[v] {
                Some(tv) => Ok(tv.into_int_value()),
                None => Err(TranslationError::UndefinedValue(v)),
            }
        } else {
            Err(TranslationError::UndefinedValue(v))
        }
    }

    /// Resolves a block parameter's value id to its phi cell.
    pub fn lookup_phi(&self, v: usize) -> (r: Result<(usize, usize), TranslationError>)
        ensures
            r == lookup_phi_s(self@, v),
    {
        if v < self.values.len() {
            match self.values[v] {
                Some(tv) => match tv.into_phi_value() {
                    Some(p) => Ok(p),
                    None => Err(TranslationError::UndefinedValue(v)),
                },
                None => Err(TranslationError::UndefinedValue(v)),
            }
        } else {
            Err(TranslationError::UndefinedValue(v))
        }
    }

    /// The target block for source block `ebb`: memoized, created on
    /// first use, the same handle from then on.
    pub fn entry_bb_for_ebb(&mut self, ebb: usize) -> (r: usize)
        requires
            ebb < old(self)@.memo.len(),
        ensures
            final(self)@ == materialize_s(old(self)@, ebb).0,
            r == materialize_s(old(self)@, ebb).1,
            r < final(self)@.tfunc.blocks.len() || !memo_ok(old(self)@),
            final(self)@.tfunc.blocks.len() >= old(self)@.tfunc.blocks.len(),
            final(self)@.values == old(self)@.values,
            final(self)@.memo.len() == old(self)@.memo.len(),
            final(self)@.current == old(self)@.current,
            ctx_ok(old(self)@) ==> ctx_ok(final(self)@),
    {
        match self.ebb_to_entry[ebb] {
            Some(b) => b,
            None => {
                let nb = self.tfunc.append_basic_block();
                self.ebb_to_entry[ebb] = Some(nb);
                proof {
                    assert(final(self)@ =~~= materialize_s(old(self)@, ebb).0);
                    if ctx_ok(old(self)@) {
                        assert forall|e: int| 0 <= e < self@.memo.len() implies ((
                        #[trigger] self@.memo[e]) matches Some(b) ==> b
                            < self@.tfunc.blocks.len()) by {
                            if e != ebb as int {
                                assert(self@.memo[e] == old(self)@.memo[e]);
                            }
                        };
                        lemma_tf_geq_append(old(self)@.tfunc);
                        assert forall|v: int| 0 <= v < self@.values.len() implies ((
                        #[trigger] self@.values[v]) matches Some(tv) ==> phi_ref_ok(
                            self@.tfunc,
                            tv,
                        )) by {
                            assert(self@.values[v] == old(self)@.values[v]);
                            lemma_phi_ref_grows(old(self)@.tfunc, self@.tfunc, self@.values[v]);
                        };
                    }
                }
                nb
            },
        }
    }

    /// Emits one instruction at the insertion block and returns its index
    /// within that block.
    pub fn emit(&mut self, inst: TargetInst) -> (r: usize)
        requires
            old(self)@.current < old(self)@.tfunc.blocks.len(),
        ensures
            final(self)@ == emit_s(old(self)@, inst),
            r == old(self)@.tfunc.blocks[old(self)@.current as int].insts.len(),
            ctx_ok(old(self)@) ==> ctx_ok(final(self)@),
    {
        let r = self.tfunc.push_inst(self.current, inst);
        proof {
            assert(final(self)@ =~~= emit_s(old(self)@, inst));
            if ctx_ok(old(self)@) {
                lemma_tf_geq_push_inst(old(self)@.tfunc, old(self)@.current, inst);
                lemma_ctx_ok_grow(old(self)@, final(self)@);
            }
        }
        r
    }
}

/// The target bit pattern of a source immediate: its 64-bit
/// two's-complement representation read as unsigned.
pub fn imm_to_bits(imm: i64) -> (r: u64)
    ensures
        r == imm_bits(imm),
{
    if imm >= 0 {
        imm as u64
    } else {
        let pos = (-(imm + 1)) as u64;
        u64::MAX - pos
    }
}


/// The target function only grows: no block disappears and no phi
/// disappears from a block.
pub open spec fn tf_geq(t2: TargetFunctionView, t1: TargetFunctionView) -> bool {
    &&& t2.blocks.len() >= t1.blocks.len()
    &&& forall|b: int|
        0 <= b < t1.blocks.len() ==> (#[trigger] t2.blocks[b]).phis.len() >= t1.blocks[
            b
        ].phis.len()
}

proof fn lemma_tf_geq_push_inst(t: TargetFunctionView, bb: usize, inst: TargetInst)
    requires
        bb < t.blocks.len(),
    ensures
        tf_geq(push_inst_s(t, bb, inst), t),
        push_inst_s(t, bb, inst).blocks.len() == t.blocks.len(),
{
    let t2 = push_inst_s(t, bb, inst);
    assert forall|b: int| 0 <= b < t.blocks.len() implies (#[trigger] t2.blocks[b]).phis.len()
        >= t.blocks[b].phis.len() by {
        if b != bb as int {
            assert(t2.blocks[b] == t.blocks[b]);
        }
    };
}

proof fn lemma_tf_geq_append(t: TargetFunctionView)
    ensures
        tf_geq(append_block_s(t), t),
        append_block_s(t).blocks.len() == t.blocks.len() + 1,
{
    let t2 = append_block_s(t);
    assert forall|b: int| 0 <= b < t.blocks.len() implies (#[trigger] t2.blocks[b]).phis.len()
        >= t.blocks[b].phis.len() by {
        assert(t2.blocks[b] == t.blocks[b]);
    };
}

proof fn lemma_tf_geq_build_phi(t: TargetFunctionView, bb: usize)
    requires
        bb < t.blocks.len(),
    ensures
        tf_geq(build_phi_s(t, bb), t),
        build_phi_s(t, bb).blocks.len() == t.blocks.len(),
{
    let t2 = build_phi_s(t, bb);
    assert forall|b: int| 0 <= b < t.blocks.len() implies (#[trigger] t2.blocks[b]).phis.len()
        >= t.blocks[b].phis.len() by {
        if b != bb as int {
            assert(t2.blocks[b] == t.blocks[b]);
        }
    };
}

proof fn lemma_tf_geq_add_incoming(t: TargetFunctionView, bb: usize, phi: usize, inc: Incoming)
    requires
        bb < t.blocks.len(),
        phi < t.blocks[bb as int].phis.len(),
    ensures
        tf_geq(add_incoming_s(t, bb, phi, inc), t),
        add_incoming_s(t, bb, phi, inc).blocks.len() == t.blocks.len(),
{
    let t2 = add_incoming_s(t, bb, phi, inc);
    assert forall|b: int| 0 <= b < t.blocks.len() implies (#[trigger] t2.blocks[b]).phis.len()
        >= t.blocks[b].phis.len() by {
        if b != bb as int {
            assert(t2.blocks[b] == t.blocks[b]);
        }
    };
}

proof fn lemma_phi_ref_grows(t1: TargetFunctionView, t2: TargetFunctionView, o: Option<TV>)
    requires
        tf_geq(t2, t1),
        o matches Some(tv) ==> phi_ref_ok(t1, tv),
    ensures
        o matches Some(tv) ==> phi_ref_ok(t2, tv),
{
    match o {
        Some(tv) => match tv {
            TV::Phi { block, index } => {
                assert(t2.blocks[block as int].phis.len() >= t1.blocks[block as int].phis.len());
            },
            TV::Int(_) => {},
        },
        None => {},
    }
}

/// Growth of the target function alone never invalidates the environment
/// or the memo.
proof fn lemma_ctx_ok_grow(c1: CtxView, c2: CtxView)
    requires
        ctx_ok(c1),
        c2.memo == c1.memo,
        c2.values == c1.values,
        tf_geq(c2.tfunc, c1.tfunc),
    ensures
        ctx_ok(c2),
{
    assert forall|e: int| 0 <= e < c2.memo.len() implies ((#[trigger] c2.memo[e]) matches Some(b)
        ==> b < c2.tfunc.blocks.len()) by {
        assert(c1.memo[e] == c2.memo[e]);
    };
    assert forall|v: int| 0 <= v < c2.values.len() implies ((#[trigger] c2.values[v]) matches Some(
        tv,
    ) ==> phi_ref_ok(c2.tfunc, tv)) by {
        assert(c1.values[v] == c2.values[v]);
        lemma_phi_ref_grows(c1.tfunc, c2.tfunc, c1.values[v]);
    };
}


impl FunctionContext {
    /// Translates a binary arithmetic instruction, binding `result` to the
    /// emitted operation's value.
    pub fn translate_binary(&mut self, opcode: Opcode, arg0: usize, arg1: usize, result: usize)
        -> (r: Result<(), TranslationError>)
        requires
            ctx_ok(old(self)@),
            old(self)@.current < old(self)@.tfunc.blocks.len(),
            result < old(self)@.values.len(),
        ensures
            r is Ok ==> tr_binary_s(old(self)@, opcode, arg0, arg1, result) == Ok::<
                CtxView,
                TranslationError,
            >(final(self)@) && ctx_ok(final(self)@) && final(self)@.values.len() == old(self)@.values.len() && final(self)@.memo == old(self)@.memo && final(self)@.current == old(self)@.current && final(self)@.current < final(self)@.tfunc.blocks.len(),
            r matches Err(e) ==> tr_binary_s(old(self)@, opcode, arg0, arg1, result) == Err::<
                CtxView,
                TranslationError,
            >(e),
    {
        match opcode {
            Opcode::Iadd | Opcode::Isub => {
                let lhs = match self.lookup_int(arg0) {
                    Ok(v) => v,
                    Err(e) => {
                        return Err(e);
                    },
                };
                let rhs = match self.lookup_int(arg1) {
                    Ok(v) => v,
                    Err(e) => {
                        return Err(e);
                    },
                };
                let op = if opcode == Opcode::Iadd {
                    BinOp::Add
                } else {
                    BinOp::Sub
                };
                let curr = self.current;
                let idx = self.emit(TargetInst::Binary { op, lhs, rhs });
                self.insert_value(
                    result,
                    TV::int_val(TargetValue::Inst { block: curr, index: idx }),
                );
                Ok(())
            },
            _ => Err(TranslationError::UnsupportedOpcode(opcode)),
        }
    }

    /// Translates a constant materialization: the declared result is bound
    /// to the immediate's 64-bit two's-complement pattern; nothing is
    /// emitted.
    pub fn translate_unary_imm(&mut self, opcode: Opcode, imm: i64, result: usize) -> (r: Result<
        (),
        TranslationError,
    >)
        requires
            ctx_ok(old(self)@),
            result < old(self)@.values.len(),
        ensures
            r is Ok ==> tr_unary_imm_s(old(self)@, opcode, imm, result) == Ok::<
                CtxView,
                TranslationError,
            >(final(self)@) && ctx_ok(final(self)@) && final(self)@.values.len() == old(self)@.values.len() && final(self)@.memo == old(self)@.memo && final(self)@.tfunc == old(self)@.tfunc && final(self)@.current == old(self)@.current,
            r matches Err(e) ==> tr_unary_imm_s(old(self)@, opcode, imm, result) == Err::<
                CtxView,
                TranslationError,
            >(e),
    {
        match opcode {
            Opcode::Iconst => {
                let bits = imm_to_bits(imm);
                self.insert_value(result, TV::int_val(TargetValue::Const(bits)));
                Ok(())
            },
            _ => Err(TranslationError::UnsupportedOpcode(opcode)),
        }
    }

    /// Translates a variable-arity instruction; only return is
    /// implemented, emitting a terminator with no produced value.
    pub fn translate_multiary(&mut self, opcode: Opcode) -> (r: Result<(), TranslationError>)
        requires
            ctx_ok(old(self)@),
            old(self)@.current < old(self)@.tfunc.blocks.len(),
        ensures
            r is Ok ==> tr_multiary_s(old(self)@, opcode) == Ok::<CtxView, TranslationError>(
                final(self)@,
            ) && ctx_ok(final(self)@) && final(self)@.values == old(self)@.values && final(self)@.memo == old(self)@.memo && final(self)@.current == old(self)@.current && final(self)@.current < final(self)@.tfunc.blocks.len(),
            r matches Err(e) ==> tr_multiary_s(old(self)@, opcode) == Err::<
                CtxView,
                TranslationError,
            >(e),
    {
        match opcode {
            Opcode::Return => {
                self.emit(TargetInst::Ret);
                Ok(())
            },
            _ => Err(TranslationError::UnsupportedOpcode(opcode)),
        }
    }

    /// Translates an unconditional jump: destination resolution, arity
    /// check, transfer, edge stitching.
    #[verifier::loop_isolation(false)]
    pub fn translate_jump(
        &mut self,
        f: &Function,
        opcode: Opcode,
        destination: usize,
        args: &Vec<usize>,
    ) -> (r: Result<(), TranslationError>)
        requires
            ctx_ok(old(self)@),
            old(self)@.current < old(self)@.tfunc.blocks.len(),
            old(self)@.memo.len() == f@.blocks.len(),
            destination < f@.blocks.len(),
        ensures
            r is Ok ==> tr_jump_s(old(self)@, f@, opcode, destination, args@) == Ok::<
                CtxView,
                TranslationError,
            >(final(self)@) && ctx_ok(final(self)@) && final(self)@.values.len() == old(self)@.values.len() && final(self)@.memo.len() == old(self)@.memo.len() && final(self)@.current == old(self)@.current && final(self)@.current
                < final(self)@.tfunc.blocks.len(),
            r matches Err(e) ==> tr_jump_s(old(self)@, f@, opcode, destination, args@) == Err::<
                CtxView,
                TranslationError,
            >(e),
    {
        let ghost c0 = self@;
        if opcode != Opcode::Jump {
            return Err(TranslationError::UnsupportedOpcode(opcode));
        }
        let dst_bb = self.entry_bb_for_ebb(destination);
        let dparams_len = f.blocks[destination].params.len();
        if args.len() != dparams_len {
            return Err(
                TranslationError::ArityMismatch {
                    block: destination,
                    expected: dparams_len,
                    got: args.len(),
                },
            );
        }
        let pred = self.current;
        self.emit(TargetInst::Br { dest: dst_bb });
        let ghost c2 = self@;
        let ghost dparams = f@.blocks[destination as int].params;
        proof {
            assert(tr_jump_s(c0, f@, opcode, destination, args@) == stitch_s(
                c2,
                pred,
                dparams,
                args@,
            ));
            assert(dparams.skip(0) =~= dparams);
            assert(args@.skip(0) =~= args@);
        }
        let n = args.len();
        let mut j: usize = 0;
        while j < n
            invariant
                j <= n,
                n == args@.len(),
                n == dparams.len(),
                dparams == f@.blocks[destination as int].params,
                destination < f@.blocks.len(),
                ctx_ok(self@),
                stitch_s(self@, pred, dparams.skip(j as int), args@.skip(j as int)) == tr_jump_s(
                    c0,
                    f@,
                    opcode,
                    destination,
                    args@,
                ),
                self@.values == c2.values,
                self@.memo == c2.memo,
                self@.current == c2.current,
                self@.tfunc.blocks.len() == c2.tfunc.blocks.len(),
                c2.values.len() == c0.values.len(),
                c2.memo.len() == c0.memo.len(),
                c2.current == c0.current,
                c2.current < c2.tfunc.blocks.len(),
            decreases n - j,
        {
            let dparam_value = f.blocks[destination].params[j].value;
            proof {
                assert(dparams[j as int] == f@.blocks[destination as int].params[j as int]);
                assert(dparams.skip(j as int)[0] == dparams[j as int]);
                assert(args@.skip(j as int)[0] == args@[j as int]);
            }
            let p = match self.lookup_phi(dparam_value) {
                Ok(p) => p,
                Err(e) => {
                    proof {
                        assert(args@.skip(j as int).len() != 0);
                        assert(stitch_s(self@, pred, dparams.skip(j as int), args@.skip(j as int))
                            == Err::<CtxView, TranslationError>(e));
                    }
                    return Err(e);
                },
            };
            let v = match self.lookup_int(args[j]) {
                Ok(v) => v,
                Err(e) => {
                    proof {
                        assert(args@.skip(j as int).len() != 0);
                        assert(stitch_s(self@, pred, dparams.skip(j as int), args@.skip(j as int))
                            == Err::<CtxView, TranslationError>(e));
                    }
                    return Err(e);
                },
            };
            proof {
                assert(self@.values[dparam_value as int] == Some(
                    TV::Phi { block: p.0, index: p.1 },
                ));
                assert(phi_ref_ok(self@.tfunc, TV::Phi { block: p.0, index: p.1 }));
            }
            let ghost prev = self@;
            let inc = Incoming { value: v, pred };
            self.tfunc.add_incoming(p.0, p.1, inc);
            proof {
                assert(self@ =~~= (CtxView {
                    tfunc: add_incoming_s(prev.tfunc, p.0, p.1, inc),
                    ..prev
                }));
                lemma_tf_geq_add_incoming(prev.tfunc, p.0, p.1, inc);
                lemma_ctx_ok_grow(prev, self@);
                assert(dparams.skip(j as int).drop_first() =~= dparams.skip(j as int + 1));
                assert(args@.skip(j as int).drop_first() =~= args@.skip(j as int + 1));
            }
            j += 1;
        }
        proof {
            assert(args@.skip(n as int).len() == 0);
            assert(stitch_s(self@, pred, dparams.skip(n as int), args@.skip(n as int)) == Ok::<
                CtxView,
                TranslationError,
            >(self@));
        }
        Ok(())
    }

    /// Translates a branch-if-zero: destination resolution, fall-through
    /// continuation, arity check, comparison against zero, conditional
    /// transfer, stitching of the taken edge, and repositioning at the
    /// continuation.
    #[verifier::loop_isolation(false)]
    pub fn translate_branch(
        &mut self,
        f: &Function,
        opcode: Opcode,
        destination: usize,
        args: &Vec<usize>,
    ) -> (r: Result<(), TranslationError>)
        requires
            ctx_ok(old(self)@),
            old(self)@.current < old(self)@.tfunc.blocks.len(),
            old(self)@.memo.len() == f@.blocks.len(),
            destination < f@.blocks.len(),
            args@.len() >= 1,
        ensures
            r is Ok ==> tr_branch_s(old(self)@, f@, opcode, destination, args@) == Ok::<
                CtxView,
                TranslationError,
            >(final(self)@) && ctx_ok(final(self)@) && final(self)@.values.len() == old(self)@.values.len() && final(self)@.memo.len() == old(self)@.memo.len() && final(self)@.current < final(self)@.tfunc.blocks.len(),
            r matches Err(e) ==> tr_branch_s(old(self)@, f@, opcode, destination, args@) == Err::<
                CtxView,
                TranslationError,
            >(e),
    {
        let ghost c0 = self@;
        if opcode != Opcode::Brz {
            return Err(TranslationError::UnsupportedOpcode(opcode));
        }
        let dst_bb = self.entry_bb_for_ebb(destination);
        let ghost cm = self@;
        let new_bb = self.tfunc.append_basic_block();
        proof {
            assert(self@ =~~= (CtxView { tfunc: append_block_s(cm.tfunc), ..cm }));
            lemma_tf_geq_append(cm.tfunc);
            lemma_ctx_ok_grow(cm, self@);
        }
        let dparams_len = f.blocks[destination].params.len();
        if args.len() - 1 != dparams_len {
            return Err(
                TranslationError::ArityMismatch {
                    block: destination,
                    expected: dparams_len,
                    got: args.len() - 1,
                },
            );
        }
        let curr = self.current;
        let lhs = match self.lookup_int(args[0]) {
            Ok(v) => v,
            Err(e) => {
                return Err(e);
            },
        };
        let cmp_idx = self.emit(
            TargetInst::IntCompare {
                predicate: IntPredicate::Eq,
                lhs,
                rhs: TargetValue::Const(0),
            },
        );
        self.emit(
            TargetInst::CondBr {
                cond: TargetValue::Inst { block: curr, index: cmp_idx },
                then_block: dst_bb,
                else_block: new_bb,
            },
        );
        let ghost c4 = self@;
        let ghost dparams = f@.blocks[destination as int].params;
        let ghost rest = args@.drop_first();
        proof {
            assert(tr_branch_s(c0, f@, opcode, destination, args@) == (match stitch_s(
                c4,
                curr,
                dparams,
                rest,
            ) {
                Err(e) => Err::<CtxView, TranslationError>(e),
                Ok(c5) => Ok(CtxView { current: new_bb, ..c5 }),
            }));
            assert(dparams.skip(0) =~= dparams);
            assert(rest.skip(0) =~= rest);
        }
        let n = dparams_len;
        let mut j: usize = 0;
        while j < n
            invariant
                j <= n,
                n == dparams.len(),
                n == rest.len(),
                args@.len() == n + 1,
                rest == args@.drop_first(),
                dparams == f@.blocks[destination as int].params,
                destination < f@.blocks.len(),
                ctx_ok(self@),
                (match stitch_s(self@, curr, dparams.skip(j as int), rest.skip(j as int)) {
                    Err(e) => Err::<CtxView, TranslationError>(e),
                    Ok(c5) => Ok(CtxView { current: new_bb, ..c5 }),
                }) == tr_branch_s(c0, f@, opcode, destination, args@),
                self@.values == c4.values,
                self@.memo == c4.memo,
                self@.current == c4.current,
                self@.tfunc.blocks.len() == c4.tfunc.blocks.len(),
                c4.values.len() == c0.values.len(),
                c4.memo.len() == c0.memo.len(),
                new_bb < c4.tfunc.blocks.len(),
            decreases n - j,
        {
            let dparam_value = f.blocks[destination].params[j].value;
            proof {
                assert(dparams[j as int] == f@.blocks[destination as int].params[j as int]);
                assert(dparams.skip(j as int)[0] == dparams[j as int]);
                assert(rest.skip(j as int)[0] == rest[j as int]);
                assert(rest[j as int] == args@[j as int + 1]);
            }
            let p = match self.lookup_phi(dparam_value) {
                Ok(p) => p,
                Err(e) => {
                    proof {
                        assert(rest.skip(j as int).len() != 0);
                        assert(stitch_s(self@, curr, dparams.skip(j as int), rest.skip(j as int))
                            == Err::<CtxView, TranslationError>(e));
                    }
                    return Err(e);
                },
            };
            let v = match self.lookup_int(args[j + 1]) {
                Ok(v) => v,
                Err(e) => {
                    proof {
                        assert(rest.skip(j as int).len() != 0);
                        assert(stitch_s(self@, curr, dparams.skip(j as int), rest.skip(j as int))
                            == Err::<CtxView, TranslationError>(e));
                    }
                    return Err(e);
                },
            };
            proof {
                assert(self@.values[dparam_value as int] == Some(
                    TV::Phi { block: p.0, index: p.1 },
                ));
                assert(phi_ref_ok(self@.tfunc, TV::Phi { block: p.0, index: p.1 }));
            }
            let ghost prev = self@;
            let inc = Incoming { value: v, pred: curr };
            self.tfunc.add_incoming(p.0, p.1, inc);
            proof {
                assert(self@ =~~= (CtxView {
                    tfunc: add_incoming_s(prev.tfunc, p.0, p.1, inc),
                    ..prev
                }));
                lemma_tf_geq_add_incoming(prev.tfunc, p.0, p.1, inc);
                lemma_ctx_ok_grow(prev, self@);
                assert(dparams.skip(j as int).drop_first() =~= dparams.skip(j as int + 1));
                assert(rest.skip(j as int).drop_first() =~= rest.skip(j as int + 1));
            }
            j += 1;
        }
        proof {
            assert(rest.skip(n as int).len() == 0);
            assert(stitch_s(self@, curr, dparams.skip(n as int), rest.skip(n as int)) == Ok::<
                CtxView,
                TranslationError,
            >(self@));
        }
        self.current = new_bb;
        proof {
            assert(final(self)@ =~~= (CtxView { current: new_bb, ..self@ }));
        }
        Ok(())
    }

    /// Translates one instruction, dispatching on its tag; every
    /// unimplemented opcode is a reported `UnsupportedOpcode` failure.
    pub fn translate_instruction(&mut self, f: &Function, inst: &Inst) -> (r: Result<
        (),
        TranslationError,
    >)
        requires
            ctx_ok(old(self)@),
            ctx_lens(old(self)@, f@),
            old(self)@.current < old(self)@.tfunc.blocks.len(),
            wf_inst(f@, inst@),
        ensures
            r is Ok ==> tr_inst_s(old(self)@, f@, inst@) == Ok::<CtxView, TranslationError>(
                final(self)@,
            ) && ctx_ok(final(self)@) && ctx_lens(final(self)@, f@) && final(self)@.current
                < final(self)@.tfunc.blocks.len(),
            r matches Err(e) ==> tr_inst_s(old(self)@, f@, inst@) == Err::<
                CtxView,
                TranslationError,
            >(e),
    {
        match &inst.data {
            InstData::Binary { opcode, arg0, arg1 } => {
                let result = inst.results[0];
                self.translate_binary(*opcode, *arg0, *arg1, result)
            },
            InstData::UnaryImm { opcode, imm } => {
                let result = inst.results[0];
                self.translate_unary_imm(*opcode, *imm, result)
            },
            InstData::Jump { opcode, destination, args } => self.translate_jump(
                f,
                *opcode,
                *destination,
                args,
            ),
            InstData::Branch { opcode, destination, args } => self.translate_branch(
                f,
                *opcode,
                *destination,
                args,
            ),
            InstData::MultiAry { opcode, .. } => self.translate_multiary(*opcode),
        }
    }
}


impl FunctionContext {
    /// First pass for one block: creates one phi placeholder per block
    /// parameter and records each in the environment.
    #[verifier::loop_isolation(false)]
    pub fn translate_ebb_params(&mut self, f: &Function, ebb: usize)
        requires
            ctx_ok(old(self)@),
            ctx_lens(old(self)@, f@),
            wf_function(f@),
            ebb < f@.blocks.len(),
        ensures
            final(self)@ == bind_block_params_s(old(self)@, f@, ebb),
            ctx_ok(final(self)@),
            ctx_lens(final(self)@, f@),
            final(self)@.current == old(self)@.current,
    {
        let ghost c0 = self@;
        let bb = self.entry_bb_for_ebb(ebb);
        let ghost cm = self@;
        let ghost params = f@.blocks[ebb as int].params;
        proof {
            assert(params.skip(0) =~= params);
            assert(wf_block(f@, f@.blocks[ebb as int]));
        }
        let n = f.blocks[ebb].params.len();
        let mut j: usize = 0;
        while j < n
            invariant
                j <= n,
                n == params.len(),
                ctx_ok(self@),
                ctx_lens(self@, f@),
                bb < self@.tfunc.blocks.len(),
                bind_params_s(self@, bb, params.skip(j as int)) == bind_params_s(cm, bb, params),
                self@.memo == cm.memo,
                self@.current == cm.current,
            decreases n - j,
        {
            proof {
                assert(params.skip(j as int)[0] == params[j as int]);
                assert((f@.blocks[ebb as int].params[j as int]).value < f@.n_values);
            }
            let pv = f.blocks[ebb].params[j].value;
            let ghost prev = self@;
            let pi = self.tfunc.build_phi(bb);
            proof {
                assert(self@ =~~= (CtxView { tfunc: build_phi_s(prev.tfunc, bb), ..prev }));
                lemma_tf_geq_build_phi(prev.tfunc, bb);
                lemma_ctx_ok_grow(prev, self@);
                assert(self@.tfunc.blocks[bb as int].phis.len() == prev.tfunc.blocks[
                    bb as int
                ].phis.len() + 1);
                assert(phi_ref_ok(self@.tfunc, TV::Phi { block: bb, index: pi }));
            }
            self.insert_value(pv, TV::phi(bb, pi));
            proof {
                assert(params.skip(j as int).drop_first() =~= params.skip(j as int + 1));
            }
            j += 1;
        }
        proof {
            assert(params.skip(n as int).len() == 0);
            assert(bind_params_s(self@, bb, params.skip(n as int)) == self@);
        }
    }

    /// Second pass for one block: positions at its target block and
    /// translates its instructions in program order.
    #[verifier::loop_isolation(false)]
    pub fn translate_ebb(&mut self, f: &Function, ebb: usize) -> (r: Result<(), TranslationError>)
        requires
            ctx_ok(old(self)@),
            ctx_lens(old(self)@, f@),
            wf_function(f@),
            ebb < f@.blocks.len(),
        ensures
            r is Ok ==> tr_block_s(old(self)@, f@, ebb) == Ok::<CtxView, TranslationError>(
                final(self)@,
            ) && ctx_ok(final(self)@) && ctx_lens(final(self)@, f@),
            r matches Err(e) ==> tr_block_s(old(self)@, f@, ebb) == Err::<
                CtxView,
                TranslationError,
            >(e),
    {
        let ghost c0 = self@;
        let bb = self.entry_bb_for_ebb(ebb);
        self.current = bb;
        let ghost cs = self@;
        let ghost insts = f@.blocks[ebb as int].insts;
        proof {
            assert(cs =~~= (CtxView { current: bb, ..materialize_s(c0, ebb).0 }));
            assert(insts.skip(0) =~= insts);
            assert(tr_block_s(c0, f@, ebb) == tr_insts_s(cs, f@, insts));
            assert(wf_block(f@, f@.blocks[ebb as int]));
        }
        let n = f.blocks[ebb].insts.len();
        let mut j: usize = 0;
        while j < n
            invariant
                j <= n,
                n == insts.len(),
                ctx_ok(self@),
                ctx_lens(self@, f@),
                self@.current < self@.tfunc.blocks.len(),
                tr_insts_s(self@, f@, insts.skip(j as int)) == tr_block_s(c0, f@, ebb),
            decreases n - j,
        {
            proof {
                assert(insts.skip(j as int)[0] == insts[j as int]);
                assert(wf_inst(f@, f@.blocks[ebb as int].insts[j as int]));
            }
            let inst = &f.blocks[ebb].insts[j];
            proof {
                assert(inst@ == insts[j as int]);
            }
            let ghost prev = self@;
            match self.translate_instruction(f, inst) {
                Ok(()) => {},
                Err(e) => {
                    proof {
                        assert(insts.skip(j as int).len() != 0);
                        assert(tr_insts_s(prev, f@, insts.skip(j as int)) == Err::<
                            CtxView,
                            TranslationError,
                        >(e));
                    }
                    return Err(e);
                },
            }
            proof {
                assert(insts.skip(j as int).drop_first() =~= insts.skip(j as int + 1));
            }
            j += 1;
        }
        proof {
            assert(insts.skip(n as int).len() == 0);
            assert(tr_insts_s(self@, f@, insts.skip(n as int)) == Ok::<CtxView, TranslationError>(
                self@,
            ));
        }
        Ok(())
    }
}

/// Creates the target function shell for one source function: decodes its
/// name, declares its parameter count, and starts with no blocks.
#[verifier::loop_isolation(false)]
pub fn create_func(f: &Function) -> (r: Result<TargetFunction, TranslationError>)
    ensures
        r matches Ok(tf) ==> create_func_s(f@) == Ok::<TargetFunctionView, TranslationError>(tf@),
        r matches Err(e) ==> create_func_s(f@) == Err::<TargetFunctionView, TranslationError>(e),
{
    let n = f.name.len();
    let mut i: usize = 0;
    while i < n
        invariant
            i <= n,
            n == f@.name.len(),
            forall|k: int| 0 <= k < i ==> f@.name[k] < 128,
        decreases n - i,
    {
        if f.name[i] >= 128 {
            proof {
                assert(!valid_name(f@.name));
            }
            return Err(TranslationError::MalformedExternalName);
        }
        i += 1;
    }
    proof {
        assert(valid_name(f@.name));
    }
    let mut name: Vec<u8> = Vec::new();
    let mut i: usize = 0;
    while i < n
        invariant
            i <= n,
            n == f@.name.len(),
            name@ =~= f@.name.take(i as int),
        decreases n - i,
    {
        name.push(f.name[i]);
        proof {
            assert(name@ =~= f@.name.take(i as int + 1));
        }
        i += 1;
    }
    let tf = TargetFunction { name, n_params: f.params.len(), entry: None, blocks: Vec::new() };
    proof {
        assert(name@ =~= f@.name);
        assert(tf@ =~~= create_func_s(f@)->Ok_0);
    }
    Ok(tf)
}

/// Translates one source function into a target function: shell creation,
/// parameter pre-binding, instruction translation, entry binding.
#[verifier::loop_isolation(false)]
pub fn translate_function(f: &Function) -> (r: Result<TargetFunction, TranslationError>)
    requires
        wf_function(f@),
    ensures
        r matches Ok(tf) ==> translate_function_s(f@) == Ok::<TargetFunctionView, TranslationError>(
            tf@,
        ),
        r matches Err(e) ==> translate_function_s(f@) == Err::<
            TargetFunctionView,
            TranslationError,
        >(e),
{
    let tfunc = match create_func(f) {
        Ok(t) => t,
        Err(e) => {
            return Err(e);
        },
    };
    let ghost tf0v = tfunc@;
    let mut ctx = FunctionContext {
        tfunc,
        values: Vec::new(),
        ebb_to_entry: Vec::new(),
        current: 0,
    };
    let nv = f.n_values;
    let mut i: usize = 0;
    while i < nv
        invariant
            i <= nv,
            ctx@.values =~= Seq::new(i as nat, |k: int| None::<TV>),
            ctx@.tfunc == tf0v,
            ctx@.memo.len() == 0,
            ctx@.current == 0,
        decreases nv - i,
    {
        ctx.values.push(None);
        proof {
            assert(ctx@.values =~= Seq::new((i + 1) as nat, |k: int| None::<TV>));
        }
        i += 1;
    }
    let nb = f.blocks.len();
    let mut i: usize = 0;
    while i < nb
        invariant
            i <= nb,
            ctx@.values =~= Seq::new(f@.n_values as nat, |k: int| None::<TV>),
            ctx@.memo =~= Seq::new(i as nat, |k: int| None::<usize>),
            ctx@.tfunc == tf0v,
            ctx@.current == 0,
        decreases nb - i,
    {
        ctx.ebb_to_entry.push(None);
        proof {
            assert(ctx@.memo =~= Seq::new((i + 1) as nat, |k: int| None::<usize>));
        }
        i += 1;
    }
    let ghost c_init = ctx@;
    proof {
        assert(c_init =~~= init_ctx_s(tf0v, f@));
        assert forall|e: int| 0 <= e < c_init.memo.len() implies ((#[trigger] c_init.memo[e])
            matches Some(b) ==> b < c_init.tfunc.blocks.len()) by {
            assert(c_init.memo[e] is None);
        };
        assert forall|v: int| 0 <= v < c_init.values.len() implies ((#[trigger] c_init.values[v])
            matches Some(tv) ==> phi_ref_ok(c_init.tfunc, tv)) by {
            assert(c_init.values[v] is None);
        };
        assert(ctx_ok(c_init));
        assert(ctx_lens(c_init, f@));
    }
    let mut b: usize = 0;
    while b < nb
        invariant
            b <= nb,
            nb == f@.blocks.len(),
            ctx_ok(ctx@),
            ctx_lens(ctx@, f@),
            bind_all_params_s(ctx@, f@, b as int) == bind_all_params_s(c_init, f@, 0),
        decreases nb - b,
    {
        let ghost prev = ctx@;
        ctx.translate_ebb_params(f, b);
        proof {
            assert(bind_all_params_s(prev, f@, b as int) == bind_all_params_s(
                ctx@,
                f@,
                b as int + 1,
            ));
        }
        b += 1;
    }
    let ghost c1 = ctx@;
    proof {
        assert(bind_all_params_s(c1, f@, nb as int) == c1);
        assert(c1 == bind_all_params_s(c_init, f@, 0));
        assert(translate_function_s(f@) == (match tr_blocks_s(c1, f@, 0) {
            Err(e) => Err::<TargetFunctionView, TranslationError>(e),
            Ok(c2) => bind_entry_s(c2, f@),
        }));
    }
    let mut b: usize = 0;
    while b < nb
        invariant
            b <= nb,
            nb == f@.blocks.len(),
            ctx_ok(ctx@),
            ctx_lens(ctx@, f@),
            tr_blocks_s(ctx@, f@, b as int) == tr_blocks_s(c1, f@, 0),
        decreases nb - b,
    {
        let ghost prev = ctx@;
        match ctx.translate_ebb(f, b) {
            Ok(()) => {},
            Err(e) => {
                proof {
                    assert(tr_blocks_s(prev, f@, b as int) == Err::<CtxView, TranslationError>(e));
                }
                return Err(e);
            },
        }
        proof {
            assert(tr_blocks_s(prev, f@, b as int) == tr_blocks_s(ctx@, f@, b as int + 1));
        }
        b += 1;
    }
    let ghost c_body = ctx@;
    proof {
        assert(tr_blocks_s(c_body, f@, nb as int) == Ok::<CtxView, TranslationError>(c_body));
        assert(tr_blocks_s(c1, f@, 0) == Ok::<CtxView, TranslationError>(c_body));
    }
    let eparams_len = f.blocks[f.entry].params.len();
    if f.params.len() != eparams_len {
        return Err(
            TranslationError::ArityMismatch {
                block: f.entry,
                expected: eparams_len,
                got: f.params.len(),
            },
        );
    }
    let ghost eparams = f@.blocks[f.entry as int].params;
    let ne = ctx.tfunc.append_basic_block();
    proof {
        assert(ctx@ =~~= (CtxView { tfunc: append_block_s(c_body.tfunc), ..c_body }));
        lemma_tf_geq_append(c_body.tfunc);
        lemma_ctx_ok_grow(c_body, ctx@);
    }
    ctx.current = ne;
    let ghost cn = ctx@;
    let ebb0 = ctx.entry_bb_for_ebb(f.entry);
    ctx.emit(TargetInst::Br { dest: ebb0 });
    let ghost c3 = ctx@;
    proof {
        assert(cn =~~= (CtxView { tfunc: append_block_s(c_body.tfunc), current: ne, ..c_body }));
        assert(bind_entry_s(c_body, f@) == (match bind_entry_args_s(c3, ne, eparams, 0) {
            Err(e) => Err::<TargetFunctionView, TranslationError>(e),
            Ok(c4) => Ok(TargetFunctionView { entry: Some(ne), ..c4.tfunc }),
        }));
    }
    let mut i: usize = 0;
    while i < eparams_len
        invariant
            i <= eparams_len,
            eparams_len == eparams.len(),
            ctx_ok(ctx@),
            (match bind_entry_args_s(ctx@, ne, eparams, i as int) {
                Err(e) => Err::<TargetFunctionView, TranslationError>(e),
                Ok(c4) => Ok(TargetFunctionView { entry: Some(ne), ..c4.tfunc }),
            }) == bind_entry_s(c_body, f@),
            ctx@.values == c3.values,
        decreases eparams_len - i,
    {
        proof {
            assert(eparams[i as int] == f@.blocks[f@.entry as int].params[i as int]);
        }
        let pv = f.blocks[f.entry].params[i].value;
        let p = match ctx.lookup_phi(pv) {
            Ok(p) => p,
            Err(e) => {
                proof {
                    assert(bind_entry_args_s(ctx@, ne, eparams, i as int) == Err::<
                        CtxView,
                        TranslationError,
                    >(e));
                }
                return Err(e);
            },
        };
        proof {
            assert(ctx@.values[pv as int] == Some(TV::Phi { block: p.0, index: p.1 }));
            assert(phi_ref_ok(ctx@.tfunc, TV::Phi { block: p.0, index: p.1 }));
        }
        let ghost prev = ctx@;
        let inc = Incoming { value: TargetValue::Arg(i), pred: ne };
        ctx.tfunc.add_incoming(p.0, p.1, inc);
        proof {
            assert(ctx@ =~~= (CtxView { tfunc: add_incoming_s(prev.tfunc, p.0, p.1, inc), ..prev }));
            lemma_tf_geq_add_incoming(prev.tfunc, p.0, p.1, inc);
            lemma_ctx_ok_grow(prev, ctx@);
        }
        i += 1;
    }
    proof {
        assert(bind_entry_args_s(ctx@, ne, eparams, eparams_len as int) == Ok::<
            CtxView,
            TranslationError,
        >(ctx@));
    }
    let ghost c4 = ctx@;
    ctx.tfunc.entry = Some(ne);
    proof {
        assert(ctx.tfunc@ =~~= (TargetFunctionView { entry: Some(ne), ..c4.tfunc }));
    }
    Ok(ctx.tfunc)
}

/// The module translator: accumulates one target function per source
/// function in its target module.
pub struct Translator {
    pub module: TargetModule,
}

impl Translator {
    pub fn new() -> (r: Translator)
        ensures
            r.module@.functions == Seq::<TargetFunctionView>::empty(),
    {
        let t = Translator { module: TargetModule { functions: Vec::new() } };
        proof {
            assert(t.module@.functions =~= Seq::<TargetFunctionView>::empty());
        }
        t
    }

    /// Translates every function of the module in order, appending the
    /// results to this translator's module; stops at the first error.
    #[verifier::loop_isolation(false)]
    pub fn translate(&mut self, cton_mod: &CtonModule) -> (r: Result<(), TranslationError>)
        requires
            wf_module(cton_mod@),
        ensures
            r is Ok ==> translate_s(cton_mod@.functions) is Ok && final(self).module@.functions
                == old(self).module@.functions + translate_s(cton_mod@.functions)->Ok_0,
            r matches Err(e) ==> translate_s(cton_mod@.functions) == Err::<
                Seq<TargetFunctionView>,
                TranslationError,
            >(e),
    {
        let ghost orig = self.module@.functions;
        let ghost fns = cton_mod@.functions;
        proof {
            assert(fns.skip(0) =~= fns);
            assert(self.module@.functions.skip(orig.len() as int) =~= Seq::<
                TargetFunctionView,
            >::empty());
        }
        let n = cton_mod.functions.len();
        let mut i: usize = 0;
        while i < n
            invariant
                i <= n,
                n == fns.len(),
                self.module@.functions.len() == orig.len() + i,
                self.module@.functions.take(orig.len() as int) == orig,
                (match translate_s(fns.skip(i as int)) {
                    Ok(rest) => translate_s(fns) == Ok::<Seq<TargetFunctionView>, TranslationError>(
                        self.module@.functions.skip(orig.len() as int) + rest,
                    ),
                    Err(e) => translate_s(fns) == Err::<Seq<TargetFunctionView>, TranslationError>(
                        e,
                    ),
                }),
            decreases n - i,
        {
            proof {
                assert(fns.skip(i as int)[0] == fns[i as int]);
                assert(wf_function(cton_mod@.functions[i as int]));
            }
            let tf = match translate_function(&cton_mod.functions[i]) {
                Ok(tf) => tf,
                Err(e) => {
                    proof {
                        assert(fns.skip(i as int).len() != 0);
                        assert(translate_s(fns.skip(i as int)) == Err::<
                            Seq<TargetFunctionView>,
                            TranslationError,
                        >(e));
                    }
                    return Err(e);
                },
            };
            let ghost prev = self.module@.functions;
            self.module.functions.push(tf);
            proof {
                assert(self.module@.functions =~= prev.push(tf@));
                assert(fns.skip(i as int).drop_first() =~= fns.skip(i as int + 1));
                assert(self.module@.functions.take(orig.len() as int) =~= orig);
                match translate_s(fns.skip(i as int + 1)) {
                    Ok(rest) => {
                        assert(translate_s(fns.skip(i as int)) == Ok::<
                            Seq<TargetFunctionView>,
                            TranslationError,
                        >(seq![tf@] + rest));
                        assert(self.module@.functions.skip(orig.len() as int) =~= prev.skip(
                            orig.len() as int,
                        ).push(tf@));
                        assert(prev.skip(orig.len() as int).push(tf@) + rest =~= prev.skip(
                            orig.len() as int,
                        ) + (seq![tf@] + rest));
                    },
                    Err(e) => {},
                }
            }
            i += 1;
        }
        proof {
            assert(fns.skip(n as int).len() == 0);
            assert(translate_s(fns.skip(n as int)) == Ok::<
                Seq<TargetFunctionView>,
                TranslationError,
            >(Seq::empty()));
            assert(self.module@.functions.skip(orig.len() as int) + Seq::<
                TargetFunctionView,
            >::empty() =~= self.module@.functions.skip(orig.len() as int));
        }
        Ok(())
    }
}

/// Lowers every function of a source module into the target
/// representation, in order; the first error aborts the whole module's
/// translation and is returned.
pub fn translate(cton_mod: CtonModule) -> (r: Result<TargetModule, TranslationError>)
    requires
        wf_module(cton_mod@),
    ensures
        r matches Ok(tm) ==> translate_s(cton_mod@.functions) == Ok::<
            Seq<TargetFunctionView>,
            TranslationError,
        >(tm@.functions),
        r matches Err(e) ==> translate_s(cton_mod@.functions) == Err::<
            Seq<TargetFunctionView>,
            TranslationError,
        >(e),
{
    let mut translator = Translator::new();
    match translator.translate(&cton_mod) {
        Ok(()) => {
            proof {
                assert(Seq::<TargetFunctionView>::empty() + translate_s(
                    cton_mod@.functions,
                )->Ok_0 =~= translate_s(cton_mod@.functions)->Ok_0);
            }
            Ok(translator.module)
        },
        Err(e) => Err(e),
    }
}


/// The memo only grows: every handle already recorded stays recorded,
/// unchanged.
pub open spec fn memo_mono(m1: Seq<Option<usize>>, m2: Seq<Option<usize>>) -> bool {
    &&& m2.len() == m1.len()
    &&& forall|e: int| 0 <= e < m1.len() && (#[trigger] m1[e]) is Some ==> m2[e] == m1[e]
}

/// Idempotent block materialization: materializing a block id twice
/// returns the same handle the second time and leaves the state
/// unchanged.
pub proof fn lemma_materialize_idempotent(c: CtxView, ebb: usize)
    requires
        ebb < c.memo.len(),
    ensures
        materialize_s(materialize_s(c, ebb).0, ebb).0 == materialize_s(c, ebb).0,
        materialize_s(materialize_s(c, ebb).0, ebb).1 == materialize_s(c, ebb).1,
{
}

proof fn lemma_memo_mono_trans(m1: Seq<Option<usize>>, m2: Seq<Option<usize>>, m3: Seq<
    Option<usize>,
>)
    requires
        memo_mono(m1, m2),
        memo_mono(m2, m3),
    ensures
        memo_mono(m1, m3),
{
    assert forall|e: int| 0 <= e < m1.len() && (#[trigger] m1[e]) is Some implies m3[e] == m1[e] by {
        assert(m2[e] == m1[e]);
    };
}

proof fn lemma_materialize_memo_mono(c: CtxView, ebb: usize)
    requires
        ebb < c.memo.len(),
    ensures
        memo_mono(c.memo, materialize_s(c, ebb).0.memo),
{
    match c.memo[ebb as int] {
        Some(_) => {},
        None => {
            let m2 = materialize_s(c, ebb).0.memo;
            assert forall|e: int| 0 <= e < c.memo.len() && (#[trigger] c.memo[e]) is Some implies
                m2[e] == c.memo[e] by {
                assert(e != ebb as int);
            };
        },
    }
}

proof fn lemma_stitch_memo(c: CtxView, pred: usize, dparams: Seq<BlockParam>, args: Seq<usize>)
    ensures
        stitch_s(c, pred, dparams, args) matches Ok(c2) ==> c2.memo == c.memo,
    decreases args.len(),
{
    if args.len() == 0 {
    } else {
        match lookup_phi_s(c, dparams[0].value) {
            Err(_) => {},
            Ok(p) => match lookup_int_s(c, args[0]) {
                Err(_) => {},
                Ok(v) => {
                    let c1 = CtxView {
                        tfunc: add_incoming_s(c.tfunc, p.0, p.1, Incoming { value: v, pred }),
                        ..c
                    };
                    lemma_stitch_memo(c1, pred, dparams.drop_first(), args.drop_first());
                },
            },
        }
    }
}

proof fn lemma_inst_memo_mono(c: CtxView, f: FunctionView, inst: InstView)
    requires
        c.memo.len() == f.blocks.len(),
        wf_inst(f, inst),
    ensures
        tr_inst_s(c, f, inst) matches Ok(c2) ==> memo_mono(c.memo, c2.memo),
{
    match inst.data {
        InstDataView::Jump { opcode, destination, args } => {
            if opcode == Opcode::Jump {
                let m = materialize_s(c, destination);
                lemma_materialize_memo_mono(c, destination);
                let dparams = f.blocks[destination as int].params;
                if args.len() == dparams.len() {
                    let c2 = emit_s(m.0, TargetInst::Br { dest: m.1 });
                    lemma_stitch_memo(c2, c2.current, dparams, args);
                }
            }
        },
        InstDataView::Branch { opcode, destination, args } => {
            if opcode == Opcode::Brz {
                let m = materialize_s(c, destination);
                lemma_materialize_memo_mono(c, destination);
                let new_bb = m.0.tfunc.blocks.len() as usize;
                let c2 = CtxView { tfunc: append_block_s(m.0.tfunc), ..m.0 };
                let dparams = f.blocks[destination as int].params;
                if args.len() - 1 == dparams.len() {
                    match lookup_int_s(c2, args[0]) {
                        Err(_) => {},
                        Ok(lhs) => {
                            let curr = c2.current;
                            let cmp_idx = c2.tfunc.blocks[curr as int].insts.len() as usize;
                            let c3 = emit_s(
                                c2,
                                TargetInst::IntCompare {
                                    predicate: IntPredicate::Eq,
                                    lhs,
                                    rhs: TargetValue::Const(0),
                                },
                            );
                            let c4 = emit_s(
                                c3,
                                TargetInst::CondBr {
                                    cond: TargetValue::Inst { block: curr, index: cmp_idx },
                                    then_block: m.1,
                                    else_block: new_bb,
                                },
                            );
                            lemma_stitch_memo(c4, curr, dparams, args.drop_first());
                        },
                    }
                }
            }
        },
        _ => {},
    }
}

proof fn lemma_insts_memo_mono(c: CtxView, f: FunctionView, insts: Seq<InstView>)
    requires
        c.memo.len() == f.blocks.len(),
        forall|k: int| 0 <= k < insts.len() ==> wf_inst(f, #[trigger] insts[k]),
    ensures
        tr_insts_s(c, f, insts) matches Ok(c2) ==> memo_mono(c.memo, c2.memo),
    decreases insts.len(),
{
    if insts.len() == 0 {
    } else {
        match tr_inst_s(c, f, insts[0]) {
            Err(_) => {},
            Ok(c1) => {
                lemma_inst_memo_mono(c, f, insts[0]);
                assert forall|k: int| 0 <= k < insts.drop_first().len() implies wf_inst(
                    f,
                    #[trigger] insts.drop_first()[k],
                ) by {
                    assert(insts.drop_first()[k] == insts[k + 1]);
                };
                lemma_insts_memo_mono(c1, f, insts.drop_first());
                match tr_insts_s(c1, f, insts.drop_first()) {
                    Err(_) => {},
                    Ok(c2) => {
                        lemma_memo_mono_trans(c.memo, c1.memo, c2.memo);
                    },
                }
            },
        }
    }
}

proof fn lemma_block_memo_mono(c: CtxView, f: FunctionView, ebb: usize)
    requires
        c.memo.len() == f.blocks.len(),
        ebb < f.blocks.len(),
        wf_function(f),
    ensures
        tr_block_s(c, f, ebb) matches Ok(c2) ==> memo_mono(c.memo, c2.memo),
{
    let m = materialize_s(c, ebb);
    lemma_materialize_memo_mono(c, ebb);
    let cs = CtxView { current: m.1, ..m.0 };
    assert(wf_block(f, f.blocks[ebb as int]));
    lemma_insts_memo_mono(cs, f, f.blocks[ebb as int].insts);
    match tr_insts_s(cs, f, f.blocks[ebb as int].insts) {
        Err(_) => {},
        Ok(c2) => {
            lemma_memo_mono_trans(c.memo, cs.memo, c2.memo);
        },
    }
}

/// Idempotent block materialization across a whole body translation: a
/// handle once recorded for a block id never changes while the remaining
/// blocks are translated, so every call site that refers to the id, early
/// or late, observes the same target block handle.
pub proof fn lemma_handles_stable_across_body(c: CtxView, f: FunctionView, i: int, e: usize, b: usize)
    requires
        wf_function(f),
        c.memo.len() == f.blocks.len(),
        e < c.memo.len(),
        c.memo[e as int] == Some(b),
        tr_blocks_s(c, f, i) is Ok,
    ensures
        tr_blocks_s(c, f, i)->Ok_0.memo[e as int] == Some(b),
        tr_blocks_s(c, f, i)->Ok_0.memo.len() == c.memo.len(),
    decreases f.blocks.len() - i,
{
    if i < 0 || i >= f.blocks.len() {
    } else {
        match tr_block_s(c, f, i as usize) {
            Err(_) => {},
            Ok(c1) => {
                lemma_block_memo_mono(c, f, i as usize);
                lemma_handles_stable_across_body(c1, f, i + 1, e, b);
            },
        }
    }
}

/// Arity law for jumps: translating a jump whose argument count differs
/// from the destination's parameter count always fails with
/// `ArityMismatch`, whatever the state of the translation.
pub proof fn lemma_jump_arity_mismatch(
    c: CtxView,
    f: FunctionView,
    destination: usize,
    args: Seq<usize>,
)
    requires
        destination < f.blocks.len(),
        args.len() != f.blocks[destination as int].params.len(),
    ensures
        tr_jump_s(c, f, Opcode::Jump, destination, args) == Err::<CtxView, TranslationError>(
            TranslationError::ArityMismatch {
                block: destination,
                expected: f.blocks[destination as int].params.len() as usize,
                got: args.len() as usize,
            },
        ),
{
}

/// Arity law for conditional branches: translating a branch whose
/// destination-argument count (its arguments beyond the condition)
/// differs from the destination's parameter count always fails with
/// `ArityMismatch`, whatever the state of the translation.
pub proof fn lemma_branch_arity_mismatch(
    c: CtxView,
    f: FunctionView,
    destination: usize,
    args: Seq<usize>,
)
    requires
        destination < f.blocks.len(),
        args.len() >= 1,
        args.len() - 1 != f.blocks[destination as int].params.len(),
    ensures
        tr_branch_s(c, f, Opcode::Brz, destination, args) == Err::<CtxView, TranslationError>(
            TranslationError::ArityMismatch {
                block: destination,
                expected: f.blocks[destination as int].params.len() as usize,
                got: (args.len() - 1) as usize,
            },
        ),
{
}


/// Whether one instruction is a control-transfer edge into block `b`.
pub open spec fn is_edge_to(inst: InstView, b: usize) -> bool {
    match inst.data {
        InstDataView::Jump { destination, .. } => destination == b,
        InstDataView::Branch { destination, .. } => destination == b,
        _ => false,
    }
}

/// How many of these instructions are edges into block `b`.
pub open spec fn count_edges_insts(insts: Seq<InstView>, b: usize) -> nat
    decreases insts.len(),
{
    if insts.len() == 0 {
        0
    } else {
        (if is_edge_to(insts[0], b) {
            1nat
        } else {
            0nat
        }) + count_edges_insts(insts.drop_first(), b)
    }
}

/// How many edges into block `b` the blocks from `i` on hold.
pub open spec fn count_edges_blocks(f: FunctionView, b: usize, i: int) -> nat
    decreases f.blocks.len() - i,
{
    if i < 0 || i >= f.blocks.len() {
        0
    } else {
        count_edges_insts(f.blocks[i].insts, b) + count_edges_blocks(f, b, i + 1)
    }
}

/// The in-degree of block `b` in the function's control-flow graph,
/// not counting the synthetic entry predecessor.
pub open spec fn edges_to(f: FunctionView, b: usize) -> nat {
    count_edges_blocks(f, b, 0)
}

/// No instruction result id collides with any block parameter id: the
/// value id `v` is produced by no block parameter.
pub open spec fn not_param_value(f: FunctionView, v: usize) -> bool {
    forall|b: int, j: int|
        0 <= b < f.blocks.len() && 0 <= j < f.blocks[b].params.len() ==> (#[trigger] f.blocks[
            b
        ].params[j]).value != v
}

pub open spec fn inst_results_free(f: FunctionView, inst: InstView) -> bool {
    forall|r: int| 0 <= r < inst.results.len() ==> not_param_value(f, #[trigger] inst.results[r])
}

/// Each value is produced at most once: block parameters are pairwise
/// distinct and no instruction result reuses a block parameter's id.
pub open spec fn ssa_producers_unique(f: FunctionView) -> bool {
    &&& forall|b1: int, j1: int, b2: int, j2: int|
        0 <= b1 < f.blocks.len() && 0 <= j1 < f.blocks[b1].params.len() && 0 <= b2 < f.blocks.len()
            && 0 <= j2 < f.blocks[b2].params.len() && (b1 != b2 || j1 != j2) ==> (#[trigger] f.blocks[
            b1
        ].params[j1]).value != (#[trigger] f.blocks[b2].params[j2]).value
    &&& forall|b: int, k: int|
        0 <= b < f.blocks.len() && 0 <= k < f.blocks[b].insts.len() ==> inst_results_free(
            f,
            #[trigger] f.blocks[b].insts[k],
        )
}

/// The environment still holds, for every block parameter, the phi cell
/// the parameter binder created for it.
pub open spec fn env_binding(c: CtxView, f: FunctionView) -> bool {
    forall|b: int, j: int|
        0 <= b < f.blocks.len() && 0 <= j < f.blocks[b].params.len() ==> c.values[(#[trigger] f.blocks[
            b
        ].params[j]).value as int] == Some(TV::Phi { block: b as usize, index: j as usize })
}

/// The state the parameter binder leaves behind and the instruction
/// translator preserves: the memo maps each source block to the target
/// block of the same index, each such block carries one phi per source
/// parameter, and the environment binds each parameter to its phi.
pub open spec fn pass1_shape(c: CtxView, f: FunctionView) -> bool {
    &&& c.memo.len() == f.blocks.len()
    &&& c.values.len() == f.n_values
    &&& c.tfunc.blocks.len() >= f.blocks.len()
    &&& forall|e: int| 0 <= e < f.blocks.len() ==> (#[trigger] c.memo[e]) == Some(e as usize)
    &&& forall|b: int|
        0 <= b < f.blocks.len() ==> (#[trigger] c.tfunc.blocks[b]).phis.len() == f.blocks[
            b
        ].params.len()
    &&& env_binding(c, f)
}

/// The phi incoming counts of blocks `0 .. f.blocks.len()`, compared
/// pointwise between two states: block `d`'s phis from `k` on grew by
/// one, everything else is unchanged.
pub open spec fn counts_grew_at(
    c1: CtxView,
    c2: CtxView,
    f: FunctionView,
    d: usize,
    k: int,
) -> bool {
    forall|b: int, j: int|
        0 <= b < f.blocks.len() && 0 <= j < f.blocks[b].params.len() ==> (#[trigger] c2.tfunc.blocks[
            b
        ].phis[j]).len() == c1.tfunc.blocks[b].phis[j].len() + (if b == d && k <= j {
            1nat
        } else {
            0nat
        })
}

/// Every block's parameter count fits the machine's index type, as it
/// does in any materialized function.
pub open spec fn small_params(f: FunctionView) -> bool {
    forall|b: int|
        0 <= b < f.blocks.len() ==> (#[trigger] f.blocks[b]).params.len() <= usize::MAX
}

/// Stitching the remaining destination parameters (from position `k` on)
/// of block `d` adds exactly one incoming pair to each of their phis,
/// leaves every other phi untouched, and preserves the binder's state.
proof fn lemma_stitch_counts(
    c: CtxView,
    f: FunctionView,
    d: usize,
    k: int,
    pred: usize,
    args: Seq<usize>,
)
    requires
        wf_function(f),
        d < f.blocks.len(),
        pass1_shape(c, f),
        f.blocks[d as int].params.len() <= usize::MAX,
        0 <= k <= f.blocks[d as int].params.len(),
        args.len() == f.blocks[d as int].params.len() - k,
    ensures
        stitch_s(c, pred, f.blocks[d as int].params.skip(k), args) matches Ok(c2) ==> pass1_shape(
            c2,
            f,
        ) && c2.values == c.values && c2.memo == c.memo && c2.current == c.current
            && c2.tfunc.blocks.len() == c.tfunc.blocks.len() && counts_grew_at(c, c2, f, d, k),
    decreases args.len(),
{
    let dparams = f.blocks[d as int].params;
    if args.len() == 0 {
        assert(stitch_s(c, pred, dparams.skip(k), args) == Ok::<CtxView, TranslationError>(c));
    } else {
        assert(dparams.skip(k)[0] == dparams[k]);
        assert(env_binding(c, f));
        assert(c.values[dparams[k].value as int] == Some(
            TV::Phi { block: d, index: k as usize },
        ));
        assert(dparams[k].value < f.n_values) by {
            assert(wf_block(f, f.blocks[d as int]));
        }
        assert((k as usize) as int == k);
        assert(lookup_phi_s(c, dparams[k].value) == Ok::<(usize, usize), TranslationError>(
            (d, k as usize),
        ));
        match lookup_int_s(c, args[0]) {
            Err(_) => {},
            Ok(v) => {
                let inc = Incoming { value: v, pred };
                let c1 = CtxView { tfunc: add_incoming_s(c.tfunc, d, k as usize, inc), ..c };
                assert(k < c.tfunc.blocks[d as int].phis.len());
                assert forall|b: int|
                    0 <= b < f.blocks.len() implies (#[trigger] c1.tfunc.blocks[b]).phis.len()
                    == f.blocks[b].params.len() by {
                    if b != d as int {
                        assert(c1.tfunc.blocks[b] == c.tfunc.blocks[b]);
                    }
                };
                assert(pass1_shape(c1, f));
                assert(dparams.skip(k).drop_first() =~= dparams.skip(k + 1));
                lemma_stitch_counts(c1, f, d, k + 1, pred, args.drop_first());
                match stitch_s(c1, pred, dparams.skip(k + 1), args.drop_first()) {
                    Err(_) => {},
                    Ok(c2) => {
                        assert forall|b: int, j: int|
                            0 <= b < f.blocks.len() && 0 <= j < f.blocks[b].params.len() implies (
                        #[trigger] c2.tfunc.blocks[b].phis[j]).len() == c.tfunc.blocks[b].phis[
                            j
                        ].len() + (if b == d && k <= j {
                            1nat
                        } else {
                            0nat
                        }) by {
                            assert(c2.tfunc.blocks[b].phis[j].len() == c1.tfunc.blocks[b].phis[
                                j
                            ].len() + (if b == d && k + 1 <= j {
                                1nat
                            } else {
                                0nat
                            }));
                            if b == d as int && j == k {
                                assert(c1.tfunc.blocks[b].phis[j] == c.tfunc.blocks[b].phis[
                                    j
                                ].push(inc));
                            } else {
                                if b != d as int {
                                    assert(c1.tfunc.blocks[b] == c.tfunc.blocks[b]);
                                } else {
                                    assert(c1.tfunc.blocks[b].phis[j] == c.tfunc.blocks[b].phis[
                                        j
                                    ]);
                                }
                            }
                        };
                    },
                }
            },
        }
    }
}


/// One translated instruction adds one incoming pair to each phi of its
/// edge's destination and leaves every other phi untouched.
proof fn lemma_inst_counts(c: CtxView, f: FunctionView, inst: InstView)
    requires
        wf_function(f),
        f.blocks.len() <= usize::MAX,
        small_params(f),
        wf_inst(f, inst),
        inst_results_free(f, inst),
        pass1_shape(c, f),
        c.current < c.tfunc.blocks.len(),
    ensures
        tr_inst_s(c, f, inst) matches Ok(c2) ==> pass1_shape(c2, f) && c2.current
            < c2.tfunc.blocks.len() && c2.tfunc.blocks.len() >= c.tfunc.blocks.len() && forall|
            b: int,
            j: int,
        |
            0 <= b < f.blocks.len() && 0 <= j < f.blocks[b].params.len() ==> (#[trigger] c2.tfunc.blocks[
                b
            ].phis[j]).len() == c.tfunc.blocks[b].phis[j].len() + (if is_edge_to(inst, b as usize) {
                1nat
            } else {
                0nat
            }),
{
    match inst.data {
        InstDataView::Binary { opcode, arg0, arg1 } => {
            if opcode == Opcode::Iadd || opcode == Opcode::Isub {
                match lookup_int_s(c, arg0) {
                    Err(_) => {},
                    Ok(lhs) => match lookup_int_s(c, arg1) {
                        Err(_) => {},
                        Ok(rhs) => {
                            let op = if opcode == Opcode::Iadd {
                                BinOp::Add
                            } else {
                                BinOp::Sub
                            };
                            let c1 = emit_s(c, TargetInst::Binary { op, lhs, rhs });
                            lemma_emit_keeps_shape(c, f, TargetInst::Binary { op, lhs, rhs });
                            let c2 = bind_s(
                                c1,
                                inst.results[0],
                                TV::Int(
                                    TargetValue::Inst {
                                        block: c.current,
                                        index: c.tfunc.blocks[c.current as int].insts.len() as usize,
                                    },
                                ),
                            );
                            lemma_bind_free_keeps_shape(c1, f, inst.results[0], TV::Int(
                                TargetValue::Inst {
                                    block: c.current,
                                    index: c.tfunc.blocks[c.current as int].insts.len() as usize,
                                },
                            ));
                            assert(not_param_value(f, inst.results[0]));
                        },
                    },
                }
            }
        },
        InstDataView::UnaryImm { opcode, imm } => {
            if opcode == Opcode::Iconst {
                lemma_bind_free_keeps_shape(c, f, inst.results[0], TV::Int(
                    TargetValue::Const(imm_bits(imm)),
                ));
                assert(not_param_value(f, inst.results[0]));
            }
        },
        InstDataView::Jump { opcode, destination, args } => {
            if opcode == Opcode::Jump {
                assert(c.memo[destination as int] == Some(destination));
                let m = materialize_s(c, destination);
                assert(m.0 == c && m.1 == destination);
                let dparams = f.blocks[destination as int].params;
                if args.len() == dparams.len() {
                    let c2 = emit_s(m.0, TargetInst::Br { dest: m.1 });
                    lemma_emit_keeps_shape(c, f, TargetInst::Br { dest: m.1 });
                    assert(dparams.skip(0) == dparams);
                    lemma_stitch_counts(c2, f, destination, 0, c2.current, args);
                    match stitch_s(c2, c2.current, dparams, args) {
                        Err(_) => {},
                        Ok(c3) => {
                            assert forall|b: int, j: int|
                                0 <= b < f.blocks.len() && 0 <= j < f.blocks[b].params.len() implies (
                            #[trigger] c3.tfunc.blocks[b].phis[j]).len() == c.tfunc.blocks[b].phis[
                                j
                            ].len() + (if is_edge_to(inst, b as usize) {
                                1nat
                            } else {
                                0nat
                            }) by {
                                assert((b as usize) as int == b);
                                if b == destination as int {
                                    assert(is_edge_to(inst, b as usize));
                                } else {
                                    assert(!is_edge_to(inst, b as usize));
                                }
                                assert(c3.tfunc.blocks[b].phis[j].len() == c2.tfunc.blocks[b].phis[
                                    j
                                ].len() + (if b == destination && 0 <= j {
                                    1nat
                                } else {
                                    0nat
                                }));
                                assert(c2.tfunc.blocks[b].phis[j].len() == c.tfunc.blocks[b].phis[
                                    j
                                ].len());
                            };
                        },
                    }
                }
            }
        },
        InstDataView::Branch { opcode, destination, args } => {
            if opcode == Opcode::Brz {
                assert(c.memo[destination as int] == Some(destination));
                let m = materialize_s(c, destination);
                assert(m.0 == c && m.1 == destination);
                let new_bb = m.0.tfunc.blocks.len() as usize;
                let c2 = CtxView { tfunc: append_block_s(m.0.tfunc), ..m.0 };
                lemma_append_keeps_shape(c, f);
                let dparams = f.blocks[destination as int].params;
                if args.len() - 1 == dparams.len() {
                    match lookup_int_s(c2, args[0]) {
                        Err(_) => {},
                        Ok(lhs) => {
                            let curr = c2.current;
                            let cmp_idx = c2.tfunc.blocks[curr as int].insts.len() as usize;
                            let i1 = TargetInst::IntCompare {
                                predicate: IntPredicate::Eq,
                                lhs,
                                rhs: TargetValue::Const(0),
                            };
                            let c3 = emit_s(c2, i1);
                            lemma_emit_keeps_shape(c2, f, i1);
                            let i2 = TargetInst::CondBr {
                                cond: TargetValue::Inst { block: curr, index: cmp_idx },
                                then_block: m.1,
                                else_block: new_bb,
                            };
                            let c4 = emit_s(c3, i2);
                            lemma_emit_keeps_shape(c3, f, i2);
                            assert(dparams.skip(0) == dparams);
                            lemma_stitch_counts(c4, f, destination, 0, curr, args.drop_first());
                            match stitch_s(c4, curr, dparams, args.drop_first()) {
                                Err(_) => {},
                                Ok(c5) => {
                                    let c6 = CtxView { current: new_bb, ..c5 };
                                    assert(c5.tfunc.blocks.len() == c4.tfunc.blocks.len());
                                    assert(new_bb < c6.tfunc.blocks.len());
                                    assert forall|b: int, j: int|
                                        0 <= b < f.blocks.len() && 0 <= j < f.blocks[
                                        b
                                    ].params.len() implies (#[trigger] c6.tfunc.blocks[b].phis[
                                        j
                                    ]).len() == c.tfunc.blocks[b].phis[j].len() + (if is_edge_to(
                                        inst,
                                        b as usize,
                                    ) {
                                        1nat
                                    } else {
                                        0nat
                                    }) by {
                                        assert((b as usize) as int == b);
                                        if b == destination as int {
                                            assert(is_edge_to(inst, b as usize));
                                        } else {
                                            assert(!is_edge_to(inst, b as usize));
                                        }
                                        assert(c5.tfunc.blocks[b].phis[j].len()
                                            == c4.tfunc.blocks[b].phis[j].len() + (if b
                                            == destination && 0 <= j {
                                            1nat
                                        } else {
                                            0nat
                                        }));
                                        assert(c4.tfunc.blocks[b].phis[j].len()
                                            == c3.tfunc.blocks[b].phis[j].len());
                                        assert(c3.tfunc.blocks[b].phis[j].len()
                                            == c2.tfunc.blocks[b].phis[j].len());
                                        assert(c2.tfunc.blocks[b].phis[j].len()
                                            == c.tfunc.blocks[b].phis[j].len());
                                    };
                                },
                            }
                        },
                    }
                }
            }
        },
        InstDataView::MultiAry { opcode, .. } => {
            if opcode == Opcode::Return {
                lemma_emit_keeps_shape(c, f, TargetInst::Ret);
            }
        },
    }
}

/// Emitting an instruction touches no phi and no binding.
proof fn lemma_emit_keeps_shape(c: CtxView, f: FunctionView, inst: TargetInst)
    requires
        pass1_shape(c, f),
        c.current < c.tfunc.blocks.len(),
    ensures
        pass1_shape(emit_s(c, inst), f),
        emit_s(c, inst).tfunc.blocks.len() == c.tfunc.blocks.len(),
        forall|b: int, j: int|
            0 <= b < f.blocks.len() && 0 <= j < f.blocks[b].params.len() ==> (#[trigger] emit_s(
                c,
                inst,
            ).tfunc.blocks[b].phis[j]) == c.tfunc.blocks[b].phis[j],
{
    let c1 = emit_s(c, inst);
    assert forall|b: int| 0 <= b < f.blocks.len() implies (#[trigger] c1.tfunc.blocks[b]).phis
        == c.tfunc.blocks[b].phis by {
        if b != c.current as int {
            assert(c1.tfunc.blocks[b] == c.tfunc.blocks[b]);
        }
    };
}

/// Appending a block touches no existing phi and no binding.
proof fn lemma_append_keeps_shape(c: CtxView, f: FunctionView)
    requires
        pass1_shape(c, f),
    ensures
        pass1_shape(CtxView { tfunc: append_block_s(c.tfunc), ..c }, f),
        append_block_s(c.tfunc).blocks.len() == c.tfunc.blocks.len() + 1,
        forall|b: int, j: int|
            0 <= b < f.blocks.len() && 0 <= j < f.blocks[b].params.len() ==> (#[trigger] append_block_s(
                c.tfunc,
            ).blocks[b].phis[j]) == c.tfunc.blocks[b].phis[j],
{
    let t1 = append_block_s(c.tfunc);
    assert forall|b: int| 0 <= b < f.blocks.len() implies (#[trigger] t1.blocks[b]).phis
        == c.tfunc.blocks[b].phis by {
        assert(t1.blocks[b] == c.tfunc.blocks[b]);
    };
}

/// Binding a value id that no block parameter produces touches no phi
/// and no parameter binding.
proof fn lemma_bind_free_keeps_shape(c: CtxView, f: FunctionView, v: usize, tv: TV)
    requires
        wf_function(f),
        pass1_shape(c, f),
        not_param_value(f, v),
        v < c.values.len(),
    ensures
        pass1_shape(bind_s(c, v, tv), f),
        bind_s(c, v, tv).tfunc == c.tfunc,
{
    let c1 = bind_s(c, v, tv);
    assert forall|b: int, j: int|
        0 <= b < f.blocks.len() && 0 <= j < f.blocks[b].params.len() implies c1.values[(
    #[trigger] f.blocks[b].params[j]).value as int] == Some(
        TV::Phi { block: b as usize, index: j as usize },
    ) by {
        assert(f.blocks[b].params[j].value != v);
        assert(f.blocks[b].params[j].value < f.n_values) by {
            assert(wf_block(f, f.blocks[b]));
        }
    };
}


/// A translated instruction sequence adds, to each phi of each block,
/// exactly one incoming pair per edge in the sequence that targets the
/// phi's block.
proof fn lemma_insts_counts(c: CtxView, f: FunctionView, insts: Seq<InstView>)
    requires
        wf_function(f),
        f.blocks.len() <= usize::MAX,
        small_params(f),
        pass1_shape(c, f),
        c.current < c.tfunc.blocks.len(),
        forall|k: int|
            0 <= k < insts.len() ==> wf_inst(f, #[trigger] insts[k]) && inst_results_free(
                f,
                insts[k],
            ),
    ensures
        tr_insts_s(c, f, insts) matches Ok(c2) ==> pass1_shape(c2, f) && c2.current
            < c2.tfunc.blocks.len() && forall|b: int, j: int|
            0 <= b < f.blocks.len() && 0 <= j < f.blocks[b].params.len() ==> (#[trigger] c2.tfunc.blocks[
                b
            ].phis[j]).len() == c.tfunc.blocks[b].phis[j].len() + count_edges_insts(
                insts,
                b as usize,
            ),
    decreases insts.len(),
{
    if insts.len() == 0 {
    } else {
        match tr_inst_s(c, f, insts[0]) {
            Err(_) => {},
            Ok(c1) => {
                lemma_inst_counts(c, f, insts[0]);
                assert forall|k: int|
                    0 <= k < insts.drop_first().len() implies wf_inst(
                    f,
                    #[trigger] insts.drop_first()[k],
                ) && inst_results_free(f, insts.drop_first()[k]) by {
                    assert(insts.drop_first()[k] == insts[k + 1]);
                };
                lemma_insts_counts(c1, f, insts.drop_first());
                match tr_insts_s(c1, f, insts.drop_first()) {
                    Err(_) => {},
                    Ok(c2) => {
                        assert forall|b: int, j: int|
                            0 <= b < f.blocks.len() && 0 <= j < f.blocks[b].params.len() implies (
                        #[trigger] c2.tfunc.blocks[b].phis[j]).len() == c.tfunc.blocks[b].phis[
                            j
                        ].len() + count_edges_insts(insts, b as usize) by {
                            assert(c2.tfunc.blocks[b].phis[j].len() == c1.tfunc.blocks[b].phis[
                                j
                            ].len() + count_edges_insts(insts.drop_first(), b as usize));
                            assert(c1.tfunc.blocks[b].phis[j].len() == c.tfunc.blocks[b].phis[
                                j
                            ].len() + (if is_edge_to(insts[0], b as usize) {
                                1nat
                            } else {
                                0nat
                            }));
                            assert(count_edges_insts(insts, b as usize) == (if is_edge_to(
                                insts[0],
                                b as usize,
                            ) {
                                1nat
                            } else {
                                0nat
                            }) + count_edges_insts(insts.drop_first(), b as usize));
                        };
                    },
                }
            },
        }
    }
}

/// A translated block adds, to each phi, one incoming pair per edge of
/// that block targeting the phi's block.
proof fn lemma_block_counts(c: CtxView, f: FunctionView, ebb: usize)
    requires
        wf_function(f),
        f.blocks.len() <= usize::MAX,
        small_params(f),
        ssa_producers_unique(f),
        pass1_shape(c, f),
        ebb < f.blocks.len(),
    ensures
        tr_block_s(c, f, ebb) matches Ok(c2) ==> pass1_shape(c2, f) && forall|b: int, j: int|
            0 <= b < f.blocks.len() && 0 <= j < f.blocks[b].params.len() ==> (#[trigger] c2.tfunc.blocks[
                b
            ].phis[j]).len() == c.tfunc.blocks[b].phis[j].len() + count_edges_insts(
                f.blocks[ebb as int].insts,
                b as usize,
            ),
{
    assert(c.memo[ebb as int] == Some(ebb));
    let m = materialize_s(c, ebb);
    assert(m.0 == c && m.1 == ebb);
    let cs = CtxView { current: ebb, ..c };
    assert(cs.current < cs.tfunc.blocks.len());
    assert(pass1_shape(cs, f));
    assert(wf_block(f, f.blocks[ebb as int]));
    assert forall|k: int|
        0 <= k < f.blocks[ebb as int].insts.len() implies wf_inst(
        f,
        #[trigger] f.blocks[ebb as int].insts[k],
    ) && inst_results_free(f, f.blocks[ebb as int].insts[k]) by {
        assert(inst_results_free(f, f.blocks[ebb as int].insts[k]));
    };
    lemma_insts_counts(cs, f, f.blocks[ebb as int].insts);
}

/// Translating the blocks from `i` on adds, to each phi, one incoming
/// pair per edge of those blocks targeting the phi's block.
proof fn lemma_blocks_counts(c: CtxView, f: FunctionView, i: int)
    requires
        wf_function(f),
        f.blocks.len() <= usize::MAX,
        small_params(f),
        ssa_producers_unique(f),
        pass1_shape(c, f),
    ensures
        tr_blocks_s(c, f, i) matches Ok(c2) ==> pass1_shape(c2, f) && forall|b: int, j: int|
            0 <= b < f.blocks.len() && 0 <= j < f.blocks[b].params.len() ==> (#[trigger] c2.tfunc.blocks[
                b
            ].phis[j]).len() == c.tfunc.blocks[b].phis[j].len() + count_edges_blocks(
                f,
                b as usize,
                i,
            ),
    decreases f.blocks.len() - i,
{
    if i < 0 || i >= f.blocks.len() {
    } else {
        match tr_block_s(c, f, i as usize) {
            Err(_) => {},
            Ok(c1) => {
                lemma_block_counts(c, f, i as usize);
                lemma_blocks_counts(c1, f, i + 1);
                match tr_blocks_s(c1, f, i + 1) {
                    Err(_) => {},
                    Ok(c2) => {
                        assert forall|b: int, j: int|
                            0 <= b < f.blocks.len() && 0 <= j < f.blocks[b].params.len() implies (
                        #[trigger] c2.tfunc.blocks[b].phis[j]).len() == c.tfunc.blocks[b].phis[
                            j
                        ].len() + count_edges_blocks(f, b as usize, i) by {
                            assert(c2.tfunc.blocks[b].phis[j].len() == c1.tfunc.blocks[b].phis[
                                j
                            ].len() + count_edges_blocks(f, b as usize, i + 1));
                            assert(c1.tfunc.blocks[b].phis[j].len() == c.tfunc.blocks[b].phis[
                                j
                            ].len() + count_edges_insts(f.blocks[i].insts, b as usize));
                            assert(count_edges_blocks(f, b as usize, i) == count_edges_insts(
                                f.blocks[i].insts,
                                b as usize,
                            ) + count_edges_blocks(f, b as usize, i + 1));
                        };
                    },
                }
            },
        }
    }
}

/// The state the parameter binder builds up: the first `i` blocks are
/// materialized at their own indices, carry one empty phi per parameter,
/// and their parameters are bound; the rest are still unmaterialized.
spec fn pass1_partial(c: CtxView, f: FunctionView, i: int) -> bool {
    &&& c.memo.len() == f.blocks.len()
    &&& c.values.len() == f.n_values
    &&& c.tfunc.blocks.len() == i
    &&& forall|e: int| 0 <= e < i ==> (#[trigger] c.memo[e]) == Some(e as usize)
    &&& forall|e: int| i <= e < f.blocks.len() ==> (#[trigger] c.memo[e]) is None
    &&& forall|b: int|
        0 <= b < i ==> (#[trigger] c.tfunc.blocks[b]).phis.len() == f.blocks[b].params.len()
    &&& forall|b: int, j: int|
        0 <= b < i && 0 <= j < f.blocks[b].params.len() ==> (#[trigger] c.tfunc.blocks[b].phis[
            j
        ]).len() == 0
    &&& forall|b: int, j: int|
        0 <= b < i && 0 <= j < f.blocks[b].params.len() ==> c.values[(#[trigger] f.blocks[b].params[
            j
        ]).value as int] == Some(TV::Phi { block: b as usize, index: j as usize })
}

/// Binding the parameters of block `i` from position `k` on: one fresh
/// empty phi per parameter, each bound in the environment, everything
/// already built preserved.
proof fn lemma_bind_params_shape(c: CtxView, f: FunctionView, i: usize, k: int)
    requires
        wf_function(f),
        small_params(f),
        ssa_producers_unique(f),
        i < f.blocks.len(),
        c.memo.len() == f.blocks.len(),
        c.values.len() == f.n_values,
        c.tfunc.blocks.len() == i + 1,
        forall|e: int| 0 <= e <= i ==> (#[trigger] c.memo[e]) == Some(e as usize),
        forall|e: int| i < e < f.blocks.len() ==> (#[trigger] c.memo[e]) is None,
        forall|b: int|
            0 <= b < i ==> (#[trigger] c.tfunc.blocks[b]).phis.len() == f.blocks[b].params.len(),
        forall|b: int, j: int|
            0 <= b < i && 0 <= j < f.blocks[b].params.len() ==> (#[trigger] c.tfunc.blocks[b].phis[
                j
            ]).len() == 0,
        forall|b: int, j: int|
            0 <= b < i && 0 <= j < f.blocks[b].params.len() ==> c.values[(#[trigger] f.blocks[
                b
            ].params[j]).value as int] == Some(TV::Phi { block: b as usize, index: j as usize }),
        c.tfunc.blocks[i as int].phis.len() == k,
        forall|j: int|
            0 <= j < k ==> (#[trigger] c.tfunc.blocks[i as int].phis[j]).len() == 0,
        forall|j: int|
            0 <= j < k ==> c.values[(#[trigger] f.blocks[i as int].params[j]).value as int] == Some(
                TV::Phi { block: i, index: j as usize },
            ),
        0 <= k <= f.blocks[i as int].params.len(),
    ensures
        ({
            let c2 = bind_params_s(c, i, f.blocks[i as int].params.skip(k));
            &&& c2.memo == c.memo
            &&& c2.values.len() == c.values.len()
            &&& c2.current == c.current
            &&& c2.tfunc.blocks.len() == i + 1
            &&& forall|b: int|
                0 <= b <= i ==> (#[trigger] c2.tfunc.blocks[b]).phis.len() == f.blocks[
                    b
                ].params.len()
            &&& forall|b: int, j: int|
                0 <= b <= i && 0 <= j < f.blocks[b].params.len() ==> (#[trigger] c2.tfunc.blocks[
                    b
                ].phis[j]).len() == 0
            &&& forall|b: int, j: int|
                0 <= b <= i && 0 <= j < f.blocks[b].params.len() ==> c2.values[(#[trigger] f.blocks[
                    b
                ].params[j]).value as int] == Some(
                    TV::Phi { block: b as usize, index: j as usize },
                )
        }),
    decreases f.blocks[i as int].params.len() - k,
{
    let params = f.blocks[i as int].params;
    if params.skip(k).len() == 0 {
    } else {
        assert(params.skip(k)[0] == params[k]);
        assert((k as usize) as int == k);
        let c1 = CtxView { tfunc: build_phi_s(c.tfunc, i), ..c };
        assert(c1.tfunc.blocks[i as int].phis.len() == k + 1);
        assert(c1.tfunc.blocks[i as int].phis[k].len() == 0);
        assert(params[k].value < f.n_values) by {
            assert(wf_block(f, f.blocks[i as int]));
        }
        let c2 = bind_s(c1, params[k].value, TV::Phi { block: i, index: k as usize });
        assert(bind_params_s(c, i, params.skip(k)) == bind_params_s(
            c2,
            i,
            params.skip(k).drop_first(),
        ));
        assert(params.skip(k).drop_first() =~= params.skip(k + 1));
        assert forall|b: int| 0 <= b < i implies (#[trigger] c2.tfunc.blocks[b]).phis
            == c.tfunc.blocks[b].phis by {
            assert(c2.tfunc.blocks[b] == c.tfunc.blocks[b]);
        };
        assert forall|b: int, j: int|
            0 <= b < i && 0 <= j < f.blocks[b].params.len() implies c2.values[(#[trigger] f.blocks[
            b
        ].params[j]).value as int] == Some(TV::Phi { block: b as usize, index: j as usize }) by {
            assert(f.blocks[b].params[j].value != params[k].value);
            assert(f.blocks[b].params[j].value < f.n_values) by {
                assert(wf_block(f, f.blocks[b]));
            }
        };
        assert forall|j: int|
            0 <= j < k + 1 implies c2.values[(#[trigger] f.blocks[i as int].params[
            j
        ]).value as int] == Some(TV::Phi { block: i, index: j as usize }) by {
            if j < k {
                assert(params[j].value != params[k].value);
                assert(params[j].value < f.n_values) by {
                    assert(wf_block(f, f.blocks[i as int]));
                }
            }
        };
        lemma_bind_params_shape(c2, f, i, k + 1);
    }
}

/// The first pass establishes the binder's state: identity memo, one
/// empty phi per block parameter, the environment bound.
proof fn lemma_pass1(c: CtxView, f: FunctionView, i: int)
    requires
        wf_function(f),
        f.blocks.len() <= usize::MAX,
        small_params(f),
        ssa_producers_unique(f),
        pass1_partial(c, f, i),
        0 <= i <= f.blocks.len(),
    ensures
        pass1_partial(bind_all_params_s(c, f, i), f, f.blocks.len() as int),
    decreases f.blocks.len() - i,
{
    if i >= f.blocks.len() {
    } else {
        assert(c.memo[i] is None);
        assert((i as usize) as int == i);
        let m = materialize_s(c, i as usize);
        let cm = m.0;
        assert(cm.tfunc.blocks.len() == i + 1);
        assert(cm.tfunc.blocks[i] == empty_block_v());
        assert forall|e: int| 0 <= e <= i implies (#[trigger] cm.memo[e]) == Some(e as usize) by {
            if e < i {
                assert(cm.memo[e] == c.memo[e]);
            }
        };
        assert forall|b: int| 0 <= b < i implies (#[trigger] cm.tfunc.blocks[b]).phis
            == c.tfunc.blocks[b].phis by {
            assert(cm.tfunc.blocks[b] == c.tfunc.blocks[b]);
        };
        assert(f.blocks[i].params.skip(0) == f.blocks[i].params);
        lemma_bind_params_shape(cm, f, i as usize, 0);
        let c2 = bind_params_s(cm, i as usize, f.blocks[i].params);
        assert(bind_block_params_s(c, f, i as usize) == c2);
        assert(pass1_partial(c2, f, i + 1));
        lemma_pass1(c2, f, i + 1);
    }
}

/// Binding the formal arguments from position `i` on adds exactly one
/// incoming pair to each remaining entry phi and touches nothing else.
proof fn lemma_entry_args_counts(c: CtxView, f: FunctionView, pred: usize, i: int)
    requires
        wf_function(f),
        small_params(f),
        pass1_shape(c, f),
        0 <= i <= f.blocks[f.entry as int].params.len(),
    ensures
        bind_entry_args_s(c, pred, f.blocks[f.entry as int].params, i) matches Ok(c4)
            ==> pass1_shape(c4, f) && c4.tfunc.blocks.len() == c.tfunc.blocks.len() && forall|
            b: int,
            j: int,
        |
            0 <= b < f.blocks.len() && 0 <= j < f.blocks[b].params.len() ==> (#[trigger] c4.tfunc.blocks[
                b
            ].phis[j]).len() == c.tfunc.blocks[b].phis[j].len() + (if b == f.entry && i <= j {
                1nat
            } else {
                0nat
            }),
    decreases f.blocks[f.entry as int].params.len() - i,
{
    let eparams = f.blocks[f.entry as int].params;
    if i >= eparams.len() {
    } else {
        assert((i as usize) as int == i);
        assert(c.values[eparams[i].value as int] == Some(
            TV::Phi { block: f.entry, index: i as usize },
        ));
        assert(eparams[i].value < f.n_values) by {
            assert(wf_block(f, f.blocks[f.entry as int]));
        }
        assert(lookup_phi_s(c, eparams[i].value) == Ok::<(usize, usize), TranslationError>(
            (f.entry, i as usize),
        ));
        let inc = Incoming { value: TargetValue::Arg(i as usize), pred };
        let c1 = CtxView { tfunc: add_incoming_s(c.tfunc, f.entry, i as usize, inc), ..c };
        assert(i < c.tfunc.blocks[f.entry as int].phis.len());
        assert forall|b: int|
            0 <= b < f.blocks.len() implies (#[trigger] c1.tfunc.blocks[b]).phis.len()
            == f.blocks[b].params.len() by {
            if b != f.entry as int {
                assert(c1.tfunc.blocks[b] == c.tfunc.blocks[b]);
            }
        };
        assert(pass1_shape(c1, f));
        lemma_entry_args_counts(c1, f, pred, i + 1);
        match bind_entry_args_s(c1, pred, eparams, i + 1) {
            Err(_) => {},
            Ok(c4) => {
                assert forall|b: int, j: int|
                    0 <= b < f.blocks.len() && 0 <= j < f.blocks[b].params.len() implies (
                #[trigger] c4.tfunc.blocks[b].phis[j]).len() == c.tfunc.blocks[b].phis[j].len() + (
                if b == f.entry && i <= j {
                    1nat
                } else {
                    0nat
                }) by {
                    assert(c4.tfunc.blocks[b].phis[j].len() == c1.tfunc.blocks[b].phis[j].len() + (
                    if b == f.entry && i + 1 <= j {
                        1nat
                    } else {
                        0nat
                    }));
                    if b == f.entry as int && j == i {
                        assert(c1.tfunc.blocks[b].phis[j] == c.tfunc.blocks[b].phis[j].push(inc));
                    } else {
                        if b != f.entry as int {
                            assert(c1.tfunc.blocks[b] == c.tfunc.blocks[b]);
                        } else {
                            assert(c1.tfunc.blocks[b].phis[j] == c.tfunc.blocks[b].phis[j]);
                        }
                    }
                };
            },
        }
    }
}

/// Phi completeness: when a function translates successfully, every
/// phi of every source block records exactly one incoming pair per
/// control-transfer edge targeting its block, plus one for the synthetic
/// entry predecessor on the entry block. The function's values must each
/// have a single producer, as the data model demands of well-formed SSA.
pub proof fn lemma_phi_completeness(f: FunctionView, tf: TargetFunctionView)
    requires
        wf_function(f),
        ssa_producers_unique(f),
        f.blocks.len() <= usize::MAX,
        small_params(f),
        translate_function_s(f) == Ok::<TargetFunctionView, TranslationError>(tf),
    ensures
        forall|b: int, j: int|
            0 <= b < f.blocks.len() && 0 <= j < f.blocks[b].params.len() ==> (#[trigger] tf.blocks[
                b
            ].phis[j]).len() == edges_to(f, b as usize) + (if b == f.entry {
                1nat
            } else {
                0nat
            }),
{
    let tf0 = create_func_s(f)->Ok_0;
    let c0 = init_ctx_s(tf0, f);
    assert(pass1_partial(c0, f, 0)) by {
        assert forall|e: int| 0 <= e < f.blocks.len() implies (#[trigger] c0.memo[e]) is None by {
            assert(c0.memo[e] == Seq::new(f.blocks.len(), |x: int| None::<usize>)[e]);
        };
    }
    lemma_pass1(c0, f, 0);
    let c1 = bind_all_params_s(c0, f, 0);
    assert(pass1_shape(c1, f));
    lemma_blocks_counts(c1, f, 0);
    let c2 = tr_blocks_s(c1, f, 0)->Ok_0;
    assert(bind_entry_s(c2, f) == Ok::<TargetFunctionView, TranslationError>(tf));
    let eparams = f.blocks[f.entry as int].params;
    let ne = c2.tfunc.blocks.len() as usize;
    let cn = CtxView { tfunc: append_block_s(c2.tfunc), current: ne, ..c2 };
    assert(cn.memo[f.entry as int] == Some(f.entry));
    let m = materialize_s(cn, f.entry);
    assert(m.0 == cn && m.1 == f.entry);
    assert forall|b: int| 0 <= b < f.blocks.len() implies (#[trigger] cn.tfunc.blocks[b]).phis
        == c2.tfunc.blocks[b].phis by {
        assert(cn.tfunc.blocks[b] == c2.tfunc.blocks[b]);
    };
    assert(pass1_shape(cn, f));
    assert(ne < cn.tfunc.blocks.len());
    let c3 = emit_s(cn, TargetInst::Br { dest: f.entry });
    lemma_emit_keeps_shape(cn, f, TargetInst::Br { dest: f.entry });
    lemma_entry_args_counts(c3, f, ne, 0);
    match bind_entry_args_s(c3, ne, eparams, 0) {
        Err(_) => {},
        Ok(c4) => {
            assert(tf == (TargetFunctionView { entry: Some(ne), ..c4.tfunc }));
            assert forall|b: int, j: int|
                0 <= b < f.blocks.len() && 0 <= j < f.blocks[b].params.len() implies (
            #[trigger] tf.blocks[b].phis[j]).len() == edges_to(f, b as usize) + (if b == f.entry {
                1nat
            } else {
                0nat
            }) by {
                assert(tf.blocks[b].phis[j].len() == c4.tfunc.blocks[b].phis[j].len());
                assert(c4.tfunc.blocks[b].phis[j].len() == c3.tfunc.blocks[b].phis[j].len() + (
                if b == f.entry && 0 <= j {
                    1nat
                } else {
                    0nat
                }));
                assert(c3.tfunc.blocks[b].phis[j] == cn.tfunc.blocks[b].phis[j]);
                assert(cn.tfunc.blocks[b].phis == c2.tfunc.blocks[b].phis);
                assert(c2.tfunc.blocks[b].phis[j].len() == c1.tfunc.blocks[b].phis[j].len()
                    + count_edges_blocks(f, b as usize, 0));
                assert(c1.tfunc.blocks[b].phis[j].len() == 0);
            };
        },
    }
}

} // verus!
