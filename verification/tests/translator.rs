use cton2llvm::ir::{Block, BlockParam, CtonModule, Function, Inst, InstData, Opcode, Ty};
use cton2llvm::target::{BinOp, Incoming, IntPredicate, TargetInst, TargetValue};
use cton2llvm::translator::{translate, translate_function, TranslationError};

fn param(value: usize) -> BlockParam {
    BlockParam { value, ty: Ty::I64 }
}

fn inst(data: InstData, results: Vec<usize>) -> Inst {
    Inst { data, results }
}

fn ret() -> Inst {
    inst(InstData::MultiAry { opcode: Opcode::Return, args: vec![] }, vec![])
}

/// One block, two integer parameters, one add, one return.
fn straight_line_function() -> Function {
    Function {
        name: b"add2".to_vec(),
        params: vec![Ty::I64, Ty::I64],
        entry: 0,
        blocks: vec![Block {
            params: vec![param(0), param(1)],
            insts: vec![
                inst(InstData::Binary { opcode: Opcode::Iadd, arg0: 0, arg1: 1 }, vec![2]),
                ret(),
            ],
        }],
        n_values: 3,
    }
}

#[test]
fn straight_line_round_trip() {
    let tf = translate_function(&straight_line_function()).expect("translated function");

    assert_eq!(tf.name, b"add2".to_vec());
    assert_eq!(tf.n_params, 2);
    // The source block plus the synthetic entry block.
    assert_eq!(tf.blocks.len(), 2);
    assert_eq!(tf.entry, Some(1));

    // The only real block computes the sum of the two parameter phis and
    // returns.
    let b0 = &tf.blocks[0];
    assert_eq!(b0.phis.len(), 2);
    assert_eq!(
        b0.insts,
        vec![
            TargetInst::Binary {
                op: BinOp::Add,
                lhs: TargetValue::Phi { block: 0, index: 0 },
                rhs: TargetValue::Phi { block: 0, index: 1 },
            },
            TargetInst::Ret,
        ]
    );

    // The synthetic entry block only jumps into the real entry block.
    let b1 = &tf.blocks[1];
    assert_eq!(b1.phis.len(), 0);
    assert_eq!(b1.insts, vec![TargetInst::Br { dest: 0 }]);
}

#[test]
fn entry_binding_in_declared_order() {
    let module = CtonModule { functions: vec![straight_line_function()] };
    let tm = translate(module).expect("translated module");
    assert_eq!(tm.functions.len(), 1);
    let tf = &tm.functions[0];

    // Each entry phi receives exactly one incoming pair, sourced from the
    // synthetic predecessor block, in parameter-declaration order.
    let entry = tf.entry.expect("entry block bound");
    let b0 = &tf.blocks[0];
    assert_eq!(b0.phis[0].incoming, vec![Incoming { value: TargetValue::Arg(0), pred: entry }]);
    assert_eq!(b0.phis[1].incoming, vec![Incoming { value: TargetValue::Arg(1), pred: entry }]);
}

/// B0(x) branches to B1 if x is zero, else falls through to a fresh
/// continuation that jumps to B1; B1 returns.
fn conditional_function() -> Function {
    Function {
        name: b"cond".to_vec(),
        params: vec![Ty::I64],
        entry: 0,
        blocks: vec![
            Block {
                params: vec![param(0)],
                insts: vec![
                    inst(
                        InstData::Branch { opcode: Opcode::Brz, destination: 1, args: vec![0] },
                        vec![],
                    ),
                    inst(
                        InstData::Jump { opcode: Opcode::Jump, destination: 1, args: vec![] },
                        vec![],
                    ),
                ],
            },
            Block { params: vec![], insts: vec![ret()] },
        ],
        n_values: 1,
    }
}

#[test]
fn conditional_branch_scenario() {
    let tf = translate_function(&conditional_function()).expect("translated function");

    // Blocks: B0, B1, the fresh continuation, and the synthetic entry.
    assert_eq!(tf.blocks.len(), 4);
    assert_eq!(tf.entry, Some(3));

    // B0 compares x against zero and transfers to exactly two successors:
    // B1 and the freshly created continuation block.
    let b0 = &tf.blocks[0];
    assert_eq!(
        b0.insts,
        vec![
            TargetInst::IntCompare {
                predicate: IntPredicate::Eq,
                lhs: TargetValue::Phi { block: 0, index: 0 },
                rhs: TargetValue::Const(0),
            },
            TargetInst::CondBr {
                cond: TargetValue::Inst { block: 0, index: 0 },
                then_block: 1,
                else_block: 2,
            },
        ]
    );

    // B1 has no parameters, so it needs no incoming bindings.
    let b1 = &tf.blocks[1];
    assert_eq!(b1.phis.len(), 0);
    assert_eq!(b1.insts, vec![TargetInst::Ret]);

    // The continuation precedes the jump to B1.
    let cont = &tf.blocks[2];
    assert_eq!(cont.phis.len(), 0);
    assert_eq!(cont.insts, vec![TargetInst::Br { dest: 1 }]);
}

#[test]
fn iconst_minus_one_is_all_ones() {
    // An Iconst of -1 must bind its result to the unsigned 64-bit pattern
    // 0xFFFFFFFFFFFFFFFF, observed here as the operands of the add.
    let f = Function {
        name: b"c".to_vec(),
        params: vec![],
        entry: 0,
        blocks: vec![Block {
            params: vec![],
            insts: vec![
                inst(InstData::UnaryImm { opcode: Opcode::Iconst, imm: -1 }, vec![0]),
                inst(InstData::Binary { opcode: Opcode::Iadd, arg0: 0, arg1: 0 }, vec![1]),
                ret(),
            ],
        }],
        n_values: 2,
    };
    let tf = translate_function(&f).expect("translated function");
    assert_eq!(
        tf.blocks[0].insts[0],
        TargetInst::Binary {
            op: BinOp::Add,
            lhs: TargetValue::Const(0xFFFF_FFFF_FFFF_FFFF),
            rhs: TargetValue::Const(0xFFFF_FFFF_FFFF_FFFF),
        }
    );
}

#[test]
fn iconst_positive_pattern() {
    let f = Function {
        name: b"c".to_vec(),
        params: vec![],
        entry: 0,
        blocks: vec![Block {
            params: vec![],
            insts: vec![
                inst(InstData::UnaryImm { opcode: Opcode::Iconst, imm: 7 }, vec![0]),
                inst(InstData::Binary { opcode: Opcode::Isub, arg0: 0, arg1: 0 }, vec![1]),
                ret(),
            ],
        }],
        n_values: 2,
    };
    let tf = translate_function(&f).expect("translated function");
    assert_eq!(
        tf.blocks[0].insts[0],
        TargetInst::Binary {
            op: BinOp::Sub,
            lhs: TargetValue::Const(7),
            rhs: TargetValue::Const(7),
        }
    );
}

#[test]
fn block_referenced_twice_gets_one_handle() {
    // B2 is referenced both by the conditional branch in B0 and by the
    // jump in B1: both transfers must name the same target block.
    let f = Function {
        name: b"diamond".to_vec(),
        params: vec![Ty::I64],
        entry: 0,
        blocks: vec![
            Block {
                params: vec![param(0)],
                insts: vec![
                    inst(
                        InstData::Branch { opcode: Opcode::Brz, destination: 2, args: vec![0] },
                        vec![],
                    ),
                    inst(
                        InstData::Jump { opcode: Opcode::Jump, destination: 1, args: vec![] },
                        vec![],
                    ),
                ],
            },
            Block {
                params: vec![],
                insts: vec![inst(
                    InstData::Jump { opcode: Opcode::Jump, destination: 2, args: vec![] },
                    vec![],
                )],
            },
            Block { params: vec![], insts: vec![ret()] },
        ],
        n_values: 1,
    };
    let tf = translate_function(&f).expect("translated function");

    let branch_target = match tf.blocks[0].insts[1] {
        TargetInst::CondBr { then_block, .. } => then_block,
        ref other => panic!("expected a conditional transfer, got {:?}", other),
    };
    let jump_target = match tf.blocks[1].insts[0] {
        TargetInst::Br { dest } => dest,
        ref other => panic!("expected an unconditional transfer, got {:?}", other),
    };
    assert_eq!(branch_target, jump_target);
    assert_eq!(tf.blocks[branch_target].insts, vec![TargetInst::Ret]);
}

#[test]
fn jump_arguments_fill_destination_phis() {
    // B0(x) jumps to B1(y) passing x; B1's phi must record exactly one
    // incoming pair, from B0, carrying B0's parameter phi. Together with
    // the entry binding, every phi's incoming count equals the block's
    // in-degree.
    let f = Function {
        name: b"thread".to_vec(),
        params: vec![Ty::I64],
        entry: 0,
        blocks: vec![
            Block {
                params: vec![param(0)],
                insts: vec![inst(
                    InstData::Jump { opcode: Opcode::Jump, destination: 1, args: vec![0] },
                    vec![],
                )],
            },
            Block { params: vec![param(1)], insts: vec![ret()] },
        ],
        n_values: 2,
    };
    let tf = translate_function(&f).expect("translated function");

    // In-degree of B1 is one (the jump from B0).
    assert_eq!(
        tf.blocks[1].phis[0].incoming,
        vec![Incoming { value: TargetValue::Phi { block: 0, index: 0 }, pred: 0 }]
    );
    // In-degree of the entry block B0 is one (the synthetic predecessor).
    assert_eq!(
        tf.blocks[0].phis[0].incoming,
        vec![Incoming { value: TargetValue::Arg(0), pred: 2 }]
    );
    assert_eq!(tf.entry, Some(2));
}

#[test]
fn unsupported_opcode_is_reported() {
    let f = Function {
        name: b"mul".to_vec(),
        params: vec![],
        entry: 0,
        blocks: vec![Block {
            params: vec![],
            insts: vec![
                inst(InstData::Binary { opcode: Opcode::Imul, arg0: 0, arg1: 0 }, vec![0]),
                ret(),
            ],
        }],
        n_values: 1,
    };
    assert_eq!(
        translate_function(&f),
        Err(TranslationError::UnsupportedOpcode(Opcode::Imul))
    );
}

#[test]
fn unsupported_branch_and_jump_opcodes_are_reported() {
    let f = Function {
        name: b"b".to_vec(),
        params: vec![],
        entry: 0,
        blocks: vec![Block {
            params: vec![],
            insts: vec![
                inst(
                    InstData::Branch { opcode: Opcode::Brnz, destination: 0, args: vec![0] },
                    vec![],
                ),
                ret(),
            ],
        }],
        n_values: 1,
    };
    assert_eq!(
        translate_function(&f),
        Err(TranslationError::UnsupportedOpcode(Opcode::Brnz))
    );

    let g = Function {
        name: b"g".to_vec(),
        params: vec![],
        entry: 0,
        blocks: vec![Block {
            params: vec![],
            insts: vec![
                inst(
                    InstData::Jump { opcode: Opcode::Fallthrough, destination: 0, args: vec![] },
                    vec![],
                ),
                ret(),
            ],
        }],
        n_values: 1,
    };
    assert_eq!(
        translate_function(&g),
        Err(TranslationError::UnsupportedOpcode(Opcode::Fallthrough))
    );

    let h = Function {
        name: b"h".to_vec(),
        params: vec![],
        entry: 0,
        blocks: vec![Block {
            params: vec![],
            insts: vec![inst(
                InstData::MultiAry { opcode: Opcode::Call, args: vec![] },
                vec![],
            )],
        }],
        n_values: 1,
    };
    assert_eq!(
        translate_function(&h),
        Err(TranslationError::UnsupportedOpcode(Opcode::Call))
    );
}

#[test]
fn undefined_value_is_reported() {
    // Value 7 is never bound: referencing it violates the bind-before-use
    // invariant and must be reported, not skipped.
    let f = Function {
        name: b"u".to_vec(),
        params: vec![],
        entry: 0,
        blocks: vec![Block {
            params: vec![],
            insts: vec![
                inst(InstData::Binary { opcode: Opcode::Iadd, arg0: 7, arg1: 7 }, vec![0]),
                ret(),
            ],
        }],
        n_values: 1,
    };
    assert_eq!(translate_function(&f), Err(TranslationError::UndefinedValue(7)));
}

#[test]
fn jump_arity_mismatch_is_reported() {
    // The jump passes no argument but B1 declares one parameter.
    let f = Function {
        name: b"a".to_vec(),
        params: vec![],
        entry: 0,
        blocks: vec![
            Block {
                params: vec![],
                insts: vec![inst(
                    InstData::Jump { opcode: Opcode::Jump, destination: 1, args: vec![] },
                    vec![],
                )],
            },
            Block { params: vec![param(0)], insts: vec![ret()] },
        ],
        n_values: 1,
    };
    assert_eq!(
        translate_function(&f),
        Err(TranslationError::ArityMismatch { block: 1, expected: 1, got: 0 })
    );
}

#[test]
fn branch_arity_mismatch_is_reported() {
    // Beyond its condition, the branch passes one argument but B1
    // declares no parameter.
    let f = Function {
        name: b"a".to_vec(),
        params: vec![Ty::I64],
        entry: 0,
        blocks: vec![
            Block {
                params: vec![param(0)],
                insts: vec![
                    inst(
                        InstData::Branch { opcode: Opcode::Brz, destination: 1, args: vec![0, 0] },
                        vec![],
                    ),
                    ret(),
                ],
            },
            Block { params: vec![], insts: vec![ret()] },
        ],
        n_values: 1,
    };
    assert_eq!(
        translate_function(&f),
        Err(TranslationError::ArityMismatch { block: 1, expected: 0, got: 1 })
    );
}

#[test]
fn entry_parameter_count_is_validated() {
    // One formal parameter, but the entry block declares none.
    let f = Function {
        name: b"e".to_vec(),
        params: vec![Ty::I64],
        entry: 0,
        blocks: vec![Block { params: vec![], insts: vec![ret()] }],
        n_values: 0,
    };
    assert_eq!(
        translate_function(&f),
        Err(TranslationError::ArityMismatch { block: 0, expected: 0, got: 1 })
    );
}

#[test]
fn malformed_external_name_is_reported() {
    let f = Function {
        name: vec![0xFF, b'x'],
        params: vec![],
        entry: 0,
        blocks: vec![Block { params: vec![], insts: vec![ret()] }],
        n_values: 0,
    };
    assert_eq!(translate_function(&f), Err(TranslationError::MalformedExternalName));
}

#[test]
fn module_translates_functions_in_order() {
    let mut f = straight_line_function();
    f.name = b"first".to_vec();
    let mut g = conditional_function();
    g.name = b"second".to_vec();
    let tm = translate(CtonModule { functions: vec![f, g] }).expect("translated module");
    assert_eq!(tm.functions.len(), 2);
    assert_eq!(tm.functions[0].name, b"first".to_vec());
    assert_eq!(tm.functions[1].name, b"second".to_vec());
}

#[test]
fn module_translation_fails_fast() {
    let good = straight_line_function();
    let bad = Function {
        name: vec![0xFF],
        params: vec![],
        entry: 0,
        blocks: vec![Block { params: vec![], insts: vec![ret()] }],
        n_values: 0,
    };
    assert_eq!(
        translate(CtonModule { functions: vec![good, bad] }),
        Err(TranslationError::MalformedExternalName)
    );
}

#[test]
fn empty_module_translates_to_empty_module() {
    let tm = translate(CtonModule { functions: vec![] }).expect("translated module");
    assert_eq!(tm.functions.len(), 0);
}

#[test]
fn phi_gets_one_incoming_per_edge() {
    // B1 has in-degree two: the taken edge of the branch in B0 and the
    // jump in the branch's continuation. Its phi must record exactly two
    // incoming pairs, one per predecessor edge.
    let f = Function {
        name: b"twice".to_vec(),
        params: vec![Ty::I64],
        entry: 0,
        blocks: vec![
            Block {
                params: vec![param(0)],
                insts: vec![
                    inst(
                        InstData::Branch { opcode: Opcode::Brz, destination: 1, args: vec![0, 0] },
                        vec![],
                    ),
                    inst(
                        InstData::Jump { opcode: Opcode::Jump, destination: 1, args: vec![0] },
                        vec![],
                    ),
                ],
            },
            Block { params: vec![param(1)], insts: vec![ret()] },
        ],
        n_values: 2,
    };
    let tf = translate_function(&f).expect("translated function");

    // Blocks: B0, B1, the branch continuation, the synthetic entry.
    assert_eq!(tf.blocks.len(), 4);
    let x = TargetValue::Phi { block: 0, index: 0 };
    assert_eq!(
        tf.blocks[1].phis[0].incoming,
        vec![Incoming { value: x, pred: 0 }, Incoming { value: x, pred: 2 }]
    );
}
