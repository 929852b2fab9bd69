use cfg_to_ast::ast::{Assign, BinaryOp, Block, Call, LValue, Literal, RValue, RcLocal, Return, Statement};
use cfg_to_ast::cfg::{
    reachable_nodes, BasicBlock, Function, Inner, InstructionIndex, InstructionLocation, Phi, Terminator, ValueId,
};
use cfg_to_ast::def_use::DefUse;
use cfg_to_ast::error::LiftError;
use cfg_to_ast::inline::{
    can_inline_at, inline_at, inline_expressions, substitute, Location, Reference, SsaDefUse,
};
use cfg_to_ast::lifter::{lift, Lifter, Link};

fn bb(inner: Vec<Inner>, terminator: Option<Terminator>) -> BasicBlock {
    BasicBlock { phi_instructions: vec![], inner_instructions: inner, terminator }
}

fn local(id: u64) -> RcLocal {
    RcLocal { id }
}

fn var(id: u64) -> RValue {
    RValue::Local(local(id))
}

fn assign(target: u64, value: RValue) -> Statement {
    Statement::Assign(Assign { left: vec![LValue::Local(local(target))], right: vec![value], prefix: false })
}

fn bin(op: BinaryOp, a: RValue, b: RValue) -> RValue {
    RValue::Binary(op, Box::new(a), Box::new(b))
}

fn ret(values: Vec<RValue>) -> Statement {
    Statement::Return(Return { values })
}

#[test]
fn empty_function_lifts_to_a_bare_return() {
    let f = Function { blocks: vec![bb(vec![], Some(Terminator::Return(vec![])))], entry: 0 };
    let lifter = Lifter::new(&f);
    assert_eq!(lifter.lift_block(0), Ok(Block(vec![ret(vec![])])));
    assert_eq!(lift(&f, &vec![None]), Ok(vec![(0, Link::Terminal)]));
}

#[test]
fn constant_load_lifts_to_an_assignment() {
    let f = Function {
        blocks: vec![bb(
            vec![Inner::LoadConstant { dest: ValueId(0), constant: Literal::Number(42) }],
            Some(Terminator::Return(vec![])),
        )],
        entry: 0,
    };
    let lifter = Lifter::new(&f);
    assert_eq!(lifter.lift_block(0), Ok(Block(vec![assign(0, RValue::Literal(Literal::Number(42))), ret(vec![])])));
}

#[test]
fn move_and_branch_lift() {
    let f = Function {
        blocks: vec![
            bb(
                vec![
                    Inner::Move { dest: ValueId(2), source: ValueId(1) },
                    Inner::Binary { dest: ValueId(3), op: BinaryOp::Add, lhs: ValueId(1), rhs: ValueId(2) },
                ],
                Some(Terminator::ConditionalJump { condition: ValueId(2), true_branch: 1, false_branch: 1 }),
            ),
            bb(vec![], Some(Terminator::Return(vec![]))),
        ],
        entry: 0,
    };
    let body = Lifter::new(&f).lift_block(0).unwrap();
    assert_eq!(body.0.len(), 3);
    assert_eq!(body.0[0], assign(2, var(1)));
    assert_eq!(body.0[1], assign(3, bin(BinaryOp::Add, var(1), var(2))));
    match &body.0[2] {
        Statement::If(x) => {
            assert_eq!(x.condition, var(2));
            assert!(x.then_block.0.is_empty() && x.else_block.0.is_empty());
        },
        other => panic!("expected an if, got {:?}", other),
    }
}

#[test]
fn block_without_terminator_is_malformed() {
    let f = Function { blocks: vec![bb(vec![], None)], entry: 0 };
    assert_eq!(Lifter::new(&f).lift_block(0), Err(LiftError::MalformedAst));
}

#[test]
fn loop_with_back_edge_links_header_body_and_exit() {
    let f = Function {
        blocks: vec![
            bb(vec![], Some(Terminator::ConditionalJump { condition: ValueId(0), true_branch: 1, false_branch: 2 })),
            bb(vec![], Some(Terminator::UnconditionalJump(0))),
            bb(vec![], Some(Terminator::Return(vec![]))),
        ],
        entry: 0,
    };
    let links = lift(&f, &vec![Some(2), Some(0), None]).unwrap();
    assert_eq!(
        links,
        vec![(0, Link::If(1, Some(2), Some(2))), (1, Link::Terminal), (2, Link::Terminal)]
    );
}

#[test]
fn loop_without_exit_does_not_extend_into_itself() {
    let f = Function { blocks: vec![bb(vec![], Some(Terminator::UnconditionalJump(0)))], entry: 0 };
    assert_eq!(lift(&f, &vec![None]), Ok(vec![(0, Link::Terminal)]));
}

#[test]
fn straight_line_extends() {
    let f = Function {
        blocks: vec![
            bb(vec![], Some(Terminator::UnconditionalJump(1))),
            bb(vec![], Some(Terminator::Return(vec![]))),
        ],
        entry: 0,
    };
    assert_eq!(lift(&f, &vec![Some(1), None]), Ok(vec![(0, Link::Extend(1)), (1, Link::Terminal)]));
}

#[test]
fn branch_without_join_is_irreducible() {
    let f = Function {
        blocks: vec![
            bb(vec![], Some(Terminator::ConditionalJump { condition: ValueId(0), true_branch: 1, false_branch: 2 })),
            bb(vec![], Some(Terminator::UnconditionalJump(1))),
            bb(vec![], Some(Terminator::UnconditionalJump(2))),
        ],
        entry: 0,
    };
    assert_eq!(lift(&f, &vec![None, None, None]), Err(LiftError::Irreducible));
}

fn at(node: usize, index: InstructionIndex) -> InstructionLocation {
    InstructionLocation { node, index }
}

fn diamond() -> Function {
    Function {
        blocks: vec![
            bb(
                vec![Inner::LoadConstant { dest: ValueId(0), constant: Literal::Boolean(true) }],
                Some(Terminator::ConditionalJump { condition: ValueId(0), true_branch: 1, false_branch: 2 }),
            ),
            bb(vec![Inner::Move { dest: ValueId(1), source: ValueId(0) }], Some(Terminator::UnconditionalJump(3))),
            bb(vec![Inner::Move { dest: ValueId(2), source: ValueId(0) }], Some(Terminator::UnconditionalJump(3))),
            BasicBlock {
                phi_instructions: vec![Phi { dest: ValueId(3), incoming: vec![(1, ValueId(1)), (2, ValueId(2))] }],
                inner_instructions: vec![],
                terminator: Some(Terminator::Return(vec![ValueId(3)])),
            },
        ],
        entry: 0,
    }
}

#[test]
fn def_use_records_reads_and_single_writes() {
    let f = diamond();
    let du = DefUse::new(&f);
    let v0 = du.get(ValueId(0)).unwrap();
    assert_eq!(v0.writes, vec![at(0, InstructionIndex::Inner(0))]);
    assert_eq!(v0.reads.len(), 3);
    assert!(v0.reads.contains(&at(0, InstructionIndex::Terminator)));
    assert!(v0.reads.contains(&at(1, InstructionIndex::Inner(0))));
    assert!(v0.reads.contains(&at(2, InstructionIndex::Inner(0))));
    let v3 = du.get(ValueId(3)).unwrap();
    assert_eq!(v3.writes, vec![at(3, InstructionIndex::Phi(0))]);
    assert_eq!(v3.reads, vec![at(3, InstructionIndex::Terminator)]);
    for v in du.values() {
        assert!(du.get(v).unwrap().writes.len() <= 1);
    }
    assert!(du.get(ValueId(9)).is_none());
}

#[test]
fn def_use_update_block_replaces_one_node() {
    let mut f = diamond();
    let mut du = DefUse::new(&f);
    f.blocks[1] = bb(vec![], Some(Terminator::UnconditionalJump(3)));
    du.update_block(&f.blocks[1], 1);
    let v1 = du.get(ValueId(1)).unwrap();
    assert!(v1.writes.is_empty());
    assert_eq!(v1.reads, vec![at(3, InstructionIndex::Phi(0))]);
    assert_eq!(du.get(ValueId(0)).unwrap().reads.len(), 2);
    du.remove_unused();
    assert!(du.get(ValueId(1)).is_some());
}

#[test]
fn def_use_phi_update_and_remove_unused() {
    let mut f = diamond();
    let mut du = DefUse::new(&f);
    f.blocks[3].phi_instructions[0].incoming = vec![(1, ValueId(1))];
    du.update_block_phi(&f.blocks[3], 3);
    assert!(du.get(ValueId(2)).unwrap().reads.is_empty());
    f.blocks[2] = bb(vec![], Some(Terminator::UnconditionalJump(3)));
    du.update_block(&f.blocks[2], 2);
    assert!(du.get(ValueId(2)).unwrap().is_empty());
    du.remove_unused();
    assert!(du.get(ValueId(2)).is_none());
    assert!(!du.values().contains(&ValueId(2)));
    assert_eq!(du.values().len(), 3);
}

fn refs(list: &[(u64, usize, usize)]) -> SsaDefUse {
    SsaDefUse {
        references: list
            .iter()
            .map(|&(l, n, i)| Reference { local: local(l), location: Location::Block(n, i) })
            .collect(),
    }
}

#[test]
fn inline_chain_collapses_into_one_return() {
    let mut block = Block(vec![
        assign(10, bin(BinaryOp::Add, var(1), var(2))),
        assign(11, bin(BinaryOp::Mul, var(10), var(3))),
        ret(vec![var(11)]),
    ]);
    inline_expressions(&mut block, 0, &refs(&[(10, 0, 1), (11, 0, 2)]));
    assert_eq!(
        block,
        Block(vec![ret(vec![bin(BinaryOp::Mul, bin(BinaryOp::Add, var(1), var(2)), var(3))])])
    );
}

#[test]
fn inline_skips_across_side_effects() {
    let call = Statement::Call(Call { value: var(50), arguments: vec![] });
    let mut block = Block(vec![assign(10, var(1)), call, ret(vec![var(10)])]);
    inline_expressions(&mut block, 0, &refs(&[(10, 0, 2)]));
    assert_eq!(block.0.len(), 3);
    assert!(!can_inline_at(&block, 0, 2, local(10)));
}

#[test]
fn inline_skips_values_read_twice_or_elsewhere() {
    let mut block = Block(vec![assign(10, var(1)), ret(vec![var(10)])]);
    inline_expressions(&mut block, 0, &refs(&[(10, 0, 1), (10, 1, 0)]));
    assert_eq!(block.0.len(), 2);
    inline_expressions(&mut block, 3, &refs(&[(10, 0, 1)]));
    assert_eq!(block.0.len(), 2);
    inline_expressions(&mut block, 0, &refs(&[]));
    assert_eq!(block.0.len(), 2);
}

#[test]
fn inline_at_moves_the_value_and_drops_the_assignment() {
    let mut block = Block(vec![
        assign(10, RValue::Literal(Literal::Number(7))),
        assign(12, var(4)),
        ret(vec![var(10), var(10)]),
    ]);
    assert!(can_inline_at(&block, 0, 2, local(10)));
    inline_at(&mut block, 0, 2, local(10));
    let seven = RValue::Literal(Literal::Number(7));
    assert_eq!(block, Block(vec![assign(12, var(4)), ret(vec![seven.duplicate(), seven])]));
}

#[test]
fn substitution_reaches_calls_and_tables() {
    let e = bin(BinaryOp::Sub, var(1), var(2));
    let r = RValue::Call(
        Box::new(var(10)),
        vec![RValue::Table(cfg_to_ast::ast::Table(vec![var(10), var(3)]))],
    );
    let out = substitute(r, local(10), &e);
    let expected = RValue::Call(
        Box::new(e.duplicate()),
        vec![RValue::Table(cfg_to_ast::ast::Table(vec![e.duplicate(), var(3)]))],
    );
    assert_eq!(out, expected);
}

#[test]
fn def_use_skips_unreachable_blocks() {
    let mut f = diamond();
    f.blocks.push(bb(vec![Inner::Move { dest: ValueId(7), source: ValueId(0) }], Some(Terminator::Return(vec![]))));
    assert_eq!(reachable_nodes(&f), vec![true, true, true, true, false]);
    let du = DefUse::new(&f);
    assert!(du.get(ValueId(7)).is_none());
    assert_eq!(du.get(ValueId(0)).unwrap().reads.len(), 3);
}

#[test]
fn root_outside_the_graph_is_unreachable() {
    let f = Function { blocks: vec![bb(vec![], Some(Terminator::Return(vec![])))], entry: 3 };
    assert_eq!(lift(&f, &vec![None]), Err(LiftError::UnreachableRoot));
}

#[test]
fn successor_outside_the_graph_is_malformed() {
    let f = Function { blocks: vec![bb(vec![], Some(Terminator::UnconditionalJump(5)))], entry: 0 };
    assert_eq!(lift(&f, &vec![None]), Err(LiftError::MalformedAst));
}

#[test]
fn inline_reaches_call_arguments_and_if_conditions() {
    let cond = bin(BinaryOp::Lt, var(1), var(2));
    let mut block = Block(vec![
        assign(10, bin(BinaryOp::Add, var(1), var(2))),
        Statement::Call(Call { value: var(50), arguments: vec![var(10)] }),
        assign(11, cond.duplicate()),
        Statement::If(cfg_to_ast::ast::If {
            condition: var(11),
            then_block: Block(vec![ret(vec![])]),
            else_block: Block(vec![]),
        }),
    ]);
    inline_expressions(&mut block, 0, &refs(&[(10, 0, 1), (11, 0, 3)]));
    assert_eq!(
        block,
        Block(vec![
            Statement::Call(Call { value: var(50), arguments: vec![bin(BinaryOp::Add, var(1), var(2))] }),
            Statement::If(cfg_to_ast::ast::If {
                condition: cond,
                then_block: Block(vec![ret(vec![])]),
                else_block: Block(vec![]),
            }),
        ])
    );
}

#[test]
fn inline_reaches_loop_conditions_and_index_targets() {
    let mut block = Block(vec![
        assign(10, var(1)),
        Statement::While(cfg_to_ast::ast::While { condition: var(10), block: Block(vec![]) }),
    ]);
    inline_expressions(&mut block, 0, &refs(&[(10, 0, 1)]));
    assert_eq!(
        block,
        Block(vec![Statement::While(cfg_to_ast::ast::While { condition: var(1), block: Block(vec![]) })])
    );
    let mut block = Block(vec![
        assign(10, var(1)),
        Statement::Assign(Assign {
            left: vec![LValue::Index(Box::new(var(10)), Box::new(var(2)))],
            right: vec![var(3)],
            prefix: false,
        }),
    ]);
    inline_expressions(&mut block, 0, &refs(&[(10, 0, 1)]));
    assert_eq!(
        block,
        Block(vec![Statement::Assign(Assign {
            left: vec![LValue::Index(Box::new(var(1)), Box::new(var(2)))],
            right: vec![var(3)],
            prefix: false,
        })])
    );
}

#[test]
fn def_use_get_lists_each_location_once() {
    let f = Function {
        blocks: vec![bb(
            vec![
                Inner::LoadConstant { dest: ValueId(0), constant: Literal::Number(1) },
                Inner::Binary { dest: ValueId(1), op: BinaryOp::Mul, lhs: ValueId(0), rhs: ValueId(0) },
            ],
            Some(Terminator::Return(vec![ValueId(1)])),
        )],
        entry: 0,
    };
    let du = DefUse::new(&f);
    assert_eq!(du.get(ValueId(0)).unwrap().reads, vec![at(0, InstructionIndex::Inner(1))]);
    assert_eq!(du.values().len(), 2);
}

#[test]
fn numeric_for_terminator_lifts_to_a_numeric_for() {
    let f = Function {
        blocks: vec![
            bb(
                vec![],
                Some(Terminator::NumericFor {
                    counter: ValueId(4),
                    initial: ValueId(1),
                    limit: ValueId(2),
                    step: ValueId(3),
                    body: 1,
                    exit: 2,
                }),
            ),
            bb(vec![], Some(Terminator::UnconditionalJump(0))),
            bb(vec![], Some(Terminator::Return(vec![]))),
        ],
        entry: 0,
    };
    let body = Lifter::new(&f).lift_block(0).unwrap();
    assert_eq!(
        body,
        Block(vec![Statement::NumericFor(cfg_to_ast::ast::NumericFor {
            counter: local(4),
            initial: var(1),
            limit: var(2),
            step: var(3),
            block: Block(vec![]),
        })])
    );
    let du = DefUse::new(&f);
    assert_eq!(du.get(ValueId(4)).unwrap().writes, vec![at(0, InstructionIndex::Terminator)]);
    assert_eq!(du.get(ValueId(2)).unwrap().reads, vec![at(0, InstructionIndex::Terminator)]);
    assert_eq!(
        lift(&f, &vec![Some(2), Some(0), None]),
        Ok(vec![(0, Link::If(1, Some(2), Some(2))), (1, Link::Terminal), (2, Link::Terminal)])
    );
}

#[test]
fn string_constant_lifts_to_an_assignment() {
    let f = Function {
        blocks: vec![bb(
            vec![Inner::LoadConstant { dest: ValueId(0), constant: Literal::String("hi".to_string()) }],
            Some(Terminator::Return(vec![])),
        )],
        entry: 0,
    };
    assert_eq!(
        Lifter::new(&f).lift_block(0),
        Ok(Block(vec![assign(0, RValue::Literal(Literal::String("hi".to_string()))), ret(vec![])]))
    );
}

#[test]
fn nested_branch_sharing_the_outer_join_is_linked_once() {
    let cj = |t, f| Some(Terminator::ConditionalJump { condition: ValueId(0), true_branch: t, false_branch: f });
    let f = Function {
        blocks: vec![
            bb(vec![], cj(1, 3)),
            bb(vec![], cj(2, 3)),
            bb(vec![], Some(Terminator::UnconditionalJump(3))),
            bb(vec![], Some(Terminator::Return(vec![]))),
        ],
        entry: 0,
    };
    let links = lift(&f, &vec![Some(3), Some(3), Some(3), None]).unwrap();
    assert_eq!(links.len(), 4);
    assert_eq!(links[0], (0, Link::If(1, Some(3), Some(3))));
    assert!(links.contains(&(1, Link::If(2, Some(3), Some(3)))));
    assert!(links.contains(&(2, Link::Terminal)));
    assert!(links.contains(&(3, Link::Terminal)));
}

#[test]
fn unreachable_join_point_is_malformed() {
    let f = Function {
        blocks: vec![
            bb(vec![], Some(Terminator::ConditionalJump { condition: ValueId(0), true_branch: 1, false_branch: 1 })),
            bb(vec![], Some(Terminator::Return(vec![]))),
            bb(vec![], Some(Terminator::Return(vec![]))),
        ],
        entry: 0,
    };
    assert_eq!(lift(&f, &vec![Some(2), None, None]), Err(LiftError::MalformedAst));
}

#[test]
fn calls_and_return_values_are_lifted() {
    let f = Function {
        blocks: vec![bb(
            vec![Inner::Call { dest: ValueId(5), function: ValueId(4), arguments: vec![ValueId(1), ValueId(2)] }],
            Some(Terminator::Return(vec![ValueId(5)])),
        )],
        entry: 0,
    };
    assert_eq!(
        Lifter::new(&f).lift_block(0),
        Ok(Block(vec![
            assign(5, RValue::Call(Box::new(var(4)), vec![var(1), var(2)])),
            ret(vec![var(5)]),
        ]))
    );
}
