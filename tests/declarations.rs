use cfg_to_ast::ast::{
    Assign, Block, Call, GenericFor, If, LValue, Literal, NumericFor, RValue, RcLocal, Repeat,
    Return, Statement, Table, While,
};
use cfg_to_ast::error::LiftError;
use cfg_to_ast::local_declarations::{
    collect_block_locals, declare_local, declare_locals, is_malformed, placement_of, Placement,
};

fn local(id: u64) -> RcLocal {
    RcLocal { id }
}

fn var(id: u64) -> RValue {
    RValue::Local(local(id))
}

fn assign(target: u64, value: RValue) -> Statement {
    Statement::Assign(Assign { left: vec![LValue::Local(local(target))], right: vec![value], prefix: false })
}

fn declaring(target: u64, value: RValue) -> Statement {
    Statement::Assign(Assign { left: vec![LValue::Local(local(target))], right: vec![value], prefix: true })
}

fn declaration(ids: &[u64]) -> Statement {
    Statement::Assign(Assign {
        left: ids.iter().map(|&i| LValue::Local(local(i))).collect(),
        right: vec![],
        prefix: true,
    })
}

fn call_use(ids: &[u64]) -> Statement {
    Statement::Call(Call { value: var(100), arguments: ids.iter().map(|&i| var(i)).collect() })
}

fn ret() -> Statement {
    Statement::Return(Return { values: vec![] })
}

fn number(n: i64) -> RValue {
    RValue::Literal(Literal::Number(n))
}

#[test]
fn single_assignment_is_fused_with_its_declaration() {
    let mut block = Block(vec![assign(0, number(42)), ret()]);
    assert_eq!(declare_locals(&mut block, &vec![]), Ok(()));
    assert_eq!(block, Block(vec![declaring(0, number(42)), ret()]));
}

#[test]
fn single_arm_use_is_declared_inside_the_arm() {
    let mut block = Block(vec![
        Statement::If(If {
            condition: var(9),
            then_block: Block(vec![assign(1, number(1))]),
            else_block: Block(vec![]),
        }),
        ret(),
    ]);
    assert_eq!(declare_locals(&mut block, &vec![local(9)]), Ok(()));
    assert_eq!(
        block,
        Block(vec![
            Statement::If(If {
                condition: var(9),
                then_block: Block(vec![declaring(1, number(1))]),
                else_block: Block(vec![]),
            }),
            ret(),
        ])
    );
}

#[test]
fn both_arm_use_is_declared_once_outside() {
    let mut block = Block(vec![
        assign(1, number(0)),
        Statement::If(If {
            condition: var(9),
            then_block: Block(vec![call_use(&[1])]),
            else_block: Block(vec![call_use(&[1])]),
        }),
    ]);
    assert_eq!(declare_locals(&mut block, &vec![local(9), local(100)]), Ok(()));
    assert_eq!(
        block,
        Block(vec![
            declaring(1, number(0)),
            Statement::If(If {
                condition: var(9),
                then_block: Block(vec![call_use(&[1])]),
                else_block: Block(vec![call_use(&[1])]),
            }),
        ])
    );
}

#[test]
fn nested_if_inside_else_gets_one_outer_declaration() {
    let inner = Statement::If(If {
        condition: var(8),
        then_block: Block(vec![call_use(&[1])]),
        else_block: Block(vec![]),
    });
    let outer = |inner: Statement| {
        Statement::If(If {
            condition: var(9),
            then_block: Block(vec![call_use(&[1])]),
            else_block: Block(vec![inner]),
        })
    };
    let mut block = Block(vec![outer(inner)]);
    assert_eq!(declare_local(&mut block, local(1)), Ok(()));
    let inner = Statement::If(If {
        condition: var(8),
        then_block: Block(vec![call_use(&[1])]),
        else_block: Block(vec![]),
    });
    assert_eq!(block, Block(vec![declaration(&[1]), outer(inner)]));
}

#[test]
fn locals_first_used_together_share_one_declaration() {
    let mut block = Block(vec![call_use(&[1, 2]), call_use(&[1, 2])]);
    assert_eq!(declare_locals(&mut block, &vec![local(100)]), Ok(()));
    assert_eq!(block, Block(vec![declaration(&[1, 2]), call_use(&[1, 2]), call_use(&[1, 2])]));
}

#[test]
fn declaring_twice_changes_nothing_more() {
    let mut block = Block(vec![
        assign(1, number(0)),
        Statement::If(If {
            condition: var(1),
            then_block: Block(vec![assign(2, number(3)), call_use(&[2])]),
            else_block: Block(vec![]),
        }),
    ]);
    assert_eq!(declare_locals(&mut block, &vec![local(100)]), Ok(()));
    let once = format!("{:?}", block);
    assert_eq!(declare_locals(&mut block, &vec![local(100)]), Ok(()));
    assert_eq!(format!("{:?}", block), once);
}

#[test]
fn while_body_holds_declaration() {
    let mut block = Block(vec![Statement::While(While {
        condition: RValue::Literal(Literal::Boolean(true)),
        block: Block(vec![assign(3, number(1)), call_use(&[3])]),
    })]);
    assert_eq!(declare_local(&mut block, local(3)), Ok(()));
    assert_eq!(
        block,
        Block(vec![Statement::While(While {
            condition: RValue::Literal(Literal::Boolean(true)),
            block: Block(vec![declaring(3, number(1)), call_use(&[3])]),
        })])
    );
}

#[test]
fn repeat_body_holds_declaration() {
    let mut block = Block(vec![Statement::Repeat(Repeat::new(var(4), Block(vec![assign(4, number(1))])))]);
    assert_eq!(declare_local(&mut block, local(4)), Ok(()));
    assert_eq!(
        block,
        Block(vec![Statement::Repeat(Repeat::new(var(4), Block(vec![declaring(4, number(1))])))])
    );
}

#[test]
fn repeat_condition_alone_is_declared_before_the_loop() {
    let mut block = Block(vec![Statement::Repeat(Repeat::new(var(4), Block(vec![ret()])))]);
    assert!(!is_malformed(&block, local(4)));
    assert_eq!(declare_local(&mut block, local(4)), Ok(()));
    assert_eq!(
        block,
        Block(vec![declaration(&[4]), Statement::Repeat(Repeat::new(var(4), Block(vec![ret()])))])
    );
}

#[test]
fn coalesced_declarations_are_left_alone_on_a_second_run() {
    let mut block = Block(vec![call_use(&[1, 2]), call_use(&[1, 2])]);
    assert_eq!(declare_locals(&mut block, &vec![local(100)]), Ok(()));
    let once = format!("{:?}", block);
    assert_eq!(declare_locals(&mut block, &vec![local(100)]), Ok(()));
    assert_eq!(format!("{:?}", block), once);
}

fn numeric_for(counter: u64, body: Vec<Statement>) -> Statement {
    Statement::NumericFor(NumericFor {
        counter: local(counter),
        initial: number(1),
        limit: number(10),
        step: number(1),
        block: Block(body),
    })
}

#[test]
fn loop_counter_is_declared_by_its_header() {
    let mut block = Block(vec![numeric_for(5, vec![call_use(&[5])])]);
    assert_eq!(placement_of(&block.0[0], local(5)), Placement::Header);
    assert_eq!(declare_local(&mut block, local(5)), Ok(()));
    assert_eq!(block, Block(vec![numeric_for(5, vec![call_use(&[5])])]));
}

#[test]
fn loop_counter_used_after_the_loop_is_malformed() {
    let mut block = Block(vec![numeric_for(5, vec![]), call_use(&[5])]);
    assert_eq!(declare_local(&mut block, local(5)), Err(LiftError::MalformedAst));
}

#[test]
fn loop_counter_used_before_the_loop_is_malformed() {
    let mut block = Block(vec![call_use(&[5]), numeric_for(5, vec![])]);
    assert!(is_malformed(&block, local(5)));
    assert_eq!(declare_local(&mut block, local(5)), Err(LiftError::MalformedAst));
    assert_eq!(block, Block(vec![call_use(&[5]), numeric_for(5, vec![])]));
}

#[test]
fn generic_for_body_holds_declaration() {
    let mut block = Block(vec![Statement::GenericFor(GenericFor {
        res_locals: vec![local(6)],
        right: vec![var(7)],
        block: Block(vec![assign(8, var(6))]),
    })]);
    assert_eq!(declare_local(&mut block, local(8)), Ok(()));
    assert_eq!(
        block,
        Block(vec![Statement::GenericFor(GenericFor {
            res_locals: vec![local(6)],
            right: vec![var(7)],
            block: Block(vec![declaring(8, var(6))]),
        })])
    );
}

#[test]
fn collected_locals_come_in_order_of_first_use() {
    let block = Block(vec![
        assign(2, RValue::Table(Table(vec![var(1), var(2)]))),
        Statement::If(If { condition: var(3), then_block: Block(vec![call_use(&[4])]), else_block: Block(vec![]) }),
    ]);
    let mut locals = indexmap::IndexSet::new();
    collect_block_locals(&block, &mut locals);
    assert_eq!(locals.into_iter().collect::<Vec<_>>(), vec![local(2), local(1), local(3), local(100), local(4)]);
}

#[test]
fn collecting_keeps_locals_already_listed_in_place() {
    let block = Block(vec![call_use(&[3, 1])]);
    let mut locals = indexmap::IndexSet::new();
    locals.insert(local(1));
    collect_block_locals(&block, &mut locals);
    assert_eq!(locals.into_iter().collect::<Vec<_>>(), vec![local(1), local(100), local(3)]);
}

#[test]
fn table_reads_its_fields() {
    let t = Table(vec![var(1), RValue::Literal(Literal::Nil), var(2)]);
    assert_eq!(t.values_read(), vec![local(1), local(2)]);
}

#[test]
fn repeat_reads_its_condition() {
    let r = Repeat::new(bin_lt(var(1), var(2)), Block(vec![]));
    assert_eq!(r.values_read(), vec![local(1), local(2)]);
}

fn bin_lt(a: RValue, b: RValue) -> RValue {
    RValue::Binary(cfg_to_ast::ast::BinaryOp::Lt, Box::new(a), Box::new(b))
}

#[test]
fn declared_local_reused_as_a_later_loop_counter_is_malformed() {
    let mut block = Block(vec![declaration(&[5]), call_use(&[5]), numeric_for(5, vec![])]);
    assert!(is_malformed(&block, local(5)));
    assert_eq!(declare_local(&mut block, local(5)), Err(LiftError::MalformedAst));
}

#[test]
fn uses_in_both_arms_of_a_nested_if_are_declared_in_the_outer_else() {
    let nested = || {
        Statement::If(If {
            condition: var(8),
            then_block: Block(vec![call_use(&[1])]),
            else_block: Block(vec![call_use(&[1])]),
        })
    };
    let mut block = Block(vec![Statement::If(If {
        condition: var(9),
        then_block: Block(vec![]),
        else_block: Block(vec![nested()]),
    })]);
    assert_eq!(declare_local(&mut block, local(1)), Ok(()));
    assert_eq!(
        block,
        Block(vec![Statement::If(If {
            condition: var(9),
            then_block: Block(vec![]),
            else_block: Block(vec![declaration(&[1]), nested()]),
        })])
    );
}
