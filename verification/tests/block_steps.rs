use grib::ast::parsing::ast;
use grib::lex::lex;
use grib::runtime::exec::{block_start, block_step, BlockAction, BlockEvent, BlockState, FlowKind};

fn program(src: &str) -> grib::ast::node::Program {
    ast(lex(src).expect("lexes")).expect("parses")
}

fn step(block: &grib::ast::node::Block, st: &mut BlockState, ev: BlockEvent) -> BlockAction {
    assert!(st.awaits(&ev));
    let (next, action) = block_step(block, st, ev);
    *st = next;
    action
}

#[test]
fn steps_run_statements_in_order_and_pop_declarations() {
    let p = program("decl a = 1, b = 2; a = 3; decl c = 4;");
    let mut st = block_start(&p.body).unwrap();
    assert_eq!(step(&p.body, &mut st, BlockEvent::Done), BlockAction::Eval(0));
    assert_eq!(step(&p.body, &mut st, BlockEvent::Done), BlockAction::Eval(1));
    assert_eq!(step(&p.body, &mut st, BlockEvent::Done), BlockAction::Eval(2));
    assert_eq!(step(&p.body, &mut st, BlockEvent::Done), BlockAction::Finish(3, None));
    assert!(!st.awaits(&BlockEvent::Done));
}

#[test]
fn steps_if_chain_takes_first_truthy_branch() {
    let p = program("if a { } else if b { } else if c { } else { }");
    let mut st = block_start(&p.body).unwrap();
    assert_eq!(step(&p.body, &mut st, BlockEvent::Done), BlockAction::EvalCondition(0, 0));
    assert_eq!(step(&p.body, &mut st, BlockEvent::Condition(false)), BlockAction::EvalCondition(0, 1));
    assert_eq!(step(&p.body, &mut st, BlockEvent::Condition(true)), BlockAction::RunInner(0, 1));
    assert_eq!(step(&p.body, &mut st, BlockEvent::Inner(None)), BlockAction::Finish(0, None));

    let mut st = block_start(&p.body).unwrap();
    step(&p.body, &mut st, BlockEvent::Done);
    step(&p.body, &mut st, BlockEvent::Condition(false));
    step(&p.body, &mut st, BlockEvent::Condition(false));
    assert_eq!(step(&p.body, &mut st, BlockEvent::Condition(false)), BlockAction::RunElse(0));
    assert_eq!(
        step(&p.body, &mut st, BlockEvent::Inner(Some(FlowKind::Break))),
        BlockAction::Finish(0, Some(FlowKind::Break))
    );
}

#[test]
fn steps_while_loop_break_continue_return() {
    let p = program("decl x = 1; while x { } x = 2;");
    let mut st = block_start(&p.body).unwrap();
    assert_eq!(step(&p.body, &mut st, BlockEvent::Done), BlockAction::Eval(0));
    assert_eq!(step(&p.body, &mut st, BlockEvent::Done), BlockAction::EvalCondition(1, 0));
    assert_eq!(step(&p.body, &mut st, BlockEvent::Condition(true)), BlockAction::RunInner(1, 0));
    assert_eq!(
        step(&p.body, &mut st, BlockEvent::Inner(Some(FlowKind::Continue))),
        BlockAction::EvalCondition(1, 0)
    );
    assert_eq!(step(&p.body, &mut st, BlockEvent::Condition(true)), BlockAction::RunInner(1, 0));
    assert_eq!(step(&p.body, &mut st, BlockEvent::Inner(Some(FlowKind::Break))), BlockAction::Eval(2));
    assert_eq!(step(&p.body, &mut st, BlockEvent::Done), BlockAction::Finish(1, None));

    let mut st = block_start(&p.body).unwrap();
    step(&p.body, &mut st, BlockEvent::Done);
    step(&p.body, &mut st, BlockEvent::Done);
    step(&p.body, &mut st, BlockEvent::Condition(true));
    assert_eq!(
        step(&p.body, &mut st, BlockEvent::Inner(Some(FlowKind::Return))),
        BlockAction::Finish(1, Some(FlowKind::Return))
    );
}

#[test]
fn steps_for_loop_pops_its_variables() {
    let p = program("for decl i = 0, j = 1; i < 3; i = i + 1 { }");
    let mut st = block_start(&p.body).unwrap();
    assert_eq!(step(&p.body, &mut st, BlockEvent::Done), BlockAction::Eval(0));
    assert_eq!(step(&p.body, &mut st, BlockEvent::Done), BlockAction::EvalCondition(0, 0));
    assert_eq!(step(&p.body, &mut st, BlockEvent::Condition(true)), BlockAction::RunInner(0, 0));
    assert_eq!(
        step(&p.body, &mut st, BlockEvent::Inner(Some(FlowKind::Continue))),
        BlockAction::EvalIncrement(0)
    );
    assert_eq!(step(&p.body, &mut st, BlockEvent::Done), BlockAction::EvalCondition(0, 0));
    assert_eq!(step(&p.body, &mut st, BlockEvent::Condition(false)), BlockAction::Pop(2));
    assert_eq!(step(&p.body, &mut st, BlockEvent::Done), BlockAction::Finish(0, None));
}

#[test]
fn steps_return_evaluates_its_value_first() {
    let p = program("decl a = 1; return a; a = 2;");
    let mut st = block_start(&p.body).unwrap();
    step(&p.body, &mut st, BlockEvent::Done);
    assert_eq!(step(&p.body, &mut st, BlockEvent::Done), BlockAction::Eval(1));
    assert_eq!(step(&p.body, &mut st, BlockEvent::Done), BlockAction::Finish(1, Some(FlowKind::Return)));
}
