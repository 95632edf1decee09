//! The order in which the statements of a block run.
//!
//! Running a block alternates between deciding what comes next and work that
//! the interpreter does: evaluating expressions, making declarations and
//! running inner blocks.  `block_step` is the deciding part: it takes the
//! state of one block and the outcome of the last piece of work, and says what
//! to do next.
use crate::ast::node::{Block, BreakType, Node};
use vstd::prelude::*;

verus! {

/// How a block, a branch or a loop body ended before its last statement.
#[derive(Clone, Copy, Debug, PartialEq, Eq, Structural)]
pub enum FlowKind {
    Break,
    Continue,
    Return,
}

/// Where a block stands between two steps.
#[derive(Clone, Copy, Debug, PartialEq, Eq, Structural)]
pub enum BlockPhase {
    /// Waits for `Done`, then starts the statement at `pos`.
    Ready,
    /// Waits for the value of a `return` at `pos`.
    Returning,
    /// Waits for condition `j` of the `if` chain at `pos`.
    Chain(usize),
    /// Waits for the inner block, or the branch of the `if` chain, at `pos`.
    Branch,
    /// Waits for the condition of the `while` loop at `pos`.
    WhileCond,
    /// Waits for the body of the `while` loop at `pos`.
    WhileBody,
    /// Waits for the `for` loop at `pos` to open its scope.
    ForDecl,
    /// Waits for the condition of the `for` loop at `pos`.
    ForCond,
    /// Waits for the body of the `for` loop at `pos`.
    ForBody,
    /// Waits for the increment of the `for` loop at `pos`.
    ForIncr,
    /// Waits for the `for` loop at `pos` to drop its variables; then goes on
    /// with the given flow.
    ForPop(Option<FlowKind>),
    /// The block has ended.
    Finished,
}

/// The state of one running block: the statement it is at, the cells its
/// declarations have pushed so far, and the cells that the `for` loop at
/// `pos` has pushed.
#[derive(Clone, Copy, Debug, PartialEq, Eq, Structural)]
pub struct BlockState {
    pub pos: usize,
    pub pushed: usize,
    pub params: usize,
    pub phase: BlockPhase,
}

/// What the interpreter reports after carrying out an action.
#[derive(Clone, Copy, Debug, PartialEq, Eq, Structural)]
pub enum BlockEvent {
    /// An evaluation, a declaration or a pop is done.
    Done,
    /// A condition was evaluated; its truthiness.
    Condition(bool),
    /// An inner block ended, with its flow.
    Inner(Option<FlowKind>),
}

/// What the interpreter is asked to do next.
#[derive(Clone, Copy, Debug, PartialEq, Eq, Structural)]
pub enum BlockAction {
    /// Carry out statement `i`: make its declaration, evaluate its expression,
    /// evaluate the value of its `return`, or open the scope of its `for` loop
    /// and make the loop's declaration, if it has one.
    Eval(usize),
    /// Evaluate condition `j` of statement `i` (for an `if` chain, 0 is the
    /// `if` and `j` the `j`-th `else if`).
    EvalCondition(usize, usize),
    /// Run inner block `j` of statement `i` (for an `if` chain, 0 is the `if`
    /// block and `j` that of the `j`-th `else if`).
    RunInner(usize, usize),
    /// Run the `else` block of the `if` chain at statement `i`.
    RunElse(usize),
    /// Evaluate the increment of the `for` loop at statement `i`.
    EvalIncrement(usize),
    /// Close the scope of a `for` loop: pop its `n` cells.
    Pop(usize),
    /// Pop the block's `n` cells and end it with the given flow.
    Finish(usize, Option<FlowKind>),
}

/// The cells that a statement pushes onto the block's scope.
pub open spec fn decl_count(n: Node) -> nat {
    match n {
        Node::Declaration(d) => d.declarations@.len(),
        _ => 0,
    }
}

/// The cells that the first `k` statements push onto the block's scope.
pub open spec fn decls_before(block: Seq<Node>, k: int) -> nat
    decreases k,
{
    if k <= 0 || k > block.len() {
        0
    } else {
        decls_before(block, k - 1) + decl_count(block[k - 1])
    }
}

/// The cells that a whole block pushes onto its scope.
pub open spec fn block_decls(block: Seq<Node>) -> nat {
    decls_before(block, block.len() as int)
}

/// The cells that the declaration of a `for` loop pushes.
pub open spec fn loop_params(n: Node) -> nat {
    match n {
        Node::For { declaration: Some(d), .. } => d.declarations@.len(),
        _ => 0,
    }
}

pub open spec fn state(pos: usize, pushed: usize, params: usize, phase: BlockPhase) -> BlockState {
    BlockState { pos, pushed, params, phase }
}

/// Starting the statement at `pos`, or ending the block past its last one.
pub open spec fn spec_start(block: Seq<Node>, pos: usize, pushed: usize) -> (BlockState, BlockAction) {
    if pos >= block.len() {
        (state(pos, pushed, 0, BlockPhase::Finished), BlockAction::Finish(pushed, None))
    } else {
        match block[pos as int] {
            Node::Expression(_) => (state((pos + 1) as usize, pushed, 0, BlockPhase::Ready), BlockAction::Eval(pos)),
            Node::Declaration(d) => (
                state((pos + 1) as usize, (pushed + d.declarations@.len()) as usize, 0, BlockPhase::Ready),
                BlockAction::Eval(pos),
            ),
            Node::Block(_) => (state(pos, pushed, 0, BlockPhase::Branch), BlockAction::RunInner(pos, 0)),
            Node::ControlFlow(f) => match f.kind {
                BreakType::Break => (
                    state(pos, pushed, 0, BlockPhase::Finished),
                    BlockAction::Finish(pushed, Some(FlowKind::Break)),
                ),
                BreakType::Continue => (
                    state(pos, pushed, 0, BlockPhase::Finished),
                    BlockAction::Finish(pushed, Some(FlowKind::Continue)),
                ),
                BreakType::Return(_) => (state(pos, pushed, 0, BlockPhase::Returning), BlockAction::Eval(pos)),
            },
            Node::LogicChain { .. } => (state(pos, pushed, 0, BlockPhase::Chain(0)), BlockAction::EvalCondition(pos, 0)),
            Node::While(_) => (state(pos, pushed, 0, BlockPhase::WhileCond), BlockAction::EvalCondition(pos, 0)),
            Node::For { .. } => (state(pos, pushed, 0, BlockPhase::ForDecl), BlockAction::Eval(pos)),
        }
    }
}

/// Testing the condition of the `for` loop at `pos`; a loop without one goes
/// straight to its body.
pub open spec fn spec_loop_test(block: Seq<Node>, pos: usize, pushed: usize, params: usize) -> (BlockState, BlockAction) {
    match block[pos as int] {
        Node::For { condition: Some(_), .. } => (
            state(pos, pushed, params, BlockPhase::ForCond),
            BlockAction::EvalCondition(pos, 0),
        ),
        _ => (state(pos, pushed, params, BlockPhase::ForBody), BlockAction::RunInner(pos, 0)),
    }
}

/// Going on after the statement at `pos` with the given flow: none starts the
/// next statement, any other ends the block with it.
pub open spec fn spec_after(block: Seq<Node>, pos: usize, pushed: usize, flow: Option<FlowKind>) -> (BlockState, BlockAction) {
    match flow {
        None => spec_start(block, (pos + 1) as usize, pushed),
        Some(k) => (state(pos, pushed, 0, BlockPhase::Finished), BlockAction::Finish(pushed, Some(k))),
    }
}

/// The number of `else if` parts of the `if` chain `n`.
pub open spec fn elseif_count(n: Node) -> nat {
    match n {
        Node::LogicChain { elseifs, .. } => elseifs@.len(),
        _ => 0,
    }
}

/// Whether the `if` chain `n` has an `else` block.
pub open spec fn has_else(n: Node) -> bool {
    match n {
        Node::LogicChain { else_block, .. } => else_block is Some,
        _ => false,
    }
}

/// Whether the `for` loop `n` has an increment.
pub open spec fn has_increment(n: Node) -> bool {
    match n {
        Node::For { increment, .. } => increment is Some,
        _ => false,
    }
}

/// Whether the `for` loop `n` has a condition.
pub open spec fn has_condition(n: Node) -> bool {
    match n {
        Node::For { condition, .. } => condition is Some,
        _ => false,
    }
}

/// One step of a block: the next state and action, given the last event.
pub open spec fn spec_block_step(block: Seq<Node>, st: BlockState, ev: BlockEvent) -> (BlockState, BlockAction) {
    let pos = st.pos;
    let pushed = st.pushed;
    let params = st.params;
    match (st.phase, ev) {
        (BlockPhase::Ready, _) => spec_start(block, pos, pushed),
        (BlockPhase::Returning, _) => (
            state(pos, pushed, 0, BlockPhase::Finished),
            BlockAction::Finish(pushed, Some(FlowKind::Return)),
        ),
        (BlockPhase::Chain(j), BlockEvent::Condition(true)) => (
            state(pos, pushed, 0, BlockPhase::Branch),
            BlockAction::RunInner(pos, j),
        ),
        (BlockPhase::Chain(j), _) => if j < elseif_count(block[pos as int]) {
            (state(pos, pushed, 0, BlockPhase::Chain((j + 1) as usize)), BlockAction::EvalCondition(pos, (j + 1) as usize))
        } else if has_else(block[pos as int]) {
            (state(pos, pushed, 0, BlockPhase::Branch), BlockAction::RunElse(pos))
        } else {
            spec_start(block, (pos + 1) as usize, pushed)
        },
        (BlockPhase::Branch, BlockEvent::Inner(flow)) => spec_after(block, pos, pushed, flow),
        (BlockPhase::WhileCond, BlockEvent::Condition(true)) => (
            state(pos, pushed, 0, BlockPhase::WhileBody),
            BlockAction::RunInner(pos, 0),
        ),
        (BlockPhase::WhileCond, _) => spec_start(block, (pos + 1) as usize, pushed),
        (BlockPhase::WhileBody, BlockEvent::Inner(Some(FlowKind::Return))) => spec_after(
            block,
            pos,
            pushed,
            Some(FlowKind::Return),
        ),
        (BlockPhase::WhileBody, BlockEvent::Inner(Some(FlowKind::Break))) => spec_start(block, (pos + 1) as usize, pushed),
        (BlockPhase::WhileBody, _) => (state(pos, pushed, 0, BlockPhase::WhileCond), BlockAction::EvalCondition(pos, 0)),
        (BlockPhase::ForDecl, _) => spec_loop_test(block, pos, pushed, loop_params(block[pos as int]) as usize),
        (BlockPhase::ForCond, BlockEvent::Condition(true)) => (
            state(pos, pushed, params, BlockPhase::ForBody),
            BlockAction::RunInner(pos, 0),
        ),
        (BlockPhase::ForCond, _) => (state(pos, pushed, params, BlockPhase::ForPop(None)), BlockAction::Pop(params)),
        (BlockPhase::ForBody, BlockEvent::Inner(Some(FlowKind::Return))) => (
            state(pos, pushed, params, BlockPhase::ForPop(Some(FlowKind::Return))),
            BlockAction::Pop(params),
        ),
        (BlockPhase::ForBody, BlockEvent::Inner(Some(FlowKind::Break))) => (
            state(pos, pushed, params, BlockPhase::ForPop(None)),
            BlockAction::Pop(params),
        ),
        (BlockPhase::ForBody, _) => if has_increment(block[pos as int]) {
            (state(pos, pushed, params, BlockPhase::ForIncr), BlockAction::EvalIncrement(pos))
        } else {
            spec_loop_test(block, pos, pushed, params)
        },
        (BlockPhase::ForIncr, _) => spec_loop_test(block, pos, pushed, params),
        (BlockPhase::ForPop(flow), _) => spec_after(block, pos, pushed, flow),
        (_, _) => (st, BlockAction::Finish(pushed, None)),
    }
}

impl BlockState {
    /// The state is one that running `block` can reach.
    pub open spec fn wf(self, block: Seq<Node>) -> bool {
        &&& block_decls(block) <= usize::MAX
        &&& block.len() <= usize::MAX
        &&& self.pos <= block.len()
        &&& self.pushed == decls_before(block, self.pos as int)
        &&& match self.phase {
            BlockPhase::Ready | BlockPhase::Finished => true,
            BlockPhase::Returning => self.pos < block.len() && (block[self.pos as int] matches Node::ControlFlow(f)
                && f.kind is Return),
            BlockPhase::Chain(j) => self.pos < block.len() && block[self.pos as int] is LogicChain && j
                <= elseif_count(block[self.pos as int]),
            BlockPhase::Branch => self.pos < block.len() && (block[self.pos as int] is Block
                || block[self.pos as int] is LogicChain),
            BlockPhase::WhileCond | BlockPhase::WhileBody => self.pos < block.len() && block[self.pos as int] is While,
            BlockPhase::ForDecl => self.pos < block.len() && block[self.pos as int] is For,
            BlockPhase::ForCond => self.pos < block.len() && block[self.pos as int] is For && has_condition(
                block[self.pos as int],
            ) && self.params == loop_params(block[self.pos as int]),
            BlockPhase::ForIncr => self.pos < block.len() && block[self.pos as int] is For && has_increment(
                block[self.pos as int],
            ) && self.params == loop_params(block[self.pos as int]),
            BlockPhase::ForBody | BlockPhase::ForPop(_) => self.pos < block.len() && block[self.pos as int] is For
                && self.params == loop_params(block[self.pos as int]),
        }
    }

    /// The event is the kind of report that the state waits for.
    pub open spec fn spec_awaits(self, ev: BlockEvent) -> bool {
        match self.phase {
            BlockPhase::Ready | BlockPhase::Returning | BlockPhase::ForDecl | BlockPhase::ForIncr
            | BlockPhase::ForPop(_) => ev is Done,
            BlockPhase::Chain(_) | BlockPhase::WhileCond | BlockPhase::ForCond => ev is Condition,
            BlockPhase::Branch | BlockPhase::WhileBody | BlockPhase::ForBody => ev is Inner,
            BlockPhase::Finished => false,
        }
    }
}

proof fn lemma_decls_grow(block: Seq<Node>, a: int, b: int)
    requires
        0 <= a <= b <= block.len(),
    ensures
        decls_before(block, a) <= decls_before(block, b),
    decreases b - a,
{
    if a < b {
        lemma_decls_grow(block, a, b - 1);
    }
}

/// The first state of a block, or `None` where its declarations would push
/// more cells than a `usize` counts.
pub fn block_start(block: &Block) -> (r: Option<BlockState>)
    ensures
        r is Some <==> block_decls(block@) <= usize::MAX,
        r matches Some(st) ==> st == state(0, 0, 0, BlockPhase::Ready) && st.wf(block@),
{
    let mut k: usize = 0;
    let mut total: usize = 0;
    while k < block.len()
        invariant
            k <= block@.len(),
            total == decls_before(block@, k as int),
        decreases block@.len() - k,
    {
        let n: usize = match &block[k] {
            Node::Declaration(d) => d.declarations.len(),
            _ => 0,
        };
        if total > usize::MAX - n {
            proof {
                lemma_decls_grow(block@, k + 1, block@.len() as int);
            }
            return None;
        }
        total = total + n;
        k = k + 1;
    }
    assert(block@.len() <= usize::MAX);
    Some(BlockState { pos: 0, pushed: 0, params: 0, phase: BlockPhase::Ready })
}

impl BlockState {
    /// Whether the event is the kind of report that the state waits for.
    pub fn awaits(&self, ev: &BlockEvent) -> (b: bool)
        ensures
            b == self.spec_awaits(*ev),
    {
        match self.phase {
            BlockPhase::Ready | BlockPhase::Returning | BlockPhase::ForDecl | BlockPhase::ForIncr
            | BlockPhase::ForPop(_) => matches!(ev, BlockEvent::Done),
            BlockPhase::Chain(_) | BlockPhase::WhileCond | BlockPhase::ForCond => matches!(ev, BlockEvent::Condition(_)),
            BlockPhase::Branch | BlockPhase::WhileBody | BlockPhase::ForBody => matches!(ev, BlockEvent::Inner(_)),
            BlockPhase::Finished => false,
        }
    }
}

fn start(block: &Block, pos: usize, pushed: usize) -> (r: (BlockState, BlockAction))
    requires
        block_decls(block@) <= usize::MAX,
        block@.len() <= usize::MAX,
        pos <= block@.len() + 1,
        pos <= block@.len() ==> pushed == decls_before(block@, pos as int),
    ensures
        r == spec_start(block@, pos, pushed),
        pos <= block@.len() ==> r.0.wf(block@),
{
    if pos >= block.len() {
        return (BlockState { pos, pushed, params: 0, phase: BlockPhase::Finished }, BlockAction::Finish(pushed, None));
    }
    proof {
        lemma_decls_grow(block@, pos + 1, block@.len() as int);
    }
    match &block[pos] {
        Node::Expression(_) => (BlockState { pos: pos + 1, pushed, params: 0, phase: BlockPhase::Ready }, BlockAction::Eval(pos)),
        Node::Declaration(d) => (
            BlockState { pos: pos + 1, pushed: pushed + d.declarations.len(), params: 0, phase: BlockPhase::Ready },
            BlockAction::Eval(pos),
        ),
        Node::Block(_) => (BlockState { pos, pushed, params: 0, phase: BlockPhase::Branch }, BlockAction::RunInner(pos, 0)),
        Node::ControlFlow(f) => match &f.kind {
            BreakType::Break => (
                BlockState { pos, pushed, params: 0, phase: BlockPhase::Finished },
                BlockAction::Finish(pushed, Some(FlowKind::Break)),
            ),
            BreakType::Continue => (
                BlockState { pos, pushed, params: 0, phase: BlockPhase::Finished },
                BlockAction::Finish(pushed, Some(FlowKind::Continue)),
            ),
            BreakType::Return(_) => (
                BlockState { pos, pushed, params: 0, phase: BlockPhase::Returning },
                BlockAction::Eval(pos),
            ),
        },
        Node::LogicChain { .. } => (
            BlockState { pos, pushed, params: 0, phase: BlockPhase::Chain(0) },
            BlockAction::EvalCondition(pos, 0),
        ),
        Node::While(_) => (
            BlockState { pos, pushed, params: 0, phase: BlockPhase::WhileCond },
            BlockAction::EvalCondition(pos, 0),
        ),
        Node::For { .. } => (BlockState { pos, pushed, params: 0, phase: BlockPhase::ForDecl }, BlockAction::Eval(pos)),
    }
}

fn loop_test(block: &Block, pos: usize, pushed: usize, params: usize) -> (r: (BlockState, BlockAction))
    requires
        block_decls(block@) <= usize::MAX,
        block@.len() <= usize::MAX,
        pos < block@.len(),
        block@[pos as int] is For,
        params == loop_params(block@[pos as int]),
        pushed == decls_before(block@, pos as int),
    ensures
        r == spec_loop_test(block@, pos, pushed, params),
        r.0.wf(block@),
{
    match &block[pos] {
        Node::For { condition: Some(_), .. } => (
            BlockState { pos, pushed, params, phase: BlockPhase::ForCond },
            BlockAction::EvalCondition(pos, 0),
        ),
        _ => (BlockState { pos, pushed, params, phase: BlockPhase::ForBody }, BlockAction::RunInner(pos, 0)),
    }
}

fn after(block: &Block, pos: usize, pushed: usize, flow: Option<FlowKind>) -> (r: (BlockState, BlockAction))
    requires
        block_decls(block@) <= usize::MAX,
        block@.len() <= usize::MAX,
        pos < block@.len(),
        decl_count(block@[pos as int]) == 0,
        pushed == decls_before(block@, pos as int),
    ensures
        r == spec_after(block@, pos, pushed, flow),
        r.0.wf(block@),
{
    let len = block.len();
    assert(pos < len);
    match flow {
        None => start(block, pos + 1, pushed),
        Some(k) => (BlockState { pos, pushed, params: 0, phase: BlockPhase::Finished }, BlockAction::Finish(pushed, Some(k))),
    }
}

/// One step of running a block: from the state and the report on the last
/// action, the next state and the next action.
pub fn block_step(block: &Block, st: &BlockState, ev: BlockEvent) -> (r: (BlockState, BlockAction))
    requires
        st.wf(block@),
        st.spec_awaits(ev),
    ensures
        r.0.wf(block@),
        r == spec_block_step(block@, *st, ev),
{
    let pos = st.pos;
    let pushed = st.pushed;
    let params = st.params;
    let len = block.len();
    assert(pos <= len);
    match (st.phase, ev) {
        (BlockPhase::Ready, _) => start(block, pos, pushed),
        (BlockPhase::Returning, _) => (
            BlockState { pos, pushed, params: 0, phase: BlockPhase::Finished },
            BlockAction::Finish(pushed, Some(FlowKind::Return)),
        ),
        (BlockPhase::Chain(j), BlockEvent::Condition(true)) => (
            BlockState { pos, pushed, params: 0, phase: BlockPhase::Branch },
            BlockAction::RunInner(pos, j),
        ),
        (BlockPhase::Chain(j), _) => {
            let (n, has_else) = match &block[pos] {
                Node::LogicChain { elseifs, else_block, .. } => (elseifs.len(), else_block.is_some()),
                _ => (0, false),
            };
            if j < n {
                (BlockState { pos, pushed, params: 0, phase: BlockPhase::Chain(j + 1) }, BlockAction::EvalCondition(pos, j + 1))
            } else if has_else {
                (BlockState { pos, pushed, params: 0, phase: BlockPhase::Branch }, BlockAction::RunElse(pos))
            } else {
                start(block, pos + 1, pushed)
            }
        },
        (BlockPhase::Branch, BlockEvent::Inner(flow)) => after(block, pos, pushed, flow),
        (BlockPhase::WhileCond, BlockEvent::Condition(true)) => (
            BlockState { pos, pushed, params: 0, phase: BlockPhase::WhileBody },
            BlockAction::RunInner(pos, 0),
        ),
        (BlockPhase::WhileCond, _) => start(block, pos + 1, pushed),
        (BlockPhase::WhileBody, BlockEvent::Inner(Some(FlowKind::Return))) => after(
            block,
            pos,
            pushed,
            Some(FlowKind::Return),
        ),
        (BlockPhase::WhileBody, BlockEvent::Inner(Some(FlowKind::Break))) => start(block, pos + 1, pushed),
        (BlockPhase::WhileBody, _) => (
            BlockState { pos, pushed, params: 0, phase: BlockPhase::WhileCond },
            BlockAction::EvalCondition(pos, 0),
        ),
        (BlockPhase::ForDecl, _) => {
            let n: usize = match &block[pos] {
                Node::For { declaration: Some(d), .. } => d.declarations.len(),
                _ => 0,
            };
            loop_test(block, pos, pushed, n)
        },
        (BlockPhase::ForCond, BlockEvent::Condition(true)) => (
            BlockState { pos, pushed, params, phase: BlockPhase::ForBody },
            BlockAction::RunInner(pos, 0),
        ),
        (BlockPhase::ForCond, _) => (
            BlockState { pos, pushed, params, phase: BlockPhase::ForPop(None) },
            BlockAction::Pop(params),
        ),
        (BlockPhase::ForBody, BlockEvent::Inner(Some(FlowKind::Return))) => (
            BlockState { pos, pushed, params, phase: BlockPhase::ForPop(Some(FlowKind::Return)) },
            BlockAction::Pop(params),
        ),
        (BlockPhase::ForBody, BlockEvent::Inner(Some(FlowKind::Break))) => (
            BlockState { pos, pushed, params, phase: BlockPhase::ForPop(None) },
            BlockAction::Pop(params),
        ),
        (BlockPhase::ForBody, _) => {
            let incr = match &block[pos] {
                Node::For { increment, .. } => increment.is_some(),
                _ => false,
            };
            if incr {
                (BlockState { pos, pushed, params, phase: BlockPhase::ForIncr }, BlockAction::EvalIncrement(pos))
            } else {
                loop_test(block, pos, pushed, params)
            }
        },
        (BlockPhase::ForIncr, _) => loop_test(block, pos, pushed, params),
        (BlockPhase::ForPop(flow), _) => after(block, pos, pushed, flow),
        (_, _) => (*st, BlockAction::Finish(pushed, None)),
    }
}

/// A block pops exactly the cells its own declarations pushed: all of them
/// when it ends after its last statement, and those made so far when a jump
/// ends it early.  A `for` loop pops exactly the cells of its declaration.
pub proof fn law_block_pops_what_it_pushed(block: Seq<Node>, st: BlockState, ev: BlockEvent)
    requires
        st.wf(block),
        st.spec_awaits(ev),
    ensures
        spec_block_step(block, st, ev).1 matches BlockAction::Finish(n, None) ==> n == block_decls(block),
        spec_block_step(block, st, ev).1 matches BlockAction::Finish(n, Some(_)) ==> n == decls_before(
            block,
            spec_block_step(block, st, ev).0.pos as int,
        ) && spec_block_step(block, st, ev).0.pos < block.len(),
        spec_block_step(block, st, ev).1 matches BlockAction::Pop(n) ==> n == loop_params(block[st.pos as int]),
{
    if st.pos < block.len() {
        assert(decls_before(block, st.pos + 1) == st.pushed + decl_count(block[st.pos as int]));
    }
    match st.phase {
        BlockPhase::Ready => {
            if st.pos < block.len() {
                assert(spec_block_step(block, st, ev) == spec_start(block, st.pos, st.pushed));
            }
        },
        BlockPhase::Branch | BlockPhase::WhileBody | BlockPhase::WhileCond | BlockPhase::Chain(_) | BlockPhase::ForPop(_) => {
            assert(decl_count(block[st.pos as int]) == 0);
        },
        _ => {},
    }
}

/// The conditions of an `if` chain are evaluated in order up to the first
/// truthy one; exactly that branch runs, or the `else` block when none is
/// truthy, or nothing; after the branch the chain is over.
pub proof fn law_chain(block: Seq<Node>, st: BlockState, ev: BlockEvent)
    requires
        st.wf(block),
        st.spec_awaits(ev),
        st.phase is Chain || st.phase is Branch,
    ensures
        ({
            let r = spec_block_step(block, st, ev);
            let n = block[st.pos as int];
            match (st.phase, ev) {
                (BlockPhase::Chain(j), BlockEvent::Condition(true)) => r.1 == BlockAction::RunInner(st.pos, j),
                (BlockPhase::Chain(j), BlockEvent::Condition(false)) => if j < elseif_count(n) {
                    r.1 == BlockAction::EvalCondition(st.pos, (j + 1) as usize)
                } else if has_else(n) {
                    r.1 == BlockAction::RunElse(st.pos)
                } else {
                    r == spec_start(block, (st.pos + 1) as usize, st.pushed)
                },
                (BlockPhase::Branch, BlockEvent::Inner(None)) => r == spec_start(block, (st.pos + 1) as usize, st.pushed),
                (BlockPhase::Branch, BlockEvent::Inner(Some(k))) => r.1 == BlockAction::Finish(st.pushed, Some(k)),
                _ => false,
            }
        }),
{
}

/// A `while` loop runs its body while its condition is truthy; `break` ends
/// the loop and the block goes on after it, `continue` or the end of the body
/// evaluates the condition again, and `return` ends the block too.
pub proof fn law_while(block: Seq<Node>, st: BlockState, ev: BlockEvent)
    requires
        st.wf(block),
        st.spec_awaits(ev),
        st.phase is WhileCond || st.phase is WhileBody,
    ensures
        ({
            let r = spec_block_step(block, st, ev);
            let next = spec_start(block, (st.pos + 1) as usize, st.pushed);
            match (st.phase, ev) {
                (BlockPhase::WhileCond, BlockEvent::Condition(true)) => r.1 == BlockAction::RunInner(st.pos, 0),
                (BlockPhase::WhileCond, BlockEvent::Condition(false)) => r == next,
                (BlockPhase::WhileBody, BlockEvent::Inner(Some(FlowKind::Break))) => r == next,
                (BlockPhase::WhileBody, BlockEvent::Inner(Some(FlowKind::Return))) => r.1 == BlockAction::Finish(
                    st.pushed,
                    Some(FlowKind::Return),
                ),
                (BlockPhase::WhileBody, BlockEvent::Inner(_)) => r.1 == BlockAction::EvalCondition(st.pos, 0),
                _ => false,
            }
        }),
{
}

/// A `for` loop runs its body while its condition (if any) is truthy,
/// evaluating its increment (if any) after each pass that does not end in
/// `break` or `return`; `continue` goes on to the increment.  When the loop
/// ends it pops its variables; then the block goes on after it, or, after a
/// `return`, ends with it.
pub proof fn law_for(block: Seq<Node>, st: BlockState, ev: BlockEvent)
    requires
        st.wf(block),
        st.spec_awaits(ev),
        st.phase is ForCond || st.phase is ForBody || st.phase is ForPop,
    ensures
        ({
            let r = spec_block_step(block, st, ev);
            let n = block[st.pos as int];
            let test = if has_condition(n) {
                BlockAction::EvalCondition(st.pos, 0)
            } else {
                BlockAction::RunInner(st.pos, 0)
            };
            match (st.phase, ev) {
                (BlockPhase::ForCond, BlockEvent::Condition(true)) => r.1 == BlockAction::RunInner(st.pos, 0),
                (BlockPhase::ForCond, BlockEvent::Condition(false)) => r.1 == BlockAction::Pop(st.params) && r.0.phase
                    == BlockPhase::ForPop(None),
                (BlockPhase::ForBody, BlockEvent::Inner(Some(FlowKind::Break))) => r.1 == BlockAction::Pop(st.params)
                    && r.0.phase == BlockPhase::ForPop(None),
                (BlockPhase::ForBody, BlockEvent::Inner(Some(FlowKind::Return))) => r.1 == BlockAction::Pop(st.params)
                    && r.0.phase == BlockPhase::ForPop(Some(FlowKind::Return)),
                (BlockPhase::ForBody, BlockEvent::Inner(_)) => if has_increment(n) {
                    r.1 == BlockAction::EvalIncrement(st.pos)
                } else {
                    r.1 == test
                },
                (BlockPhase::ForPop(None), _) => r == spec_start(block, (st.pos + 1) as usize, st.pushed),
                (BlockPhase::ForPop(Some(k)), _) => r.1 == BlockAction::Finish(st.pushed, Some(k)),
                _ => false,
            }
        }),
{
}

/// Each statement starts with the work that its kind calls for: an
/// expression or a declaration is carried out and the block moves to the
/// next statement; an inner block runs; an `if` chain or a `while` loop
/// first evaluates its (first) condition; a `for` loop opens its scope;
/// `break` and `continue` end the block at once, reporting the flow of the
/// same name; `return` first evaluates its value, then ends the block
/// reporting `Return`; past the last statement the block ends with no flow.
/// In each case the block pops exactly the cells its declarations pushed.
pub proof fn law_statement_start(block: Seq<Node>, st: BlockState)
    requires
        st.wf(block),
        st.phase == BlockPhase::Ready,
    ensures
        ({
            let r = spec_block_step(block, st, BlockEvent::Done);
            let p = st.pos;
            if p == block.len() {
                r.1 == BlockAction::Finish(st.pushed, None) && st.pushed == block_decls(block)
            } else {
                match block[p as int] {
                    Node::Expression(_) => r.1 == BlockAction::Eval(p) && r.0.pos == p + 1 && r.0.phase == BlockPhase::Ready,
                    Node::Declaration(d) => r.1 == BlockAction::Eval(p) && r.0.pos == p + 1 && r.0.phase == BlockPhase::Ready
                        && r.0.pushed == st.pushed + d.declarations@.len(),
                    Node::Block(_) => r.1 == BlockAction::RunInner(p, 0),
                    Node::LogicChain { .. } => r.1 == BlockAction::EvalCondition(p, 0),
                    Node::While(_) => r.1 == BlockAction::EvalCondition(p, 0),
                    Node::For { .. } => r.1 == BlockAction::Eval(p),
                    Node::ControlFlow(f) => match f.kind {
                        BreakType::Break => r.1 == BlockAction::Finish(st.pushed, Some(FlowKind::Break))
                            && r.0.phase == BlockPhase::Finished,
                        BreakType::Continue => r.1 == BlockAction::Finish(st.pushed, Some(FlowKind::Continue))
                            && r.0.phase == BlockPhase::Finished,
                        BreakType::Return(_) => r.1 == BlockAction::Eval(p) && spec_block_step(block, r.0, BlockEvent::Done).1
                            == BlockAction::Finish(st.pushed, Some(FlowKind::Return)),
                    },
                }
            }
        }),
{
    if st.pos < block.len() {
        assert(decls_before(block, st.pos + 1) == st.pushed + decl_count(block[st.pos as int]));
        lemma_decls_grow(block, st.pos + 1, block.len() as int);
        assert(spec_block_step(block, st, BlockEvent::Done) == spec_start(block, st.pos, st.pushed));
    }
}

/// A `break` directly in a `while` body ends the loop and the block goes on
/// with the statement after it; a `continue` there goes back to the
/// condition.  With the body `{ break; }` the loop runs its body at most once.
pub proof fn law_break_leaves_while(outer: Seq<Node>, st: BlockState, body: Seq<Node>, bst: BlockState)
    requires
        st.wf(outer),
        st.phase == BlockPhase::WhileBody,
        bst.wf(body),
        bst.phase == BlockPhase::Ready,
        bst.pos < body.len(),
        body[bst.pos as int] matches Node::ControlFlow(f) && (f.kind is Break || f.kind is Continue),
    ensures
        ({
            let inner = spec_block_step(body, bst, BlockEvent::Done).1;
            &&& inner matches BlockAction::Finish(_, Some(k))
            &&& (body[bst.pos as int] matches Node::ControlFlow(f) && f.kind is Break) ==> (inner
                == BlockAction::Finish(bst.pushed, Some(FlowKind::Break))
                && spec_block_step(outer, st, BlockEvent::Inner(Some(FlowKind::Break)))
                == spec_start(outer, (st.pos + 1) as usize, st.pushed))
            &&& (body[bst.pos as int] matches Node::ControlFlow(f) && f.kind is Continue) ==> (inner
                == BlockAction::Finish(bst.pushed, Some(FlowKind::Continue))
                && spec_block_step(outer, st, BlockEvent::Inner(Some(FlowKind::Continue))).1
                == BlockAction::EvalCondition(st.pos, 0))
        }),
{
}

} // verus!
