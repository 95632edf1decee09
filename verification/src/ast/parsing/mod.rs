pub mod constructs;
pub mod data_store;
pub mod expression;
pub mod opexpr;
pub mod paren;
pub mod scope;
pub mod util;

use self::constructs::{expect_token, parse_decl, parse_if_block, parse_import, parse_proc};
use self::data_store::{lemma_extends_refl, lemma_extends_trans, Store};
use self::expression::{flat_expression, items_of, parse_expr, tokens_fit};
use self::opexpr::{resolve_spec, OpExpr};
use self::paren::{paren_expr, paren_expression};
use self::scope::Scope;
use self::util::{take_until, zero_level, Stop, Tokens};
use crate::ast::node::{Block, BreakType, ConditionBodyPair, Expression, FlowBreak, Node, Program};
use crate::lex::tokens::{Grouper, Keyword, SpecToken, Token};
use crate::location::{Located, Location};
use crate::ast::refs::{
    expr_refs, lemma_declarators_refs_grow, lemma_expr_refs_grow, lemma_nodes_refs_grow, lemma_pairs_refs_grow, node_refs,
    nodes_refs, pairs_refs,
};
use vstd::prelude::*;

verus! {

#[derive(Debug)]
pub enum ParseError {
    UnexpectedEOF,
    UnexpectedToken(Located<Token>),
    IllegallyScopedImport(Location),
    IllegalExpression(Location),
    IllegalLeftExpression(Location),
    InvalidThisReference(Location),
    FunctionNotAtTopLevel(Location),
    DuplicateParam(Located<usize>),
    ParamAfterSpread(Located<usize>),
    MisplacedImport(Location),
}

pub type ParseResult<T> = Result<T, ParseError>;

impl ParseError {
    /// This error, unless it is an unexpected end of input, which becomes `o`.
    pub fn neof_or(self, o: Self) -> (r: Self)
        ensures
            r == (if self is UnexpectedEOF { o } else { self }),
    {
        match self {
            ParseError::UnexpectedEOF => o,
            _ => self,
        }
    }
}

/// What `break;` or `continue;` parses to: the jump, when a semicolon
/// follows the keyword.
pub open spec fn jump_result(token: Located<Token>, rest: Seq<Located<Token>>, kind: BreakType) -> ParseResult<Node> {
    if rest.len() == 0 {
        Err(ParseError::UnexpectedEOF)
    } else if rest[0].data@ == SpecToken::Semicolon {
        Ok(Node::ControlFlow(FlowBreak { kind, allocations: 0, start: token.start, end: token.end }))
    } else {
        Err(ParseError::UnexpectedToken(rest[0]))
    }
}

/// Whether a token is the keyword `break` or `continue`.
pub open spec fn is_jump_keyword(t: Token) -> bool {
    t == Token::Keyword(Keyword::Break) || t == Token::Keyword(Keyword::Continue)
}

/// The statement that `break;` or `continue;` at `t` parses to.
pub open spec fn jump_node(t: Located<Token>) -> Node {
    Node::ControlFlow(FlowBreak {
        kind: if t.data == Token::Keyword(Keyword::Break) { BreakType::Break } else { BreakType::Continue },
        allocations: 0,
        start: t.start,
        end: t.end,
    })
}

/// Whether the tokens are a run of `break;` and `continue;` statements.
pub open spec fn jump_run(ts: Seq<Located<Token>>) -> bool
    decreases ts.len(),
{
    if ts.len() == 0 {
        true
    } else {
        ts.len() >= 2 && is_jump_keyword(ts[0].data) && ts[1].data@ == SpecToken::Semicolon && jump_run(ts.skip(2))
    }
}

/// The statements that such a run parses to, in order.
pub open spec fn jump_nodes(ts: Seq<Located<Token>>) -> Seq<Node>
    decreases ts.len(),
{
    if ts.len() < 2 {
        Seq::empty()
    } else {
        seq![jump_node(ts[0])] + jump_nodes(ts.skip(2))
    }
}

/// Whether `n` is the kind of statement that its first token `token` opens:
/// a block, a loop, a conditional, a declaration (`decl` mutable, `im` not),
/// a jump, or else an expression.
pub open spec fn node_starts_with(n: Node, token: Located<Token>) -> bool {
    match token.data {
        Token::OpenGroup(Grouper::Brace) => n is Block,
        Token::Keyword(Keyword::While) => n is While,
        Token::Keyword(Keyword::If) => n is LogicChain,
        Token::Keyword(Keyword::For) => n is For,
        Token::Keyword(Keyword::Decl) => n matches Node::Declaration(d) && d.mutable,
        Token::Keyword(Keyword::Im) => n matches Node::Declaration(d) && !d.mutable,
        Token::Keyword(Keyword::Break) => n matches Node::ControlFlow(f) && f.kind is Break,
        Token::Keyword(Keyword::Continue) => n matches Node::ControlFlow(f) && f.kind is Continue,
        Token::Keyword(Keyword::Return) => n matches Node::ControlFlow(f) && f.kind is Return
            && f.start == token.start && f.end == token.end,
        _ => n is Expression,
    }
}

/// Whether a statement that starts with `t` is an expression followed by a
/// semicolon.
pub open spec fn starts_expression(t: Token) -> bool {
    match t {
        Token::OpenGroup(Grouper::Brace) | Token::Semicolon => false,
        Token::Keyword(k) => !(k == Keyword::While || k == Keyword::If || k == Keyword::Break || k == Keyword::Continue
            || k == Keyword::Return || k == Keyword::Decl || k == Keyword::Im || k == Keyword::Proc
            || k == Keyword::Public || k == Keyword::Import || k == Keyword::For),
        _ => true,
    }
}

/// Reading up to a stop token leaves a suffix.
proof fn lemma_read_suffix(ts: Seq<Located<Token>>, stop: Stop)
    ensures
        util::is_suffix(ts.skip(util::zero_level_read(ts, stop)), ts),
{
    util::lemma_zero_level_read_bounds(ts, stop);
    util::lemma_skip_suffix(ts, util::zero_level_read(ts, stop));
}

/// Everything that parsing the statement that starts with `token` gives,
/// where `before` are the tokens after it, `after` those left once the
/// statement is read, `r` the outcome, and `strs` and `sizes` the string
/// table and the table sizes then: the statement's kind, the errors of
/// malformed statements, the trees of its parts where they are stated, and
/// how many tokens it takes.
pub open spec fn construct_post(
    token: Located<Token>,
    before: Seq<Located<Token>>,
    after: Seq<Located<Token>>,
    r: ParseResult<Node>,
    strs: Seq<Seq<char>>,
    sizes: crate::ast::refs::Sizes,
) -> bool {
    &&& after.len() <= before.len()
    &&& r is Ok ==> util::is_suffix(after, before)
    &&& token.data is Semicolon ==> r == Err::<Node, ParseError>(ParseError::UnexpectedToken(token))
    &&& token.data == Token::Keyword(Keyword::Proc) || token.data == Token::Keyword(Keyword::Public)
        ==> r == Err::<Node, ParseError>(ParseError::FunctionNotAtTopLevel(token.start))
    &&& token.data == Token::Keyword(Keyword::Import) ==> r == Err::<Node, ParseError>(ParseError::MisplacedImport(token.start))
    &&& token.data == Token::Keyword(Keyword::Break) ==> r == jump_result(token, before, BreakType::Break)
    &&& token.data == Token::Keyword(Keyword::Continue) ==> r == jump_result(token, before, BreakType::Continue)
    &&& is_jump_keyword(token.data) && before.len() > 0 ==> after == before.drop_first()
    &&& r matches Ok(n) ==> node_starts_with(n, token)
    &&& token.data == Token::Keyword(Keyword::While) ==> match util::zero_level_spec(before, Stop::Open(Grouper::Brace)) {
        Err(e) => r == Err::<Node, ParseError>(e),
        Ok(Err(_)) => r == Err::<Node, ParseError>(ParseError::UnexpectedEOF),
        Ok(Ok((c, _))) => {
            let past_cond = before.skip(util::zero_level_read(before, Stop::Open(Grouper::Brace)));
            &&& c.len() == 0 ==> r == Err::<Node, ParseError>(ParseError::UnexpectedEOF)
            &&& flat_expression(c) && tokens_fit(c) ==> exists|items: Seq<OpExpr>| {
                &&& items_of(items, c, strs)
                &&& resolve_spec(items) matches Err(e) ==> r == Err::<Node, ParseError>(e)
                &&& resolve_spec(items) matches Ok(e) ==> match util::zero_level_spec(past_cond, Stop::Close(Grouper::Brace)) {
                    Err(e2) => r == Err::<Node, ParseError>(e2),
                    Ok(Err(_)) => r == Err::<Node, ParseError>(ParseError::UnexpectedEOF),
                    Ok(Ok((b, _))) => jump_run(b) ==> (r matches Ok(Node::While(p)) && p.condition == e
                        && p.block@ == jump_nodes(b)),
                }
            }
        },
    }
    &&& token.data == Token::Keyword(Keyword::If) ==> match util::zero_level_spec(before, Stop::Open(Grouper::Brace)) {
        Ok(Ok((c, _))) => {
            let past_cond = before.skip(util::zero_level_read(before, Stop::Open(Grouper::Brace)));
            flat_expression(c) && tokens_fit(c) ==> exists|items: Seq<OpExpr>| {
                &&& items_of(items, c, strs)
                &&& resolve_spec(items) matches Ok(e) ==> match util::zero_level_spec(past_cond, Stop::Close(Grouper::Brace)) {
                    Ok(Ok((b, _))) => {
                        let next = past_cond.skip(b.len() as int + 1);
                        jump_run(b) && !(next.len() > 0 && next[0].data@ == SpecToken::Keyword(Keyword::Else)) ==> (
                            r matches Ok(Node::LogicChain { if_block, elseifs, else_block }) && if_block.condition == e
                            && if_block.block@ == jump_nodes(b) && elseifs@.len() == 0 && else_block is None)
                    },
                    _ => true,
                }
            }
        },
        _ => true,
    }
    &&& token.data == Token::Keyword(Keyword::Decl) || token.data == Token::Keyword(Keyword::Im) ==> {
        let rest = before;
        &&& rest.len() > 1 && rest[0].data is Identifier && rest[1].data is Semicolon ==> (r matches Ok(Node::Declaration(d))
            && d.mutable == (token.data == Token::Keyword(Keyword::Decl)) && d.declarations@.len() == 1
            && d.declarations@[0].value == Expression::Nil)
        &&& rest.len() > 1 && rest[0].data is Identifier && rest[1].data == Token::AssignOp(crate::operators::Assignment::Assign)
            ==> match util::zero_level_spec(rest.skip(2), Stop::SemicolonOrComma) {
                Ok(Ok((v, last))) => flat_expression(v) && tokens_fit(v) ==> exists|items: Seq<OpExpr>| {
                    &&& items_of(items, v, strs)
                    &&& resolve_spec(items) matches Err(e) ==> r == Err::<Node, ParseError>(e)
                    &&& resolve_spec(items) matches Ok(e) ==> (last.data is Semicolon ==> (r matches Ok(Node::Declaration(d))
                        && d.mutable == (token.data == Token::Keyword(Keyword::Decl)) && d.declarations@.len() == 1
                        && d.declarations@[0].value == e))
                },
                Ok(Err(_)) => r == Err::<Node, ParseError>(ParseError::UnexpectedEOF),
                Err(e) => r == Err::<Node, ParseError>(e),
            }
    }
    &&& token.data == Token::OpenGroup(Grouper::Brace) ==> match util::zero_level_spec(before, Stop::Close(Grouper::Brace)) {
        Ok(Ok((v, _))) => jump_run(v) ==> (r matches Ok(Node::Block(b)) && b@ == jump_nodes(v)),
        Ok(Err(_)) => r == Err::<Node, ParseError>(ParseError::UnexpectedEOF),
        Err(e) => r == Err::<Node, ParseError>(e),
    }
    &&& r matches Ok(n) ==> node_refs(n, sizes)
    &&& starts_expression(token.data) ==> match util::zero_level_spec(before, Stop::Semicolon) {
        Ok(Ok((v, _))) => {
            &&& paren_expression(seq![token] + v)
                ==> (r matches Ok(n) ==> n matches Node::Expression(e) && paren_expr(seq![token] + v, e, strs))
            &&& self::expression::operand_chain_tokens(seq![token] + v) ==> r matches Ok(Node::Expression(_))
        },
        Ok(Err(_)) => r == Err::<Node, ParseError>(ParseError::UnexpectedEOF),
        Err(e) => r == Err::<Node, ParseError>(e),
    }
    &&& token.data == Token::Keyword(Keyword::Return) ==> match util::zero_level_spec(before, Stop::Semicolon) {
        Ok(Ok((v, _))) => {
            &&& v.len() == 0 ==> r == Ok::<Node, ParseError>(
                Node::ControlFlow(FlowBreak { kind: BreakType::Return(Expression::Nil), allocations: 0, start: token.start, end: token.end }))
            &&& v.len() > 0 && paren_expression(v) ==> (r matches Ok(n) ==> (n matches Node::ControlFlow(f)
                && (f.kind matches BreakType::Return(e) && paren_expr(v, e, strs))))
        },
        Ok(Err(_)) => r == Err::<Node, ParseError>(ParseError::UnexpectedEOF),
        Err(e) => r == Err::<Node, ParseError>(e),
    }
    &&& starts_expression(token.data) && r is Ok ==> after == before.skip(util::zero_level_read(before, Stop::Semicolon))
    &&& token.data == Token::Keyword(Keyword::Return) && r is Ok ==> after == before.skip(util::zero_level_read(before, Stop::Semicolon))
    &&& token.data == Token::OpenGroup(Grouper::Brace) && r is Ok ==> after == before.skip(
        util::zero_level_read(before, Stop::Close(Grouper::Brace)))
    &&& token.data == Token::Keyword(Keyword::While) && r is Ok ==> after == constructs::if_block_rest(before)
    &&& token.data == Token::Keyword(Keyword::Decl) || token.data == Token::Keyword(Keyword::Im) ==> (r matches Ok(
        Node::Declaration(d)) ==> {
        &&& forall|j: int| 0 <= j < d.declarations@.len() ==> constructs::declarator_of(
            before.skip(constructs::declarator_pos(before, j as nat)),
            #[trigger] d.declarations@[j],
            strs,
        )
        &&& forall|j: int| 0 <= j < d.declarations@.len() ==> (constructs::declarator_more(
            before.skip(#[trigger] constructs::declarator_pos(before, j as nat))) <==> j < d.declarations@.len() - 1)
        &&& after == before.skip(constructs::declarator_pos(before, d.declarations@.len()))
    })
}

/// The tokens of a `for` loop after its declaration part, where `ts` are
/// the tokens after `for` and `n` the number of declarators.
pub open spec fn for_after_decl(ts: Seq<Located<Token>>, n: nat) -> Seq<Located<Token>> {
    if ts.len() > 0 && (ts[0].data == Token::Keyword(Keyword::Decl) || ts[0].data == Token::Keyword(Keyword::Im)) {
        ts.skip(1).skip(constructs::declarator_pos(ts.skip(1), n))
    } else {
        ts.skip(1)
    }
}

/// The tokens up to a stop token, if one stands at the top level.
pub open spec fn part_before(ts: Seq<Located<Token>>, stop: Stop) -> Option<Seq<Located<Token>>> {
    match util::zero_level_spec(ts, stop) {
        Ok(Ok((v, _))) => Some(v),
        _ => None,
    }
}

/// Whether an optional expression is what the tokens `c` give: none for no
/// tokens, else the expression they stand for.
pub open spec fn opt_tied(c: Seq<Located<Token>>, e: Option<Expression>, strs: Seq<Seq<char>>) -> bool {
    &&& e is None <==> c.len() == 0
    &&& e matches Some(x) ==> self::expression::expr_tied(c, x, strs)
}

/// Whether the parts of a `for` loop are those its tokens `ts` (after `for`)
/// spell: its declarators, its condition and increment, and the statements
/// of its body.
pub open spec fn for_parts_tied(
    ts: Seq<Located<Token>>,
    declaration: Option<crate::ast::node::Declaration>,
    condition: Option<Expression>,
    increment: Option<Expression>,
    body: Seq<Node>,
    strs: Seq<Seq<char>>,
) -> bool {
    let n = match declaration {
        Some(d) => d.declarations@.len(),
        None => 0,
    };
    let r1 = for_after_decl(ts, n);
    let r2 = r1.skip(util::zero_level_read(r1, Stop::Semicolon));
    let r3 = r2.skip(util::zero_level_read(r2, Stop::Open(Grouper::Brace)));
    &&& ts.len() > 0
    &&& declaration matches Some(d) ==> {
        &&& d.mutable == (ts[0].data == Token::Keyword(Keyword::Decl))
        &&& forall|j: int| 0 <= j < d.declarations@.len() ==> constructs::declarator_of(
            ts.skip(1).skip(constructs::declarator_pos(ts.skip(1), j as nat)),
            #[trigger] d.declarations@[j],
            strs,
        )
    }
    &&& declaration is None ==> ts[0].data is Semicolon
    &&& part_before(r1, Stop::Semicolon) matches Some(c) && opt_tied(c, condition, strs)
    &&& part_before(r2, Stop::Open(Grouper::Brace)) matches Some(i) && opt_tied(i, increment, strs)
    &&& part_before(r3, Stop::Close(Grouper::Brace)) matches Some(b) && statements_of(b, body, strs)
}

/// Parses the statement that starts with `token`, reading the rest of it from `tokens`.
#[verifier::rlimit(60)]
pub fn next_construct(token: Located<Token>, tokens: &mut Tokens, scope: Scope, store: &mut Store) -> (r: ParseResult<Node>)
    requires
        old(store).wf(),
    ensures
        final(store).wf(),
        final(store).extends(old(store)),
        construct_post(token, old(tokens).rest(), final(tokens).rest(), r, final(store).strs(), final(store).sizes()),
        token.data == Token::OpenGroup(Grouper::Brace) ==> (r matches Ok(Node::Block(b)) ==> match util::zero_level_spec(
            old(tokens).rest(),
            Stop::Close(Grouper::Brace),
        ) {
            Ok(Ok((v, _))) => statements_of(v, b@, final(store).strs()),
            _ => true,
        }),
        token.data == Token::Keyword(Keyword::If) ==> (r matches Ok(Node::LogicChain { if_block, .. })
            ==> constructs::pair_tied(old(tokens).rest(), if_block, final(store).strs())),
        token.data == Token::Keyword(Keyword::For) ==> (r matches Ok(Node::For { declaration, condition, increment, body })
            ==> for_parts_tied(old(tokens).rest(), declaration, condition, increment, body@, final(store).strs())),
        token.data == Token::Keyword(Keyword::While) ==> (r matches Ok(Node::While(p)) ==> match util::zero_level_spec(
            old(tokens).rest().skip(util::zero_level_read(old(tokens).rest(), Stop::Open(Grouper::Brace))),
            Stop::Close(Grouper::Brace),
        ) {
            Ok(Ok((b, _))) => statements_of(b, p.block@, final(store).strs()),
            _ => true,
        }),
    decreases old(tokens).rest().len() + 1, 0nat,
{
    proof { lemma_extends_refl(store); }
    let ghost before = tokens.rest();
    match &token.data {
        Token::OpenGroup(Grouper::Brace) => {
            let (v, _) = match take_until(tokens, Grouper::Brace) {
                Ok(x) => x,
                Err(e) => return Err(e),
            };
            proof { lemma_read_suffix(before, Stop::Close(Grouper::Brace)); }
            match ast_level(v, scope, store) {
                Ok(b) => Ok(Node::Block(b)),
                Err(e) => Err(e),
            }
        },
        Token::Keyword(Keyword::While) => {
            let res = parse_if_block(tokens, scope.with_loop(true), store);
            proof { constructs::lemma_if_block_rest_suffix(before); }
            match res {
                Ok(pair) => Ok(Node::While(pair)),
                Err(e) => Err(e),
            }
        },
        Token::Keyword(Keyword::If) => {
            let if_block = match parse_if_block(tokens, scope, store) {
                Ok(b) => b,
                Err(e) => return Err(e),
            };
            proof { constructs::lemma_if_block_rest_suffix(before); }
            let mut elseifs: Vec<ConditionBodyPair> = Vec::new();
            let mut else_block: Option<Block> = None;
            let ghost rest_after = tokens.rest();
            let ghost zc = util::zero_level_spec(old(tokens).rest(), Stop::Open(Grouper::Brace));
            let ghost cond_toks: Seq<Located<Token>> = match zc {
                Ok(Ok((c, _))) => c,
                _ => Seq::empty(),
            };
            let ghost simple = zc is Ok && zc->Ok_0 is Ok && flat_expression(cond_toks) && tokens_fit(cond_toks);
            let ghost w: Seq<OpExpr> = if simple {
                choose|items: Seq<OpExpr>| items_of(items, cond_toks, store.strs())
                    && (resolve_spec(items) matches Ok(e) ==> e == if_block.condition)
            } else {
                Seq::empty()
            };
            proof {
                assert(pairs_refs(elseifs@, store.sizes()));
            }
            loop
                invariant
                    store.wf(),
                    store.extends(old(store)),
                    tokens.rest().len() <= old(tokens).rest().len(),
                    token.data == Token::Keyword(Keyword::If),
                    before == old(tokens).rest(),
                    constructs::pair_tied(before, if_block, store.strs()),
                    util::is_suffix(tokens.rest(), before),
                    expr_refs(if_block.condition, store.sizes()) && nodes_refs(if_block.block@, store.sizes()),
                    pairs_refs(elseifs@, store.sizes()),
                    else_block matches Some(b) ==> nodes_refs(b@, store.sizes()),
                    !(rest_after.len() > 0 && rest_after[0].data@ == SpecToken::Keyword(Keyword::Else))
                        ==> elseifs@.len() == 0 && else_block is None && tokens.rest() == rest_after,
                    zc == util::zero_level_spec(old(tokens).rest(), Stop::Open(Grouper::Brace)),
                    cond_toks == (match zc {
                        Ok(Ok((c, _))) => c,
                        _ => Seq::empty(),
                    }),
                    simple == (zc is Ok && zc->Ok_0 is Ok && flat_expression(cond_toks) && tokens_fit(cond_toks)),
                    simple ==> items_of(w, cond_toks, store.strs()),
                    simple && resolve_spec(w) is Ok ==> match util::zero_level_spec(
                        old(tokens).rest().skip(util::zero_level_read(old(tokens).rest(), Stop::Open(Grouper::Brace))),
                        Stop::Close(Grouper::Brace),
                    ) {
                        Ok(Ok((b, _))) => jump_run(b) ==> rest_after == old(tokens).rest().skip(
                            util::zero_level_read(old(tokens).rest(), Stop::Open(Grouper::Brace))).skip(b.len() as int + 1)
                            && if_block.block@ == jump_nodes(b) && resolve_spec(w) == Ok::<Expression, ParseError>(if_block.condition),
                        _ => true,
                    },
                ensures
                    util::is_suffix(tokens.rest(), before),
                    constructs::pair_tied(before, if_block, store.strs()),
                    store.wf(),
                    store.extends(old(store)),
                    tokens.rest().len() <= old(tokens).rest().len(),
                    expr_refs(if_block.condition, store.sizes()) && nodes_refs(if_block.block@, store.sizes()),
                    pairs_refs(elseifs@, store.sizes()),
                    else_block matches Some(b) ==> nodes_refs(b@, store.sizes()),
                    !(rest_after.len() > 0 && rest_after[0].data@ == SpecToken::Keyword(Keyword::Else))
                        ==> elseifs@.len() == 0 && else_block is None && tokens.rest() == rest_after,
                    zc == util::zero_level_spec(old(tokens).rest(), Stop::Open(Grouper::Brace)),
                    cond_toks == (match zc {
                        Ok(Ok((c, _))) => c,
                        _ => Seq::empty(),
                    }),
                    simple == (zc is Ok && zc->Ok_0 is Ok && flat_expression(cond_toks) && tokens_fit(cond_toks)),
                    simple ==> items_of(w, cond_toks, store.strs()),
                    simple && resolve_spec(w) is Ok ==> match util::zero_level_spec(
                        old(tokens).rest().skip(util::zero_level_read(old(tokens).rest(), Stop::Open(Grouper::Brace))),
                        Stop::Close(Grouper::Brace),
                    ) {
                        Ok(Ok((b, _))) => jump_run(b) ==> rest_after == old(tokens).rest().skip(
                            util::zero_level_read(old(tokens).rest(), Stop::Open(Grouper::Brace))).skip(b.len() as int + 1)
                            && if_block.block@ == jump_nodes(b) && resolve_spec(w) == Ok::<Expression, ParseError>(if_block.condition),
                        _ => true,
                    },
                decreases tokens.rest().len(),
            {
                if else_block.is_some() {
                    break;
                }
                let ghost r0 = tokens.rest();
                if tokens.next_if_is(&Token::Keyword(Keyword::Else)).is_none() {
                    break;
                }
                let t = match tokens.next() {
                    Some(t) => t,
                    None => return Err(ParseError::UnexpectedEOF),
                };
                proof {
                    assert(tokens.rest() =~= r0.skip(2));
                    util::lemma_skip_suffix(r0, 2);
                    util::lemma_suffix_trans(tokens.rest(), r0, before);
                }
                let ghost r1 = tokens.rest();
                let ghost s0 = *store;
                match &t.data {
                    Token::OpenGroup(Grouper::Brace) => {
                        let (v, _) = match take_until(tokens, Grouper::Brace) {
                            Ok(x) => x,
                            Err(e) => return Err(e),
                        };
                        proof {
                            lemma_read_suffix(r1, Stop::Close(Grouper::Brace));
                            util::lemma_suffix_trans(tokens.rest(), r1, before);
                        }
                        let b = ast_level(v, scope, store);
                        proof {
                            lemma_extends_trans(old(store), &s0, store);
                            lemma_expr_refs_grow(if_block.condition, s0.sizes(), store.sizes());
                            lemma_nodes_refs_grow(if_block.block@, s0.sizes(), store.sizes());
                            lemma_pairs_refs_grow(elseifs@, s0.sizes(), store.sizes());
                            constructs::lemma_pair_tied_grow(before, if_block, s0.strs(), store.strs());
                            if simple {
                                self::expression::lemma_items_grow(w, cond_toks, s0.strs(), store.strs());
                            }
                        }
                        match b {
                            Ok(b) => else_block = Some(b),
                            Err(e) => return Err(e),
                        }
                    },
                    Token::Keyword(Keyword::If) => {
                        let b = parse_if_block(tokens, scope, store);
                        proof {
                            constructs::lemma_if_block_rest_suffix(r1);
                            if b is Ok {
                                util::lemma_suffix_trans(tokens.rest(), r1, before);
                            }
                            lemma_extends_trans(old(store), &s0, store);
                            lemma_expr_refs_grow(if_block.condition, s0.sizes(), store.sizes());
                            lemma_nodes_refs_grow(if_block.block@, s0.sizes(), store.sizes());
                            lemma_pairs_refs_grow(elseifs@, s0.sizes(), store.sizes());
                            constructs::lemma_pair_tied_grow(before, if_block, s0.strs(), store.strs());
                            if simple {
                                self::expression::lemma_items_grow(w, cond_toks, s0.strs(), store.strs());
                            }
                        }
                        let ghost before = elseifs@;
                        match b {
                            Ok(b) => {
                                elseifs.push(b);
                                assert(elseifs@.drop_last() =~= before);
                            },
                            Err(e) => return Err(e),
                        }
                    },
                    _ => return Err(ParseError::UnexpectedToken(t)),
                }
            }
            Ok(Node::LogicChain { if_block, elseifs, else_block })
        },
        Token::Keyword(Keyword::Break) => {
            let res = expect_token(tokens, &Token::Semicolon);
            proof {
                if before.len() > 0 {
                    assert(before.drop_first() =~= before.skip(1));
                    util::lemma_skip_suffix(before, 1);
                }
            }
            match res {
                Ok(_) => Ok(Node::ControlFlow(FlowBreak::new_break(token.start, token.end))),
                Err(e) => Err(e),
            }
        },
        Token::Keyword(Keyword::Continue) => {
            let res = expect_token(tokens, &Token::Semicolon);
            proof {
                if before.len() > 0 {
                    assert(before.drop_first() =~= before.skip(1));
                    util::lemma_skip_suffix(before, 1);
                }
            }
            match res {
                Ok(_) => Ok(Node::ControlFlow(FlowBreak::new_continue(token.start, token.end))),
                Err(e) => Err(e),
            }
        },
        Token::Keyword(Keyword::Return) => {
            let (v, _) = match zero_level(tokens, Stop::Semicolon) {
                Ok(x) => x,
                Err(e) => return Err(e),
            };
            proof { lemma_read_suffix(before, Stop::Semicolon); }
            let expr = if v.len() == 0 {
                Expression::Nil
            } else {
                match parse_expr(v, scope.in_lam, store) {
                    Ok(e) => e,
                    Err(e) => return Err(e),
                }
            };
            Ok(Node::ControlFlow(FlowBreak::new_return(expr, token.start, token.end)))
        },
        Token::Keyword(Keyword::Decl) => match parse_decl(tokens, true, scope, store) {
            Ok(d) => {
                proof {
                    util::lemma_skip_suffix(before, constructs::declarator_pos(before, d.declarations@.len()));
                }
                Ok(Node::Declaration(d))
            },
            Err(e) => Err(e),
        },
        Token::Keyword(Keyword::Im) => match parse_decl(tokens, false, scope, store) {
            Ok(d) => {
                proof {
                    util::lemma_skip_suffix(before, constructs::declarator_pos(before, d.declarations@.len()));
                }
                Ok(Node::Declaration(d))
            },
            Err(e) => Err(e),
        },
        Token::Keyword(Keyword::Proc) | Token::Keyword(Keyword::Public) => {
            Err(ParseError::FunctionNotAtTopLevel(token.start))
        },
        Token::Keyword(Keyword::Import) => Err(ParseError::MisplacedImport(token.start)),
        Token::Keyword(Keyword::For) => {
            let t = match tokens.next() {
                Some(t) => t,
                None => return Err(ParseError::UnexpectedEOF),
            };
            proof {
                assert(tokens.rest() =~= before.skip(1));
                util::lemma_skip_suffix(before, 1);
            }
            let ghost s0 = *store;
            let declaration = match &t.data {
                Token::Keyword(Keyword::Decl) => match parse_decl(tokens, true, scope, store) {
                    Ok(d) => Some(d),
                    Err(e) => return Err(e),
                },
                Token::Keyword(Keyword::Im) => match parse_decl(tokens, false, scope, store) {
                    Ok(d) => Some(d),
                    Err(e) => return Err(e),
                },
                Token::Semicolon => None,
                _ => return Err(ParseError::UnexpectedToken(t)),
            };
            let ghost s1 = *store;
            proof {
                if declaration is None {
                    assert(store.sizes() == s1.sizes());
                }
            }
            let ghost rc = tokens.rest();
            proof {
                match &declaration {
                    Some(d) => {
                        util::lemma_skip_suffix(before.skip(1), constructs::declarator_pos(before.skip(1), d.declarations@.len()));
                        util::lemma_suffix_trans(rc, before.skip(1), before);
                    },
                    None => {},
                }
            }
            let (c, _) = match zero_level(tokens, Stop::Semicolon) {
                Ok(x) => x,
                Err(e) => return Err(e),
            };
            proof {
                lemma_read_suffix(rc, Stop::Semicolon);
                util::lemma_suffix_trans(tokens.rest(), rc, before);
            }
            let ghost cv = c@;
            let condition = if c.len() == 0 {
                None
            } else {
                match parse_expr(c, scope.in_lam, store) {
                    Ok(e) => {
                        proof {
                            if flat_expression(cv) && tokens_fit(cv) {
                                let items = choose|items: Seq<OpExpr>| items_of(items, cv, store.strs()) && Ok::<Expression, ParseError>(e) == resolve_spec(items);
                                assert(items_of(items, cv, store.strs()));
                            }
                            assert(self::expression::expr_tied(cv, e, store.strs()));
                        }
                        Some(e)
                    },
                    Err(e) => {
                        proof { lemma_extends_trans(old(store), &s1, store); }
                        return Err(e);
                    },
                }
            };
            proof {
                lemma_extends_trans(old(store), &s1, store);
                match &declaration {
                    Some(d) => lemma_declarators_refs_grow(d.declarations@, s1.sizes(), store.sizes()),
                    None => {},
                }
            }
            let ghost s2 = *store;
            let ghost ri = tokens.rest();
            let (i, _) = match zero_level(tokens, Stop::Open(Grouper::Brace)) {
                Ok(x) => x,
                Err(e) => return Err(e),
            };
            proof {
                lemma_read_suffix(ri, Stop::Open(Grouper::Brace));
                util::lemma_suffix_trans(tokens.rest(), ri, before);
            }
            let ghost iv = i@;
            let increment = if i.len() == 0 {
                None
            } else {
                match parse_expr(i, scope.in_lam, store) {
                    Ok(e) => {
                        proof {
                            if flat_expression(iv) && tokens_fit(iv) {
                                let items = choose|items: Seq<OpExpr>| items_of(items, iv, store.strs()) && Ok::<Expression, ParseError>(e) == resolve_spec(items);
                                assert(items_of(items, iv, store.strs()));
                            }
                            assert(self::expression::expr_tied(iv, e, store.strs()));
                        }
                        Some(e)
                    },
                    Err(e) => {
                        proof { lemma_extends_trans(old(store), &s2, store); }
                        return Err(e);
                    },
                }
            };
            proof {
                lemma_extends_trans(old(store), &s2, store);
                match &declaration {
                    Some(d) => lemma_declarators_refs_grow(d.declarations@, s2.sizes(), store.sizes()),
                    None => {},
                }
                match &condition {
                    Some(c) => lemma_expr_refs_grow(*c, s2.sizes(), store.sizes()),
                    None => {},
                }
            }
            let ghost s3 = *store;
            let ghost rb = tokens.rest();
            let (b, _) = match take_until(tokens, Grouper::Brace) {
                Ok(x) => x,
                Err(e) => return Err(e),
            };
            proof {
                lemma_read_suffix(rb, Stop::Close(Grouper::Brace));
                util::lemma_suffix_trans(tokens.rest(), rb, before);
            }
            let body = ast_level(b, scope.with_loop(true), store);
            proof {
                lemma_extends_trans(old(store), &s3, store);
                match &declaration {
                    Some(d) => lemma_declarators_refs_grow(d.declarations@, s3.sizes(), store.sizes()),
                    None => {},
                }
                match &condition {
                    Some(c) => lemma_expr_refs_grow(*c, s3.sizes(), store.sizes()),
                    None => {},
                }
                match &increment {
                    Some(c) => lemma_expr_refs_grow(*c, s3.sizes(), store.sizes()),
                    None => {},
                }
            }
            proof {
                let fs = store.strs();
                match &declaration {
                    Some(d) => {
                        assert forall|j: int| 0 <= j < d.declarations@.len() implies constructs::declarator_of(
                            before.skip(1).skip(constructs::declarator_pos(before.skip(1), j as nat)),
                            #[trigger] d.declarations@[j],
                            fs,
                        ) by {
                            constructs::lemma_declarator_of_grow(before.skip(1).skip(constructs::declarator_pos(before.skip(1), j as nat)),
                                d.declarations@[j], s1.strs(), fs);
                        }
                    },
                    None => {},
                }
                match &condition {
                    Some(e) => self::expression::lemma_expr_tied_grow(cv, *e, s2.strs(), fs),
                    None => {},
                }
                match &increment {
                    Some(e) => self::expression::lemma_expr_tied_grow(iv, *e, s3.strs(), fs),
                    None => {},
                }
            }
            match body {
                Ok(body) => Ok(Node::For { declaration, condition, increment, body }),
                Err(e) => Err(e),
            }
        },
        Token::Semicolon => Err(ParseError::UnexpectedToken(token)),
        _ => {
            let (mut v, semi) = match zero_level(tokens, Stop::Semicolon) {
                Ok(x) => x,
                Err(e) => return Err(e),
            };
            proof { lemma_read_suffix(before, Stop::Semicolon); }
            let ghost sv = v@;
            v.insert(0, token);
            proof {
                assert(v@ =~= seq![token] + sv);
            }
            match parse_expr(v, scope.in_lam, store) {
                Ok(e) => Ok(Node::Expression(e)),
                Err(e) => Err(e.neof_or(ParseError::UnexpectedToken(semi))),
            }
        },
    }
}

/// Whether the string table `a` is kept at the start of `b`.
pub open spec fn strs_prefix(a: Seq<Seq<char>>, b: Seq<Seq<char>>) -> bool {
    a.len() <= b.len() && forall|k: int| 0 <= k < a.len() ==> #[trigger] b[k] == a[k]
}

/// Whether `b` is what parsing the statements of `ts` one after the other
/// gives: statement `i` starts at token `cuts[i]` and its tokens end where
/// statement `i + 1` starts, the last one ending with `ts`; node `i` is the
/// outcome of parsing statement `i` (see `construct_post`) with the string
/// table and table sizes `sts[i]` of that moment, each table kept at the
/// start of `strs`.
pub open spec fn statements_parsed(
    ts: Seq<Located<Token>>,
    cuts: Seq<int>,
    b: Seq<Node>,
    sts: Seq<(Seq<Seq<char>>, crate::ast::refs::Sizes)>,
    strs: Seq<Seq<char>>,
) -> bool {
    &&& cuts.len() == b.len() + 1
    &&& sts.len() == b.len()
    &&& cuts[0] == 0
    &&& cuts[b.len() as int] == ts.len()
    &&& forall|i: int| 0 <= i < b.len() ==> 0 <= #[trigger] cuts[i] && cuts[i] < cuts[i + 1] && cuts[i + 1] <= ts.len()
    &&& forall|i: int| 0 <= i < b.len() ==> construct_post(
        ts[cuts[i]],
        ts.skip(cuts[i] + 1),
        ts.skip(cuts[i + 1]),
        Ok::<Node, ParseError>(#[trigger] b[i]),
        sts[i].0,
        sts[i].1,
    )
    &&& forall|i: int| 0 <= i < b.len() ==> strs_prefix((#[trigger] sts[i]).0, strs)
}

/// Whether `b` is what parsing the statements of `ts` one after the other
/// gives, as `statements_parsed` says for some places where they start and
/// some string tables of their moments.
pub open spec fn statements_of(ts: Seq<Located<Token>>, b: Seq<Node>, strs: Seq<Seq<char>>) -> bool {
    exists|cuts: Seq<int>, sts: Seq<(Seq<Seq<char>>, crate::ast::refs::Sizes)>| statements_parsed(ts, cuts, b, sts, strs)
}

/// Parsed statements stay what they are when the string table grows.
pub proof fn lemma_statements_of_grow(ts: Seq<Located<Token>>, b: Seq<Node>, s1: Seq<Seq<char>>, s2: Seq<Seq<char>>)
    requires
        statements_of(ts, b, s1),
        strs_prefix(s1, s2),
    ensures
        statements_of(ts, b, s2),
{
    let (cuts, sts) = choose|cuts: Seq<int>, sts: Seq<(Seq<Seq<char>>, crate::ast::refs::Sizes)>| statements_parsed(ts, cuts, b, sts, s1);
    assert forall|i: int| 0 <= i < b.len() implies strs_prefix((#[trigger] sts[i]).0, s2) by {
        assert(strs_prefix(sts[i].0, s1));
    }
    assert(statements_parsed(ts, cuts, b, sts, s2));
}

/// Parses a sequence of statements.
#[verifier::rlimit(60)]
pub fn ast_level(tokens: Vec<Located<Token>>, scope: Scope, store: &mut Store) -> (r: ParseResult<Block>)
    requires
        old(store).wf(),
    ensures
        final(store).wf(),
        final(store).extends(old(store)),
        tokens@.len() == 0 ==> (r matches Ok(b) && b@.len() == 0),
        jump_run(tokens@) ==> (r matches Ok(b) && b@ == jump_nodes(tokens@)),
        r matches Ok(b) ==> nodes_refs(b@, final(store).sizes()),
        r matches Ok(b) ==> statements_of(tokens@, b@, final(store).strs()),
    decreases tokens@.len(), 1nat,
{
    let n = tokens.len();
    let mut cur = Tokens::new(tokens);
    let mut program: Block = Vec::new();
    let ghost mut cuts: Seq<int> = seq![0int];
    let ghost mut sts: Seq<(Seq<Seq<char>>, crate::ast::refs::Sizes)> = Seq::empty();
    proof {
        lemma_extends_refl(store);
        assert(tokens@.skip(0) =~= tokens@);
        assert(program@ + jump_nodes(tokens@) =~= jump_nodes(tokens@));
    }
    while !cur.is_empty()
        invariant
            store.wf(),
            store.extends(old(store)),
            cur.rest().len() <= n,
            n == tokens@.len(),
            n == 0 ==> program@.len() == 0,
            nodes_refs(program@, store.sizes()),
            cuts.len() == program@.len() + 1,
            sts.len() == program@.len(),
            cuts[0] == 0,
            cuts[program@.len() as int] == n - cur.rest().len(),
            cur.rest() == tokens@.skip(n - cur.rest().len()),
            forall|i: int| 0 <= i < program@.len() ==> 0 <= #[trigger] cuts[i] && cuts[i] < cuts[i + 1] && cuts[i + 1] <= n,
            forall|i: int| 0 <= i < program@.len() ==> construct_post(
                tokens@[cuts[i]],
                tokens@.skip(cuts[i] + 1),
                tokens@.skip(cuts[i + 1]),
                Ok::<Node, ParseError>(#[trigger] program@[i]),
                sts[i].0,
                sts[i].1,
            ),
            forall|i: int| 0 <= i < program@.len() ==> strs_prefix((#[trigger] sts[i]).0, store.strs()),
            jump_run(tokens@) ==> ({
                let p = n - cur.rest().len();
                &&& cur.rest() == tokens@.skip(p)
                &&& jump_run(tokens@.skip(p))
                &&& program@ + jump_nodes(tokens@.skip(p)) == jump_nodes(tokens@)
            }),
        decreases cur.rest().len(),
    {
        let ghost p0: int = n - cur.rest().len();
        proof {
            if jump_run(tokens@) {
                assert(tokens@.skip(p0).skip(2) =~= tokens@.skip(p0 + 2));
                assert(tokens@.skip(p0).skip(1) =~= tokens@.skip(p0 + 1));
            }
        }
        let token = match cur.next() {
            Some(t) => t,
            None => return Err(ParseError::UnexpectedEOF),
        };
        let ghost s0 = *store;
        let ghost before_rest = cur.rest();
        proof {
            assert(token == tokens@[p0]);
            assert(before_rest =~= tokens@.skip(p0 + 1));
        }
        let node = next_construct(token, &mut cur, scope, store);
        proof {
            lemma_extends_trans(old(store), &s0, store);
            lemma_nodes_refs_grow(program@, s0.sizes(), store.sizes());
        }
        let ghost before = program@;
        match node {
            Ok(node) => {
                program.push(node);
                assert(program@.drop_last() =~= before);
                proof {
                    let q = n - cur.rest().len();
                    assert(cur.rest() =~= tokens@.skip(q));
                    let cuts0 = cuts;
                    let sts0 = sts;
                    cuts = cuts.push(q);
                    sts = sts.push((store.strs(), store.sizes()));
                    assert forall|i: int| 0 <= i < program@.len() implies 0 <= #[trigger] cuts[i] && cuts[i] < cuts[i + 1]
                        && cuts[i + 1] <= n by {
                        if i < program@.len() - 1 {
                            assert(cuts[i] == cuts0[i] && cuts[i + 1] == cuts0[i + 1]);
                        }
                    }
                    assert forall|i: int| 0 <= i < program@.len() implies construct_post(
                        tokens@[cuts[i]],
                        tokens@.skip(cuts[i] + 1),
                        tokens@.skip(cuts[i + 1]),
                        Ok::<Node, ParseError>(#[trigger] program@[i]),
                        sts[i].0,
                        sts[i].1,
                    ) by {
                        if i < program@.len() - 1 {
                            assert(cuts[i] == cuts0[i] && cuts[i + 1] == cuts0[i + 1] && sts[i] == sts0[i]);
                            assert(program@[i] == before[i]);
                        }
                    }
                    assert forall|i: int| 0 <= i < program@.len() implies strs_prefix((#[trigger] sts[i]).0, store.strs()) by {
                        if i < program@.len() - 1 {
                            assert(sts[i] == sts0[i]);
                            assert(strs_prefix(sts0[i].0, s0.strs()));
                        }
                    }
                }
                proof {
                    if jump_run(tokens@) {
                        assert(program@ == before + seq![jump_node(tokens@[p0])]);
                        assert(tokens@.skip(p0 + 1).drop_first() =~= tokens@.skip(p0 + 2));
                        assert(program@ + jump_nodes(tokens@.skip(p0 + 2)) =~= before + jump_nodes(tokens@.skip(p0)));
                    }
                }
            },
            Err(e) => return Err(e),
        }
    }
    proof {
        if jump_run(tokens@) {
            assert(program@ + jump_nodes(tokens@.skip(n as int)) =~= program@);
        }
    }
    proof {
        assert(cuts[program@.len() as int] == tokens@.len());
        assert(statements_parsed(tokens@, cuts, program@, sts, store.strs()));
        assert(statements_of(tokens@, program@, store.strs()));
    }
    Ok(program)
}

/// Whether a token opens a procedure.
pub open spec fn opens_proc(t: Token) -> bool {
    t == Token::Keyword(Keyword::Proc) || t == Token::Keyword(Keyword::Public)
}

/// Whether `b` is what parsing the statements of the file `ts` gives, in
/// order: statement `i` starts at token `starts[i]` and ends where `ends[i]`
/// says, node `i` being its outcome (see `construct_post`) with the tables
/// `sts[i]` of that moment, each string table kept at the start of `strs`;
/// a statement is followed directly by the next one, or by procedures.
pub open spec fn body_parsed(
    ts: Seq<Located<Token>>,
    starts: Seq<int>,
    ends: Seq<int>,
    b: Seq<Node>,
    sts: Seq<(Seq<Seq<char>>, crate::ast::refs::Sizes)>,
    strs: Seq<Seq<char>>,
) -> bool {
    &&& starts.len() == b.len() && ends.len() == b.len() && sts.len() == b.len()
    &&& forall|i: int| 0 <= i < b.len() ==> 0 <= #[trigger] starts[i] && starts[i] < ends[i] && ends[i] <= ts.len()
    &&& forall|i: int| 0 <= i < b.len() - 1 ==> #[trigger] ends[i] <= starts[i + 1] && (ends[i] == starts[i + 1]
        || opens_proc(ts[ends[i]].data))
    &&& b.len() > 0 ==> (ends[b.len() - 1] == ts.len() || opens_proc(ts[ends[b.len() - 1]].data))
    &&& forall|i: int| 0 <= i < b.len() ==> construct_post(
        ts[starts[i]],
        ts.skip(starts[i] + 1),
        ts.skip(ends[i]),
        Ok::<Node, ParseError>(#[trigger] b[i]),
        sts[i].0,
        sts[i].1,
    )
    &&& forall|i: int| 0 <= i < b.len() ==> strs_prefix((#[trigger] sts[i]).0, strs)
}

/// `body_parsed` for some places and tables.
pub open spec fn body_of(ts: Seq<Located<Token>>, b: Seq<Node>, strs: Seq<Seq<char>>) -> bool {
    exists|starts: Seq<int>, ends: Seq<int>, sts: Seq<(Seq<Seq<char>>, crate::ast::refs::Sizes)>|
        body_parsed(ts, starts, ends, b, sts, strs)
}

/// Parses a whole file: its imports first, then procedures and statements.
pub fn top_level(tokens: Vec<Located<Token>>, store: Store) -> (r: ParseResult<Program>)
    requires
        store.wf(),
    ensures
        r matches Ok(p) ==> distinct_strings_of(p),
        r matches Ok(p) ==> program_closed(p),
        tokens@.len() == 0 ==> (r matches Ok(p) && p.body@.len() == 0 && p.functions == store.functions && p.imports == store.imports),
        jump_run(tokens@) ==> (r matches Ok(p) && p.body@ == jump_nodes(tokens@)),
        r matches Ok(p) ==> body_of(tokens@, p.body@, data_store::string_table(p.strings@)),
{
    let ghost s_in = store;
    let n = tokens.len();
    let mut store = store;
    let mut cur = Tokens::new(tokens);
    let mut body: Block = Vec::new();
    proof {
        util::lemma_skip_suffix(tokens@, 0);
        assert(tokens@.skip(0) =~= tokens@);
    }
    loop
        invariant
            store.wf(),
            n == tokens@.len(),
            cur.rest().len() <= n,
            n == 0 ==> store.functions == s_in.functions && store.imports == s_in.imports,
            jump_run(tokens@) ==> cur.rest() == tokens@ && store == s_in,
            util::is_suffix(cur.rest(), tokens@),
        ensures
            store.wf(),
            cur.rest().len() <= n,
            n == 0 ==> store.functions == s_in.functions && store.imports == s_in.imports && cur.rest().len() == 0,
            jump_run(tokens@) ==> cur.rest() == tokens@ && store == s_in,
            util::is_suffix(cur.rest(), tokens@),
        decreases cur.rest().len(),
    {
        let ghost ra = cur.rest();
        if cur.next_if_is(&Token::Keyword(Keyword::Import)).is_none() {
            break;
        }
        proof { constructs::lemma_drop_suffix(ra); util::lemma_suffix_trans(cur.rest(), ra, tokens@); }
        let ghost rb = cur.rest();
        let import = match parse_import(&mut cur, &mut store) {
            Ok(i) => i,
            Err(e) => return Err(e),
        };
        proof { util::lemma_suffix_trans(cur.rest(), rb, tokens@); }
        store.add_import(import);
    }
    proof {
        assert(tokens@.skip(0) =~= tokens@);
        assert(body@ + jump_nodes(tokens@) =~= jump_nodes(tokens@));
    }
    let ghost mut starts: Seq<int> = Seq::empty();
    let ghost mut ends: Seq<int> = Seq::empty();
    let ghost mut sts: Seq<(Seq<Seq<char>>, crate::ast::refs::Sizes)> = Seq::empty();
    while !cur.is_empty()
        invariant
            store.wf(),
            n == tokens@.len(),
            n == 0 ==> store.functions == s_in.functions && store.imports == s_in.imports && cur.rest().len() == 0 && body@.len() == 0,
            nodes_refs(body@, store.sizes()),
            util::is_suffix(cur.rest(), tokens@),
            starts.len() == body@.len() && ends.len() == body@.len() && sts.len() == body@.len(),
            forall|i: int| 0 <= i < body@.len() ==> 0 <= #[trigger] starts[i] && starts[i] < ends[i]
                && ends[i] <= n - cur.rest().len(),
            forall|i: int| 0 <= i < body@.len() - 1 ==> #[trigger] ends[i] <= starts[i + 1] && (ends[i] == starts[i + 1]
                || opens_proc(tokens@[ends[i]].data)),
            body@.len() > 0 ==> (ends[body@.len() - 1] == n - cur.rest().len() || opens_proc(tokens@[ends[body@.len() - 1]].data)),
            forall|i: int| 0 <= i < body@.len() ==> construct_post(
                tokens@[starts[i]],
                tokens@.skip(starts[i] + 1),
                tokens@.skip(ends[i]),
                Ok::<Node, ParseError>(#[trigger] body@[i]),
                sts[i].0,
                sts[i].1,
            ),
            forall|i: int| 0 <= i < body@.len() ==> strs_prefix((#[trigger] sts[i]).0, store.strs()),
            cur.rest().len() <= n,
            jump_run(tokens@) ==> ({
                let p = n - cur.rest().len();
                &&& cur.rest() == tokens@.skip(p)
                &&& jump_run(tokens@.skip(p))
                &&& body@ + jump_nodes(tokens@.skip(p)) == jump_nodes(tokens@)
            }),
        decreases cur.rest().len(),
    {
        let ghost s0 = store;
        let ghost p0: int = n - cur.rest().len();
        proof {
            if jump_run(tokens@) {
                assert(tokens@.skip(p0).skip(2) =~= tokens@.skip(p0 + 2));
                assert(tokens@.skip(p0).skip(1) =~= tokens@.skip(p0 + 1));
            }
        }
        let ghost r0 = cur.rest();
        let token = match cur.next() {
            Some(t) => t,
            None => return Err(ParseError::UnexpectedEOF),
        };
        proof {
            assert(r0 == tokens@.skip(p0));
            assert(token == tokens@[p0]);
            constructs::lemma_drop_suffix(r0);
            util::lemma_suffix_trans(cur.rest(), r0, tokens@);
            assert(cur.rest() =~= tokens@.skip(p0 + 1));
        }
        let ghost r1 = cur.rest();
        match &token.data {
            Token::Keyword(Keyword::Proc) => {
                match parse_proc(&mut cur, false, &mut store) {
                    Ok(p) => {
                        proof { util::lemma_suffix_trans(cur.rest(), r1, tokens@); }
                        store.add_fn(p);
                        proof {
                            lemma_nodes_refs_grow(body@, s0.sizes(), store.sizes());
                            assert forall|i: int| 0 <= i < body@.len() implies strs_prefix((#[trigger] sts[i]).0, store.strs()) by {
                                assert(strs_prefix(sts[i].0, s0.strs()));
                            }
                        }
                    },
                    Err(e) => return Err(e),
                }
            },
            Token::Keyword(Keyword::Public) => {
                match expect_token(&mut cur, &Token::Keyword(Keyword::Proc)) {
                    Ok(_) => {},
                    Err(e) => return Err(e),
                }
                proof {
                    constructs::lemma_drop_suffix(r1);
                    util::lemma_suffix_trans(cur.rest(), r1, tokens@);
                }
                let ghost r2 = cur.rest();
                match parse_proc(&mut cur, true, &mut store) {
                    Ok(p) => {
                        proof { util::lemma_suffix_trans(cur.rest(), r2, tokens@); }
                        store.add_fn(p);
                        proof {
                            lemma_nodes_refs_grow(body@, s0.sizes(), store.sizes());
                            assert forall|i: int| 0 <= i < body@.len() implies strs_prefix((#[trigger] sts[i]).0, store.strs()) by {
                                assert(strs_prefix(sts[i].0, s0.strs()));
                            }
                        }
                    },
                    Err(e) => return Err(e),
                }
            },
            _ => {
                let ghost before = body@;
                match next_construct(token, &mut cur, Scope::new(), &mut store) {
                    Ok(node) => {
                        proof { lemma_nodes_refs_grow(before, s0.sizes(), store.sizes()); }
                        body.push(node);
                        assert(body@.drop_last() =~= before);
                        proof {
                            util::lemma_suffix_trans(cur.rest(), r1, tokens@);
                            let q = n - cur.rest().len();
                            assert(cur.rest() =~= tokens@.skip(q));
                            let starts0 = starts;
                            let ends0 = ends;
                            let sts0 = sts;
                            starts = starts.push(p0);
                            ends = ends.push(q);
                            sts = sts.push((store.strs(), store.sizes()));
                            let m = body@.len();
                            assert forall|i: int| 0 <= i < m implies 0 <= #[trigger] starts[i] && starts[i] < ends[i]
                                && ends[i] <= n - cur.rest().len() by {
                                if i < m - 1 {
                                    assert(starts[i] == starts0[i] && ends[i] == ends0[i]);
                                }
                            }
                            assert forall|i: int| 0 <= i < m - 1 implies #[trigger] ends[i] <= starts[i + 1] && (ends[i] == starts[i + 1]
                                || opens_proc(tokens@[ends[i]].data)) by {
                                assert(ends[i] == ends0[i]);
                                if i < m - 2 {
                                    assert(starts[i + 1] == starts0[i + 1]);
                                }
                            }
                            assert forall|i: int| 0 <= i < m implies construct_post(
                                tokens@[starts[i]],
                                tokens@.skip(starts[i] + 1),
                                tokens@.skip(ends[i]),
                                Ok::<Node, ParseError>(#[trigger] body@[i]),
                                sts[i].0,
                                sts[i].1,
                            ) by {
                                if i < m - 1 {
                                    assert(starts[i] == starts0[i] && ends[i] == ends0[i] && sts[i] == sts0[i]);
                                    assert(body@[i] == before[i]);
                                }
                            }
                            assert forall|i: int| 0 <= i < m implies strs_prefix((#[trigger] sts[i]).0, store.strs()) by {
                                if i < m - 1 {
                                    assert(sts[i] == sts0[i]);
                                    assert(strs_prefix(sts0[i].0, s0.strs()));
                                }
                            }
                            if jump_run(tokens@) {
                                assert(body@ == before + seq![jump_node(tokens@[p0])]);
                                assert(tokens@.skip(p0 + 1).drop_first() =~= tokens@.skip(p0 + 2));
                                assert(body@ + jump_nodes(tokens@.skip(p0 + 2)) =~= before + jump_nodes(tokens@.skip(p0)));
                            }
                        }
                    },
                    Err(e) => return Err(e),
                }
            },
        }
    }
    proof {
        if jump_run(tokens@) {
            assert(body@ + jump_nodes(tokens@.skip(n as int)) =~= body@);
        }
    }
    proof {
        assert(body_parsed(tokens@, starts, ends, body@, sts, store.strs()));
        assert(body_of(tokens@, body@, store.strs()));
    }
    Ok(Program::from_store(store, body))
}

/// The string table of a program holds each string once.
pub open spec fn distinct_strings_of(p: Program) -> bool {
    data_store::distinct_strings(data_store::string_table(p.strings@))
}

/// The sizes of a program's tables.
pub open spec fn program_sizes(p: Program) -> crate::ast::refs::Sizes {
    (data_store::string_table(p.strings@).len(), p.lambdas@.len(), p.getters@.len(), p.setters@.len(), p.modules@.len())
}

/// Whether the entries of a program's tables refer only to entries that
/// exist.
pub open spec fn program_tables_closed(p: Program) -> bool {
    data_store::tables_closed(p.lambdas@, p.getters@, p.setters@, p.functions@, p.imports@, p.modules@, program_sizes(p))
}

/// Whether a program refers only to strings, lambdas, getters, setters and
/// modules that its tables hold: its tables and its statements.
pub open spec fn program_closed(p: Program) -> bool {
    program_tables_closed(p) && crate::ast::refs::nodes_refs(p.body@, program_sizes(p))
}

/// Parses the tokens of a main file.
pub fn ast(tokens: Vec<Located<Token>>) -> (r: ParseResult<Program>)
    ensures
        r matches Ok(p) ==> distinct_strings_of(p),
        r matches Ok(p) ==> program_closed(p),
        tokens@.len() == 0 ==> (r matches Ok(p) && p.body@.len() == 0 && p.functions@.len() == 0 && p.imports@.len() == 0),
        jump_run(tokens@) ==> (r matches Ok(p) && p.body@ == jump_nodes(tokens@)),
        r matches Ok(p) ==> body_of(tokens@, p.body@, data_store::string_table(p.strings@)),
{
    let store = Store::new();
    top_level(tokens, store)
}

} // verus!
