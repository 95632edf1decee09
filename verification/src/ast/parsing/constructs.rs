use super::data_store::{lemma_extends_refl, lemma_extends_trans, Store};
use super::expression::{flat_expression, items_of, lemma_items_grow, parse_expr, tokens_fit};
use super::opexpr::{resolve_spec, OpExpr};
use super::paren::{paren_expr, paren_expression};
use super::util::{zero_level_read, zero_level_spec};
use super::scope::Scope;
use super::util::{take_until, zero_level, Stop, Tokens};
use super::{ast_level, ParseError, ParseResult};
use crate::ast::node::{
    ConditionBodyPair, CustomModule, Declaration, Declarator, Expression, Import, ImportKind, Module,
    NativePackage, param_names, Param, Parameters, Procedure,
};
use crate::lex::tokens::{Grouper, Keyword, Token};
use crate::location::Located;
use crate::operators::{Assignment, Binary};
use crate::ast::refs::{
    declarators_refs, expr_refs, import_refs, lemma_declarators_refs_grow, lemma_expr_refs_grow, nodes_refs, params_refs, proc_refs,
};
use vstd::prelude::*;

verus! {

/// Reads the next token, which must be `kind`.
pub fn expect_token(tokens: &mut Tokens, kind: &Token) -> (r: ParseResult<Located<Token>>)
    ensures
        old(tokens).rest().len() == 0 ==> r == Err::<Located<Token>, ParseError>(ParseError::UnexpectedEOF),
        old(tokens).rest().len() > 0 && old(tokens).rest()[0].data@ == kind@ ==> r == Ok::<Located<Token>, ParseError>(old(tokens).rest()[0]),
        old(tokens).rest().len() > 0 && old(tokens).rest()[0].data@ != kind@ ==> r == Err::<Located<Token>, ParseError>(ParseError::UnexpectedToken(old(tokens).rest()[0])),
        final(tokens).rest() == (if old(tokens).rest().len() > 0 { old(tokens).rest().drop_first() } else { old(tokens).rest() }),
{
    match tokens.next() {
        Some(t) => {
            if super::util::same_token(&t.data, kind) {
                Ok(t)
            } else {
                Err(ParseError::UnexpectedToken(t))
            }
        },
        None => Err(ParseError::UnexpectedEOF),
    }
}

/// What follows the condition and the block of an `if`, `else if` or
/// `while` whose tokens (after the keyword) are `ts`.
pub open spec fn if_block_rest(ts: Seq<Located<Token>>) -> Seq<Located<Token>> {
    let after = ts.skip(zero_level_read(ts, Stop::Open(Grouper::Brace)));
    after.skip(zero_level_read(after, Stop::Close(Grouper::Brace)))
}

/// Whether `p` is the condition and block that the tokens `ts` (after `if`,
/// `else if` or `while`) spell.
pub open spec fn pair_tied(ts: Seq<Located<Token>>, p: ConditionBodyPair, strs: Seq<Seq<char>>) -> bool {
    let past = ts.skip(zero_level_read(ts, Stop::Open(Grouper::Brace)));
    &&& zero_level_spec(ts, Stop::Open(Grouper::Brace)) matches Ok(Ok((c, _))) && super::expression::expr_tied(c, p.condition, strs)
    &&& zero_level_spec(past, Stop::Close(Grouper::Brace)) matches Ok(Ok((b, _))) && super::statements_of(b, p.block@, strs)
}

/// A tied pair stays tied when the string table grows.
pub proof fn lemma_pair_tied_grow(ts: Seq<Located<Token>>, p: ConditionBodyPair, s1: Seq<Seq<char>>, s2: Seq<Seq<char>>)
    requires
        pair_tied(ts, p, s1),
        super::strs_prefix(s1, s2),
    ensures
        pair_tied(ts, p, s2),
{
    if let Ok(Ok((c, _))) = zero_level_spec(ts, Stop::Open(Grouper::Brace)) {
        super::expression::lemma_expr_tied_grow(c, p.condition, s1, s2);
    }
    let past = ts.skip(zero_level_read(ts, Stop::Open(Grouper::Brace)));
    if let Ok(Ok((b, _))) = zero_level_spec(past, Stop::Close(Grouper::Brace)) {
        super::lemma_statements_of_grow(b, p.block@, s1, s2);
    }
}

/// Reading a condition and its block leaves a suffix.
pub proof fn lemma_if_block_rest_suffix(ts: Seq<Located<Token>>)
    ensures
        super::util::is_suffix(if_block_rest(ts), ts),
{
    let k = zero_level_read(ts, Stop::Open(Grouper::Brace));
    super::util::lemma_zero_level_read_bounds(ts, Stop::Open(Grouper::Brace));
    let after = ts.skip(k);
    super::util::lemma_skip_suffix(ts, k);
    super::util::lemma_zero_level_read_bounds(after, Stop::Close(Grouper::Brace));
    super::util::lemma_skip_suffix(after, zero_level_read(after, Stop::Close(Grouper::Brace)));
    super::util::lemma_suffix_trans(if_block_rest(ts), after, ts);
}

/// Parses the condition and the block of an `if`, `else if` or `while`.
pub fn parse_if_block(tokens: &mut Tokens, scope: Scope, store: &mut Store) -> (r: ParseResult<ConditionBodyPair>)
    requires
        old(store).wf(),
    ensures
        final(store).wf(),
        final(store).extends(old(store)),
        final(tokens).rest().len() <= old(tokens).rest().len(),
        r matches Ok(p) ==> expr_refs(p.condition, final(store).sizes()) && nodes_refs(p.block@, final(store).sizes()),
        r is Ok ==> final(tokens).rest() == if_block_rest(old(tokens).rest()),
        r matches Ok(p) ==> pair_tied(old(tokens).rest(), p, final(store).strs()),
        r matches Ok(p) ==> match zero_level_spec(
            old(tokens).rest().skip(zero_level_read(old(tokens).rest(), Stop::Open(Grouper::Brace))),
            Stop::Close(Grouper::Brace),
        ) {
            Ok(Ok((b, _))) => super::statements_of(b, p.block@, final(store).strs()),
            _ => true,
        },
        match zero_level_spec(old(tokens).rest(), Stop::Open(Grouper::Brace)) {
            Err(e) => r == Err::<ConditionBodyPair, ParseError>(e),
            Ok(Err(_)) => r == Err::<ConditionBodyPair, ParseError>(ParseError::UnexpectedEOF),
            Ok(Ok((c, _))) => {
                let after = old(tokens).rest().skip(zero_level_read(old(tokens).rest(), Stop::Open(Grouper::Brace)));
                &&& c.len() == 0 ==> r == Err::<ConditionBodyPair, ParseError>(ParseError::UnexpectedEOF)
                &&& paren_expression(c) ==> (r matches Ok(p) ==> paren_expr(c, p.condition, final(store).strs()))
                &&& flat_expression(c) && tokens_fit(c) ==> exists|items: Seq<OpExpr>| {
                    &&& items_of(items, c, final(store).strs())
                    &&& resolve_spec(items) matches Err(e) ==> r == Err::<ConditionBodyPair, ParseError>(e)
                    &&& resolve_spec(items) matches Ok(e) ==> match zero_level_spec(after, Stop::Close(Grouper::Brace)) {
                        Err(e2) => r == Err::<ConditionBodyPair, ParseError>(e2),
                        Ok(Err(_)) => r == Err::<ConditionBodyPair, ParseError>(ParseError::UnexpectedEOF),
                        Ok(Ok((b, _))) => {
                            &&& b.len() == 0 ==> (r matches Ok(p) && p.condition == e && p.block@.len() == 0)
                            &&& super::jump_run(b) ==> (r matches Ok(p) && p.condition == e && p.block@ == super::jump_nodes(b)
                                && final(tokens).rest() == after.skip(b.len() as int + 1))
                            &&& r matches Ok(p) ==> p.condition == e
                        },
                    }
                }
            },
        },
    decreases old(tokens).rest().len(), 5nat,
{
    let ghost rest0 = tokens.rest();
    let (v, _) = match zero_level(tokens, Stop::Open(Grouper::Brace)) {
        Ok(x) => x,
        Err(e) => {
            proof { lemma_extends_refl(store); }
            return Err(e);
        },
    };
    let ghost c = v@;
    let condition = match parse_expr(v, scope.in_lam, store) {
        Ok(e) => e,
        Err(e) => return Err(e),
    };
    let ghost s1 = *store;
    proof {
        crate::ast::parsing::util::lemma_level_scan_bounds(
            crate::lex::tokens::token_kinds(tokens.rest()), Stop::Close(Grouper::Brace), 0, Seq::empty());
    }
    let (b, _) = match take_until(tokens, Grouper::Brace) {
        Ok(x) => x,
        Err(e) => return Err(e),
    };
    let ghost bv = b@;
    let block = match ast_level(b, scope, store) {
        Ok(x) => x,
        Err(e) => {
            proof {
                lemma_extends_trans(old(store), &s1, store);
                if flat_expression(c) && tokens_fit(c) {
                    let items = choose|items: Seq<OpExpr>| items_of(items, c, s1.strs()) && Ok::<Expression, ParseError>(condition) == resolve_spec(items);
                    lemma_items_grow(items, c, s1.strs(), store.strs());
                }
            }
            return Err(e);
        },
    };
    proof {
        lemma_extends_trans(old(store), &s1, store);
        lemma_expr_refs_grow(condition, s1.sizes(), store.sizes());
        if flat_expression(c) && tokens_fit(c) {
            let items = choose|items: Seq<OpExpr>| items_of(items, c, s1.strs()) && Ok::<Expression, ParseError>(condition) == resolve_spec(items);
            lemma_items_grow(items, c, s1.strs(), store.strs());
        }
        if paren_expression(c) {
            crate::ast::parsing::paren::lemma_paren_expr_grow(c, condition, s1.strs(), store.strs());
        }
        assert(super::expression::expr_tied(c, condition, store.strs()));
    }
    Ok(ConditionBodyPair { condition, block })
}

/// Whether `d` is the declarator that the first tokens `ts` of a
/// declaration name: an identifier, with its place in the string table.
pub open spec fn first_declarator(ts: Seq<Located<Token>>, d: Declarator, strings: Seq<Seq<char>>) -> bool {
    &&& ts.len() > 0
    &&& ts[0].data matches Token::Identifier(n) && d.identifier.data < strings.len() && strings[d.identifier.data as int] == n@
    &&& d.identifier.start == ts[0].start
    &&& d.identifier.end == ts[0].end
}

/// The tokens of the first value of a declaration, when it has one.
pub open spec fn first_value(ts: Seq<Located<Token>>) -> Option<Seq<Located<Token>>> {
    if ts.len() > 1 && ts[0].data is Identifier && ts[1].data == Token::AssignOp(Assignment::Assign) {
        match zero_level_spec(ts.skip(2), Stop::SemicolonOrComma) {
            Ok(Ok((v, _))) => Some(v),
            _ => None,
        }
    } else {
        None
    }
}

/// Whether a declaration ends with its first declarator: a semicolon right
/// after the name, or after its value.
pub open spec fn first_ends(ts: Seq<Located<Token>>) -> bool {
    &&& ts.len() > 1
    &&& ts[0].data is Identifier
    &&& ts[1].data is Semicolon || (ts[1].data == Token::AssignOp(Assignment::Assign)
        && (zero_level_spec(ts.skip(2), Stop::SemicolonOrComma) matches Ok(Ok((_, last))) && last.data is Semicolon))
}

/// Whether the first declarator of `ts` is well formed as far as its
/// tokens go: a name, then `=` with a value ending at a top-level semicolon
/// or comma, or a semicolon or comma right away.
pub open spec fn declarator_start(ts: Seq<Located<Token>>) -> bool {
    &&& ts.len() > 1
    &&& ts[0].data is Identifier
    &&& ts[1].data is Semicolon || ts[1].data is Comma || (ts[1].data == Token::AssignOp(Assignment::Assign)
        && (zero_level_spec(ts.skip(2), Stop::SemicolonOrComma) matches Ok(Ok((v, _))) && v.len() > 0))
}

/// Whether `d` is the declarator that `ts` starts with: its name, and its
/// value: nil without `=`, else the expression its value tokens stand for
/// (where they are flat or parenthesised).
pub open spec fn declarator_of(ts: Seq<Located<Token>>, d: Declarator, strings: Seq<Seq<char>>) -> bool {
    &&& first_declarator(ts, d, strings)
    &&& ts.len() > 1 && (ts[1].data is Semicolon || ts[1].data is Comma) ==> d.value == Expression::Nil
    &&& first_value(ts) matches Some(v) ==> {
        &&& paren_expression(v) ==> paren_expr(v, d.value, strings)
        &&& flat_expression(v) && tokens_fit(v) ==> exists|items: Seq<OpExpr>| items_of(items, v, strings)
            && Ok::<Expression, ParseError>(d.value) == resolve_spec(items)
    }
}

/// How many tokens the declarator that `ts` starts with takes, its closing
/// comma or semicolon included.
pub open spec fn declarator_read(ts: Seq<Located<Token>>) -> int {
    if ts.len() > 1 && ts[1].data == Token::AssignOp(Assignment::Assign) {
        2 + zero_level_read(ts.skip(2), Stop::SemicolonOrComma)
    } else {
        2
    }
}

/// Whether a comma, and so another declarator, follows the declarator that
/// `ts` starts with.
pub open spec fn declarator_more(ts: Seq<Located<Token>>) -> bool {
    ts.len() > 1 && (ts[1].data is Comma || (ts[1].data == Token::AssignOp(Assignment::Assign)
        && (zero_level_spec(ts.skip(2), Stop::SemicolonOrComma) matches Ok(Ok((_, last))) && last.data is Comma)))
}

/// Where the `j`-th declarator of the declaration `ts` starts.
pub open spec fn declarator_pos(ts: Seq<Located<Token>>, j: nat) -> int
    decreases j,
{
    if j == 0 {
        0
    } else {
        let p = declarator_pos(ts, (j - 1) as nat);
        p + declarator_read(ts.skip(p))
    }
}

/// A declarator keeps its meaning when the string table grows.
pub proof fn lemma_declarator_of_grow(ts: Seq<Located<Token>>, d: Declarator, s1: Seq<Seq<char>>, s2: Seq<Seq<char>>)
    requires
        declarator_of(ts, d, s1),
        s1.len() <= s2.len(),
        forall|i: int| 0 <= i < s1.len() ==> #[trigger] s2[i] == s1[i],
    ensures
        declarator_of(ts, d, s2),
{
    if let Some(v) = first_value(ts) {
        if paren_expression(v) {
            crate::ast::parsing::paren::lemma_paren_expr_grow(v, d.value, s1, s2);
        }
        if flat_expression(v) && tokens_fit(v) {
            let items = choose|items: Seq<OpExpr>| items_of(items, v, s1) && Ok::<Expression, ParseError>(d.value) == resolve_spec(items);
            lemma_items_grow(items, v, s1, s2);
        }
    }
}

/// Parses one declarator: a name and, after `=`, its value up to the next
/// top-level semicolon or comma.  Gives back whether a comma follows.
fn parse_declarator(tokens: &mut Tokens, scope: Scope, store: &mut Store) -> (r: ParseResult<(Declarator, bool)>)
    requires
        old(store).wf(),
    ensures
        final(store).wf(),
        final(store).extends(old(store)),
        final(tokens).rest().len() <= old(tokens).rest().len(),
        r is Ok ==> final(tokens).rest().len() < old(tokens).rest().len(),
        r matches Ok((d, _)) ==> declarators_refs(seq![d], final(store).sizes()),
        r matches Ok((d, _)) ==> !d.captured && first_declarator(old(tokens).rest(), d, final(store).strs())
            && declarator_start(old(tokens).rest()),
        r matches Ok((d, more)) ==> declarator_of(old(tokens).rest(), d, final(store).strs())
            && more == declarator_more(old(tokens).rest())
            && 0 < declarator_read(old(tokens).rest()) <= old(tokens).rest().len()
            && final(tokens).rest() == old(tokens).rest().skip(declarator_read(old(tokens).rest())),
        old(tokens).rest().len() == 0 ==> r == Err::<(Declarator, bool), ParseError>(ParseError::UnexpectedEOF),
        old(tokens).rest().len() > 0 && !(old(tokens).rest()[0].data is Identifier)
            ==> r == Err::<(Declarator, bool), ParseError>(ParseError::UnexpectedToken(old(tokens).rest()[0])),
        old(tokens).rest().len() == 1 && old(tokens).rest()[0].data is Identifier
            ==> r == Err::<(Declarator, bool), ParseError>(ParseError::UnexpectedEOF),
        old(tokens).rest().len() > 1 && old(tokens).rest()[0].data is Identifier && !(old(tokens).rest()[1].data
            == Token::AssignOp(Assignment::Assign) || old(tokens).rest()[1].data is Semicolon || old(tokens).rest()[1].data is Comma)
            ==> r == Err::<(Declarator, bool), ParseError>(ParseError::UnexpectedToken(old(tokens).rest()[1])),
        old(tokens).rest().len() > 1 && old(tokens).rest()[0].data is Identifier && old(tokens).rest()[1].data is Semicolon
            ==> (r matches Ok((d, more)) && d.value == Expression::Nil && !more),
        old(tokens).rest().len() > 1 && old(tokens).rest()[0].data is Identifier && old(tokens).rest()[1].data is Comma
            ==> (r matches Ok((d, more)) && d.value == Expression::Nil && more),
        old(tokens).rest().len() > 1 && old(tokens).rest()[0].data is Identifier
            && old(tokens).rest()[1].data == Token::AssignOp(Assignment::Assign)
            ==> match zero_level_spec(old(tokens).rest().skip(2), Stop::SemicolonOrComma) {
                Err(e) => r == Err::<(Declarator, bool), ParseError>(e),
                Ok(Err(_)) => r == Err::<(Declarator, bool), ParseError>(ParseError::UnexpectedEOF),
                Ok(Ok((v, last))) => {
                    &&& v.len() == 0 ==> r == Err::<(Declarator, bool), ParseError>(ParseError::UnexpectedEOF)
                    &&& r matches Ok((_, more)) ==> more == (last.data is Comma)
                    &&& paren_expression(v) ==> (r matches Ok((d, _)) ==> paren_expr(v, d.value, final(store).strs()))
                    &&& flat_expression(v) && tokens_fit(v) ==> exists|items: Seq<OpExpr>| {
                        &&& items_of(items, v, final(store).strs())
                        &&& resolve_spec(items) matches Err(e) ==> r == Err::<(Declarator, bool), ParseError>(e)
                        &&& resolve_spec(items) matches Ok(e) ==> (r matches Ok((d, _)) && d.value == e)
                    }
                },
            },
    decreases old(tokens).rest().len(), 4nat,
{
    let ghost rest0 = tokens.rest();
    proof { lemma_extends_refl(store); }
    let t = match tokens.next() {
        Some(t) => t,
        None => return Err(ParseError::UnexpectedEOF),
    };
    let identifier = match t.data {
        Token::Identifier(name) => {
            let ind = store.ins_str(name);
            Located { data: ind, start: t.start, end: t.end }
        },
        _ => return Err(ParseError::UnexpectedToken(t)),
    };
    let ghost s1 = *store;
    let t2 = match tokens.next() {
        Some(t2) => t2,
        None => return Err(ParseError::UnexpectedEOF),
    };
    let mut more = false;
    let value = match &t2.data {
        Token::AssignOp(Assignment::Assign) => {
            proof {
                assert(tokens.rest() =~= rest0.skip(2));
                crate::ast::parsing::util::lemma_level_scan_bounds(
                    crate::lex::tokens::token_kinds(rest0.skip(2)), Stop::SemicolonOrComma, 0, Seq::empty());
            }
            let (v, last) = match zero_level(tokens, Stop::SemicolonOrComma) {
                Ok(x) => x,
                Err(e) => return Err(e),
            };
            proof {
                assert(tokens.rest() =~= rest0.skip(declarator_read(rest0)));
            }
            more = matches!(last.data, Token::Comma);
            let ghost vs = v@;
            let e = parse_expr(v, scope.in_lam, store);
            proof {
                lemma_extends_trans(old(store), &s1, store);
                if flat_expression(vs) && tokens_fit(vs) {
                    let items = choose|items: Seq<OpExpr>| items_of(items, vs, store.strs()) && e == resolve_spec(items);
                    assert(items_of(items, vs, store.strs()));
                }
            }
            match e {
                Ok(e) => e,
                Err(e) => return Err(e),
            }
        },
        Token::Semicolon => {
            proof {
                assert(tokens.rest() =~= rest0.skip(2));
            }
            Expression::Nil
        },
        Token::Comma => {
            proof {
                assert(tokens.rest() =~= rest0.skip(2));
            }
            more = true;
            Expression::Nil
        },
        _ => return Err(ParseError::UnexpectedToken(t2)),
    };
    proof {
        let ds = seq![Declarator { identifier, value, captured: false }];
        assert(ds.drop_last() =~= Seq::<Declarator>::empty());
        assert(ds.last() == Declarator { identifier, value, captured: false });
        assert(identifier.data < store.strs().len());
        assert(crate::ast::refs::expr_refs(value, store.sizes()));
        assert(declarators_refs(ds.drop_last(), store.sizes()));
        assert(declarators_refs(ds, store.sizes()));
    }
    Ok((Declarator { identifier, value, captured: false }, more))
}

/// Parses the declarators of a `decl` or `im` statement, up to its semicolon.
pub fn parse_decl(tokens: &mut Tokens, mutable: bool, scope: Scope, store: &mut Store) -> (r: ParseResult<Declaration>)
    requires
        old(store).wf(),
    ensures
        final(store).wf(),
        final(store).extends(old(store)),
        final(tokens).rest().len() <= old(tokens).rest().len(),
        r matches Ok(d) ==> d.mutable == mutable && d.declarations@.len() > 0,
        r matches Ok(d) ==> declarators_refs(d.declarations@, final(store).sizes()),
        r matches Ok(d) ==> forall|j: int| 0 <= j < d.declarations@.len() ==> !(#[trigger] d.declarations@[j]).captured,
        r matches Ok(d) ==> first_declarator(old(tokens).rest(), d.declarations@[0], final(store).strs()),
        r matches Ok(d) ==> forall|j: int| 0 <= j < d.declarations@.len() ==> declarator_of(
            old(tokens).rest().skip(declarator_pos(old(tokens).rest(), j as nat)),
            #[trigger] d.declarations@[j],
            final(store).strs(),
        ),
        r matches Ok(d) ==> forall|j: int| 0 <= j < d.declarations@.len() ==> (declarator_more(
            old(tokens).rest().skip(#[trigger] declarator_pos(old(tokens).rest(), j as nat))) <==> j < d.declarations@.len() - 1),
        r matches Ok(d) ==> final(tokens).rest() == old(tokens).rest().skip(declarator_pos(old(tokens).rest(), d.declarations@.len()))
            && 0 <= declarator_pos(old(tokens).rest(), d.declarations@.len()) <= old(tokens).rest().len(),
        old(tokens).rest().len() == 0 ==> r == Err::<Declaration, ParseError>(ParseError::UnexpectedEOF),
        old(tokens).rest().len() > 0 && !(old(tokens).rest()[0].data is Identifier)
            ==> r == Err::<Declaration, ParseError>(ParseError::UnexpectedToken(old(tokens).rest()[0])),
        old(tokens).rest().len() == 1 && old(tokens).rest()[0].data is Identifier
            ==> r == Err::<Declaration, ParseError>(ParseError::UnexpectedEOF),
        old(tokens).rest().len() > 1 && old(tokens).rest()[0].data is Identifier && !(old(tokens).rest()[1].data
            == Token::AssignOp(Assignment::Assign) || old(tokens).rest()[1].data is Semicolon || old(tokens).rest()[1].data is Comma)
            ==> r == Err::<Declaration, ParseError>(ParseError::UnexpectedToken(old(tokens).rest()[1])),
        old(tokens).rest().len() > 1 && old(tokens).rest()[0].data is Identifier && old(tokens).rest()[1].data is Semicolon
            ==> (r matches Ok(d) && d.declarations@.len() == 1 && d.declarations@[0].value == Expression::Nil),
        old(tokens).rest().len() > 1 && old(tokens).rest()[0].data is Identifier
            && old(tokens).rest()[1].data == Token::AssignOp(Assignment::Assign)
            ==> match zero_level_spec(old(tokens).rest().skip(2), Stop::SemicolonOrComma) {
                Err(e) => r == Err::<Declaration, ParseError>(e),
                Ok(Err(_)) => r == Err::<Declaration, ParseError>(ParseError::UnexpectedEOF),
                Ok(Ok((v, last))) => {
                    &&& v.len() == 0 ==> r == Err::<Declaration, ParseError>(ParseError::UnexpectedEOF)
                    &&& paren_expression(v) ==> (r matches Ok(d) ==> paren_expr(v, d.declarations@[0].value, final(store).strs()))
                    &&& flat_expression(v) && tokens_fit(v) ==> exists|items: Seq<OpExpr>| {
                        &&& items_of(items, v, final(store).strs())
                        &&& resolve_spec(items) matches Err(e) ==> r == Err::<Declaration, ParseError>(e)
                        &&& r matches Ok(d) ==> Ok::<Expression, ParseError>(d.declarations@[0].value) == resolve_spec(items)
                        &&& resolve_spec(items) is Ok && last.data is Semicolon ==> (r matches Ok(d) && d.declarations@.len() == 1)
                    }
                },
            },
    decreases old(tokens).rest().len(), 5nat,
{
    let ghost rest0 = tokens.rest();
    let mut decls: Vec<Declarator> = Vec::new();
    let mut cont = true;
    proof {
        lemma_extends_refl(store);
        assert(rest0.skip(0) =~= rest0);
    }
    while cont
        invariant
            store.wf(),
            store.extends(old(store)),
            tokens.rest().len() <= old(tokens).rest().len(),
            !cont ==> decls@.len() > 0,
            declarators_refs(decls@, store.sizes()),
            rest0 == old(tokens).rest(),
            decls@.len() == 0 ==> tokens.rest() == rest0 && cont,
            forall|j: int| 0 <= j < decls@.len() ==> !(#[trigger] decls@[j]).captured,
            decls@.len() > 0 ==> first_declarator(rest0, decls@[0], store.strs()) && declarator_start(rest0),
            decls@.len() > 0 && first_ends(rest0) ==> !cont && decls@.len() == 1,
            decls@.len() > 0 && rest0.len() > 1 && rest0[1].data is Semicolon ==> decls@[0].value == Expression::Nil,
            decls@.len() > 0 && first_value(rest0) is Some && paren_expression(first_value(rest0)->Some_0)
                ==> paren_expr(first_value(rest0)->Some_0, decls@[0].value, store.strs()),
            decls@.len() > 0 && first_value(rest0) is Some && flat_expression(first_value(rest0)->Some_0)
                && tokens_fit(first_value(rest0)->Some_0)
                ==> exists|items: Seq<OpExpr>| items_of(items, first_value(rest0)->Some_0, store.strs())
                    && Ok::<Expression, ParseError>(decls@[0].value) == resolve_spec(items),
            0 <= declarator_pos(rest0, decls@.len()) <= rest0.len(),
            tokens.rest() == rest0.skip(declarator_pos(rest0, decls@.len())),
            forall|j: int| 0 <= j < decls@.len() ==> declarator_of(rest0.skip(declarator_pos(rest0, j as nat)), #[trigger] decls@[j],
                store.strs()),
            forall|j: int| 0 <= j < decls@.len() ==> (declarator_more(rest0.skip(#[trigger] declarator_pos(rest0, j as nat)))
                <==> (j < decls@.len() - 1 || cont)),
        decreases tokens.rest().len() + (if cont { 1int } else { 0int }),
    {
        let ghost k = decls@.len();
        let ghost p = declarator_pos(rest0, k);
        let ghost first = decls@.len() == 0;
        let ghost s_iter = *store;
        let ghost d_before = decls@;
        let res = parse_declarator(tokens, scope, store);
        proof {
            lemma_extends_trans(old(store), &s_iter, store);
            lemma_declarators_refs_grow(decls@, s_iter.sizes(), store.sizes());
            if !first {
                if let Some(v) = first_value(rest0) {
                    if paren_expression(v) {
                        crate::ast::parsing::paren::lemma_paren_expr_grow(v, decls@[0].value, s_iter.strs(), store.strs());
                    }
                    if flat_expression(v) && tokens_fit(v) {
                        let items = choose|items: Seq<OpExpr>| items_of(items, v, s_iter.strs())
                            && Ok::<Expression, ParseError>(decls@[0].value) == resolve_spec(items);
                        lemma_items_grow(items, v, s_iter.strs(), store.strs());
                    }
                }
            }
        }
        let (d, more) = match res {
            Ok(x) => x,
            Err(e) => return Err(e),
        };
        cont = more;
        let ghost before = decls@;
        decls.push(d);
        proof {
            assert(decls@.drop_last() =~= before);
            if !first {
                assert(decls@[0] == before[0]);
            }
            let r1 = declarator_read(rest0.skip(p));
            assert(declarator_pos(rest0, k + 1) == p + r1);
            assert(rest0.skip(p).skip(r1) =~= rest0.skip(p + r1));
            assert forall|j: int| 0 <= j < decls@.len() implies declarator_of(rest0.skip(declarator_pos(rest0, j as nat)),
                #[trigger] decls@[j], store.strs()) by {
                if j < k {
                    assert(decls@[j] == before[j]);
                    lemma_declarator_of_grow(rest0.skip(declarator_pos(rest0, j as nat)), before[j], s_iter.strs(), store.strs());
                }
            }
            assert forall|j: int| 0 <= j < decls@.len() implies (declarator_more(rest0.skip(#[trigger] declarator_pos(rest0, j as nat)))
                <==> (j < decls@.len() - 1 || cont)) by {
            }
        }
    }
    Ok(Declaration { declarations: decls, mutable })
}

/// Reading one token, when there is one, leaves a suffix.
pub proof fn lemma_drop_suffix(ts: Seq<Located<Token>>)
    ensures
        ts.len() > 0 ==> super::util::is_suffix(ts.drop_first(), ts),
{
    if ts.len() > 0 {
        assert(ts.drop_first() =~= ts.skip(1));
        super::util::lemma_skip_suffix(ts, 1);
    }
}

/// Whether the tokens between the pipes of a parameter list end in a spread
/// parameter (`...` and a name).
pub open spec fn spread_at(list: Seq<Located<Token>>) -> bool {
    list.len() >= 2 && list[list.len() - 2].data is Spread
}

/// How many plain parameters such a list names.
pub open spec fn named_count(list: Seq<Located<Token>>) -> int {
    if spread_at(list) {
        list.len() - 2
    } else {
        list.len() as int
    }
}

/// The names, as text, that such a list gives, the spread one last.
pub open spec fn param_texts(list: Seq<Located<Token>>) -> Seq<Seq<char>> {
    let named = Seq::new(named_count(list) as nat, |i: int| list[i].data->Identifier_0@);
    if spread_at(list) {
        named.push(list[list.len() - 1].data->Identifier_0@)
    } else {
        named
    }
}

/// Whether the tokens between the pipes of a parameter list are names, the
/// last one possibly after `...`, with no name twice.
pub open spec fn param_tokens_ok(list: Seq<Located<Token>>) -> bool {
    &&& forall|i: int| 0 <= i < named_count(list) ==> (#[trigger] list[i]).data is Identifier
    &&& spread_at(list) ==> list[list.len() - 1].data is Identifier
    &&& param_texts(list).no_duplicates()
}

/// The body of the one procedure that a module's tokens hold, when they are
/// `proc`, a name, a parameter list and a body of `break;` and `continue;`
/// statements, and nothing after it.
pub open spec fn single_proc_body(ts: Seq<Located<Token>>) -> Option<Seq<Located<Token>>> {
    if ts.len() > 1 && ts[0].data == Token::Keyword(Keyword::Proc) && ts[1].data is Identifier {
        match params_rest(ts.skip(2)) {
            Some(rest) => match zero_level_spec(rest, Stop::Close(Grouper::Brace)) {
                Ok(Ok((body, _))) => if super::jump_run(body) && rest.len() == body.len() + 1 {
                    Some(body)
                } else {
                    None
                },
                _ => None,
            },
            None => None,
        }
    } else {
        None
    }
}

/// What follows a well-formed parameter list and the opening brace of the
/// body: `{`, `|| {`, or names between pipes as `param_tokens_ok` asks and
/// then `{`; `None` for other tokens.
pub open spec fn params_rest(ts: Seq<Located<Token>>) -> Option<Seq<Located<Token>>> {
    if ts.len() > 0 && ts[0].data@ == crate::lex::tokens::SpecToken::OpenGroup(Grouper::Brace) {
        Some(ts.drop_first())
    } else if ts.len() > 1 && ts[0].data@ == crate::lex::tokens::SpecToken::BinaryOp(Binary::LogicalOr)
        && ts[1].data@ == crate::lex::tokens::SpecToken::OpenGroup(Grouper::Brace) {
        Some(ts.skip(2))
    } else if ts.len() > 0 && ts[0].data is Pipe {
        match zero_level_spec(ts.drop_first(), Stop::Pipe) {
            Ok(Ok((list, _))) => {
                let after = ts.drop_first().skip(list.len() as int + 1);
                if after.len() > 0 && after[0].data@ == crate::lex::tokens::SpecToken::OpenGroup(Grouper::Brace)
                    && param_tokens_ok(list) {
                    Some(after.drop_first())
                } else {
                    None
                }
            },
            _ => None,
        }
    } else {
        None
    }
}

/// Parses a parameter list: `||`, or names between pipes with at most one
/// spread parameter, last; then the opening brace of the body.
pub fn parse_params(tokens: &mut Tokens, store: &mut Store) -> (r: ParseResult<Parameters>)
    requires
        old(store).wf(),
    ensures
        r is Ok ==> super::util::is_suffix(final(tokens).rest(), old(tokens).rest()),
        final(store).wf(),
        final(store).extends(old(store)),
        final(tokens).rest().len() <= old(tokens).rest().len(),
        final(store).lambdas == old(store).lambdas,
        final(store).getters == old(store).getters,
        final(store).setters == old(store).setters,
        old(tokens).rest().len() == 0 ==> r == Err::<Parameters, ParseError>(ParseError::UnexpectedEOF),
        old(tokens).rest().len() > 0 && old(tokens).rest()[0].data@ == crate::lex::tokens::SpecToken::OpenGroup(Grouper::Brace)
            ==> (r matches Ok(p) && p.params@.len() == 0 && p.vardic is None),
        r matches Ok(p) ==> params_refs(p, final(store).sizes()),
        r matches Ok(p) ==> param_names(p).no_duplicates(),
        old(tokens).rest().len() > 1 && old(tokens).rest()[0].data@ == crate::lex::tokens::SpecToken::BinaryOp(Binary::LogicalOr)
            && old(tokens).rest()[1].data@ == crate::lex::tokens::SpecToken::OpenGroup(Grouper::Brace)
            ==> (r matches Ok(p) && p.params@.len() == 0 && p.vardic is None),
        old(tokens).rest().len() > 0 && old(tokens).rest()[0].data is Pipe ==> match zero_level_spec(
            old(tokens).rest().drop_first(),
            Stop::Pipe,
        ) {
            Ok(Ok((list, _))) => {
                let after = old(tokens).rest().drop_first().skip(list.len() as int + 1);
                after.len() > 0 && after[0].data@ == crate::lex::tokens::SpecToken::OpenGroup(Grouper::Brace)
                    && param_tokens_ok(list) ==> (r matches Ok(p) && (p.vardic is Some <==> spread_at(list))
                    && param_names(p).map_values(|i: usize| final(store).strs()[i as int]) == param_texts(list))
            },
            _ => r is Err,
        },
        params_rest(old(tokens).rest()) matches Some(rest) ==> r is Ok && final(tokens).rest() == rest,
{
    let mut params = Parameters::new();
    proof {
        assert(param_names(params) =~= Seq::<usize>::empty());
    }
    proof { lemma_extends_refl(store); }
    let t = match tokens.next() {
        Some(t) => t,
        None => return Err(ParseError::UnexpectedEOF),
    };
    proof { lemma_drop_suffix(old(tokens).rest()); }
    match &t.data {
        Token::OpenGroup(Grouper::Brace) => Ok(params),
        Token::BinaryOp(Binary::LogicalOr) => {
            let ghost r1 = tokens.rest();
            match expect_token(tokens, &Token::OpenGroup(Grouper::Brace)) {
                Ok(_) => {
                    proof {
                        lemma_drop_suffix(r1);
                        super::util::lemma_suffix_trans(tokens.rest(), r1, old(tokens).rest());
                    }
                    Ok(params)
                },
                Err(e) => Err(e),
            }
        },
        Token::Pipe => {
            let ghost after_pipe = tokens.rest();
            let (list, _) = match zero_level(tokens, Stop::Pipe) {
                Ok(x) => x,
                Err(e) => return Err(e),
            };
            proof {
                assert(after_pipe == old(tokens).rest().drop_first());
                crate::ast::parsing::util::lemma_level_scan_bounds(
                    crate::lex::tokens::token_kinds(after_pipe), Stop::Pipe, 0, Seq::empty());
            }
            let ghost r2 = tokens.rest();
            proof {
                super::util::lemma_zero_level_read_bounds(after_pipe, Stop::Pipe);
                super::util::lemma_skip_suffix(after_pipe, zero_level_read(after_pipe, Stop::Pipe));
                super::util::lemma_suffix_trans(r2, after_pipe, old(tokens).rest());
            }
            match expect_token(tokens, &Token::OpenGroup(Grouper::Brace)) {
                Ok(_) => {},
                Err(e) => return Err(e),
            }
            proof {
                lemma_drop_suffix(r2);
                super::util::lemma_suffix_trans(tokens.rest(), r2, old(tokens).rest());
            }
            let ghost l0 = list@;
            let ghost ok = param_tokens_ok(l0);
            let ghost nc = named_count(l0);
            let mut list = Tokens::new(list);
            while !list.is_empty()
                invariant
                    tokens.rest().len() <= old(tokens).rest().len(),
                    super::util::is_suffix(tokens.rest(), old(tokens).rest()),
                    old(tokens).rest().len() > 0,
                    old(tokens).rest()[0].data@ == crate::lex::tokens::SpecToken::Pipe,
                    store.wf(),
                    store.extends(old(store)),
                    store.lambdas == old(store).lambdas,
                    store.getters == old(store).getters,
                    store.setters == old(store).setters,
                    params_refs(params, store.sizes()),
                    param_names(params).no_duplicates(),
                    list.rest().len() <= l0.len(),
                    list.rest() == l0.skip(l0.len() - list.rest().len()),
                    ok == param_tokens_ok(l0),
                    nc == named_count(l0),
                    zero_level_spec(old(tokens).rest().drop_first(), Stop::Pipe) matches Ok(Ok((sv, _))) && sv == l0,
                    ok ==> ({
                        let k = l0.len() - list.rest().len();
                        &&& k <= nc || (k == l0.len() && spread_at(l0))
                        &&& params.params@.len() == (if k <= nc { k } else { nc })
                        &&& forall|j: int| 0 <= j < params.params@.len() ==>
                            store.strs()[(#[trigger] params.params@[j]).name as int] == l0[j].data->Identifier_0@
                        &&& k <= nc ==> params.vardic is None
                        &&& k > nc ==> (params.vardic matches Some(v) && store.strs()[v.name as int] == l0[l0.len() - 1].data->Identifier_0@)
                    }),
                decreases list.rest().len(),
            {
                let ghost k: int = l0.len() - list.rest().len();
                let ghost p0 = params;
                let ghost st0 = *store;
                let token = match list.next() {
                    Some(x) => x,
                    None => return Err(ParseError::UnexpectedEOF),
                };
                proof {
                    assert(l0.skip(k).drop_first() =~= l0.skip(k + 1));
                    assert(token == l0[k]);
                    if ok {
                        assert(k < nc || (k == nc && spread_at(l0)));
                        assert(param_texts(l0).len() == (if spread_at(l0) { nc + 1 } else { nc }));
                    }
                }
                match token.data {
                    Token::Identifier(s) => {
                        let ghost s0 = *store;
                        let ghost text = s@;
                        let name = store.ins_str(s);
                        proof { lemma_extends_trans(old(store), &s0, store); }
                        proof {
                            assert(ok ==> params.vardic is None) by {
                                if ok {
                                    assert(k < nc);
                                }
                            }
                        }
                        if params.vardic.is_some() {
                            return Err(ParseError::ParamAfterSpread(Located { data: name, start: token.start, end: token.end }));
                        }
                        let ghost before = params;
                        proof {
                            assert(ok ==> !before.params@.map_values(|q: Param| q.name).contains(name)) by {
                                if ok {
                                    assert(k < nc);
                                    assert forall|j: int| 0 <= j < before.params@.len() implies #[trigger] before.params@[j].name != name by {
                                        assert(param_texts(l0)[j] == l0[j].data->Identifier_0@);
                                        assert(param_texts(l0)[k] == text);
                                        assert(before.params@[j].name < s0.strs().len());
                                        assert(store.strs()[before.params@[j].name as int] == s0.strs()[before.params@[j].name as int]);
                                    }
                                    assert(!before.params@.map_values(|q: Param| q.name).contains(name));
                                }
                            }
                        }
                        if !params.try_add(name) {
                            return Err(ParseError::DuplicateParam(Located { data: name, start: token.start, end: token.end }));
                        }
                        proof {
                            assert(param_names(params) =~= param_names(before).push(name));
                            if ok {
                                assert forall|j: int| 0 <= j < params.params@.len() implies
                                    store.strs()[(#[trigger] params.params@[j]).name as int] == l0[j].data->Identifier_0@ by {
                                    if j < before.params@.len() {
                                        assert(params.params@[j] == before.params@[j]);
                                        assert(before.params@[j].name < s0.strs().len());
                                    }
                                }
                            }
                        }
                    },
                    Token::Spread => {
                        let next = match list.next() {
                            Some(x) => x,
                            None => return Err(ParseError::UnexpectedEOF),
                        };
                        proof {
                            assert(l0.skip(k + 1).drop_first() =~= l0.skip(k + 2));
                            if ok {
                                assert(next == l0[k + 1]);
                            }
                        }
                        match next.data {
                            Token::Identifier(s) => {
                                let ghost s0 = *store;
                                let ghost text = s@;
                                let name = store.ins_str(s);
                                proof { lemma_extends_trans(old(store), &s0, store); }
                                if params.vardic.is_some() {
                                    return Err(ParseError::ParamAfterSpread(Located { data: name, start: next.start, end: next.end }));
                                }
                                proof {
                                    assert(ok ==> forall|j: int| 0 <= j < params.params@.len() ==> #[trigger] params.params@[j].name != name) by {
                                        if ok {
                                            assert forall|j: int| 0 <= j < params.params@.len() implies #[trigger] params.params@[j].name != name by {
                                                assert(param_texts(l0)[j] == l0[j].data->Identifier_0@);
                                                assert(param_texts(l0)[nc] == text);
                                                assert(params.params@[j].name < s0.strs().len());
                                                assert(store.strs()[params.params@[j].name as int] == s0.strs()[params.params@[j].name as int]);
                                            }
                                        }
                                    }
                                }
                                let mut k2: usize = 0;
                                let mut dup = false;
                                while k2 < params.params.len()
                                    invariant
                                        k2 <= params.params@.len(),
                                        !dup ==> forall|j: int| 0 <= j < k2 ==> #[trigger] params.params@[j].name != name,
                                        (forall|j: int| 0 <= j < params.params@.len() ==> #[trigger] params.params@[j].name != name) ==> !dup,
                                    decreases params.params@.len() - k2,
                                {
                                    if params.params[k2].name == name {
                                        dup = true;
                                    }
                                    k2 = k2 + 1;
                                }
                                if dup {
                                    return Err(ParseError::DuplicateParam(Located { data: name, start: next.start, end: next.end }));
                                }
                                let ghost before = params;
                                params.vardic = Some(Param { name, captured: false });
                                proof {
                                    let named = before.params@.map_values(|q: Param| q.name);
                                    assert(param_names(before) == named);
                                    assert(param_names(params) =~= named.push(name));
                                    assert forall|j: int| 0 <= j < named.len() implies named[j] != name by {
                                        assert(named[j] == before.params@[j].name);
                                    }
                                    if ok {
                                        assert forall|j: int| 0 <= j < params.params@.len() implies
                                            store.strs()[(#[trigger] params.params@[j]).name as int] == l0[j].data->Identifier_0@ by {
                                            assert(params.params@[j].name < s0.strs().len());
                                        }
                                    }
                                }
                            },
                            _ => return Err(ParseError::UnexpectedToken(next)),
                        }
                    },
                    _ => return Err(ParseError::UnexpectedToken(token)),
                }
            }
            proof {
                if ok {
                    let names = param_names(params).map_values(|i: usize| store.strs()[i as int]);
                    assert(names =~= param_texts(l0)) by {
                        assert(names.len() == param_texts(l0).len());
                        assert forall|j: int| 0 <= j < names.len() implies names[j] == param_texts(l0)[j] by {
                            if j < nc {
                                assert(param_names(params)[j] == params.params@[j].name);
                            }
                        }
                    }
                }
            }
            Ok(params)
        },
        _ => Err(ParseError::UnexpectedToken(t)),
    }
}

/// Parses a procedure after its `proc` keyword: name, parameters and body.
pub fn parse_proc(tokens: &mut Tokens, public: bool, store: &mut Store) -> (r: ParseResult<Procedure>)
    requires
        old(store).wf(),
    ensures
        r is Ok ==> super::util::is_suffix(final(tokens).rest(), old(tokens).rest()),
        final(store).wf(),
        final(store).extends(old(store)),
        final(tokens).rest().len() <= old(tokens).rest().len(),
        r matches Ok(p) ==> p.public == public,
        r matches Ok(p) ==> proc_refs(p, final(store).sizes()),
        r matches Ok(p) ==> param_names(p.param_list).no_duplicates(),
        r matches Ok(p) ==> (old(tokens).rest()[0].data matches Token::Identifier(name)
            && final(store).strs()[p.identifier.data as int] == name@
            && p.identifier.start == old(tokens).rest()[0].start && p.identifier.end == old(tokens).rest()[0].end),
        old(tokens).rest().len() > 0 && !(old(tokens).rest()[0].data is Identifier)
            ==> r == Err::<Procedure, ParseError>(ParseError::UnexpectedToken(old(tokens).rest()[0])),
        old(tokens).rest().len() > 0 && old(tokens).rest()[0].data is Identifier ==> match params_rest(old(tokens).rest().drop_first()) {
            Some(rest) => match zero_level_spec(rest, Stop::Close(Grouper::Brace)) {
                Ok(Ok((body, _))) => super::jump_run(body) ==> (r matches Ok(p) && p.body@ == super::jump_nodes(body)
                    && p.identifier.start == old(tokens).rest()[0].start && p.public == public
                    && final(tokens).rest() == rest.skip(body.len() as int + 1)),
                Ok(Err(_)) => r == Err::<Procedure, ParseError>(ParseError::UnexpectedEOF),
                Err(e) => r == Err::<Procedure, ParseError>(e),
            },
            None => true,
        },
{
    proof { lemma_extends_refl(store); }
    let t = match tokens.next() {
        Some(t) => t,
        None => return Err(ParseError::UnexpectedEOF),
    };
    proof { lemma_drop_suffix(old(tokens).rest()); }
    let ghost r1 = tokens.rest();
    let identifier = match t.data {
        Token::Identifier(i) => {
            let ind = store.ins_str(i);
            Located { data: ind, start: t.start, end: t.end }
        },
        _ => return Err(ParseError::UnexpectedToken(t)),
    };
    let ghost s1 = *store;
    let param_list = match parse_params(tokens, store) {
        Ok(p) => p,
        Err(e) => {
            proof { lemma_extends_trans(old(store), &s1, store); }
            return Err(e);
        },
    };
    proof {
        lemma_extends_trans(old(store), &s1, store);
        crate::ast::parsing::util::lemma_level_scan_bounds(
            crate::lex::tokens::token_kinds(tokens.rest()), Stop::Close(Grouper::Brace), 0, Seq::empty());
    }
    let ghost r2 = tokens.rest();
    proof { super::util::lemma_suffix_trans(r2, r1, old(tokens).rest()); }
    let (v, _) = match take_until(tokens, Grouper::Brace) {
        Ok(x) => x,
        Err(e) => return Err(e),
    };
    proof {
        super::util::lemma_zero_level_read_bounds(r2, Stop::Close(Grouper::Brace));
        super::util::lemma_skip_suffix(r2, zero_level_read(r2, Stop::Close(Grouper::Brace)));
        super::util::lemma_suffix_trans(tokens.rest(), r2, old(tokens).rest());
    }
    let ghost s2 = *store;
    let body = ast_level(v, Scope::fn_proc(), store);
    proof { lemma_extends_trans(old(store), &s2, store); }
    match body {
        Ok(body) => Ok(Procedure { identifier, param_list, body, public }),
        Err(e) => Err(e),
    }
}

impl NativePackage {
    /// The native package named by `s`, if any.
    pub fn from_str(s: &String) -> (r: Option<NativePackage>)
        ensures
            r matches Some(p) ==> native_package_name(p) == s@,
            r is None ==> forall|p: NativePackage| native_package_name(p) != s@,
            r == documented_package(s@),
    {
        let v = crate::text::str_chars(s.as_str());
        let all = [
            NativePackage::Math,
            NativePackage::Fmt,
            NativePackage::Console,
            NativePackage::Array,
            NativePackage::Error,
            NativePackage::SyncIo,
            NativePackage::Str,
            NativePackage::Hash,
        ];
        let mut i: usize = 0;
        while i < 8
            invariant
                i <= 8,
                v@ == s@,
                forall|j: int| 0 <= j < 8 ==> all@[j] == native_at(j),
                forall|j: int| 0 <= j < i ==> native_package_name(#[trigger] native_at(j)) != s@,
            decreases 8 - i,
        {
            let p = all[i];
            let name = p.name_chars();
            if crate::text::chars_match(v.as_slice(), name.as_slice()) {
                return Some(p);
            }
            i = i + 1;
        }
        proof {
            assert forall|p: NativePackage| native_package_name(p) != s@ by {
                match p {
                    NativePackage::Math => assert(native_at(0) == p),
                    NativePackage::Fmt => assert(native_at(1) == p),
                    NativePackage::Console => assert(native_at(2) == p),
                    NativePackage::Array => assert(native_at(3) == p),
                    NativePackage::Error => assert(native_at(4) == p),
                    NativePackage::SyncIo => assert(native_at(5) == p),
                    NativePackage::Str => assert(native_at(6) == p),
                    NativePackage::Hash => assert(native_at(7) == p),
                }
            }
        }
        None
    }

    /// The characters of the package's name.
    pub fn name_chars(&self) -> (v: Vec<char>)
        ensures
            v@ == native_package_name(*self),
    {
        let v = match self {
            NativePackage::Math => vec!['m', 'a', 't', 'h'],
            NativePackage::Fmt => vec!['f', 'm', 't'],
            NativePackage::Console => vec!['c', 'o', 'n', 's', 'o', 'l', 'e'],
            NativePackage::Array => vec!['a', 'r', 'r', 'a', 'y'],
            NativePackage::Error => vec!['e', 'r', 'r'],
            NativePackage::SyncIo => vec!['s', 'y', 'n', 'c', 'i', 'o'],
            NativePackage::Str => vec!['s', 't', 'r'],
            NativePackage::Hash => vec!['h', 'a', 's', 'h'],
        };
        assert(v@ =~= native_package_name(*self));
        v
    }
}

/// The packages in a fixed order.
pub open spec fn native_at(j: int) -> NativePackage {
    if j == 0 {
        NativePackage::Math
    } else if j == 1 {
        NativePackage::Fmt
    } else if j == 2 {
        NativePackage::Console
    } else if j == 3 {
        NativePackage::Array
    } else if j == 4 {
        NativePackage::Error
    } else if j == 5 {
        NativePackage::SyncIo
    } else if j == 6 {
        NativePackage::Str
    } else {
        NativePackage::Hash
    }
}

/// The name under which each native package is imported.
pub open spec fn native_package_name(p: NativePackage) -> Seq<char> {
    match p {
        NativePackage::Math => seq!['m', 'a', 't', 'h'],
        NativePackage::Fmt => seq!['f', 'm', 't'],
        NativePackage::Console => seq!['c', 'o', 'n', 's', 'o', 'l', 'e'],
        NativePackage::Array => seq!['a', 'r', 'r', 'a', 'y'],
        NativePackage::Error => seq!['e', 'r', 'r'],
        NativePackage::SyncIo => seq!['s', 'y', 'n', 'c', 'i', 'o'],
        NativePackage::Str => seq!['s', 't', 'r'],
        NativePackage::Hash => seq!['h', 'a', 's', 'h'],
    }
}

/// The native package that the standard library reference documents under
/// the import name `name`, if any.
pub open spec fn documented_package(name: Seq<char>) -> Option<NativePackage> {
    if name == seq!['s', 'y', 'n', 'c', 'i', 'o'] {
        Some(NativePackage::SyncIo)
    } else if name == seq!['a', 'r', 'r', 'a', 'y'] {
        Some(NativePackage::Array)
    } else if name == seq!['h', 'a', 's', 'h'] {
        Some(NativePackage::Hash)
    } else if name == seq!['c', 'o', 'n', 's', 'o', 'l', 'e'] {
        Some(NativePackage::Console)
    } else if name == seq!['e', 'r', 'r'] {
        Some(NativePackage::Error)
    } else if name == seq!['s', 't', 'r'] {
        Some(NativePackage::Str)
    } else if name == seq!['m', 'a', 't', 'h'] {
        Some(NativePackage::Math)
    } else if name == seq!['f', 'm', 't'] {
        Some(NativePackage::Fmt)
    } else {
        None
    }
}

/// A native package is imported exactly under the name the standard library
/// reference gives it (`"console"` is the console package, and so on), and
/// no two packages share a name.
pub proof fn law_native_package_names(p: NativePackage, name: Seq<char>)
    ensures
        (native_package_name(p) == name) == (documented_package(name) == Some(p)),
{
    let n = native_package_name(p);
    assert(n.len() >= 3);
    if native_package_name(p) == name {
        match p {
            NativePackage::Math => {},
            NativePackage::Fmt => {},
            NativePackage::Console => {},
            NativePackage::Array => {},
            NativePackage::Error => {},
            NativePackage::SyncIo => {},
            NativePackage::Str => {},
            NativePackage::Hash => {},
        }
    }
}

/// Whether `m` is the module that the string `name` names: the native
/// package of that name, or else a loaded module registered under that path.
pub open spec fn module_named(m: Module, name: Seq<char>, store: Store) -> bool {
    match m {
        Module::Native(p) => native_package_name(p) == name,
        Module::Custom(k) => k < store.modules@.len() && store.modules@[k as int].path@ == name
            && forall|p: NativePackage| native_package_name(p) != name,
    }
}

/// Whether the tokens from `j` on are `from`, a string and a semicolon.
pub open spec fn import_tail(ts: Seq<Located<Token>>, j: int) -> bool {
    &&& 0 <= j
    &&& ts.len() > j + 2
    &&& ts[j].data == Token::Keyword(Keyword::From)
    &&& ts[j + 1].data is String
    &&& ts[j + 2].data is Semicolon
}

/// Parses an import after its `import` keyword: `*`, a name or a list of
/// names between pipes; `from`; the module's name; and a semicolon.
pub fn parse_import(tokens: &mut Tokens, store: &mut Store) -> (r: ParseResult<Import>)
    requires
        old(store).wf(),
    ensures
        r is Ok ==> super::util::is_suffix(final(tokens).rest(), old(tokens).rest()),
        final(store).wf(),
        final(store).extends(old(store)),
        final(tokens).rest().len() <= old(tokens).rest().len(),
        r matches Ok(i) ==> (i.module matches Module::Custom(m) ==> m < final(store).modules@.len()),
        r matches Ok(i) ==> import_refs(i, final(store).sizes()),
        old(tokens).rest().len() == 0 ==> r == Err::<Import, ParseError>(ParseError::UnexpectedEOF),
        old(tokens).rest().len() > 0 && !(old(tokens).rest()[0].data == Token::BinaryOp(Binary::Mult)
            || old(tokens).rest()[0].data is Identifier || old(tokens).rest()[0].data is Pipe)
            ==> r == Err::<Import, ParseError>(ParseError::UnexpectedToken(old(tokens).rest()[0])),
        old(tokens).rest().len() > 0 && old(tokens).rest()[0].data == Token::BinaryOp(Binary::Mult) && import_tail(old(tokens).rest(), 1)
            ==> (r matches Ok(i) && i.kind is All && (old(tokens).rest()[2].data matches Token::String(name)
                && module_named(i.module, name@, *final(store)))),
        old(tokens).rest().len() > 0 && old(tokens).rest()[0].data is Identifier && import_tail(old(tokens).rest(), 1)
            ==> (r matches Ok(i) && (i.kind matches ImportKind::ModuleObject(l)
                && (old(tokens).rest()[0].data matches Token::Identifier(n) && final(store).strs()[l.data as int] == n@)
                && l.start == old(tokens).rest()[0].start && l.end == old(tokens).rest()[0].end)
                && (old(tokens).rest()[2].data matches Token::String(name) && module_named(i.module, name@, *final(store)))),
        old(tokens).rest().len() > 0 && old(tokens).rest()[0].data is Pipe
            && (super::util::zero_level_spec(old(tokens).rest().skip(1), Stop::Pipe) matches Ok(Ok((inner, _)))
                && (forall|k: int| 0 <= k < inner.len() ==> (#[trigger] inner[k]).data is Identifier)
                && import_tail(old(tokens).rest(), 1 + super::util::zero_level_read(old(tokens).rest().skip(1), Stop::Pipe)))
            ==> (r matches Ok(i) && i.kind is List && (old(tokens).rest()[2 + super::util::zero_level_read(old(tokens).rest().skip(1), Stop::Pipe)].data
                matches Token::String(name) && module_named(i.module, name@, *final(store)))),
        r matches Ok(i) ==> (i.kind matches ImportKind::List(l) ==> crate::ast::analysis::imports::list_names(l@).no_duplicates()),
{
    proof { lemma_extends_refl(store); }
    let ghost rest0 = tokens.rest();
    let t = match tokens.next() {
        Some(t) => t,
        None => return Err(ParseError::UnexpectedEOF),
    };
    let kind = match t.data {
        Token::BinaryOp(Binary::Mult) => {
            proof { lemma_drop_suffix(rest0); }
            ImportKind::All
        },
        Token::Identifier(name) => {
            proof { lemma_drop_suffix(rest0); }
            let ind = store.ins_str(name);
            ImportKind::ModuleObject(Located { data: ind, start: t.start, end: t.end })
        },
        Token::Pipe => {
            let (inner, _) = match zero_level(tokens, Stop::Pipe) {
                Ok(x) => x,
                Err(e) => return Err(e),
            };
            let ghost inner0 = inner@;
            let ghost after = tokens.rest();
            proof {
                assert(rest0.drop_first() =~= rest0.skip(1));
                let r1 = rest0.skip(1);
                super::util::lemma_level_scan_bounds(crate::lex::tokens::token_kinds(r1), Stop::Pipe, 0, Seq::empty());
                let n = super::util::zero_level_read(r1, Stop::Pipe);
                assert(0 <= n <= r1.len());
                assert(r1.skip(n) =~= rest0.skip(1 + n));
            }
            let mut list: Vec<(usize, crate::location::Location, crate::location::Location)> = Vec::new();
            let mut items = Tokens::new(inner);
            proof {
                assert(crate::ast::analysis::imports::list_names(list@) =~= Seq::<usize>::empty());
            }
            while !items.is_empty()
                invariant
                    tokens.rest().len() <= old(tokens).rest().len(),
                    tokens.rest() == after,
                    store.wf(),
                    store.extends(old(store)),
                    forall|k: int| 0 <= k < list@.len() ==> (#[trigger] list@[k]).0 < store.strs().len(),
                    crate::ast::analysis::imports::list_names(list@).no_duplicates(),
                    items.rest().len() <= inner0.len(),
                    items.rest() == inner0.skip(inner0.len() - items.rest().len()),
                    rest0 == old(tokens).rest(),
                    rest0.len() > 0,
                    rest0[0].data is Pipe,
                    super::util::zero_level_spec(rest0.skip(1), Stop::Pipe) matches Ok(Ok((inr, _))) && inr == inner0,
                    after == rest0.skip(1 + super::util::zero_level_read(rest0.skip(1), Stop::Pipe)),
                    t == rest0[0],
                decreases items.rest().len(),
            {
                let ghost ir = items.rest();
                proof {
                    assert(ir[0] == inner0[inner0.len() - ir.len()]);
                    assert(inner0.skip(inner0.len() - ir.len()).drop_first() =~= inner0.skip(inner0.len() - (ir.len() - 1)));
                }
                let item = match items.next() {
                    Some(x) => x,
                    None => return Err(ParseError::UnexpectedEOF),
                };
                match item.data {
                    Token::Identifier(name) => {
                        let ghost s0 = *store;
                        let ind = store.ins_str(name);
                        proof { lemma_extends_trans(old(store), &s0, store); }
                        let mut k: usize = 0;
                        let mut found = false;
                        while k < list.len()
                            invariant
                                k <= list@.len(),
                                found == exists|j: int| 0 <= j < k && (#[trigger] list@[j]).0 == ind,
                            decreases list@.len() - k,
                        {
                            if list[k].0 == ind {
                                found = true;
                            }
                            k = k + 1;
                        }
                        if !found {
                            let ghost before = list@;
                            list.push((ind, t.start.clone(), t.end.clone()));
                            proof {
                                let ln = crate::ast::analysis::imports::list_names(before);
                                assert(crate::ast::analysis::imports::list_names(list@) =~= ln.push(ind));
                                assert forall|j: int| 0 <= j < ln.len() implies ln[j] != ind by {
                                    assert(ln[j] == before[j].0);
                                }
                            }
                        }
                    },
                    _ => return Err(ParseError::UnexpectedToken(item)),
                }
            }
            proof {
                let r1 = rest0.skip(1);
                super::util::lemma_zero_level_read_bounds(r1, Stop::Pipe);
                super::util::lemma_skip_suffix(rest0, 1 + super::util::zero_level_read(r1, Stop::Pipe));
            }
            ImportKind::List(list)
        },
        _ => return Err(ParseError::UnexpectedToken(t)),
    };
    let ghost rk = tokens.rest();
    match expect_token(tokens, &Token::Keyword(Keyword::From)) {
        Ok(_) => {},
        Err(e) => return Err(e),
    }
    proof {
        lemma_drop_suffix(rk);
        super::util::lemma_suffix_trans(tokens.rest(), rk, rest0);
    }
    let ghost rf = tokens.rest();
    let t = match tokens.next() {
        Some(t) => t,
        None => return Err(ParseError::UnexpectedEOF),
    };
    let module = match t.data {
        Token::String(s) => match NativePackage::from_str(&s) {
            Some(package) => Module::Native(package),
            None => {
                let ghost s0 = *store;
                let m = store.module_for_path(s);
                proof {
                    assert(store.strs() == s0.strs());
                    lemma_extends_trans(old(store), &s0, store);
                }
                Module::Custom(m)
            },
        },
        _ => return Err(ParseError::UnexpectedToken(t)),
    };
    let ghost rm = tokens.rest();
    proof {
        lemma_drop_suffix(rf);
        super::util::lemma_suffix_trans(rm, rf, rest0);
    }
    match expect_token(tokens, &Token::Semicolon) {
        Ok(_) => {},
        Err(e) => return Err(e),
    }
    proof {
        lemma_drop_suffix(rm);
        super::util::lemma_suffix_trans(tokens.rest(), rm, rest0);
    }
    Ok(Import { module, kind })
}

/// Parses the source of the module at `index`, which was registered by an
/// import: its imports and its procedures, and nothing else.
pub fn parse_module(tokens: Vec<Located<Token>>, index: usize, store: &mut Store) -> (r: ParseResult<()>)
    requires
        old(store).wf(),
        index < old(store).modules@.len(),
    ensures
        final(store).wf(),
        final(store).extends(old(store)),
        r is Ok ==> final(store).modules@[index as int].loaded,
        tokens@.len() == 0 ==> (r is Ok && final(store).modules@[index as int].imports@.len() == 0
            && final(store).modules@[index as int].functions@.len() == 0
            && final(store).modules@[index as int].path@ == old(store).modules@[index as int].path@),
        tokens@.len() > 0 && !(tokens@[0].data == Token::Keyword(Keyword::Public) || tokens@[0].data == Token::Keyword(Keyword::Proc)
            || tokens@[0].data == Token::Keyword(Keyword::Import))
            ==> r == Err::<(), ParseError>(ParseError::UnexpectedToken(tokens@[0])),
        r is Ok ==> forall|i: int| 0 <= i < final(store).modules@[index as int].functions@.len()
            ==> param_names((#[trigger] final(store).modules@[index as int].functions@[i]).param_list).no_duplicates(),
        single_proc_body(tokens@) matches Some(body) ==> (r is Ok && final(store).modules@[index as int].imports@.len() == 0
            && final(store).modules@[index as int].functions@.len() == 1
            && final(store).modules@[index as int].functions@[0].body@ == super::jump_nodes(body)
            && !final(store).modules@[index as int].functions@[0].public),
        r is Ok ==> forall|i: int| 0 <= i < final(store).modules@[index as int].imports@.len()
            ==> ((#[trigger] final(store).modules@[index as int].imports@[i]).kind matches ImportKind::List(l)
                ==> crate::ast::analysis::imports::list_names(l@).no_duplicates()),
{
    let ghost toks = tokens@;
    let mut cur = Tokens::new(tokens);
    let mut functions: Vec<Procedure> = Vec::new();
    let mut imports: Vec<Import> = Vec::new();
    proof { lemma_extends_refl(store); }
    while !cur.is_empty()
        invariant
            store.wf(),
            store.extends(old(store)),
            index < store.modules@.len(),
            forall|i: int| 0 <= i < functions@.len() ==> proc_refs(#[trigger] functions@[i], store.sizes()),
            forall|i: int| 0 <= i < imports@.len() ==> import_refs(#[trigger] imports@[i], store.sizes()),
            forall|i: int| 0 <= i < functions@.len() ==> param_names((#[trigger] functions@[i]).param_list).no_duplicates(),
            forall|i: int| 0 <= i < imports@.len() ==> ((#[trigger] imports@[i]).kind matches ImportKind::List(l)
                ==> crate::ast::analysis::imports::list_names(l@).no_duplicates()),
            toks == tokens@,
            cur.rest().len() <= toks.len(),
            cur.rest().len() == toks.len() ==> cur.rest() == toks && functions@.len() == 0 && imports@.len() == 0
                && *store == *old(store),
            cur.rest().len() < toks.len() ==> toks.len() > 0 && (toks[0].data == Token::Keyword(Keyword::Public)
                || toks[0].data == Token::Keyword(Keyword::Proc) || toks[0].data == Token::Keyword(Keyword::Import)),
            single_proc_body(toks) matches Some(body) ==> (cur.rest() == toks && functions@.len() == 0 && imports@.len() == 0)
                || (cur.rest().len() == 0 && functions@.len() == 1 && imports@.len() == 0
                && functions@[0].body@ == super::jump_nodes(body) && !functions@[0].public),
        decreases cur.rest().len(),
    {
        proof {
            if single_proc_body(toks) is Some {
                assert(toks.skip(1).drop_first() =~= toks.skip(2));
            }
        }
        let token = match cur.next() {
            Some(t) => t,
            None => return Err(ParseError::UnexpectedEOF),
        };
        let ghost s0 = *store;
        let ghost fs0 = functions@;
        let ghost is0 = imports@;
        match token.data {
            Token::Keyword(Keyword::Public) => {
                match expect_token(&mut cur, &Token::Keyword(Keyword::Proc)) {
                    Ok(_) => {},
                    Err(e) => return Err(e),
                }
                let p = parse_proc(&mut cur, true, store);
                proof { lemma_extends_trans(old(store), &s0, store); }
                match p {
                    Ok(p) => functions.push(p),
                    Err(e) => return Err(e),
                }
            },
            Token::Keyword(Keyword::Proc) => {
                let p = parse_proc(&mut cur, false, store);
                proof { lemma_extends_trans(old(store), &s0, store); }
                match p {
                    Ok(p) => functions.push(p),
                    Err(e) => return Err(e),
                }
            },
            Token::Keyword(Keyword::Import) => {
                let i = parse_import(&mut cur, store);
                proof { lemma_extends_trans(old(store), &s0, store); }
                match i {
                    Ok(i) => imports.push(i),
                    Err(e) => return Err(e),
                }
            },
            _ => return Err(ParseError::UnexpectedToken(token)),
        }
        proof {
            assert forall|i: int| 0 <= i < functions@.len() implies proc_refs(#[trigger] functions@[i], store.sizes()) by {
                if i < fs0.len() {
                    assert(functions@[i] == fs0[i]);
                    crate::ast::refs::lemma_proc_refs_grow(functions@[i], s0.sizes(), store.sizes());
                }
            }
            assert forall|i: int| 0 <= i < imports@.len() implies import_refs(#[trigger] imports@[i], store.sizes()) by {
                if i < is0.len() {
                    assert(imports@[i] == is0[i]);
                }
            }
        }
    }
    let path = store.modules[index].path.clone();
    let ghost s0 = *store;
    let ghost before = store.modules@;
    store.modules.set(index, CustomModule { imports, functions, path, loaded: true });
    proof {
        assert(store.strs() == s0.strs());
        assert(store.strs().take(old(store).strs().len() as int) == old(store).strs());
        assert(store.sizes() == s0.sizes());
        assert forall|i: int| 0 <= i < store.modules@.len() implies super::data_store::module_refs(#[trigger] store.modules@[i], store.sizes()) by {
            if i != index {
                assert(store.modules@[i] == before[i]);
            }
        }
    }
    Ok(())
}

} // verus!
