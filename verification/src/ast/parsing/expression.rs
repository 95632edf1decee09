use super::constructs::{expect_token, parse_params};
use super::data_store::{lemma_extends_refl, lemma_extends_trans, Store};
use super::opexpr::{
    can_push, items_refs, pushed_ok, lemma_items_refs_grow, lemma_items_refs_push, lemma_resolve_refs, resolve, resolve_spec, OpExpr,
    OpExprManager,
};
use crate::ast::refs::{
    entries_refs, entry_refs, expr_refs, exprs_refs, lambda_body_refs, lemma_expr_refs_grow, lemma_exprs_refs_grow,
    prop_refs, sizes_le,
};
use super::scope::Scope;
use super::util::{take_until, zero_level_preserve, Stop, Tokens};
use super::{ast_level, ParseError, ParseResult};
use crate::ast::node::{
    AutoProp, AutoPropValue, Expression, GetProp, Lambda, LambdaBody, Node, ObjectValue, SetProp,
};
use crate::lex::tokens::{Grouper, Keyword, NumberLit, Token};
use crate::location::Located;
use crate::operators::{Binary, Unary};
use crate::ast::parsing::paren::{
    ends_operand, lemma_paren_group_step, lemma_paren_items_grow, lemma_paren_step, lemma_paren_subrange, paren_expr,
    paren_expression, paren_items,
};
use vstd::prelude::*;

verus! {

/// Whether no token opens or closes a group.
pub open spec fn no_groupers(ts: Seq<Located<Token>>) -> bool {
    forall|i: int| 0 <= i < ts.len() ==> !((#[trigger] ts[i]).data is OpenGroup) && !(ts[i].data is CloseGroup)
}

/// The parts of `ts` ended by commas so far, and the part being read.
pub open spec fn split_commas(ts: Seq<Located<Token>>) -> (Seq<Seq<Located<Token>>>, Seq<Located<Token>>)
    decreases ts.len(),
{
    if ts.len() == 0 {
        (Seq::empty(), Seq::empty())
    } else {
        let (ps, cur) = split_commas(ts.drop_last());
        if ts.last().data is Comma {
            (ps.push(cur), Seq::empty())
        } else {
            (ps, cur.push(ts.last()))
        }
    }
}

/// The items of a comma-separated list without groups: the tokens between
/// commas, a last empty one left out.
pub open spec fn comma_parts(ts: Seq<Located<Token>>) -> Seq<Seq<Located<Token>>> {
    let (ps, cur) = split_commas(ts);
    if cur.len() > 0 {
        ps.push(cur)
    } else {
        ps
    }
}

/// Whether `e` is the expression that the tokens `part` stand for, where
/// they are flat or parenthesised.
pub open spec fn expr_tied(part: Seq<Located<Token>>, e: Expression, strs: Seq<Seq<char>>) -> bool {
    &&& paren_expression(part) ==> paren_expr(part, e, strs)
    &&& flat_expression(part) && tokens_fit(part) ==> exists|items: Seq<OpExpr>| items_of(items, part, strs)
        && resolve_spec(items) == Ok::<Expression, ParseError>(e)
}

/// Whether `v` are the expressions of the list items `parts`, in order.
pub open spec fn list_tied(parts: Seq<Seq<Located<Token>>>, v: Seq<Expression>, strs: Seq<Seq<char>>) -> bool {
    &&& v.len() == parts.len()
    &&& forall|k: int| 0 <= k < parts.len() ==> expr_tied(parts[k], #[trigger] v[k], strs)
}

pub proof fn lemma_expr_tied_grow(part: Seq<Located<Token>>, e: Expression, s1: Seq<Seq<char>>, s2: Seq<Seq<char>>)
    requires
        expr_tied(part, e, s1),
        s1.len() <= s2.len(),
        forall|i: int| 0 <= i < s1.len() ==> #[trigger] s2[i] == s1[i],
    ensures
        expr_tied(part, e, s2),
{
    if paren_expression(part) {
        crate::ast::parsing::paren::lemma_paren_expr_grow(part, e, s1, s2);
    }
    if flat_expression(part) && tokens_fit(part) {
        let items = choose|items: Seq<OpExpr>| items_of(items, part, s1) && resolve_spec(items) == Ok::<Expression, ParseError>(e);
        lemma_items_grow(items, part, s1, s2);
    }
}

/// The tokens of a comma-separated list, split at the commas that are not
/// inside a group, each part with the comma that ends it (if any).
fn split_list(tokens: Vec<Located<Token>>) -> (r: ParseResult<Vec<(Vec<Located<Token>>, Option<Located<Token>>)>>)
    ensures
        tokens@.len() == 0 ==> (r matches Ok(p) && p@.len() == 0),
        r matches Ok(parts) ==> forall|k: int| 0 <= k < parts@.len() ==> (#[trigger] parts@[k]).0@.len() <= tokens@.len(),
        no_groupers(tokens@) ==> (r matches Ok(parts) && parts@.len() == comma_parts(tokens@).len()
            && forall|k: int| 0 <= k < parts@.len() ==> (#[trigger] parts@[k]).0@ == comma_parts(tokens@)[k]),
{
    let mut parts: Vec<(Vec<Located<Token>>, Option<Located<Token>>)> = Vec::new();
    let mut current: Vec<Located<Token>> = Vec::new();
    let mut level: usize = 0;
    let n = tokens.len();
    let mut i: usize = 0;
    while i < n
        invariant
            n == tokens@.len(),
            i <= n,
            level <= i,
            current@.len() <= i,
            parts@.len() <= i,
            forall|k: int| 0 <= k < parts@.len() ==> (#[trigger] parts@[k]).0@.len() <= n,
            no_groupers(tokens@) ==> level == 0 && parts@.len() == split_commas(tokens@.take(i as int)).0.len()
                && (forall|k: int| 0 <= k < parts@.len() ==> (#[trigger] parts@[k]).0@ == split_commas(tokens@.take(i as int)).0[k])
                && current@ == split_commas(tokens@.take(i as int)).1,
        decreases n - i,
    {
        proof {
            assert(tokens@.take(i + 1).drop_last() =~= tokens@.take(i as int));
            assert(tokens@.take(i + 1).last() == tokens@[i as int]);
        }
        let token = tokens[i].clone();
        match &token.data {
            Token::OpenGroup(_) => {
                level = level + 1;
                current.push(token);
            },
            Token::CloseGroup(_) => {
                if level == 0 {
                    return Err(ParseError::UnexpectedToken(token));
                }
                level = level - 1;
                current.push(token);
            },
            Token::Comma => {
                if level == 0 {
                    let mut part: Vec<Located<Token>> = Vec::new();
                    std::mem::swap(&mut part, &mut current);
                    parts.push((part, Some(token)));
                } else {
                    current.push(token);
                }
            },
            _ => {
                current.push(token);
            },
        }
        i = i + 1;
    }
    proof {
        assert(tokens@.take(n as int) =~= tokens@);
    }
    if current.len() > 0 {
        parts.push((current, None));
    }
    Ok(parts)
}

/// Parses a comma-separated list of expressions.  An empty item is reported
/// at the comma that ends it.
pub fn expression_list(tokens: Vec<Located<Token>>, in_lam: bool, store: &mut Store) -> (r: ParseResult<Vec<Expression>>)
    requires
        old(store).wf(),
    ensures
        final(store).wf(),
        final(store).extends(old(store)),
        tokens@.len() == 0 ==> (r matches Ok(v) && v@.len() == 0),
        r matches Ok(v) ==> exprs_refs(v@, final(store).sizes()),
        no_groupers(tokens@) ==> (r matches Ok(v) ==> list_tied(comma_parts(tokens@), v@, final(store).strs())),
        no_groupers(tokens@) && (forall|k: int| 0 <= k < comma_parts(tokens@).len()
            ==> operand_chain_tokens(#[trigger] comma_parts(tokens@)[k])) ==> r is Ok,
    decreases tokens@.len(), 3nat,
{
    proof { lemma_extends_refl(store); }
    let n = tokens.len();
    let parts = match split_list(tokens) {
        Ok(p) => p,
        Err(e) => return Err(e),
    };
    let mut parts = parts;
    let ghost parts0 = parts@;
    let ghost m = parts@.len();
    let mut expressions: Vec<Expression> = Vec::new();
    let mut rev_parts: Vec<(Vec<Located<Token>>, Option<Located<Token>>)> = Vec::new();
    while parts.len() > 0
        invariant
            n == 0 ==> parts@.len() == 0 && rev_parts@.len() == 0,
            forall|j: int| 0 <= j < parts@.len() ==> (#[trigger] parts@[j]).0@.len() <= n,
            forall|j: int| 0 <= j < rev_parts@.len() ==> (#[trigger] rev_parts@[j]).0@.len() <= n,
            parts@.len() + rev_parts@.len() == m,
            m == parts0.len(),
            forall|j: int| 0 <= j < parts@.len() ==> #[trigger] parts@[j] == parts0[j],
            forall|j: int| 0 <= j < rev_parts@.len() ==> #[trigger] rev_parts@[j] == parts0[m - 1 - j],
        decreases parts@.len(),
    {
        let p = parts.pop().unwrap();
        rev_parts.push(p);
    }
    while rev_parts.len() > 0
        invariant
            store.wf(),
            store.extends(old(store)),
            forall|j: int| 0 <= j < rev_parts@.len() ==> (#[trigger] rev_parts@[j]).0@.len() <= n,
            n == tokens@.len(),
            n == 0 ==> rev_parts@.len() == 0 && expressions@.len() == 0,
            exprs_refs(expressions@, store.sizes()),
            m == parts0.len(),
            rev_parts@.len() + expressions@.len() == m,
            forall|j: int| 0 <= j < rev_parts@.len() ==> #[trigger] rev_parts@[j] == parts0[m - 1 - j],
            forall|j: int| 0 <= j < expressions@.len() ==> expr_tied(parts0[j].0@, #[trigger] expressions@[j], store.strs()),
            no_groupers(tokens@) ==> parts0.len() == comma_parts(tokens@).len()
                && forall|k: int| 0 <= k < parts0.len() ==> (#[trigger] parts0[k]).0@ == comma_parts(tokens@)[k],
            no_groupers(tokens@) && (forall|k: int| 0 <= k < comma_parts(tokens@).len()
                ==> operand_chain_tokens(#[trigger] comma_parts(tokens@)[k])) ==> forall|k: int| 0 <= k < parts0.len()
                ==> operand_chain_tokens((#[trigger] parts0[k]).0@),
        decreases rev_parts@.len(),
    {
        let ghost k = expressions@.len() as int;
        let (part, comma) = rev_parts.pop().unwrap();
        let ghost pv = part@;
        proof {
            assert(pv == parts0[k].0@);
        }
        let ghost s0 = *store;
        let e = parse_expr(part, in_lam, store);
        proof { lemma_extends_trans(old(store), &s0, store); }
        proof { lemma_exprs_refs_grow(expressions@, s0.sizes(), store.sizes()); }
        let ghost before = expressions@;
        match e {
            Ok(e) => {
                expressions.push(e);
                assert(expressions@.drop_last() =~= before);
                proof {
                    assert forall|j: int| 0 <= j < expressions@.len() implies expr_tied(parts0[j].0@,
                        #[trigger] expressions@[j], store.strs()) by {
                        if j < k {
                            assert(expressions@[j] == before[j]);
                            lemma_expr_tied_grow(parts0[j].0@, before[j], s0.strs(), store.strs());
                        } else {
                            if flat_expression(pv) && tokens_fit(pv) {
                                let items = choose|items: Seq<OpExpr>| items_of(items, pv, store.strs())
                                    && Ok::<Expression, ParseError>(e) == resolve_spec(items);
                                assert(items_of(items, pv, store.strs()));
                            }
                        }
                    }
                }
            },
            Err(e) => {
                proof {
                    if no_groupers(tokens@) && (forall|k: int| 0 <= k < comma_parts(tokens@).len()
                        ==> operand_chain_tokens(#[trigger] comma_parts(tokens@)[k])) {
                        assert(operand_chain_tokens(parts0[k].0@));
                    }
                }
                return match comma {
                    Some(c) => Err(e.neof_or(ParseError::UnexpectedToken(c))),
                    None => Err(e),
                };
            },
        }
    }
    proof {
        if no_groupers(tokens@) {
            assert forall|k: int| 0 <= k < comma_parts(tokens@).len() implies expr_tied(comma_parts(tokens@)[k],
                #[trigger] expressions@[k], store.strs()) by {
                assert(parts0[k].0@ == comma_parts(tokens@)[k]);
            }
        }
    }
    Ok(expressions)
}

/// Whether a body starts with `if`, `while` or `for`.
pub fn leading_stmt(v: &Vec<Located<Token>>) -> (b: bool)
    ensures
        b == (v@.len() > 0 && (v@[0].data@ == crate::lex::tokens::SpecToken::Keyword(Keyword::If)
            || v@[0].data@ == crate::lex::tokens::SpecToken::Keyword(Keyword::While)
            || v@[0].data@ == crate::lex::tokens::SpecToken::Keyword(Keyword::For))),
{
    if v.len() == 0 {
        return false;
    }
    match &v[0].data {
        Token::Keyword(Keyword::If) | Token::Keyword(Keyword::While) | Token::Keyword(Keyword::For) => true,
        _ => false,
    }
}

/// How many groups are open before position `i` of `ts`: the opening
/// groupers before it less the closing ones.
pub open spec fn open_depth(ts: Seq<Located<Token>>, i: int) -> int
    decreases i,
{
    if i <= 0 {
        0
    } else {
        open_depth(ts, i - 1) + match ts[i - 1].data {
            Token::OpenGroup(_) => 1int,
            Token::CloseGroup(_) => -1int,
            _ => 0int,
        }
    }
}

/// Whether a semicolon stands where no group is open.
pub open spec fn top_semicolon(ts: Seq<Located<Token>>) -> bool {
    exists|i: int| 0 <= i < ts.len() && ts[i].data is Semicolon && #[trigger] open_depth(ts, i) == 0
}

/// Whether a body has a semicolon outside every group.
fn has_top_semicolon(body: &Vec<Located<Token>>) -> (b: bool)
    ensures
        b == top_semicolon(body@),
{
    let mut level: i128 = 0;
    let mut found = false;
    let mut i: usize = 0;
    while i < body.len()
        invariant
            i <= body@.len(),
            -(i as int) <= level <= i as int,
            level == open_depth(body@, i as int),
            found == exists|j: int| 0 <= j < i && body@[j].data is Semicolon && #[trigger] open_depth(body@, j) == 0,
        decreases body@.len() - i,
    {
        match &body[i].data {
            Token::OpenGroup(_) => level = level + 1,
            Token::CloseGroup(_) => level = level - 1,
            Token::Semicolon => {
                if level == 0 {
                    found = true;
                }
            },
            _ => {},
        }
        i = i + 1;
    }
    found
}

/// Parses the body of a lambda, getter or setter: nothing, a single
/// expression whose value is returned, or statements.
pub fn lam_body(body: Vec<Located<Token>>, store: &mut Store) -> (r: ParseResult<LambdaBody>)
    requires
        old(store).wf(),
    ensures
        final(store).wf(),
        final(store).extends(old(store)),
        body@.len() == 0 ==> (r matches Ok(LambdaBody::Block(b)) && b@.len() == 0),
        r matches Ok(b) ==> lambda_body_refs(b, final(store).sizes()),
    decreases body@.len(), 4nat,
{
    proof { lemma_extends_refl(store); }
    if body.len() == 0 {
        let b: Vec<Node> = Vec::new();
        assert(crate::ast::refs::nodes_refs(b@, store.sizes()));
        return Ok(LambdaBody::Block(b));
    }
    if !has_top_semicolon(&body) && !leading_stmt(&body) {
        match parse_expr(body, true, store) {
            Ok(e) => Ok(LambdaBody::ImplicitReturn(Box::new(e))),
            Err(e) => Err(e),
        }
    } else {
        match ast_level(body, Scope::fn_lam(), store) {
            Ok(b) => Ok(LambdaBody::Block(b)),
            Err(e) => Err(e),
        }
    }
}

/// Whether a token opens a `get` or `set` part of an auto-property.
pub open spec fn prop_keyword(t: Token) -> bool {
    t == Token::Keyword(Keyword::Get) || t == Token::Keyword(Keyword::Setter)
}

/// Whether the tokens of an auto-property are one or two parts `get name`
/// / `set name`, two of them of different kinds and separated by a comma.
pub open spec fn named_props(ts: Seq<Located<Token>>) -> bool {
    &&& ts.len() == 2 || ts.len() == 5
    &&& prop_keyword(ts[0].data) && ts[1].data is Identifier
    &&& ts.len() == 5 ==> ts[2].data is Comma && prop_keyword(ts[3].data) && ts[4].data is Identifier && ts[0].data != ts[3].data
}

/// Whether `f` reads or writes the variable named by the identifier `id`.
pub open spec fn field_names(f: Option<AutoPropValue>, id: Located<Token>, strs: Seq<Seq<char>>) -> bool {
    f matches Some(AutoPropValue::String(l)) && l.data < strs.len() && strs[l.data as int] == id.data->Identifier_0@
        && l.start == id.start && l.end == id.end
}

/// What the field for keyword `kw` holds after the first `parts` parts of
/// named auto-property tokens: the name of the part with that keyword, or
/// nothing.
pub open spec fn part_field(f: Option<AutoPropValue>, ts: Seq<Located<Token>>, kw: Keyword, parts: int, strs: Seq<Seq<char>>) -> bool {
    if parts >= 1 && ts[0].data == Token::Keyword(kw) {
        field_names(f, ts[1], strs)
    } else if parts >= 2 && ts.len() == 5 && ts[3].data == Token::Keyword(kw) {
        field_names(f, ts[4], strs)
    } else {
        f is None
    }
}


/// Parses the getter and setter of an auto-property.
pub fn parse_prop(tokens: Vec<Located<Token>>, store: &mut Store) -> (r: ParseResult<AutoProp>)
    requires
        old(store).wf(),
    ensures
        final(store).wf(),
        final(store).extends(old(store)),
        tokens@.len() == 0 ==> r == Ok::<AutoProp, ParseError>(AutoProp { get: None, set: None }),
        r matches Ok(p) ==> prop_refs(p, final(store).sizes()),
        tokens@.len() > 0 && !(tokens@[0].data == Token::Keyword(Keyword::Get) || tokens@[0].data == Token::Keyword(Keyword::Setter))
            ==> r is Err,
        named_props(tokens@) ==> (r matches Ok(p) && part_field(p.get, tokens@, Keyword::Get, 2, final(store).strs())
            && part_field(p.set, tokens@, Keyword::Setter, 2, final(store).strs())),
    decreases tokens@.len(), 3nat,
{
    let n = tokens.len();
    let mut prop = AutoProp::new();
    let mut interior = Tokens::new(tokens);
    proof { lemma_extends_refl(store); }
    while !interior.is_empty()
        invariant
            store.wf(),
            store.extends(old(store)),
            interior.rest().len() <= n,
            n == tokens@.len(),
            prop_refs(prop, store.sizes()),
            interior.rest().len() == n ==> interior.rest() == tokens@,
            n == 0 ==> prop == (AutoProp { get: None, set: None }),
            n > 0 && interior.rest().len() < n ==> (tokens@[0].data == Token::Keyword(Keyword::Get)
                || tokens@[0].data == Token::Keyword(Keyword::Setter)),
            named_props(tokens@) ==> ({
                let parts = if interior.rest().len() == n { 0int } else if interior.rest().len() == 0 { if n == 2 { 1int } else { 2int } } else { 1int };
                &&& interior.rest().len() == n || interior.rest().len() == 0 || (n == 5 && interior.rest() == tokens@.skip(3))
                &&& interior.rest().len() == n ==> interior.rest() == tokens@
                &&& part_field(prop.get, tokens@, Keyword::Get, parts, store.strs())
                &&& part_field(prop.set, tokens@, Keyword::Setter, parts, store.strs())
            }),
        decreases interior.rest().len(),
    {
        let ghost rest0 = interior.rest();
        let ghost prop0 = prop;
        let ghost named = named_props(tokens@);
        let ghost parts0: int = if rest0.len() == n { 0int } else { 1int };
        proof {
            if named {
                reveal_with_fuel(super::util::level_scan, 6);
                let ks = crate::lex::tokens::token_kinds(rest0);
                assert(ks.len() == rest0.len());
                assert forall|i: int| 0 <= i < rest0.len() implies ks[i] == (#[trigger] rest0[i]).data@ by {}
                if rest0.len() == 5 {
                    assert(rest0 == tokens@);
                    assert(super::util::level_scan(ks, Stop::Comma, 0, Seq::empty()) == super::util::Level::Found(2));
                } else {
                    assert(rest0.len() == 2);
                    if n == 5 {
                        assert(rest0[0] == tokens@[3]);
                        assert(rest0[1] == tokens@[4]);
                    } else {
                        assert(rest0 == tokens@);
                    }
                    assert(super::util::level_scan(ks, Stop::Comma, 0, Seq::empty()) == super::util::Level::NotFound);
                }
            }
        }
        let ghost first_round = interior.rest().len() == n;
        proof {
            if first_round && n > 0 {
                super::util::lemma_level_scan_bounds(crate::lex::tokens::token_kinds(tokens@), Stop::Comma, 0, Seq::empty());
            }
        }
        let part = match zero_level_preserve(&mut interior, Stop::Comma) {
            Ok(Ok((v, _))) => v,
            Ok(Err(v)) => v,
            Err(e) => return Err(e),
        };
        proof {
            if first_round && part@.len() > 0 {
                assert(part@[0] == tokens@[0]);
            }
        }
        let mut t = Tokens::new(part);
        let first = match t.next() {
            Some(x) => x,
            None => return Err(ParseError::UnexpectedEOF),
        };
        let ghost s0 = *store;
        match &first.data {
            Token::Keyword(Keyword::Get) => {
                if prop.get.is_some() {
                    return Err(ParseError::UnexpectedToken(first));
                }
                let ident = match t.peek() {
                    Some(x) => x.data.ident(),
                    None => false,
                };
                if ident {
                    let x = t.next().unwrap();
                    match x.data {
                        Token::Identifier(s) => {
                            let ind = store.ins_str(s);
                            prop.get = Some(AutoPropValue::String(Located { data: ind, start: x.start, end: x.end }));
                        },
                        _ => {},
                    }
                } else {
                    if t.next_if_is(&Token::BinaryOp(Binary::LogicalOr)).is_none() {
                        if t.next_if_is(&Token::Pipe).is_some() {
                            match expect_token(&mut t, &Token::Pipe) {
                                Ok(_) => {},
                                Err(e) => return Err(e),
                            }
                        }
                    }
                    match expect_token(&mut t, &Token::OpenGroup(Grouper::Brace)) {
                        Ok(_) => {},
                        Err(e) => return Err(e),
                    }
                    let (inner, e) = match take_until(&mut t, Grouper::Brace) {
                        Ok(x) => x,
                        Err(e) => return Err(e),
                    };
                    let body = match lam_body(inner, store) {
                        Ok(b) => b,
                        Err(err) => {
                            proof { lemma_extends_trans(old(store), &s0, store); }
                            return Err(err.neof_or(ParseError::UnexpectedToken(e)));
                        },
                    };
                    let ind = store.add_getter(GetProp::new(body));
                    prop.get = Some(AutoPropValue::Lambda(ind));
                }
            },
            Token::Keyword(Keyword::Setter) => {
                if prop.set.is_some() {
                    return Err(ParseError::UnexpectedToken(first));
                }
                let ident = match t.peek() {
                    Some(x) => x.data.ident(),
                    None => false,
                };
                if ident {
                    let x = t.next().unwrap();
                    match x.data {
                        Token::Identifier(s) => {
                            let ind = store.ins_str(s);
                            prop.set = Some(AutoPropValue::String(Located { data: ind, start: x.start, end: x.end }));
                        },
                        _ => {},
                    }
                } else {
                    match expect_token(&mut t, &Token::Pipe) {
                        Ok(_) => {},
                        Err(e) => return Err(e),
                    }
                    let pt = match t.next() {
                        Some(x) => x,
                        None => return Err(ParseError::UnexpectedEOF),
                    };
                    let param = match pt.data {
                        Token::Identifier(s) => s,
                        _ => return Err(ParseError::UnexpectedToken(pt)),
                    };
                    match expect_token(&mut t, &Token::Pipe) {
                        Ok(_) => {},
                        Err(e) => return Err(e),
                    }
                    match expect_token(&mut t, &Token::OpenGroup(Grouper::Brace)) {
                        Ok(_) => {},
                        Err(e) => return Err(e),
                    }
                    let (inner, e) = match take_until(&mut t, Grouper::Brace) {
                        Ok(x) => x,
                        Err(e) => return Err(e),
                    };
                    let body = match lam_body(inner, store) {
                        Ok(b) => b,
                        Err(err) => {
                            proof { lemma_extends_trans(old(store), &s0, store); }
                            return Err(err.neof_or(ParseError::UnexpectedToken(e)));
                        },
                    };
                    let ghost s1 = *store;
                    let param_ind = store.ins_str(param);
                    proof {
                        lemma_extends_trans(&s0, &s1, store);
                        crate::ast::refs::lemma_lambda_body_refs_grow(body, s1.sizes(), store.sizes());
                    }
                    let ind = store.add_setter(SetProp::new(param_ind, body));
                    prop.set = Some(AutoPropValue::Lambda(ind));
                }
            },
            _ => return Err(ParseError::UnexpectedToken(first)),
        }
        proof { lemma_extends_trans(old(store), &s0, store); }
    }
    Ok(prop)
}

/// The text by which a number literal names a hash key: its digits as
/// written, `NaN` or `Infinity`.
pub open spec fn number_key_text(n: NumberLit) -> Seq<char> {
    match n {
        NumberLit::Decimal(s) => s@,
        NumberLit::NaN => seq!['N', 'a', 'N'],
        NumberLit::Infinity => seq!['I', 'n', 'f', 'i', 'n', 'i', 't', 'y'],
    }
}

/// The text of a number literal used as a hash key.
fn number_key(n: NumberLit) -> (s: String)
    ensures
        s@ == number_key_text(n),
{
    match n {
        NumberLit::Decimal(s) => s,
        NumberLit::NaN => {
            let v = vec!['N', 'a', 'N'];
            proof { assert(v@ =~= seq!['N', 'a', 'N']); }
            crate::text::chars_to_string(&v)
        },
        NumberLit::Infinity => {
            let v = vec!['I', 'n', 'f', 'i', 'n', 'i', 't', 'y'];
            proof { assert(v@ =~= seq!['I', 'n', 'f', 'i', 'n', 'i', 't', 'y']); }
            crate::text::chars_to_string(&v)
        },
    }
}

/// Sets `key` to `value`, replacing an earlier value of the same key.
pub fn hash_insert(map: &mut crate::ast::node::Hash, key: usize, value: ObjectValue)
    ensures
        (forall|j: int| 0 <= j < old(map)@.len() ==> old(map)@[j].0 != key)
            ==> final(map)@ == old(map)@.push((key, value)),
        (exists|j: int| 0 <= j < old(map)@.len() && old(map)@[j].0 == key) ==> exists|i: int|
            0 <= i < old(map)@.len() && old(map)@[i].0 == key
            && (forall|j: int| 0 <= j < i ==> old(map)@[j].0 != key)
            && final(map)@ == old(map)@.update(i, (key, value)),
{
    let mut i: usize = 0;
    while i < map.len()
        invariant
            i <= map@.len(),
            map@ == old(map)@,
            forall|j: int| 0 <= j < i ==> map@[j].0 != key,
        decreases map@.len() - i,
    {
        if map[i].0 == key {
            map.set(i, (key, value));
            return;
        }
        i = i + 1;
    }
    map.push((key, value));
}

/// Whether no key occurs twice in a hash literal.
pub open spec fn distinct_keys(h: Seq<(usize, ObjectValue)>) -> bool {
    forall|i: int, j: int| 0 <= i < j < h.len() ==> #[trigger] h[i].0 != #[trigger] h[j].0
}

/// Parses the entries of a hash literal.
pub fn parse_hash(tokens: Vec<Located<Token>>, store: &mut Store) -> (r: ParseResult<crate::ast::node::Hash>)
    requires
        old(store).wf(),
    ensures
        final(store).wf(),
        final(store).extends(old(store)),
        tokens@.len() == 0 ==> (r matches Ok(h) && h@.len() == 0),
        r matches Ok(h) ==> distinct_keys(h@),
        r matches Ok(h) ==> forall|i: int| 0 <= i < h@.len() ==> (#[trigger] h@[i]).0 < final(store).strs().len(),
        r matches Ok(h) ==> entries_refs(h@, final(store).sizes()),
    decreases tokens@.len(), 3nat,
{
    let n = tokens.len();
    let mut cur = Tokens::new(tokens);
    let mut map: crate::ast::node::Hash = Vec::new();
    proof { lemma_extends_refl(store); }
    while !cur.is_empty()
        invariant
            store.wf(),
            store.extends(old(store)),
            cur.rest().len() <= n,
            n == tokens@.len(),
            n == 0 ==> map@.len() == 0,
            distinct_keys(map@),
            forall|i: int| 0 <= i < map@.len() ==> (#[trigger] map@[i]).0 < store.strs().len(),
            forall|i: int| 0 <= i < map@.len() ==> entry_refs(#[trigger] map@[i], store.sizes()),
        decreases cur.rest().len(),
    {
        let kt = match cur.next() {
            Some(x) => x,
            None => return Err(ParseError::UnexpectedEOF),
        };
        let key = match kt.data {
            Token::Identifier(s) => s,
            Token::String(s) => s,
            Token::Number(n) => number_key(n),
            _ => return Err(ParseError::UnexpectedToken(kt)),
        };
        let vt = match cur.next() {
            Some(x) => x,
            None => return Err(ParseError::UnexpectedEOF),
        };
        let ghost s0 = *store;
        let value = match &vt.data {
            Token::Colon => {
                let v = match zero_level_preserve(&mut cur, Stop::Comma) {
                    Ok(Ok((v, _))) => v,
                    Ok(Err(v)) => v,
                    Err(e) => return Err(e),
                };
                match parse_expr(v, false, store) {
                    Ok(e) => ObjectValue::Expression(e),
                    Err(e) => {
                        proof { lemma_extends_trans(old(store), &s0, store); }
                        return Err(e);
                    },
                }
            },
            Token::OpenGroup(Grouper::Brace) => {
                let (interior, last) = match take_until(&mut cur, Grouper::Brace) {
                    Ok(x) => x,
                    Err(e) => return Err(e),
                };
                let _ = cur.next_if_is(&Token::Comma);
                match parse_prop(interior, store) {
                    Ok(p) => ObjectValue::AutoProp(p),
                    Err(e) => {
                        proof { lemma_extends_trans(old(store), &s0, store); }
                        return Err(e.neof_or(ParseError::UnexpectedToken(last)));
                    },
                }
            },
            _ => return Err(ParseError::UnexpectedToken(vt)),
        };
        let ghost s1 = *store;
        let k = store.ins_str(key);
        proof {
            lemma_extends_trans(&s0, &s1, store);
            lemma_extends_trans(old(store), &s0, store);
        }
        let ghost m0 = map@;
        proof {
            assert forall|i: int| 0 <= i < m0.len() implies entry_refs(#[trigger] m0[i], store.sizes()) by {
                assert(entry_refs(m0[i], s0.sizes()));
                match m0[i].1 {
                    ObjectValue::Expression(e) => lemma_expr_refs_grow(e, s0.sizes(), store.sizes()),
                    ObjectValue::AutoProp(_) => {},
                }
            }
            match &value {
                ObjectValue::Expression(e) => lemma_expr_refs_grow(*e, s1.sizes(), store.sizes()),
                ObjectValue::AutoProp(_) => {},
            }
            assert(entry_refs((k, value), store.sizes()));
        }
        hash_insert(&mut map, k, value);
        proof {
            assert forall|i: int, j: int| 0 <= i < j < map@.len() implies #[trigger] map@[i].0 != #[trigger] map@[j].0 by {
                if i < m0.len() && j < m0.len() {
                    assert(map@[i].0 == m0[i].0 && map@[j].0 == m0[j].0);
                }
            }
        }
    }
    proof {
        crate::ast::refs::lemma_entries_refs_each(map@, store.sizes());
    }
    Ok(map)
}

/// Whether a token is an operator.
pub open spec fn is_op_token(t: Token) -> bool {
    t is BinaryOp || t is UnaryOp || t is AssignOp
}

/// Whether a token is an operand on its own: a number, a boolean, a string,
/// a name or `nil`.
pub open spec fn is_atom_token(t: Token) -> bool {
    t is Number || t is Bool || t is String || t is Identifier || t == Token::Keyword(Keyword::Nil)
}

/// The item that an operator token stands for.
pub open spec fn op_item(t: Token) -> OpExpr
    recommends
        is_op_token(t),
{
    match t {
        Token::BinaryOp(b) => OpExpr::Binary(b),
        Token::UnaryOp(u) => OpExpr::Unary(u),
        Token::AssignOp(a) => OpExpr::Assign(a),
        _ => OpExpr::Binary(Binary::Plus),
    }
}

/// Whether `e` is the operand that the one-token operand `t` stands for,
/// with strings and names given by their place in the string table `strings`.
pub open spec fn atom_item(t: Located<Token>, e: Expression, strings: Seq<Seq<char>>) -> bool {
    match t.data {
        Token::Number(n) => e == Expression::Number(n),
        Token::Bool(b) => e == Expression::Bool(b),
        Token::String(s) => e matches Expression::String(i) && i < strings.len() && strings[i as int] == s@,
        Token::Identifier(s) => e matches Expression::Identifier(l) && l.data < strings.len()
            && strings[l.data as int] == s@ && l.start == t.start && l.end == t.end,
        Token::Keyword(Keyword::Nil) => e == Expression::Nil,
        _ => false,
    }
}

/// Whether `x` is an item that operator token `t` may stand for: its
/// operator, or negation for a `-` that stands where an operand is due.
pub open spec fn op_item_of(x: OpExpr, t: Token) -> bool {
    x == op_item(t) || (t == Token::BinaryOp(Binary::Minus) && x == OpExpr::Unary(Unary::Negation))
}

/// Whether `x` is the item that token `t` stands for.
pub open spec fn item_of(x: OpExpr, t: Located<Token>, strings: Seq<Seq<char>>) -> bool {
    if is_op_token(t.data) {
        op_item_of(x, t.data)
    } else {
        x matches OpExpr::Expr(e, loc) && loc == t.start && atom_item(t, e, strings)
    }
}

/// Whether `items` are the items that the tokens `ts` stand for, one each,
/// each where it may follow the ones before it (so a `-` is subtraction
/// right after an operand and negation elsewhere).
pub open spec fn items_of(items: Seq<OpExpr>, ts: Seq<Located<Token>>, strings: Seq<Seq<char>>) -> bool {
    &&& items.len() == ts.len()
    &&& forall|i: int| 0 <= i < ts.len() ==> item_of(#[trigger] items[i], ts[i], strings)
    &&& pushed_ok(items)
}

/// Whether every token is an operator or a one-token operand.
pub open spec fn flat_expression(ts: Seq<Located<Token>>) -> bool {
    forall|i: int| 0 <= i < ts.len() ==> is_op_token(#[trigger] ts[i].data) || is_atom_token(ts[i].data)
}

/// Whether the token at `k` may stand where it does: `-` anywhere, another
/// binary or an assignment operator right after an operand, anything else
/// elsewhere.
pub open spec fn token_fits(ts: Seq<Located<Token>>, k: int) -> bool {
    let after_operand = k > 0 && is_atom_token(ts[k - 1].data);
    if ts[k].data == Token::BinaryOp(Binary::Minus) {
        true
    } else if ts[k].data is BinaryOp || ts[k].data is AssignOp {
        after_operand
    } else {
        !after_operand
    }
}

/// Whether every token may stand where it does.
pub open spec fn tokens_fit(ts: Seq<Located<Token>>) -> bool {
    forall|k: int| 0 <= k < ts.len() ==> #[trigger] token_fits(ts, k)
}

/// Adding an item for one more token keeps the items matched.
proof fn lemma_items_push(items: Seq<OpExpr>, ts: Seq<Located<Token>>, strings: Seq<Seq<char>>, x: OpExpr, t: Located<Token>)
    requires
        items_of(items, ts, strings),
        item_of(x, t, strings),
        can_push(items, x),
    ensures
        items_of(items.push(x), ts.push(t), strings),
{
    crate::ast::parsing::opexpr::lemma_pushed_push(items, x);
    assert forall|i: int| 0 <= i < ts.push(t).len() implies item_of(#[trigger] items.push(x)[i], ts.push(t)[i], strings) by {
        if i < ts.len() {
            assert(items.push(x)[i] == items[i]);
            assert(ts.push(t)[i] == ts[i]);
        }
    }
}

/// Items matched against a string table stay matched when the table grows.
pub proof fn lemma_items_grow(items: Seq<OpExpr>, ts: Seq<Located<Token>>, s1: Seq<Seq<char>>, s2: Seq<Seq<char>>)
    requires
        items_of(items, ts, s1),
        s1.len() <= s2.len(),
        forall|i: int| 0 <= i < s1.len() ==> #[trigger] s2[i] == s1[i],
    ensures
        items_of(items, ts, s2),
{
    assert forall|i: int| 0 <= i < ts.len() implies item_of(#[trigger] items[i], ts[i], s2) by {
        assert(item_of(items[i], ts[i], s1));
    }
}

/// An operator token is one whose view is an operator.
proof fn lemma_op_view(t: Token)
    ensures
        crate::lex::tokens::spec_is_op(t@) == is_op_token(t),
{
}

/// Whether the item of the token at `c` may follow the items before it is
/// whether the token may stand where it does.
proof fn lemma_fits(items: Seq<OpExpr>, ts: Seq<Located<Token>>, c: int, strings: Seq<Seq<char>>, x: OpExpr)
    requires
        flat_expression(ts),
        0 <= c < ts.len(),
        items_of(items, ts.take(c), strings),
        item_of(x, ts[c], strings),
        ts[c].data == Token::BinaryOp(Binary::Minus) ==> (x is Binary <==> (items.len() > 0 && items.last() is Expr)),
    ensures
        can_push(items, x) == token_fits(ts, c),
{
    if c > 0 {
        assert(items.last() == items[c - 1]);
        assert(ts.take(c)[c - 1] == ts[c - 1]);
        assert(item_of(items[c - 1], ts.take(c)[c - 1], strings));
        assert(is_op_token(ts[c - 1].data) || is_atom_token(ts[c - 1].data));
    }
    assert(is_op_token(ts[c].data) || is_atom_token(ts[c].data));
}

/// Whether the tokens are one-token operands joined by binary operators.
pub open spec fn operand_chain_tokens(ts: Seq<Located<Token>>) -> bool {
    &&& ts.len() % 2 == 1
    &&& forall|i: int| 0 <= i < ts.len() ==> #[trigger] is_atom_token(ts[i].data) == (i % 2 == 0)
    &&& forall|i: int| 0 <= i < ts.len() && i % 2 == 1 ==> #[trigger] ts[i].data is BinaryOp
}

/// The items of such tokens are operands joined by binary operators.
proof fn lemma_chain_items(items: Seq<OpExpr>, ts: Seq<Located<Token>>, strings: Seq<Seq<char>>)
    requires
        operand_chain_tokens(ts),
        items_of(items, ts, strings),
    ensures
        super::opexpr::operand_chain(items),
        flat_expression(ts),
        tokens_fit(ts),
{
    assert forall|i: int| 0 <= i < items.len() implies (#[trigger] items[i] is Expr) == (i % 2 == 0) by {
        assert(item_of(items[i], ts[i], strings));
        assert(is_atom_token(ts[i].data) == (i % 2 == 0));
        if i % 2 == 1 {
            assert(ts[i].data is BinaryOp);
        }
    }
    assert forall|i: int| 0 <= i < items.len() && i % 2 == 1 implies #[trigger] items[i] is Binary by {
        assert(item_of(items[i], ts[i], strings));
        assert(ts[i].data is BinaryOp);
        assert(items[i - 1] is Expr);
        assert(can_push(items.take(i), items[i]));
        assert(items.take(i).last() == items[i - 1]);
    }
    lemma_chain_tokens(ts);
}

/// Such tokens are a flat expression whose tokens each stand where they may.
proof fn lemma_chain_tokens(ts: Seq<Located<Token>>)
    requires
        operand_chain_tokens(ts),
    ensures
        flat_expression(ts),
        tokens_fit(ts),
{
    assert forall|i: int| 0 <= i < ts.len() implies is_op_token(#[trigger] ts[i].data) || is_atom_token(ts[i].data) by {
        assert(is_atom_token(ts[i].data) == (i % 2 == 0));
        if i % 2 == 1 {
            assert(ts[i].data is BinaryOp);
        }
    }
    assert forall|k: int| 0 <= k < ts.len() implies #[trigger] token_fits(ts, k) by {
        assert(is_atom_token(ts[k].data) == (k % 2 == 0));
        if k > 0 {
            assert(is_atom_token(ts[k - 1].data) == ((k - 1) % 2 == 0));
        }
        if k % 2 == 1 {
            assert(ts[k].data is BinaryOp);
        }
    }
}

/// Whether the tokens are an operand followed by `.` and a name.
pub open spec fn property_shape(ts: Seq<Located<Token>>) -> bool {
    ts.len() == 3 && is_atom_token(ts[0].data) && ts[1].data is Period && ts[2].data is Identifier
}

/// The tokens between the brackets of an operand followed by `[ ... ]`.
pub open spec fn index_inner(ts: Seq<Located<Token>>) -> Seq<Located<Token>> {
    ts.subrange(2, ts.len() - 1)
}

/// Whether the tokens are an operand followed by brackets around a flat
/// expression whose tokens each stand where they may.
pub open spec fn index_shape(ts: Seq<Located<Token>>) -> bool {
    &&& ts.len() >= 4
    &&& is_atom_token(ts[0].data)
    &&& ts[1].data == Token::OpenGroup(Grouper::Bracket)
    &&& ts[ts.len() - 1].data == Token::CloseGroup(Grouper::Bracket)
    &&& flat_expression(index_inner(ts))
    &&& tokens_fit(index_inner(ts))
}

/// The tokens between the parentheses of an operand followed by `( ... )`.
pub open spec fn call_inner(ts: Seq<Located<Token>>) -> Seq<Located<Token>> {
    ts.subrange(2, ts.len() - 1)
}

/// Whether the tokens are an operand called with a comma-separated list of
/// arguments in which no group opens.
pub open spec fn call_shape(ts: Seq<Located<Token>>) -> bool {
    &&& ts.len() >= 3
    &&& is_atom_token(ts[0].data)
    &&& ts[1].data == Token::OpenGroup(Grouper::Parentheses)
    &&& ts[ts.len() - 1].data == Token::CloseGroup(Grouper::Parentheses)
    &&& no_groupers(call_inner(ts))
}

/// In a run of tokens that opens and closes no group, the first closing
/// grouper after it closes the group.
proof fn lemma_scan_close(ts: Seq<Located<Token>>, k: int, i: int, g: Grouper)
    requires
        0 <= i <= k < ts.len(),
        forall|j: int| 0 <= j < k ==> !((#[trigger] ts[j]).data is OpenGroup) && !(ts[j].data is CloseGroup),
        ts[k].data == Token::CloseGroup(g),
    ensures
        super::util::level_scan(crate::lex::tokens::token_kinds(ts), Stop::Close(g), i, Seq::empty())
            == super::util::Level::Found(k),
    decreases k - i,
{
    let ks = crate::lex::tokens::token_kinds(ts);
    assert(ks[i] == ts[i].data@);
    if i < k {
        lemma_scan_close(ts, k, i + 1, g);
    }
}

/// Whether `e` is the tree of the property access or index access that
/// `ts` spells, the index standing for `index_items`.
pub open spec fn postfix_tree(ts: Seq<Located<Token>>, e: Expression, strs: Seq<Seq<char>>, index_items: Seq<OpExpr>) -> bool {
    if property_shape(ts) {
        e matches Expression::PropertyAccess { item, property } && atom_item(ts[0], *item, strs) && property < strs.len()
            && strs[property as int] == ts[2].data->Identifier_0@
    } else if call_shape(ts) {
        e matches Expression::FunctionCall { function, args } && atom_item(ts[0], *function, strs)
            && list_tied(comma_parts(call_inner(ts)), args@, strs)
    } else {
        e matches Expression::IndexAccess { item, index } && atom_item(ts[0], *item, strs)
            && items_of(index_items, index_inner(ts), strs) && resolve_spec(index_items) == Ok::<Expression, ParseError>(*index)
    }
}

/// An operand keeps its meaning when the string table grows.
proof fn lemma_atom_grow(t: Located<Token>, e: Expression, s1: Seq<Seq<char>>, s2: Seq<Seq<char>>)
    requires
        atom_item(t, e, s1),
        s1.len() <= s2.len(),
        forall|i: int| 0 <= i < s1.len() ==> #[trigger] s2[i] == s1[i],
    ensures
        atom_item(t, e, s2),
{
}

/// A lone operand stands for itself.
proof fn lemma_resolve_single(e: Expression, l: crate::location::Location)
    ensures
        resolve_spec(seq![OpExpr::Expr(e, l)]) == Ok::<Expression, ParseError>(e),
{
    let x = OpExpr::Expr(e, l);
    let one = seq![x];
    reveal_with_fuel(super::opexpr::collapse_onto, 2);
    assert(one.drop_last() =~= Seq::<OpExpr>::empty());
    assert(seq![x] + Seq::<OpExpr>::empty() =~= one);
    assert(super::opexpr::collapse_onto(one, Seq::empty()) == Ok::<Seq<OpExpr>, ParseError>(one));
    assert(one.drop_first() =~= Seq::<OpExpr>::empty());
    assert(seq![x] + Seq::<OpExpr>::empty() =~= one);
    assert forall|p: crate::operators::Precedence| super::opexpr::fold_level(one, p) == Ok::<Seq<OpExpr>, ParseError>(one) by {
        reveal_with_fuel(super::opexpr::fold_level, 2);
    }
    reveal_with_fuel(super::opexpr::fold_levels_from, 7);
    assert(super::opexpr::fold_levels_from(one, 0) == Ok::<Seq<OpExpr>, ParseError>(one));
    reveal_with_fuel(super::opexpr::fold_assign, 2);
    assert(super::opexpr::fold_assign(one) == Ok::<Seq<OpExpr>, ParseError>(one));
}

/// In a run of tokens with no grouper, the first closing bracket after it
/// closes the group.
proof fn lemma_scan_flat_close(ts: Seq<Located<Token>>, k: int, i: int)
    requires
        0 <= i <= k < ts.len(),
        forall|j: int| 0 <= j < k ==> is_op_token(#[trigger] ts[j].data) || is_atom_token(ts[j].data),
        ts[k].data == Token::CloseGroup(Grouper::Bracket),
    ensures
        super::util::level_scan(crate::lex::tokens::token_kinds(ts), Stop::Close(Grouper::Bracket), i, Seq::empty())
            == super::util::Level::Found(k),
    decreases k - i,
{
    let ks = crate::lex::tokens::token_kinds(ts);
    assert(ks[i] == ts[i].data@);
    if i < k {
        lemma_scan_flat_close(ts, k, i + 1);
    }
}

/// Parses an expression: operands (literals, names, groups, arrays, hashes
/// and lambdas, each followed by calls, indexing and property accesses)
/// joined by operators.  `this` is allowed inside lambdas only.
#[verifier::rlimit(40)]
pub fn parse_expr(tokens: Vec<Located<Token>>, in_lam: bool, store: &mut Store) -> (r: ParseResult<Expression>)
    requires
        old(store).wf(),
    ensures
        final(store).wf(),
        final(store).extends(old(store)),
        tokens@.len() == 0 ==> r == Err::<Expression, ParseError>(ParseError::UnexpectedEOF),
        flat_expression(tokens@) && tokens_fit(tokens@) ==> exists|items: Seq<OpExpr>|
            items_of(items, tokens@, final(store).strs()) && r == resolve_spec(items),
        flat_expression(tokens@) && !tokens_fit(tokens@) ==> r is Err,
        flat_expression(tokens@) ==> forall|k: int| 0 <= k < tokens@.len() && !#[trigger] token_fits(tokens@, k)
            && (forall|j: int| 0 <= j < k ==> token_fits(tokens@, j))
            ==> r == Err::<Expression, ParseError>(ParseError::UnexpectedToken(tokens@[k])),
        r matches Ok(e) ==> expr_refs(e, final(store).sizes()),
        paren_expression(tokens@) ==> (r matches Ok(e) ==> paren_expr(tokens@, e, final(store).strs())),
        operand_chain_tokens(tokens@) ==> r is Ok,
        property_shape(tokens@) ==> (r matches Ok(e) && postfix_tree(tokens@, e, final(store).strs(), Seq::empty())),
        call_shape(tokens@) ==> (r matches Ok(e) ==> postfix_tree(tokens@, e, final(store).strs(), Seq::empty())),
        call_shape(tokens@) && (forall|k: int| 0 <= k < comma_parts(call_inner(tokens@)).len()
            ==> operand_chain_tokens(#[trigger] comma_parts(call_inner(tokens@))[k])) ==> r is Ok,
        index_shape(tokens@) ==> exists|gi: Seq<OpExpr>| items_of(gi, index_inner(tokens@), final(store).strs())
            && (resolve_spec(gi) is Ok ==> (r matches Ok(e) && postfix_tree(tokens@, e, final(store).strs(), gi))),
    decreases tokens@.len(), 2nat,
{
    proof {
        if operand_chain_tokens(tokens@) {
            lemma_chain_tokens(tokens@);
        }
    }
    let ghost flat = flat_expression(tokens@);
    let ghost pe = paren_expression(tokens@);
    let ghost post = property_shape(tokens@) || index_shape(tokens@) || call_shape(tokens@);
    let ghost mut gi: Seq<OpExpr> = Seq::empty();
    let n = tokens.len();
    let mut cur = Tokens::new(tokens);
    let mut op_expr = OpExprManager::new();
    proof {
        lemma_extends_refl(store);
        assert(tokens@.skip(0) =~= tokens@);
        assert(tokens@.take(0) =~= Seq::<Located<Token>>::empty());
        assert(paren_items(Seq::<Located<Token>>::empty(), Seq::<OpExpr>::empty(), store.strs()));
    }
    while !cur.is_empty()
        invariant
            store.wf(),
            store.extends(old(store)),
            cur.rest().len() <= n,
            n == tokens@.len(),
            n == 0 ==> op_expr.0@.len() == 0,
            flat == flat_expression(tokens@),
            flat ==> cur.rest() == tokens@.skip(n - cur.rest().len()),
            flat ==> items_of(op_expr.0@, tokens@.take(n - cur.rest().len()), store.strs()),
            flat ==> forall|k: int| 0 <= k < n - cur.rest().len() ==> #[trigger] token_fits(tokens@, k),
            flat && 0 < n - cur.rest().len() < n && is_atom_token(tokens@[n - cur.rest().len() - 1].data)
                ==> is_op_token(tokens@[n - cur.rest().len()].data),
            items_refs(op_expr.0@, store.sizes()),
            pe == paren_expression(tokens@),
            pushed_ok(op_expr.0@),
            pe ==> cur.rest() == tokens@.skip(n - cur.rest().len()),
            pe ==> paren_items(tokens@.take(n - cur.rest().len()), op_expr.0@, store.strs()),
            post == (property_shape(tokens@) || index_shape(tokens@) || call_shape(tokens@)),
            operand_chain_tokens(tokens@) ==> flat && tokens_fit(tokens@),
            property_shape(tokens@) ==> gi == Seq::<OpExpr>::empty(),
            call_shape(tokens@) ==> gi == Seq::<OpExpr>::empty(),
            post ==> (cur.rest() == tokens@ && op_expr.0@.len() == 0) || (cur.rest().len() == 0 && op_expr.0@.len() == 1
                && (op_expr.0@[0] matches OpExpr::Expr(e, _) && postfix_tree(tokens@, e, store.strs(), gi))),
        decreases cur.rest().len(),
    {
        let ghost r0 = cur.rest().len();
        let ghost c: int = n - r0;
        let ghost items0 = op_expr.0@;
        let token = match cur.next() {
            Some(x) => x,
            None => return Err(ParseError::UnexpectedEOF),
        };
        proof {
            if flat {
                assert(tokens@.skip(c).drop_first() =~= tokens@.skip(c + 1));
                assert(token == tokens@[c]);
                assert(tokens@.take(c + 1) =~= tokens@.take(c).push(tokens@[c]));
                assert(is_op_token(tokens@[c].data) || is_atom_token(tokens@[c].data));
            }
            if pe {
                assert(tokens@.skip(c).drop_first() =~= tokens@.skip(c + 1));
                assert(token == tokens@[c]);
            }
        }
        let start = token.start.clone();
        let ghost s0 = *store;
        let mut expr: Option<Expression> = None;
        match &token.data {
            Token::BinaryOp(b) => {
                let x = if *b == Binary::Minus && !op_expr.after_expr() {
                    OpExpr::Unary(Unary::Negation)
                } else {
                    OpExpr::Binary(*b)
                };
                proof {
                    if flat {
                        lemma_fits(items0, tokens@, c, store.strs(), x);
                    }
                    if operand_chain_tokens(tokens@) {
                        assert(token_fits(tokens@, c));
                        assert(is_atom_token(tokens@[c].data) == (c % 2 == 0));
                    }
                }
                if op_expr.push(x).is_err() {
                    return Err(ParseError::UnexpectedToken(token));
                }
                proof {
                    if pe {
                        lemma_paren_step(tokens@, c, items0, x, store.strs());
                    }
                    if flat {
                        lemma_items_push(items0, tokens@.take(c), store.strs(), x, token);
                    }
                    lemma_items_refs_push(items0, x, store.sizes());
                }
            },
            Token::UnaryOp(u) => {
                proof {
                    if flat {
                        lemma_fits(items0, tokens@, c, store.strs(), OpExpr::Unary(*u));
                    }
                    if operand_chain_tokens(tokens@) {
                        assert(token_fits(tokens@, c));
                        assert(is_atom_token(tokens@[c].data) == (c % 2 == 0));
                    }
                }
                if op_expr.push(OpExpr::Unary(*u)).is_err() {
                    return Err(ParseError::UnexpectedToken(token));
                }
                proof {
                    if pe {
                        lemma_paren_step(tokens@, c, items0, OpExpr::Unary(*u), store.strs());
                    }
                    if flat {
                        lemma_items_push(items0, tokens@.take(c), store.strs(), OpExpr::Unary(*u), token);
                    }
                    lemma_items_refs_push(items0, OpExpr::Unary(*u), store.sizes());
                }
            },
            Token::AssignOp(a) => {
                proof {
                    if flat {
                        lemma_fits(items0, tokens@, c, store.strs(), OpExpr::Assign(*a));
                    }
                    if operand_chain_tokens(tokens@) {
                        assert(token_fits(tokens@, c));
                        assert(is_atom_token(tokens@[c].data) == (c % 2 == 0));
                    }
                }
                if op_expr.push(OpExpr::Assign(*a)).is_err() {
                    return Err(ParseError::UnexpectedToken(token));
                }
                proof {
                    if pe {
                        lemma_paren_step(tokens@, c, items0, OpExpr::Assign(*a), store.strs());
                    }
                    if flat {
                        lemma_items_push(items0, tokens@.take(c), store.strs(), OpExpr::Assign(*a), token);
                    }
                    lemma_items_refs_push(items0, OpExpr::Assign(*a), store.sizes());
                }
            },
            Token::OpenGroup(Grouper::Bracket) => {
                let (v, last) = match take_until(&mut cur, Grouper::Bracket) {
                    Ok(x) => x,
                    Err(e) => return Err(e),
                };
                match expression_list(v, in_lam, store) {
                    Ok(list) => expr = Some(Expression::ArrayCreation(list)),
                    Err(e) => {
                        proof { lemma_extends_trans(old(store), &s0, store); }
                        return Err(e.neof_or(ParseError::UnexpectedToken(last)));
                    },
                }
            },
            Token::OpenGroup(Grouper::Parentheses) => {
                let ghost after_open = cur.rest();
                let (v, last) = match take_until(&mut cur, Grouper::Parentheses) {
                    Ok(x) => x,
                    Err(e) => return Err(e),
                };
                proof {
                    if pe {
                        let k = v@.len() as int;
                        let stop = Stop::Close(Grouper::Parentheses);
                        assert(after_open == tokens@.skip(c + 1));
                        crate::ast::parsing::util::lemma_level_scan_bounds(
                            crate::lex::tokens::token_kinds(after_open), stop, 0, Seq::empty());
                        match crate::ast::parsing::util::level_scan(crate::lex::tokens::token_kinds(after_open), stop, 0, Seq::empty()) {
                            crate::ast::parsing::util::Level::Found(kk) => {
                                assert(v@ == after_open.take(kk));
                            },
                            _ => {},
                        }
                        assert(v@ =~= tokens@.subrange(c + 1, c + 1 + k));
                        lemma_paren_subrange(tokens@, c + 1, c + 1 + k);
                    }
                }
                match parse_expr(v, in_lam, store) {
                    Ok(e) => expr = Some(e),
                    Err(e) => {
                        proof { lemma_extends_trans(old(store), &s0, store); }
                        return Err(e.neof_or(ParseError::UnexpectedToken(last)));
                    },
                }
            },
            Token::Keyword(Keyword::Lam) => {
                let params = match parse_params(&mut cur, store) {
                    Ok(p) => p,
                    Err(e) => {
                        proof { lemma_extends_trans(old(store), &s0, store); }
                        return Err(e);
                    },
                };
                let ghost s1 = *store;
                proof { lemma_extends_trans(old(store), &s0, store); }
                let (body, _) = match take_until(&mut cur, Grouper::Brace) {
                    Ok(x) => x,
                    Err(e) => return Err(e),
                };
                let body = match lam_body(body, store) {
                    Ok(b) => b,
                    Err(e) => {
                        proof { lemma_extends_trans(old(store), &s1, store); }
                        return Err(e);
                    },
                };
                let ind = store.add_lam(Lambda::new(body, params));
                expr = Some(Expression::Lambda(ind));
            },
            Token::Hash | Token::MutableHash => {
                let mutable = matches!(token.data, Token::MutableHash);
                match expect_token(&mut cur, &Token::OpenGroup(Grouper::Brace)) {
                    Ok(_) => {},
                    Err(e) => return Err(e),
                }
                let (body, _) = match take_until(&mut cur, Grouper::Brace) {
                    Ok(x) => x,
                    Err(e) => return Err(e),
                };
                let hash = match parse_hash(body, store) {
                    Ok(h) => h,
                    Err(e) => {
                        proof { lemma_extends_trans(old(store), &s0, store); }
                        return Err(e);
                    },
                };
                expr = Some(if mutable { Expression::MutableHash(hash) } else { Expression::Hash(hash) });
            },
            Token::Keyword(Keyword::Nil) => expr = Some(Expression::Nil),
            Token::Keyword(Keyword::This) => {
                if in_lam {
                    expr = Some(Expression::This { start: token.start.clone(), end: token.end.clone() });
                } else {
                    return Err(ParseError::InvalidThisReference(start));
                }
            },
            Token::Bool(b) => expr = Some(Expression::Bool(*b)),
            Token::String(s) => {
                let ind = store.ins_str(s.clone());
                expr = Some(Expression::String(ind));
            },
            Token::Number(num) => expr = Some(Expression::Number(num.clone())),
            Token::Identifier(name) => {
                let ind = store.ins_str(name.clone());
                expr = Some(Expression::Identifier(Located { data: ind, start: token.start.clone(), end: token.end.clone() }));
            },
            _ => return Err(ParseError::UnexpectedToken(token)),
        }
        let ghost c_end: int = n - cur.rest().len();
        proof {
            lemma_extends_trans(old(store), &s0, store);
            lemma_items_refs_grow(op_expr.0@, s0.sizes(), store.sizes());
            if pe && expr is Some {
                lemma_paren_items_grow(tokens@.take(c), items0, s0.strs(), store.strs());
                if token.data == Token::OpenGroup(Grouper::Parentheses) {
                    lemma_paren_group_step(tokens@, c, items0, expr->0, store.strs());
                } else {
                    lemma_paren_step(tokens@, c, items0, OpExpr::Expr(expr->0, start), store.strs());
                }
            }
            if post && expr is Some {
                assert(c == 0);
                assert(atom_item(token, expr->0, store.strs()));
            }
            if flat && expr is Some {
                assert(token_fits(tokens@, c));
                lemma_items_grow(items0, tokens@.take(c), s0.strs(), store.strs());
                assert(op_expr.0@ == items0);
                assert(atom_item(token, expr->0, store.strs()));
            }
        }
        if let Some(e0) = expr {
            let mut expression = e0;
            let ghost e_first = expression;
            let ghost st_atom = store.strs();
            loop
                invariant
                    store.wf(),
                    store.extends(old(store)),
                    cur.rest().len() < r0,
                    r0 <= n,
                    n == tokens@.len(),
                    flat == flat_expression(tokens@),
                    flat ==> expression == e_first && store.strs() == st_atom && cur.rest() == tokens@.skip(c + 1),
                    0 <= c < n,
                    flat ==> is_atom_token(tokens@[c].data),
                    flat ==> forall|k: int| 0 <= k <= c ==> #[trigger] token_fits(tokens@, k),
                    pe == paren_expression(tokens@),
                    pe ==> expression == e_first && store.strs() == st_atom && cur.rest() == tokens@.skip(c_end),
                    pe ==> 0 < c_end <= n && ends_operand(tokens@[c_end - 1].data),
                    pe ==> paren_items(tokens@.take(c_end), items0.push(OpExpr::Expr(e_first, start)), st_atom),
                    pe ==> op_expr.0@ == items0,
                    pushed_ok(op_expr.0@),
                    expr_refs(expression, store.sizes()),
                    items_refs(op_expr.0@, store.sizes()),
                    post == (property_shape(tokens@) || index_shape(tokens@) || call_shape(tokens@)),
                    property_shape(tokens@) ==> gi == Seq::<OpExpr>::empty(),
                    call_shape(tokens@) ==> gi == Seq::<OpExpr>::empty(),
                    post ==> c == 0 && op_expr.0@.len() == 0 && atom_item(tokens@[0], e_first, st_atom),
                    post ==> st_atom.len() <= store.strs().len() && forall|i: int| 0 <= i < st_atom.len() ==> #[trigger] store.strs()[i] == st_atom[i],
                    post ==> (expression == e_first && cur.rest() == tokens@.skip(1))
                        || (cur.rest().len() == 0 && postfix_tree(tokens@, expression, store.strs(), gi)),
                ensures
                    store.wf(),
                    store.extends(old(store)),
                    cur.rest().len() < r0,
                    expr_refs(expression, store.sizes()),
                    items_refs(op_expr.0@, store.sizes()),
                    flat ==> expression == e_first && store.strs() == st_atom && cur.rest() == tokens@.skip(c + 1),
                    flat ==> (c + 1 >= n || is_op_token(tokens@[c + 1].data)),
                    pe ==> expression == e_first && store.strs() == st_atom && cur.rest() == tokens@.skip(c_end),
                    pushed_ok(op_expr.0@),
                    property_shape(tokens@) ==> gi == Seq::<OpExpr>::empty(),
                    call_shape(tokens@) ==> gi == Seq::<OpExpr>::empty(),
                    post ==> op_expr.0@.len() == 0 && cur.rest().len() == 0 && postfix_tree(tokens@, expression, store.strs(), gi),
                decreases cur.rest().len(),
            {
                let ghost rest0 = cur.rest();
                let next = cur.next_if_not_op();
                let t = match next {
                    Some(t) => t,
                    None => {
                        proof {
                            if flat && c + 1 < n {
                                assert(tokens@.skip(c + 1)[0] == tokens@[c + 1]);
                                lemma_op_view(tokens@[c + 1].data);
                            }
                            if post && expression == e_first && cur.rest() == tokens@.skip(1) {
                                assert(tokens@.skip(1)[0] == tokens@[1]);
                                lemma_op_view(tokens@[1].data);
                            }
                        }
                        break;
                    },
                };
                proof {
                    if flat {
                        assert(rest0.len() > 0);
                        assert(c + 1 < n);
                        assert(tokens@.skip(c + 1)[0] == tokens@[c + 1]);
                        lemma_op_view(tokens@[c + 1].data);
                        assert(is_op_token(tokens@[c + 1].data) || is_atom_token(tokens@[c + 1].data));
                        assert(!token_fits(tokens@, c + 1));
                        assert(token_fits(tokens@, c));
                    }
                }
                proof {
                    if pe {
                        assert(tokens@.skip(c_end)[0] == tokens@[c_end]);
                        assert(t == tokens@[c_end]);
                        lemma_op_view(tokens@[c_end].data);
                    }
                }
                let ghost s2 = *store;
                let ghost e_before = expression;
                match &t.data {
                    Token::OpenGroup(Grouper::Parentheses) => {
                        let ghost before_open = cur.rest();
                        proof {
                            if post {
                                assert(expression == e_first && rest0 == tokens@.skip(1));
                                assert(tokens@.skip(1)[0] == tokens@[1]);
                                assert(call_shape(tokens@));
                                assert(before_open =~= tokens@.skip(2));
                                let inner = call_inner(tokens@);
                                let k = n - 3;
                                assert forall|j: int| 0 <= j < k implies !((#[trigger] before_open[j]).data is OpenGroup)
                                    && !(before_open[j].data is CloseGroup) by {
                                    assert(before_open[j] == inner[j]);
                                }
                                assert(before_open[k] == tokens@[n - 1]);
                                lemma_scan_close(before_open, k, 0, Grouper::Parentheses);
                                assert(before_open.take(k) =~= inner);
                                assert(before_open.skip(k + 1).len() == 0);
                            }
                        }
                        let (v, last) = match take_until(&mut cur, Grouper::Parentheses) {
                            Ok(x) => x,
                            Err(e) => return Err(e),
                        };
                        let ghost s3 = *store;
                        match expression_list(v, in_lam, store) {
                            Ok(args) => {
                                proof {
                                    if post {
                                        lemma_extends_trans(&s2, &s3, store);
                                        lemma_atom_grow(tokens@[0], e_first, st_atom, store.strs());
                                    }
                                }
                                expression = Expression::FunctionCall { function: Box::new(expression), args };
                            },
                            Err(e) => {
                                proof { lemma_extends_trans(old(store), &s2, store); }
                                return Err(e.neof_or(ParseError::UnexpectedToken(last)));
                            },
                        }
                    },
                    Token::OpenGroup(Grouper::Bracket) => {
                        let ghost before_open = cur.rest();
                        proof {
                            if post {
                                assert(expression == e_first && rest0 == tokens@.skip(1));
                                assert(tokens@.skip(1)[0] == tokens@[1]);
                                assert(index_shape(tokens@));
                                assert(before_open =~= tokens@.skip(2));
                                let inner = index_inner(tokens@);
                                let k = n - 3;
                                assert forall|j: int| 0 <= j < k implies is_op_token(#[trigger] before_open[j].data) || is_atom_token(before_open[j].data) by {
                                    assert(before_open[j] == inner[j]);
                                }
                                assert(before_open[k] == tokens@[n - 1]);
                                lemma_scan_flat_close(before_open, k, 0);
                                assert(before_open.take(k) =~= inner);
                                assert(before_open.skip(k + 1).len() == 0);
                            }
                        }
                        let (v, last) = match take_until(&mut cur, Grouper::Bracket) {
                            Ok(x) => x,
                            Err(e) => return Err(e),
                        };
                        let ghost s3 = *store;
                        match parse_expr(v, in_lam, store) {
                            Ok(index) => {
                                proof {
                                    if post {
                                        let w = choose|items: Seq<OpExpr>| items_of(items, v@, store.strs())
                                            && Ok::<Expression, ParseError>(index) == resolve_spec(items);
                                        gi = w;
                                        lemma_extends_trans(&s2, &s3, store);
                                        lemma_atom_grow(tokens@[0], e_first, st_atom, store.strs());
                                    }
                                }
                                expression = Expression::IndexAccess { item: Box::new(expression), index: Box::new(index) };
                            },
                            Err(e) => {
                                proof {
                                    lemma_extends_trans(old(store), &s2, store);
                                    if post {
                                        let w = choose|items: Seq<OpExpr>| items_of(items, v@, store.strs())
                                            && Err::<Expression, ParseError>(e) == resolve_spec(items);
                                        assert(items_of(w, index_inner(tokens@), store.strs()));
                                        assert(!(resolve_spec(w) is Ok));
                                    }
                                }
                                return Err(e.neof_or(ParseError::UnexpectedToken(last)));
                            },
                        }
                    },
                    Token::Period => {
                        proof {
                            if post {
                                assert(tokens@.skip(1)[0] == tokens@[1]);
                                assert(property_shape(tokens@));
                                assert(cur.rest() =~= tokens@.skip(2));
                                assert(tokens@.skip(2)[0] == tokens@[2]);
                            }
                        }
                        let p = match cur.next() {
                            Some(x) => x,
                            None => return Err(ParseError::UnexpectedEOF),
                        };
                        let property = match &p.data {
                            Token::Keyword(k) => store.ins_str(k.str()),
                            Token::Identifier(s) => store.ins_str(s.clone()),
                            _ => return Err(ParseError::UnexpectedToken(p)),
                        };
                        proof {
                            if post {
                                assert(cur.rest().len() == 0);
                                lemma_atom_grow(tokens@[0], e_first, st_atom, store.strs());
                            }
                        }
                        expression = Expression::PropertyAccess { item: Box::new(expression), property };
                    },
                    _ => return Err(ParseError::UnexpectedToken(t)),
                }
                proof {
                    lemma_extends_trans(old(store), &s2, store);
                    lemma_items_refs_grow(op_expr.0@, s2.sizes(), store.sizes());
                    lemma_expr_refs_grow(e_before, s2.sizes(), store.sizes());
                }
            }
            proof {
                if flat {
                    lemma_fits(op_expr.0@, tokens@, c, store.strs(), OpExpr::Expr(expression, start));
                }
                lemma_items_refs_push(op_expr.0@, OpExpr::Expr(expression, start), store.sizes());
            }
            if op_expr.push(OpExpr::Expr(expression, start)).is_err() {
                return Err(ParseError::UnexpectedToken(token));
            }
            proof {
                if flat {
                    lemma_items_push(items0, tokens@.take(c), store.strs(), OpExpr::Expr(expression, start), token);
                }
            }
        }
    }
    let items = op_expr.0;
    proof {
        if post {
            match items@[0] {
                OpExpr::Expr(e, l) => {
                    assert(items@ =~= seq![OpExpr::Expr(e, l)]);
                    lemma_resolve_single(e, l);
                },
                _ => {},
            }
        }
        if pe {
            assert(tokens@.take(n as int) =~= tokens@);
        }
        if n == 0 {
            super::opexpr::lemma_resolve_empty();
            assert(items@ =~= Seq::<OpExpr>::empty());
        }
        if flat {
            assert(tokens@.take(n as int) =~= tokens@);
            assert(items_of(items@, tokens@, store.strs()));
            assert(tokens_fit(tokens@));
            if operand_chain_tokens(tokens@) {
                lemma_chain_items(items@, tokens@, store.strs());
                super::opexpr::law_operand_chain_resolves(items@);
            }
        }

        lemma_resolve_refs(items@, store.sizes());
    }
    resolve(items)
}

} // verus!
