use grib::ast::analysis::ref_check;
use grib::ast::analysis::WalkErrorType;
use grib::ast::node::{
    AutoPropValue, BreakType, Declaration, Expression, ImportKind, LambdaBody, Module, NativePackage, Node, Program,
};
use grib::ast::parsing::constructs::{parse_params, parse_proc};
use grib::ast::parsing::data_store::Store;
use grib::ast::parsing::util::Tokens;
use grib::ast::parsing::expression::{parse_expr, parse_prop};
use grib::ast::parsing::{ast, ParseError};
use grib::lex::lex;
use grib::lex::tokens::{Grouper, Keyword, NumberLit, Token};
use grib::lex::LexErrorData;
use grib::location::Location;
use grib::operators::{op_precedence, Assignment, Binary, Precedence, Unary};

fn parse(src: &str) -> Program {
    let tokens = lex(src).expect("lexes");
    ast(tokens).expect("parses")
}

fn check(src: &str) -> Result<Program, WalkErrorType> {
    let mut program = parse(src);
    match ref_check(&mut program) {
        Ok(()) => Ok(program),
        Err(e) => Err(e.kind),
    }
}

fn string_index(program: &Program, s: &str) -> usize {
    program.strings.iter().position(|t| t == s).expect("interned")
}

#[test]
fn lex_declaration_tokens() {
    let tokens = lex("decl a = 1;").unwrap();
    assert_eq!(tokens.len(), 5);
    assert!(matches!(tokens[0].data, Token::Keyword(Keyword::Decl)));
    assert!(matches!(&tokens[1].data, Token::Identifier(s) if s == "a"));
    assert!(matches!(tokens[2].data, Token::AssignOp(Assignment::Assign)));
    assert!(matches!(&tokens[3].data, Token::Number(NumberLit::Decimal(s)) if s == "1"));
    assert!(matches!(tokens[4].data, Token::Semicolon));
}

#[test]
fn lex_string_escapes() {
    let tokens = lex("\"say \\\"hi\\\"\\n\"").unwrap();
    assert_eq!(tokens.len(), 1);
    assert!(matches!(&tokens[0].data, Token::String(s) if s == "say \"hi\"\n"));
}

#[test]
fn lex_skips_comments() {
    let tokens = lex("@ a line comment\n55 @{ a block\ncomment }@ 0.4").unwrap();
    assert_eq!(tokens.len(), 2);
    assert!(matches!(&tokens[0].data, Token::Number(NumberLit::Decimal(s)) if s == "55"));
    assert!(matches!(&tokens[1].data, Token::Number(NumberLit::Decimal(s)) if s == "0.4"));
}

#[test]
fn lex_special_numbers() {
    let tokens = lex("NaN Infinity 3.923").unwrap();
    assert_eq!(tokens.len(), 3);
    assert!(matches!(tokens[0].data, Token::Number(NumberLit::NaN)));
    assert!(matches!(tokens[1].data, Token::Number(NumberLit::Infinity)));
    assert!(matches!(&tokens[2].data, Token::Number(NumberLit::Decimal(s)) if s == "3.923"));
}

#[test]
fn lex_keywords_and_groups() {
    let tokens = lex("proc lam this { ( [ ] ) }").unwrap();
    assert_eq!(tokens.len(), 9);
    assert!(matches!(tokens[0].data, Token::Keyword(Keyword::Proc)));
    assert!(matches!(tokens[1].data, Token::Keyword(Keyword::Lam)));
    assert!(matches!(tokens[2].data, Token::Keyword(Keyword::This)));
    assert!(matches!(tokens[3].data, Token::OpenGroup(Grouper::Brace)));
    assert!(matches!(tokens[4].data, Token::OpenGroup(Grouper::Parentheses)));
    assert!(matches!(tokens[5].data, Token::OpenGroup(Grouper::Bracket)));
    assert!(matches!(tokens[6].data, Token::CloseGroup(Grouper::Bracket)));
    assert!(matches!(tokens[8].data, Token::CloseGroup(Grouper::Brace)));
}

#[test]
fn lex_records_locations() {
    let tokens = lex("a\n  bc").unwrap();
    assert_eq!(tokens.len(), 2);
    assert_eq!(tokens[0].start.get_row(), 1);
    assert_eq!(tokens[0].start.get_col(), 0);
    assert_eq!(tokens[1].start.get_row(), 2);
    assert_eq!(tokens[1].start.get_col(), 2);
    assert_eq!(tokens[1].end.get_col(), 4);
}

#[test]
fn lex_rejects_unknown_character() {
    let err = lex("decl a = `;").unwrap_err();
    assert!(matches!(err.data, LexErrorData::UnexpectedChar('`')));
    assert_eq!(err.loc.get_col(), 10);
}

#[test]
fn lex_unterminated_string() {
    let err = lex("\"open").unwrap_err();
    assert!(matches!(err.data, LexErrorData::UnexpectedEOF));
}

#[test]
fn location_feed_counts_rows_and_columns() {
    let mut loc = Location::new();
    loc.feed('a');
    loc.feed('b');
    assert_eq!((loc.get_row(), loc.get_col()), (1, 2));
    loc.feed('\n');
    assert_eq!((loc.get_row(), loc.get_col()), (2, 0));
}

#[test]
fn keyword_lookup() {
    assert_eq!(Keyword::from_str("while"), Some(Keyword::While));
    assert_eq!(Keyword::from_str("whilst"), None);
    assert_eq!(Keyword::Im.str(), "im");
}

#[test]
fn operator_precedence_follows_the_guide() {
    assert_eq!(op_precedence(&Binary::Mult), Precedence::MultDiv);
    assert_eq!(op_precedence(&Binary::Plus), Precedence::AddSub);
    assert_eq!(op_precedence(&Binary::LogicalAnd), Precedence::LogAnd);
    assert_eq!(op_precedence(&Binary::LogicalOr), Precedence::LogOr);
    assert!(Binary::LogicalAnd.is_lazy());
    assert!(!Binary::Plus.is_lazy());
}

#[test]
fn parse_multiple_declarators() {
    let program = parse("decl a = 1, b = 2;");
    assert_eq!(program.body.len(), 1);
    match &program.body[0] {
        Node::Declaration(Declaration { declarations, mutable }) => {
            assert!(*mutable);
            assert_eq!(declarations.len(), 2);
            assert_eq!(declarations[0].identifier.data, string_index(&program, "a"));
            assert_eq!(declarations[1].identifier.data, string_index(&program, "b"));
        }
        other => panic!("not a declaration: {:?}", other),
    }
}

#[test]
fn parse_multiplication_binds_tighter() {
    let program = parse("im a = 1 + 2 * 3;");
    match &program.body[0] {
        Node::Declaration(d) => match &d.declarations[0].value {
            Expression::Binary { op: Binary::Plus, left, right } => {
                assert!(matches!(**left, Expression::Number(NumberLit::Decimal(ref s)) if s == "1"));
                assert!(matches!(**right, Expression::Binary { op: Binary::Mult, .. }));
            }
            other => panic!("unexpected {:?}", other),
        },
        other => panic!("unexpected {:?}", other),
    }
}

#[test]
fn parse_requires_semicolon() {
    let tokens = lex("1 + 2").unwrap();
    assert!(ast(tokens).is_err());
}

#[test]
fn parse_procedure() {
    let program = parse("proc add |firstNum secondNum| { return firstNum + secondNum; }");
    assert_eq!(program.functions.len(), 1);
    let f = &program.functions[0];
    assert_eq!(f.identifier.data, string_index(&program, "add"));
    assert_eq!(f.param_list.params.len(), 2);
    assert!(f.param_list.vardic.is_none());
    assert_eq!(f.body.len(), 1);
    assert!(matches!(f.body[0], Node::ControlFlow(_)));
}

#[test]
fn parse_native_import_list() {
    let program = parse("import |cos sin| from \"math\";");
    assert_eq!(program.imports.len(), 1);
    assert_eq!(program.imports[0].module, Module::Native(NativePackage::Math));
    match &program.imports[0].kind {
        ImportKind::List(list) => {
            assert_eq!(list.len(), 2);
            assert_eq!(list[0].0, string_index(&program, "cos"));
            assert_eq!(list[1].0, string_index(&program, "sin"));
        }
        other => panic!("unexpected {:?}", other),
    }
}

#[test]
fn parse_custom_import_registers_module() {
    let tokens = lex("import |getMax| from \"./module.grib\";").unwrap();
    let program = ast(tokens).unwrap();
    assert_eq!(program.modules.len(), 1);
    assert_eq!(program.modules[0].path, "./module.grib");
    assert!(!program.modules[0].loaded);
    assert_eq!(program.imports[0].module, Module::Custom(0));
}

#[test]
fn parse_lambdas() {
    let program = parse("decl fig2 = lam |p1| { p1 * 3 }; im fig3 = lam || { 23 };");
    assert_eq!(program.lambdas.len(), 2);
    assert_eq!(program.lambdas[0].param_list.params.len(), 1);
    assert!(matches!(program.lambdas[0].body, LambdaBody::ImplicitReturn(_)));
    assert_eq!(program.lambdas[1].param_list.params.len(), 0);
}

#[test]
fn parse_rejects_this_outside_lambda() {
    let tokens = lex("im a = this;").unwrap();
    assert!(matches!(ast(tokens), Err(ParseError::InvalidThisReference(_))));
}

#[test]
fn parse_rejects_duplicate_parameter() {
    let tokens = lex("proc f |a a| { }").unwrap();
    assert!(matches!(ast(tokens), Err(ParseError::DuplicateParam(_))));
}

#[test]
fn parse_hash_with_auto_property() {
    let program = parse("decl age = 13; im person = # { age { get age, set age } };");
    assert_eq!(program.body.len(), 2);
    assert!(check("decl age = 13; im person = # { age { get age, set age } };").is_ok());
}

#[test]
fn check_accepts_well_scoped_program() {
    let src = "decl count = 2; im unchangeable = 23; count = count + unchangeable;";
    assert!(check(src).is_ok());
}

#[test]
fn check_rejects_assignment_to_immutable() {
    assert_eq!(check("im a = 1; a = 2;").err(), Some(WalkErrorType::ImmutableModification(0)));
}

#[test]
fn check_rejects_unknown_name() {
    let program = parse("decl a = 1; a = b;");
    let b = string_index(&program, "b");
    assert_eq!(check("decl a = 1; a = b;").err(), Some(WalkErrorType::IdentifierNotFound(b)));
}

#[test]
fn check_rejects_redefinition_in_one_scope() {
    assert_eq!(check("decl a = 1; decl a = 2;").err(), Some(WalkErrorType::InvalidRedefinition(0)));
}

#[test]
fn check_allows_shadowing_in_nested_block() {
    assert!(check("decl a = 1; { decl a = 2; a = 3; }").is_ok());
}

#[test]
fn check_nested_names_do_not_leak() {
    let program = parse("{ decl b = 1; } b = 2;");
    let b = string_index(&program, "b");
    assert_eq!(check("{ decl b = 1; } b = 2;").err(), Some(WalkErrorType::IdentifierNotFound(b)));
}

#[test]
fn check_functions_do_not_capture() {
    let src = "decl x = 1; proc f || { return x; }";
    let program = parse(src);
    let x = string_index(&program, "x");
    assert_eq!(check(src).err(), Some(WalkErrorType::IdentifierNotFound(x)));
}

#[test]
fn check_functions_call_each_other() {
    let src = "proc add |a b| { congratulate(a); return a + b; } proc congratulate |v| { add(v, 1); }";
    assert!(check(src).is_ok());
}

#[test]
fn check_duplicate_procedures() {
    let src = "proc a || { } proc a || { }";
    assert_eq!(check(src).err(), Some(WalkErrorType::InvalidRedefinition(0)));
}

#[test]
fn check_lambda_captures_outer_variable() {
    let src = "decl outer = 2; im fig = lam |p| { return p * outer; };";
    let program = check(src).unwrap();
    let outer = string_index(&program, "outer");
    assert_eq!(program.lambdas[0].captured, vec![outer]);
    assert!(!program.lambdas[0].param_list.params[0].captured);
    match &program.body[0] {
        Node::Declaration(d) => assert!(d.declarations[0].captured),
        other => panic!("unexpected {:?}", other),
    }
    match &program.body[1] {
        Node::Declaration(d) => assert!(!d.declarations[0].captured),
        other => panic!("unexpected {:?}", other),
    }
}

#[test]
fn check_lambda_parameter_captured_by_inner_lambda() {
    let src = "im f = lam |p| { return lam || { p }; };";
    let program = check(src).unwrap();
    assert_eq!(program.lambdas.len(), 2);
    let p = string_index(&program, "p");
    let outer = program.lambdas.iter().find(|l| l.param_list.params.len() == 1).unwrap();
    let inner = program.lambdas.iter().find(|l| l.param_list.params.is_empty()).unwrap();
    assert!(outer.param_list.params[0].captured);
    assert_eq!(inner.captured, vec![p]);
}

#[test]
fn check_this_inside_lambda() {
    assert!(check("im person = # { age: 13, print: lam || { this.age } };").is_ok());
}

#[test]
fn check_break_outside_loop() {
    assert_eq!(check("break;").err(), Some(WalkErrorType::InvalidBreak));
    assert_eq!(check("continue;").err(), Some(WalkErrorType::InvalidContinue));
    assert_eq!(check("return 1;").err(), Some(WalkErrorType::InvalidReturn));
}

#[test]
fn check_records_jump_allocations() {
    let src = "proc f || { decl a = 1; while true { decl b = 2; break; } return a; }";
    let program = check(src).unwrap();
    let body = &program.functions[0].body;
    match &body[1] {
        Node::While(pair) => match &pair.block[1] {
            Node::ControlFlow(f) => {
                assert!(matches!(f.kind, BreakType::Break));
                assert_eq!(f.allocations, 1);
            }
            other => panic!("unexpected {:?}", other),
        },
        other => panic!("unexpected {:?}", other),
    }
    match &body[2] {
        Node::ControlFlow(f) => assert_eq!(f.allocations, 1),
        other => panic!("unexpected {:?}", other),
    }
}

#[test]
fn check_for_loop_variable_scoped_to_loop() {
    assert!(check("for decl i = 0; i < 4; i = i + 1 { continue; }").is_ok());
    let src = "for decl i = 0; i < 4; i = i + 1 { } i = 2;";
    let program = parse(src);
    let i = string_index(&program, "i");
    assert_eq!(check(src).err(), Some(WalkErrorType::IdentifierNotFound(i)));
}

#[test]
fn check_imports_can_be_shadowed() {
    assert!(check("import |cos sin| from \"math\"; decl cos = 2; cos = 3;").is_ok());
    let src = "import |cos sin| from \"math\"; sin = 3;";
    let program = parse(src);
    let sin = string_index(&program, "sin");
    assert_eq!(check(src).err(), Some(WalkErrorType::ImmutableModification(sin)));
}

#[test]
fn check_unknown_native_function() {
    let src = "import |frobnicate| from \"math\";";
    let program = parse(src);
    let f = string_index(&program, "frobnicate");
    assert_eq!(check(src).err(), Some(WalkErrorType::IdentifierNotFound(f)));
}

#[test]
fn check_wildcard_native_import() {
    assert!(check("import * from \"math\"; im r = sqrt(4);").is_ok());
    assert!(check("import m from \"syncio\"; im t = m.readText(\"x\");").is_ok());
}

#[test]
fn check_setter_needs_mutable_variable() {
    let src = "im age = 13; im person = # { age { get age, set age } };";
    let program = parse(src);
    let age = string_index(&program, "age");
    assert_eq!(check(src).err(), Some(WalkErrorType::ImmutableModification(age)));
}

#[test]
fn check_getter_and_setter_lambdas() {
    let src = "decl x = 1; im v = $ { len { get || { x }, set |n| { x = n; } } };";
    let program = check(src).unwrap();
    let x = string_index(&program, "x");
    assert_eq!(program.getters.len(), 1);
    assert_eq!(program.setters.len(), 1);
    assert_eq!(program.getters[0].capture, vec![x]);
    assert_eq!(program.setters[0].capture, vec![x]);
    assert!(!program.setters[0].param_captured);
}

#[test]
fn parse_hash_repeated_key_keeps_first_place() {
    let program = parse("im h = # { a: 1, b: 2, a: 3 };");
    match &program.body[0] {
        Node::Declaration(d) => match &d.declarations[0].value {
            Expression::Hash(entries) => {
                assert_eq!(entries.len(), 2);
                assert_eq!(entries[0].0, string_index(&program, "a"));
                assert_eq!(entries[1].0, string_index(&program, "b"));
                match &entries[0].1 {
                    grib::ast::node::ObjectValue::Expression(Expression::Number(NumberLit::Decimal(s))) => {
                        assert_eq!(s, "3")
                    }
                    other => panic!("unexpected {:?}", other),
                }
            }
            other => panic!("unexpected {:?}", other),
        },
        other => panic!("unexpected {:?}", other),
    }
}

#[test]
fn parse_jumps_need_semicolon() {
    let tokens = lex("while true { break }").unwrap();
    assert!(matches!(ast(tokens), Err(ParseError::UnexpectedEOF)));
    let program = parse("while true { continue; }");
    match &program.body[0] {
        Node::While(pair) => match &pair.block[0] {
            Node::ControlFlow(f) => assert!(matches!(f.kind, BreakType::Continue)),
            other => panic!("unexpected {:?}", other),
        },
        other => panic!("unexpected {:?}", other),
    }
}

#[test]
fn parse_operators_in_a_row_are_refused() {
    let tokens = lex("im a = 1 * * 2;").unwrap();
    assert!(ast(tokens).is_err());
    let tokens = lex("im a = 1 2;").unwrap();
    assert!(ast(tokens).is_err());
}

#[test]
fn module_object_offers_public_procedures() {
    let program = ast(lex("import |getMax| from \"./module.grib\";").unwrap()).unwrap();
    let (mut store, body) = program.into_store();
    let module_src = lex("proc hidden || { } public proc getMax |a b| { return a; }").unwrap();
    assert!(grib::ast::parsing::constructs::parse_module(module_src, 0, &mut store).is_ok());
    let program = Program::from_store(store, body);
    let custom = Module::Custom(0);
    assert!(matches!(
        custom.get_callable("getMax", &program),
        Some(grib::runtime::values::Callable::Procedure { module: Some(0), index: 1 })
    ));
    assert!(custom.get_callable("hidden", &program).is_none());
    assert!(custom.get_callable("missing", &program).is_none());
    assert!(Module::Custom(5).get_callable("getMax", &program).is_none());
    let math = Module::Native(NativePackage::Math);
    assert!(matches!(
        math.get_callable("sin", &program),
        Some(grib::runtime::values::Callable::Native(f)) if f.package == NativePackage::Math
    ));
    assert!(math.get_callable("getMax", &program).is_none());
}

#[test]
fn parse_naked_expression_statement() {
    let program = parse("1 + 2;");
    assert_eq!(program.body.len(), 1);
    assert!(matches!(program.body[0], Node::Expression(Expression::Binary { .. })));
    assert!(matches!(ast(lex("1 + 2").unwrap()), Err(ParseError::UnexpectedEOF)));
}

#[test]
fn check_accepts_program_with_imports_procedures_and_loops() {
    let src = "import |sqrt| from \"math\"; proc f |a b| { decl c = a; while c < b { c = c + 1; if c == 3 { break; } else { continue; } } return sqrt(c); } decl x = f(1, 5); { im x = 2; } for decl i = 0; i < 3; i = i + 1 { x = x + i; }";
    assert!(check(src).is_ok());
}

#[test]
fn parse_parentheses_group_an_operand() {
    let program = parse("im x = (1 + 2) * 3;");
    match &program.body[0] {
        Node::Declaration(d) => match &d.declarations[0].value {
            Expression::Binary { op: Binary::Mult, left, right } => {
                assert!(matches!(**left, Expression::Binary { op: Binary::Plus, .. }));
                assert!(matches!(**right, Expression::Number(_)));
            }
            other => panic!("unexpected {:?}", other),
        },
        other => panic!("unexpected {:?}", other),
    }
}

#[test]
fn parse_declaration_forms() {
    let program = parse("decl x; im y = 2, z;");
    match &program.body[0] {
        Node::Declaration(d) => {
            assert!(d.mutable);
            assert_eq!(d.declarations.len(), 1);
            assert!(matches!(d.declarations[0].value, Expression::Nil));
            assert_eq!(d.declarations[0].identifier.data, string_index(&program, "x"));
        }
        other => panic!("unexpected {:?}", other),
    }
    match &program.body[1] {
        Node::Declaration(d) => {
            assert!(!d.mutable);
            assert_eq!(d.declarations.len(), 2);
            assert!(matches!(d.declarations[0].value, Expression::Number(_)));
            assert!(matches!(d.declarations[1].value, Expression::Nil));
        }
        other => panic!("unexpected {:?}", other),
    }
    assert!(matches!(ast(lex("decl 3 = 1;").unwrap()), Err(ParseError::UnexpectedToken(_))));
    assert!(matches!(ast(lex("decl x 1;").unwrap()), Err(ParseError::UnexpectedToken(_))));
}

#[test]
fn parse_leading_minus_is_negation() {
    let program = parse("im a = -2; im b = 3 - -2;");
    match &program.body[0] {
        Node::Declaration(d) => match &d.declarations[0].value {
            Expression::Unary { op: Unary::Negation, expr } => {
                assert!(matches!(**expr, Expression::Number(NumberLit::Decimal(ref s)) if s == "2"));
            }
            other => panic!("unexpected {:?}", other),
        },
        other => panic!("unexpected {:?}", other),
    }
    match &program.body[1] {
        Node::Declaration(d) => match &d.declarations[0].value {
            Expression::Binary { op: Binary::Minus, left, right } => {
                assert!(matches!(**left, Expression::Number(NumberLit::Decimal(ref s)) if s == "3"));
                assert!(matches!(**right, Expression::Unary { op: Unary::Negation, .. }));
            }
            other => panic!("unexpected {:?}", other),
        },
        other => panic!("unexpected {:?}", other),
    }
}

#[test]
fn next_if_reads_only_matching_token() {
    let mut tokens = Tokens::new(lex("a 1").unwrap());
    let is_number = |t: &grib::location::Located<Token>| matches!(t.data, Token::Number(_));
    assert!(grib::ast::parsing::util::next_if(&mut tokens, is_number).is_none());
    let first = grib::ast::parsing::util::next_if(&mut tokens, |_: &grib::location::Located<Token>| true);
    assert!(matches!(first.map(|t| t.data), Some(Token::Identifier(ref s)) if s == "a"));
    assert!(grib::ast::parsing::util::next_if(&mut tokens, is_number).is_some());
    assert!(tokens.is_empty());
}

#[test]
fn check_reports_first_error_with_its_place() {
    let src = "decl a = 1;\na = (1 + zz) * yy;";
    let mut program = parse(src);
    let zz = string_index(&program, "zz");
    let err = ref_check(&mut program).unwrap_err();
    assert_eq!(err.kind, WalkErrorType::IdentifierNotFound(zz));
    assert_eq!(err.start.get_row(), 2);
    assert_eq!(err.start.get_col(), 9);
    assert_eq!(err.end.get_col(), 11);
}

#[test]
fn check_reports_misplaced_jumps_at_their_place() {
    let mut program = parse("decl a = 1;\n  break;");
    let err = ref_check(&mut program).unwrap_err();
    assert_eq!(err.kind, WalkErrorType::InvalidBreak);
    assert_eq!(err.start.get_row(), 2);
    assert_eq!(err.start.get_col(), 2);
    assert_eq!(check("continue;").err(), Some(WalkErrorType::InvalidContinue));
    assert_eq!(check("return 1;").err(), Some(WalkErrorType::InvalidReturn));
}

#[test]
fn check_reports_redefinition_at_the_second_name() {
    let mut program = parse("decl a = 1,\n  a = 2;");
    let err = ref_check(&mut program).unwrap_err();
    assert_eq!(err.kind, WalkErrorType::InvalidRedefinition(0));
    assert_eq!(err.start.get_row(), 2);
    assert_eq!(err.start.get_col(), 2);
}

#[test]
fn parse_expr_reports_first_misplaced_token() {
    let mut store = Store::new();
    match parse_expr(lex("1 2 3").unwrap(), false, &mut store) {
        Err(ParseError::UnexpectedToken(t)) => {
            assert!(matches!(t.data, Token::Number(NumberLit::Decimal(ref s)) if s == "2"));
        }
        other => panic!("unexpected {:?}", other),
    }
    match parse_expr(lex("1 * * 2").unwrap(), false, &mut store) {
        Err(ParseError::UnexpectedToken(t)) => assert_eq!(t.start.get_col(), 4),
        other => panic!("unexpected {:?}", other),
    }
    assert!(matches!(parse_expr(lex("1 +").unwrap(), false, &mut store), Err(ParseError::UnexpectedEOF)));
}

#[test]
fn parse_params_reads_names_and_spread() {
    let mut store = Store::new();
    let mut tokens = Tokens::new(lex("|a b ...rest| {").unwrap());
    let p = parse_params(&mut tokens, &mut store).expect("parses");
    let names: Vec<&str> = p.params.iter().map(|q| store.strings[q.name].as_str()).collect();
    assert_eq!(names, vec!["a", "b"]);
    assert_eq!(store.strings[p.vardic.as_ref().unwrap().name].as_str(), "rest");
    let mut tokens = Tokens::new(lex("|| {").unwrap());
    let p = parse_params(&mut tokens, &mut store).expect("parses");
    assert!(p.params.is_empty() && p.vardic.is_none());
    let mut tokens = Tokens::new(lex("|a ...b c| {").unwrap());
    assert!(parse_params(&mut tokens, &mut store).is_err());
}

#[test]
fn parse_run_of_jumps() {
    let program = parse("break; continue; break;");
    assert_eq!(program.body.len(), 3);
    assert!(matches!(&program.body[0], Node::ControlFlow(f) if matches!(f.kind, BreakType::Break)));
    assert!(matches!(&program.body[1], Node::ControlFlow(f) if matches!(f.kind, BreakType::Continue)));
    assert!(matches!(&program.body[2], Node::ControlFlow(f) if matches!(f.kind, BreakType::Break)));
}

#[test]
fn parse_prop_named_parts() {
    let mut store = Store::new();
    let p = parse_prop(lex("set b, get a").unwrap(), &mut store).expect("parses");
    match (&p.get, &p.set) {
        (Some(AutoPropValue::String(g)), Some(AutoPropValue::String(s))) => {
            assert_eq!(store.strings[g.data], "a");
            assert_eq!(store.strings[s.data], "b");
            assert_eq!(g.start.get_col(), 11);
        }
        other => panic!("unexpected {:?}", other),
    }
    let p = parse_prop(lex("get a").unwrap(), &mut store).expect("parses");
    assert!(p.set.is_none() && p.get.is_some());
    assert!(parse_prop(lex("get a, get b").unwrap(), &mut store).is_err());
}

#[test]
fn parse_expr_postfix_forms() {
    let mut store = Store::new();
    match parse_expr(lex("a.b").unwrap(), false, &mut store).expect("parses") {
        Expression::PropertyAccess { item, property } => {
            assert!(matches!(*item, Expression::Identifier(ref l) if store.strings[l.data] == "a"));
            assert_eq!(store.strings[property], "b");
        }
        other => panic!("unexpected {:?}", other),
    }
    match parse_expr(lex("a[1 + i]").unwrap(), false, &mut store).expect("parses") {
        Expression::IndexAccess { item, index } => {
            assert!(matches!(*item, Expression::Identifier(ref l) if store.strings[l.data] == "a"));
            assert!(matches!(*index, Expression::Binary { op: Binary::Plus, .. }));
        }
        other => panic!("unexpected {:?}", other),
    }
}

#[test]
fn parse_expr_operand_chain_always_parses() {
    let mut store = Store::new();
    match parse_expr(lex("a * 2 - b / 3 == c || d").unwrap(), false, &mut store).expect("parses") {
        Expression::Binary { op: Binary::LogicalOr, left, .. } => {
            assert!(matches!(*left, Expression::Binary { op: Binary::Equal, .. }));
        }
        other => panic!("unexpected {:?}", other),
    }
}

#[test]
fn parse_proc_with_jump_body() {
    let mut store = Store::new();
    let mut tokens = Tokens::new(lex("f |a| { break; continue; } rest").unwrap());
    let p = parse_proc(&mut tokens, false, &mut store).expect("parses");
    assert_eq!(store.strings[p.identifier.data], "f");
    assert_eq!(p.body.len(), 2);
    assert!(!p.public);
    let rest = tokens.next().unwrap();
    assert!(matches!(rest.data, Token::Identifier(ref s) if s == "rest"));
}

#[test]
fn parse_if_without_else_and_while() {
    let program = parse("if x { break; } while y { continue; } decl z = 1;");
    match &program.body[0] {
        Node::LogicChain { if_block, elseifs, else_block } => {
            assert!(matches!(if_block.condition, Expression::Identifier(_)));
            assert_eq!(if_block.block.len(), 1);
            assert!(elseifs.is_empty() && else_block.is_none());
        }
        other => panic!("unexpected {:?}", other),
    }
    assert!(matches!(&program.body[1], Node::While(p) if p.block.len() == 1));
    assert!(matches!(&program.body[2], Node::Declaration(d) if d.mutable && d.declarations.len() == 1));
}

#[test]
fn parse_expr_call_arguments_in_order() {
    let mut store = Store::new();
    match parse_expr(lex("f(a, 1 + 2, b)").unwrap(), false, &mut store).expect("parses") {
        Expression::FunctionCall { function, args } => {
            assert!(matches!(*function, Expression::Identifier(ref l) if store.strings[l.data] == "f"));
            assert_eq!(args.len(), 3);
            assert!(matches!(args[0], Expression::Identifier(ref l) if store.strings[l.data] == "a"));
            assert!(matches!(args[1], Expression::Binary { op: Binary::Plus, .. }));
            assert!(matches!(args[2], Expression::Identifier(ref l) if store.strings[l.data] == "b"));
        }
        other => panic!("unexpected {:?}", other),
    }
    match parse_expr(lex("f()").unwrap(), false, &mut store).expect("parses") {
        Expression::FunctionCall { args, .. } => assert!(args.is_empty()),
        other => panic!("unexpected {:?}", other),
    }
}

#[test]
fn parse_every_declarator_value() {
    let program = parse("decl a = 1, b = 2, c;");
    match &program.body[0] {
        Node::Declaration(d) => {
            assert_eq!(d.declarations.len(), 3);
            assert!(matches!(d.declarations[1].value, Expression::Number(NumberLit::Decimal(ref s)) if s == "2"));
            assert!(matches!(d.declarations[2].value, Expression::Nil));
            assert_eq!(program.strings[d.declarations[2].identifier.data], "c");
        }
        other => panic!("unexpected {:?}", other),
    }
}

#[test]
fn parse_statements_in_order() {
    let program = parse("a = 1; { b; } while c { } d;");
    assert_eq!(program.body.len(), 4);
    assert!(matches!(program.body[0], Node::Expression(_)));
    assert!(matches!(program.body[1], Node::Block(_)));
    assert!(matches!(program.body[2], Node::While(_)));
    assert!(matches!(program.body[3], Node::Expression(_)));
}

#[test]
fn location_counts_newlines_and_tail() {
    let mut loc = Location::new();
    for ch in "ab\ncd\nxyz".chars() {
        loc.feed(ch);
    }
    assert_eq!(loc.get_row(), 3);
    assert_eq!(loc.get_col(), 3);
}
