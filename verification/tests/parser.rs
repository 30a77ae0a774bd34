use ruta::ast::{Ast, Attribute, BinOp, ExprKind, StatKind, UnOp, Vararg};
use ruta::error::{Error, ErrorKind, Near};
use ruta::line_index::LineIndex;
use ruta::parser::parse_chunk;

fn parse(source: &str) -> Ast<'_> {
    match parse_chunk(source.as_bytes()) {
        Ok(ast) => ast,
        Err(error) => panic!("{source:?} was refused: {:?}", error.kind),
    }
}

fn refuse(source: &str) -> Error {
    match parse_chunk(source.as_bytes()) {
        Ok(_) => panic!("{source:?} was accepted"),
        Err(error) => error,
    }
}

fn message(source: &str) -> String {
    let error = refuse(source);
    let lines = LineIndex::new(source.as_bytes());
    String::from_utf8(error.message(&lines)).unwrap()
}

#[test]
fn the_empty_chunk_is_an_empty_block() {
    let ast = parse("");
    assert!(ast.main_block().stats.is_empty());
}

#[test]
fn multiplication_binds_tighter_than_addition() {
    let ast = parse("local x = 1 + 2 * 3");
    let block = ast.main_block();
    assert_eq!(block.stats.len(), 1);

    let StatKind::Local { names, values } = &ast.stat(block.stats[0]).kind else {
        panic!("not a local statement");
    };
    assert_eq!(names[0].name, b"x");
    let ExprKind::Binary { op: BinOp::Add, left, right } = &ast.expr(values[0]).kind else {
        panic!("not an addition");
    };
    assert!(matches!(ast.expr(*left).kind, ExprKind::Int(1)));
    assert!(matches!(ast.expr(*right).kind, ExprKind::Binary { op: BinOp::Mul, .. }));
}

#[test]
fn power_is_right_associative_and_binds_above_unary_minus() {
    let ast = parse("return -2 ^ 3 ^ 2");
    let StatKind::Return(values) = &ast.stat(ast.main_block().stats[0]).kind else {
        panic!("not a return");
    };
    let ExprKind::Unary { op: UnOp::Neg, operand } = &ast.expr(values[0]).kind else {
        panic!("the minus does not come first");
    };
    let ExprKind::Binary { op: BinOp::Pow, left, right } = &ast.expr(*operand).kind else {
        panic!("not a power");
    };
    assert!(matches!(ast.expr(*left).kind, ExprKind::Int(2)));
    assert!(matches!(ast.expr(*right).kind, ExprKind::Binary { op: BinOp::Pow, .. }));
}

#[test]
fn suffixes_chain_left_to_right() {
    let ast = parse("a.b[c]:d(1)\"s\"{}");
    let StatKind::Expr(call) = &ast.stat(ast.main_block().stats[0]).kind else {
        panic!("not a call statement");
    };
    let ExprKind::Call { callee, args } = &ast.expr(*call).kind else {
        panic!("the table argument is not the last call");
    };
    assert_eq!(args.len(), 1);
    assert!(matches!(ast.expr(args[0]).kind, ExprKind::Table(_)));
    let ExprKind::Call { callee, args } = &ast.expr(*callee).kind else {
        panic!("the string argument is not a call");
    };
    assert!(matches!(&ast.expr(args[0]).kind, ExprKind::Str(s) if s == b"s"));
    assert!(matches!(ast.expr(*callee).kind, ExprKind::Method { .. }));
}

#[test]
fn table_fields_take_three_forms() {
    let ast = parse("t = {1, x = 2, [3] = 4; y}");
    let StatKind::Assign { values, .. } = &ast.stat(ast.main_block().stats[0]).kind else {
        panic!("not an assignment");
    };
    let ExprKind::Table(fields) = &ast.expr(values[0]).kind else {
        panic!("not a table");
    };
    assert_eq!(fields.len(), 4);
    assert!(matches!(fields[0], ruta::ast::Field::Positional(_)));
    assert!(matches!(fields[1], ruta::ast::Field::Named { name: b"x", .. }));
    assert!(matches!(fields[2], ruta::ast::Field::Keyed { .. }));
    assert!(matches!(fields[3], ruta::ast::Field::Positional(_)));
}

#[test]
fn control_statements_parse() {
    let ast = parse(
        "while x do break end\n\
         repeat local y = 1 until y\n\
         for i = 1, 10, 2 do end\n\
         for k, v in pairs(t) do end\n\
         if a then elseif b then else end\n\
         do goto done end ::done::",
    );
    let kinds: Vec<_> = ast.main_block().stats.iter().map(|id| &ast.stat(*id).kind).collect();
    assert!(matches!(kinds[0], StatKind::While { .. }));
    assert!(matches!(kinds[1], StatKind::Repeat { .. }));
    assert!(matches!(kinds[2], StatKind::NumericFor { step: Some(_), .. }));
    assert!(matches!(kinds[3], StatKind::GenericFor { names, .. } if names.len() == 2));
    assert!(matches!(kinds[4], StatKind::If { arms, otherwise: Some(_) } if arms.len() == 2));
    assert!(matches!(kinds[5], StatKind::Do(_)));
    assert!(matches!(kinds[6], StatKind::Label(b"done")));
}

#[test]
fn functions_keep_their_parameters() {
    let ast = parse("function a.b:c(x, y, ...) return ... end\nlocal function f(...rest) end");
    let StatKind::Function { func, .. } = &ast.stat(ast.main_block().stats[0]).kind else {
        panic!("not a function statement");
    };
    let func = ast.func(*func);
    assert!(func.is_method);
    assert_eq!(func.params.len(), 2);
    assert_eq!(func.vararg, Some(Vararg::Anonymous));

    let StatKind::LocalFunction { func, .. } = &ast.stat(ast.main_block().stats[1]).kind else {
        panic!("not a local function");
    };
    assert_eq!(ast.func(*func).vararg, Some(Vararg::Named(&b"rest"[..])));
}

#[test]
fn global_is_a_name_unless_a_declaration_follows() {
    let ast = parse("global = 1\nglobal x <const> = 2\nglobal *\nglobal function g() end");
    let kinds: Vec<_> = ast.main_block().stats.iter().map(|id| &ast.stat(*id).kind).collect();
    assert!(matches!(kinds[0], StatKind::Assign { .. }));
    assert!(matches!(kinds[1], StatKind::Global { names, .. } if names[0].attribute == Some(Attribute::Const)));
    assert!(matches!(kinds[2], StatKind::GlobalAll { attribute: None }));
    assert!(matches!(kinds[3], StatKind::GlobalFunction { .. }));
}

#[test]
fn break_needs_a_loop() {
    assert_eq!(refuse("break").kind, ErrorKind::BreakOutsideLoop);
    assert_eq!(refuse("while true do local function f() break end end").kind, ErrorKind::BreakOutsideLoop);
    parse("while true do if x then break end end");
}

#[test]
fn varargs_need_a_vararg_function() {
    parse("return ...");
    assert_eq!(refuse("function f() return ... end").kind, ErrorKind::VarargsOutsideVarargFunction);
}

#[test]
fn an_expression_alone_must_be_a_call() {
    assert_eq!(refuse("x").kind, ErrorKind::SyntaxError);
    assert_eq!(refuse("f() = 1").kind, ErrorKind::SyntaxError);
}

#[test]
fn attributes_are_checked() {
    assert_eq!(
        refuse("local x <foo> = 1").kind,
        ErrorKind::UnknownAttribute(b"foo".to_vec())
    );
    assert_eq!(refuse("local a <close>, b <close> = 1, 2").kind, ErrorKind::MultipleToBeClosed);
    assert_eq!(refuse("global x <close>").kind, ErrorKind::GlobalToBeClosed);
    parse("local a <close>, b <const> = 1, 2");
}

#[test]
fn a_for_needs_equals_or_in() {
    assert_eq!(refuse("for i do end").kind, ErrorKind::EqualsOrInExpected);
}

#[test]
fn deep_nesting_is_refused() {
    let source = "x = ".to_owned() + &"(".repeat(2000) + "1" + &")".repeat(2000);
    assert_eq!(refuse(&source).kind, ErrorKind::StackOverflow);

    let shallow = "x = ".to_owned() + &"(".repeat(100) + "1" + &")".repeat(100);
    parse(&shallow);
}

#[test]
fn messages_name_the_token_they_stopped_at() {
    assert_eq!(message("x = = 1"), "unexpected symbol near '='");
    assert_eq!(message("return 1 x"), "<eof> expected near 'x'");
    assert_eq!(message("f("), "unexpected symbol near <eof>");
    assert_eq!(message("f(1"), "')' expected near <eof>");
    assert_eq!(message("if x then\n\nelse"), "'end' expected (to close 'if' at line 1) near <eof>");
    assert_eq!(message("local t = {1, 2"), "'}' expected near <eof>");
    assert_eq!(message("x = 'abc"), "unfinished string near <eof>");
    assert_eq!(message("x = 'abc\ny = 1"), "unfinished string near ''abc'");
}

#[test]
fn a_lexical_error_past_a_syntax_error_is_never_reached() {
    // The syntax error comes first in the source, so it is the one reported.
    assert_eq!(refuse("x = = 'unfinished").kind, ErrorKind::UnexpectedSymbol);
}

#[test]
fn a_lone_break_is_refused_at_its_end() {
    let error = match parse_chunk(b"break") {
        Ok(_) => panic!("a lone break was accepted"),
        Err(error) => error,
    };
    assert_eq!(error.kind, ErrorKind::BreakOutsideLoop);
    assert_eq!(error.at, 5);
    assert_eq!(error.near, Near::Buffer(b"break".to_vec()));
    assert!(parse_chunk(b"while 1 do break end").is_ok());
}

#[test]
fn dots_outside_a_vararg_function_are_refused() {
    let error = match parse_chunk(b"local function f() return ... end") {
        Ok(_) => panic!("accepted"),
        Err(error) => error,
    };
    assert_eq!(error.kind, ErrorKind::VarargsOutsideVarargFunction);
    assert!(parse_chunk(b"local function f(...) return ... end").is_ok());
    assert!(parse_chunk(b"return ...").is_ok());
}

#[test]
fn a_source_of_nothing_but_comments_is_an_empty_chunk() {
    let ast = match parse_chunk(b"  -- nothing here\n--[[ nor here ]]") {
        Ok(ast) => ast,
        Err(error) => panic!("refused: {:?}", error.kind),
    };
    assert_eq!(ast.main_block().stats.len(), 0);
    assert!(parse_chunk(b"").is_ok());
}
