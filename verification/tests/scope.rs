use ruta::ast::{Ast, ExprKind, StatKind};
use ruta::error::{Error, ErrorKind};
use ruta::line_index::LineIndex;
use ruta::parser::parse_chunk;
use ruta::scope::{resolve, Access, Binding, Bindings, Capture};

fn parse(source: &str) -> Ast<'_> {
    match parse_chunk(source.as_bytes()) {
        Ok(ast) => ast,
        Err(error) => panic!("{source:?} was refused: {:?}", error.kind),
    }
}

fn bindings(source: &str) -> (Ast<'_>, Bindings) {
    let ast = parse(source);
    match resolve(&ast) {
        Ok(bindings) => (ast, bindings),
        Err(error) => panic!("{source:?} did not resolve: {:?}", error.kind),
    }
}

fn refuse(source: &str) -> Error {
    let ast = parse(source);
    match resolve(&ast) {
        Ok(_) => panic!("{source:?} resolved"),
        Err(error) => error,
    }
}

fn message(source: &str) -> String {
    let error = refuse(source);
    let lines = LineIndex::new(source.as_bytes());
    String::from_utf8(error.message(&lines)).unwrap()
}

/// What the first value of the chunk's last `return` resolves to.
fn returned(ast: &Ast<'_>, bindings: &Bindings) -> Option<Binding> {
    let stats = &ast.main_block().stats;
    let StatKind::Return(values) = &ast.stat(stats[stats.len() - 1]).kind else {
        panic!("the chunk does not end in a return");
    };
    bindings.at(values[0])
}

#[test]
fn a_local_is_read_as_a_local() {
    let (ast, bindings) = bindings("local x = 1\nreturn x");
    assert!(matches!(returned(&ast, &bindings), Some(Binding::Variable(Access::Local(_)))));
}

#[test]
fn a_free_name_is_a_field_of_env_reached_as_the_first_upvalue() {
    let (ast, bindings) = bindings("return y");
    assert_eq!(returned(&ast, &bindings), Some(Binding::Global(Access::Upvalue(0))));
    let main = bindings.main();
    assert_eq!(main.upvalues.len(), 1);
    assert_eq!(main.upvalues[0].name, b"_ENV");
    assert_eq!(main.upvalues[0].capture, Capture::Env);
}

#[test]
fn a_local_env_takes_the_place_of_the_upvalue() {
    let (ast, bindings) = bindings("local _ENV = {}\nreturn y");
    assert!(matches!(returned(&ast, &bindings), Some(Binding::Global(Access::Local(_)))));
}

#[test]
fn an_expression_that_is_not_a_name_has_no_binding() {
    let (ast, bindings) = bindings("return 1");
    assert_eq!(returned(&ast, &bindings), None);
}

#[test]
fn an_initializer_reads_the_outer_name() {
    // The `x` on the right is the global one: the local does not exist yet.
    let (ast, bindings) = bindings("local x = x");
    let StatKind::Local { values, .. } = &ast.stat(ast.main_block().stats[0]).kind else {
        panic!("not a local statement");
    };
    assert_eq!(bindings.at(values[0]), Some(Binding::Global(Access::Upvalue(0))));
}

#[test]
fn a_nested_function_captures_its_parents_local() {
    let (ast, bindings) = bindings("local x = 1\nlocal function f() return x end");
    let StatKind::LocalFunction { func, .. } = &ast.stat(ast.main_block().stats[1]).kind else {
        panic!("not a local function");
    };
    let body = ast.block(ast.func(*func).body);
    let StatKind::Return(values) = &ast.stat(body.stats[0]).kind else {
        panic!("not a return");
    };
    assert_eq!(bindings.at(values[0]), Some(Binding::Variable(Access::Upvalue(0))));
    let inner = bindings.function(*func);
    assert_eq!(inner.upvalues.len(), 1);
    assert_eq!(inner.upvalues[0].name, b"x");
    assert!(matches!(inner.upvalues[0].capture, Capture::ParentLocal(_)));
    assert_eq!(bindings.captured().len(), 1);
}

#[test]
fn a_global_reached_from_a_nested_function_captures_env() {
    let (ast, bindings) = bindings("local function f() return y end");
    let StatKind::LocalFunction { func, .. } = &ast.stat(ast.main_block().stats[0]).kind else {
        panic!("not a local function");
    };
    let inner = bindings.function(*func);
    assert_eq!(inner.upvalues.len(), 1);
    assert_eq!(inner.upvalues[0].name, b"_ENV");
    assert_eq!(inner.upvalues[0].capture, Capture::ParentUpvalue(0));
    // `_ENV` is no local, so nothing is captured out of a function that declares it.
    assert!(bindings.captured().is_empty());
}

#[test]
fn a_parameter_is_a_local_of_its_function() {
    let (ast, bindings) = bindings("local function f(a) return a end");
    let StatKind::LocalFunction { func, .. } = &ast.stat(ast.main_block().stats[0]).kind else {
        panic!("not a local function");
    };
    let body = ast.block(ast.func(*func).body);
    let StatKind::Return(values) = &ast.stat(body.stats[0]).kind else {
        panic!("not a return");
    };
    assert!(matches!(bindings.at(values[0]), Some(Binding::Variable(Access::Local(_)))));
    assert!(bindings.function(*func).upvalues.is_empty());
}

#[test]
fn a_method_sees_self() {
    let (ast, bindings) = bindings("local t = {}\nfunction t:m() return self end");
    let StatKind::Function { func, .. } = &ast.stat(ast.main_block().stats[1]).kind else {
        panic!("not a function statement");
    };
    let body = ast.block(ast.func(*func).body);
    let StatKind::Return(values) = &ast.stat(body.stats[0]).kind else {
        panic!("not a return");
    };
    assert!(matches!(bindings.at(values[0]), Some(Binding::Variable(Access::Local(_)))));
}

#[test]
fn a_global_declaration_turns_off_the_implicit_global_star() {
    let error = refuse("global x\nreturn y");
    assert_eq!(error.kind, ErrorKind::VariableNotDeclared(b"y".to_vec()));
    assert_eq!(message("global x\nreturn y"), "variable 'y' not declared");
}

#[test]
fn a_declared_global_resolves() {
    let (ast, bindings) = bindings("global x\nreturn x");
    assert_eq!(returned(&ast, &bindings), Some(Binding::Global(Access::Upvalue(0))));
}

#[test]
fn the_wildcard_global_allows_every_name() {
    let (ast, bindings) = bindings("global x\nglobal *\nreturn y");
    assert_eq!(returned(&ast, &bindings), Some(Binding::Global(Access::Upvalue(0))));
}

#[test]
fn a_const_local_cannot_be_assigned() {
    assert_eq!(refuse("local x <const> = 1\nx = 2").kind, ErrorKind::ConstAssignment(b"x".to_vec()));
    assert_eq!(message("local x <const> = 1\nx = 2"), "attempt to assign to const variable 'x'");
}

#[test]
fn a_const_global_cannot_be_assigned() {
    assert_eq!(refuse("global<const> *\nx = 1").kind, ErrorKind::ConstAssignment(b"x".to_vec()));
}

#[test]
fn a_for_control_variable_is_read_only() {
    assert_eq!(refuse("for i = 1, 2 do i = 3 end").kind, ErrorKind::ConstAssignment(b"i".to_vec()));
    assert_eq!(refuse("for k, v in pairs(t) do k = 1 end").kind, ErrorKind::ConstAssignment(b"k".to_vec()));
    let _ = bindings("for k, v in pairs(t) do v = 1 end");
}

#[test]
fn a_global_env_makes_every_global_an_error() {
    assert_eq!(refuse("global *\nglobal _ENV\nreturn y").kind, ErrorKind::EnvIsGlobal(b"y".to_vec()));
    assert_eq!(message("global *\nglobal _ENV\nreturn y"), "_ENV is global when accessing variable 'y'");
}

#[test]
fn a_goto_reaches_its_label() {
    let (ast, bindings) = bindings("goto done\n::done::");
    let stats = &ast.main_block().stats;
    assert!(matches!(ast.stat(stats[0]).kind, StatKind::Goto(_)));
    assert_eq!(bindings.target(stats[0]), Some(stats[1]));
    assert_eq!(bindings.target(stats[1]), None);
}

#[test]
fn a_goto_can_leave_a_block_backwards() {
    let (ast, bindings) = bindings("::top::\ndo goto top end");
    let stats = &ast.main_block().stats;
    let StatKind::Do(body) = &ast.stat(stats[1]).kind else {
        panic!("not a do block");
    };
    let goto = ast.block(*body).stats[0];
    assert_eq!(bindings.target(goto), Some(stats[0]));
}

#[test]
fn a_goto_without_a_label_is_refused() {
    let error = refuse("goto nowhere");
    assert!(matches!(error.kind, ErrorKind::NoVisibleLabel { ref name, .. } if name == b"nowhere"));
    assert_eq!(message("\ngoto nowhere"), "no visible label 'nowhere' for <goto> at line 2");
}

#[test]
fn a_label_inside_a_nested_block_is_not_visible() {
    let error = refuse("goto inner\ndo ::inner:: end");
    assert!(matches!(error.kind, ErrorKind::NoVisibleLabel { ref name, .. } if name == b"inner"));
}

#[test]
fn a_label_name_is_taken_once_per_function() {
    let error = refuse("::a::\n::a::");
    assert!(matches!(error.kind, ErrorKind::LabelAlreadyDefined { ref name, .. } if name == b"a"));
    assert_eq!(message("::a::\ndo ::a:: end"), "label 'a' already defined on line 1");
}

#[test]
fn a_jump_into_the_scope_of_a_local_is_refused() {
    let error = refuse("goto l\nlocal a\n::l::\nprint(a)");
    assert!(matches!(
        error.kind,
        ErrorKind::JumpIntoScope { ref label, ref variable, .. } if label == b"l" && variable == b"a"
    ));
}

#[test]
fn a_label_at_the_end_of_a_block_is_outside_the_locals_scope() {
    let (ast, bindings) = bindings("do goto l\nlocal a\n::l:: end");
    let StatKind::Do(body) = &ast.stat(ast.main_block().stats[0]).kind else {
        panic!("not a do block");
    };
    let stats = &ast.block(*body).stats;
    assert_eq!(bindings.target(stats[0]), Some(stats[2]));
}

#[test]
fn a_function_name_assignment_is_a_write() {
    let (ast, bindings) = bindings("function f() end");
    let StatKind::Function { target, .. } = &ast.stat(ast.main_block().stats[0]).kind else {
        panic!("not a function statement");
    };
    assert!(matches!(ast.expr(*target).kind, ExprKind::Name(_)));
    assert_eq!(bindings.at(*target), Some(Binding::Global(Access::Upvalue(0))));
    assert_eq!(refuse("local f <const> = 1\nfunction f() end").kind, ErrorKind::ConstAssignment(b"f".to_vec()));
}

#[test]
fn an_initializer_is_resolved_before_its_own_local() {
    let error = refuse("global x; local y = y");
    assert_eq!(error.kind, ErrorKind::VariableNotDeclared(b"y".to_vec()));
    assert_eq!(error.at, 20);
}

#[test]
fn the_locals_of_a_repeat_body_reach_its_condition() {
    let _ = bindings("global x; repeat local y = x until y");
}

#[test]
fn only_the_generic_for_control_variable_is_read_only() {
    let error = refuse("for k, v in next, t do v = 1; k = 2 end");
    assert_eq!(error.kind, ErrorKind::ConstAssignment(b"k".to_vec()));
    assert_eq!(error.at, 30);
}

#[test]
fn a_numeric_for_control_variable_is_refused_where_it_is_written() {
    let error = refuse("for i = 1, 2 do i = 3 end");
    assert_eq!(error.kind, ErrorKind::ConstAssignment(b"i".to_vec()));
    assert_eq!(error.at, 16);
}

#[test]
fn back_to_back_labels_collide_at_the_end_of_the_run() {
    let error = refuse("::a:: ::a::");
    assert_eq!(error.kind, ErrorKind::LabelAlreadyDefined { name: b"a".to_vec(), first_at: 6 });
    assert_eq!(error.at, 11);
}

#[test]
fn a_jump_into_scope_is_reported_before_a_missing_label() {
    let error = refuse("goto m; goto l; local x; ::l:: x = 1");
    assert_eq!(
        error.kind,
        ErrorKind::JumpIntoScope { label: b"l".to_vec(), goto_at: 8, variable: b"x".to_vec() }
    );
    let _ = bindings("goto l; local x; ::l::");
}

#[test]
fn a_top_level_goto_is_refused_where_the_chunk_ends() {
    let source = "goto l";
    let error = refuse(source);
    assert_eq!(error.kind, ErrorKind::NoVisibleLabel { name: b"l".to_vec(), goto_at: 0 });
    assert_eq!(error.at, 6);
}

#[test]
fn an_undeclared_name_is_refused_before_a_global_env() {
    let error = refuse("global<const> _ENV, x; x = 1");
    assert_eq!(error.kind, ErrorKind::EnvIsGlobal(b"x".to_vec()));
    assert_eq!(error.at, 23);
}

#[test]
fn a_method_name_is_never_looked_up() {
    let _ = bindings("global t; t:m()");
    let error = refuse("global t; m(t)");
    assert_eq!(error.kind, ErrorKind::VariableNotDeclared(b"m".to_vec()));
    assert_eq!(error.at, 10);
}

#[test]
fn a_call_argument_is_resolved() {
    let error = refuse("global m; m(t)");
    assert_eq!(error.kind, ErrorKind::VariableNotDeclared(b"t".to_vec()));
}

#[test]
fn a_name_in_a_function_body_is_resolved() {
    let error = refuse("global x; local function f() return y end");
    assert_eq!(error.kind, ErrorKind::VariableNotDeclared(b"y".to_vec()));
    let error = refuse("global x; return function() x = y end");
    assert_eq!(error.kind, ErrorKind::VariableNotDeclared(b"y".to_vec()));
    let _ = bindings("global x; local function f(y) return y end");
}
