use monkey::ast::Infix;
use monkey::builtin::len;
use monkey::env::Env;
use monkey::eval::{index_array, Eval};
use monkey::lexer::Lexer;
use monkey::object::Object;
use monkey::parser::Parser;

fn run(src: &str) -> (Object, Vec<Object>) {
    let lexer = Lexer::new(src.to_string());
    let mut parser = Parser::new(lexer);
    let program = parser.parse_program();
    let mut eval = Eval::new(Env::new());
    let result = eval.eval_program(program);
    (result, eval.printed())
}

fn fresh() -> Eval {
    Eval::new(Env::new())
}

#[test]
fn division_always_yields_float() {
    let (r, out) = run("print(10 / 2)");
    assert_eq!(r, Object::Unit);
    assert_eq!(out, vec![Object::Float(5, 1)]);

    let (_, out) = run("print(7 / 2)");
    assert_eq!(out, vec![Object::Float(7, 2)]);

    let (_, out) = run("print(10 / 4)");
    assert_eq!(out, vec![Object::Float(5, 2)]);
}

#[test]
fn division_signs_and_zero() {
    let ev = fresh();
    assert_eq!(ev.calculate_int(Infix::Slash, -10, 4), Object::Float(-5, 2));
    assert_eq!(ev.calculate_int(Infix::Slash, 10, -4), Object::Float(-5, 2));
    assert_eq!(ev.calculate_int(Infix::Slash, -10, -4), Object::Float(5, 2));
    assert_eq!(
        ev.calculate_int(Infix::Slash, 1, 0),
        Object::Error("Division By Zero".to_string())
    );
}

#[test]
fn integer_arithmetic_is_exact() {
    let (_, out) = run("print(2 + 3 * 4)");
    assert_eq!(out, vec![Object::Int(14)]);

    let (r, _) = run("print(9223372036854775807 + 1)");
    assert_eq!(r, Object::Error("Integer Overflow".to_string()));
}

#[test]
fn comparisons_yield_booleans() {
    let (_, out) = run("print(10 < 20) print(10 > 20) print(10 == 10) print(10 != 10)");
    assert_eq!(
        out,
        vec![
            Object::Bool(true),
            Object::Bool(false),
            Object::Bool(true),
            Object::Bool(false),
        ]
    );
}

#[test]
fn string_operations() {
    let (_, out) = run("print(\"foo\" + \"bar\") print(\"a\" < \"b\") print(\"a\" == \"a\")");
    assert_eq!(
        out,
        vec![
            Object::String("foobar".to_string()),
            Object::Bool(true),
            Object::Bool(true),
        ]
    );
}

#[test]
fn mismatched_operand_types_error() {
    let (r, _) = run("print(1 + \"a\")");
    assert_eq!(
        r,
        Object::Error("1 + a is not a valid operation".to_string())
    );
}

#[test]
fn scoping_function_body_binding_invisible_outside() {
    let (r, _) = run("var f = func() { var x = 1 } f() print(x)");
    assert_eq!(
        r,
        Object::Error("x not found in the current scope".to_string())
    );
}

#[test]
fn scoping_if_block_binding_invisible_outside() {
    let (r, _) = run("if (true) { var y = 5 } print(y)");
    assert_eq!(
        r,
        Object::Error("y not found in the current scope".to_string())
    );
}

#[test]
fn closure_sees_later_mutation_of_outer_binding() {
    let (r, out) = run("var x = 1\n var f = func() { return x }\n var x = 2\n print(f())");
    assert_eq!(r, Object::Unit);
    assert_eq!(out, vec![Object::Int(2)]);
}

#[test]
fn closure_keeps_its_defining_scope_alive() {
    let (r, out) = run(
        "var mk = func() { var c = 41 return func() { return c + 1 } }\n var g = mk()\n print(g())",
    );
    assert_eq!(r, Object::Unit);
    assert_eq!(out, vec![Object::Int(42)]);
}

#[test]
fn array_indexing_in_bounds_and_out() {
    let (_, out) = run("var f = [1, 2, 3]\n print(f[1])");
    assert_eq!(out, vec![Object::Int(2)]);

    let (r, _) = run("var f = [1, 2, 3]\n print(f[3])");
    assert_eq!(r, Object::Error("Index Out Of Bounds".to_string()));

    let (r, _) = run("var f = [1, 2, 3]\n print(f[-1])");
    assert_eq!(r, Object::Error("Index Out Of Bounds".to_string()));
}

#[test]
fn index_array_directly() {
    let arr = vec![Object::Int(7), Object::Int(8)];
    assert_eq!(index_array(&arr, 0), Object::Int(7));
    assert_eq!(
        index_array(&arr, 2),
        Object::Error("Index Out Of Bounds".to_string())
    );
}

#[test]
fn indexing_a_non_array_errors() {
    let (r, _) = run("var x = 5 print(x[0])");
    assert_eq!(
        r,
        Object::Error("Indexed Object is not of type Array".to_string())
    );
}

#[test]
fn len_of_string_and_array() {
    let (_, out) = run("print(len(\"hi\"))");
    assert_eq!(out, vec![Object::Int(2)]);

    let (_, out) = run("print(len([1, 2, 3]))");
    assert_eq!(out, vec![Object::Int(3)]);
}

#[test]
fn len_of_number_errors() {
    let r = len(vec![Object::Int(5)]);
    assert_eq!(
        r,
        Object::Error("5 Doesnt Have A Length Property".to_string())
    );

    let (r, _) = run("print(len(5))");
    assert_eq!(
        r,
        Object::Error("5 Doesnt Have A Length Property".to_string())
    );
}

#[test]
fn print_returns_unit_and_evaluation_goes_on() {
    let (r, out) = run("var u = print(7) print(2 + 3)");
    assert_eq!(r, Object::Unit);
    assert_eq!(out, vec![Object::Int(7), Object::Int(5)]);
}

#[test]
fn call_with_two_arguments() {
    let (r, out) = run("var add = func(a, b) { return a + b }\n print(add(2, 3))");
    assert_eq!(r, Object::Unit);
    assert_eq!(out, vec![Object::Int(5)]);
}

#[test]
fn call_with_wrong_arity_errors() {
    let (r, _) = run("var add = func(a, b) { return a + b }\n print(add(2))");
    assert_eq!(r, Object::Error("Need 2 Arguments got 1".to_string()));
}

#[test]
fn builtin_arity_is_checked() {
    let (r, _) = run("print(len())");
    assert_eq!(r, Object::Error("Got 0 Arguments but Want 1".to_string()));
}

#[test]
fn calling_a_non_function_errors() {
    let (r, _) = run("var x = 5 x(1)");
    assert_eq!(r, Object::Error("Not A Valid Function Object".to_string()));
}

#[test]
fn zero_is_truthy_and_false_is_not() {
    let (_, out) = run("if (0) { print(1) } else { print(2) }");
    assert_eq!(out, vec![Object::Int(1)]);

    let (_, out) = run("if (false) { print(1) } else { print(2) }");
    assert_eq!(out, vec![Object::Int(2)]);

    let (_, out) = run("if (false) { print(1) }\n print(3)");
    assert_eq!(out, vec![Object::Int(3)]);
}

#[test]
fn return_propagates_out_of_a_conditional() {
    let (r, out) = run("var f = func() { if (true) { return 1 } return 2 }\n print(f())");
    assert_eq!(r, Object::Unit);
    assert_eq!(out, vec![Object::Int(1)]);
}

#[test]
fn negation_applies_to_integers_only() {
    let (_, out) = run("print(-7)");
    assert_eq!(out, vec![Object::Int(-7)]);

    let (r, _) = run("print(-true)");
    assert_eq!(
        r,
        Object::Error("- is not a valid Prefix Operator for true".to_string())
    );
}

#[test]
fn unknown_identifier_consults_builtins_then_errors() {
    let (r, _) = run("nope");
    assert_eq!(
        r,
        Object::Error("nope not found in the current scope".to_string())
    );
}

#[test]
fn shadowing_resolves_to_nearest_scope() {
    let (_, out) = run("var x = 1\n var f = func() { var x = 10 return x }\n print(f()) print(x)");
    assert_eq!(out, vec![Object::Int(10), Object::Int(1)]);
}

#[test]
fn recursion_depth_is_capped_with_an_error() {
    let (r, _) = run("var f = func() { return f() } f()");
    assert_eq!(r, Object::Error("Recursion Too Deep".to_string()));
}

#[test]
fn env_lookup_walks_the_chain() {
    let mut root = Env::new();
    root.add_ident(Object::Int(1), "x".to_string());
    let mut child = Env::new_with_outer(0);
    child.add_ident(Object::Int(2), "y".to_string());
    let envs = vec![root, child];
    assert_eq!(Env::read_ident(&envs, 1, "y"), Some(Object::Int(2)));
    assert_eq!(Env::read_ident(&envs, 1, "x"), Some(Object::Int(1)));
    assert_eq!(Env::read_ident(&envs, 0, "y"), None);
    assert_eq!(Env::read_ident(&envs, 1, "z"), None);
}

#[test]
fn rebinding_overwrites_in_place() {
    let mut e = Env::new();
    e.add_ident(Object::Int(1), "x".to_string());
    e.add_ident(Object::Int(2), "x".to_string());
    let envs = vec![e];
    assert_eq!(Env::read_ident(&envs, 0, "x"), Some(Object::Int(2)));
}

#[test]
fn user_binding_shadows_a_builtin_name() {
    let (r, out) = run("var len = 5 print(len)");
    assert_eq!(r, Object::Unit);
    assert_eq!(out, vec![Object::Int(5)]);
}

#[test]
fn string_greater_than() {
    let (_, out) = run("print(\"b\" > \"a\") print(\"a\" > \"b\") print(\"ab\" < \"b\")");
    assert_eq!(
        out,
        vec![Object::Bool(true), Object::Bool(false), Object::Bool(true)]
    );
}

#[test]
fn arrays_nest_and_print_whole_values() {
    let (_, out) = run("var a = [[1, 2], 3] print(a[0])");
    assert_eq!(
        out,
        vec![Object::Arr(vec![Object::Int(1), Object::Int(2)])]
    );
}

#[test]
fn len_of_empty_string_is_zero() {
    let (_, out) = run("print(len(\"\"))");
    assert_eq!(out, vec![Object::Int(0)]);
}

#[test]
fn empty_program_evaluates_to_unit() {
    let (r, out) = run("");
    assert_eq!(r, Object::Unit);
    assert_eq!(out, vec![]);
}
