use std::collections::VecDeque;

use lambda_core::builtin::import_builtins;
use lambda_core::builtin::lcore_equals;
use lambda_core::builtin::lcore_not_equals;
use lambda_core::env::Environment;
use lambda_core::env::SymTab;
use lambda_core::error::LCoreError;
use lambda_core::eval::lcore_interpret;
use lambda_core::parse::lcore_parse;
use lambda_core::parse::ParseNode;
use lambda_core::parse::Rule;
use lambda_core::value::value_eq;
use lambda_core::value::Builtin;
use lambda_core::value::Value;

fn node(rule: Rule, text: &str, children: Vec<ParseNode>) -> ParseNode {
    ParseNode { rule, text: text.to_string(), children }
}

fn num(text: &str) -> ParseNode {
    node(Rule::Number, text, vec![])
}

fn ident(text: &str) -> ParseNode {
    node(Rule::Identifier, text, vec![])
}

fn quoted(inner: ParseNode) -> ParseNode {
    node(Rule::Quote, "", vec![inner])
}

fn call(callee: &str, args: Vec<ParseNode>) -> ParseNode {
    let mut children = vec![ident(callee)];
    children.extend(args);
    node(Rule::Function, "", children)
}

fn program(children: Vec<ParseNode>) -> ParseNode {
    node(Rule::Program, "", children)
}

fn run(prog: ParseNode) -> (Result<Value, LCoreError>, Environment) {
    let mut queue: VecDeque<Value> = VecDeque::new();
    lcore_parse(&prog, &mut queue).expect("program should convert");
    let mut env = Environment::new();
    import_builtins(&mut env);
    let r = lcore_interpret(&mut queue, &mut env);
    (r, env)
}

fn output_text(env: &Environment) -> String {
    let mut s = String::new();
    for chunk in &env.output {
        s.push_str(chunk);
    }
    s
}

#[test]
pub fn test_tests() {
    assert_eq!(4, 4);
}

#[test]
fn literal_identity_int() {
    let (r, _) = run(program(vec![num("5")]));
    assert!(value_eq(&r.unwrap(), &Value::Int(5)));
}

#[test]
fn literal_identity_float() {
    let (r, _) = run(program(vec![num("3.14")]));
    assert!(value_eq(&r.unwrap(), &Value::Float("3.14".to_string())));
}

#[test]
fn literal_identity_string() {
    let (r, _) = run(program(vec![node(Rule::Str, "hi", vec![])]));
    assert!(value_eq(&r.unwrap(), &Value::Str("hi".to_string())));
}

#[test]
fn literal_identity_boolean() {
    let (r, _) = run(program(vec![node(Rule::Boolean, "True", vec![])]));
    assert!(value_eq(&r.unwrap(), &Value::Boolean(true)));
}

#[test]
fn literal_identity_null() {
    let (r, _) = run(program(vec![node(Rule::Null, "Null", vec![])]));
    assert!(value_eq(&r.unwrap(), &Value::Null));
}

#[test]
fn empty_program_yields_null() {
    let (r, _) = run(program(vec![]));
    assert!(value_eq(&r.unwrap(), &Value::Null));
}

#[test]
fn binding_read_back() {
    let prog = program(vec![
        call("set", vec![quoted(ident("x")), num("5")]),
        ident("x"),
    ]);
    let (r, env) = run(prog);
    assert!(value_eq(&r.unwrap(), &Value::Int(5)));
    let bound = env.get(&"x".to_string()).expect("x should be bound");
    assert!(value_eq(bound, &Value::Int(5)));
}

#[test]
fn shadowing_restores_outer_binding() {
    let mut env = Environment::new();
    env.insert("x".to_string(), Value::Int(1));
    env.push();
    env.insert("x".to_string(), Value::Int(99));
    assert!(value_eq(env.get(&"x".to_string()).unwrap(), &Value::Int(99)));
    env.pop();
    assert!(value_eq(env.get(&"x".to_string()).unwrap(), &Value::Int(1)));
}

#[test]
fn function_call_positional_binding() {
    // A two-parameter function whose body subtracts nothing: with reversed
    // binding (+ a a) would still pass, so check an asymmetric body result
    // through positional order: f(a, b) = a, called with (3, 4), must be 3.
    let def_first = call(
        "defn",
        vec![
            quoted(ident("first-of")),
            node(Rule::Array, "", vec![quoted(ident("a")), quoted(ident("b"))]),
            quoted(node(Rule::Array, "", vec![ident("a")])),
        ],
    );
    let use_first = call("first-of", vec![num("3"), num("4")]);
    let (r, _) = run(program(vec![def_first, use_first]));
    assert!(value_eq(&r.unwrap(), &Value::Int(3)));
}

#[test]
fn function_call_adds() {
    let def_add2 = call(
        "defn",
        vec![
            quoted(ident("add2")),
            node(Rule::Array, "", vec![quoted(ident("a")), quoted(ident("b"))]),
            quoted(node(
                Rule::Array,
                "",
                vec![call("+", vec![ident("a"), ident("b")])],
            )),
        ],
    );
    let use_add2 = call("add2", vec![num("3"), num("4")]);
    let (r, _) = run(program(vec![def_add2, use_add2]));
    assert!(value_eq(&r.unwrap(), &Value::Int(7)));
}

#[test]
fn arity_mismatch_is_arity_error() {
    let def_add2 = call(
        "defn",
        vec![
            quoted(ident("add2")),
            node(Rule::Array, "", vec![quoted(ident("a")), quoted(ident("b"))]),
            quoted(node(
                Rule::Array,
                "",
                vec![call("+", vec![ident("a"), ident("b")])],
            )),
        ],
    );
    let bad_call = call("add2", vec![num("3")]);
    let (r, _) = run(program(vec![def_add2, bad_call]));
    assert!(matches!(r, Err(LCoreError::ArityError(_))));
}

fn three_elem_array() -> ParseNode {
    node(Rule::Array, "", vec![num("10"), num("20"), num("30")])
}

#[test]
fn array_index_returns_second_element() {
    let (r, _) = run(program(vec![call("get", vec![three_elem_array(), num("1")])]));
    assert!(value_eq(&r.unwrap(), &Value::Int(20)));
}

#[test]
fn array_index_beyond_length_is_argument_error() {
    let (r, _) = run(program(vec![call("get", vec![three_elem_array(), num("5")])]));
    assert!(matches!(r, Err(LCoreError::ArgumentError(_))));
}

#[test]
fn array_index_wraps_modulo_length() {
    let (r, _) = run(program(vec![call("get", vec![three_elem_array(), num("-1")])]));
    assert!(value_eq(&r.unwrap(), &Value::Int(30)));
    let (r2, _) = run(program(vec![call("get", vec![three_elem_array(), num("3")])]));
    assert!(value_eq(&r2.unwrap(), &Value::Int(10)));
}

#[test]
fn empty_array_index_is_index_error() {
    let empty = node(Rule::Array, "", vec![]);
    let (r, _) = run(program(vec![call("get", vec![empty, num("0")])]));
    assert!(matches!(r, Err(LCoreError::IndexError(_))));
}

fn small_dict() -> ParseNode {
    call(
        "dict",
        vec![
            quoted(ident("a")),
            num("1"),
            quoted(ident("b")),
            num("2"),
        ],
    )
}

#[test]
fn dict_round_trip() {
    let lookup = call("get", vec![small_dict(), quoted(ident("a"))]);
    let (r, _) = run(program(vec![lookup]));
    assert!(value_eq(&r.unwrap(), &Value::Int(1)));
}

#[test]
fn dict_odd_arguments_is_argument_error() {
    let bad = call("dict", vec![quoted(ident("a"))]);
    let (r, _) = run(program(vec![bad]));
    assert!(matches!(r, Err(LCoreError::ArgumentError(_))));
}

#[test]
fn structural_equality_of_composites() {
    let mut env = Environment::new();
    let a = Value::Array(vec![Value::Int(1), Value::Str("x".to_string())]);
    let b = Value::Array(vec![Value::Int(1), Value::Str("x".to_string())]);
    let r = lcore_equals(Value::Array(vec![a, b]), &mut env).unwrap();
    assert!(value_eq(&r, &Value::Boolean(true)));

    let d1 = Value::Dict(vec![
        (Value::Str("a".to_string()), Value::Int(1)),
        (Value::Str("b".to_string()), Value::Int(2)),
    ]);
    let d2 = Value::Dict(vec![
        (Value::Str("b".to_string()), Value::Int(2)),
        (Value::Str("a".to_string()), Value::Int(1)),
    ]);
    let r2 = lcore_equals(Value::Array(vec![d1, d2]), &mut env).unwrap();
    assert!(value_eq(&r2, &Value::Boolean(true)));
}

#[test]
fn equality_type_mismatch_is_argument_error() {
    let mut env = Environment::new();
    let r = lcore_equals(
        Value::Array(vec![Value::Int(1), Value::Str("1".to_string())]),
        &mut env,
    );
    assert!(matches!(r, Err(LCoreError::ArgumentError(_))));
}

#[test]
fn func_values_compare_by_identity() {
    let mut env = Environment::new();
    let same = lcore_equals(
        Value::Array(vec![Value::Func(Builtin::Print), Value::Func(Builtin::Print)]),
        &mut env,
    )
    .unwrap();
    assert!(value_eq(&same, &Value::Boolean(true)));
    let differ = lcore_not_equals(
        Value::Array(vec![Value::Func(Builtin::Print), Value::Func(Builtin::Prin)]),
        &mut env,
    )
    .unwrap();
    assert!(value_eq(&differ, &Value::Boolean(true)));
}

#[test]
fn quote_defers_identifier_evaluation() {
    // An unbound identifier directly after a quote token is captured raw
    // instead of being resolved, so no name error can arise.
    let mut queue: VecDeque<Value> = VecDeque::new();
    queue.push_back(Value::Quote(Box::new(Value::Null)));
    queue.push_back(Value::Identifier("never-bound".to_string()));
    let mut env = Environment::new();
    let r = lcore_interpret(&mut queue, &mut env).unwrap();
    assert!(value_eq(&r, &Value::Identifier("never-bound".to_string())));
}

#[test]
fn set_captures_quoted_name_not_value() {
    // The quoted first argument names the binding; the bare identifier in
    // the second argument is evaluated to its value.
    let prog = program(vec![
        call("set", vec![quoted(ident("x")), num("5")]),
        call("set", vec![quoted(ident("y")), call("+", vec![ident("x"), num("0")])]),
    ]);
    let (r, env) = run(prog);
    r.unwrap();
    assert!(value_eq(env.get(&"y".to_string()).unwrap(), &Value::Int(5)));
    assert!(value_eq(env.get(&"x".to_string()).unwrap(), &Value::Int(5)));
}

#[test]
fn loop_binds_iteration_variable_in_turn() {
    let body = quoted(node(
        Rule::Array,
        "",
        vec![call("prin", vec![ident("i")])],
    ));
    let prog = program(vec![call(
        "loop",
        vec![quoted(ident("i")), num("3"), body],
    )]);
    let (r, env) = run(prog);
    assert!(value_eq(&r.unwrap(), &Value::Null));
    assert_eq!(output_text(&env), "012");
    assert!(value_eq(env.get(&"i".to_string()).unwrap(), &Value::Int(2)));
}

#[test]
fn loop_body_error_reports_and_continues() {
    let body = quoted(node(
        Rule::Array,
        "",
        vec![ident("no-such-name")],
    ));
    let prog = program(vec![call(
        "loop",
        vec![quoted(ident("i")), num("3"), body],
    )]);
    let (r, env) = run(prog);
    assert!(value_eq(&r.unwrap(), &Value::Null));
    let text = output_text(&env);
    assert_eq!(text.matches("no-such-name").count(), 3);
}

#[test]
fn undefined_identifier_is_name_error() {
    let (r, _) = run(program(vec![ident("missing")]));
    assert!(matches!(r, Err(LCoreError::NameError(_))));
}

#[test]
fn unbalanced_close_is_generic_error() {
    let mut queue: VecDeque<Value> = VecDeque::new();
    queue.push_back(Value::CloseFunc);
    let mut env = Environment::new();
    let r = lcore_interpret(&mut queue, &mut env);
    assert!(matches!(r, Err(LCoreError::LambdaCoreError(_))));
}

#[test]
fn quit_halts_remaining_evaluation() {
    let prog = program(vec![
        call("quit", vec![]),
        call("print", vec![num("1")]),
    ]);
    let (r, env) = run(prog);
    r.unwrap();
    assert!(env.halted);
    assert_eq!(output_text(&env), "");
}

#[test]
fn import_takes_preloaded_module_bindings() {
    let prog = program(vec![
        call("import", vec![node(Rule::Str, "mathbits", vec![])]),
        ident("answer"),
    ]);
    let mut queue: VecDeque<Value> = VecDeque::new();
    lcore_parse(&prog, &mut queue).unwrap();
    let mut env = Environment::new();
    import_builtins(&mut env);
    let mut module = SymTab::new();
    module.entries.push(("answer".to_string(), Value::Int(42)));
    env.install_module("mathbits".to_string(), module);
    let r = lcore_interpret(&mut queue, &mut env).unwrap();
    assert!(value_eq(&r, &Value::Int(42)));
}

#[test]
fn import_without_loader_reports_error() {
    let prog = program(vec![call(
        "import",
        vec![node(Rule::Str, "library.lcore", vec![])],
    )]);
    let (r, _) = run(prog);
    assert!(matches!(r, Err(LCoreError::LambdaCoreError(_))));
}

#[test]
fn swap_replaces_array_element() {
    let prog = program(vec![
        call("set", vec![quoted(ident("xs")), three_elem_array()]),
        call(
            "swap",
            vec![
                quoted(ident("xs")),
                quoted(node(Rule::Array, "", vec![num("1")])),
                num("99"),
            ],
        ),
    ]);
    let (r, env) = run(prog);
    r.unwrap();
    let expected = Value::Array(vec![Value::Int(10), Value::Int(99), Value::Int(30)]);
    assert!(value_eq(env.get(&"xs".to_string()).unwrap(), &expected));
}

#[test]
fn swap_replaces_nested_dict_entry() {
    let inner = call("dict", vec![quoted(ident("k")), num("1")]);
    let outer = call("dict", vec![quoted(ident("d")), inner]);
    let prog = program(vec![
        call("set", vec![quoted(ident("m")), outer]),
        call(
            "swap",
            vec![
                quoted(ident("m")),
                quoted(node(Rule::Array, "", vec![ident("d"), ident("k")])),
                num("42"),
            ],
        ),
        call(
            "get",
            vec![call("get", vec![ident("m"), quoted(ident("d"))]), quoted(ident("k"))],
        ),
    ]);
    let (r, _) = run(prog);
    assert!(value_eq(&r.unwrap(), &Value::Int(42)));
}

#[test]
fn swap_on_unbound_name_is_quiet() {
    let prog = program(vec![call(
        "swap",
        vec![
            quoted(ident("nowhere")),
            quoted(node(Rule::Array, "", vec![num("0")])),
            num("1"),
        ],
    )]);
    let (r, _) = run(prog);
    assert!(value_eq(&r.unwrap(), &Value::Null));
}

#[test]
fn len_of_collections() {
    let (r, _) = run(program(vec![call("len", vec![three_elem_array()])]));
    assert!(value_eq(&r.unwrap(), &Value::Int(3)));
    let (r2, _) = run(program(vec![call(
        "len",
        vec![node(Rule::Str, "hello", vec![])],
    )]));
    assert!(value_eq(&r2.unwrap(), &Value::Int(5)));
    // String length is the utf-8 byte count, not the character count.
    let (r3, _) = run(program(vec![call(
        "len",
        vec![node(Rule::Str, "caf\u{e9}", vec![])],
    )]));
    assert!(value_eq(&r3.unwrap(), &Value::Int(5)));
}

#[test]
fn add_wraps_on_overflow() {
    let (r, _) = run(program(vec![call(
        "+",
        vec![num("9223372036854775807"), num("1")],
    )]));
    assert!(value_eq(&r.unwrap(), &Value::Int(i64::MIN)));
}

#[test]
fn or_of_booleans() {
    let prog = program(vec![call(
        "or",
        vec![
            node(Rule::Boolean, "False", vec![]),
            node(Rule::Boolean, "True", vec![]),
        ],
    )]);
    let (r, _) = run(prog);
    assert!(value_eq(&r.unwrap(), &Value::Boolean(true)));
}

#[test]
fn print_writes_value_and_newline() {
    let prog = program(vec![call("print", vec![num("42")])]);
    let (r, env) = run(prog);
    r.unwrap();
    assert_eq!(output_text(&env), "42\n");
}

#[test]
fn nested_calls_stay_flat_until_dispatch() {
    let prog = program(vec![call(
        "+",
        vec![num("1"), call("+", vec![num("2"), num("3")])],
    )]);
    let (r, _) = run(prog);
    assert!(value_eq(&r.unwrap(), &Value::Int(6)));
}

#[test]
fn braces_collect_a_generic_composite() {
    // The generic composite markers are unused by the converter but the
    // evaluator must support the symmetric push and pop-as-nested-array.
    let mut queue: VecDeque<Value> = VecDeque::new();
    queue.push_back(Value::OpenBrace);
    queue.push_back(Value::Int(1));
    queue.push_back(Value::Int(2));
    queue.push_back(Value::CloseBrace);
    let mut env = Environment::new();
    let r = lcore_interpret(&mut queue, &mut env).unwrap();
    let expected = Value::Array(vec![Value::Int(1), Value::Int(2)]);
    assert!(value_eq(&r, &expected));
}

#[test]
fn quasiquote_markers_pass_through_unevaluated() {
    let mut queue: VecDeque<Value> = VecDeque::new();
    queue.push_back(Value::BackTick);
    let mut env = Environment::new();
    let r = lcore_interpret(&mut queue, &mut env).unwrap();
    assert!(matches!(r, Value::BackTick));
}

#[test]
fn error_keeps_committed_global_bindings() {
    let prog = program(vec![
        call("set", vec![quoted(ident("x")), num("5")]),
        ident("missing"),
    ]);
    let (r, env) = run(prog);
    assert!(matches!(r, Err(LCoreError::NameError(_))));
    assert!(value_eq(env.get(&"x".to_string()).unwrap(), &Value::Int(5)));
}

#[test]
fn call_with_identifier_argument_resolves_it() {
    let prog = program(vec![
        call("set", vec![quoted(ident("x")), num("5")]),
        call("+", vec![ident("x"), num("1")]),
    ]);
    let (r, _) = run(prog);
    assert!(value_eq(&r.unwrap(), &Value::Int(6)));
}

#[test]
fn swap_error_kinds_follow_the_failure() {
    // An out-of-bounds integer index is an argument error; a non-integer
    // step on an array is an index error.
    let oob = program(vec![
        call("set", vec![quoted(ident("xs")), three_elem_array()]),
        call(
            "swap",
            vec![
                quoted(ident("xs")),
                quoted(node(Rule::Array, "", vec![num("9")])),
                num("0"),
            ],
        ),
    ]);
    let (r, _) = run(oob);
    assert!(matches!(r, Err(LCoreError::ArgumentError(_))));

    let nonint = program(vec![
        call("set", vec![quoted(ident("xs")), three_elem_array()]),
        call(
            "swap",
            vec![
                quoted(ident("xs")),
                quoted(node(Rule::Array, "", vec![node(Rule::Str, "k", vec![])])),
                num("0"),
            ],
        ),
    ]);
    let (r2, _) = run(nonint);
    assert!(matches!(r2, Err(LCoreError::IndexError(_))));
}
