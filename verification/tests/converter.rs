use std::collections::VecDeque;

use lambda_core::count_newlines;
use lambda_core::env::Environment;
use lambda_core::env::SymTab;
use lambda_core::fmtval::format_value;
use lambda_core::parse::lcore_parse;
use lambda_core::parse::parse_i64;
use lambda_core::parse::ParseNode;
use lambda_core::parse::Rule;
use lambda_core::value::value_eq;
use lambda_core::value::Value;

fn node(rule: Rule, text: &str, children: Vec<ParseNode>) -> ParseNode {
    ParseNode { rule, text: text.to_string(), children }
}

#[test]
fn count_newlines_counts_bytes() {
    assert_eq!(count_newlines(""), 0);
    assert_eq!(count_newlines("a\nb\n\nc"), 3);
}

#[test]
fn newline_nodes_emit_nothing_and_count() {
    let prog = node(
        Rule::Program,
        "",
        vec![
            node(Rule::NewLine, "\n", vec![]),
            node(Rule::Number, "7", vec![]),
            node(Rule::NewLine, "\n", vec![]),
        ],
    );
    let mut queue: VecDeque<Value> = VecDeque::new();
    let loc = lcore_parse(&prog, &mut queue).unwrap();
    assert_eq!(loc, 2);
    assert_eq!(queue.len(), 1);
    assert!(value_eq(&queue[0], &Value::Int(7)));
}

#[test]
fn number_with_dot_becomes_float() {
    let mut queue: VecDeque<Value> = VecDeque::new();
    lcore_parse(&node(Rule::Number, "2.5", vec![]), &mut queue).unwrap();
    assert!(value_eq(&queue[0], &Value::Float("2.5".to_string())));
}

#[test]
fn malformed_integer_is_rejected() {
    let mut queue: VecDeque<Value> = VecDeque::new();
    assert!(lcore_parse(&node(Rule::Number, "12x", vec![]), &mut queue).is_err());
}

#[test]
fn parse_i64_covers_the_range() {
    assert_eq!(parse_i64(&"0".to_string()), Some(0));
    assert_eq!(parse_i64(&"-9223372036854775808".to_string()), Some(i64::MIN));
    assert_eq!(parse_i64(&"9223372036854775807".to_string()), Some(i64::MAX));
    assert_eq!(parse_i64(&"9223372036854775808".to_string()), None);
    assert_eq!(parse_i64(&"-9223372036854775809".to_string()), None);
    assert_eq!(parse_i64(&"".to_string()), None);
    assert_eq!(parse_i64(&"-".to_string()), None);
    assert_eq!(parse_i64(&"12 3".to_string()), None);
}

#[test]
fn function_nodes_stay_flat_between_markers() {
    let prog = node(
        Rule::Function,
        "",
        vec![
            node(Rule::Identifier, "print", vec![]),
            node(Rule::Number, "1", vec![]),
            node(Rule::Number, "2", vec![]),
        ],
    );
    let mut queue: VecDeque<Value> = VecDeque::new();
    lcore_parse(&prog, &mut queue).unwrap();
    assert_eq!(queue.len(), 5);
    assert!(matches!(queue[0], Value::OpenFunc));
    assert!(value_eq(&queue[1], &Value::Identifier("print".to_string())));
    assert!(value_eq(&queue[2], &Value::Int(1)));
    assert!(value_eq(&queue[3], &Value::Int(2)));
    assert!(matches!(queue[4], Value::CloseFunc));
}

#[test]
fn array_literals_arrive_pre_materialized() {
    let prog = node(
        Rule::Array,
        "",
        vec![node(Rule::Number, "1", vec![]), node(Rule::Number, "2", vec![])],
    );
    let mut queue: VecDeque<Value> = VecDeque::new();
    lcore_parse(&prog, &mut queue).unwrap();
    assert_eq!(queue.len(), 1);
    let expected = Value::Array(vec![Value::Int(1), Value::Int(2)]);
    assert!(value_eq(&queue[0], &expected));
}

#[test]
fn quote_must_reduce_to_one_value() {
    let empty_quote = node(Rule::Quote, "", vec![]);
    let mut queue: VecDeque<Value> = VecDeque::new();
    assert!(lcore_parse(&empty_quote, &mut queue).is_err());

    let double_quote = node(
        Rule::Quote,
        "",
        vec![node(Rule::Number, "1", vec![]), node(Rule::Number, "2", vec![])],
    );
    let mut queue2: VecDeque<Value> = VecDeque::new();
    assert!(lcore_parse(&double_quote, &mut queue2).is_err());
}

#[test]
fn callee_less_call_is_rejected() {
    let bad = node(Rule::Function, "", vec![]);
    let mut queue: VecDeque<Value> = VecDeque::new();
    assert!(lcore_parse(&bad, &mut queue).is_err());
}

#[test]
fn boolean_lexemes_any_case() {
    let mut queue: VecDeque<Value> = VecDeque::new();
    lcore_parse(&node(Rule::Boolean, "TRUE", vec![]), &mut queue).unwrap();
    assert!(value_eq(&queue[0], &Value::Boolean(true)));
    lcore_parse(&node(Rule::Boolean, "false", vec![]), &mut queue).unwrap();
    assert!(value_eq(&queue[1], &Value::Boolean(false)));
    assert!(lcore_parse(&node(Rule::Boolean, "yes", vec![]), &mut queue).is_err());
}

#[test]
fn formatting_of_each_kind() {
    assert_eq!(format_value(&Value::Int(-5), false), "-5");
    assert_eq!(format_value(&Value::Int(1234567890), false), "1234567890");
    assert_eq!(format_value(&Value::Null, false), "Null");
    assert_eq!(format_value(&Value::Boolean(true), false), "True");
    assert_eq!(format_value(&Value::Str("hi".to_string()), false), "hi");
    assert_eq!(format_value(&Value::Str("hi".to_string()), true), "\"hi\"");
    let arr = Value::Array(vec![Value::Int(1), Value::Str("x".to_string())]);
    assert_eq!(format_value(&arr, false), "[1 \"x\"]");
    let d = Value::Dict(vec![(Value::Str("a".to_string()), Value::Int(1))]);
    assert_eq!(format_value(&d, false), "{ \"a\": 1 }");
    let q = Value::Quote(Box::new(Value::Identifier("sym".to_string())));
    assert_eq!(format_value(&q, false), "(quote sym)");
}

#[test]
fn environment_extend_adds_to_global_scope() {
    let mut env = Environment::new();
    env.insert("kept".to_string(), Value::Int(1));
    env.push();
    let mut bindings = SymTab::new();
    bindings.entries.push(("imported".to_string(), Value::Int(7)));
    env.extend(bindings);
    env.pop();
    assert!(value_eq(env.get(&"imported".to_string()).unwrap(), &Value::Int(7)));
    assert!(value_eq(env.get(&"kept".to_string()).unwrap(), &Value::Int(1)));
}

#[test]
fn environment_update_rebinds_in_defining_scope() {
    let mut env = Environment::new();
    env.insert("x".to_string(), Value::Int(1));
    env.push();
    let prior = env.update(&"x".to_string(), Value::Int(2));
    assert!(value_eq(&prior.unwrap(), &Value::Int(1)));
    env.pop();
    assert!(value_eq(env.get(&"x".to_string()).unwrap(), &Value::Int(2)));
}
