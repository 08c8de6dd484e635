//! The native callables. Each one follows the fixed calling convention:
//! it receives the evaluated call arguments as one `Array` value together
//! with the environment, and returns one value or a structured error.

use vstd::prelude::*;

use std::collections::VecDeque;

use crate::env::lemma_output_extended_trans;
use crate::env::module_find;
use crate::env::SymTab;
use crate::env::output_extended;
use crate::env::Environment;
use crate::eval::interpret_depth;
use crate::error::LCoreError;
use crate::fmtval::fmt_value;
use crate::fmtval::format_value;
use crate::value::dict_pair_in;
use crate::value::value_eq;
use crate::value::veq;
use crate::value::Builtin;
use crate::value::Value;

verus! {

broadcast use vstd::std_specs::vec::group_vec_axioms, vstd::string::group_string_axioms;

/// The argument list a builtin received.
pub open spec fn argv(args: Value) -> Seq<Value> {
    args->Array_0@
}

/// An argument error with the given message.
fn arg_err(msg: &str) -> (e: LCoreError)
    ensures
        e is ArgumentError,
{
    LCoreError::ArgumentError(msg.to_owned())
}

/// Two values the `=` builtin is willing to compare: the same data kind on
/// both sides.
pub open spec fn comparable(a: Value, b: Value) -> bool {
    ||| (a is Null && b is Null)
    ||| (a is Int && b is Int)
    ||| (a is Float && b is Float)
    ||| (a is Str && b is Str)
    ||| (a is Boolean && b is Boolean)
    ||| (a is Identifier && b is Identifier)
    ||| (a is Dict && b is Dict)
    ||| (a is Array && b is Array)
    ||| (a is Quote && b is Quote)
    ||| (a is Func && b is Func)
}

/// Structural equality of two argument values: `Ok(Boolean)` holding
/// exactly their structural equality when both have the same kind, an
/// argument error otherwise. Native callables compare by identity.
pub fn lcore_equals(args: Value, symbol_table: &mut Environment) -> (r: Result<Value, LCoreError>)
    ensures
        *final(symbol_table) == *old(symbol_table),
        r is Ok <==> (args is Array && argv(args).len() >= 2 && comparable(
            argv(args)[0],
            argv(args)[1],
        )),
        r matches Ok(v) ==> v is Boolean && v->Boolean_0 == veq(argv(args)[0], argv(args)[1]),
        r matches Err(e) ==> e is ArgumentError,
{
    match &args {
        Value::Array(a) => {
            if a.len() < 2 {
                return Result::Err(arg_err("equality needs two arguments"));
            }
            let x = &a[0];
            let y = &a[1];
            let same_kind = match (x, y) {
                (Value::Null, Value::Null) => true,
                (Value::Int(_), Value::Int(_)) => true,
                (Value::Float(_), Value::Float(_)) => true,
                (Value::Str(_), Value::Str(_)) => true,
                (Value::Boolean(_), Value::Boolean(_)) => true,
                (Value::Identifier(_), Value::Identifier(_)) => true,
                (Value::Dict(_), Value::Dict(_)) => true,
                (Value::Array(_), Value::Array(_)) => true,
                (Value::Quote(_), Value::Quote(_)) => true,
                (Value::Func(_), Value::Func(_)) => true,
                _ => false,
            };
            if !same_kind {
                return Result::Err(arg_err("type mismatch in equality"));
            }
            Result::Ok(Value::Boolean(value_eq(x, y)))
        },
        _ => Result::Err(arg_err("arguments must arrive as an array")),
    }
}

/// Structural inequality: the negation of `=`, with the same argument
/// demands.
pub fn lcore_not_equals(args: Value, symbol_table: &mut Environment) -> (r: Result<
    Value,
    LCoreError,
>)
    ensures
        *final(symbol_table) == *old(symbol_table),
        r is Ok <==> (args is Array && argv(args).len() >= 2 && comparable(
            argv(args)[0],
            argv(args)[1],
        )),
        r matches Ok(v) ==> v is Boolean && v->Boolean_0 == !veq(argv(args)[0], argv(args)[1]),
        r matches Err(e) ==> e is ArgumentError,
{
    match lcore_equals(args, symbol_table) {
        Result::Ok(v) => {
            match v {
                Value::Boolean(b) => Result::Ok(Value::Boolean(!b)),
                _ => Result::Err(arg_err("type mismatch in equality")),
            }
        },
        Result::Err(e) => Result::Err(e),
    }
}

/// Boolean disjunction of exactly two boolean arguments.
pub fn lcore_logical_or(args: Value, symbol_table: &mut Environment) -> (r: Result<
    Value,
    LCoreError,
>)
    ensures
        *final(symbol_table) == *old(symbol_table),
        r is Ok <==> (args is Array && argv(args).len() >= 2 && argv(args)[0] is Boolean && argv(
            args,
        )[1] is Boolean),
        r matches Ok(v) ==> v is Boolean && v->Boolean_0 == (argv(args)[0]->Boolean_0 || argv(
            args,
        )[1]->Boolean_0),
        r matches Err(e) ==> e is ArgumentError,
{
    match &args {
        Value::Array(a) => {
            if a.len() < 2 {
                return Result::Err(arg_err("or needs two arguments"));
            }
            match (&a[0], &a[1]) {
                (Value::Boolean(x), Value::Boolean(y)) => Result::Ok(Value::Boolean(*x || *y)),
                _ => Result::Err(arg_err("or needs two booleans")),
            }
        },
        _ => Result::Err(arg_err("arguments must arrive as an array")),
    }
}

/// The additive result of two 64-bit integers, wrapping on overflow.
pub open spec fn wrap_add64(a: int, b: int) -> int {
    if a + b > i64::MAX {
        a + b - 0x10000000000000000
    } else if a + b < i64::MIN {
        a + b + 0x10000000000000000
    } else {
        a + b
    }
}

/// Integer addition, wrapping on overflow. Float arithmetic is left to the
/// host and reports an argument error here.
pub fn lcore_add(args: Value, symbol_table: &mut Environment) -> (r: Result<Value, LCoreError>)
    ensures
        *final(symbol_table) == *old(symbol_table),
        r is Ok <==> (args is Array && argv(args).len() >= 2 && argv(args)[0] is Int && argv(
            args,
        )[1] is Int),
        r matches Ok(v) ==> v is Int && v->Int_0 as int == wrap_add64(
            argv(args)[0]->Int_0 as int,
            argv(args)[1]->Int_0 as int,
        ),
        r matches Err(e) ==> e is ArgumentError,
{
    match &args {
        Value::Array(a) => {
            if a.len() < 2 {
                return Result::Err(arg_err("addition needs two arguments"));
            }
            match (&a[0], &a[1]) {
                (Value::Int(x), Value::Int(y)) => Result::Ok(Value::Int(x.wrapping_add(*y))),
                _ => Result::Err(arg_err("addition needs two integers")),
            }
        },
        _ => Result::Err(arg_err("arguments must arrive as an array")),
    }
}


/// How many bytes one character occupies in the utf-8 encoding.
pub open spec fn char_utf8_len(c: char) -> nat {
    if (c as int) < 0x80 {
        1
    } else if (c as int) < 0x800 {
        2
    } else if (c as int) < 0x10000 {
        3
    } else {
        4
    }
}

/// The utf-8 byte length of a text, which is what the length builtin
/// reports for strings.
pub open spec fn utf8_len(s: Seq<char>) -> nat
    decreases s.len(),
{
    if s.len() == 0 {
        0
    } else {
        utf8_len(s.drop_last()) + char_utf8_len(s.last())
    }
}

/// A longer text never has fewer bytes.
proof fn lemma_utf8_len_prefix_le(s: Seq<char>, i: int, j: int)
    requires
        0 <= i <= j <= s.len(),
    ensures
        utf8_len(s.take(i)) <= utf8_len(s.take(j)),
    decreases j - i,
{
    if i < j {
        lemma_utf8_len_prefix_le(s, i, j - 1);
        assert(s.take(j).drop_last() =~= s.take(j - 1));
    }
}

/// The utf-8 byte length of a string, when it fits a 64-bit signed count.
#[verifier::loop_isolation(false)]
fn str_byte_len(v: &String) -> (r: Option<i64>)
    ensures
        (r is Some) == (utf8_len(v@) <= i64::MAX),
        r matches Some(m) ==> m as int == utf8_len(v@),
{
    let n = v.as_str().unicode_len();
    let mut total: u64 = 0;
    let mut i: usize = 0;
    proof {
        assert(v@.take(0) =~= Seq::<char>::empty());
    }
    while i < n
        invariant
            i <= n,
            total == utf8_len(v@.take(i as int)),
            total <= i64::MAX,
        decreases n - i,
    {
        let c = v.as_str().get_char(i);
        let u = c as u32;
        let clen: u64 = if u < 0x80 {
            1
        } else if u < 0x800 {
            2
        } else if u < 0x10000 {
            3
        } else {
            4
        };
        proof {
            assert(v@.take(i + 1).drop_last() =~= v@.take(i as int));
            assert(v@.take(i + 1).last() == v@[i as int]);
            assert(clen as int == char_utf8_len(v@[i as int]));
        }
        if total > 9223372036854775807u64 - clen {
            proof {
                lemma_utf8_len_prefix_le(v@, i + 1, v@.len() as int);
                assert(v@.take(v@.len() as int) =~= v@);
            }
            return Option::None;
        }
        total = total + clen;
        i = i + 1;
    }
    proof {
        assert(v@.take(n as int) =~= v@);
    }
    Option::Some(total as i64)
}

/// The length of a collection value: element count of an array or
/// dictionary, utf-8 byte count of a string, one for a quote.
pub fn lcore_len(args: Value, symbol_table: &mut Environment) -> (r: Result<Value, LCoreError>)
    ensures
        *final(symbol_table) == *old(symbol_table),
        r is Ok <==> (args is Array && argv(args).len() >= 1 && ({
            let v = argv(args)[0];
            (v is Array && v->Array_0@.len() <= i64::MAX) || (v is Dict && v->Dict_0@.len()
                <= i64::MAX) || (v is Str && utf8_len(v->Str_0@) <= i64::MAX) || v is Quote
        })),
        r matches Ok(v) ==> v is Int && ({
            let x = argv(args)[0];
            v->Int_0 as int == (if x is Array {
                x->Array_0@.len() as int
            } else if x is Dict {
                x->Dict_0@.len() as int
            } else if x is Str {
                utf8_len(x->Str_0@) as int
            } else {
                1
            })
        }),
        r matches Err(e) ==> e is ArgumentError,
{
    match &args {
        Value::Array(a) => {
            if a.len() < 1 {
                return Result::Err(arg_err("length needs one argument"));
            }
            match &a[0] {
                Value::Array(v) => {
                    if v.len() as u64 > 9223372036854775807u64 {
                        return Result::Err(arg_err("length out of range"));
                    }
                    Result::Ok(Value::Int(v.len() as i64))
                },
                Value::Dict(v) => {
                    if v.len() as u64 > 9223372036854775807u64 {
                        return Result::Err(arg_err("length out of range"));
                    }
                    Result::Ok(Value::Int(v.len() as i64))
                },
                Value::Str(v) => {
                    match str_byte_len(v) {
                        Option::Some(m) => Result::Ok(Value::Int(m)),
                        Option::None => Result::Err(arg_err("length out of range")),
                    }
                },
                Value::Quote(_) => Result::Ok(Value::Int(1)),
                _ => Result::Err(arg_err("value has no length")),
            }
        },
        _ => Result::Err(arg_err("arguments must arrive as an array")),
    }
}

/// Marks the run as finished: evaluation stops consuming tokens and the
/// host process may exit.
pub fn lcore_quit(args: Value, symbol_table: &mut Environment) -> (r: Result<Value, LCoreError>)
    ensures
        final(symbol_table).scopes@ == old(symbol_table).scopes@,
        final(symbol_table).output == old(symbol_table).output,
        final(symbol_table).modules == old(symbol_table).modules,
        final(symbol_table).halted,
        r matches Ok(v) && v is Null,
{
    symbol_table.halt();
    Result::Ok(Value::Null)
}

/// The placeholder string conversion of the builtin vocabulary.
pub fn lcore_to_str(args: Value, symbol_table: &mut Environment) -> (r: Result<Value, LCoreError>)
    ensures
        *final(symbol_table) == *old(symbol_table),
        r matches Ok(v) && v is Str && v->Str_0@ == "LambdaCore String!"@,
{
    Result::Ok(Value::Str("LambdaCore String!".to_owned()))
}

/// The name a `set`/`defn` target denotes: a bare identifier or a quoted
/// identifier captures that name; anything else captures nothing.
pub open spec fn bind_target(v: Value) -> Option<Seq<char>> {
    match v {
        Value::Identifier(s) => Option::Some(s@),
        Value::Quote(b) => match *b {
            Value::Identifier(s) => Option::Some(s@),
            _ => Option::None,
        },
        _ => Option::None,
    }
}

/// Binds a name to a value in the innermost scope. The name arrives bare
/// or quoted; quoting defers evaluation so the raw name is captured.
pub fn lcore_set(args: Value, symbol_table: &mut Environment) -> (r: Result<Value, LCoreError>)
    requires
        old(symbol_table).wf(),
    ensures
        final(symbol_table).wf(),
        final(symbol_table).scopes@.len() == old(symbol_table).scopes@.len(),
        final(symbol_table).scopes@.drop_last() == old(symbol_table).scopes@.drop_last(),
        final(symbol_table).output == old(symbol_table).output,
        final(symbol_table).halted == old(symbol_table).halted,
        final(symbol_table).modules == old(symbol_table).modules,
        r is Ok <==> (args is Array && argv(args).len() >= 2),
        r matches Ok(v) ==> v is Null,
        r matches Err(e) ==> e is ArgumentError && *final(symbol_table) == *old(symbol_table),
        (args is Array && argv(args).len() >= 2) ==> (match bind_target(argv(args)[0]) {
            Option::Some(name) => final(symbol_table).lookup(name) == Option::Some(argv(args)[1])
                && (forall|n: Seq<char>|
                n != name ==> final(symbol_table).lookup(n) == old(symbol_table).lookup(n)),
            Option::None => *final(symbol_table) == *old(symbol_table),
        }),
{
    match args {
        Value::Array(mut a) => {
            if a.len() < 2 {
                return Result::Err(arg_err("set needs a name and a value"));
            }
            let var = a.remove(0);
            let value = a.remove(0);
            match var {
                Value::Identifier(s) => {
                    symbol_table.insert(s, value);
                    Result::Ok(Value::Null)
                },
                Value::Quote(b) => {
                    match *b {
                        Value::Identifier(s) => {
                            symbol_table.insert(s, value);
                            Result::Ok(Value::Null)
                        },
                        _ => Result::Ok(Value::Null),
                    }
                },
                _ => Result::Ok(Value::Null),
            }
        },
        _ => Result::Err(arg_err("arguments must arrive as an array")),
    }
}

/// Stores a user-defined callable: the two-element array of its parameter
/// names and its quoted body, bound under the given name.
pub fn lcore_defn(args: Value, symbol_table: &mut Environment) -> (r: Result<Value, LCoreError>)
    requires
        old(symbol_table).wf(),
    ensures
        final(symbol_table).wf(),
        final(symbol_table).scopes@.len() == old(symbol_table).scopes@.len(),
        final(symbol_table).scopes@.drop_last() == old(symbol_table).scopes@.drop_last(),
        final(symbol_table).output == old(symbol_table).output,
        final(symbol_table).halted == old(symbol_table).halted,
        final(symbol_table).modules == old(symbol_table).modules,
        r is Ok <==> (args is Array && argv(args).len() >= 3 && argv(args)[2] is Quote),
        r matches Ok(v) ==> v is Null,
        r matches Err(e) ==> e is ArgumentError && *final(symbol_table) == *old(symbol_table),
        (args is Array && argv(args).len() >= 3 && argv(args)[2] is Quote) ==> (match bind_target(
            argv(args)[0],
        ) {
            Option::Some(name) => (final(symbol_table).lookup(name) matches Option::Some(w)
                && w is Array && w->Array_0@ == seq![argv(args)[1], *argv(args)[2]->Quote_0]) && (
            forall|n: Seq<char>|
                n != name ==> final(symbol_table).lookup(n) == old(symbol_table).lookup(n)),
            Option::None => *final(symbol_table) == *old(symbol_table),
        }),
{
    match args {
        Value::Array(mut a) => {
            if a.len() < 3 {
                return Result::Err(arg_err("defn needs a name, parameters, and a body"));
            }
            let name = a.remove(0);
            let params = a.remove(0);
            let body = a.remove(0);
            let inner = match body {
                Value::Quote(b) => *b,
                _ => {
                    return Result::Err(arg_err("defn body must be quoted"));
                },
            };
            let def = Value::Array(vec![params, inner]);
            proof {
                assert(def->Array_0@ =~= seq![argv(args)[1], *argv(args)[2]->Quote_0]);
            }
            match name {
                Value::Identifier(s) => {
                    symbol_table.insert(s, def);
                    Result::Ok(Value::Null)
                },
                Value::Quote(b) => {
                    match *b {
                        Value::Identifier(s) => {
                            symbol_table.insert(s, def);
                            Result::Ok(Value::Null)
                        },
                        _ => Result::Ok(Value::Null),
                    }
                },
                _ => Result::Ok(Value::Null),
            }
        },
        _ => Result::Err(arg_err("arguments must arrive as an array")),
    }
}

/// Renders the single argument into the output buffer, without a newline.
pub fn lcore_print_value(args: &Value, symbol_table: &mut Environment) -> (r: Result<
    Value,
    LCoreError,
>)
    ensures
        final(symbol_table).scopes@ == old(symbol_table).scopes@,
        final(symbol_table).halted == old(symbol_table).halted,
        final(symbol_table).modules == old(symbol_table).modules,
        r is Ok <==> (*args is Array && argv(*args).len() == 1),
        r matches Ok(v) ==> v is Null,
        r is Ok ==> final(symbol_table).output@.len() == old(symbol_table).output@.len() + 1
            && final(symbol_table).output@.last()@ == fmt_value(argv(*args)[0], false) && final(symbol_table).output@.take(old(symbol_table).output@.len() as int) == old(symbol_table).output@,
        r matches Err(e) ==> e is ArgumentError && *final(symbol_table) == *old(symbol_table),
{
    match args {
        Value::Array(a) => {
            if a.len() > 1 {
                return Result::Err(arg_err("Can only print 1 value at a time right now."));
            }
            if a.len() == 0 {
                return Result::Err(arg_err("print needs one argument"));
            }
            let chunk = format_value(&a[0], false);
            symbol_table.emit(chunk);
            proof {
                assert(final(symbol_table).output@.take(old(symbol_table).output@.len() as int)
                    =~= old(symbol_table).output@);
            }
            Result::Ok(Value::Null)
        },
        _ => Result::Err(arg_err("arguments must arrive as an array")),
    }
}

/// Prints the single argument without a trailing newline. A malformed
/// argument list prints nothing; the call still succeeds.
pub fn lcore_prin(args: Value, symbol_table: &mut Environment) -> (r: Result<Value, LCoreError>)
    ensures
        final(symbol_table).scopes@ == old(symbol_table).scopes@,
        final(symbol_table).halted == old(symbol_table).halted,
        final(symbol_table).modules == old(symbol_table).modules,
        r matches Ok(v) && v is Null,
        (args is Array && argv(args).len() == 1) ==> final(symbol_table).output@.len() == old(symbol_table).output@.len() + 1 && final(symbol_table).output@.last()@ == fmt_value(
            argv(args)[0],
            false,
        ) && final(symbol_table).output@.take(old(symbol_table).output@.len() as int) == old(symbol_table).output@,
        !(args is Array && argv(args).len() == 1) ==> *final(symbol_table) == *old(symbol_table),
{
    let _ignored = lcore_print_value(&args, symbol_table);
    Result::Ok(Value::Null)
}

/// Prints the single argument and then a newline. The newline is printed
/// even when the argument list is malformed.
pub fn lcore_print(args: Value, symbol_table: &mut Environment) -> (r: Result<Value, LCoreError>)
    ensures
        final(symbol_table).scopes@ == old(symbol_table).scopes@,
        final(symbol_table).halted == old(symbol_table).halted,
        final(symbol_table).modules == old(symbol_table).modules,
        r matches Ok(v) && v is Null,
        (args is Array && argv(args).len() == 1) ==> final(symbol_table).output@.len() == old(symbol_table).output@.len() + 2 && final(symbol_table).output@[final(symbol_table).output@.len() - 2]@
            == fmt_value(argv(args)[0], false) && final(symbol_table).output@.last()@ == "\n"@
            && final(symbol_table).output@.take(old(symbol_table).output@.len() as int) == old(symbol_table).output@,
        !(args is Array && argv(args).len() == 1) ==> final(symbol_table).output@ == old(symbol_table).output@.push(final(symbol_table).output@.last()) && final(symbol_table).output@.last()@ == "\n"@,
{
    let mid = Ghost(*symbol_table);
    let _ignored = lcore_print_value(&args, symbol_table);
    symbol_table.emit("\n".to_owned());
    proof {
        assert(final(symbol_table).output@.take(old(symbol_table).output@.len() as int) =~= old(symbol_table).output@);
    }
    Result::Ok(Value::Null)
}

/// Copies a scope's bindings: names by text, values structurally.
fn dup_entries(e: &Vec<(String, Value)>) -> (r: Vec<(String, Value)>)
    ensures
        r@.len() == e@.len(),
        forall|t: int|
            #![trigger r@[t]]
            0 <= t < e@.len() ==> r@[t].0@ == e@[t].0@ && veq(r@[t].1, e@[t].1),
{
    let mut out: Vec<(String, Value)> = Vec::new();
    let mut i: usize = 0;
    while i < e.len()
        invariant
            i <= e@.len(),
            out@.len() == i,
            forall|t: int|
                #![trigger out@[t]]
                0 <= t < i ==> out@[t].0@ == e@[t].0@ && veq(out@[t].1, e@[t].1),
        decreases e@.len() - i,
    {
        let name = e[i].0.clone();
        let value = e[i].1.dup();
        out.push((name, value));
        i = i + 1;
    }
    out
}

/// Imports a module: the host preloads each module's top-level bindings
/// under its path (`Environment::install_module`), and an in-program
/// import of that path extends the caller's global scope with them,
/// purely additively. A path with no preloaded module is an error; file
/// reading and parsing stay with the host.
pub fn lcore_import(args: Value, symbol_table: &mut Environment) -> (r: Result<Value, LCoreError>)
    requires
        old(symbol_table).wf(),
    ensures
        final(symbol_table).wf(),
        final(symbol_table).scopes@.len() == old(symbol_table).scopes@.len(),
        final(symbol_table).output == old(symbol_table).output,
        final(symbol_table).halted == old(symbol_table).halted,
        final(symbol_table).modules == old(symbol_table).modules,
        r is Ok <==> (args is Array && argv(args).len() >= 1 && (!(argv(args)[0] is Str)
            || module_find(old(symbol_table).modules@, argv(args)[0]->Str_0@) is Some)),
        r matches Ok(v) ==> v is Null,
        !(args is Array && argv(args).len() >= 1) ==> (r matches Err(e) && e is ArgumentError
            && *final(symbol_table) == *old(symbol_table)),
        (args is Array && argv(args).len() >= 1 && !(argv(args)[0] is Str)) ==> *final(symbol_table) == *old(symbol_table),
        (args is Array && argv(args).len() >= 1 && argv(args)[0] is Str) ==> (match module_find(
            old(symbol_table).modules@,
            argv(args)[0]->Str_0@,
        ) {
            Option::Some(m) => {
                &&& final(symbol_table).scopes@[0].entries@.len() == old(symbol_table).scopes@[0].entries@.len() + m.entries@.len()
                &&& final(symbol_table).scopes@[0].entries@.take(
                    old(symbol_table).scopes@[0].entries@.len() as int,
                ) == old(symbol_table).scopes@[0].entries@
                &&& (forall|t: int|
                    0 <= t < m.entries@.len() ==> #[trigger] final(symbol_table).scopes@[0].entries@[old(symbol_table).scopes@[0].entries@.len() + t].0@
                        == m.entries@[t].0@ && veq(
                        final(symbol_table).scopes@[0].entries@[old(symbol_table).scopes@[0].entries@.len() + t].1,
                        m.entries@[t].1,
                    ))
                &&& (forall|t: int|
                    1 <= t < old(symbol_table).scopes@.len() ==> #[trigger] final(symbol_table).scopes@[t] == old(symbol_table).scopes@[t])
            },
            Option::None => r matches Err(e) && e is LambdaCoreError && *final(symbol_table)
                == *old(symbol_table),
        }),
{
    match &args {
        Value::Array(a) => {
            if a.len() < 1 {
                return Result::Err(
                    arg_err("ArgumentError: Not enough arguments on call to \"import\": 0/1"),
                );
            }
            match &a[0] {
                Value::Str(path) => {
                    let copied: Option<Vec<(String, Value)>> = match symbol_table.find_module(
                        path,
                    ) {
                        Option::Some(m) => Option::Some(dup_entries(&m.entries)),
                        Option::None => Option::None,
                    };
                    match copied {
                        Option::Some(entries) => {
                            let bindings = SymTab { entries };
                            symbol_table.extend(bindings);
                            proof {
                                assert(final(symbol_table).scopes@[0].entries@.take(
                                    old(symbol_table).scopes@[0].entries@.len() as int,
                                ) =~= old(symbol_table).scopes@[0].entries@);
                            }
                            Result::Ok(Value::Null)
                        },
                        Option::None => Result::Err(
                            LCoreError::LambdaCoreError(
                                "import: no module is loaded under that path".to_owned(),
                            ),
                        ),
                    }
                },
                _ => Result::Ok(Value::Null),
            }
        },
        _ => Result::Err(arg_err("arguments must arrive as an array")),
    }
}

/// Entry replacement: the value of the first entry whose key structurally
/// equals `k` is replaced; with no such entry the pair is appended.
pub open spec fn dict_put(d: Seq<(Value, Value)>, k: Value, v: Value) -> Seq<(Value, Value)>
    decreases d.len(),
{
    if d.len() == 0 {
        seq![(k, v)]
    } else if veq(d[0].0, k) {
        seq![(d[0].0, v)] + d.skip(1)
    } else {
        seq![d[0]] + dict_put(d.skip(1), k, v)
    }
}

/// The dictionary the `dict` builtin constructs from alternating key and
/// value arguments: quoted identifiers become string keys, a quoted
/// non-identifier contributes nothing, and a repeated key keeps its first
/// position with the newest value.
pub open spec fn dict_build(args: Seq<Value>) -> Seq<(Value, Value)>
    decreases args.len(),
{
    if args.len() < 2 {
        Seq::<(Value, Value)>::empty()
    } else {
        let pre = dict_build(args.take(args.len() - 2));
        let k = args[args.len() - 2];
        let v = args[args.len() - 1];
        match k {
            Value::Quote(b) => match *b {
                Value::Identifier(s) => dict_put(pre, Value::Str(s), v),
                _ => pre,
            },
            _ => dict_put(pre, k, v),
        }
    }
}

/// Replacing the value at the first structurally matching key is an
/// in-place update of that entry.
proof fn lemma_dict_put_found(d: Seq<(Value, Value)>, k: Value, v: Value, j: int)
    requires
        0 <= j < d.len(),
        veq(d[j].0, k),
        forall|t: int| 0 <= t < j ==> !veq(#[trigger] d[t].0, k),
    ensures
        dict_put(d, k, v) == d.update(j, (d[j].0, v)),
    decreases j,
{
    if j == 0 {
        assert(seq![(d[0].0, v)] + d.skip(1) =~= d.update(0, (d[0].0, v)));
    } else {
        assert(!veq(d[0].0, k));
        assert(d.skip(1)[j - 1] == d[j]);
        assert forall|t: int| 0 <= t < j - 1 implies !veq(#[trigger] d.skip(1)[t].0, k) by {
            assert(d.skip(1)[t] == d[t + 1]);
        }
        lemma_dict_put_found(d.skip(1), k, v, j - 1);
        assert(seq![d[0]] + d.skip(1).update(j - 1, (d.skip(1)[j - 1].0, v)) =~= d.update(
            j,
            (d[j].0, v),
        ));
    }
}

/// With no structurally matching key, the new pair is appended.
proof fn lemma_dict_put_absent(d: Seq<(Value, Value)>, k: Value, v: Value)
    requires
        forall|t: int| 0 <= t < d.len() ==> !veq(#[trigger] d[t].0, k),
    ensures
        dict_put(d, k, v) == d.push((k, v)),
    decreases d.len(),
{
    if d.len() == 0 {
        assert(seq![(k, v)] =~= d.push((k, v)));
    } else {
        assert forall|t: int| 0 <= t < d.skip(1).len() implies !veq(
            #[trigger] d.skip(1)[t].0,
            k,
        ) by {
            assert(d.skip(1)[t] == d[t + 1]);
        }
        lemma_dict_put_absent(d.skip(1), k, v);
        assert(seq![d[0]] + d.skip(1).push((k, v)) =~= d.push((k, v)));
    }
}

/// Inserts a pair into an association list under structural key equality.
fn dict_put_exec(entries: &mut Vec<(Value, Value)>, k: Value, v: Value)
    ensures
        final(entries)@ == dict_put(old(entries)@, k, v),
{
    let mut j: usize = 0;
    while j < entries.len()
        invariant
            j <= entries@.len(),
            *entries == *old(entries),
            forall|t: int| 0 <= t < j ==> !veq(#[trigger] entries@[t].0, k),
        decreases entries@.len() - j,
    {
        if value_eq(&entries[j].0, &k) {
            let pair = entries.remove(j);
            entries.insert(j, (pair.0, v));
            proof {
                assert(final(entries)@ =~= old(entries)@.update(
                    j as int,
                    (old(entries)@[j as int].0, v),
                ));
                lemma_dict_put_found(old(entries)@, k, v, j as int);
            }
            return ;
        }
        j = j + 1;
    }
    entries.push((k, v));
    proof {
        lemma_dict_put_absent(old(entries)@, k, v);
    }
}

/// Builds a dictionary from an even count of alternating keys and values.
/// An odd argument count is an argument error.
#[verifier::loop_isolation(false)]
pub fn lcore_dict(args: Value, symbol_table: &mut Environment) -> (r: Result<Value, LCoreError>)
    ensures
        *final(symbol_table) == *old(symbol_table),
        r is Ok <==> (args is Array && argv(args).len() % 2 == 0),
        r matches Ok(v) ==> v is Dict && v->Dict_0@ == dict_build(argv(args)),
        r matches Err(e) ==> e is ArgumentError,
{
    match args {
        Value::Array(mut a) => {
            if a.len() % 2 != 0 {
                return Result::Err(
                    arg_err("ArgumentError: Odd number of arguments passed to \"dict\""),
                );
            }
            let full = Ghost(a@);
            let mut entries: Vec<(Value, Value)> = Vec::new();
            let mut i: usize = 0;
            proof {
                assert(full@.take(0) =~= Seq::<Value>::empty());
            }
            while a.len() >= 2
                invariant
                    2 * i + a@.len() == full@.len(),
                    a@ =~= full@.skip(2 * i),
                    a@.len() % 2 == 0,
                    entries@ == dict_build(full@.take(2 * i as int)),
                decreases a@.len(),
            {
                let k = a.remove(0);
                let v = a.remove(0);
                proof {
                    let p = full@.take(2 * i + 2);
                    assert(p.take(p.len() - 2) =~= full@.take(2 * i as int));
                    assert(p[p.len() - 2] == full@[2 * i as int]);
                    assert(p[p.len() - 1] == full@[2 * i + 1]);
                    assert(k == full@[2 * i as int]);
                    assert(v == full@[2 * i + 1]);
                }
                match k {
                    Value::Quote(b) => {
                        match *b {
                            Value::Identifier(s) => {
                                dict_put_exec(&mut entries, Value::Str(s), v);
                            },
                            _ => {},
                        }
                    },
                    k2 => {
                        dict_put_exec(&mut entries, k2, v);
                    },
                }
                i = i + 1;
                proof {
                    assert(a@ =~= full@.skip(2 * i as int));
                }
            }
            proof {
                assert(full@.take(2 * i as int) =~= full@);
            }
            Result::Ok(Value::Dict(entries))
        },
        _ => Result::Err(arg_err("arguments must arrive as an array")),
    }
}


/// The nonnegative remainder of a negative index modulo a positive
/// length, written in terms of the index's magnitude.
proof fn lemma_mod_of_negative(ki: int, li: int)
    requires
        li > 0,
        ki < 0,
    ensures
        ki % li == (if (-ki) % li == 0 {
            0int
        } else {
            li - ((-ki) % li)
        }),
{
    let m = -ki;
    vstd::arithmetic::div_mod::lemma_fundamental_div_mod(m, li);
    vstd::arithmetic::div_mod::lemma_mod_division_less_than_divisor(m, li);
    let qm = m / li;
    let rm = m % li;
    if rm == 0 {
        assert(ki == (-qm) * li + 0) by (nonlinear_arith)
            requires
                m == li * qm + rm,
                ki == -m,
                rm == 0,
        ;
        vstd::arithmetic::div_mod::lemma_fundamental_div_mod_converse_mod(ki, li, -qm, 0);
    } else {
        assert(ki == (-qm - 1) * li + (li - rm)) by (nonlinear_arith)
            requires
                m == li * qm + rm,
                ki == -m,
        ;
        vstd::arithmetic::div_mod::lemma_fundamental_div_mod_converse_mod(ki, li, -qm - 1, li - rm);
    }
}

/// A quoted key is unwrapped before indexing.
pub open spec fn norm_key(k: Value) -> Value {
    match k {
        Value::Quote(b) => *b,
        _ => k,
    }
}

/// The key form a dictionary lookup uses: an identifier looks up the
/// string key of that name; strings, numbers and booleans look up
/// themselves; nothing else may index a dictionary.
pub open spec fn dict_key(k: Value) -> Option<Value> {
    match k {
        Value::Identifier(s) => Option::Some(Value::Str(s)),
        Value::Str(_) => Option::Some(k),
        Value::Int(_) => Option::Some(k),
        Value::Float(_) => Option::Some(k),
        Value::Boolean(_) => Option::Some(k),
        _ => Option::None,
    }
}

/// The value of the first entry whose key structurally equals `k`.
pub open spec fn dict_find(d: Seq<(Value, Value)>, k: Value) -> Option<Value>
    decreases d.len(),
{
    if d.len() == 0 {
        Option::None
    } else if veq(d[0].0, k) {
        Option::Some(d[0].1)
    } else {
        dict_find(d.skip(1), k)
    }
}

/// A lookup only reads a string key's characters, so any string value
/// with the same text finds the same entry.
proof fn lemma_dict_find_str_key(d: Seq<(Value, Value)>, k1: Value, k2: Value)
    requires
        k1 is Str,
        k2 is Str,
        k1->Str_0@ == k2->Str_0@,
    ensures
        dict_find(d, k1) == dict_find(d, k2),
    decreases d.len(),
{
    if d.len() > 0 {
        lemma_dict_find_str_key(d.skip(1), k1, k2);
    }
}

/// Finds the first structurally matching key and hands back a copy of its
/// value.
#[verifier::loop_isolation(false)]
fn dict_find_exec(d: &Vec<(Value, Value)>, k: &Value) -> (r: Option<Value>)
    ensures
        match r {
            Option::Some(v) => dict_find(d@, *k) matches Option::Some(v0) && veq(v, v0),
            Option::None => dict_find(d@, *k) is None,
        },
{
    let mut j: usize = 0;
    proof {
        assert(d@.skip(0) =~= d@);
    }
    while j < d.len()
        invariant
            j <= d@.len(),
            dict_find(d@, *k) == dict_find(d@.skip(j as int), *k),
        decreases d@.len() - j,
    {
        proof {
            assert(d@.skip(j as int)[0] == d@[j as int]);
            assert(d@.skip(j as int).skip(1) =~= d@.skip(j + 1));
        }
        if value_eq(&d[j].0, k) {
            return Option::Some(d[j].1.dup());
        }
        j = j + 1;
    }
    proof {
        assert(d@.skip(d@.len() as int) =~= Seq::<(Value, Value)>::empty());
    }
    Option::None
}

/// Indexes a collection. An integer indexes an array with wrap-around
/// modulo its length, though an index beyond the length is refused; a
/// dictionary is looked up under structural key equality; an integer index
/// into a string is accepted and yields `Null`; a non-collection yields
/// `Null`.
#[verifier::loop_isolation(false)]
pub fn lcore_get(args: Value, symbol_table: &mut Environment) -> (r: Result<Value, LCoreError>)
    ensures
        *final(symbol_table) == *old(symbol_table),
        !(args is Array && argv(args).len() >= 2) ==> (r matches Err(e) && e is ArgumentError),
        (args is Array && argv(args).len() >= 2) ==> ({
            let obj = argv(args)[0];
            let key = norm_key(argv(args)[1]);
            &&& ((obj is Array && key is Int && obj->Array_0@.len() == 0) ==> (r matches Err(e)
                && e is IndexError))
            &&& ((obj is Array && key is Int && obj->Array_0@.len() > 0) ==> (if key->Int_0 as int
                > obj->Array_0@.len() as int || obj->Array_0@.len() > i64::MAX {
                r matches Err(e) && e is ArgumentError
            } else {
                r matches Ok(v) && veq(
                    v,
                    obj->Array_0@[(key->Int_0 as int) % (obj->Array_0@.len() as int)],
                )
            }))
            &&& ((obj is Array && !(key is Int)) ==> (r matches Err(e) && e is ArgumentError))
            &&& (obj is Dict ==> (match dict_key(key) {
                Option::Some(k2) => (match dict_find(obj->Dict_0@, k2) {
                    Option::Some(v0) => (r matches Ok(v) && veq(v, v0)),
                    Option::None => (r matches Err(e) && e is ArgumentError),
                }),
                Option::None => (r matches Err(e) && e is ArgumentError),
            }))
            &&& (obj is Str ==> (if key is Int {
                r matches Ok(v) && v is Null
            } else {
                r matches Err(e) && e is ArgumentError
            }))
            &&& (!(obj is Array || obj is Dict || obj is Str) ==> (r matches Ok(v) && v is Null))
        }),
{
    match &args {
        Value::Array(a) => {
            if a.len() < 2 {
                return Result::Err(
                    arg_err("ArgumentError: Not enough arguments on call to \"get\""),
                );
            }
            let obj = &a[0];
            let rawkey = &a[1];
            let key: &Value = match rawkey {
                Value::Quote(b) => &**b,
                _ => rawkey,
            };
            match obj {
                Value::Array(v) => {
                    match key {
                        Value::Int(idx) => {
                            if v.len() == 0 {
                                return Result::Err(
                                    LCoreError::IndexError(
                                        "IndexError: cannot index an empty array".to_owned(),
                                    ),
                                );
                            }
                            if v.len() as u64 > 9223372036854775807u64 {
                                return Result::Err(arg_err("array too large to index"));
                            }
                            let l: i64 = v.len() as i64;
                            if *idx > l {
                                return Result::Err(arg_err("Index out of bounds"));
                            }
                            let iu: usize = if *idx >= 0 {
                                (*idx % l) as usize
                            } else {
                                let m: u64 = ((-(*idx + 1)) as u64) + 1;
                                let rm: u64 = m % (l as u64);
                                if rm == 0 {
                                    0usize
                                } else {
                                    (l as u64 - rm) as usize
                                }
                            };
                            proof {
                                let ki = *idx as int;
                                let li = l as int;
                                if ki < 0 {
                                    lemma_mod_of_negative(ki, li);
                                }
                                assert(0 <= iu < v@.len());
                                assert(iu as int == ki % li);
                            }
                            Result::Ok(v[iu].dup())
                        },
                        _ => Result::Err(arg_err("Cannot index Array with that key")),
                    }
                },
                Value::Dict(d) => {
                    let k2: Value = match key {
                        Value::Identifier(s) => Value::Str(s.clone()),
                        Value::Str(s) => Value::Str(s.clone()),
                        Value::Int(i) => Value::Int(*i),
                        Value::Float(s) => Value::Float(s.clone()),
                        Value::Boolean(b) => Value::Boolean(*b),
                        _ => {
                            return Result::Err(arg_err("Cannot index Dict with that key"));
                        },
                    };
                    proof {
                        match dict_key(norm_key(argv(args)[1])) {
                            Option::Some(ks) => {
                                if ks is Str {
                                    lemma_dict_find_str_key(d@, k2, ks);
                                } else if ks is Float {
                                    lemma_dict_find_float_key(d@, k2, ks);
                                }
                            },
                            Option::None => {},
                        }
                    }
                    match dict_find_exec(d, &k2) {
                        Option::Some(v) => Result::Ok(v),
                        Option::None => Result::Err(arg_err("no such key in dict")),
                    }
                },
                Value::Str(_) => {
                    match key {
                        Value::Int(_) => Result::Ok(Value::Null),
                        _ => Result::Err(arg_err("Cannot index String with that key")),
                    }
                },
                _ => Result::Ok(Value::Null),
            }
        },
        _ => Result::Err(arg_err("arguments must arrive as an array")),
    }
}

/// A float key lookup likewise reads only the lexeme.
proof fn lemma_dict_find_float_key(d: Seq<(Value, Value)>, k1: Value, k2: Value)
    requires
        k1 is Float,
        k2 is Float,
        k1->Float_0@ == k2->Float_0@,
    ensures
        dict_find(d, k1) == dict_find(d, k2),
    decreases d.len(),
{
    if d.len() > 0 {
        lemma_dict_find_float_key(d.skip(1), k1, k2);
    }
}

/// Runs the quoted body a fixed number of times, binding the quoted loop
/// variable to the iteration number in the enclosing scope each time. A
/// body that fails reports its error to the output and the remaining
/// iterations still run.
#[verifier::loop_isolation(false)]
pub fn lcore_loop(args: Value, symbol_table: &mut Environment, depth: u64) -> (r: Result<
    Value,
    LCoreError,
>)
    requires
        old(symbol_table).wf(),
    ensures
        final(symbol_table).wf(),
        final(symbol_table).scopes@.len() == old(symbol_table).scopes@.len(),
        output_extended(*old(symbol_table), *final(symbol_table)),
        final(symbol_table).modules == old(symbol_table).modules,
        r is Ok <==> (depth > 0 && args is Array && argv(args).len() >= 3 && argv(
            args,
        )[0] is Quote && argv(args)[1] is Int && argv(args)[2] is Quote && (
        *argv(args)[2]->Quote_0) is Array),
        r matches Ok(v) ==> v is Null,
        (r is Ok && argv(args)[1]->Int_0 <= 0) ==> *final(symbol_table) == *old(symbol_table),
        (r is Ok && argv(args)[1]->Int_0 >= 1 && (*argv(args)[0]->Quote_0) is Identifier && (
        *argv(args)[2]->Quote_0)->Array_0@.len() == 0) ==> final(symbol_table).lookup(
            (*argv(args)[0]->Quote_0)->Identifier_0@,
        ) == Option::Some(Value::Int((argv(args)[1]->Int_0 - 1) as i64)),
        (r is Ok && !old(symbol_table).halted && argv(args)[1]->Int_0 >= 0 && (
        *argv(args)[0]->Quote_0) is Identifier && (*argv(args)[2]->Quote_0)->Array_0@.len() == 1
            && (*argv(args)[2]->Quote_0)->Array_0@[0] is Identifier && (
        *argv(args)[2]->Quote_0)->Array_0@[0]->Identifier_0@ != (
        *argv(args)[0]->Quote_0)->Identifier_0@ && old(symbol_table).lookup(
            (*argv(args)[2]->Quote_0)->Array_0@[0]->Identifier_0@,
        ) is None) ==> final(symbol_table).output@.len() == old(symbol_table).output@.len()
            + argv(args)[1]->Int_0,
        r matches Err(e) ==> (e is ArgumentError || e is LambdaCoreError) && *final(symbol_table)
            == *old(symbol_table),
    decreases depth, 0int,
{
    if depth == 0 {
        proof {
        assert(final(symbol_table).output@.take(old(symbol_table).output@.len() as int) =~= old(symbol_table).output@);
    }
    return Result::Err(LCoreError::LambdaCoreError("recursion limit exceeded".to_owned()));
    }
    match args {
        Value::Array(mut a) => {
            if a.len() < 3 {
                proof {
                assert(final(symbol_table).output@.take(old(symbol_table).output@.len() as int)
                    =~= old(symbol_table).output@);
            }
            return Result::Err(
                    arg_err("loop needs a variable, a count, and a body"),
                );
            }
            let quote = a.remove(0);
            let iters_v = a.remove(0);
            let body_v = a.remove(0);
            let loopvar: Option<String> = match quote {
                Value::Quote(b) => {
                    match *b {
                        Value::Identifier(s) => Option::Some(s),
                        _ => Option::None,
                    }
                },
                _ => {
                    proof {
                assert(final(symbol_table).output@.take(old(symbol_table).output@.len() as int)
                    =~= old(symbol_table).output@);
            }
            return Result::Err(arg_err("loop variable must be quoted"));
                },
            };
            let n: i64 = match iters_v {
                Value::Int(n) => n,
                _ => {
                    proof {
                assert(final(symbol_table).output@.take(old(symbol_table).output@.len() as int)
                    =~= old(symbol_table).output@);
            }
            return Result::Err(arg_err("loop count must be an integer"));
                },
            };
            let body: Vec<Value> = match body_v {
                Value::Quote(b) => {
                    match *b {
                        Value::Array(bv) => bv,
                        _ => {
                            proof {
                assert(final(symbol_table).output@.take(old(symbol_table).output@.len() as int)
                    =~= old(symbol_table).output@);
            }
            return Result::Err(arg_err("loop body must be a quoted block"));
                        },
                    }
                },
                _ => {
                    proof {
                assert(final(symbol_table).output@.take(old(symbol_table).output@.len() as int)
                    =~= old(symbol_table).output@);
            }
            return Result::Err(arg_err("loop body must be quoted"));
                },
            };
            let mut i: i64 = 0;
            proof {
                assert(symbol_table.output@.take(old(symbol_table).output@.len() as int) =~= old(symbol_table).output@);
            }
            while i < n
                invariant
                    0 <= i,
                    n <= 0 ==> i == 0,
                    n > 0 ==> i <= n,
                    symbol_table.wf(),
                    symbol_table.scopes@.len() == old(symbol_table).scopes@.len(),
                    output_extended(*old(symbol_table), *symbol_table),
                    i == 0 ==> *symbol_table == *old(symbol_table),
                    symbol_table.modules == old(symbol_table).modules,
                    loopvar matches Option::Some(nm) ==> ((body@.len() == 0 && i > 0)
                        ==> symbol_table.lookup(nm@) == Option::Some(
                        Value::Int((i - 1) as i64),
                    )),
                    loopvar matches Option::Some(nm) ==> ((!old(symbol_table).halted
                        && body@.len() == 1 && body@[0] is Identifier
                        && body@[0]->Identifier_0@ != nm@ && old(symbol_table).lookup(
                        body@[0]->Identifier_0@,
                    ) is None) ==> (symbol_table.halted == old(symbol_table).halted
                        && symbol_table.lookup(body@[0]->Identifier_0@) is None
                        && symbol_table.output@.len() == old(symbol_table).output@.len() + i)),
                decreases n - i,
            {
                match &loopvar {
                    Option::Some(name) => {
                        symbol_table.insert(name.clone(), Value::Int(i));
                    },
                    Option::None => {},
                }
                let mut q: VecDeque<Value> = VecDeque::new();
                let mut j: usize = 0;
                while j < body.len()
                    invariant
                        j <= body@.len(),
                        q@.len() == j,
                        (body@.len() == 1 && body@[0] is Identifier && j == 1) ==> (
                        q@[0] is Identifier && q@[0]->Identifier_0@
                            == body@[0]->Identifier_0@),
                        symbol_table.wf(),
                        symbol_table.scopes@.len() == old(symbol_table).scopes@.len(),
                        symbol_table.modules == old(symbol_table).modules,
                        output_extended(*old(symbol_table), *symbol_table),
                    decreases body@.len() - j,
                {
                    q.push_back(body[j].dup());
                    j = j + 1;
                }
                let mid = Ghost(*symbol_table);
                match interpret_depth(&mut q, symbol_table, depth - 1) {
                    Result::Ok(_) => {},
                    Result::Err(e) => {
                        let mut m = e.message().clone();
                        m.append("\n");
                        symbol_table.emit(m);
                    },
                }
                proof {
                    assert(symbol_table.output@.take(mid@.output@.len() as int)
                        =~= mid@.output@);
                    lemma_output_extended_trans(*old(symbol_table), mid@, *symbol_table);
                }
                i = i + 1;
            }
            Result::Ok(Value::Null)
        },
        _ => {
            proof {
                assert(final(symbol_table).output@.take(old(symbol_table).output@.len() as int)
                    =~= old(symbol_table).output@);
            }
            Result::Err(arg_err("arguments must arrive as an array"))
        },
    }
}


/// The quoted target name a failing `swap` may have touched, over the
/// plain argument list.
pub open spec fn swap_err_name_of(args: Seq<Value>) -> Seq<char> {
    if args.len() >= 1 {
        match swap_name(args[0]) {
            Option::Some(n) => n,
            Option::None => Seq::<char>::empty(),
        }
    } else {
        Seq::<char>::empty()
    }
}

/// What one native callable does: the exact relation between its argument
/// list, the environment before and after, and its result — each case
/// restating the contract of the builtin it names. The evaluator promises
/// this relation for every dispatched call. The definition is opaque:
/// reveal it to draw on a particular builtin's case.
#[verifier::opaque]
pub open spec fn builtin_spec(
    b: Builtin,
    args: Seq<Value>,
    depth: u64,
    pre: Environment,
    post: Environment,
    r: Result<Value, LCoreError>,
) -> bool {
    match b {
        Builtin::Equals => {
            &&& post == pre
            &&& (r is Ok <==> (args.len() >= 2 && comparable(args[0], args[1])))
            &&& (r matches Ok(v) ==> v is Boolean && v->Boolean_0 == veq(args[0], args[1]))
            &&& (r matches Err(e) ==> e is ArgumentError)
        },
        Builtin::NotEquals => {
            &&& post == pre
            &&& (r is Ok <==> (args.len() >= 2 && comparable(args[0], args[1])))
            &&& (r matches Ok(v) ==> v is Boolean && v->Boolean_0 == !veq(args[0], args[1]))
            &&& (r matches Err(e) ==> e is ArgumentError)
        },
        Builtin::Or => {
            &&& post == pre
            &&& (r is Ok <==> (args.len() >= 2 && args[0] is Boolean && args[1] is Boolean))
            &&& (r matches Ok(v) ==> v is Boolean && v->Boolean_0 == (args[0]->Boolean_0
                || args[1]->Boolean_0))
            &&& (r matches Err(e) ==> e is ArgumentError)
        },
        Builtin::Add => {
            &&& post == pre
            &&& (r is Ok <==> (args.len() >= 2 && args[0] is Int && args[1] is Int))
            &&& (r matches Ok(v) ==> v is Int && v->Int_0 as int == wrap_add64(
                args[0]->Int_0 as int,
                args[1]->Int_0 as int,
            ))
            &&& (r matches Err(e) ==> e is ArgumentError)
        },
        Builtin::Len => {
            &&& post == pre
            &&& (r is Ok <==> (args.len() >= 1 && ({
                let v = args[0];
                (v is Array && v->Array_0@.len() <= i64::MAX) || (v is Dict && v->Dict_0@.len()
                    <= i64::MAX) || (v is Str && utf8_len(v->Str_0@) <= i64::MAX) || v is Quote
            })))
            &&& (r matches Ok(v) ==> v is Int && ({
                let x = args[0];
                v->Int_0 as int == (if x is Array {
                    x->Array_0@.len() as int
                } else if x is Dict {
                    x->Dict_0@.len() as int
                } else if x is Str {
                    utf8_len(x->Str_0@) as int
                } else {
                    1
                })
            }))
            &&& (r matches Err(e) ==> e is ArgumentError)
        },
        Builtin::Quit => {
            &&& post.scopes@ == pre.scopes@
            &&& post.output == pre.output
            &&& post.modules == pre.modules
            &&& post.halted
            &&& (r matches Ok(v) && v is Null)
        },
        Builtin::ToStr => {
            &&& post == pre
            &&& (r matches Ok(v) && v is Str && v->Str_0@ == "LambdaCore String!"@)
        },
        Builtin::SetVar => {
            &&& post.scopes@.len() == pre.scopes@.len()
            &&& post.scopes@.drop_last() == pre.scopes@.drop_last()
            &&& post.output == pre.output
            &&& post.halted == pre.halted
            &&& post.modules == pre.modules
            &&& (r is Ok <==> args.len() >= 2)
            &&& (r matches Ok(v) ==> v is Null)
            &&& (r matches Err(e) ==> e is ArgumentError && post == pre)
            &&& (args.len() >= 2 ==> (match bind_target(args[0]) {
                Option::Some(name) => post.lookup(name) == Option::Some(args[1]) && (forall|
                    n: Seq<char>,
                |
                    n != name ==> post.lookup(n) == pre.lookup(n)),
                Option::None => post == pre,
            }))
        },
        Builtin::Defn => {
            &&& post.scopes@.len() == pre.scopes@.len()
            &&& post.scopes@.drop_last() == pre.scopes@.drop_last()
            &&& post.output == pre.output
            &&& post.halted == pre.halted
            &&& post.modules == pre.modules
            &&& (r is Ok <==> (args.len() >= 3 && args[2] is Quote))
            &&& (r matches Ok(v) ==> v is Null)
            &&& (r matches Err(e) ==> e is ArgumentError && post == pre)
            &&& ((args.len() >= 3 && args[2] is Quote) ==> (match bind_target(args[0]) {
                Option::Some(name) => (post.lookup(name) matches Option::Some(w) && w is Array
                    && w->Array_0@ == seq![args[1], *args[2]->Quote_0]) && (forall|n: Seq<char>|
                    n != name ==> post.lookup(n) == pre.lookup(n)),
                Option::None => post == pre,
            }))
        },
        Builtin::Print => {
            &&& post.scopes@ == pre.scopes@
            &&& post.halted == pre.halted
            &&& post.modules == pre.modules
            &&& (r matches Ok(v) && v is Null)
            &&& (args.len() == 1 ==> post.output@.len() == pre.output@.len() + 2
                && post.output@[post.output@.len() - 2]@ == fmt_value(args[0], false)
                && post.output@.last()@ == "\n"@ && post.output@.take(pre.output@.len() as int)
                == pre.output@)
            &&& (args.len() != 1 ==> post.output@ == pre.output@.push(post.output@.last())
                && post.output@.last()@ == "\n"@)
        },
        Builtin::Prin => {
            &&& post.scopes@ == pre.scopes@
            &&& post.halted == pre.halted
            &&& post.modules == pre.modules
            &&& (r matches Ok(v) && v is Null)
            &&& (args.len() == 1 ==> post.output@.len() == pre.output@.len() + 1
                && post.output@.last()@ == fmt_value(args[0], false) && post.output@.take(
                pre.output@.len() as int,
            ) == pre.output@)
            &&& (args.len() != 1 ==> post == pre)
        },
        Builtin::Dict => {
            &&& post == pre
            &&& (r is Ok <==> args.len() % 2 == 0)
            &&& (r matches Ok(v) ==> v is Dict && v->Dict_0@ == dict_build(args))
            &&& (r matches Err(e) ==> e is ArgumentError)
        },
        Builtin::Get => {
            &&& post == pre
            &&& (args.len() < 2 ==> (r matches Err(e) && e is ArgumentError))
            &&& (args.len() >= 2 ==> ({
                let obj = args[0];
                let key = norm_key(args[1]);
                &&& ((obj is Array && key is Int && obj->Array_0@.len() == 0) ==> (r matches Err(
                    e,
                ) && e is IndexError))
                &&& ((obj is Array && key is Int && obj->Array_0@.len() > 0) ==> (if key->Int_0
                    as int > obj->Array_0@.len() as int || obj->Array_0@.len() > i64::MAX {
                    r matches Err(e) && e is ArgumentError
                } else {
                    r matches Ok(v) && veq(
                        v,
                        obj->Array_0@[(key->Int_0 as int) % (obj->Array_0@.len() as int)],
                    )
                }))
                &&& ((obj is Array && !(key is Int)) ==> (r matches Err(e) && e is ArgumentError))
                &&& (obj is Dict ==> (match dict_key(key) {
                    Option::Some(k2) => (match dict_find(obj->Dict_0@, k2) {
                        Option::Some(v0) => (r matches Ok(v) && veq(v, v0)),
                        Option::None => (r matches Err(e) && e is ArgumentError),
                    }),
                    Option::None => (r matches Err(e) && e is ArgumentError),
                }))
                &&& (obj is Str ==> (if key is Int {
                    r matches Ok(v) && v is Null
                } else {
                    r matches Err(e) && e is ArgumentError
                }))
                &&& (!(obj is Array || obj is Dict || obj is Str) ==> (r matches Ok(v)
                    && v is Null))
            }))
        },
        Builtin::Import => {
            &&& post.scopes@.len() == pre.scopes@.len()
            &&& post.output == pre.output
            &&& post.halted == pre.halted
            &&& post.modules == pre.modules
            &&& (r is Ok <==> (args.len() >= 1 && (!(args[0] is Str) || module_find(
                pre.modules@,
                args[0]->Str_0@,
            ) is Some)))
            &&& (r matches Ok(v) ==> v is Null)
            &&& (args.len() < 1 ==> (r matches Err(e) && e is ArgumentError && post == pre))
            &&& ((args.len() >= 1 && !(args[0] is Str)) ==> post == pre)
            &&& ((args.len() >= 1 && args[0] is Str) ==> (match module_find(
                pre.modules@,
                args[0]->Str_0@,
            ) {
                Option::Some(m) => {
                    &&& post.scopes@[0].entries@.len() == pre.scopes@[0].entries@.len()
                        + m.entries@.len()
                    &&& post.scopes@[0].entries@.take(pre.scopes@[0].entries@.len() as int)
                        == pre.scopes@[0].entries@
                    &&& (forall|t: int|
                        0 <= t < m.entries@.len() ==> #[trigger] post.scopes@[0].entries@[
                        pre.scopes@[0].entries@.len() + t].0@ == m.entries@[t].0@ && veq(
                            post.scopes@[0].entries@[pre.scopes@[0].entries@.len() + t].1,
                            m.entries@[t].1,
                        ))
                    &&& (forall|t: int|
                        1 <= t < pre.scopes@.len() ==> #[trigger] post.scopes@[t]
                            == pre.scopes@[t])
                },
                Option::None => r matches Err(e) && e is LambdaCoreError && post == pre,
            }))
        },
        Builtin::Swap => {
            &&& post.scopes@.len() == pre.scopes@.len()
            &&& post.output == pre.output
            &&& post.halted == pre.halted
            &&& post.modules == pre.modules
            &&& (r matches Ok(v) ==> v is Null)
            &&& (r matches Err(e) ==> (e is ArgumentError || e is IndexError))
            &&& (r matches Err(_) ==> (forall|n: Seq<char>|
                n != swap_err_name_of(args) ==> post.lookup(n) == pre.lookup(n)))
            &&& (r matches Err(_) ==> (post.lookup(swap_err_name_of(args)) == pre.lookup(
                swap_err_name_of(args),
            ) || (match pre.lookup(swap_err_name_of(args)) {
                Option::Some(o) => post.lookup(swap_err_name_of(args)) matches Option::Some(w)
                    && veq(w, o),
                Option::None => post.lookup(swap_err_name_of(args)) is None,
            })))
            &&& (!(args.len() >= 3) ==> (r matches Err(e) && e is ArgumentError))
            &&& (args.len() >= 3 ==> (match swap_name(args[0]) {
                Option::Some(name) => {
                    &&& (forall|n: Seq<char>|
                        n != name ==> post.lookup(n) == pre.lookup(n))
                    &&& (match swap_indexers(args[1]) {
                        Option::Some(idxs) => {
                            &&& ((idxs.len() == 0 && pre.lookup(name) is Some) ==> (r matches Err(
                                e,
                            ) && e is ArgumentError))
                            &&& (pre.lookup(name) is None ==> (r matches Ok(v) && post.lookup(
                                name,
                            ) == pre.lookup(name)))
                            &&& (pre.lookup(name) matches Option::Some(o) ==> ((r is Ok)
                                == path_applies(o, idxs, 0)))
                            &&& (pre.lookup(name) matches Option::Some(o) ==> (r matches Err(e)
                                ==> ((e is IndexError) == path_index_error(o, idxs, 0))))
                            &&& (pre.lookup(name) matches Option::Some(o) ==> (r matches Ok(_)
                                ==> (post.lookup(name) matches Option::Some(w) && swapped(
                                o,
                                idxs,
                                0,
                                args[2],
                                w,
                            ))))
                        },
                        Option::None => (r matches Err(e) && e is ArgumentError),
                    })
                },
                Option::None => (r matches Err(e) && e is ArgumentError),
            }))
        },
        Builtin::Loop => {
            &&& post.scopes@.len() == pre.scopes@.len()
            &&& output_extended(pre, post)
            &&& post.modules == pre.modules
            &&& (r is Ok <==> (depth > 0 && args.len() >= 3 && args[0] is Quote
                && args[1] is Int && args[2] is Quote && (*args[2]->Quote_0) is Array))
            &&& (r matches Ok(v) ==> v is Null)
            &&& ((r is Ok && args[1]->Int_0 <= 0) ==> post == pre)
            &&& ((r is Ok && args[1]->Int_0 >= 1 && (*args[0]->Quote_0) is Identifier && (
            *args[2]->Quote_0)->Array_0@.len() == 0) ==> post.lookup(
                (*args[0]->Quote_0)->Identifier_0@,
            ) == Option::Some(Value::Int((args[1]->Int_0 - 1) as i64)))
            &&& ((r is Ok && !pre.halted && args[1]->Int_0 >= 0 && (
            *args[0]->Quote_0) is Identifier && (*args[2]->Quote_0)->Array_0@.len() == 1 && (
            *args[2]->Quote_0)->Array_0@[0] is Identifier && (
            *args[2]->Quote_0)->Array_0@[0]->Identifier_0@ != (
            *args[0]->Quote_0)->Identifier_0@ && pre.lookup(
                (*args[2]->Quote_0)->Array_0@[0]->Identifier_0@,
            ) is None) ==> post.output@.len() == pre.output@.len() + args[1]->Int_0)
            &&& (r matches Err(e) ==> (e is ArgumentError || e is LambdaCoreError) && post == pre)
        },
    }
}

/// The name a failing `swap` call may have touched and restored: the
/// quoted target name, where the arguments carry one.
pub open spec fn swap_err_name(args: Value) -> Seq<char> {
    if args is Array && argv(args).len() >= 1 {
        match swap_name(argv(args)[0]) {
            Option::Some(n) => n,
            Option::None => Seq::<char>::empty(),
        }
    } else {
        Seq::<char>::empty()
    }
}

/// The name a `swap` target denotes: only a quoted identifier is taken.
pub open spec fn swap_name(v: Value) -> Option<Seq<char>> {
    match v {
        Value::Quote(b) => match *b {
            Value::Identifier(s) => Option::Some(s@),
            _ => Option::None,
        },
        _ => Option::None,
    }
}

/// The indexer path of a `swap`: a quoted array of index steps.
pub open spec fn swap_indexers(v: Value) -> Option<Seq<Value>> {
    match v {
        Value::Quote(b) => match *b {
            Value::Array(a) => Option::Some(a@),
            _ => Option::None,
        },
        _ => Option::None,
    }
}

/// The key form a dictionary step of a `swap` path uses.
pub open spec fn leaf_dict_key(step: Value) -> Value {
    match step {
        Value::Identifier(s) => Value::Str(s),
        _ => step,
    }
}



/// When a `swap` index path applies to a value: each step indexes an
/// array within bounds (with wrap-around) or finds its key in a
/// dictionary, down to the final step.
pub open spec fn path_applies(o: Value, idxs: Seq<Value>, pos: int) -> bool
    decreases idxs.len() - pos,
{
    if !(0 <= pos < idxs.len()) {
        false
    } else {
        let step = idxs[pos];
        ||| ({
            &&& o is Array
            &&& step is Int
            &&& o->Array_0@.len() > 0
            &&& step->Int_0 as int <= o->Array_0@.len() as int
            &&& o->Array_0@.len() <= i64::MAX
            &&& (pos == idxs.len() - 1 || path_applies(
                o->Array_0@[(step->Int_0 as int) % (o->Array_0@.len() as int)],
                idxs,
                pos + 1,
            ))
        })
        ||| ({
            &&& o is Dict
            &&& (match dict_find(o->Dict_0@, leaf_dict_key(step)) {
                Option::Some(child) => pos == idxs.len() - 1 || path_applies(
                    child,
                    idxs,
                    pos + 1,
                ),
                Option::None => false,
            })
        })
    }
}


/// When a failing `swap` path fails with an index error rather than an
/// argument error: a non-integer step or an empty array at the failing
/// level, reached through valid earlier steps.
pub open spec fn path_index_error(o: Value, idxs: Seq<Value>, pos: int) -> bool
    decreases idxs.len() - pos,
{
    if !(0 <= pos < idxs.len()) {
        false
    } else {
        let step = idxs[pos];
        if o is Array {
            if !(step is Int) {
                true
            } else if o->Array_0@.len() == 0 {
                true
            } else if step->Int_0 as int > o->Array_0@.len() as int || o->Array_0@.len()
                > i64::MAX {
                false
            } else if pos == idxs.len() - 1 {
                false
            } else {
                path_index_error(
                    o->Array_0@[(step->Int_0 as int) % (o->Array_0@.len() as int)],
                    idxs,
                    pos + 1,
                )
            }
        } else if o is Dict {
            match dict_find(o->Dict_0@, leaf_dict_key(step)) {
                Option::Some(child) => if pos == idxs.len() - 1 {
                    false
                } else {
                    path_index_error(child, idxs, pos + 1)
                },
                Option::None => false,
            }
        } else {
            false
        }
    }
}

/// How a `swap` rewrites a value along its index path: each step descends
/// into the array element at the wrapped index, or into the first
/// dictionary entry whose key structurally matches the step; the final
/// step replaces that element or entry value with the new value, and
/// everything off the path is kept as it was.
pub open spec fn swapped(o: Value, idxs: Seq<Value>, pos: int, value: Value, w: Value) -> bool
    decreases idxs.len() - pos,
{
    if !(0 <= pos < idxs.len()) {
        false
    } else {
        let step = idxs[pos];
        ||| ({
            &&& o is Array
            &&& step is Int
            &&& o->Array_0@.len() > 0
            &&& step->Int_0 as int <= o->Array_0@.len() as int
            &&& o->Array_0@.len() <= i64::MAX
            &&& w is Array
            &&& w->Array_0@.len() == o->Array_0@.len()
            &&& ({
                let widx = (step->Int_0 as int) % (o->Array_0@.len() as int);
                &&& (forall|t: int|
                    0 <= t < o->Array_0@.len() && t != widx ==> #[trigger] w->Array_0@[t]
                        == o->Array_0@[t])
                &&& if pos == idxs.len() - 1 {
                    w->Array_0@[widx] == value
                } else {
                    swapped(o->Array_0@[widx], idxs, pos + 1, value, w->Array_0@[widx])
                }
            })
        })
        ||| ({
            &&& o is Dict
            &&& w is Dict
            &&& w->Dict_0@.len() == o->Dict_0@.len()
            &&& (exists|j: int|
                #![trigger o->Dict_0@[j]]
                {
                    &&& 0 <= j < o->Dict_0@.len()
                    &&& (forall|t: int|
                        0 <= t < j ==> !veq(#[trigger] o->Dict_0@[t].0, leaf_dict_key(step)))
                    &&& veq(o->Dict_0@[j].0, leaf_dict_key(step))
                    &&& (forall|t: int|
                        0 <= t < o->Dict_0@.len() ==> #[trigger] w->Dict_0@[t].0
                            == o->Dict_0@[t].0)
                    &&& (forall|t: int|
                        0 <= t < o->Dict_0@.len() && t != j ==> #[trigger] w->Dict_0@[t].1
                            == o->Dict_0@[t].1)
                    &&& if pos == idxs.len() - 1 {
                        w->Dict_0@[j].1 == value
                    } else {
                        swapped(o->Dict_0@[j].1, idxs, pos + 1, value, w->Dict_0@[j].1)
                    }
                })
        })
    }
}

/// Replacing one entry's value leaves the first structural match for its
/// key at that entry.
proof fn lemma_dict_find_update(d: Seq<(Value, Value)>, j: int, k: Value, v: Value)
    requires
        0 <= j < d.len(),
        veq(d[j].0, k),
        forall|t: int| 0 <= t < j ==> !veq(#[trigger] d[t].0, k),
    ensures
        dict_find(d.update(j, (d[j].0, v)), k) == Option::Some(v),
    decreases j,
{
    let u = d.update(j, (d[j].0, v));
    if j == 0 {
        assert(u[0] == (d[0].0, v));
    } else {
        assert(u[0] == d[0]);
        assert(d.skip(1)[j - 1] == d[j]);
        assert forall|t: int| 0 <= t < j - 1 implies !veq(#[trigger] d.skip(1)[t].0, k) by {
            assert(d.skip(1)[t] == d[t + 1]);
        }
        lemma_dict_find_update(d.skip(1), j - 1, k, v);
        assert(u.skip(1) =~= d.skip(1).update(j - 1, (d.skip(1)[j - 1].0, v)));
    }
}

/// Applies one step of a `swap` path in place. At the last step the
/// element or entry is replaced by the new value exactly; earlier steps
/// descend through arrays and dictionaries.
#[verifier::loop_isolation(false)]
#[verifier::rlimit(30)]
#[verifier::loop_isolation(false)]
fn swap_apply(cur: &mut Value, idxs: &Vec<Value>, pos: usize, value: Value) -> (r: Result<
    (),
    LCoreError,
>)
    requires
        pos < idxs@.len(),
    ensures
        r matches Err(_) ==> (*final(cur) == *old(cur) || veq(*final(cur), *old(cur))),
        r matches Err(e) ==> (e is ArgumentError || e is IndexError),
        r matches Err(e) ==> ((e is IndexError) == path_index_error(
            *old(cur),
            idxs@,
            pos as int,
        )),
        (r is Ok) == path_applies(*old(cur), idxs@, pos as int),
        r matches Ok(_) ==> swapped(*old(cur), idxs@, pos as int, value, *final(cur)),
    decreases idxs@.len() - pos,
{
    let n = idxs.len();
    let last = pos + 1 == n;
    match cur {
        Value::Array(v) => {
            let widx: usize = match &idxs[pos] {
                Value::Int(idx) => {
                    if v.len() == 0 {
                        return Result::Err(
                            LCoreError::IndexError(
                                "IndexError: cannot index an empty array".to_owned(),
                            ),
                        );
                    }
                    if v.len() as u64 > 9223372036854775807u64 {
                        return Result::Err(arg_err("array too large to index"));
                    }
                    let l: i64 = v.len() as i64;
                    if *idx > l {
                        return Result::Err(arg_err("Index out of bounds"));
                    }
                    let iu: usize = if *idx >= 0 {
                        (*idx % l) as usize
                    } else {
                        let m: u64 = ((-(*idx + 1)) as u64) + 1;
                        let rm: u64 = m % (l as u64);
                        if rm == 0 {
                            0usize
                        } else {
                            (l as u64 - rm) as usize
                        }
                    };
                    proof {
                        let ki = *idx as int;
                        let li = l as int;
                        if ki < 0 {
                            lemma_mod_of_negative(ki, li);
                        }
                        assert(0 <= iu < v@.len());
                    }
                    iu
                },
                _ => {
                    return Result::Err(
                        LCoreError::IndexError(
                            "IndexError: Cannot index array with non-int".to_owned(),
                        ),
                    );
                },
            };
            if last {
                let _replaced = v.remove(widx);
                v.insert(widx, value);
                proof {
                    assert(v@ =~= old(cur)->Array_0@.update(widx as int, value));
                    assert(swapped(*old(cur), idxs@, pos as int, value, *cur));
                }
                Result::Ok(())
            } else {
                let mut elem = v.remove(widx);
                let res = swap_apply(&mut elem, idxs, pos + 1, value);
                v.insert(widx, elem);
                match res {
                    Result::Ok(u) => {
                        proof {
                            assert(v@ =~= old(cur)->Array_0@.update(
                                widx as int,
                                v@[widx as int],
                            ));
                            assert(swapped(*old(cur), idxs@, pos as int, value, *cur));
                        }
                        Result::Ok(u)
                    },
                    Result::Err(e) => {
                        proof {
                            let oldv = old(cur)->Array_0@;
                            assert forall|t: int| 0 <= t < oldv.len() implies veq(
                                #[trigger] v@[t],
                                oldv[t],
                            ) by {
                                if v@[t] == oldv[t] {
                                    crate::value::lemma_veq_refl(oldv[t]);
                                }
                            }
                            assert(veq(*cur, *old(cur)));
                        }
                        Result::Err(e)
                    },
                }
            }
        },
        Value::Dict(d) => {
            let ghost k2s = leaf_dict_key(idxs@[pos as int]);
            let mut j: usize = 0;
            let ghost dvec = *d;
            proof {
                assert(d@.skip(0) =~= d@);
            }
            while j < d.len()
                invariant
                    j <= d@.len(),
                    *d == dvec,
                    forall|t: int| 0 <= t < j ==> !veq(#[trigger] d@[t].0, k2s),
                    dict_find(d@, k2s) == dict_find(d@.skip(j as int), k2s),
                decreases d@.len() - j,
            {
                proof {
                    assert(d@.skip(j as int)[0] == d@[j as int]);
                    assert(d@.skip(j as int).skip(1) =~= d@.skip(j + 1));
                }
                let hit = match (&d[j].0, &idxs[pos]) {
                    (Value::Str(ds), Value::Identifier(nm)) => *ds == *nm,
                    (entry_key, Value::Identifier(_)) => false,
                    (entry_key, step) => value_eq(entry_key, step),
                };
                proof {
                    assert(hit == veq(d@[j as int].0, k2s));
                }
                if hit {
                    if last {
                        let pair = d.remove(j);
                        d.insert(j, (pair.0, value));
                        proof {
                            assert(d@ =~= dvec@.update(j as int, (dvec@[j as int].0, value)));
                            lemma_dict_find_update(dvec@, j as int, k2s, value);
                            assert(old(cur)->Dict_0@[j as int] == dvec@[j as int]);
                            assert(swapped(*old(cur), idxs@, pos as int, value, *cur));
                        }
                        return Result::Ok(());
                    } else {
                        let mut pair = d.remove(j);
                        let res = swap_apply(&mut pair.1, idxs, pos + 1, value);
                        d.insert(j, pair);
                        return match res {
                            Result::Ok(u) => {
                                proof {
                                    assert(d@ =~= dvec@.update(
                                        j as int,
                                        (dvec@[j as int].0, d@[j as int].1),
                                    ));
                                    assert(old(cur)->Dict_0@[j as int] == dvec@[j as int]);
                                    assert(swapped(*old(cur), idxs@, pos as int, value, *cur));
                                }
                                Result::Ok(u)
                            },
                            Result::Err(e) => {
                                proof {
                                    let oldd = old(cur)->Dict_0@;
                                    assert forall|t: int|
                                        0 <= t < oldd.len() implies dict_pair_in(
                                        #[trigger] d@[t],
                                        oldd,
                                    ) by {
                                        if d@[t].0 == oldd[t].0 {
                                            crate::value::lemma_veq_refl(oldd[t].0);
                                        }
                                        if d@[t].1 == oldd[t].1 {
                                            crate::value::lemma_veq_refl(oldd[t].1);
                                        }
                                        assert(0 <= t < oldd.len() && veq(d@[t].0, oldd[t].0)
                                            && veq(d@[t].1, oldd[t].1));
                                    }
                                    assert(veq(*cur, *old(cur)));
                                }
                                Result::Err(e)
                            },
                        };
                    }
                }
                j = j + 1;
            }
            proof {
                assert(d@.skip(d@.len() as int) =~= Seq::<(Value, Value)>::empty());
                assert(*cur == *old(cur));
            }
            Result::Err(arg_err("no such key in dict"))
        },
        _ => {
            proof {
                assert(*cur == *old(cur));
            }
            Result::Err(arg_err("swap can only descend into arrays and dicts"))
        },
    }
}

/// Rebinds one element deep inside a named array or dictionary: the name
/// arrives quoted, the path is a quoted array of index steps, and the
/// binding is updated in the scope that holds it. An unbound name is a
/// quiet success.
pub fn lcore_swap(args: Value, symbol_table: &mut Environment) -> (r: Result<Value, LCoreError>)
    requires
        old(symbol_table).wf(),
    ensures
        final(symbol_table).wf(),
        final(symbol_table).scopes@.len() == old(symbol_table).scopes@.len(),
        final(symbol_table).output == old(symbol_table).output,
        final(symbol_table).halted == old(symbol_table).halted,
        final(symbol_table).modules == old(symbol_table).modules,
        r matches Ok(v) ==> v is Null,
        r matches Err(e) ==> (e is ArgumentError || e is IndexError),
        r matches Err(_) ==> (forall|n: Seq<char>|
            n != swap_err_name(args) ==> final(symbol_table).lookup(n) == old(symbol_table).lookup(n)),
        r matches Err(_) ==> (final(symbol_table).lookup(swap_err_name(args)) == old(symbol_table).lookup(swap_err_name(args)) || (match old(symbol_table).lookup(swap_err_name(args)) {
            Option::Some(o) => final(symbol_table).lookup(swap_err_name(args))
                matches Option::Some(w) && veq(w, o),
            Option::None => final(symbol_table).lookup(swap_err_name(args)) is None,
        })),
        !(args is Array && argv(args).len() >= 3) ==> (r matches Err(e) && e is ArgumentError),
        (args is Array && argv(args).len() >= 3) ==> (match swap_name(argv(args)[0]) {
            Option::Some(name) => {
                &&& (forall|n: Seq<char>|
                    n != name ==> final(symbol_table).lookup(n) == old(symbol_table).lookup(n))
                &&& (match swap_indexers(argv(args)[1]) {
                    Option::Some(idxs) => {
                        &&& ((idxs.len() == 0 && old(symbol_table).lookup(name) is Some) ==> (
                        r matches Err(e) && e is ArgumentError))
                        &&& (old(symbol_table).lookup(name) is None ==> (r matches Ok(v)
                            && final(symbol_table).lookup(name) == old(symbol_table).lookup(
                                name,
                            )))
                        &&& (old(symbol_table).lookup(name) matches Option::Some(o) ==> ((r
                            is Ok) == path_applies(o, idxs, 0)))
                        &&& (old(symbol_table).lookup(name) matches Option::Some(o) ==> (
                        r matches Err(e) ==> ((e is IndexError) == path_index_error(
                            o,
                            idxs,
                            0,
                        ))))
                        &&& (old(symbol_table).lookup(name) matches Option::Some(o) ==> (
                        r matches Ok(_) ==> (final(symbol_table).lookup(name)
                            matches Option::Some(w) && swapped(o, idxs, 0, argv(args)[2], w))))
                    },
                    Option::None => (r matches Err(e) && e is ArgumentError),
                })
            },
            Option::None => (r matches Err(e) && e is ArgumentError),
        }),
{
    match args {
        Value::Array(mut a) => {
            if a.len() < 3 {
                return Result::Err(
                    arg_err("swap needs a name, an index path, and a value"),
                );
            }
            let target = a.remove(0);
            let index = a.remove(0);
            let value = a.remove(0);
            let name: String = match target {
                Value::Quote(b) => {
                    match *b {
                        Value::Identifier(s) => s,
                        _ => {
                            return Result::Err(arg_err("swap target must be a quoted name"));
                        },
                    }
                },
                _ => {
                    return Result::Err(arg_err("swap target must be quoted"));
                },
            };
            let idxs: Vec<Value> = match index {
                Value::Quote(b) => {
                    match *b {
                        Value::Array(v) => v,
                        _ => {
                            return Result::Err(
                                arg_err("swap index path must be a quoted array"),
                            );
                        },
                    }
                },
                _ => {
                    return Result::Err(arg_err("swap index path must be quoted"));
                },
            };
            let taken = symbol_table.update(&name, Value::Null);
            let mut obj: Value = match taken {
                Option::Some(o) => o,
                Option::None => {
                    return Result::Ok(Value::Null);
                },
            };
            let mid = Ghost(*symbol_table);
            if idxs.len() == 0 {
                let _put_back = symbol_table.update(&name, obj);
                proof {
                    assert(_put_back is Some);
                    crate::value::lemma_veq_refl(old(symbol_table).lookup(
                        name@,
                    )->Some_0);
                    assert forall|n: Seq<char>| n != name@ implies final(symbol_table).lookup(n)
                        == old(symbol_table).lookup(n) by {
                        assert(mid@.lookup(n) == old(symbol_table).lookup(n));
                    }
                }
                return Result::Err(arg_err("swap index path is empty"));
            }
            let res = swap_apply(&mut obj, &idxs, 0, value);
            let put_back = symbol_table.update(&name, obj);
            proof {
                assert(put_back is Some);
                assert forall|n: Seq<char>| n != name@ implies final(symbol_table).lookup(n)
                    == old(symbol_table).lookup(n) by {
                    assert(mid@.lookup(n) == old(symbol_table).lookup(n));
                }
            }
            match res {
                Result::Ok(_) => Result::Ok(Value::Null),
                Result::Err(e) => {
                    proof {
                        match old(symbol_table).lookup(name@) {
                            Option::Some(o) => {
                                if obj == o {
                                    crate::value::lemma_veq_refl(o);
                                }
                            },
                            Option::None => {},
                        }
                    }
                    Result::Err(e)
                },
            }
        },
        _ => Result::Err(arg_err("arguments must arrive as an array")),
    }
}


/// The seventeen builtin names are pairwise distinct texts.
proof fn lemma_builtin_names_distinct()
    ensures
        "print"@ != "prin"@,
        "print"@ != "+"@,
        "print"@ != "quit"@,
        "print"@ != "exit"@,
        "print"@ != "set"@,
        "print"@ != "loop"@,
        "print"@ != "defn"@,
        "print"@ != "get"@,
        "print"@ != "dict"@,
        "print"@ != "len"@,
        "print"@ != "import"@,
        "print"@ != "swap"@,
        "print"@ != "to-str"@,
        "print"@ != "="@,
        "print"@ != "!="@,
        "print"@ != "or"@,
        "prin"@ != "+"@,
        "prin"@ != "quit"@,
        "prin"@ != "exit"@,
        "prin"@ != "set"@,
        "prin"@ != "loop"@,
        "prin"@ != "defn"@,
        "prin"@ != "get"@,
        "prin"@ != "dict"@,
        "prin"@ != "len"@,
        "prin"@ != "import"@,
        "prin"@ != "swap"@,
        "prin"@ != "to-str"@,
        "prin"@ != "="@,
        "prin"@ != "!="@,
        "prin"@ != "or"@,
        "+"@ != "quit"@,
        "+"@ != "exit"@,
        "+"@ != "set"@,
        "+"@ != "loop"@,
        "+"@ != "defn"@,
        "+"@ != "get"@,
        "+"@ != "dict"@,
        "+"@ != "len"@,
        "+"@ != "import"@,
        "+"@ != "swap"@,
        "+"@ != "to-str"@,
        "+"@ != "="@,
        "+"@ != "!="@,
        "+"@ != "or"@,
        "quit"@ != "exit"@,
        "quit"@ != "set"@,
        "quit"@ != "loop"@,
        "quit"@ != "defn"@,
        "quit"@ != "get"@,
        "quit"@ != "dict"@,
        "quit"@ != "len"@,
        "quit"@ != "import"@,
        "quit"@ != "swap"@,
        "quit"@ != "to-str"@,
        "quit"@ != "="@,
        "quit"@ != "!="@,
        "quit"@ != "or"@,
        "exit"@ != "set"@,
        "exit"@ != "loop"@,
        "exit"@ != "defn"@,
        "exit"@ != "get"@,
        "exit"@ != "dict"@,
        "exit"@ != "len"@,
        "exit"@ != "import"@,
        "exit"@ != "swap"@,
        "exit"@ != "to-str"@,
        "exit"@ != "="@,
        "exit"@ != "!="@,
        "exit"@ != "or"@,
        "set"@ != "loop"@,
        "set"@ != "defn"@,
        "set"@ != "get"@,
        "set"@ != "dict"@,
        "set"@ != "len"@,
        "set"@ != "import"@,
        "set"@ != "swap"@,
        "set"@ != "to-str"@,
        "set"@ != "="@,
        "set"@ != "!="@,
        "set"@ != "or"@,
        "loop"@ != "defn"@,
        "loop"@ != "get"@,
        "loop"@ != "dict"@,
        "loop"@ != "len"@,
        "loop"@ != "import"@,
        "loop"@ != "swap"@,
        "loop"@ != "to-str"@,
        "loop"@ != "="@,
        "loop"@ != "!="@,
        "loop"@ != "or"@,
        "defn"@ != "get"@,
        "defn"@ != "dict"@,
        "defn"@ != "len"@,
        "defn"@ != "import"@,
        "defn"@ != "swap"@,
        "defn"@ != "to-str"@,
        "defn"@ != "="@,
        "defn"@ != "!="@,
        "defn"@ != "or"@,
        "get"@ != "dict"@,
        "get"@ != "len"@,
        "get"@ != "import"@,
        "get"@ != "swap"@,
        "get"@ != "to-str"@,
        "get"@ != "="@,
        "get"@ != "!="@,
        "get"@ != "or"@,
        "dict"@ != "len"@,
        "dict"@ != "import"@,
        "dict"@ != "swap"@,
        "dict"@ != "to-str"@,
        "dict"@ != "="@,
        "dict"@ != "!="@,
        "dict"@ != "or"@,
        "len"@ != "import"@,
        "len"@ != "swap"@,
        "len"@ != "to-str"@,
        "len"@ != "="@,
        "len"@ != "!="@,
        "len"@ != "or"@,
        "import"@ != "swap"@,
        "import"@ != "to-str"@,
        "import"@ != "="@,
        "import"@ != "!="@,
        "import"@ != "or"@,
        "swap"@ != "to-str"@,
        "swap"@ != "="@,
        "swap"@ != "!="@,
        "swap"@ != "or"@,
        "to-str"@ != "="@,
        "to-str"@ != "!="@,
        "to-str"@ != "or"@,
        "="@ != "!="@,
        "="@ != "or"@,
        "!="@ != "or"@,
{
    reveal_strlit("print");
    reveal_strlit("prin");
    reveal_strlit("+");
    reveal_strlit("quit");
    reveal_strlit("exit");
    reveal_strlit("set");
    reveal_strlit("loop");
    reveal_strlit("defn");
    reveal_strlit("get");
    reveal_strlit("dict");
    reveal_strlit("len");
    reveal_strlit("import");
    reveal_strlit("swap");
    reveal_strlit("to-str");
    reveal_strlit("=");
    reveal_strlit("!=");
    reveal_strlit("or");
    assert("print"@.len() == 5);
    assert("prin"@.len() == 4);
    assert("+"@.len() == 1);
    assert("quit"@.len() == 4);
    assert("exit"@.len() == 4);
    assert("set"@.len() == 3);
    assert("loop"@.len() == 4);
    assert("defn"@.len() == 4);
    assert("get"@.len() == 3);
    assert("dict"@.len() == 4);
    assert("len"@.len() == 3);
    assert("import"@.len() == 6);
    assert("swap"@.len() == 4);
    assert("to-str"@.len() == 6);
    assert("="@.len() == 1);
    assert("!="@.len() == 2);
    assert("or"@.len() == 2);
    assert("!="@[0] == '!');
    assert("+"@[0] == '+');
    assert("="@[0] == '=');
    assert("defn"@[0] == 'd');
    assert("defn"@[1] == 'e');
    assert("dict"@[0] == 'd');
    assert("dict"@[1] == 'i');
    assert("exit"@[0] == 'e');
    assert("get"@[0] == 'g');
    assert("import"@[0] == 'i');
    assert("len"@[0] == 'l');
    assert("loop"@[0] == 'l');
    assert("or"@[0] == 'o');
    assert("prin"@[0] == 'p');
    assert("quit"@[0] == 'q');
    assert("set"@[0] == 's');
    assert("swap"@[0] == 's');
    assert("to-str"@[0] == 't');
}

/// Installs the builtin vocabulary into the innermost (at start, global)
/// scope under its language-level names.
#[verifier::rlimit(60)]
pub fn import_builtins(symbol_table: &mut Environment)
    requires
        old(symbol_table).wf(),
    ensures
        final(symbol_table).wf(),
        final(symbol_table).scopes@.len() == old(symbol_table).scopes@.len(),
        final(symbol_table).output == old(symbol_table).output,
        final(symbol_table).halted == old(symbol_table).halted,
        final(symbol_table).modules == old(symbol_table).modules,
        final(symbol_table).lookup("print"@) == Option::Some(Value::Func(Builtin::Print)),
        final(symbol_table).lookup("prin"@) == Option::Some(Value::Func(Builtin::Prin)),
        final(symbol_table).lookup("+"@) == Option::Some(Value::Func(Builtin::Add)),
        final(symbol_table).lookup("quit"@) == Option::Some(Value::Func(Builtin::Quit)),
        final(symbol_table).lookup("exit"@) == Option::Some(Value::Func(Builtin::Quit)),
        final(symbol_table).lookup("set"@) == Option::Some(Value::Func(Builtin::SetVar)),
        final(symbol_table).lookup("loop"@) == Option::Some(Value::Func(Builtin::Loop)),
        final(symbol_table).lookup("defn"@) == Option::Some(Value::Func(Builtin::Defn)),
        final(symbol_table).lookup("get"@) == Option::Some(Value::Func(Builtin::Get)),
        final(symbol_table).lookup("dict"@) == Option::Some(Value::Func(Builtin::Dict)),
        final(symbol_table).lookup("len"@) == Option::Some(Value::Func(Builtin::Len)),
        final(symbol_table).lookup("import"@) == Option::Some(Value::Func(Builtin::Import)),
        final(symbol_table).lookup("swap"@) == Option::Some(Value::Func(Builtin::Swap)),
        final(symbol_table).lookup("to-str"@) == Option::Some(Value::Func(Builtin::ToStr)),
        final(symbol_table).lookup("="@) == Option::Some(Value::Func(Builtin::Equals)),
        final(symbol_table).lookup("!="@) == Option::Some(Value::Func(Builtin::NotEquals)),
        final(symbol_table).lookup("or"@) == Option::Some(Value::Func(Builtin::Or)),
        final(symbol_table).scopes@.drop_last() == old(symbol_table).scopes@.drop_last(),
        forall|n: Seq<char>|
            (n != "print"@ && n != "prin"@ && n != "+"@ && n != "quit"@ && n != "exit"@ && n
                != "set"@ && n != "loop"@ && n != "defn"@ && n != "get"@ && n != "dict"@ && n
                != "len"@ && n != "import"@ && n != "swap"@ && n != "to-str"@ && n != "="@ && n
                != "!="@ && n != "or"@) ==> final(symbol_table).lookup(n) == old(
                symbol_table,
            ).lookup(n),
{
    proof {
        lemma_builtin_names_distinct();
    }
    symbol_table.insert("print".to_owned(), Value::Func(Builtin::Print));
    symbol_table.insert("prin".to_owned(), Value::Func(Builtin::Prin));
    symbol_table.insert("+".to_owned(), Value::Func(Builtin::Add));
    symbol_table.insert("quit".to_owned(), Value::Func(Builtin::Quit));
    symbol_table.insert("exit".to_owned(), Value::Func(Builtin::Quit));
    symbol_table.insert("set".to_owned(), Value::Func(Builtin::SetVar));
    symbol_table.insert("loop".to_owned(), Value::Func(Builtin::Loop));
    symbol_table.insert("defn".to_owned(), Value::Func(Builtin::Defn));
    symbol_table.insert("get".to_owned(), Value::Func(Builtin::Get));
    symbol_table.insert("dict".to_owned(), Value::Func(Builtin::Dict));
    symbol_table.insert("len".to_owned(), Value::Func(Builtin::Len));
    symbol_table.insert("import".to_owned(), Value::Func(Builtin::Import));
    symbol_table.insert("swap".to_owned(), Value::Func(Builtin::Swap));
    symbol_table.insert("to-str".to_owned(), Value::Func(Builtin::ToStr));
    symbol_table.insert("=".to_owned(), Value::Func(Builtin::Equals));
    symbol_table.insert("!=".to_owned(), Value::Func(Builtin::NotEquals));
    symbol_table.insert("or".to_owned(), Value::Func(Builtin::Or));
}

} // verus!
