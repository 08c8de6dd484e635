//! The stack-machine evaluator. It consumes the token queue from the
//! front, collecting values into its own stack of in-progress frames —
//! distinct from the environment's scope stack — and dispatches calls to
//! native or user-defined callables.

use std::collections::VecDeque;
use vstd::prelude::*;

use crate::builtin::builtin_spec;
use crate::builtin::lcore_add;
use crate::builtin::lcore_defn;
use crate::builtin::lcore_dict;
use crate::builtin::lcore_equals;
use crate::builtin::lcore_get;
use crate::builtin::lcore_import;
use crate::builtin::lcore_len;
use crate::builtin::lcore_logical_or;
use crate::builtin::lcore_loop;
use crate::builtin::lcore_not_equals;
use crate::builtin::lcore_prin;
use crate::builtin::lcore_print;
use crate::builtin::lcore_quit;
use crate::builtin::lcore_set;
use crate::builtin::lcore_swap;
use crate::builtin::lcore_to_str;
use crate::env::lemma_output_extended_trans;
use crate::env::output_extended;
use crate::env::Environment;
use crate::error::LCoreError;
use crate::value::is_verbatim;
use crate::value::veq;
use crate::value::Builtin;
use crate::value::Value;

verus! {

broadcast use vstd::std_specs::vec::group_vec_axioms;

/// How deeply user-defined calls and loop bodies may nest before the
/// evaluator reports exhaustion instead of exhausting the host stack.
pub const RECURSION_LIMIT: u64 = 200;

/// Runs one native callable under the fixed calling convention; the
/// result and environment change are exactly the named builtin's.
#[verifier::rlimit(100)]
pub fn dispatch_builtin(b: Builtin, args: Value, symbol_table: &mut Environment, depth: u64) -> (r:
    Result<Value, LCoreError>)
    requires
        old(symbol_table).wf(),
    ensures
        final(symbol_table).wf(),
        final(symbol_table).scopes@.len() == old(symbol_table).scopes@.len(),
        final(symbol_table).modules == old(symbol_table).modules,
        output_extended(*old(symbol_table), *final(symbol_table)),
        args is Array ==> builtin_spec(
            b,
            crate::builtin::argv(args),
            depth,
            *old(symbol_table),
            *final(symbol_table),
            r,
        ),
    decreases depth, 1int,
{
    proof {
        reveal(crate::builtin::builtin_spec);
    }
    let r = match b {
        Builtin::Print => lcore_print(args, symbol_table),
        Builtin::Prin => lcore_prin(args, symbol_table),
        Builtin::Add => lcore_add(args, symbol_table),
        Builtin::Quit => lcore_quit(args, symbol_table),
        Builtin::SetVar => lcore_set(args, symbol_table),
        Builtin::Loop => lcore_loop(args, symbol_table, depth),
        Builtin::Defn => lcore_defn(args, symbol_table),
        Builtin::Get => lcore_get(args, symbol_table),
        Builtin::Dict => lcore_dict(args, symbol_table),
        Builtin::Len => lcore_len(args, symbol_table),
        Builtin::Import => lcore_import(args, symbol_table),
        Builtin::Swap => lcore_swap(args, symbol_table),
        Builtin::ToStr => lcore_to_str(args, symbol_table),
        Builtin::Equals => lcore_equals(args, symbol_table),
        Builtin::NotEquals => lcore_not_equals(args, symbol_table),
        Builtin::Or => lcore_logical_or(args, symbol_table),
    };
    proof {
        assert(final(symbol_table).output@.take(old(symbol_table).output@.len() as int) =~= old(
            symbol_table,
        ).output@);
    }
    r
}


/// A parameter-list entry: a quoted identifier, as `defn` stores them.
pub open spec fn is_quoted_ident(v: Value) -> bool {
    v is Quote && (*v->Quote_0) is Identifier
}

/// The name a quoted-identifier parameter binds.
pub open spec fn param_name(v: Value) -> Seq<char> {
    (*v->Quote_0)->Identifier_0@
}

/// A well-formed parameter list: quoted identifiers with pairwise
/// distinct names.
pub open spec fn params_wf(params: Seq<Value>) -> bool {
    &&& (forall|i: int| 0 <= i < params.len() ==> is_quoted_ident(#[trigger] params[i]))
    &&& (forall|i1: int, i2: int|
        0 <= i1 < i2 < params.len() ==> param_name(params[i1]) != param_name(params[i2]))
}

/// A user-defined callable whose body is the single read of its parameter
/// number `j`: the smallest body whose result exposes which argument a
/// parameter was bound to.
pub open spec fn projection_def(def: Seq<Value>, j: int) -> bool {
    &&& def.len() >= 2
    &&& def[0] is Array
    &&& def[1] is Array
    &&& params_wf(def[0]->Array_0@)
    &&& 0 <= j < def[0]->Array_0@.len()
    &&& def[1]->Array_0@.len() == 1
    &&& def[1]->Array_0@[0] is Identifier
    &&& def[1]->Array_0@[0]->Identifier_0@ == param_name(def[0]->Array_0@[j])
}

/// A flat call whose callee is bound to a projection definition with
/// matching arity: its result must be the `j`-th argument.
pub open spec fn flat_user_projection(q: Seq<Value>, pre: Environment, j: int) -> bool {
    &&& flat_call_shape(q)
    &&& (match pre.lookup(q[1]->Identifier_0@) {
        Option::Some(d) => d is Array && projection_def(d->Array_0@, j) && flat_call_args(
            q,
        ).len() == d->Array_0@[0]->Array_0@.len(),
        Option::None => false,
    })
}

/// A structural copy of a projection definition is again a projection
/// definition at the same parameter position.
proof fn lemma_projection_def_veq(c: Value, d: Value, j: int)
    requires
        veq(c, d),
        d is Array,
        projection_def(d->Array_0@, j),
    ensures
        c is Array,
        c->Array_0@.len() >= 2,
        projection_def(c->Array_0@, j),
        c->Array_0@[0]->Array_0@.len() == d->Array_0@[0]->Array_0@.len(),
{
    let cs = c->Array_0@;
    let ds = d->Array_0@;
    assert(veq(cs[0], ds[0]));
    assert(veq(cs[1], ds[1]));
    let cp = cs[0]->Array_0@;
    let dp = ds[0]->Array_0@;
    assert forall|t: int| 0 <= t < cp.len() implies is_quoted_ident(#[trigger] cp[t])
        && param_name(cp[t]) == param_name(dp[t]) by {
        assert(veq(cp[t], dp[t]));
        assert(veq(*cp[t]->Quote_0, *dp[t]->Quote_0));
    }
    assert(veq(cs[1]->Array_0@[0], ds[1]->Array_0@[0]));
}

/// The native callable an op-call body names, resolved in the caller's
/// environment.
pub open spec fn op_callee(pre: Environment, def: Seq<Value>) -> Value {
    match pre.lookup(def[1]->Array_0@[1]->Identifier_0@) {
        Option::Some(f) => f,
        Option::None => Value::Null,
    }
}

/// A user-defined callable whose body is one flat call of a native
/// callable on the parameters, in declaration order — the shape a
/// two-parameter arithmetic wrapper has.
pub open spec fn op_call_def(def: Seq<Value>) -> bool {
    &&& def.len() >= 2
    &&& def[0] is Array
    &&& def[1] is Array
    &&& params_wf(def[0]->Array_0@)
    &&& ({
        let params = def[0]->Array_0@;
        let body = def[1]->Array_0@;
        &&& body.len() == params.len() + 3
        &&& body[0] is OpenFunc
        &&& body[1] is Identifier
        &&& body.last() is CloseFunc
        &&& (forall|t: int|
            0 <= t < params.len() ==> #[trigger] body[2 + t] is Identifier && body[2
                + t]->Identifier_0@ == param_name(params[t]))
        &&& (forall|t: int|
            0 <= t < params.len() ==> body[1]->Identifier_0@ != param_name(
                #[trigger] params[t],
            ))
    })
}

/// Calls a user-defined callable: a new scope is pushed, each parameter
/// name is bound to its argument in matching positional order, the body
/// runs as a nested token sequence in the shared environment, and the
/// scope is popped again on every exit path. A parameter/argument count
/// mismatch is an arity error.
#[verifier::loop_isolation(false)]
fn call_user(
    def: Vec<Value>,
    args_frame: Vec<Value>,
    symbol_table: &mut Environment,
    depth: u64,
) -> (r: Result<Value, LCoreError>)
    requires
        old(symbol_table).wf(),
    ensures
        final(symbol_table).wf(),
        final(symbol_table).scopes@.len() == old(symbol_table).scopes@.len(),
        final(symbol_table).modules == old(symbol_table).modules,
        output_extended(*old(symbol_table), *final(symbol_table)),
        (depth > 0 && def@.len() >= 2 && def@[0] is Array && def@[1] is Array
            && def@[0]->Array_0@.len() != args_frame@.len()) ==> (r matches Err(e)
            && e is ArityError),
        forall|j: int|
            (!old(symbol_table).halted && depth > 0 && #[trigger] projection_def(def@, j)
                && args_frame@.len() == def@[0]->Array_0@.len()) ==> (r matches Ok(u) && veq(
                u,
                args_frame@[j],
            )),
        (!old(symbol_table).halted && depth > 0 && op_call_def(def@) && args_frame@.len()
            == def@[0]->Array_0@.len() && (forall|t: int|
            0 <= t < args_frame@.len() ==> !(#[trigger] args_frame@[t] is Quote)) && (match old(
            symbol_table,
        ).lookup(def@[1]->Array_0@[1]->Identifier_0@) {
            Option::Some(f) => f is Func,
            Option::None => false,
        })) ==> (exists|actual: Seq<Value>, env1: Environment, env2: Environment|
            {
                &&& actual.len() == args_frame@.len()
                &&& (forall|t: int|
                    0 <= t < actual.len() ==> veq(#[trigger] actual[t], args_frame@[t]))
                &&& #[trigger] builtin_spec(
                    op_callee(*old(symbol_table), def@)->Func_0,
                    actual,
                    (depth - 1) as u64,
                    env1,
                    env2,
                    r,
                )
                &&& env1.scopes@.drop_last() == old(symbol_table).scopes@
                &&& env1.output == old(symbol_table).output
                &&& env1.halted == old(symbol_table).halted
                &&& env1.modules == old(symbol_table).modules
            }),
    decreases depth, 1int,
{
    if depth == 0 {
        proof {
            assert(final(symbol_table).output@.take(old(symbol_table).output@.len() as int)
                =~= old(symbol_table).output@);
        }
        return Result::Err(
            LCoreError::LambdaCoreError("recursion limit exceeded".to_owned()),
        );
    }
    let mut d = def;
    if d.len() < 2 {
        proof {
            assert(final(symbol_table).output@.take(old(symbol_table).output@.len() as int)
                =~= old(symbol_table).output@);
        }
        return Result::Err(
            LCoreError::ArgumentError("malformed user-defined callable".to_owned()),
        );
    }
    let params_v = d.remove(0);
    let body_v = d.remove(0);
    let params = match params_v {
        Value::Array(p) => p,
        _ => {
            proof {
            assert(final(symbol_table).output@.take(old(symbol_table).output@.len() as int)
                =~= old(symbol_table).output@);
        }
        return Result::Err(
                LCoreError::ArgumentError("malformed parameter list".to_owned()),
            );
        },
    };
    let mut body = match body_v {
        Value::Array(bv) => bv,
        _ => {
            proof {
            assert(final(symbol_table).output@.take(old(symbol_table).output@.len() as int)
                =~= old(symbol_table).output@);
        }
        return Result::Err(
                LCoreError::ArgumentError("malformed callable body".to_owned()),
            );
        },
    };
    let mut args_own = args_frame;
    if args_own.len() != params.len() {
        proof {
            assert(final(symbol_table).output@.take(old(symbol_table).output@.len() as int)
                =~= old(symbol_table).output@);
        }
        return Result::Err(
            LCoreError::ArityError(
                "wrong number of arguments for user-defined callable".to_owned(),
            ),
        );
    }
    symbol_table.push();
    let mut i: usize = 0;
    proof {
        assert(args_own@ =~= args_frame@.skip(0));
    }
    while i < params.len()
        invariant
            i <= params@.len(),
            args_own@.len() == params@.len() - i,
            args_own@ == args_frame@.skip(i as int),
            symbol_table.wf(),
            symbol_table.scopes@.len() == old(symbol_table).scopes@.len() + 1,
            symbol_table.scopes@.drop_last() == old(symbol_table).scopes@,
            symbol_table.output == old(symbol_table).output,
            symbol_table.halted == old(symbol_table).halted,
            symbol_table.modules == old(symbol_table).modules,
            params_wf(params@) ==> (forall|t: int|
                0 <= t < i ==> symbol_table.lookup(param_name(#[trigger] params@[t]))
                    == Option::Some(args_frame@[t])),
            forall|n: Seq<char>|
                (forall|t: int| 0 <= t < i ==> n != param_name(#[trigger] params@[t]))
                    ==> #[trigger] symbol_table.lookup(n) == old(symbol_table).lookup(n),
        decreases params@.len() - i,
    {
        let bound = match &params[i] {
            Value::Quote(bx) => {
                match &**bx {
                    Value::Identifier(nm) => {
                        let v = args_own.remove(0);
                        proof {
                            assert(args_own@ =~= args_frame@.skip(i + 1));
                            assert(v == args_frame@[i as int]);
                        }
                        symbol_table.insert(nm.clone(), v);
                        proof {
                            if params_wf(params@) {
                                assert(nm@ == param_name(params@[i as int]));
                                assert forall|t: int| 0 <= t < i + 1 implies symbol_table.lookup(
                                    param_name(#[trigger] params@[t]),
                                ) == Option::Some(args_frame@[t]) by {
                                    if t < i {
                                        assert(param_name(params@[t]) != param_name(
                                            params@[i as int],
                                        ));
                                    }
                                }
                            }
                        }
                        true
                    },
                    _ => false,
                }
            },
            _ => false,
        };
        if !bound {
            symbol_table.pop();
            proof {
            assert(final(symbol_table).output@.take(old(symbol_table).output@.len() as int)
                =~= old(symbol_table).output@);
        }
            return Result::Err(
                LCoreError::ArgumentError(
                    "parameter names must be quoted identifiers".to_owned(),
                ),
            );
        }
        i = i + 1;
    }
    let mut q: VecDeque<Value> = VecDeque::new();
    let body0 = Ghost(body@);
    while body.len() > 0
        invariant
            q@ + body@ == body0@,
            symbol_table.wf(),
            symbol_table.scopes@.len() == old(symbol_table).scopes@.len() + 1,
            symbol_table.scopes@.drop_last() == old(symbol_table).scopes@,
            symbol_table.output == old(symbol_table).output,
            symbol_table.halted == old(symbol_table).halted,
            symbol_table.modules == old(symbol_table).modules,
            params_wf(params@) ==> (forall|t: int|
                0 <= t < params@.len() ==> symbol_table.lookup(
                    param_name(#[trigger] params@[t]),
                ) == Option::Some(args_frame@[t])),
            forall|n: Seq<char>|
                (forall|t: int|
                    0 <= t < params@.len() ==> n != param_name(#[trigger] params@[t]))
                    ==> #[trigger] symbol_table.lookup(n) == old(symbol_table).lookup(n),
        decreases body@.len(),
    {
        q.push_back(body.remove(0));
        proof {
            assert(q@ + body@ =~= body0@);
        }
    }
    proof {
        assert(q@ =~= body0@);
    }
    let mid = Ghost(*symbol_table);
    let qpre = Ghost(q@);
    let r = interpret_depth(&mut q, symbol_table, depth - 1);
    let post_call = Ghost(*symbol_table);
    symbol_table.pop();
    proof {
        assert(mid@.output@.take(old(symbol_table).output@.len() as int) =~= old(
            symbol_table,
        ).output@);
        lemma_output_extended_trans(*old(symbol_table), mid@, *final(symbol_table));
        assert forall|j: int|
            (!old(symbol_table).halted && depth > 0 && #[trigger] projection_def(def@, j)
                && args_frame@.len() == def@[0]->Array_0@.len()) implies (r matches Ok(u) && veq(
            u,
            args_frame@[j],
        )) by {
            assert(params@ == def@[0]->Array_0@);
            assert(body0@ == def@[1]->Array_0@);
            assert(qpre@.len() == 1 && qpre@[0] is Identifier);
            assert(mid@.lookup(qpre@[0]->Identifier_0@) == Option::Some(args_frame@[j]));
        }
        if !old(symbol_table).halted && depth > 0 && op_call_def(def@) && args_frame@.len()
            == def@[0]->Array_0@.len() && (forall|t: int|
            0 <= t < args_frame@.len() ==> !(#[trigger] args_frame@[t] is Quote)) && (match old(
            symbol_table,
        ).lookup(def@[1]->Array_0@[1]->Identifier_0@) {
            Option::Some(f) => f is Func,
            Option::None => false,
        }) {
            let opname = def@[1]->Array_0@[1]->Identifier_0@;
            let plen = params@.len() as int;
            assert(params@ == def@[0]->Array_0@);
            assert(body0@ == def@[1]->Array_0@);
            assert(qpre@ == body0@);
            assert(mid@.lookup(opname) == old(symbol_table).lookup(opname));
            assert(flat_mixed_call(qpre@, mid@)) by {
                assert forall|i: int|
                    2 <= i < qpre@.len() - 1 implies (is_verbatim(#[trigger] qpre@[i]) || (
                qpre@[i] is Identifier && mid@.lookup(qpre@[i]->Identifier_0@) is Some)) by {
                    assert(qpre@[i] == body0@[2 + (i - 2)]);
                    assert(mid@.lookup(param_name(params@[i - 2])) == Option::Some(
                        args_frame@[i - 2],
                    ));
                }
                assert forall|i: int|
                    3 <= i < qpre@.len() - 1 && #[trigger] qpre@[i] is Identifier implies !(
                eval_arg(qpre@[i - 1], mid@) is Quote) by {
                    assert(qpre@[i - 1] == body0@[2 + (i - 3)]);
                    assert(eval_arg(qpre@[i - 1], mid@) == args_frame@[i - 3]);
                }
            }
            let a = choose|actual: Seq<Value>|
                {
                    &&& actual.len() == flat_call_args(qpre@).len()
                    &&& (forall|t: int|
                        0 <= t < actual.len() ==> veq(
                            #[trigger] actual[t],
                            eval_arg(flat_call_args(qpre@)[t], mid@),
                        ))
                    &&& #[trigger] builtin_spec(
                        callee_func(qpre@, mid@)->Func_0,
                        actual,
                        (depth - 1) as u64,
                        mid@,
                        post_call@,
                        r,
                    )
                };
            assert(a.len() == args_frame@.len());
            assert forall|t: int| 0 <= t < a.len() implies veq(
                #[trigger] a[t],
                args_frame@[t],
            ) by {
                assert(flat_call_args(qpre@)[t] == body0@[2 + t]);
                assert(eval_arg(flat_call_args(qpre@)[t], mid@) == args_frame@[t]);
            }
            assert(op_callee(*old(symbol_table), def@) == callee_func(qpre@, mid@));
            assert(builtin_spec(
                op_callee(*old(symbol_table), def@)->Func_0,
                a,
                (depth - 1) as u64,
                mid@,
                post_call@,
                r,
            ));
        }
    }
    r
}


/// A token queue that is one flat call: the call markers around an
/// identifier callee, with evaluated (verbatim) argument tokens between.
pub open spec fn flat_call_shape(q: Seq<Value>) -> bool {
    &&& q.len() >= 3
    &&& q[0] is OpenFunc
    &&& q[1] is Identifier
    &&& q.last() is CloseFunc
    &&& (forall|i: int| 2 <= i < q.len() - 1 ==> is_verbatim(#[trigger] q[i]))
}

/// A flat call whose callee resolves to some bound value.
pub open spec fn flat_resolved_call(q: Seq<Value>, pre: Environment) -> bool {
    &&& flat_call_shape(q)
    &&& pre.lookup(q[1]->Identifier_0@) is Some
}

/// What one argument token contributes to the call frame: a verbatim
/// token stands for itself, an identifier for its binding.
pub open spec fn eval_arg(t: Value, pre: Environment) -> Value {
    if t is Identifier {
        match pre.lookup(t->Identifier_0@) {
            Option::Some(w) => w,
            Option::None => Value::Null,
        }
    } else {
        t
    }
}

/// A flat native call whose argument tokens are verbatim values or
/// resolvable identifiers, with no identifier directly after a token that
/// evaluates to a quote (which the deferred-evaluation rule would
/// capture instead).
pub open spec fn flat_mixed_call(q: Seq<Value>, pre: Environment) -> bool {
    &&& q.len() >= 3
    &&& q[0] is OpenFunc
    &&& q[1] is Identifier
    &&& q.last() is CloseFunc
    &&& (forall|i: int|
        2 <= i < q.len() - 1 ==> (is_verbatim(#[trigger] q[i]) || (q[i] is Identifier
            && pre.lookup(q[i]->Identifier_0@) is Some)))
    &&& (forall|i: int|
        3 <= i < q.len() - 1 && #[trigger] q[i] is Identifier ==> !(eval_arg(
            q[i - 1],
            pre,
        ) is Quote))
    &&& (match pre.lookup(q[1]->Identifier_0@) {
        Option::Some(f) => f is Func,
        Option::None => false,
    })
}

/// A flat call whose callee resolves to a native callable.
pub open spec fn flat_builtin_call(q: Seq<Value>, pre: Environment) -> bool {
    &&& flat_call_shape(q)
    &&& (match pre.lookup(q[1]->Identifier_0@) {
        Option::Some(f) => f is Func,
        Option::None => false,
    })
}

/// An arity mismatch in a flat call of a user-defined callable: the bound
/// two-part definition's parameter list has a different length than the
/// call's argument list.
pub open spec fn flat_user_call_mismatch(q: Seq<Value>, pre: Environment) -> bool {
    &&& flat_call_shape(q)
    &&& (match pre.lookup(q[1]->Identifier_0@) {
        Option::Some(d) => d is Array && d->Array_0@.len() >= 2 && d->Array_0@[0] is Array
            && d->Array_0@[1] is Array && d->Array_0@[0]->Array_0@.len() != flat_call_args(
            q,
        ).len(),
        Option::None => false,
    })
}

/// The argument tokens of a flat call.
pub open spec fn flat_call_args(q: Seq<Value>) -> Seq<Value> {
    q.subrange(2, q.len() - 1)
}

/// A flat native call followed by one identifier read: the common
/// bind-then-read program shape.
pub open spec fn call_then_read(q: Seq<Value>, pre: Environment) -> bool {
    &&& q.len() >= 4
    &&& flat_builtin_call(q.take(q.len() - 1), pre)
    &&& q.last() is Identifier
}

/// A token queue that is one generic brace composite: evaluated tokens
/// between the symmetric composite markers.
pub open spec fn brace_literal(q: Seq<Value>) -> bool {
    &&& q.len() >= 2
    &&& q[0] is OpenBrace
    &&& q.last() is CloseBrace
    &&& (forall|i: int| 1 <= i < q.len() - 1 ==> is_verbatim(#[trigger] q[i]))
}

/// The element tokens of a brace composite.
pub open spec fn brace_items(q: Seq<Value>) -> Seq<Value> {
    q.subrange(1, q.len() - 1)
}

/// The callable value a flat call's callee resolves to.
pub open spec fn callee_func(q: Seq<Value>, pre: Environment) -> Value {
    match pre.lookup(q[1]->Identifier_0@) {
        Option::Some(f) => f,
        Option::None => Value::Null,
    }
}

/// Interprets a token queue against the environment. The result is the
/// last value collected in the outermost frame; an empty program yields
/// `Null`. A verbatim token evaluates to itself, an identifier to a copy
/// of its binding (or a name error), and a quote token directly followed
/// by an identifier token leaves the raw, unevaluated identifier. A flat
/// native call behaves exactly as `builtin_spec` says of its callee, also
/// when followed by one identifier read; a brace composite collects its
/// tokens into one array; an arity mismatch on a user-defined callee is
/// an arity error. Scope depth and the module table are preserved on
/// every path, output only grows, and on success the queue is consumed
/// unless a builtin halted the run.
#[verifier::loop_isolation(false)]
#[verifier::rlimit(100)]
pub fn interpret_depth(
    stack: &mut VecDeque<Value>,
    symbol_table: &mut Environment,
    depth: u64,
) -> (r: Result<Value, LCoreError>)
    requires
        old(symbol_table).wf(),
    ensures
        final(symbol_table).wf(),
        final(symbol_table).scopes@.len() == old(symbol_table).scopes@.len(),
        final(symbol_table).modules == old(symbol_table).modules,
        output_extended(*old(symbol_table), *final(symbol_table)),
        r matches Ok(_) ==> (final(stack)@.len() == 0 || final(symbol_table).halted),
        old(stack)@.len() == 0 ==> (r matches Ok(v) && v is Null && *final(symbol_table) == *old(
            symbol_table,
        )),
        old(symbol_table).halted ==> (r matches Ok(v) && v is Null && *final(symbol_table) == *old(
            symbol_table,
        ) && final(stack)@ == old(stack)@),
        (!old(symbol_table).halted && old(stack)@.len() == 1 && is_verbatim(old(stack)@[0])) ==> (
        r matches Ok(v) && v == old(stack)@[0] && *final(symbol_table) == *old(symbol_table)),
        (!old(symbol_table).halted && old(stack)@.len() == 1 && old(stack)@[0] is Identifier)
            ==> (match old(symbol_table).lookup(old(stack)@[0]->Identifier_0@) {
            Option::Some(w) => r matches Ok(u) && veq(u, w) && *final(symbol_table) == *old(
                symbol_table,
            ),
            Option::None => r matches Err(e) && e is NameError && *final(symbol_table) == *old(
                symbol_table,
            ),
        }),
        (!old(symbol_table).halted && old(stack)@.len() >= 1 && old(stack)@[0] is Identifier
            && old(symbol_table).lookup(old(stack)@[0]->Identifier_0@) is None) ==> (
        r matches Err(e) && e is NameError && *final(symbol_table) == *old(symbol_table)),
        (!old(symbol_table).halted && old(stack)@.len() == 2 && old(stack)@[0] is Quote && old(
            stack,
        )@[1] is Identifier) ==> (r matches Ok(v) && v == old(stack)@[1] && *final(symbol_table)
            == *old(symbol_table)),
        (!old(symbol_table).halted && flat_builtin_call(old(stack)@, *old(symbol_table)))
            ==> builtin_spec(
            callee_func(old(stack)@, *old(symbol_table))->Func_0,
            flat_call_args(old(stack)@),
            depth,
            *old(symbol_table),
            *final(symbol_table),
            r,
        ),
        (!old(symbol_table).halted && flat_mixed_call(old(stack)@, *old(symbol_table))) ==> (
        exists|actual: Seq<Value>|
            {
                &&& actual.len() == flat_call_args(old(stack)@).len()
                &&& (forall|t: int|
                    0 <= t < actual.len() ==> veq(
                        #[trigger] actual[t],
                        eval_arg(flat_call_args(old(stack)@)[t], *old(symbol_table)),
                    ))
                &&& #[trigger] builtin_spec(
                    callee_func(old(stack)@, *old(symbol_table))->Func_0,
                    actual,
                    depth,
                    *old(symbol_table),
                    *final(symbol_table),
                    r,
                )
            }),
        (!old(symbol_table).halted && brace_literal(old(stack)@)) ==> (r matches Ok(v)
            && v is Array && v->Array_0@ == brace_items(old(stack)@) && *final(symbol_table)
            == *old(symbol_table)),
        (!old(symbol_table).halted && call_then_read(old(stack)@, *old(symbol_table))) ==> (
        exists|mid: Result<Value, LCoreError>|
            {
                &&& #[trigger] builtin_spec(
                    callee_func(
                        old(stack)@.take(old(stack)@.len() - 1),
                        *old(symbol_table),
                    )->Func_0,
                    flat_call_args(old(stack)@.take(old(stack)@.len() - 1)),
                    depth,
                    *old(symbol_table),
                    *final(symbol_table),
                    mid,
                )
                &&& (match mid {
                    Result::Err(e) => r == Result::<Value, LCoreError>::Err(e),
                    Result::Ok(v) => (if final(symbol_table).halted {
                        r matches Ok(u) && u == v
                    } else if v is Quote {
                        r matches Ok(u) && u == old(stack)@.last()
                    } else {
                        match final(symbol_table).lookup(old(stack)@.last()->Identifier_0@) {
                            Option::Some(w) => r matches Ok(u) && veq(u, w),
                            Option::None => r matches Err(e2) && e2 is NameError,
                        }
                    }),
                })
            }),
        forall|j: int|
            (!old(symbol_table).halted && depth > 0 && #[trigger] flat_user_projection(
                old(stack)@,
                *old(symbol_table),
                j,
            )) ==> (r matches Ok(u) && veq(u, flat_call_args(old(stack)@)[j])),
        (!old(symbol_table).halted && depth > 0 && flat_user_call_mismatch(
            old(stack)@,
            *old(symbol_table),
        )) ==> (r matches Err(e) && e is ArityError),
    decreases depth, 2int,
{
    let mut frames: Vec<Vec<Value>> = Vec::new();
    frames.push(Vec::new());
    proof {
        assert(symbol_table.output@.take(old(symbol_table).output@.len() as int) =~= old(
            symbol_table,
        ).output@);
    }
    while stack.len() > 0 && !symbol_table.halted
        invariant
            symbol_table.wf(),
            symbol_table.scopes@.len() == old(symbol_table).scopes@.len(),
            symbol_table.modules == old(symbol_table).modules,
            output_extended(*old(symbol_table), *symbol_table),
            frames@.len() >= 1,
            old(stack)@.len() == 0 ==> (stack@ == old(stack)@ && frames@.len() == 1
                && frames@[0]@.len() == 0 && *symbol_table == *old(symbol_table)),
            old(symbol_table).halted ==> (stack@ == old(stack)@ && frames@.len() == 1
                && frames@[0]@.len() == 0 && *symbol_table == *old(symbol_table)),
            (!old(symbol_table).halted && old(stack)@.len() == 1 && is_verbatim(old(stack)@[0]))
                ==> ((stack@ == old(stack)@ && frames@.len() == 1 && frames@[0]@.len() == 0
                && *symbol_table == *old(symbol_table)) || (stack@.len() == 0 && frames@.len() == 1
                && frames@[0]@.len() == 1 && frames@[0]@[0] == old(stack)@[0] && *symbol_table
                == *old(symbol_table))),
            (!old(symbol_table).halted && flat_resolved_call(old(stack)@, *old(symbol_table)))
                ==> ({
                let q0 = old(stack)@;
                let k = q0.len() - stack@.len();
                &&& stack@.len() <= q0.len()
                &&& stack@ == q0.skip(k)
                &&& (k == 0 ==> frames@.len() == 1 && frames@[0]@.len() == 0 && *symbol_table
                    == *old(symbol_table))
                &&& (k == 1 ==> frames@.len() == 2 && frames@[0]@.len() == 0 && frames@[1]@.len()
                    == 0 && *symbol_table == *old(symbol_table))
                &&& ((2 <= k && k < q0.len()) ==> frames@.len() == 2 && frames@[0]@.len() == 0
                    && frames@[1]@ == seq![frames@[1]@[0]] + flat_call_args(q0).take(k - 2)
                    && veq(frames@[1]@[0], callee_func(q0, *old(symbol_table))) && *symbol_table
                    == *old(symbol_table))
                &&& (k == q0.len() ==> frames@.len() == 1 && frames@[0]@.len() == 1 && !(depth
                    > 0 && flat_user_call_mismatch(q0, *old(symbol_table))) && (forall|j: int|
                    (depth > 0 && #[trigger] flat_user_projection(
                        q0,
                        *old(symbol_table),
                        j,
                    )) ==> veq(frames@[0]@[0], flat_call_args(q0)[j])) && (
                flat_builtin_call(q0, *old(symbol_table)) ==> builtin_spec(
                    callee_func(q0, *old(symbol_table))->Func_0,
                    flat_call_args(q0),
                    depth,
                    *old(symbol_table),
                    *symbol_table,
                    Result::Ok(frames@[0]@[0]),
                )))
            }),
            (!old(symbol_table).halted && flat_mixed_call(old(stack)@, *old(symbol_table)))
                ==> ({
                let q0 = old(stack)@;
                let k = q0.len() - stack@.len();
                &&& stack@.len() <= q0.len()
                &&& stack@ == q0.skip(k)
                &&& (k == 0 ==> frames@.len() == 1 && frames@[0]@.len() == 0 && *symbol_table
                    == *old(symbol_table))
                &&& (k == 1 ==> frames@.len() == 2 && frames@[0]@.len() == 0 && frames@[1]@.len()
                    == 0 && *symbol_table == *old(symbol_table))
                &&& ((2 <= k && k < q0.len()) ==> frames@.len() == 2 && frames@[0]@.len() == 0
                    && frames@[1]@.len() == k - 1 && veq(
                    frames@[1]@[0],
                    callee_func(q0, *old(symbol_table)),
                ) && (forall|t: int|
                    0 <= t < k - 2 ==> veq(
                        #[trigger] frames@[1]@[1 + t],
                        eval_arg(flat_call_args(q0)[t], *old(symbol_table)),
                    )) && *symbol_table == *old(symbol_table))
                &&& (k == q0.len() ==> frames@.len() == 1 && frames@[0]@.len() == 1 && (exists|
                    actual: Seq<Value>,
                |
                    {
                        &&& actual.len() == flat_call_args(q0).len()
                        &&& (forall|t: int|
                            0 <= t < actual.len() ==> veq(
                                #[trigger] actual[t],
                                eval_arg(flat_call_args(q0)[t], *old(symbol_table)),
                            ))
                        &&& #[trigger] builtin_spec(
                            callee_func(q0, *old(symbol_table))->Func_0,
                            actual,
                            depth,
                            *old(symbol_table),
                            *symbol_table,
                            Result::Ok(frames@[0]@[0]),
                        )
                    }))
            }),
            (!old(symbol_table).halted && brace_literal(old(stack)@)) ==> ({
                let q0 = old(stack)@;
                let k = q0.len() - stack@.len();
                &&& stack@.len() <= q0.len()
                &&& stack@ == q0.skip(k)
                &&& *symbol_table == *old(symbol_table)
                &&& (k == 0 ==> frames@.len() == 1 && frames@[0]@.len() == 0)
                &&& ((1 <= k && k < q0.len()) ==> frames@.len() == 2 && frames@[0]@.len() == 0
                    && frames@[1]@ == brace_items(q0).take(k - 1))
                &&& (k == q0.len() ==> frames@.len() == 1 && frames@[0]@.len() == 1
                    && frames@[0]@[0] is Array && frames@[0]@[0]->Array_0@ == brace_items(q0))
            }),
            (!old(symbol_table).halted && call_then_read(old(stack)@, *old(symbol_table))) ==> ({
                let q0 = old(stack)@;
                let p = q0.take(q0.len() - 1);
                let k = q0.len() - stack@.len();
                let f = callee_func(p, *old(symbol_table));
                &&& stack@.len() <= q0.len()
                &&& stack@ == q0.skip(k)
                &&& (k == 0 ==> frames@.len() == 1 && frames@[0]@.len() == 0 && *symbol_table
                    == *old(symbol_table))
                &&& (k == 1 ==> frames@.len() == 2 && frames@[0]@.len() == 0 && frames@[1]@.len()
                    == 0 && *symbol_table == *old(symbol_table))
                &&& ((2 <= k && k < q0.len() - 1) ==> frames@.len() == 2 && frames@[0]@.len()
                    == 0 && frames@[1]@ == seq![frames@[1]@[0]] + flat_call_args(p).take(k - 2)
                    && veq(frames@[1]@[0], f) && *symbol_table == *old(symbol_table))
                &&& (k == q0.len() - 1 ==> frames@.len() == 1 && frames@[0]@.len() == 1
                    && builtin_spec(
                    f->Func_0,
                    flat_call_args(p),
                    depth,
                    *old(symbol_table),
                    *symbol_table,
                    Result::Ok(frames@[0]@[0]),
                ))
                &&& (k == q0.len() ==> frames@.len() == 1 && !symbol_table.halted && (exists|
                    mid: Value,
                |
                    {
                        &&& #[trigger] builtin_spec(
                            f->Func_0,
                            flat_call_args(p),
                            depth,
                            *old(symbol_table),
                            *symbol_table,
                            Result::Ok(mid),
                        )
                        &&& (if mid is Quote {
                            frames@[0]@ == seq![q0.last()]
                        } else {
                            match symbol_table.lookup(q0.last()->Identifier_0@) {
                                Option::Some(w) => frames@[0]@.len() == 2 && veq(
                                    frames@[0]@.last(),
                                    w,
                                ),
                                Option::None => false,
                            }
                        })
                    }))
            }),
            (!old(symbol_table).halted && old(stack)@.len() >= 1 && old(stack)@[0] is Identifier
                && old(symbol_table).lookup(old(stack)@[0]->Identifier_0@) is None) ==> (stack@
                == old(stack)@ && frames@.len() == 1 && frames@[0]@.len() == 0 && *symbol_table
                == *old(symbol_table)),
            (!old(symbol_table).halted && old(stack)@.len() == 1 && old(stack)@[0] is Identifier)
                ==> ((stack@ == old(stack)@ && frames@.len() == 1 && frames@[0]@.len() == 0
                && *symbol_table == *old(symbol_table)) || (stack@.len() == 0 && frames@.len()
                == 1 && frames@[0]@.len() == 1 && *symbol_table == *old(symbol_table) && (
            match old(symbol_table).lookup(old(stack)@[0]->Identifier_0@) {
                Option::Some(w) => veq(frames@[0]@[0], w),
                Option::None => false,
            }))),
            (!old(symbol_table).halted && old(stack)@.len() == 2 && old(stack)@[0] is Quote && old(
                stack,
            )@[1] is Identifier) ==> ((stack@ == old(stack)@ && frames@.len() == 1
                && frames@[0]@.len() == 0 && *symbol_table == *old(symbol_table)) || (stack@.len()
                == 1 && stack@[0] == old(stack)@[1] && frames@.len() == 1 && frames@[0]@.len() == 1
                && frames@[0]@[0] is Quote && *symbol_table == *old(symbol_table)) || (stack@.len()
                == 0 && frames@.len() == 1 && frames@[0]@.len() == 1 && frames@[0]@[0] == old(
                stack,
            )@[1] && *symbol_table == *old(symbol_table))),
        decreases stack@.len(),
    {
        let node = stack.pop_front().unwrap();
        proof {
            let q0 = old(stack)@;
            if !old(symbol_table).halted && flat_resolved_call(q0, *old(symbol_table)) {
                let k = q0.len() - stack@.len();
                assert(q0.skip(k - 1).skip(1) =~= q0.skip(k));
                assert(node == q0[k - 1]);
            }
            if !old(symbol_table).halted && call_then_read(q0, *old(symbol_table)) {
                let k = q0.len() - stack@.len();
                let p = q0.take(q0.len() - 1);
                assert(q0.skip(k - 1).skip(1) =~= q0.skip(k));
                assert(node == q0[k - 1]);
                if k - 1 < q0.len() - 1 {
                    assert(p[k - 1] == q0[k - 1]);
                }
            }
            if !old(symbol_table).halted && brace_literal(q0) {
                let k = q0.len() - stack@.len();
                assert(q0.skip(k - 1).skip(1) =~= q0.skip(k));
                assert(node == q0[k - 1]);
            }
            if !old(symbol_table).halted && flat_mixed_call(q0, *old(symbol_table)) {
                let k = q0.len() - stack@.len();
                assert(q0.skip(k - 1).skip(1) =~= q0.skip(k));
                assert(node == q0[k - 1]);
            }
        }
        match node {
            Value::Int(_) | Value::Float(_) | Value::Str(_) | Value::Boolean(_) | Value::Null
                | Value::Array(_) | Value::Quote(_) | Value::BackTick | Value::Comma => {
                let mut top = frames.pop().unwrap();
                top.push(node);
                frames.push(top);
                proof {
                    let q0 = old(stack)@;
                    if !old(symbol_table).halted && flat_resolved_call(q0, *old(symbol_table)) {
                        let k = q0.len() - stack@.len();
                        if 3 <= k && k < q0.len() {
                            assert(flat_call_args(q0)[k - 3] == q0[k - 1]);
                            assert(flat_call_args(q0).take(k - 3).push(q0[k - 1])
                                =~= flat_call_args(q0).take(k - 2));
                        }
                    }
                    if !old(symbol_table).halted && call_then_read(q0, *old(symbol_table)) {
                        let p = q0.take(q0.len() - 1);
                        let k = q0.len() - stack@.len();
                        if 3 <= k && k < q0.len() - 1 {
                            assert(flat_call_args(p)[k - 3] == p[k - 1]);
                            assert(p[k - 1] == q0[k - 1]);
                            assert(flat_call_args(p).take(k - 3).push(q0[k - 1])
                                =~= flat_call_args(p).take(k - 2));
                        }
                    }
                    if !old(symbol_table).halted && brace_literal(q0) {
                        let k = q0.len() - stack@.len();
                        if 2 <= k && k < q0.len() {
                            assert(brace_items(q0)[k - 2] == q0[k - 1]);
                            assert(brace_items(q0).take(k - 2).push(q0[k - 1]) =~= brace_items(
                                q0,
                            ).take(k - 1));
                        }
                    }
                    if !old(symbol_table).halted && flat_mixed_call(q0, *old(symbol_table)) {
                        let k = q0.len() - stack@.len();
                        if 3 <= k && k < q0.len() {
                            assert(flat_call_args(q0)[k - 3] == q0[k - 1]);
                            assert(eval_arg(q0[k - 1], *old(symbol_table)) == q0[k - 1]);
                            crate::value::lemma_veq_refl(q0[k - 1]);
                        }
                    }
                }
            },
            Value::Identifier(name) => {
                let pre_frames = Ghost(frames@);
                let mut top = frames.pop().unwrap();
                let mut replace = false;
                if top.len() > 0 {
                    match &top[top.len() - 1] {
                        Value::Quote(_) => {
                            replace = true;
                        },
                        _ => {},
                    }
                }
                if replace {
                    let _shadowed = top.pop();
                    top.push(Value::Identifier(name));
                    frames.push(top);
                    proof {
                        let q0 = old(stack)@;
                        if !old(symbol_table).halted && flat_mixed_call(
                            q0,
                            *old(symbol_table),
                        ) {
                            let k = q0.len() - stack@.len();
                            if k == 2 {
                                assert(pre_frames@[1]@.len() == 0);
                                assert(false);
                            }
                            if k == 3 {
                                assert(veq(
                                    pre_frames@[1]@[0],
                                    callee_func(q0, *old(symbol_table)),
                                ));
                                assert(!(pre_frames@[1]@[0] is Quote));
                                assert(false);
                            }
                            if 4 <= k && k < q0.len() {
                                assert(flat_call_args(q0)[k - 4] == q0[k - 2]);
                                assert(q0[k - 1] is Identifier);
                                assert(!(eval_arg(q0[k - 2], *old(symbol_table)) is Quote));
                                assert(veq(
                                    pre_frames@[1]@[1 + (k - 4)],
                                    eval_arg(q0[k - 2], *old(symbol_table)),
                                ));
                                assert(!(pre_frames@[1]@[k - 3] is Quote));
                                assert(false);
                            }
                        }
                        if !old(symbol_table).halted && call_then_read(q0, *old(symbol_table)) {
                            let k = q0.len() - stack@.len();
                            if k == q0.len() {
                                let p = q0.take(q0.len() - 1);
                                let f = callee_func(p, *old(symbol_table));
                                let m = pre_frames@[0]@[0];
                                assert(builtin_spec(
                                    f->Func_0,
                                    flat_call_args(p),
                                    depth,
                                    *old(symbol_table),
                                    *symbol_table,
                                    Result::Ok(m),
                                ));
                                assert(m is Quote);
                                assert(frames@[0]@ =~= seq![q0.last()]);
                            }
                        }
                    }
                } else {
                    match symbol_table.get(&name) {
                        Option::Some(v) => {
                            let bound = v.dup();
                            top.push(bound);
                            frames.push(top);
                            proof {
                                let q0 = old(stack)@;
                                if !old(symbol_table).halted && flat_resolved_call(
                                    q0,
                                    *old(symbol_table),
                                ) {
                                    let k = q0.len() - stack@.len();
                                    if k == 2 {
                                        let f = callee_func(q0, *old(symbol_table));
                                        assert(*v == f);
                                        assert(veq(bound, f));
                                        assert(flat_call_args(q0).take(0)
                                            =~= Seq::<Value>::empty());
                                        assert(frames@[1]@ =~= seq![bound] + flat_call_args(
                                            q0,
                                        ).take(0));
                                    }
                                }
                                if !old(symbol_table).halted && flat_mixed_call(
                                    q0,
                                    *old(symbol_table),
                                ) {
                                    let k = q0.len() - stack@.len();
                                    let f = callee_func(q0, *old(symbol_table));
                                    if k == 2 {
                                        assert(*v == f);
                                        assert(veq(bound, f));
                                    }
                                    if 3 <= k && k < q0.len() {
                                        assert(flat_call_args(q0)[k - 3] == q0[k - 1]);
                                        assert(eval_arg(q0[k - 1], *old(symbol_table)) == *v);
                                        assert(veq(bound, *v));
                                    }
                                }
                                if !old(symbol_table).halted && call_then_read(
                                    q0,
                                    *old(symbol_table),
                                ) {
                                    let k = q0.len() - stack@.len();
                                    let p = q0.take(q0.len() - 1);
                                    let f = callee_func(p, *old(symbol_table));
                                    if k == 2 {
                                        assert(p[1] == q0[1]);
                                        assert(*v == f);
                                        assert(veq(bound, f));
                                        assert(flat_call_args(p).take(0)
                                            =~= Seq::<Value>::empty());
                                        assert(frames@[1]@ =~= seq![bound] + flat_call_args(
                                            p,
                                        ).take(0));
                                    }
                                    if k == q0.len() {
                                        let m = pre_frames@[0]@[0];
                                        assert(builtin_spec(
                                            f->Func_0,
                                            flat_call_args(p),
                                            depth,
                                            *old(symbol_table),
                                            *symbol_table,
                                            Result::Ok(m),
                                        ));
                                        assert(!(m is Quote));
                                        assert(symbol_table.lookup(q0.last()->Identifier_0@)
                                            == Option::Some(*v));
                                        assert(frames@[0]@.len() == 2 && veq(
                                            frames@[0]@.last(),
                                            *v,
                                        ));
                                    }
                                }
                            }
                        },
                        Option::None => {
                            proof {
                                let q0 = old(stack)@;
                                if !old(symbol_table).halted && call_then_read(
                                    q0,
                                    *old(symbol_table),
                                ) {
                                    let k = q0.len() - stack@.len();
                                    if k == q0.len() {
                                        let p = q0.take(q0.len() - 1);
                                        let f = callee_func(p, *old(symbol_table));
                                        let m = pre_frames@[0]@[0];
                                        assert(builtin_spec(
                                            f->Func_0,
                                            flat_call_args(p),
                                            depth,
                                            *old(symbol_table),
                                            *symbol_table,
                                            Result::Ok(m),
                                        ));
                                        assert(!(m is Quote));
                                        assert(symbol_table.lookup(
                                            q0.last()->Identifier_0@,
                                        ) is None);
                                    }
                                }
                            }
                            let mut msg = "Undefined Variable: No variable named ".to_owned();
                            msg.append(name.as_str());
                            return Result::Err(LCoreError::NameError(msg));
                        },
                    }
                }
            },
            Value::OpenFunc | Value::OpenBrace => {
                frames.push(Vec::new());
            },
            Value::CloseFunc => {
                let cf_frames = Ghost(frames@);
                proof {
                    let q0 = old(stack)@;
                    if !old(symbol_table).halted && flat_mixed_call(q0, *old(symbol_table)) {
                        let k = q0.len() - stack@.len();
                        if k == q0.len() {
                            assert forall|t: int|
                                0 <= t < flat_call_args(q0).len() implies veq(
                                #[trigger] cf_frames@[1]@[1 + t],
                                eval_arg(flat_call_args(q0)[t], *old(symbol_table)),
                            ) by {}
                        }
                    }
                }
                if frames.len() == 1 {
                    return Result::Err(
                        LCoreError::LambdaCoreError("unbalanced call close".to_owned()),
                    );
                }
                let mut frame = frames.pop().unwrap();
                let frame0 = Ghost(frame@);
                if frame.len() == 0 {
                    return Result::Err(
                        LCoreError::LambdaCoreError("call frame has no callee".to_owned()),
                    );
                }
                let callee = frame.remove(0);
                proof {
                    let q0 = old(stack)@;
                    if !old(symbol_table).halted && flat_mixed_call(q0, *old(symbol_table)) {
                        let k = q0.len() - stack@.len();
                        if k == q0.len() {
                            let f = callee_func(q0, *old(symbol_table));
                            assert(veq(callee, f));
                            assert(callee is Func && callee->Func_0 == f->Func_0);
                            assert(frame0@ == cf_frames@[1]@);
                            assert(frame@ =~= frame0@.skip(1));
                            assert(frame@.len() == flat_call_args(q0).len());
                            assert forall|t: int| 0 <= t < frame@.len() implies veq(
                                #[trigger] frame@[t],
                                eval_arg(flat_call_args(q0)[t], *old(symbol_table)),
                            ) by {
                                assert(frame@[t] == cf_frames@[1]@[1 + t]);
                            }
                        }
                    }
                    if !old(symbol_table).halted && call_then_read(q0, *old(symbol_table)) {
                        let k = q0.len() - stack@.len();
                        if k == q0.len() - 1 {
                            let p = q0.take(q0.len() - 1);
                            let f = callee_func(p, *old(symbol_table));
                            assert(flat_call_args(p).take(p.len() - 3) =~= flat_call_args(p));
                            assert(frame@ =~= flat_call_args(p));
                            assert(veq(callee, f));
                            assert(f is Func);
                            assert(callee is Func && callee->Func_0 == f->Func_0);
                        }
                    }
                    if !old(symbol_table).halted && flat_resolved_call(q0, *old(symbol_table)) {
                        let k = q0.len() - stack@.len();
                        if k == q0.len() {
                            let f = callee_func(q0, *old(symbol_table));
                            assert(flat_call_args(q0).take(q0.len() - 3) =~= flat_call_args(q0));
                            assert(frame@ =~= flat_call_args(q0));
                            assert(veq(callee, f));
                            if callee is Func {
                                assert(f is Func && callee->Func_0 == f->Func_0);
                            }
                            if f is Array {
                                assert(callee is Array && callee->Array_0@.len()
                                    == f->Array_0@.len());
                                if f->Array_0@.len() >= 2 {
                                    assert(veq(callee->Array_0@[0], f->Array_0@[0]));
                                    assert(veq(callee->Array_0@[1], f->Array_0@[1]));
                                    if f->Array_0@[0] is Array {
                                        assert(callee->Array_0@[0] is Array
                                            && callee->Array_0@[0]->Array_0@.len()
                                            == f->Array_0@[0]->Array_0@.len());
                                    }
                                    if f->Array_0@[1] is Array {
                                        assert(callee->Array_0@[1] is Array);
                                    }
                                }
                                assert forall|j: int|
                                    flat_user_projection(q0, *old(symbol_table), j) implies (
                                callee is Array && projection_def(callee->Array_0@, j)
                                    && flat_call_args(q0).len()
                                    == callee->Array_0@[0]->Array_0@.len()) by {
                                    lemma_projection_def_veq(callee, f, j);
                                }
                            }
                        }
                    }
                }
                let pre_call = Ghost(*symbol_table);
                let outcome = match callee {
                    Value::Func(b) => dispatch_builtin(
                        b,
                        Value::Array(frame),
                        symbol_table,
                        depth,
                    ),
                    Value::Array(def) => call_user(def, frame, symbol_table, depth),
                    _ => Result::Ok(Value::Null),
                };
                proof {
                    assert(symbol_table.output@.take(pre_call@.output@.len() as int)
                        =~= pre_call@.output@);
                    lemma_output_extended_trans(
                        *old(symbol_table),
                        pre_call@,
                        *symbol_table,
                    );
                }
                match outcome {
                    Result::Ok(ret) => {
                        let mut top = frames.pop().unwrap();
                        top.push(ret);
                        frames.push(top);
                    },
                    Result::Err(e) => {
                        return Result::Err(e);
                    },
                }
            },
            Value::CloseBrace => {
                if frames.len() == 1 {
                    return Result::Err(
                        LCoreError::LambdaCoreError("unbalanced brace close".to_owned()),
                    );
                }
                let brace = frames.pop().unwrap();
                let mut top = frames.pop().unwrap();
                top.push(Value::Array(brace));
                frames.push(top);
                proof {
                    let q0 = old(stack)@;
                    if !old(symbol_table).halted && brace_literal(q0) {
                        let k = q0.len() - stack@.len();
                        if k == q0.len() {
                            assert(brace_items(q0).take(q0.len() - 2) =~= brace_items(q0));
                            assert(brace@ =~= brace_items(q0));
                        }
                    }
                }
            },
            Value::Func(_) | Value::Dict(_) => {},
        }
    }
    let mut last = frames.pop().unwrap();
    match last.pop() {
        Option::Some(v) => Result::Ok(v),
        Option::None => Result::Ok(Value::Null),
    }
}

/// Interprets a program's token queue with the standard recursion
/// budget, under the same guarantees as the budgeted interpreter.
pub fn lcore_interpret(stack: &mut VecDeque<Value>, symbol_table: &mut Environment) -> (r: Result<
    Value,
    LCoreError,
>)
    requires
        old(symbol_table).wf(),
    ensures
        final(symbol_table).wf(),
        final(symbol_table).scopes@.len() == old(symbol_table).scopes@.len(),
        final(symbol_table).modules == old(symbol_table).modules,
        output_extended(*old(symbol_table), *final(symbol_table)),
        r matches Ok(_) ==> (final(stack)@.len() == 0 || final(symbol_table).halted),
        old(stack)@.len() == 0 ==> (r matches Ok(v) && v is Null && *final(symbol_table) == *old(
            symbol_table,
        )),
        (!old(symbol_table).halted && old(stack)@.len() == 1 && is_verbatim(old(stack)@[0])) ==> (
        r matches Ok(v) && v == old(stack)@[0] && *final(symbol_table) == *old(symbol_table)),
        (!old(symbol_table).halted && old(stack)@.len() == 1 && old(stack)@[0] is Identifier)
            ==> (match old(symbol_table).lookup(old(stack)@[0]->Identifier_0@) {
            Option::Some(w) => r matches Ok(u) && veq(u, w) && *final(symbol_table) == *old(
                symbol_table,
            ),
            Option::None => r matches Err(e) && e is NameError && *final(symbol_table) == *old(
                symbol_table,
            ),
        }),
        (!old(symbol_table).halted && old(stack)@.len() >= 1 && old(stack)@[0] is Identifier
            && old(symbol_table).lookup(old(stack)@[0]->Identifier_0@) is None) ==> (
        r matches Err(e) && e is NameError && *final(symbol_table) == *old(symbol_table)),
        (!old(symbol_table).halted && old(stack)@.len() == 2 && old(stack)@[0] is Quote && old(
            stack,
        )@[1] is Identifier) ==> (r matches Ok(v) && v == old(stack)@[1] && *final(symbol_table)
            == *old(symbol_table)),
        (!old(symbol_table).halted && flat_builtin_call(old(stack)@, *old(symbol_table)))
            ==> builtin_spec(
            callee_func(old(stack)@, *old(symbol_table))->Func_0,
            flat_call_args(old(stack)@),
            RECURSION_LIMIT,
            *old(symbol_table),
            *final(symbol_table),
            r,
        ),
        (!old(symbol_table).halted && flat_mixed_call(old(stack)@, *old(symbol_table))) ==> (
        exists|actual: Seq<Value>|
            {
                &&& actual.len() == flat_call_args(old(stack)@).len()
                &&& (forall|t: int|
                    0 <= t < actual.len() ==> veq(
                        #[trigger] actual[t],
                        eval_arg(flat_call_args(old(stack)@)[t], *old(symbol_table)),
                    ))
                &&& #[trigger] builtin_spec(
                    callee_func(old(stack)@, *old(symbol_table))->Func_0,
                    actual,
                    RECURSION_LIMIT,
                    *old(symbol_table),
                    *final(symbol_table),
                    r,
                )
            }),
        (!old(symbol_table).halted && brace_literal(old(stack)@)) ==> (r matches Ok(v)
            && v is Array && v->Array_0@ == brace_items(old(stack)@) && *final(symbol_table)
            == *old(symbol_table)),
        (!old(symbol_table).halted && call_then_read(old(stack)@, *old(symbol_table))) ==> (
        exists|mid: Result<Value, LCoreError>|
            {
                &&& #[trigger] builtin_spec(
                    callee_func(
                        old(stack)@.take(old(stack)@.len() - 1),
                        *old(symbol_table),
                    )->Func_0,
                    flat_call_args(old(stack)@.take(old(stack)@.len() - 1)),
                    RECURSION_LIMIT,
                    *old(symbol_table),
                    *final(symbol_table),
                    mid,
                )
                &&& (match mid {
                    Result::Err(e) => r == Result::<Value, LCoreError>::Err(e),
                    Result::Ok(v) => (if final(symbol_table).halted {
                        r matches Ok(u) && u == v
                    } else if v is Quote {
                        r matches Ok(u) && u == old(stack)@.last()
                    } else {
                        match final(symbol_table).lookup(old(stack)@.last()->Identifier_0@) {
                            Option::Some(w) => r matches Ok(u) && veq(u, w),
                            Option::None => r matches Err(e2) && e2 is NameError,
                        }
                    }),
                })
            }),
        forall|j: int|
            (!old(symbol_table).halted && RECURSION_LIMIT > 0 && #[trigger] flat_user_projection(
                old(stack)@,
                *old(symbol_table),
                j,
            )) ==> (r matches Ok(u) && veq(u, flat_call_args(old(stack)@)[j])),
        (!old(symbol_table).halted && RECURSION_LIMIT > 0 && flat_user_call_mismatch(
            old(stack)@,
            *old(symbol_table),
        )) ==> (r matches Err(e) && e is ArityError),
{
    interpret_depth(stack, symbol_table, RECURSION_LIMIT)
}

} // verus!
