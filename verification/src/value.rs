//! The tagged-union data model for every runtime value, including the
//! deferred-evaluation wrapper (`Quote`) and the transient lexical markers
//! that only ever appear in the token stream.

use vstd::prelude::*;

verus! {

broadcast use vstd::std_specs::vec::group_vec_axioms;

/// The name of one native callable. Native callables are compared by this
/// stable identity, never structurally.
#[derive(Clone, Copy, PartialEq, Eq, Structural, Debug)]
pub enum Builtin {
    Print,
    Prin,
    Add,
    Quit,
    SetVar,
    Loop,
    Defn,
    Get,
    Dict,
    Len,
    Import,
    Swap,
    ToStr,
    Equals,
    NotEquals,
    Or,
}

/// One runtime value.
///
/// Scalars are `Null`, `Boolean`, `Int`, `Float`, `Str` and `Identifier`
/// (a symbol name, distinct from text). A float value carries its decimal
/// lexeme verbatim; two floats are equal exactly when their lexemes are
/// equal, which is the one total equality and hashing policy this runtime
/// commits to for floats. `Array` is an ordered sequence, `Dict` an
/// insertion-ordered association list whose keys are unique under
/// structural equality, `Quote` wraps exactly one nested value to suppress
/// its evaluation, and `Func` names a native callable. The remaining
/// variants are lexical markers that exist only transiently in the token
/// stream between the converter and the evaluator.
#[derive(Debug)]
#[verifier::ext_equal]
pub enum Value {
    Null,
    Identifier(String),
    Boolean(bool),
    Int(i64),
    Float(String),
    Str(String),
    Array(Vec<Value>),
    Func(Builtin),
    Quote(Box<Value>),
    Dict(Vec<(Value, Value)>),
    OpenFunc,
    CloseFunc,
    OpenBrace,
    CloseBrace,
    BackTick,
    Comma,
}

/// Structural equality of two values: scalars by content, arrays pointwise,
/// dictionaries as equal sets of key/value pairs regardless of entry order,
/// quotes by their nested value, and native callables by identity alone.
///
/// On dictionaries this checks equal length and that every left entry
/// occurs on the right, which is a true equivalence exactly on
/// dictionaries whose keys are unique — the invariant every dictionary
/// built by the `dict` builtin keeps, since insertion replaces the first
/// structurally equal key. A hand-built dictionary with duplicate keys is
/// outside that invariant and may compare asymmetrically.
pub open spec fn veq(a: Value, b: Value) -> bool
    decreases a,
{
    match (a, b) {
        (Value::Null, Value::Null) => true,
        (Value::Identifier(x), Value::Identifier(y)) => x@ == y@,
        (Value::Boolean(x), Value::Boolean(y)) => x == y,
        (Value::Int(x), Value::Int(y)) => x == y,
        (Value::Float(x), Value::Float(y)) => x@ == y@,
        (Value::Str(x), Value::Str(y)) => x@ == y@,
        (Value::Array(x), Value::Array(y)) => {
            &&& x@.len() == y@.len()
            &&& forall|i: int| 0 <= i < x@.len() ==> veq(x@[i], y@[i])
        },
        (Value::Func(x), Value::Func(y)) => x == y,
        (Value::Quote(x), Value::Quote(y)) => veq(*x, *y),
        (Value::Dict(x), Value::Dict(y)) => {
            &&& x@.len() == y@.len()
            &&& forall|i: int| 0 <= i < x@.len() ==> dict_pair_in(#[trigger] x@[i], y@)
        },
        (Value::OpenFunc, Value::OpenFunc) => true,
        (Value::CloseFunc, Value::CloseFunc) => true,
        (Value::OpenBrace, Value::OpenBrace) => true,
        (Value::CloseBrace, Value::CloseBrace) => true,
        (Value::BackTick, Value::BackTick) => true,
        (Value::Comma, Value::Comma) => true,
        _ => false,
    }
}

/// Whether some entry of `y` has a key structurally equal to `p`'s key and
/// a value structurally equal to `p`'s value.
pub open spec fn dict_pair_in(p: (Value, Value), y: Seq<(Value, Value)>) -> bool
    decreases p,
{
    exists|j: int| 0 <= j < y.len() && veq(p.0, #[trigger] y[j].0) && veq(p.1, y[j].1)
}

/// A scalar literal leaf of the token stream.
pub open spec fn is_scalar(v: Value) -> bool {
    v is Null || v is Boolean || v is Int || v is Float || v is Str
}

/// A token the evaluator appends to the current frame unchanged: a scalar
/// leaf, a pre-materialized array or quote (never re-walked), or one of
/// the quasiquote placeholders.
pub open spec fn is_verbatim(v: Value) -> bool {
    is_scalar(v) || v is Array || v is Quote || v is BackTick || v is Comma
}

impl Value {
    /// A structural copy of this value, equal to it under `veq`; an array
    /// or dictionary copy corresponds to its source entry by entry.
    #[verifier::loop_isolation(false)]
    pub fn dup(&self) -> (r: Value)
        ensures
            veq(r, *self),
            *self is Array ==> r is Array && r->Array_0@.len() == self->Array_0@.len() && (
            forall|t: int|
                0 <= t < self->Array_0@.len() ==> veq(
                    #[trigger] r->Array_0@[t],
                    self->Array_0@[t],
                )),
            *self is Dict ==> r is Dict && r->Dict_0@.len() == self->Dict_0@.len() && (forall|
                t: int,
            |
                0 <= t < self->Dict_0@.len() ==> veq(#[trigger] r->Dict_0@[t].0, self->Dict_0@[t].0)
                    && veq(r->Dict_0@[t].1, self->Dict_0@[t].1)),
        decreases *self,
    {
        match self {
            Value::Null => Value::Null,
            Value::Identifier(s) => Value::Identifier(s.clone()),
            Value::Boolean(b) => Value::Boolean(*b),
            Value::Int(i) => Value::Int(*i),
            Value::Float(s) => Value::Float(s.clone()),
            Value::Str(s) => Value::Str(s.clone()),
            Value::Array(v) => {
                let mut out: Vec<Value> = Vec::new();
                let mut i: usize = 0;
                while i < v.len()
                    invariant
                        i <= v@.len(),
                        out@.len() == i,
                        forall|k: int| 0 <= k < i ==> veq(#[trigger] out@[k], v@[k]),
                    decreases v@.len() - i,
                {
                    proof {
                        assert(decreases_to!(*self => *v));
                        assert(decreases_to!(*v => v@[i as int]));
                    }
                    out.push(v[i].dup());
                    i = i + 1;
                }
                Value::Array(out)
            },
            Value::Func(b) => Value::Func(*b),
            Value::Quote(b) => Value::Quote(Box::new((&**b).dup())),
            Value::Dict(v) => {
                let mut out: Vec<(Value, Value)> = Vec::new();
                let mut i: usize = 0;
                while i < v.len()
                    invariant
                        i <= v@.len(),
                        out@.len() == i,
                        forall|k: int|
                            0 <= k < i ==> veq(#[trigger] out@[k].0, v@[k].0) && veq(
                                out@[k].1,
                                v@[k].1,
                            ),
                    decreases v@.len() - i,
                {
                    proof {
                        assert(decreases_to!(*self => *v));
                        assert(decreases_to!(*v => v@[i as int]));
                        assert(decreases_to!(v@[i as int] => v@[i as int].0));
                        assert(decreases_to!(v@[i as int] => v@[i as int].1));
                    }
                    let key = v[i].0.dup();
                    let val = v[i].1.dup();
                    out.push((key, val));
                    i = i + 1;
                }
                proof {
                    assert forall|k: int| 0 <= k < out@.len() implies dict_pair_in(
                        #[trigger] out@[k],
                        v@,
                    ) by {
                        assert(0 <= k < v@.len() && veq(out@[k].0, v@[k].0) && veq(
                            out@[k].1,
                            v@[k].1,
                        ));
                    }
                }
                Value::Dict(out)
            },
            Value::OpenFunc => Value::OpenFunc,
            Value::CloseFunc => Value::CloseFunc,
            Value::OpenBrace => Value::OpenBrace,
            Value::CloseBrace => Value::CloseBrace,
            Value::BackTick => Value::BackTick,
            Value::Comma => Value::Comma,
        }
    }
}

/// Decides structural equality: the returned bool is exactly `veq`.
#[verifier::loop_isolation(false)]
pub fn value_eq(a: &Value, b: &Value) -> (r: bool)
    ensures
        r == veq(*a, *b),
    decreases *a,
{
    match (a, b) {
        (Value::Null, Value::Null) => true,
        (Value::Identifier(x), Value::Identifier(y)) => *x == *y,
        (Value::Boolean(x), Value::Boolean(y)) => *x == *y,
        (Value::Int(x), Value::Int(y)) => *x == *y,
        (Value::Float(x), Value::Float(y)) => *x == *y,
        (Value::Str(x), Value::Str(y)) => *x == *y,
        (Value::Array(x), Value::Array(y)) => {
            if x.len() != y.len() {
                return false;
            }
            let mut i: usize = 0;
            while i < x.len()
                invariant
                    i <= x@.len(),
                    forall|k: int| 0 <= k < i ==> veq(#[trigger] x@[k], y@[k]),
                decreases x@.len() - i,
            {
                proof {
                    assert(decreases_to!(*a => *x));
                    assert(decreases_to!(*x => x@[i as int]));
                }
                if !value_eq(&x[i], &y[i]) {
                    return false;
                }
                i = i + 1;
            }
            true
        },
        (Value::Func(x), Value::Func(y)) => *x == *y,
        (Value::Quote(x), Value::Quote(y)) => value_eq(&**x, &**y),
        (Value::Dict(x), Value::Dict(y)) => {
            if x.len() != y.len() {
                return false;
            }
            let mut i: usize = 0;
            while i < x.len()
                invariant
                    i <= x@.len(),
                    forall|k: int| 0 <= k < i ==> dict_pair_in(#[trigger] x@[k], y@),
                decreases x@.len() - i,
            {
                let mut j: usize = 0;
                let mut found = false;
                while j < y.len() && !found
                    invariant
                        j <= y@.len(),
                        found ==> dict_pair_in(x@[i as int], y@),
                        !found ==> forall|t: int|
                            0 <= t < j ==> !(veq(x@[i as int].0, #[trigger] y@[t].0) && veq(
                                x@[i as int].1,
                                y@[t].1,
                            )),
                    decreases (if found { 0int } else { 1int }), y@.len() - j,
                {
                    proof {
                        assert(decreases_to!(*a => *x));
                        assert(decreases_to!(*x => x@[i as int]));
                        assert(decreases_to!(x@[i as int] => x@[i as int].0));
                        assert(decreases_to!(x@[i as int] => x@[i as int].1));
                    }
                    if value_eq(&x[i].0, &y[j].0) && value_eq(&x[i].1, &y[j].1) {
                        found = true;
                    } else {
                        j = j + 1;
                    }
                }
                if !found {
                    proof {
                        assert(!dict_pair_in(x@[i as int], y@));
                    }
                    return false;
                }
                i = i + 1;
            }
            true
        },
        (Value::OpenFunc, Value::OpenFunc) => true,
        (Value::CloseFunc, Value::CloseFunc) => true,
        (Value::OpenBrace, Value::OpenBrace) => true,
        (Value::CloseBrace, Value::CloseBrace) => true,
        (Value::BackTick, Value::BackTick) => true,
        (Value::Comma, Value::Comma) => true,
        _ => false,
    }
}

/// Structural equality is reflexive: every value equals itself.
pub proof fn lemma_veq_refl(v: Value)
    ensures
        veq(v, v),
    decreases v,
{
    match v {
        Value::Array(x) => {
            assert forall|i: int| 0 <= i < x@.len() implies veq(#[trigger] x@[i], x@[i]) by {
                lemma_veq_refl(x@[i]);
            }
        },
        Value::Quote(b) => {
            lemma_veq_refl(*b);
        },
        Value::Dict(x) => {
            assert forall|i: int| 0 <= i < x@.len() implies dict_pair_in(#[trigger] x@[i], x@) by {
                lemma_veq_refl(x@[i].0);
                lemma_veq_refl(x@[i].1);
                assert(0 <= i < x@.len() && veq(x@[i].0, x@[i].0) && veq(x@[i].1, x@[i].1));
            }
        },
        _ => {},
    }
}


impl Value {
    /// The symbol name of an identifier value.
    pub fn as_identifier(&self) -> (r: &String)
        requires
            *self is Identifier,
        ensures
            *self matches Value::Identifier(s) && *r == s,
    {
        match self {
            Value::Identifier(s) => s,
            _ => vstd::pervasive::unreached(),
        }
    }

    /// The payload of a boolean value.
    pub fn as_bool(&self) -> (r: &bool)
        requires
            *self is Boolean,
        ensures
            *self matches Value::Boolean(b) && *r == b,
    {
        match self {
            Value::Boolean(b) => b,
            _ => vstd::pervasive::unreached(),
        }
    }

    /// The payload of an integer value.
    pub fn as_int(&self) -> (r: &i64)
        requires
            *self is Int,
        ensures
            *self matches Value::Int(i) && *r == i,
    {
        match self {
            Value::Int(i) => i,
            _ => vstd::pervasive::unreached(),
        }
    }

    /// The lexeme of a float value.
    pub fn as_float(&self) -> (r: &String)
        requires
            *self is Float,
        ensures
            *self matches Value::Float(s) && *r == s,
    {
        match self {
            Value::Float(s) => s,
            _ => vstd::pervasive::unreached(),
        }
    }

    /// The text of a string value.
    pub fn as_string(&self) -> (r: &String)
        requires
            *self is Str,
        ensures
            *self matches Value::Str(s) && *r == s,
    {
        match self {
            Value::Str(s) => s,
            _ => vstd::pervasive::unreached(),
        }
    }

    /// The elements of an array value.
    pub fn as_array(&self) -> (r: &Vec<Value>)
        requires
            *self is Array,
        ensures
            *self matches Value::Array(a) && *r == a,
    {
        match self {
            Value::Array(a) => a,
            _ => vstd::pervasive::unreached(),
        }
    }

    /// The identity of a native callable value.
    pub fn as_func(&self) -> (r: &Builtin)
        requires
            *self is Func,
        ensures
            *self matches Value::Func(b) && *r == b,
    {
        match self {
            Value::Func(b) => b,
            _ => vstd::pervasive::unreached(),
        }
    }

    /// The single value a quote wraps.
    pub fn as_value(&self) -> (r: &Value)
        requires
            *self is Quote,
        ensures
            *self matches Value::Quote(b) && *r == *b,
    {
        match self {
            Value::Quote(b) => &**b,
            _ => vstd::pervasive::unreached(),
        }
    }
}

} // verus!
