//! Rendering of runtime values as text. This is the computational half of
//! the printing builtins: it builds the exact text, and the environment's
//! output buffer carries it to the host.

use vstd::prelude::*;

use crate::value::Value;

verus! {

broadcast use vstd::std_specs::vec::group_vec_axioms;

/// The character for one decimal digit value.
pub open spec fn digit_char(d: int) -> char {
    ((48 + d) as u8) as char
}

/// The decimal text of a nonnegative number.
pub open spec fn udec_str(m: int) -> Seq<char>
    decreases m,
{
    if m < 10 {
        seq![digit_char(m)]
    } else {
        udec_str(m / 10).push(digit_char(m % 10))
    }
}

/// The decimal text of a signed number.
pub open spec fn dec_str(n: int) -> Seq<char> {
    if n < 0 {
        seq!['-'] + udec_str(-n)
    } else {
        udec_str(n)
    }
}

/// The text a value prints as. `repr` quotes string values, as inside
/// array and dictionary displays; at the top level a string prints bare.
pub open spec fn fmt_value(v: Value, repr: bool) -> Seq<char>
    decreases v,
{
    match v {
        Value::Null => "Null"@,
        Value::Boolean(b) => if b {
            "True"@
        } else {
            "False"@
        },
        Value::Int(i) => dec_str(i as int),
        Value::Float(s) => s@,
        Value::Str(s) => if repr {
            "\""@ + s@ + "\""@
        } else {
            s@
        },
        Value::Identifier(s) => s@,
        Value::Array(a) => "["@ + fmt_items(a@) + "]"@,
        Value::Quote(b) => "(quote "@ + fmt_value(*b, true) + ")"@,
        Value::Dict(d) => "{ "@ + fmt_pairs(d@) + " }"@,
        Value::Func(_) => "<Func>"@,
        Value::OpenFunc => "("@,
        Value::CloseFunc => ")"@,
        _ => Seq::<char>::empty(),
    }
}

/// Array elements, space-separated, each in repr form.
pub open spec fn fmt_items(items: Seq<Value>) -> Seq<char>
    decreases items,
{
    if items.len() == 0 {
        Seq::<char>::empty()
    } else {
        fmt_value(items[0], true) + (if items.len() > 1 {
            " "@
        } else {
            Seq::<char>::empty()
        }) + fmt_items(items.skip(1))
    }
}

/// Dictionary entries as `key: value`, comma-separated, in repr form.
pub open spec fn fmt_pairs(pairs: Seq<(Value, Value)>) -> Seq<char>
    decreases pairs,
{
    if pairs.len() == 0 {
        Seq::<char>::empty()
    } else {
        fmt_value(pairs[0].0, true) + ": "@ + fmt_value(pairs[0].1, true) + (if pairs.len() > 1 {
            ", "@
        } else {
            Seq::<char>::empty()
        }) + fmt_pairs(pairs.skip(1))
    }
}

/// Appends one decimal digit character.
fn push_digit(out: &mut String, d: u64)
    requires
        d < 10,
    ensures
        final(out)@ == old(out)@ + seq![digit_char(d as int)],
{
    let s = match d {
        0u64 => "0",
        1u64 => "1",
        2u64 => "2",
        3u64 => "3",
        4u64 => "4",
        5u64 => "5",
        6u64 => "6",
        7u64 => "7",
        8u64 => "8",
        _ => "9",
    };
    proof {
        reveal_strlit("0");
        reveal_strlit("1");
        reveal_strlit("2");
        reveal_strlit("3");
        reveal_strlit("4");
        reveal_strlit("5");
        reveal_strlit("6");
        reveal_strlit("7");
        reveal_strlit("8");
        reveal_strlit("9");
        assert(s@ =~= seq![digit_char(d as int)]);
    }
    out.append(s);
}

/// Appends the decimal text of a nonnegative number.
fn append_udec(out: &mut String, m: u64)
    ensures
        final(out)@ == old(out)@ + udec_str(m as int),
    decreases m,
{
    if m < 10 {
        push_digit(out, m);
    } else {
        append_udec(out, m / 10);
        push_digit(out, m % 10);
        proof {
            assert(old(out)@ + udec_str((m / 10) as int) + seq![digit_char((m % 10) as int)]
                =~= old(out)@ + udec_str(m as int));
        }
    }
}

/// Appends the decimal text of a signed number.
pub fn append_dec(out: &mut String, n: i64)
    ensures
        final(out)@ == old(out)@ + dec_str(n as int),
{
    if n < 0 {
        out.append("-");
        let m: u64 = ((-(n + 1)) as u64) + 1;
        proof {
            assert(m as int == -(n as int));
            reveal_strlit("-");
        }
        append_udec(out, m);
        proof {
            assert(old(out)@ + "-"@ + udec_str(m as int) =~= old(out)@ + dec_str(n as int));
        }
    } else {
        append_udec(out, n as u64);
    }
}

/// Appends the printed text of a value to `out`.
#[verifier::loop_isolation(false)]
pub fn append_value(out: &mut String, v: &Value, repr: bool)
    ensures
        final(out)@ == old(out)@ + fmt_value(*v, repr),
    decreases *v,
{
    match v {
        Value::Null => {
            out.append("Null");
        },
        Value::Boolean(b) => {
            if *b {
                out.append("True");
            } else {
                out.append("False");
            }
        },
        Value::Int(i) => {
            append_dec(out, *i);
        },
        Value::Float(s) => {
            out.append(s.as_str());
        },
        Value::Str(s) => {
            if repr {
                out.append("\"");
                out.append(s.as_str());
                out.append("\"");
                proof {
                    assert(out@ =~= old(out)@ + ("\""@ + s@ + "\""@));
                }
            } else {
                out.append(s.as_str());
            }
        },
        Value::Identifier(s) => {
            out.append(s.as_str());
        },
        Value::Array(a) => {
            out.append("[");
            let mut i: usize = 0;
            proof {
                assert(a@.skip(0) =~= a@);
                assert(out@ + fmt_items(a@) =~= old(out)@ + "["@ + fmt_items(a@));
            }
            while i < a.len()
                invariant
                    i <= a@.len(),
                    out@ + fmt_items(a@.skip(i as int)) == old(out)@ + "["@ + fmt_items(a@),
                decreases a@.len() - i,
            {
                proof {
                    assert(decreases_to!(*v => *a));
                    assert(decreases_to!(*a => a@[i as int]));
                    assert(a@.skip(i as int)[0] == a@[i as int]);
                    assert(a@.skip(i as int).skip(1) =~= a@.skip(i + 1));
                }
                let pre = Ghost(out@);
                append_value(out, &a[i], true);
                if i + 1 < a.len() {
                    out.append(" ");
                    proof {
                        assert(out@ + fmt_items(a@.skip(i + 1)) =~= pre@ + fmt_items(
                            a@.skip(i as int),
                        ));
                    }
                } else {
                    proof {
                        assert(out@ + fmt_items(a@.skip(i + 1)) =~= pre@ + fmt_items(
                            a@.skip(i as int),
                        ));
                    }
                }
                i = i + 1;
            }
            out.append("]");
            proof {
                assert(a@.skip(a@.len() as int) =~= Seq::<Value>::empty());
                assert(out@ =~= old(out)@ + ("["@ + fmt_items(a@) + "]"@));
            }
        },
        Value::Quote(b) => {
            out.append("(quote ");
            append_value(out, &**b, true);
            out.append(")");
            proof {
                assert(out@ =~= old(out)@ + ("(quote "@ + fmt_value(**b, true) + ")"@));
            }
        },
        Value::Dict(d) => {
            out.append("{ ");
            let mut i: usize = 0;
            proof {
                assert(d@.skip(0) =~= d@);
                assert(out@ + fmt_pairs(d@) =~= old(out)@ + "{ "@ + fmt_pairs(d@));
            }
            while i < d.len()
                invariant
                    i <= d@.len(),
                    out@ + fmt_pairs(d@.skip(i as int)) == old(out)@ + "{ "@ + fmt_pairs(d@),
                decreases d@.len() - i,
            {
                proof {
                    assert(decreases_to!(*v => *d));
                    assert(decreases_to!(*d => d@[i as int]));
                    assert(decreases_to!(d@[i as int] => d@[i as int].0));
                    assert(decreases_to!(d@[i as int] => d@[i as int].1));
                    assert(d@.skip(i as int)[0] == d@[i as int]);
                    assert(d@.skip(i as int).skip(1) =~= d@.skip(i + 1));
                }
                let pre = Ghost(out@);
                append_value(out, &d[i].0, true);
                out.append(": ");
                append_value(out, &d[i].1, true);
                if i + 1 < d.len() {
                    out.append(", ");
                    proof {
                        assert(out@ + fmt_pairs(d@.skip(i + 1)) =~= pre@ + fmt_pairs(
                            d@.skip(i as int),
                        ));
                    }
                } else {
                    proof {
                        assert(out@ + fmt_pairs(d@.skip(i + 1)) =~= pre@ + fmt_pairs(
                            d@.skip(i as int),
                        ));
                    }
                }
                i = i + 1;
            }
            out.append(" }");
            proof {
                assert(d@.skip(d@.len() as int) =~= Seq::<(Value, Value)>::empty());
                assert(out@ =~= old(out)@ + ("{ "@ + fmt_pairs(d@) + " }"@));
            }
        },
        Value::Func(_) => {
            out.append("<Func>");
        },
        Value::OpenFunc => {
            out.append("(");
        },
        Value::CloseFunc => {
            out.append(")");
        },
        Value::OpenBrace => {
            proof {
                assert(old(out)@ + fmt_value(*v, repr) =~= old(out)@);
            }
        },
        Value::CloseBrace => {
            proof {
                assert(old(out)@ + fmt_value(*v, repr) =~= old(out)@);
            }
        },
        Value::BackTick => {
            proof {
                assert(old(out)@ + fmt_value(*v, repr) =~= old(out)@);
            }
        },
        Value::Comma => {
            proof {
                assert(old(out)@ + fmt_value(*v, repr) =~= old(out)@);
            }
        },
    }
}

/// The printed text of a value, as one fresh string.
pub fn format_value(v: &Value, repr: bool) -> (r: String)
    ensures
        r@ == fmt_value(*v, repr),
{
    let mut out = String::new();
    append_value(&mut out, v, repr);
    proof {
        assert(Seq::<char>::empty() + fmt_value(*v, repr) =~= fmt_value(*v, repr));
    }
    out
}

} // verus!
