//! The parse-to-token converter. A parse tree arrives as `ParseNode`s — the
//! node kind, the matched text, and the child nodes, which is all the
//! converter ever reads from the external grammar's output — and leaves as
//! a linear queue of `Value` tokens plus a count of the newlines seen.

use std::collections::VecDeque;
use vstd::prelude::*;

use vstd::string::StringSliceAdditionalSpecFns;

use crate::error::LCoreError;
use crate::value::Value;

verus! {

broadcast use vstd::std_specs::vec::group_vec_axioms;

/// The fixed set of parse-tree node kinds the external grammar emits.
#[derive(Clone, Copy, PartialEq, Eq, Structural, Debug)]
pub enum Rule {
    Program,
    Function,
    Array,
    Quote,
    Number,
    Identifier,
    Str,
    Boolean,
    Null,
    BackTick,
    Comma,
    NewLine,
    EOI,
}

/// One parse-tree node: its kind, the text it matched, and its children in
/// order.
pub struct ParseNode {
    pub rule: Rule,
    pub text: String,
    pub children: Vec<ParseNode>,
}

/// The numeric value of one decimal digit character.
pub open spec fn digit_val(c: char) -> int {
    c as int - 48
}

/// Whether `c` is a decimal digit.
pub open spec fn is_digit(c: char) -> bool {
    48 <= c as int <= 57
}

/// The value of a run of decimal digits, most significant first.
pub open spec fn dec_val(s: Seq<char>) -> int
    decreases s.len(),
{
    if s.len() == 0 {
        0
    } else {
        10 * dec_val(s.drop_last()) + digit_val(s.last())
    }
}

/// A nonempty, all-digit run.
pub open spec fn is_digits(s: Seq<char>) -> bool {
    s.len() > 0 && forall|i: int| 0 <= i < s.len() ==> is_digit(#[trigger] s[i])
}

/// An integer lexeme: digits, optionally preceded by one minus sign.
pub open spec fn is_int_lexeme(s: Seq<char>) -> bool {
    is_digits(s) || (s.len() >= 2 && s[0] == '-' && is_digits(s.skip(1)))
}

/// The signed value an integer lexeme denotes.
pub open spec fn spec_int_of(s: Seq<char>) -> int {
    if s.len() > 0 && s[0] == '-' {
        -dec_val(s.skip(1))
    } else {
        dec_val(s)
    }
}

/// An integer lexeme whose value fits a 64-bit signed integer.
pub open spec fn int_fits(s: Seq<char>) -> bool {
    is_int_lexeme(s) && i64::MIN <= spec_int_of(s) <= i64::MAX
}

/// Whether the lexeme contains a decimal point, which makes a number a
/// float rather than an integer.
pub open spec fn has_dot(s: Seq<char>) -> bool {
    exists|i: int| 0 <= i < s.len() && s[i] == '.'
}

/// The lexemes that denote the true boolean, in any letter case.
pub open spec fn is_true_lexeme(s: Seq<char>) -> bool {
    s.len() == 4 && (s[0] == 't' || s[0] == 'T') && (s[1] == 'r' || s[1] == 'R') && (s[2] == 'u'
        || s[2] == 'U') && (s[3] == 'e' || s[3] == 'E')
}

/// The lexemes that denote the false boolean, in any letter case.
pub open spec fn is_false_lexeme(s: Seq<char>) -> bool {
    s.len() == 5 && (s[0] == 'f' || s[0] == 'F') && (s[1] == 'a' || s[1] == 'A') && (s[2] == 'l'
        || s[2] == 'L') && (s[3] == 's' || s[3] == 'S') && (s[4] == 'e' || s[4] == 'E')
}

/// A digit run's value is never negative.
proof fn lemma_dec_val_nonneg(s: Seq<char>)
    requires
        forall|i: int| 0 <= i < s.len() ==> is_digit(#[trigger] s[i]),
    ensures
        dec_val(s) >= 0,
    decreases s.len(),
{
    if s.len() > 0 {
        lemma_dec_val_nonneg(s.drop_last());
    }
}

/// Extending a digit run multiplies its value by ten and adds the digit,
/// so a longer run is never smaller.
proof fn lemma_dec_val_prefix_le(s: Seq<char>, i: int, j: int)
    requires
        0 <= i <= j <= s.len(),
        forall|t: int| 0 <= t < s.len() ==> is_digit(#[trigger] s[t]),
    ensures
        dec_val(s.take(i)) <= dec_val(s.take(j)),
    decreases j - i,
{
    if i < j {
        lemma_dec_val_prefix_le(s, i, j - 1);
        let p = s.take(j - 1);
        let q = s.take(j);
        assert(q.drop_last() =~= p);
        assert(q.last() == s[j - 1]);
        assert forall|t: int| 0 <= t < p.len() implies is_digit(#[trigger] p[t]) by {
            assert(p[t] == s[t]);
        }
        lemma_dec_val_nonneg(p);
        assert(dec_val(q) == 10 * dec_val(p) + digit_val(s[j - 1]));
        assert(10 * dec_val(p) >= dec_val(p));
    }
}

/// Parses a decimal integer lexeme. Returns the denoted value exactly when
/// the text is an integer lexeme whose value fits 64 signed bits.
#[verifier::loop_isolation(false)]
pub fn parse_i64(s: &String) -> (r: Option<i64>)
    ensures
        r is Some <==> int_fits(s@),
        r matches Some(v) ==> v == spec_int_of(s@),
{
    let n = s.as_str().unicode_len();
    if n == 0 {
        return Option::None;
    }
    let neg = s.as_str().get_char(0) == '-';
    let start: usize = if neg {
        1
    } else {
        0
    };
    if n == start {
        return Option::None;
    }
    let bound: u64 = if neg {
        9223372036854775808
    } else {
        9223372036854775807
    };
    let digits = Ghost(s@.skip(start as int));
    let mut mag: u64 = 0;
    let mut i: usize = start;
    proof {
        assert(digits@.take(0) =~= Seq::<char>::empty());
    }
    while i < n
        invariant
            start <= i <= n,
            mag <= bound,
            mag == dec_val(digits@.take(i - start)),
            forall|t: int| 0 <= t < i - start ==> is_digit(#[trigger] digits@[t]),
        decreases n - i,
    {
        let c = s.as_str().get_char(i);
        let u = c as u32;
        if u < 48 || u > 57 {
            proof {
                assert(digits@[i - start] == s@[i as int]);
                assert(!is_digit(s@[i as int]));
                assert(!is_digits(s@)) by {
                    if neg {
                    } else {
                        assert(s@[i as int] == s@.skip(0)[i as int]);
                    }
                }
                if neg {
                    assert(s@.skip(1) =~= digits@);
                    assert(!is_digits(s@.skip(1)));
                    assert(s@[0] == '-');
                    assert(!is_digit(s@[0]));
                }
            }
            return Option::None;
        }
        let d: u64 = (u - 48) as u64;
        if mag > (bound - d) / 10 {
            proof {
                assert(10 * mag + d > bound) by (nonlinear_arith)
                    requires
                        mag > (bound - d) / 10,
                        d <= 9,
                        bound >= d,
                ;
                let upto = digits@.take(i + 1 - start);
                assert(upto.drop_last() =~= digits@.take(i - start));
                assert(upto.last() == digits@[i - start]);
                assert(digits@[i - start] == s@[i as int]);
                assert(dec_val(upto) == 10 * mag + d);
                if int_fits(s@) {
                    assert(is_digits(digits@)) by {
                        if neg {
                            assert(s@.skip(1) =~= digits@);
                        } else {
                            assert(s@.skip(0) =~= digits@);
                            assert(is_digits(s@));
                        }
                    }
                    lemma_dec_val_prefix_le(digits@, i + 1 - start, digits@.len() as int);
                    assert(digits@.take(digits@.len() as int) =~= digits@);
                    assert(dec_val(digits@) > bound);
                    if neg {
                        assert(spec_int_of(s@) == -dec_val(s@.skip(1)));
                        assert(s@.skip(1) =~= digits@);
                        assert(spec_int_of(s@) < i64::MIN);
                    } else {
                        assert(s@.skip(0) =~= s@);
                        assert(s@[0] != '-');
                        assert(spec_int_of(s@) == dec_val(s@));
                        assert(s@.take(s@.len() as int) =~= s@);
                        assert(digits@ =~= s@);
                        assert(spec_int_of(s@) > i64::MAX);
                    }
                    assert(false);
                }
            }
            return Option::None;
        }
        proof {
            assert(10 * mag + d <= bound) by (nonlinear_arith)
                requires
                    mag <= (bound - d) / 10,
                    d <= 9,
                    bound >= d,
            ;
            let upto = digits@.take(i + 1 - start);
            assert(upto.drop_last() =~= digits@.take(i - start));
            assert(upto.last() == digits@[i - start]);
            assert(digits@[i - start] == s@[i as int]);
        }
        mag = mag * 10 + d;
        i = i + 1;
    }
    proof {
        assert(digits@.take(n - start) =~= digits@);
        assert(is_digits(digits@));
        if neg {
            assert(s@.skip(1) =~= digits@);
            assert(s@[0] == '-');
            assert(is_int_lexeme(s@));
            assert(spec_int_of(s@) == -dec_val(digits@));
        } else {
            assert(s@.skip(0) =~= digits@);
            assert(digits@ =~= s@);
            assert(s@[0] != '-') by {
                assert(is_digit(s@[0]));
            }
            assert(spec_int_of(s@) == dec_val(digits@));
        }
        lemma_dec_val_nonneg(digits@);
    }
    if neg {
        if mag == 9223372036854775808 {
            Option::Some(i64::MIN)
        } else {
            Option::Some(0i64 - (mag as i64))
        }
    } else {
        Option::Some(mag as i64)
    }
}

/// Whether the text contains a decimal point.
pub fn text_has_dot(s: &String) -> (r: bool)
    ensures
        r == has_dot(s@),
{
    let n = s.as_str().unicode_len();
    let mut i: usize = 0;
    while i < n
        invariant
            i <= n,
            n == s@.len(),
            forall|t: int| 0 <= t < i ==> s@[t] != '.',
        decreases n - i,
    {
        if s.as_str().get_char(i) == '.' {
            return true;
        }
        i = i + 1;
    }
    false
}

/// Classifies a boolean lexeme, in any letter case.
pub fn parse_bool(s: &String) -> (r: Option<bool>)
    ensures
        r matches Some(b) ==> b == is_true_lexeme(s@) && (is_true_lexeme(s@) || is_false_lexeme(
            s@,
        )),
        r is None ==> !is_true_lexeme(s@) && !is_false_lexeme(s@),
{
    let n = s.as_str().unicode_len();
    if n == 4 {
        let c0 = s.as_str().get_char(0);
        let c1 = s.as_str().get_char(1);
        let c2 = s.as_str().get_char(2);
        let c3 = s.as_str().get_char(3);
        if (c0 == 't' || c0 == 'T') && (c1 == 'r' || c1 == 'R') && (c2 == 'u' || c2 == 'U') && (c3
            == 'e' || c3 == 'E') {
            return Option::Some(true);
        }
        Option::None
    } else if n == 5 {
        let c0 = s.as_str().get_char(0);
        let c1 = s.as_str().get_char(1);
        let c2 = s.as_str().get_char(2);
        let c3 = s.as_str().get_char(3);
        let c4 = s.as_str().get_char(4);
        if (c0 == 'f' || c0 == 'F') && (c1 == 'a' || c1 == 'A') && (c2 == 'l' || c2 == 'L') && (c3
            == 's' || c3 == 'S') && (c4 == 'e' || c4 == 'E') {
            return Option::Some(false);
        }
        Option::None
    } else {
        Option::None
    }
}

/// How many newline bytes a text holds.
pub open spec fn nl_count(bs: Seq<u8>) -> nat
    decreases bs.len(),
{
    if bs.len() == 0 {
        0
    } else {
        nl_count(bs.drop_last()) + (if bs.last() == 10u8 {
            1nat
        } else {
            0nat
        })
    }
}

/// Counts the newline bytes in a text.
pub fn count_newlines(s: &str) -> (r: usize)
    ensures
        r == nl_count(s.spec_bytes()),
{
    let bs = s.as_bytes();
    let mut count: usize = 0;
    let mut i: usize = 0;
    proof {
        assert(bs@.take(0) =~= Seq::<u8>::empty());
    }
    while i < bs.len()
        invariant
            i <= bs@.len(),
            bs@ == s.spec_bytes(),
            count == nl_count(bs@.take(i as int)),
            count <= i,
        decreases bs@.len() - i,
    {
        proof {
            assert(bs@.take(i + 1).drop_last() =~= bs@.take(i as int));
            assert(bs@.take(i + 1).last() == bs@[i as int]);
        }
        if bs[i] == 10u8 {
            count = count + 1;
        }
        i = i + 1;
    }
    proof {
        assert(bs@.take(bs@.len() as int) =~= bs@);
    }
    count
}

/// Caps a count at the largest machine-representable value.
pub open spec fn capped(n: nat) -> nat {
    if n > usize::MAX {
        usize::MAX as nat
    } else {
        n
    }
}

/// Adds two counts, saturating at the machine limit.
fn sat_add(a: usize, b: usize) -> (r: usize)
    ensures
        r == capped((a + b) as nat),
{
    if a > usize::MAX - b {
        usize::MAX
    } else {
        a + b
    }
}

/// How many tokens the conversion of one node contributes to the stream.
pub open spec fn conv_len(node: ParseNode) -> nat
    decreases node,
{
    match node.rule {
        Rule::Program => conv_len_seq(node.children@),
        Rule::Function => if node.children@.len() == 0 {
            0
        } else {
            3 + conv_len_seq(node.children@.skip(1))
        },
        Rule::NewLine => 0,
        Rule::EOI => 0,
        _ => 1,
    }
}

/// How many tokens a list of nodes contributes in total.
pub open spec fn conv_len_seq(nodes: Seq<ParseNode>) -> nat
    decreases nodes,
{
    if nodes.len() == 0 {
        0
    } else {
        conv_len(nodes[0]) + conv_len_seq(nodes.skip(1))
    }
}

/// How many newline nodes one node's conversion walks over.
pub open spec fn line_count(node: ParseNode) -> nat
    decreases node,
{
    match node.rule {
        Rule::Program => line_count_seq(node.children@),
        Rule::Array => line_count_seq(node.children@),
        Rule::Quote => line_count_seq(node.children@),
        Rule::Function => if node.children@.len() == 0 {
            0
        } else {
            line_count_seq(node.children@.skip(1))
        },
        Rule::NewLine => 1,
        _ => 0,
    }
}

/// Total newline count over a list of nodes.
pub open spec fn line_count_seq(nodes: Seq<ParseNode>) -> nat
    decreases nodes,
{
    if nodes.len() == 0 {
        0
    } else {
        line_count(nodes[0]) + line_count_seq(nodes.skip(1))
    }
}

/// When the conversion of a node succeeds: a call node has a callee, a
/// quote's sub-queue reduces to exactly one value, an integer lexeme is
/// well formed and fits, a boolean lexeme is one of the two words.
pub open spec fn convertible(node: ParseNode) -> bool
    decreases node,
{
    match node.rule {
        Rule::Program => convertible_seq(node.children@),
        Rule::Function => node.children@.len() >= 1 && convertible_seq(node.children@.skip(1)),
        Rule::Array => convertible_seq(node.children@),
        Rule::Quote => convertible_seq(node.children@) && conv_len_seq(node.children@) == 1,
        Rule::Number => has_dot(node.text@) || int_fits(node.text@),
        Rule::Boolean => is_true_lexeme(node.text@) || is_false_lexeme(node.text@),
        _ => true,
    }
}

/// When the conversion of every node in a list succeeds.
pub open spec fn convertible_seq(nodes: Seq<ParseNode>) -> bool
    decreases nodes,
{
    if nodes.len() == 0 {
        true
    } else {
        convertible(nodes[0]) && convertible_seq(nodes.skip(1))
    }
}

/// The per-kind conversion rules: what token sequence `out` a node turns
/// into. Calls stay flat between `OpenFunc`/`CloseFunc` markers with the
/// callee as an identifier token; array literals and quotes arrive as one
/// pre-materialized token; newlines and end-of-input leave no token.
pub open spec fn converts(node: ParseNode, out: Seq<Value>) -> bool
    decreases node,
{
    match node.rule {
        Rule::Program => converts_seq(node.children@, out),
        Rule::Function => {
            &&& node.children@.len() >= 1
            &&& out.len() == 3 + conv_len_seq(node.children@.skip(1))
            &&& out[0] is OpenFunc
            &&& out[1] is Identifier
            &&& out[1]->Identifier_0@ == node.children@[0].text@
            &&& out.last() is CloseFunc
            &&& converts_seq(node.children@.skip(1), out.subrange(2, out.len() - 1))
        },
        Rule::Array => {
            &&& out.len() == 1
            &&& out[0] is Array
            &&& converts_seq(node.children@, out[0]->Array_0@)
        },
        Rule::Quote => {
            &&& out.len() == 1
            &&& out[0] is Quote
            &&& converts_seq(node.children@, seq![*out[0]->Quote_0])
        },
        Rule::Number => {
            &&& out.len() == 1
            &&& if has_dot(node.text@) {
                out[0] is Float && out[0]->Float_0@ == node.text@
            } else {
                out[0] is Int && int_fits(node.text@) && out[0]->Int_0 == spec_int_of(node.text@)
            }
        },
        Rule::Identifier => out.len() == 1 && out[0] is Identifier && out[0]->Identifier_0@
            == node.text@,
        Rule::Str => out.len() == 1 && out[0] is Str && out[0]->Str_0@ == node.text@,
        Rule::Boolean => out.len() == 1 && out[0] is Boolean && out[0]->Boolean_0
            == is_true_lexeme(node.text@) && (is_true_lexeme(node.text@) || is_false_lexeme(
            node.text@,
        )),
        Rule::Null => out.len() == 1 && out[0] is Null,
        Rule::BackTick => out.len() == 1 && out[0] is BackTick,
        Rule::Comma => out.len() == 1 && out[0] is Comma,
        Rule::NewLine => out.len() == 0,
        Rule::EOI => out.len() == 0,
    }
}

/// The conversion of a list of nodes: each node's tokens in order, split
/// at the deterministic per-node token counts.
pub open spec fn converts_seq(nodes: Seq<ParseNode>, out: Seq<Value>) -> bool
    decreases nodes,
{
    if nodes.len() == 0 {
        out.len() == 0
    } else {
        &&& conv_len(nodes[0]) <= out.len()
        &&& converts(nodes[0], out.take(conv_len(nodes[0]) as int))
        &&& converts_seq(nodes.skip(1), out.skip(conv_len(nodes[0]) as int))
    }
}

/// A conversion's length is the node's token count.
proof fn lemma_converts_len(node: ParseNode, out: Seq<Value>)
    requires
        converts(node, out),
    ensures
        out.len() == conv_len(node),
    decreases node,
{
    match node.rule {
        Rule::Program => {
            lemma_converts_seq_len(node.children@, out);
        },
        _ => {},
    }
}

/// A list conversion's length is the total token count.
proof fn lemma_converts_seq_len(nodes: Seq<ParseNode>, out: Seq<Value>)
    requires
        converts_seq(nodes, out),
    ensures
        out.len() == conv_len_seq(nodes),
    decreases nodes.len(),
{
    if nodes.len() > 0 {
        lemma_converts_seq_len(nodes.skip(1), out.skip(conv_len(nodes[0]) as int));
    }
}

/// Appending one node's conversion extends a list conversion.
proof fn lemma_converts_seq_snoc(ns: Seq<ParseNode>, n: ParseNode, a: Seq<Value>, b: Seq<Value>)
    requires
        converts_seq(ns, a),
        converts(n, b),
    ensures
        converts_seq(ns.push(n), a + b),
    decreases ns.len(),
{
    let m = ns.push(n);
    reveal_with_fuel(converts_seq, 3);
    reveal_with_fuel(conv_len_seq, 3);
    if ns.len() == 0 {
        assert(a + b =~= b);
        lemma_converts_len(n, b);
        assert(m[0] == n);
        assert(m.skip(1) =~= Seq::<ParseNode>::empty());
        assert((a + b).take(conv_len(n) as int) =~= b);
        assert((a + b).skip(conv_len(n) as int) =~= Seq::<Value>::empty());
    } else {
        let cl = conv_len(ns[0]) as int;
        lemma_converts_seq_snoc(ns.skip(1), n, a.skip(cl), b);
        assert(m[0] == ns[0]);
        assert(m.skip(1) =~= ns.skip(1).push(n));
        assert((a + b).take(cl) =~= a.take(cl));
        assert((a + b).skip(cl) =~= a.skip(cl) + b);
    }
}

/// Token counts add across an appended node.
proof fn lemma_conv_len_seq_snoc(ns: Seq<ParseNode>, n: ParseNode)
    ensures
        conv_len_seq(ns.push(n)) == conv_len_seq(ns) + conv_len(n),
    decreases ns.len(),
{
    let m = ns.push(n);
    reveal_with_fuel(conv_len_seq, 3);
    if ns.len() == 0 {
        assert(m[0] == n);
        assert(m.skip(1) =~= Seq::<ParseNode>::empty());
    } else {
        lemma_conv_len_seq_snoc(ns.skip(1), n);
        assert(m[0] == ns[0]);
        assert(m.skip(1) =~= ns.skip(1).push(n));
    }
}

/// Line counts add across an appended node.
proof fn lemma_line_count_seq_snoc(ns: Seq<ParseNode>, n: ParseNode)
    ensures
        line_count_seq(ns.push(n)) == line_count_seq(ns) + line_count(n),
    decreases ns.len(),
{
    let m = ns.push(n);
    reveal_with_fuel(line_count_seq, 3);
    if ns.len() == 0 {
        assert(m[0] == n);
        assert(m.skip(1) =~= Seq::<ParseNode>::empty());
    } else {
        lemma_line_count_seq_snoc(ns.skip(1), n);
        assert(m[0] == ns[0]);
        assert(m.skip(1) =~= ns.skip(1).push(n));
    }
}

/// A node list converts exactly when each of its nodes does.
proof fn lemma_convertible_seq_index(ns: Seq<ParseNode>)
    ensures
        convertible_seq(ns) <==> (forall|i: int|
            0 <= i < ns.len() ==> convertible(#[trigger] ns[i])),
    decreases ns.len(),
{
    if ns.len() > 0 {
        lemma_convertible_seq_index(ns.skip(1));
        assert forall|i: int| 1 <= i < ns.len() implies ns.skip(1)[i - 1] == ns[i] by {}
        if convertible_seq(ns) {
            assert forall|i: int| 0 <= i < ns.len() implies convertible(#[trigger] ns[i]) by {
                if i >= 1 {
                    assert(ns[i] == ns.skip(1)[i - 1]);
                }
            }
        }
        if forall|i: int| 0 <= i < ns.len() ==> convertible(#[trigger] ns[i]) {
            assert forall|i: int|
                0 <= i < ns.skip(1).len() implies convertible(#[trigger] ns.skip(1)[i]) by {
                assert(ns.skip(1)[i] == ns[i + 1]);
            }
        }
    }
}

/// Converts the children of `node` from position `start` on, appending
/// each child's tokens to `stack` in order and summing their line counts.
#[verifier::loop_isolation(false)]
fn parse_list(
    children: &Vec<ParseNode>,
    start: usize,
    stack: &mut VecDeque<Value>,
) -> (r: Result<usize, LCoreError>)
    requires
        start as int <= children@.len(),
    ensures
        final(stack)@.len() >= old(stack)@.len(),
        final(stack)@.take(old(stack)@.len() as int) == old(stack)@,
        r is Ok <==> convertible_seq(children@.skip(start as int)),
        r matches Ok(loc) ==> ({
            &&& loc == capped(line_count_seq(children@.skip(start as int)))
            &&& final(stack)@.len() == old(stack)@.len() + conv_len_seq(
                children@.skip(start as int),
            )
            &&& converts_seq(
                children@.skip(start as int),
                final(stack)@.skip(old(stack)@.len() as int),
            )
        }),
    decreases *children,
{
    let base = Ghost(stack@.len() as int);
    let mut loc: usize = 0;
    let mut i: usize = start;
    proof {
        assert(children@.subrange(start as int, start as int) =~= Seq::<ParseNode>::empty());
        assert(stack@.skip(base@) =~= Seq::<Value>::empty());
    }
    while i < children.len()
        invariant
            start <= i <= children@.len(),
            stack@.len() >= base@,
            stack@.take(base@) == old(stack)@,
            loc == capped(line_count_seq(children@.subrange(start as int, i as int))),
            stack@.len() == base@ + conv_len_seq(children@.subrange(start as int, i as int)),
            converts_seq(children@.subrange(start as int, i as int), stack@.skip(base@)),
            forall|t: int| start <= t < i ==> convertible(#[trigger] children@[t]),
        decreases children@.len() - i,
    {
        let mid = Ghost(stack@);
        proof {
            assert(decreases_to!(*children => children@[i as int]));
        }
        match lcore_parse(&children[i], stack) {
            Result::Ok(l) => {
                proof {
                    let pre = children@.subrange(start as int, i as int);
                    let post = children@.subrange(start as int, i + 1);
                    assert(post =~= pre.push(children@[i as int]));
                    let a = mid@.skip(base@);
                    let b = stack@.skip(mid@.len() as int);
                    assert(stack@.skip(base@) =~= a + b);
                    lemma_converts_seq_snoc(pre, children@[i as int], a, b);
                    lemma_conv_len_seq_snoc(pre, children@[i as int]);
                    lemma_line_count_seq_snoc(pre, children@[i as int]);
                    assert(stack@.take(base@) =~= mid@.take(base@));
                }
                loc = sat_add(loc, l);
                i = i + 1;
            },
            Result::Err(e) => {
                proof {
                    let whole = children@.skip(start as int);
                    lemma_convertible_seq_index(whole);
                    assert(whole[i - start] == children@[i as int]);
                    assert(!convertible_seq(whole));
                    assert(stack@.take(base@) =~= mid@.take(base@));
                }
                return Result::Err(e);
            },
        }
    }
    proof {
        let whole = children@.skip(start as int);
        assert(children@.subrange(start as int, children@.len() as int) =~= whole);
        lemma_convertible_seq_index(whole);
        assert forall|t: int| 0 <= t < whole.len() implies convertible(#[trigger] whole[t]) by {
            assert(whole[t] == children@[t + start]);
        }
    }
    Result::Ok(loc)
}

/// Turns one parse-tree node into tokens on the back of `stack`. Returns
/// the number of newline nodes walked (capped at the machine limit), and
/// fails — leaving already-emitted tokens in place — exactly on the
/// structural violations `convertible` rules out.
#[verifier::loop_isolation(false)]
pub fn lcore_parse(node: &ParseNode, stack: &mut VecDeque<Value>) -> (r: Result<
    usize,
    LCoreError,
>)
    ensures
        final(stack)@.len() >= old(stack)@.len(),
        final(stack)@.take(old(stack)@.len() as int) == old(stack)@,
        r is Ok <==> convertible(*node),
        r matches Ok(loc) ==> ({
            &&& loc == capped(line_count(*node))
            &&& final(stack)@.len() == old(stack)@.len() + conv_len(*node)
            &&& converts(*node, final(stack)@.skip(old(stack)@.len() as int))
        }),
    decreases *node,
{
    let base = Ghost(stack@.len() as int);
    match node.rule {
        Rule::Program => {
            proof {
                assert(decreases_to!(*node => node.children));
            }
            match parse_list(&node.children, 0, stack) {
                Result::Ok(loc) => {
                    proof {
                        assert(node.children@.skip(0) =~= node.children@);
                    }
                    Result::Ok(loc)
                },
                Result::Err(e) => {
                    proof {
                        assert(node.children@.skip(0) =~= node.children@);
                    }
                    Result::Err(e)
                },
            }
        },
        Rule::Function => {
            if node.children.len() == 0 {
                proof {
                    assert(final(stack)@.take(base@) =~= old(stack)@);
                }
                return Result::Err(
                    LCoreError::LambdaCoreError("call node has no callee".to_owned()),
                );
            }
            stack.push_back(Value::OpenFunc);
            stack.push_back(Value::Identifier(node.children[0].text.clone()));
            let mid = Ghost(stack@);
            proof {
                assert(decreases_to!(*node => node.children));
                assert(stack@.take(base@) =~= old(stack)@);
            }
            match parse_list(&node.children, 1, stack) {
                Result::Err(e) => {
                    proof {
                        assert(stack@.take(base@) =~= mid@.take(base@));
                    }
                    Result::Err(e)
                },
                Result::Ok(loc) => {
                    let s3g = Ghost(stack@);
                    stack.push_back(Value::CloseFunc);
                    proof {
                        let added = stack@.skip(base@);
                        let cls = conv_len_seq(node.children@.skip(1));
                        assert(stack@.len() == base@ + 3 + cls);
                        assert(added.len() == 3 + cls);
                        assert(added[0] == mid@[base@]);
                        assert(added[0] is OpenFunc);
                        assert(added[1] == mid@[base@ + 1]);
                        assert(added[1] is Identifier);
                        assert(added.last() is CloseFunc);
                        assert(s3g@.skip(mid@.len() as int) =~= added.subrange(
                            2,
                            added.len() - 1,
                        ));
                        assert(converts_seq(
                            node.children@.skip(1),
                            added.subrange(2, added.len() - 1),
                        ));
                        assert(stack@.take(base@) =~= old(stack)@);
                    }
                    Result::Ok(loc)
                },
            }
        },
        Rule::Array => {
            let mut sub: VecDeque<Value> = VecDeque::new();
            proof {
                assert(decreases_to!(*node => node.children));
            }
            match parse_list(&node.children, 0, &mut sub) {
                Result::Err(e) => {
                    proof {
                        assert(node.children@.skip(0) =~= node.children@);
                        assert(final(stack)@.take(base@) =~= old(stack)@);
                    }
                    Result::Err(e)
                },
                Result::Ok(loc) => {
                    let subfull = Ghost(sub@);
                    proof {
                        assert(node.children@.skip(0) =~= node.children@);
                        assert(subfull@.skip(0) =~= subfull@);
                        assert(converts_seq(node.children@, subfull@));
                    }
                    let mut arr: Vec<Value> = Vec::new();
                    while sub.len() > 0
                        invariant
                            arr@ + sub@ == subfull@,
                        decreases sub@.len(),
                    {
                        let v = sub.pop_front().unwrap();
                        arr.push(v);
                        proof {
                            assert(arr@ + sub@ =~= subfull@);
                        }
                    }
                    proof {
                        assert(arr@ =~= subfull@);
                    }
                    stack.push_back(Value::Array(arr));
                    proof {
                        assert(node.children@.skip(0) =~= node.children@);
                        assert(stack@.skip(base@) =~= seq![stack@.last()]);
                        assert(stack@.take(base@) =~= old(stack)@);
                    }
                    Result::Ok(loc)
                },
            }
        },
        Rule::Quote => {
            let mut sub: VecDeque<Value> = VecDeque::new();
            proof {
                assert(decreases_to!(*node => node.children));
            }
            match parse_list(&node.children, 0, &mut sub) {
                Result::Err(e) => {
                    proof {
                        assert(node.children@.skip(0) =~= node.children@);
                        assert(final(stack)@.take(base@) =~= old(stack)@);
                    }
                    Result::Err(e)
                },
                Result::Ok(loc) => {
                    proof {
                        assert(node.children@.skip(0) =~= node.children@);
                        assert(sub@.skip(0) =~= sub@);
                        lemma_converts_seq_len(node.children@, sub@);
                    }
                    if sub.len() != 1 {
                        proof {
                            assert(conv_len_seq(node.children@) != 1);
                            assert(final(stack)@.take(base@) =~= old(stack)@);
                        }
                        return Result::Err(
                            LCoreError::LambdaCoreError(
                                "quote must wrap exactly one value".to_owned(),
                            ),
                        );
                    }
                    let subfull = Ghost(sub@);
                    let v = sub.pop_front().unwrap();
                    stack.push_back(Value::Quote(Box::new(v)));
                    proof {
                        assert(stack@.skip(base@) =~= seq![stack@.last()]);
                        assert(subfull@ =~= seq![v]);
                        assert(converts_seq(node.children@, seq![v]));
                        assert(stack@.take(base@) =~= old(stack)@);
                    }
                    Result::Ok(loc)
                },
            }
        },
        Rule::Number => {
            if text_has_dot(&node.text) {
                stack.push_back(Value::Float(node.text.clone()));
                proof {
                    assert(stack@.skip(base@) =~= seq![stack@.last()]);
                    assert(stack@.take(base@) =~= old(stack)@);
                }
                Result::Ok(0)
            } else {
                match parse_i64(&node.text) {
                    Option::Some(v) => {
                        stack.push_back(Value::Int(v));
                        proof {
                            assert(stack@.skip(base@) =~= seq![stack@.last()]);
                            assert(stack@.take(base@) =~= old(stack)@);
                        }
                        Result::Ok(0)
                    },
                    Option::None => {
                        proof {
                            assert(final(stack)@.take(base@) =~= old(stack)@);
                        }
                        Result::Err(
                            LCoreError::LambdaCoreError("malformed number literal".to_owned()),
                        )
                    },
                }
            }
        },
        Rule::Identifier => {
            stack.push_back(Value::Identifier(node.text.clone()));
            proof {
                assert(stack@.skip(base@) =~= seq![stack@.last()]);
                assert(stack@.take(base@) =~= old(stack)@);
            }
            Result::Ok(0)
        },
        Rule::Str => {
            stack.push_back(Value::Str(node.text.clone()));
            proof {
                assert(stack@.skip(base@) =~= seq![stack@.last()]);
                assert(stack@.take(base@) =~= old(stack)@);
            }
            Result::Ok(0)
        },
        Rule::Boolean => {
            match parse_bool(&node.text) {
                Option::Some(b) => {
                    stack.push_back(Value::Boolean(b));
                    proof {
                        assert(stack@.skip(base@) =~= seq![stack@.last()]);
                        assert(stack@.take(base@) =~= old(stack)@);
                    }
                    Result::Ok(0)
                },
                Option::None => {
                    proof {
                        assert(final(stack)@.take(base@) =~= old(stack)@);
                    }
                    Result::Err(
                        LCoreError::LambdaCoreError("malformed boolean literal".to_owned()),
                    )
                },
            }
        },
        Rule::Null => {
            stack.push_back(Value::Null);
            proof {
                assert(stack@.skip(base@) =~= seq![stack@.last()]);
                assert(stack@.take(base@) =~= old(stack)@);
            }
            Result::Ok(0)
        },
        Rule::BackTick => {
            stack.push_back(Value::BackTick);
            proof {
                assert(stack@.skip(base@) =~= seq![stack@.last()]);
                assert(stack@.take(base@) =~= old(stack)@);
            }
            Result::Ok(0)
        },
        Rule::Comma => {
            stack.push_back(Value::Comma);
            proof {
                assert(stack@.skip(base@) =~= seq![stack@.last()]);
                assert(stack@.take(base@) =~= old(stack)@);
            }
            Result::Ok(0)
        },
        Rule::NewLine => {
            proof {
                assert(final(stack)@.skip(base@) =~= Seq::<Value>::empty());
                assert(final(stack)@.take(base@) =~= old(stack)@);
            }
            Result::Ok(1)
        },
        Rule::EOI => {
            proof {
                assert(final(stack)@.skip(base@) =~= Seq::<Value>::empty());
                assert(final(stack)@.take(base@) =~= old(stack)@);
            }
            Result::Ok(0)
        },
    }
}

} // verus!
