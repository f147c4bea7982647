//! The text layer: formatting and parsing of signed decimal integers, the
//! whitespace tokenizer and the line splitter, all specified over character
//! sequences and proved to invert each other where the round trip demands it.

use vstd::prelude::*;
use vstd::arithmetic::div_mod::lemma_fundamental_div_mod;
use vstd::string::StringExecFns;
use vstd::string::StrSliceExecFns;

use crate::graph::lemma_arc_endpoints;
use crate::graph::lemma_row_at;
use crate::graph::lemma_vindex;
use crate::graph::lemma_vindex_self;
use crate::graph::lemma_weighted_arcs;
use crate::graph::model_sym;
use crate::graph::row_at;
use crate::graph::row_has;
use crate::graph::verts_upto;
use crate::graph::lemma_verts_upto;
use crate::graph::Edge;
use crate::graph::Graph;
use crate::graph::Vertex;
use crate::graph::GraphModel;
use crate::graph_errors::GraphError;
use crate::graph_errors::GraphInterfaceError;
use crate::graph_parser::add_edge;
use crate::graph_parser::add_vertex;
use crate::graph_parser::new_graph;
use crate::graph_parser::opt_model;
use crate::graph_parser::opt_wf;
use crate::graph_parser::spec_add_edge;
use crate::graph_parser::spec_add_vertex;
use crate::graph_parser::spec_new_graph;

verus! {

/// The decimal digit character for a value between 0 and 9.
pub open spec fn digit_char(d: int) -> char {
    if d == 0 {
        '0'
    } else if d == 1 {
        '1'
    } else if d == 2 {
        '2'
    } else if d == 3 {
        '3'
    } else if d == 4 {
        '4'
    } else if d == 5 {
        '5'
    } else if d == 6 {
        '6'
    } else if d == 7 {
        '7'
    } else if d == 8 {
        '8'
    } else {
        '9'
    }
}

pub open spec fn is_digit(c: char) -> bool {
    48 <= c as int <= 57
}

pub open spec fn digit_val(c: char) -> int {
    c as int - 48
}

pub open spec fn all_digits(s: Seq<char>) -> bool {
    forall|i: int| 0 <= i < s.len() ==> is_digit(#[trigger] s[i])
}

/// The value of a digit string, most significant digit first.
pub open spec fn digits_val(s: Seq<char>) -> int
    decreases s.len(),
{
    if s.len() == 0 {
        0
    } else {
        digits_val(s.drop_last()) * 10 + digit_val(s.last())
    }
}

/// The canonical decimal form of a nonnegative integer.
pub open spec fn spec_fmt_nat(n: int) -> Seq<char>
    decreases n,
{
    if n < 10 {
        seq![digit_char(n)]
    } else {
        spec_fmt_nat(n / 10).push(digit_char(n % 10))
    }
}

/// The canonical decimal form of an integer: a minus sign for a negative
/// value, then the digits of its magnitude.
pub open spec fn spec_fmt_int(n: int) -> Seq<char> {
    if n < 0 {
        seq!['-'] + spec_fmt_nat(-n)
    } else {
        spec_fmt_nat(n)
    }
}

/// What parsing a decimal integer yields: an optional sign, then at least
/// one digit, and a value within the 32-bit signed range.
pub open spec fn spec_parse_int(s: Seq<char>) -> Option<int> {
    let has_sign = s.len() > 0 && (s[0] == '-' || s[0] == '+');
    let d = if has_sign {
        s.subrange(1, s.len() as int)
    } else {
        s
    };
    let neg = s.len() > 0 && s[0] == '-';
    if d.len() > 0 && all_digits(d) {
        let v = if neg {
            -digits_val(d)
        } else {
            digits_val(d)
        };
        if i32::MIN <= v <= i32::MAX {
            Some(v)
        } else {
            None
        }
    } else {
        None
    }
}

/// An ASCII whitespace character, as the tokenizer understands it.
pub open spec fn is_ws(c: char) -> bool {
    c == ' ' || c == '\t' || c == '\n' || c == '\r' || c == '\x0c'
}

/// A usable token: nonempty and free of whitespace.
pub open spec fn token_ok(t: Seq<char>) -> bool {
    t.len() > 0 && (forall|i: int| 0 <= i < t.len() ==> !is_ws(#[trigger] t[i]))
}

/// Digit characters are digits, carry their value, and are neither
/// whitespace nor a sign.
pub proof fn lemma_digit_char(d: int)
    requires
        0 <= d < 10,
    ensures
        is_digit(digit_char(d)),
        digit_val(digit_char(d)) == d,
        !is_ws(digit_char(d)),
        digit_char(d) != '-',
        digit_char(d) != '+',
{
}

/// A digit string has a nonnegative value.
pub proof fn lemma_digits_val_nonneg(s: Seq<char>)
    requires
        all_digits(s),
    ensures
        digits_val(s) >= 0,
    decreases s.len(),
{
    if s.len() > 0 {
        assert(all_digits(s.drop_last()));
        lemma_digits_val_nonneg(s.drop_last());
        assert(is_digit(s.last()));
    }
}

/// Extending a digit string can only grow its value.
pub proof fn lemma_digits_val_prefix(s: Seq<char>, k: int)
    requires
        all_digits(s),
        0 <= k <= s.len(),
    ensures
        digits_val(s.subrange(0, k)) <= digits_val(s),
    decreases s.len() - k,
{
    if k < s.len() {
        let t = s.subrange(0, k + 1);
        assert(t.drop_last() =~= s.subrange(0, k));
        assert(all_digits(s.subrange(0, k)));
        lemma_digits_val_nonneg(s.subrange(0, k));
        assert(is_digit(s[k]));
        assert(digits_val(t) == digits_val(s.subrange(0, k)) * 10 + digit_val(s[k]));
        assert(digits_val(s.subrange(0, k)) <= digits_val(t)) by {
            assert(digits_val(s.subrange(0, k)) * 10 >= digits_val(s.subrange(0, k)));
        }
        lemma_digits_val_prefix(s, k + 1);
    } else {
        assert(s.subrange(0, k) =~= s);
    }
}

/// The decimal form of a nonnegative integer is all digits, nonempty, and
/// evaluates back to the integer.
pub proof fn lemma_fmt_nat(n: int)
    requires
        n >= 0,
    ensures
        spec_fmt_nat(n).len() >= 1,
        all_digits(spec_fmt_nat(n)),
        digits_val(spec_fmt_nat(n)) == n,
        token_ok(spec_fmt_nat(n)),
    decreases n,
{
    if n < 10 {
        lemma_digit_char(n);
        let s = spec_fmt_nat(n);
        assert(s =~= seq![digit_char(n)]);
        assert(s.last() == digit_char(n));
        assert(s.drop_last().len() == 0);
        assert(digits_val(s.drop_last()) == 0);
        assert(digits_val(s) == digits_val(s.drop_last()) * 10 + digit_val(s.last()));
        assert(digits_val(s) == digit_val(digit_char(n)));
    } else {
        lemma_fmt_nat(n / 10);
        lemma_digit_char(n % 10);
        let w = spec_fmt_nat(n / 10);
        let s = w.push(digit_char(n % 10));
        assert(s.drop_last() =~= w);
        assert(s.last() == digit_char(n % 10));
        assert(digits_val(s) == digits_val(w) * 10 + (n % 10));
        lemma_fundamental_div_mod(n, 10);
        assert forall|i: int| 0 <= i < s.len() implies is_digit(#[trigger] s[i]) && !is_ws(
            s[i],
        ) by {
            if i < w.len() {
                assert(s[i] == w[i]);
            }
        }
    }
}

/// Parsing inverts formatting on every 32-bit signed integer.
pub proof fn lemma_parse_fmt_int(n: int)
    requires
        i32::MIN <= n <= i32::MAX,
    ensures
        spec_parse_int(spec_fmt_int(n)) == Some(n),
        token_ok(spec_fmt_int(n)),
        is_digit(spec_fmt_int(n)[0]) || spec_fmt_int(n)[0] == '-',
{
    if n >= 0 {
        lemma_fmt_nat(n);
        let s = spec_fmt_int(n);
        assert(s == spec_fmt_nat(n));
        assert(is_digit(s[0]));
        lemma_digit_char(0);
        assert(s[0] != '-' && s[0] != '+') by {
            assert(is_digit(s[0]));
            assert(!(48 <= '-' as int <= 57));
            assert(!(48 <= '+' as int <= 57));
        }
    } else {
        lemma_fmt_nat(-n);
        let s = spec_fmt_int(n);
        assert(s == seq!['-'] + spec_fmt_nat(-n));
        assert(s[0] == '-');
        let d = s.subrange(1, s.len() as int);
        assert(d =~= spec_fmt_nat(-n));
        assert(digits_val(d) == -n);
        assert forall|i: int| 0 <= i < s.len() implies !is_ws(#[trigger] s[i]) by {
            if i >= 1 {
                assert(s[i] == spec_fmt_nat(-n)[i - 1]);
            }
        }
    }
}

/// The decimal digit as a one-character string.
fn digit_str(d: u32) -> (r: &'static str)
    requires
        d < 10,
    ensures
        r@ == seq![digit_char(d as int)],
{
    let r = match d {
        0 => "0",
        1 => "1",
        2 => "2",
        3 => "3",
        4 => "4",
        5 => "5",
        6 => "6",
        7 => "7",
        8 => "8",
        _ => "9",
    };
    proof {
        reveal_strlit("0");
        reveal_strlit("1");
        reveal_strlit("2");
        reveal_strlit("3");
        reveal_strlit("4");
        reveal_strlit("5");
        reveal_strlit("6");
        reveal_strlit("7");
        reveal_strlit("8");
        reveal_strlit("9");
        assert(r@ =~= seq![digit_char(d as int)]);
    }
    r
}

/// Formats a nonnegative value in decimal.
fn fmt_u32(n: u32) -> (s: String)
    ensures
        s@ == spec_fmt_nat(n as int),
    decreases n,
{
    if n < 10 {
        String::from_str(digit_str(n))
    } else {
        let mut s = fmt_u32(n / 10);
        s.append(digit_str(n % 10));
        proof {
            assert(s@ =~= spec_fmt_nat((n / 10) as int).push(digit_char((n % 10) as int)));
        }
        s
    }
}

/// Formats a signed 32-bit integer in decimal.
pub fn fmt_i32(n: i32) -> (s: String)
    ensures
        s@ == spec_fmt_int(n as int),
{
    if n >= 0 {
        fmt_u32(n as u32)
    } else {
        let mag: u32 = (-(n as i64)) as u32;
        proof {
            assert(mag as int == -(n as int));
        }
        let mut s = String::from_str("-");
        let digits = fmt_u32(mag);
        s.append(digits.as_str());
        proof {
            reveal_strlit("-");
            assert(s@ =~= seq!['-'] + spec_fmt_nat(-(n as int)));
        }
        s
    }
}

/// Parses a signed 32-bit integer from decimal text: an optional sign, then
/// at least one digit; anything else, or a value out of range, is rejected.
pub fn parse_i32(s: &str) -> (r: Option<i32>)
    ensures
        match r {
            Some(v) => spec_parse_int(s@) == Some(v as int),
            None => spec_parse_int(s@) is None,
        },
{
    let n = s.unicode_len();
    if n == 0 {
        return None;
    }
    let first = s.get_char(0);
    let neg = first == '-';
    let has_sign = first == '-' || first == '+';
    let start: usize = if has_sign {
        1
    } else {
        0
    };
    if start == n {
        return None;
    }
    let ghost d = if has_sign {
        s@.subrange(1, s@.len() as int)
    } else {
        s@
    };
    let limit: i64 = if neg {
        2147483648
    } else {
        2147483647
    };
    let mut acc: i64 = 0;
    let mut i: usize = start;
    while i < n
        invariant
            start <= i <= n,
            n == s@.len(),
            start == if has_sign { 1int } else { 0int },
            d == if has_sign { s@.subrange(1, s@.len() as int) } else { s@ },
            d.len() == n - start,
            forall|j: int| 0 <= j < i - start ==> is_digit(#[trigger] d[j]),
            0 <= acc <= limit,
            acc == digits_val(d.subrange(0, i - start)),
            neg == (s@.len() > 0 && s@[0] == '-'),
            has_sign == (s@.len() > 0 && (s@[0] == '-' || s@[0] == '+')),
            limit == if neg { 2147483648int } else { 2147483647int },
        decreases n - i,
    {
        let c = s.get_char(i);
        proof {
            assert(d[i - start] == s@[i as int]);
        }
        if !(c >= '0' && c <= '9') {
            proof {
                assert(!is_digit(d[i - start]));
                assert(!all_digits(d));
            }
            return None;
        }
        let dv: i64 = (c as u32) as i64 - 48;
        proof {
            assert(is_digit(d[i - start]));
            assert(dv == digit_val(d[i - start]));
            assert(d.subrange(0, i - start + 1).drop_last() =~= d.subrange(0, i - start));
            assert(d.subrange(0, i - start + 1).last() == d[i - start]);
        }
        acc = acc * 10 + dv;
        i = i + 1;
        if acc > limit {
            proof {
                let k = i - start;
                assert(acc == digits_val(d.subrange(0, k)));
                if all_digits(d) {
                    lemma_digits_val_prefix(d, k);
                    assert(digits_val(d) > limit);
                }
            }
            return None;
        }
    }
    proof {
        assert(d.subrange(0, d.len() as int) =~= d);
        assert(acc == digits_val(d));
        assert(all_digits(d));
    }
    if neg {
        let v: i64 = -acc;
        proof {
            assert(i32::MIN <= v <= i32::MAX);
        }
        Some(v as i32)
    } else {
        Some(acc as i32)
    }
}

/// Character-for-character string equality.
pub fn str_eq(a: &str, b: &str) -> (r: bool)
    ensures
        r == (a@ == b@),
{
    let na = a.unicode_len();
    let nb = b.unicode_len();
    if na != nb {
        return false;
    }
    let mut k: usize = 0;
    while k < na
        invariant
            na == a@.len(),
            na == b@.len(),
            k <= na,
            forall|j: int| 0 <= j < k ==> a@[j] == b@[j],
        decreases na - k,
    {
        if a.get_char(k) != b.get_char(k) {
            return false;
        }
        k = k + 1;
    }
    proof {
        assert(a@ =~= b@);
    }
    true
}

/// The tokens of a line: the maximal whitespace-free runs, with `cur` the
/// run in progress.
pub open spec fn tok_acc(s: Seq<char>, cur: Seq<char>) -> Seq<Seq<char>>
    decreases s.len(),
{
    if s.len() == 0 {
        if cur.len() > 0 {
            seq![cur]
        } else {
            Seq::empty()
        }
    } else if is_ws(s[0]) {
        if cur.len() > 0 {
            seq![cur] + tok_acc(s.drop_first(), Seq::empty())
        } else {
            tok_acc(s.drop_first(), Seq::empty())
        }
    } else {
        tok_acc(s.drop_first(), cur.push(s[0]))
    }
}

pub open spec fn spec_tokens(s: Seq<char>) -> Seq<Seq<char>> {
    tok_acc(s, Seq::empty())
}

/// Consuming a whitespace-free chunk extends the run in progress.
pub proof fn lemma_tok_eat(t: Seq<char>, s: Seq<char>, cur: Seq<char>)
    requires
        forall|i: int| 0 <= i < t.len() ==> !is_ws(#[trigger] t[i]),
    ensures
        tok_acc(t + s, cur) == tok_acc(s, cur + t),
    decreases t.len(),
{
    if t.len() == 0 {
        assert(t + s =~= s);
        assert(cur + t =~= cur);
    } else {
        assert((t + s)[0] == t[0]);
        assert((t + s).len() > 0);
        assert((t + s).drop_first() =~= t.drop_first() + s);
        assert(forall|i: int|
            0 <= i < t.drop_first().len() ==> !is_ws(#[trigger] t.drop_first()[i]));
        lemma_tok_eat(t.drop_first(), s, cur.push(t[0]));
        assert(cur.push(t[0]) + t.drop_first() =~= cur + t);
    }
}

/// A single usable token is tokenized to itself.
pub proof fn lemma_tokens_one(t: Seq<char>)
    requires
        token_ok(t),
    ensures
        spec_tokens(t) == seq![t],
{
    lemma_tok_eat(t, Seq::empty(), Seq::empty());
    assert(t + Seq::<char>::empty() =~= t);
    assert(Seq::<char>::empty() + t =~= t);
    assert(tok_acc(Seq::<char>::empty(), t) == seq![t]);
}

/// Two usable tokens around one space are tokenized to the pair.
pub proof fn lemma_tokens_two(a: Seq<char>, b: Seq<char>)
    requires
        token_ok(a),
        token_ok(b),
    ensures
        spec_tokens(a + seq![' '] + b) == seq![a, b],
{
    let s = a + seq![' '] + b;
    assert(s =~= a + (seq![' '] + b));
    lemma_tok_eat(a, seq![' '] + b, Seq::empty());
    assert(Seq::<char>::empty() + a =~= a);
    let r = seq![' '] + b;
    assert(r[0] == ' ');
    assert(is_ws(r[0]));
    assert(r.drop_first() =~= b);
    assert(tok_acc(r, a) == seq![a] + tok_acc(b, Seq::empty()));
    lemma_tokens_one(b);
    assert(seq![a] + seq![b] =~= seq![a, b]);
}

/// Three usable tokens around two spaces are tokenized to the triple.
pub proof fn lemma_tokens_three(a: Seq<char>, b: Seq<char>, c: Seq<char>)
    requires
        token_ok(a),
        token_ok(b),
        token_ok(c),
    ensures
        spec_tokens(a + seq![' '] + b + seq![' '] + c) == seq![a, b, c],
{
    let s = a + seq![' '] + b + seq![' '] + c;
    assert(s =~= a + (seq![' '] + (b + (seq![' '] + c))));
    lemma_tok_eat(a, seq![' '] + (b + (seq![' '] + c)), Seq::empty());
    assert(Seq::<char>::empty() + a =~= a);
    let r1 = seq![' '] + (b + (seq![' '] + c));
    assert(r1[0] == ' ');
    assert(is_ws(r1[0]));
    assert(r1.drop_first() =~= b + (seq![' '] + c));
    lemma_tok_eat(b, seq![' '] + c, Seq::empty());
    assert(Seq::<char>::empty() + b =~= b);
    let r2 = seq![' '] + c;
    assert(r2[0] == ' ');
    assert(is_ws(r2[0]));
    assert(r2.drop_first() =~= c);
    lemma_tokens_one(c);
    assert(tok_acc(r2, b) == seq![b] + seq![c]);
    assert(seq![a] + (seq![b] + seq![c]) =~= seq![a, b, c]);
}

/// One trailing carriage return is dropped from a line.
pub open spec fn strip_cr(l: Seq<char>) -> Seq<char> {
    if l.len() > 0 && l.last() == '\r' {
        l.drop_last()
    } else {
        l
    }
}

/// The lines of a text: one per newline, and a final unterminated one when
/// it is nonempty; `cur` accumulates the line in progress.
pub open spec fn lines_acc(s: Seq<char>, cur: Seq<char>) -> Seq<Seq<char>>
    decreases s.len(),
{
    if s.len() == 0 {
        if cur.len() > 0 {
            seq![strip_cr(cur)]
        } else {
            Seq::empty()
        }
    } else if s[0] == '\n' {
        seq![strip_cr(cur)] + lines_acc(s.drop_first(), Seq::empty())
    } else {
        lines_acc(s.drop_first(), cur.push(s[0]))
    }
}

pub open spec fn spec_lines(s: Seq<char>) -> Seq<Seq<char>> {
    lines_acc(s, Seq::empty())
}

/// Consuming a newline-free chunk extends the line in progress.
pub proof fn lemma_lines_eat(t: Seq<char>, s: Seq<char>, cur: Seq<char>)
    requires
        forall|i: int| 0 <= i < t.len() ==> (#[trigger] t[i]) != '\n',
    ensures
        lines_acc(t + s, cur) == lines_acc(s, cur + t),
    decreases t.len(),
{
    if t.len() == 0 {
        assert(t + s =~= s);
        assert(cur + t =~= cur);
    } else {
        assert((t + s)[0] == t[0]);
        assert((t + s).len() > 0);
        assert((t + s).drop_first() =~= t.drop_first() + s);
        assert(forall|i: int|
            0 <= i < t.drop_first().len() ==> (#[trigger] t.drop_first()[i]) != '\n');
        lemma_lines_eat(t.drop_first(), s, cur.push(t[0]));
        assert(cur.push(t[0]) + t.drop_first() =~= cur + t);
    }
}

/// A newline-terminated line contributes itself, stripped of a trailing
/// carriage return, and the rest follows.
pub proof fn lemma_lines_cons(l: Seq<char>, s: Seq<char>)
    requires
        forall|i: int| 0 <= i < l.len() ==> (#[trigger] l[i]) != '\n',
    ensures
        spec_lines(l + seq!['\n'] + s) == seq![strip_cr(l)] + spec_lines(s),
{
    assert(l + seq!['\n'] + s =~= l + (seq!['\n'] + s));
    lemma_lines_eat(l, seq!['\n'] + s, Seq::empty());
    assert(Seq::<char>::empty() + l =~= l);
    let r = seq!['\n'] + s;
    assert(r[0] == '\n');
    assert(r.drop_first() =~= s);
}

/// Splits a line into its whitespace-separated tokens.
pub fn tokenize(line: &str) -> (toks: Vec<String>)
    ensures
        toks.deep_view() == spec_tokens(line@),
{
    let n = line.unicode_len();
    let mut toks: Vec<String> = Vec::new();
    let mut start: usize = 0;
    let mut i: usize = 0;
    proof {
        assert(line@.subrange(0, n as int) =~= line@);
        assert(line@.subrange(0, 0) =~= Seq::<char>::empty());
        assert(toks.deep_view() =~= Seq::<Seq<char>>::empty());
        assert(toks.deep_view() + tok_acc(line@, Seq::empty()) =~= spec_tokens(line@));
    }
    while i < n
        invariant
            n == line@.len(),
            start <= i <= n,
            spec_tokens(line@) == toks.deep_view() + tok_acc(
                line@.subrange(i as int, n as int),
                line@.subrange(start as int, i as int),
            ),
        decreases n - i,
    {
        let c = line.get_char(i);
        let ghost rest = line@.subrange(i as int, n as int);
        let ghost cur = line@.subrange(start as int, i as int);
        proof {
            assert(rest[0] == line@[i as int]);
            assert(rest.drop_first() =~= line@.subrange(i as int + 1, n as int));
        }
        if c == ' ' || c == '\t' || c == '\n' || c == '\r' || c == '\x0c' {
            proof {
                assert(is_ws(rest[0]));
            }
            if i > start {
                let tok = line.substring_char(start, i).to_owned();
                proof {
                    assert(cur.len() > 0);
                    assert(tok_acc(rest, cur) == seq![cur] + tok_acc(
                        rest.drop_first(),
                        Seq::empty(),
                    ));
                }
                toks.push(tok);
                proof {
                    assert(toks.deep_view() =~= toks.deep_view().subrange(
                        0,
                        toks.deep_view().len() - 1,
                    ) + seq![cur]);
                    assert(toks.deep_view() + tok_acc(rest.drop_first(), Seq::empty())
                        =~= spec_tokens(line@));
                    assert(line@.subrange(i as int + 1, i as int + 1) =~= Seq::<char>::empty());
                }
            } else {
                proof {
                    assert(cur.len() == 0);
                    assert(tok_acc(rest, cur) == tok_acc(rest.drop_first(), Seq::empty()));
                    assert(line@.subrange(i as int + 1, i as int + 1) =~= Seq::<char>::empty());
                }
            }
            start = i + 1;
        } else {
            proof {
                assert(!is_ws(rest[0]));
                assert(tok_acc(rest, cur) == tok_acc(rest.drop_first(), cur.push(rest[0])));
                assert(line@.subrange(start as int, i as int + 1) =~= cur.push(rest[0]));
            }
        }
        i = i + 1;
    }
    proof {
        assert(line@.subrange(i as int, n as int).len() == 0);
    }
    if i > start {
        let tok = line.substring_char(start, i).to_owned();
        proof {
            let cur = line@.subrange(start as int, i as int);
            assert(cur.len() > 0);
            assert(tok_acc(line@.subrange(i as int, n as int), cur) == seq![cur]);
        }
        toks.push(tok);
        proof {
            assert(toks.deep_view() =~= spec_tokens(line@));
        }
    } else {
        proof {
            let cur = line@.subrange(start as int, i as int);
            assert(cur.len() == 0);
            assert(tok_acc(line@.subrange(i as int, n as int), cur) =~= Seq::<Seq<char>>::empty());
            assert(toks.deep_view() =~= spec_tokens(line@));
        }
    }
    toks
}

/// Splits a text into its lines.
pub fn split_lines(text: &str) -> (lines: Vec<String>)
    ensures
        lines.deep_view() == spec_lines(text@),
{
    let n = text.unicode_len();
    let mut lines: Vec<String> = Vec::new();
    let mut start: usize = 0;
    let mut i: usize = 0;
    proof {
        assert(text@.subrange(0, n as int) =~= text@);
        assert(text@.subrange(0, 0) =~= Seq::<char>::empty());
        assert(lines.deep_view() =~= Seq::<Seq<char>>::empty());
        assert(lines.deep_view() + lines_acc(text@, Seq::empty()) =~= spec_lines(text@));
    }
    while i < n
        invariant
            n == text@.len(),
            start <= i <= n,
            spec_lines(text@) == lines.deep_view() + lines_acc(
                text@.subrange(i as int, n as int),
                text@.subrange(start as int, i as int),
            ),
        decreases n - i,
    {
        let c = text.get_char(i);
        let ghost rest = text@.subrange(i as int, n as int);
        let ghost cur = text@.subrange(start as int, i as int);
        proof {
            assert(rest[0] == text@[i as int]);
            assert(rest.drop_first() =~= text@.subrange(i as int + 1, n as int));
        }
        if c == '\n' {
            let endp: usize = if i > start && text.get_char(i - 1) == '\r' {
                i - 1
            } else {
                i
            };
            let l = text.substring_char(start, endp).to_owned();
            proof {
                assert(lines_acc(rest, cur) == seq![strip_cr(cur)] + lines_acc(
                    rest.drop_first(),
                    Seq::empty(),
                ));
                if i > start && text@[i as int - 1] == '\r' {
                    assert(cur.len() > 0 && cur.last() == '\r');
                    assert(text@.subrange(start as int, endp as int) =~= cur.drop_last());
                } else {
                    if cur.len() > 0 {
                        assert(cur.last() == text@[i as int - 1]);
                    }
                    assert(text@.subrange(start as int, endp as int) =~= cur);
                }
                assert(l@ == strip_cr(cur));
            }
            lines.push(l);
            proof {
                assert(lines.deep_view() =~= lines.deep_view().subrange(
                    0,
                    lines.deep_view().len() - 1,
                ) + seq![strip_cr(cur)]);
                assert(lines.deep_view() + lines_acc(rest.drop_first(), Seq::empty())
                    =~= spec_lines(text@));
                assert(text@.subrange(i as int + 1, i as int + 1) =~= Seq::<char>::empty());
            }
            start = i + 1;
        } else {
            proof {
                assert(rest[0] != '\n');
                assert(lines_acc(rest, cur) == lines_acc(rest.drop_first(), cur.push(rest[0])));
                assert(text@.subrange(start as int, i as int + 1) =~= cur.push(rest[0]));
            }
        }
        i = i + 1;
    }
    proof {
        assert(text@.subrange(i as int, n as int).len() == 0);
    }
    if i > start {
        let endp: usize = if text.get_char(i - 1) == '\r' {
            i - 1
        } else {
            i
        };
        let l = text.substring_char(start, endp).to_owned();
        proof {
            let cur = text@.subrange(start as int, i as int);
            assert(cur.len() > 0);
            assert(lines_acc(text@.subrange(i as int, n as int), cur) == seq![strip_cr(cur)]);
            assert(cur.last() == text@[i as int - 1]);
            if text@[i as int - 1] == '\r' {
                assert(text@.subrange(start as int, endp as int) =~= cur.drop_last());
            } else {
                assert(text@.subrange(start as int, endp as int) =~= cur);
            }
            assert(l@ == strip_cr(cur));
        }
        lines.push(l);
        proof {
            assert(lines.deep_view() =~= spec_lines(text@));
        }
    } else {
        proof {
            let cur = text@.subrange(start as int, i as int);
            assert(cur.len() == 0);
            assert(lines_acc(text@.subrange(i as int, n as int), cur) =~= Seq::<
                Seq<char>,
            >::empty());
            assert(lines.deep_view() =~= spec_lines(text@));
        }
    }
    lines
}

/// Where the line-oriented reader stands.
#[derive(Clone, Copy, Debug, PartialEq, Eq, Structural)]
pub enum ReadingState {
    NotCreated,
    ParsingVerticesStart,
    ParsingVertices,
    ParsingEdges,
}

/// The fold of the reader's state machine over the remaining lines: the
/// header creates the graph, the two marker lines switch sections, vertex
/// and edge lines perform the validated mutations. An input that never
/// created a graph is an empty file, and one that ends before both marker
/// lines have appeared is rejected with the marker error.
pub open spec fn spec_parse_lines(
    lines: Seq<Seq<char>>,
    st: ReadingState,
    g: Option<GraphModel>,
) -> Result<GraphModel, GraphError>
    decreases lines.len(),
{
    if lines.len() == 0 {
        match st {
            ReadingState::NotCreated => Err(
                GraphError::InterfaceError(GraphInterfaceError::EmptyFile),
            ),
            ReadingState::ParsingVerticesStart => Err(
                GraphError::InterfaceError(GraphInterfaceError::WrongParsingVerticesStart),
            ),
            ReadingState::ParsingVertices => Err(
                GraphError::InterfaceError(GraphInterfaceError::WrongParsingVerticesStart),
            ),
            ReadingState::ParsingEdges => match g {
                Some(m) => Ok(m),
                None => Err(GraphError::InterfaceError(GraphInterfaceError::EmptyFile)),
            },
        }
    } else {
        let line = lines[0];
        match st {
            ReadingState::NotCreated => match spec_new_graph(spec_tokens(line)) {
                Ok(m) => spec_parse_lines(
                    lines.drop_first(),
                    ReadingState::ParsingVerticesStart,
                    Some(m),
                ),
                Err(e) => Err(GraphError::InterfaceError(e)),
            },
            ReadingState::ParsingVerticesStart => if line == "vertices"@ {
                spec_parse_lines(lines.drop_first(), ReadingState::ParsingVertices, g)
            } else {
                Err(GraphError::InterfaceError(GraphInterfaceError::WrongParsingVerticesStart))
            },
            ReadingState::ParsingVertices => if line == "edges"@ {
                spec_parse_lines(lines.drop_first(), ReadingState::ParsingEdges, g)
            } else {
                match spec_add_vertex(spec_tokens(line), g) {
                    Ok(m) => spec_parse_lines(
                        lines.drop_first(),
                        ReadingState::ParsingVertices,
                        Some(m),
                    ),
                    Err(e) => Err(e),
                }
            },
            ReadingState::ParsingEdges => match spec_add_edge(spec_tokens(line), g) {
                Ok(m) => spec_parse_lines(lines.drop_first(), ReadingState::ParsingEdges, Some(m)),
                Err(e) => Err(e),
            },
        }
    }
}

/// What loading a whole text yields.
pub open spec fn spec_from_text(s: Seq<char>) -> Result<GraphModel, GraphError> {
    spec_parse_lines(spec_lines(s), ReadingState::NotCreated, None)
}

impl Graph {
    /// Loads a graph from its line-oriented text form, performing the same
    /// validated mutations as interactive editing and surfacing the same
    /// errors. The `vertices` and `edges` marker lines are required, in that
    /// order.
    pub fn from_text(text: &str) -> (r: Result<Graph, GraphError>)
        ensures
            match r {
                Ok(g) => g.wf() && spec_from_text(text@) == Ok::<GraphModel, GraphError>(g@),
                Err(e) => spec_from_text(text@) == Err::<GraphModel, GraphError>(e),
            },
    {
        let lines = split_lines(text);
        let mut st = ReadingState::NotCreated;
        let mut g: Option<Graph> = None;
        let n = lines.len();
        let mut i: usize = 0;
        proof {
            assert(lines.deep_view().subrange(0, n as int) =~= lines.deep_view());
        }
        while i < n
            invariant
                n == lines@.len(),
                n == lines.deep_view().len(),
                i <= n,
                lines.deep_view() == spec_lines(text@),
                opt_wf(g),
                spec_from_text(text@) == spec_parse_lines(
                    lines.deep_view().subrange(i as int, n as int),
                    st,
                    opt_model(g),
                ),
            decreases n - i,
        {
            let line = &lines[i];
            let ghost rest = lines.deep_view().subrange(i as int, n as int);
            proof {
                assert(rest[0] == lines.deep_view()[i as int]);
                assert(rest[0] == line@);
                assert(rest.drop_first() =~= lines.deep_view().subrange(i as int + 1, n as int));
            }
            match st {
                ReadingState::NotCreated => {
                    let toks = tokenize(line.as_str());
                    match new_graph(&toks, &mut g) {
                        Ok(()) => {
                            st = ReadingState::ParsingVerticesStart;
                        },
                        Err(e) => {
                            return Err(GraphError::InterfaceError(e));
                        },
                    }
                },
                ReadingState::ParsingVerticesStart => {
                    if str_eq(line.as_str(), "vertices") {
                        st = ReadingState::ParsingVertices;
                    } else {
                        return Err(
                            GraphError::InterfaceError(
                                GraphInterfaceError::WrongParsingVerticesStart,
                            ),
                        );
                    }
                },
                ReadingState::ParsingVertices => {
                    if str_eq(line.as_str(), "edges") {
                        st = ReadingState::ParsingEdges;
                    } else {
                        let toks = tokenize(line.as_str());
                        match add_vertex(&toks, &mut g) {
                            Ok(()) => {},
                            Err(e) => {
                                return Err(e);
                            },
                        }
                    }
                },
                ReadingState::ParsingEdges => {
                    let toks = tokenize(line.as_str());
                    match add_edge(&toks, &mut g) {
                        Ok(()) => {},
                        Err(e) => {
                            return Err(e);
                        },
                    }
                },
            }
            i = i + 1;
        }
        proof {
            assert(lines.deep_view().subrange(i as int, n as int).len() == 0);
        }
        match st {
            ReadingState::NotCreated => Err(
                GraphError::InterfaceError(GraphInterfaceError::EmptyFile),
            ),
            ReadingState::ParsingVerticesStart => Err(
                GraphError::InterfaceError(GraphInterfaceError::WrongParsingVerticesStart),
            ),
            ReadingState::ParsingVertices => Err(
                GraphError::InterfaceError(GraphInterfaceError::WrongParsingVerticesStart),
            ),
            ReadingState::ParsingEdges => match g {
                Some(gr) => Ok(gr),
                None => Err(GraphError::InterfaceError(GraphInterfaceError::EmptyFile)),
            },
        }
    }
}

/// The header line of a graph's text form.
pub open spec fn header_seq(g: Graph) -> Seq<char> {
    (if g.is_directed {
        "directed"@
    } else {
        "undirected"@
    }) + seq![' '] + (if g.is_weighted {
        "weighted"@
    } else {
        "unweighted"@
    }) + seq![' '] + (if g.is_float_weighted {
        "float"@
    } else {
        "int"@
    })
}

/// One vertex line: the id, then the label when there is one.
pub open spec fn vertex_line(v: Vertex) -> Seq<char> {
    match v.label {
        Some(l) => spec_fmt_int(v.id as int) + seq![' '] + l@,
        None => spec_fmt_int(v.id as int),
    }
}

/// One edge line: both endpoint ids, then the weight when there is one.
pub open spec fn edge_line(from: int, e: Edge) -> Seq<char> {
    match e.weight {
        Some(w) => spec_fmt_int(from) + seq![' '] + spec_fmt_int(e.to as int) + seq![' ']
            + spec_fmt_int(w@),
        None => spec_fmt_int(from) + seq![' '] + spec_fmt_int(e.to as int),
    }
}

/// The newline-terminated vertex lines from position `k` on.
pub open spec fn vlines_from(g: Graph, k: int) -> Seq<char>
    decreases g.nv() - k,
{
    if k < 0 || k >= g.nv() {
        Seq::empty()
    } else {
        vertex_line(g.vertices@[k]) + seq!['\n'] + vlines_from(g, k + 1)
    }
}

/// The newline-terminated edge lines from row position `(k, m)` on; an
/// undirected graph writes each edge once, where source does not exceed
/// target.
pub open spec fn elines_from(g: Graph, k: int, m: int) -> Seq<char>
    decreases g.nv() - k, g.row(k).len() - m + 1,
{
    if k < 0 || m < 0 || k >= g.nv() {
        Seq::empty()
    } else if m >= g.row(k).len() {
        elines_from(g, k + 1, 0)
    } else if !g.is_directed && g.vid(k) > g.row(k)[m].to as int {
        elines_from(g, k, m + 1)
    } else {
        edge_line(g.vid(k), g.row(k)[m]) + seq!['\n'] + elines_from(g, k, m + 1)
    }
}

/// The whole text form of a graph.
pub open spec fn spec_to_text(g: Graph) -> Seq<char> {
    header_seq(g) + seq!['\n'] + "vertices"@ + seq!['\n'] + vlines_from(g, 0) + "edges"@
        + seq!['\n'] + elines_from(g, 0, 0)
}

impl Graph {
    /// Writes the graph in its line-oriented text form: the header, the
    /// vertices in ascending id order, then the edges in ascending source
    /// and target order, each logical undirected edge once.
    pub fn to_text(&self) -> (out: String)
        requires
            self.wf(),
        ensures
            out@ == spec_to_text(*self),
    {
        let ghost full = spec_to_text(*self);
        let mut out = String::new();
        out.append(
            if self.is_directed {
                "directed"
            } else {
                "undirected"
            },
        );
        out.append(" ");
        out.append(
            if self.is_weighted {
                "weighted"
            } else {
                "unweighted"
            },
        );
        out.append(" ");
        out.append(
            if self.is_float_weighted {
                "float"
            } else {
                "int"
            },
        );
        out.append("\n");
        out.append("vertices");
        out.append("\n");
        proof {
            reveal_strlit(" ");
            reveal_strlit("\n");
            assert(out@ =~= header_seq(*self) + seq!['\n'] + "vertices"@ + seq!['\n']);
            assert(full =~= out@ + vlines_from(*self, 0) + ("edges"@ + seq!['\n'] + elines_from(
                *self,
                0,
                0,
            )));
        }
        let n = self.vertices.len();
        let ghost epart = "edges"@ + seq!['\n'] + elines_from(*self, 0, 0);
        let mut k: usize = 0;
        while k < n
            invariant
                self.wf(),
                n == self.nv(),
                k <= n,
                epart == "edges"@ + seq!['\n'] + elines_from(*self, 0, 0),
                full == spec_to_text(*self),
                full == out@ + vlines_from(*self, k as int) + epart,
            decreases n - k,
        {
            let ghost out0 = out@;
            let v = &self.vertices[k];
            let idtxt = fmt_i32(v.id);
            out.append(idtxt.as_str());
            match &v.label {
                Some(l) => {
                    out.append(" ");
                    out.append(l.as_str());
                },
                None => {},
            }
            out.append("\n");
            proof {
                reveal_strlit(" ");
                reveal_strlit("\n");
                assert(out@ =~= out0 + vertex_line(self.vertices@[k as int]) + seq!['\n']);
                assert(out@ + vlines_from(*self, k as int + 1) + epart =~= out0 + vlines_from(
                    *self,
                    k as int,
                ) + epart);
            }
            k = k + 1;
        }
        out.append("edges");
        out.append("\n");
        proof {
            reveal_strlit("\n");
            assert(vlines_from(*self, n as int) =~= Seq::<char>::empty());
            assert(full =~= out@ + elines_from(*self, 0, 0));
        }
        let mut k: usize = 0;
        while k < n
            invariant
                self.wf(),
                n == self.nv(),
                k <= n,
                full == spec_to_text(*self),
                full == out@ + elines_from(*self, k as int, 0),
            decreases n - k,
        {
            let row_len = self.adj[k].len();
            let mut m: usize = 0;
            while m < row_len
                invariant
                    self.wf(),
                    n == self.nv(),
                    k < n,
                    row_len == self.row(k as int).len(),
                    m <= row_len,
                    full == spec_to_text(*self),
                    full == out@ + elines_from(*self, k as int, m as int),
                decreases row_len - m,
            {
                let e = self.adj[k][m];
                let from = self.vertices[k].id;
                proof {
                    assert(e == self.row(k as int)[m as int]);
                }
                if !(!self.is_directed && from > e.to) {
                    let ghost out0 = out@;
                    let ftxt = fmt_i32(from);
                    out.append(ftxt.as_str());
                    out.append(" ");
                    let ttxt = fmt_i32(e.to);
                    out.append(ttxt.as_str());
                    match e.weight {
                        Some(w) => {
                            out.append(" ");
                            let wtxt = fmt_i32(w.v);
                            out.append(wtxt.as_str());
                        },
                        None => {},
                    }
                    out.append("\n");
                    proof {
                        reveal_strlit(" ");
                        reveal_strlit("\n");
                        assert(out@ =~= out0 + edge_line(
                            self.vid(k as int),
                            self.row(k as int)[m as int],
                        ) + seq!['\n']);
                        assert(out@ + elines_from(*self, k as int, m as int + 1) =~= out0
                            + elines_from(*self, k as int, m as int));
                    }
                }
                m = m + 1;
            }
            k = k + 1;
        }
        proof {
            assert(elines_from(*self, n as int, 0) =~= Seq::<char>::empty());
            assert(out@ =~= full);
        }
        out
    }
}

/// Labels that survive the text round trip: nonempty and whitespace-free.
pub open spec fn labels_text_safe(g: Graph) -> bool {
    forall|k: int|
        0 <= k < g.nv() ==> match (#[trigger] g.vertices@[k]).label {
            Some(l) => token_ok(l@),
            None => true,
        }
}

/// The vertex lines from position `k` on, as a list.
pub open spec fn vline_list(g: Graph, k: int) -> Seq<Seq<char>>
    decreases g.nv() - k,
{
    if k < 0 || k >= g.nv() {
        Seq::empty()
    } else {
        seq![vertex_line(g.vertices@[k])] + vline_list(g, k + 1)
    }
}

/// The edge lines from row position `(k, m)` on, as a list.
pub open spec fn eline_list(g: Graph, k: int, m: int) -> Seq<Seq<char>>
    decreases g.nv() - k, g.row(k).len() - m + 1,
{
    if k < 0 || m < 0 || k >= g.nv() {
        Seq::empty()
    } else if m >= g.row(k).len() {
        eline_list(g, k + 1, 0)
    } else if !g.is_directed && g.vid(k) > g.row(k)[m].to as int {
        eline_list(g, k, m + 1)
    } else {
        seq![edge_line(g.vid(k), g.row(k)[m])] + eline_list(g, k, m + 1)
    }
}

/// The words of the text format: each a usable token, and the section
/// markers free of line breaks.
proof fn lemma_format_words()
    ensures
        token_ok("directed"@),
        token_ok("undirected"@),
        token_ok("weighted"@),
        token_ok("unweighted"@),
        token_ok("float"@),
        token_ok("int"@),
        token_ok("vertices"@),
        token_ok("edges"@),
        "directed"@ != "undirected"@,
        "weighted"@ != "unweighted"@,
        "float"@ != "int"@,
        "edges"@[0] == 'e',
        "edges"@.len() == 5,
{
    reveal_strlit("directed");
    reveal_strlit("undirected");
    reveal_strlit("weighted");
    reveal_strlit("unweighted");
    reveal_strlit("float");
    reveal_strlit("int");
    reveal_strlit("vertices");
    reveal_strlit("edges");
    assert("directed"@.len() == 8);
    assert("undirected"@.len() == 10);
    assert("weighted"@.len() == 8);
    assert("unweighted"@.len() == 10);
    assert("float"@.len() == 5);
    assert("int"@.len() == 3);
}

/// A token contains no line break and loses nothing to `strip_cr`.
proof fn lemma_token_line_clean(t: Seq<char>)
    requires
        token_ok(t),
    ensures
        forall|i: int| 0 <= i < t.len() ==> (#[trigger] t[i]) != '\n',
        strip_cr(t) == t,
{
    assert forall|i: int| 0 <= i < t.len() implies (#[trigger] t[i]) != '\n' by {
        assert(!is_ws(t[i]));
    }
    assert(!is_ws(t.last()));
}

/// A vertex line is clean: no line break, nothing stripped, and it is not
/// the `edges` marker.
proof fn lemma_vertex_line_clean(g: Graph, k: int)
    requires
        g.wf(),
        labels_text_safe(g),
        0 <= k < g.nv(),
    ensures
        forall|i: int|
            0 <= i < vertex_line(g.vertices@[k]).len() ==> (#[trigger] vertex_line(
                g.vertices@[k],
            )[i]) != '\n',
        strip_cr(vertex_line(g.vertices@[k])) == vertex_line(g.vertices@[k]),
        vertex_line(g.vertices@[k]) != "edges"@,
{
    let v = g.vertices@[k];
    let idt = spec_fmt_int(v.id as int);
    lemma_parse_fmt_int(v.id as int);
    lemma_format_words();
    let l = vertex_line(v);
    assert forall|i: int| 0 <= i < l.len() implies !is_ws(#[trigger] l[i]) || l[i] == ' ' by {
        match v.label {
            Some(lab) => {
                assert(l =~= idt + seq![' '] + lab@);
                if i < idt.len() {
                    assert(l[i] == idt[i]);
                } else if i == idt.len() {
                    assert(l[i] == ' ');
                } else {
                    assert(l[i] == lab@[i - idt.len() - 1]);
                }
            },
            None => {
                assert(l == idt);
            },
        }
    }
    assert forall|i: int| 0 <= i < l.len() implies (#[trigger] l[i]) != '\n' by {
        assert(!is_ws(l[i]) || l[i] == ' ');
    }
    assert(l.len() > 0) by {
        match v.label {
            Some(lab) => {
                assert(l.len() == idt.len() + 1 + lab@.len());
            },
            None => {},
        }
    }
    assert(l.last() != '\r') by {
        assert(!is_ws(l.last()) || l.last() == ' ');
    }
    assert(l != "edges"@) by {
        if l == "edges"@ {
            assert(l[0] == 'e');
            match v.label {
                Some(lab) => {
                    assert(l[0] == idt[0]);
                },
                None => {},
            }
            assert(idt[0] == 'e');
            assert(is_digit(idt[0]) || idt[0] == '-');
        }
    }
}

/// An edge line is clean: no line break and nothing stripped.
proof fn lemma_edge_line_clean(from: int, e: Edge)
    requires
        i32::MIN <= from <= i32::MAX,
    ensures
        forall|i: int|
            0 <= i < edge_line(from, e).len() ==> (#[trigger] edge_line(from, e)[i]) != '\n',
        strip_cr(edge_line(from, e)) == edge_line(from, e),
{
    let ft = spec_fmt_int(from);
    let tt = spec_fmt_int(e.to as int);
    lemma_parse_fmt_int(from);
    lemma_parse_fmt_int(e.to as int);
    let l = edge_line(from, e);
    assert forall|i: int| 0 <= i < l.len() implies !is_ws(#[trigger] l[i]) || l[i] == ' ' by {
        match e.weight {
            Some(w) => {
                let wt = spec_fmt_int(w@);
                lemma_parse_fmt_int(w@);
                assert(l =~= ft + seq![' '] + tt + seq![' '] + wt);
                if i < ft.len() {
                    assert(l[i] == ft[i]);
                } else if i == ft.len() {
                    assert(l[i] == ' ');
                } else if i < ft.len() + 1 + tt.len() {
                    assert(l[i] == tt[i - ft.len() - 1]);
                } else if i == ft.len() + 1 + tt.len() {
                    assert(l[i] == ' ');
                } else {
                    assert(l[i] == wt[i - ft.len() - tt.len() - 2]);
                }
            },
            None => {
                assert(l =~= ft + seq![' '] + tt);
                if i < ft.len() {
                    assert(l[i] == ft[i]);
                } else if i == ft.len() {
                    assert(l[i] == ' ');
                } else {
                    assert(l[i] == tt[i - ft.len() - 1]);
                }
            },
        }
    }
    assert forall|i: int| 0 <= i < l.len() implies (#[trigger] l[i]) != '\n' by {
        assert(!is_ws(l[i]) || l[i] == ' ');
    }
    assert(l.len() > 0) by {
        match e.weight {
            Some(w) => {
                assert(l.len() == ft.len() + 1 + tt.len() + 1 + spec_fmt_int(w@).len());
            },
            None => {
                assert(l.len() == ft.len() + 1 + tt.len());
            },
        }
    }
    assert(l.last() != '\r') by {
        assert(!is_ws(l.last()) || l.last() == ' ');
    }
}

/// Splitting the printed vertex lines yields the vertex line list.
proof fn lemma_lines_of_vlines(g: Graph, k: int, s: Seq<char>)
    requires
        g.wf(),
        labels_text_safe(g),
        0 <= k,
    ensures
        spec_lines(vlines_from(g, k) + s) == vline_list(g, k) + spec_lines(s),
    decreases g.nv() - k,
{
    if k >= g.nv() {
        assert(vlines_from(g, k) + s =~= s);
        assert(vline_list(g, k) + spec_lines(s) =~= spec_lines(s));
    } else {
        let l = vertex_line(g.vertices@[k]);
        lemma_vertex_line_clean(g, k);
        assert(vlines_from(g, k) + s =~= l + seq!['\n'] + (vlines_from(g, k + 1) + s));
        lemma_lines_cons(l, vlines_from(g, k + 1) + s);
        lemma_lines_of_vlines(g, k + 1, s);
        assert(seq![l] + (vline_list(g, k + 1) + spec_lines(s)) =~= vline_list(g, k) + spec_lines(
            s,
        ));
    }
}

/// Splitting the printed edge lines yields the edge line list.
proof fn lemma_lines_of_elines(g: Graph, k: int, m: int, s: Seq<char>)
    requires
        g.wf(),
        0 <= k,
        0 <= m,
    ensures
        spec_lines(elines_from(g, k, m) + s) == eline_list(g, k, m) + spec_lines(s),
    decreases g.nv() - k, g.row(k).len() - m + 1,
{
    if k >= g.nv() {
        assert(elines_from(g, k, m) + s =~= s);
        assert(eline_list(g, k, m) + spec_lines(s) =~= spec_lines(s));
    } else if m >= g.row(k).len() {
        lemma_lines_of_elines(g, k + 1, 0, s);
    } else if !g.is_directed && g.vid(k) > g.row(k)[m].to as int {
        lemma_lines_of_elines(g, k, m + 1, s);
    } else {
        let l = edge_line(g.vid(k), g.row(k)[m]);
        lemma_edge_line_clean(g.vid(k), g.row(k)[m]);
        assert(elines_from(g, k, m) + s =~= l + seq!['\n'] + (elines_from(g, k, m + 1) + s));
        lemma_lines_cons(l, elines_from(g, k, m + 1) + s);
        lemma_lines_of_elines(g, k, m + 1, s);
        assert(seq![l] + (eline_list(g, k, m + 1) + spec_lines(s)) =~= eline_list(g, k, m)
            + spec_lines(s));
    }
}

/// Whether the canonical storage position of arc `(a, b)` lies
/// lexicographically before `(k, m)`.
spec fn pos_lt(g: Graph, a: int, b: int, k: int, m: int) -> bool {
    g.vindex(a) < k || (g.vindex(a) == k && row_at(g.row(k), b) < m)
}

/// Whether the line that creates arc `(a, b)` has been written before row
/// position `(k, m)`: an undirected edge is written at its smaller source.
spec fn emitted(g: Graph, a: int, b: int, k: int, m: int) -> bool {
    if g.is_directed {
        pos_lt(g, a, b, k, m)
    } else if a <= b {
        pos_lt(g, a, b, k, m)
    } else {
        pos_lt(g, b, a, k, m)
    }
}

/// Folding the remaining edge lines over a partial model holding exactly
/// the edges already written reconstructs the graph.
proof fn lemma_parse_elines(g: Graph, k: int, m: int, pm: GraphModel)
    requires
        g.wf(),
        0 <= k <= g.nv(),
        0 <= m,
        k < g.nv() ==> m <= g.row(k).len(),
        k == g.nv() ==> m == 0,
        pm.is_directed == g@.is_directed,
        pm.is_weighted == g@.is_weighted,
        pm.is_float_weighted == g@.is_float_weighted,
        pm.verts == g@.verts,
        forall|a: int, b: int| #[trigger]
            pm.edges.dom().contains((a, b)) <==> (g@.edges.dom().contains((a, b)) && emitted(
                g,
                a,
                b,
                k,
                m,
            )),
        forall|a: int, b: int| #[trigger]
            pm.edges.dom().contains((a, b)) ==> pm.edges[(a, b)] == g@.edges[(a, b)],
    ensures
        spec_parse_lines(eline_list(g, k, m), ReadingState::ParsingEdges, Some(pm)) == Ok::<
            GraphModel,
            GraphError,
        >(g@),
    decreases g.nv() - k, g.row(k).len() - m + 1,
{
    lemma_vindex_self(g);
    lemma_weighted_arcs(g);
    lemma_arc_endpoints(g);
    if k >= g.nv() {
        assert(eline_list(g, k, m) =~= Seq::<Seq<char>>::empty());
        assert forall|a: int, b: int| #[trigger] g@.edges.dom().contains((a, b)) implies pm.edges.dom().contains(
            (a, b),
        ) by {
            if g.is_directed {
                lemma_vindex(g, a);
            } else {
                assert(g@.edges.dom().contains((b, a)));
                if a <= b {
                    lemma_vindex(g, a);
                } else {
                    lemma_vindex(g, b);
                }
            }
        }
        assert(pm.edges =~= g@.edges);
        assert(pm =~= g@);
    } else if m >= g.row(k).len() {
        assert(eline_list(g, k, m) == eline_list(g, k + 1, 0));
        assert forall|a: int, b: int|
            g@.edges.dom().contains((a, b)) implies (emitted(g, a, b, k, m) <==> emitted(
            g,
            a,
            b,
            k + 1,
            0,
        )) by {
            let u = if g.is_directed || a <= b {
                a
            } else {
                b
            };
            let w = if g.is_directed || a <= b {
                b
            } else {
                a
            };
            assert(g@.edges.dom().contains((u, w))) by {
                if !(g.is_directed || a <= b) {
                    assert(g@.edges.dom().contains((b, a)));
                }
            }
            lemma_vindex(g, u);
            lemma_row_at(g.row(g.vindex(u)), w);
            if g.vindex(u) == k {
                assert(row_at(g.row(k), w) < g.row(k).len());
            }
            if g.vindex(u) == k + 1 {
                assert(row_at(g.row(k + 1), w) >= 0);
            }
        }
        lemma_parse_elines(g, k + 1, 0, pm);
    } else {
        let a = g.vid(k);
        let e = g.row(k)[m];
        let b = e.to as int;
        assert(g.vindex(a) == k);
        assert(row_has(g.row(k), b));
        lemma_row_at(g.row(k), b);
        assert(row_at(g.row(k), b) == m);
        assert(g@.edges.dom().contains((a, b)));
        assert(g@.edges[(a, b)] == e.weight.deep_view());
        if !g.is_directed && a > b {
            assert(eline_list(g, k, m) == eline_list(g, k, m + 1));
            assert forall|x: int, y: int|
                g@.edges.dom().contains((x, y)) implies (emitted(g, x, y, k, m) <==> emitted(
                g,
                x,
                y,
                k,
                m + 1,
            )) by {
                let u = if x <= y {
                    x
                } else {
                    y
                };
                let w = if x <= y {
                    y
                } else {
                    x
                };
                assert(g@.edges.dom().contains((u, w))) by {
                    if x > y {
                        assert(g@.edges.dom().contains((y, x)));
                    }
                }
                lemma_vindex(g, u);
                lemma_row_at(g.row(g.vindex(u)), w);
                if g.vindex(u) == k && row_at(g.row(k), w) == m {
                    assert(g.row(k)[m].to as int == w);
                    assert(u == a && w == b);
                }
            }
            lemma_parse_elines(g, k, m + 1, pm);
        } else {
            let line = edge_line(a, e);
            assert(eline_list(g, k, m) == seq![line] + eline_list(g, k, m + 1));
            let lines = eline_list(g, k, m);
            assert(lines[0] == line);
            assert(lines.len() > 0);
            assert(lines.drop_first() =~= eline_list(g, k, m + 1));
            lemma_parse_fmt_int(a);
            lemma_parse_fmt_int(b);
            // the tokens of the line, and what adding the edge yields
            let wv: Option<int> = match e.weight {
                Some(w) => Some(w@),
                None => None,
            };
            match e.weight {
                Some(w) => {
                    lemma_parse_fmt_int(w@);
                    lemma_tokens_three(spec_fmt_int(a), spec_fmt_int(b), spec_fmt_int(w@));
                    assert(line == spec_fmt_int(a) + seq![' '] + spec_fmt_int(b) + seq![' ']
                        + spec_fmt_int(w@));
                    assert(spec_tokens(line) == seq![
                        spec_fmt_int(a),
                        spec_fmt_int(b),
                        spec_fmt_int(w@),
                    ]);
                },
                None => {
                    lemma_tokens_two(spec_fmt_int(a), spec_fmt_int(b));
                    assert(line == spec_fmt_int(a) + seq![' '] + spec_fmt_int(b));
                    assert(spec_tokens(line) == seq![spec_fmt_int(a), spec_fmt_int(b)]);
                },
            }
            assert(e.weight is Some <==> g.is_weighted);
            assert(pm.verts.dom().contains(a));
            assert(pm.verts.dom().contains(b));
            assert(!pm.edges.dom().contains((a, b)));
            if !g.is_directed {
                assert(!pm.edges.dom().contains((b, a))) by {
                    if pm.edges.dom().contains((b, a)) {
                        assert(emitted(g, b, a, k, m));
                    }
                }
            }
            let pm2 = pm.with_edge(a, b, wv);
            assert(spec_add_edge(spec_tokens(line), Some(pm)) == Ok::<GraphModel, GraphError>(
                pm2,
            ));
            assert(spec_parse_lines(lines, ReadingState::ParsingEdges, Some(pm))
                == spec_parse_lines(lines.drop_first(), ReadingState::ParsingEdges, Some(pm2)));
            // the partial model now holds this edge too
            if !g.is_directed {
                assert(g@.edges.dom().contains((b, a)));
                assert(g@.edges[(b, a)] == g@.edges[(a, b)]);
            }
            assert forall|x: int, y: int| #[trigger] pm2.edges.dom().contains((x, y)) <==> (
            g@.edges.dom().contains((x, y)) && emitted(g, x, y, k, m + 1)) by {
                if (x == a && y == b) || (!g.is_directed && x == b && y == a) {
                    assert(emitted(g, x, y, k, m + 1)) by {
                        assert(a <= b || g.is_directed);
                        assert(row_at(g.row(k), b) < m + 1);
                    }
                } else {
                    assert(pm2.edges.dom().contains((x, y)) == pm.edges.dom().contains((x, y)));
                    if g@.edges.dom().contains((x, y)) {
                        let u = if g.is_directed || x <= y {
                            x
                        } else {
                            y
                        };
                        let w = if g.is_directed || x <= y {
                            y
                        } else {
                            x
                        };
                        assert(g@.edges.dom().contains((u, w))) by {
                            if !(g.is_directed || x <= y) {
                                assert(g@.edges.dom().contains((y, x)));
                            }
                        }
                        lemma_vindex(g, u);
                        lemma_row_at(g.row(g.vindex(u)), w);
                        if g.vindex(u) == k && row_at(g.row(k), w) == m {
                            assert(g.row(k)[m].to as int == w);
                            assert(u == a && w == b);
                            if g.is_directed {
                                assert(x == a && y == b);
                            } else {
                                assert((x == a && y == b) || (x == b && y == a));
                            }
                            assert(false);
                        }
                    }
                }
            }
            assert forall|x: int, y: int| #[trigger] pm2.edges.dom().contains((x, y)) implies pm2.edges[
                (x, y)
            ] == g@.edges[(x, y)] by {
                if (x == a && y == b) || (!g.is_directed && x == b && y == a) {
                } else {
                    assert(pm.edges.dom().contains((x, y)));
                }
            }
            lemma_parse_elines(g, k, m + 1, pm2);
        }
    }
}

/// Folding the remaining vertex lines, then the `edges` marker and every
/// edge line, over a partial model holding exactly the vertices already
/// written reconstructs the graph.
proof fn lemma_parse_vlines(g: Graph, k: int, pm: GraphModel)
    requires
        g.wf(),
        labels_text_safe(g),
        0 <= k <= g.nv(),
        pm.is_directed == g@.is_directed,
        pm.is_weighted == g@.is_weighted,
        pm.is_float_weighted == g@.is_float_weighted,
        pm.verts == verts_upto(g, k),
        pm.edges == Map::<(int, int), Option<int>>::empty(),
    ensures
        spec_parse_lines(
            vline_list(g, k) + (seq!["edges"@] + eline_list(g, 0, 0)),
            ReadingState::ParsingVertices,
            Some(pm),
        ) == Ok::<GraphModel, GraphError>(g@),
    decreases g.nv() - k,
{
    lemma_vindex_self(g);
    lemma_format_words();
    if k == g.nv() {
        let lines = vline_list(g, k) + (seq!["edges"@] + eline_list(g, 0, 0));
        assert(vline_list(g, k) =~= Seq::<Seq<char>>::empty());
        assert(lines =~= seq!["edges"@] + eline_list(g, 0, 0));
        assert(lines.len() > 0);
        assert(lines[0] == "edges"@);
        assert(lines.drop_first() =~= eline_list(g, 0, 0));
        assert(spec_parse_lines(lines, ReadingState::ParsingVertices, Some(pm))
            == spec_parse_lines(eline_list(g, 0, 0), ReadingState::ParsingEdges, Some(pm)));
        // the vertices are complete, and nothing is emitted yet
        lemma_verts_upto(g, k);
        assert forall|id: int| #[trigger] pm.verts.dom().contains(id) <==> g@.verts.dom().contains(
            id,
        ) by {
            if g.has_vid(id) {
                lemma_vindex(g, id);
                assert(g.vid(g.vindex(id)) == id);
            }
        }
        assert forall|id: int| #[trigger] pm.verts.dom().contains(id) implies pm.verts[id]
            == g@.verts[id] by {}
        assert(pm.verts =~= g@.verts);
        let pm1 = GraphModel { verts: g@.verts, ..pm };
        assert(pm =~= pm1);
        assert forall|a: int, b: int| #[trigger] pm1.edges.dom().contains((a, b)) <==> (
        g@.edges.dom().contains((a, b)) && emitted(g, a, b, 0, 0)) by {
            if g@.edges.dom().contains((a, b)) {
                let u = if g.is_directed || a <= b {
                    a
                } else {
                    b
                };
                let w = if g.is_directed || a <= b {
                    b
                } else {
                    a
                };
                assert(g@.edges.dom().contains((u, w))) by {
                    if !(g.is_directed || a <= b) {
                        assert(g@.edges.dom().contains((b, a)));
                    }
                }
                lemma_vindex(g, u);
                lemma_row_at(g.row(g.vindex(u)), w);
                if g.vindex(u) == 0 {
                    assert(row_at(g.row(0), w) >= 0);
                }
            }
        }
        lemma_parse_elines(g, 0, 0, pm1);
    } else {
        let v = g.vertices@[k];
        let line = vertex_line(v);
        lemma_vertex_line_clean(g, k);
        let lines = vline_list(g, k) + (seq!["edges"@] + eline_list(g, 0, 0));
        assert(vline_list(g, k) == seq![line] + vline_list(g, k + 1));
        assert(lines.len() > 0);
        assert(lines[0] == line);
        assert(lines.drop_first() =~= vline_list(g, k + 1) + (seq!["edges"@] + eline_list(
            g,
            0,
            0,
        )));
        lemma_parse_fmt_int(v.id as int);
        let lab: Option<Seq<char>> = match v.label {
            Some(l) => Some(l@),
            None => None,
        };
        match v.label {
            Some(l) => {
                assert(token_ok(l@));
                lemma_tokens_two(spec_fmt_int(v.id as int), l@);
                assert(spec_tokens(line) == seq![spec_fmt_int(v.id as int), l@]);
            },
            None => {
                lemma_tokens_one(spec_fmt_int(v.id as int));
                assert(spec_tokens(line) == seq![spec_fmt_int(v.id as int)]);
            },
        }
        // the id is fresh among the vertices already written
        lemma_verts_upto(g, k);
        assert(!pm.verts.dom().contains(v.id as int)) by {
            if pm.verts.dom().contains(v.id as int) {
                let j = choose|j: int| 0 <= j < k && #[trigger] g.vid(j) == v.id as int;
                assert(g.vertices@[j].id < g.vertices@[k].id);
            }
        }
        let pm2 = pm.with_vertex(v.id as int, lab);
        assert(spec_add_vertex(spec_tokens(line), Some(pm)) == Ok::<GraphModel, GraphError>(pm2));
        assert(spec_parse_lines(lines, ReadingState::ParsingVertices, Some(pm))
            == spec_parse_lines(
            lines.drop_first(),
            ReadingState::ParsingVertices,
            Some(pm2),
        ));
        assert(pm2.verts == verts_upto(g, k + 1)) by {
            assert(v.label.deep_view() == lab);
        }
        lemma_parse_vlines(g, k + 1, pm2);
    }
}

/// Loading the printed form of any well-formed graph whose labels are
/// usable tokens yields a graph with the same vertices, labels, edges and
/// weights, and the same flags.
pub proof fn lemma_text_roundtrip(g: Graph)
    requires
        g.wf(),
        labels_text_safe(g),
    ensures
        spec_from_text(spec_to_text(g)) == Ok::<GraphModel, GraphError>(g@),
{
    lemma_format_words();
    let h = header_seq(g);
    let s3 = "edges"@ + seq!['\n'] + elines_from(g, 0, 0);
    let s2 = vlines_from(g, 0) + s3;
    let s1 = "vertices"@ + seq!['\n'] + s2;
    let text = spec_to_text(g);
    assert(text =~= h + seq!['\n'] + s1);
    // the header line is clean
    let dir = if g.is_directed {
        "directed"@
    } else {
        "undirected"@
    };
    let wtok = if g.is_weighted {
        "weighted"@
    } else {
        "unweighted"@
    };
    let ftok = if g.is_float_weighted {
        "float"@
    } else {
        "int"@
    };
    assert(h == dir + seq![' '] + wtok + seq![' '] + ftok);
    assert forall|i: int| 0 <= i < h.len() implies !is_ws(#[trigger] h[i]) || h[i] == ' ' by {
        if i < dir.len() {
            assert(h[i] == dir[i]);
        } else if i == dir.len() {
            assert(h[i] == ' ');
        } else if i < dir.len() + 1 + wtok.len() {
            assert(h[i] == wtok[i - dir.len() - 1]);
        } else if i == dir.len() + 1 + wtok.len() {
            assert(h[i] == ' ');
        } else {
            assert(h[i] == ftok[i - dir.len() - wtok.len() - 2]);
        }
    }
    assert forall|i: int| 0 <= i < h.len() implies (#[trigger] h[i]) != '\n' by {
        assert(!is_ws(h[i]) || h[i] == ' ');
    }
    assert(h.len() == dir.len() + 1 + wtok.len() + 1 + ftok.len());
    assert(h.last() == ftok.last());
    assert(h.last() != '\r') by {
        assert(!is_ws(h.last()) || h.last() == ' ');
    }
    lemma_lines_cons(h, s1);
    assert(strip_cr(h) == h);
    lemma_token_line_clean("vertices"@);
    lemma_lines_cons("vertices"@, s2);
    lemma_lines_of_vlines(g, 0, s3);
    lemma_token_line_clean("edges"@);
    lemma_lines_cons("edges"@, elines_from(g, 0, 0));
    lemma_lines_of_elines(g, 0, 0, Seq::empty());
    assert(elines_from(g, 0, 0) + Seq::<char>::empty() =~= elines_from(g, 0, 0));
    assert(spec_lines(Seq::<char>::empty()) =~= Seq::<Seq<char>>::empty());
    assert(eline_list(g, 0, 0) + Seq::<Seq<char>>::empty() =~= eline_list(g, 0, 0));
    let lines = spec_lines(text);
    assert(lines =~= seq![h] + (seq!["vertices"@] + (vline_list(g, 0) + (seq!["edges"@]
        + eline_list(g, 0, 0)))));
    // the header creates the empty graph with this graph's flags
    assert(lines.len() > 0);
    assert(lines[0] == h);
    lemma_tokens_three(dir, wtok, ftok);
    assert(spec_tokens(h) == seq![dir, wtok, ftok]);
    let m0 = GraphModel::empty(g.is_directed, g.is_weighted, g.is_float_weighted);
    assert(spec_new_graph(spec_tokens(h)) == Ok::<GraphModel, GraphInterfaceError>(m0)) by {
        assert((dir == "directed"@) == g.is_directed);
        assert((wtok == "weighted"@) == g.is_weighted);
        assert((ftok == "float"@) == g.is_float_weighted);
    }
    let lines1 = lines.drop_first();
    assert(lines1 =~= seq!["vertices"@] + (vline_list(g, 0) + (seq!["edges"@] + eline_list(
        g,
        0,
        0,
    ))));
    assert(spec_from_text(text) == spec_parse_lines(
        lines1,
        ReadingState::ParsingVerticesStart,
        Some(m0),
    ));
    // the marker line opens the vertex section
    assert(lines1.len() > 0);
    assert(lines1[0] == "vertices"@);
    let lines2 = lines1.drop_first();
    assert(lines2 =~= vline_list(g, 0) + (seq!["edges"@] + eline_list(g, 0, 0)));
    assert(spec_from_text(text) == spec_parse_lines(
        lines2,
        ReadingState::ParsingVertices,
        Some(m0),
    ));
    assert(m0.verts =~= verts_upto(g, 0));
    assert(m0.edges =~= Map::<(int, int), Option<int>>::empty());
    lemma_parse_vlines(g, 0, m0);
}

} // verus!
