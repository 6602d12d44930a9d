//! The formula grammar. Alternatives are tried in a fixed order and the first
//! that matches wins:
//!
//! ```text
//! expr := int | "true" | "false" | "(" expr "+" expr ")" | "(" expr "=" expr ")"
//!       | "if(" expr "," expr "," expr ")" | name "(" (expr ",")+ expr ")"
//! ```
//!
//! where `int` is a run of decimal digits that fits in an `i64` and `name` a
//! run of ASCII letters and digits. A formula is one expression that takes up
//! the whole text.

use crate::expr::{
    decimal_digits, digit_char, eval_term, int_text, term_of, terms_of, Error, Expr, Failure, Term,
    Value,
};
use crate::parsing::{
    attempt, attempt_failed, is_run, matched, decimal_value, digits_end, encoded, holds_at, repeats_to, Cursor,
    ParseResult, Parsing,
};
use vstd::prelude::*;
use vstd::utf8::*;

verus! {

/// The bytes of an ASCII word.
pub open spec fn ascii(w: Seq<char>) -> Seq<u8> {
    w.map_values(|c: char| c as u8)
}

/// The word `w` stands at offset `i` of `b`.
pub open spec fn token_at(b: Seq<u8>, i: int, w: Seq<char>) -> bool {
    holds_at(b, i, ascii(w))
}

/// An ASCII letter or digit.
pub open spec fn is_alnum(c: u8) -> bool {
    48 <= c <= 57 || 65 <= c <= 90 || 97 <= c <= 122
}

/// Where the run of letters and digits that starts at `i` ends.
pub open spec fn alnum_end(b: Seq<u8>, i: int) -> int
    decreases b.len() - i,
{
    if 0 <= i < b.len() && is_alnum(b[i]) {
        alnum_end(b, i + 1)
    } else {
        i
    }
}

/// An integer literal at `i`, with the number of bytes it takes.
pub open spec fn int_at(b: Seq<u8>, i: int) -> Option<(Term, nat)> {
    let e = digits_end(b, i);
    let v = decimal_value(b.subrange(i, e));
    if e > i && v <= i64::MAX {
        Some((Term::Int(v as i64), (e - i) as nat))
    } else {
        None
    }
}

/// A boolean literal at `i`.
pub open spec fn bool_at(b: Seq<u8>, i: int) -> Option<(Term, nat)> {
    if token_at(b, i, seq!['t', 'r', 'u', 'e']) {
        Some((Term::Bool(true), 4))
    } else if token_at(b, i, seq!['f', 'a', 'l', 's', 'e']) {
        Some((Term::Bool(false), 5))
    } else {
        None
    }
}

/// `x op y` at `i`, where `op` is `+` or `=`: the sum or the comparison of
/// `x` and `y`.
pub open spec fn pair_at(b: Seq<u8>, i: int, op: char) -> Option<(Term, nat)>
    decreases b.len() - i, 11int,
{
    match expr_at(b, i) {
        Some((x, n)) => {
            let j = i + n;
            if token_at(b, j, seq![op]) {
                match expr_at(b, j + 1) {
                    Some((y, m)) => {
                        let t = if op == '+' {
                            Term::Plus(Box::new(x), Box::new(y))
                        } else {
                            Term::Eq(Box::new(x), Box::new(y))
                        };
                        Some((t, n + 1 + m))
                    },
                    None => None,
                }
            } else {
                None
            }
        },
        None => None,
    }
}

/// `(x op y)` at `i`.
pub open spec fn binary_at(b: Seq<u8>, i: int, op: char) -> Option<(Term, nat)>
    decreases b.len() - i, 1int,
{
    if 0 <= i < b.len() && token_at(b, i, seq!['(']) {
        match pair_at(b, i + 1, op) {
            Some((t, n)) => if token_at(b, i + 1 + n, seq![')']) {
                Some((t, n + 2))
            } else {
                None
            },
            None => None,
        }
    } else {
        None
    }
}

/// `c,x,y` at `i`: the conditional on `c` with branches `x` and `y`.
pub open spec fn triple_at(b: Seq<u8>, i: int) -> Option<(Term, nat)>
    decreases b.len() - i, 11int,
{
    match expr_at(b, i) {
        Some((c, n1)) => {
            let j1 = i + n1;
            if token_at(b, j1, seq![',']) {
                match expr_at(b, j1 + 1) {
                    Some((x, n2)) => {
                        let j2 = j1 + 1 + n2;
                        if token_at(b, j2, seq![',']) {
                            match expr_at(b, j2 + 1) {
                                Some((y, n3)) => Some(
                                    (
                                        Term::If(Box::new(c), Box::new(x), Box::new(y)),
                                        (j2 + 1 + n3 - i) as nat,
                                    ),
                                ),
                                None => None,
                            }
                        } else {
                            None
                        }
                    },
                    None => None,
                }
            } else {
                None
            }
        },
        None => None,
    }
}

/// `if(c,x,y)` at `i`.
pub open spec fn if_at(b: Seq<u8>, i: int) -> Option<(Term, nat)>
    decreases b.len() - i, 1int,
{
    if 0 <= i < b.len() && token_at(b, i, seq!['i', 'f']) && token_at(b, i + 2, seq!['(']) {
        match triple_at(b, i + 3) {
            Some((t, n)) => if token_at(b, i + 3 + n, seq![')']) {
                Some((t, n + 4))
            } else {
                None
            },
            None => None,
        }
    } else {
        None
    }
}

/// An argument followed by a comma at `i`.
pub open spec fn arg_at(b: Seq<u8>, i: int) -> Option<(Term, nat)>
    decreases b.len() - i, 11int,
{
    match expr_at(b, i) {
        Some((x, n)) => if token_at(b, i + n, seq![',']) {
            Some((x, n + 1))
        } else {
            None
        },
        None => None,
    }
}

/// As many arguments followed by commas as stand one after the other from `i`.
pub open spec fn list_at(b: Seq<u8>, i: int) -> (Seq<Term>, nat)
    decreases b.len() - i, 12int,
{
    if 0 <= i <= b.len() {
        match expr_at(b, i) {
            Some((x, n)) => if token_at(b, i + n, seq![',']) {
                let (xs, m) = list_at(b, i + n + 1);
                (seq![x] + xs, n + 1 + m)
            } else {
                (Seq::empty(), 0)
            },
            None => (Seq::empty(), 0),
        }
    } else {
        (Seq::empty(), 0)
    }
}

/// At least one argument followed by a comma, then a last argument, at `i`.
pub open spec fn args_at(b: Seq<u8>, i: int) -> Option<(Seq<Term>, nat)>
    decreases b.len() - i, 13int,
{
    let (xs, n) = list_at(b, i);
    if xs.len() >= 1 && 0 <= i && i + n <= b.len() {
        match expr_at(b, i + n) {
            Some((z, m)) => Some((xs.push(z), n + m)),
            None => None,
        }
    } else {
        None
    }
}

/// `name(a,...,z)` at `i`.
pub open spec fn call_at(b: Seq<u8>, i: int) -> Option<(Term, nat)>
    decreases b.len() - i, 1int,
{
    let e = alnum_end(b, i);
    if 0 <= i < b.len() && i < e && token_at(b, e, seq!['(']) {
        match args_at(b, e + 1) {
            Some((xs, n)) => if token_at(b, e + 1 + n, seq![')']) {
                Some((Term::Call(decode_utf8(b.subrange(i, e)), xs), (e + 2 + n - i) as nat))
            } else {
                None
            },
            None => None,
        }
    } else {
        None
    }
}

/// Alternative `k` of an expression at `i`.
pub open spec fn alt_at(b: Seq<u8>, i: int, k: int) -> Option<(Term, nat)>
    decreases b.len() - i, 2int,
{
    if k == 0 {
        int_at(b, i)
    } else if k == 1 {
        bool_at(b, i)
    } else if k == 2 {
        binary_at(b, i, '+')
    } else if k == 3 {
        binary_at(b, i, '=')
    } else if k == 4 {
        if_at(b, i)
    } else {
        call_at(b, i)
    }
}

/// The first of the alternatives `k..` that matches at `i`.
pub open spec fn first_at(b: Seq<u8>, i: int, k: int) -> Option<(Term, nat)>
    decreases b.len() - i, 9 - k,
{
    if 0 <= k < 6 {
        match alt_at(b, i, k) {
            Some(r) => Some(r),
            None => first_at(b, i, k + 1),
        }
    } else {
        None
    }
}

/// The expression at `i`, with the number of bytes it takes.
pub open spec fn expr_at(b: Seq<u8>, i: int) -> Option<(Term, nat)>
    decreases b.len() - i, 10int,
{
    if 0 <= i <= b.len() {
        first_at(b, i, 0)
    } else {
        None
    }
}

/// `r` is what a production whose outcome from `start` is `expected` gives.
pub open spec fn parsed<T>(r: ParseResult<Expr>, start: Cursor<T>, expected: Option<(Term, nat)>) -> bool {
    match expected {
        None => r is Err,
        Some((t, n)) => {
            &&& r is Ok
            &&& r->Ok_0@.wf()
            &&& r->Ok_0@.text == start.text
            &&& r->Ok_0@.pos == start.pos + n
            &&& r->Ok_0@.val@ == t
        },
    }
}

/// The words of the grammar are ASCII.
proof fn lemma_tokens()
    ensures
        encoded("("@) == ascii(seq!['(']),
        encoded(")"@) == ascii(seq![')']),
        encoded("+"@) == ascii(seq!['+']),
        encoded("="@) == ascii(seq!['=']),
        encoded(","@) == ascii(seq![',']),
        encoded("if"@) == ascii(seq!['i', 'f']),
        encoded("true"@) == ascii(seq!['t', 'r', 'u', 'e']),
        encoded("false"@) == ascii(seq!['f', 'a', 'l', 's', 'e']),
{
    reveal_strlit("(");
    reveal_strlit(")");
    reveal_strlit("+");
    reveal_strlit("=");
    reveal_strlit(",");
    reveal_strlit("if");
    reveal_strlit("true");
    reveal_strlit("false");
    lemma_ascii_word("("@, seq!['(']);
    lemma_ascii_word(")"@, seq![')']);
    lemma_ascii_word("+"@, seq!['+']);
    lemma_ascii_word("="@, seq!['=']);
    lemma_ascii_word(","@, seq![',']);
    lemma_ascii_word("if"@, seq!['i', 'f']);
    lemma_ascii_word("true"@, seq!['t', 'r', 'u', 'e']);
    lemma_ascii_word("false"@, seq!['f', 'a', 'l', 's', 'e']);
}

proof fn lemma_ascii_word(s: Seq<char>, w: Seq<char>)
    requires
        s.len() == w.len(),
        forall|i: int| 0 <= i < w.len() ==> s[i] == w[i],
        is_ascii_chars(w),
    ensures
        encoded(s) == ascii(w),
{
    assert(s =~= w);
    is_ascii_chars_encode_utf8(w);
    assert(encoded(s) =~= ascii(w));
}

/// A run of digits does not end before it starts.
proof fn lemma_digits_end(b: Seq<u8>, i: int)
    ensures
        digits_end(b, i) >= i,
    decreases b.len() - i,
{
    if 0 <= i < b.len() && crate::parsing::is_digit(b[i]) {
        lemma_digits_end(b, i + 1);
    }
}

/// An integer literal.
fn e_int(p: Parsing<()>) -> (r: ParseResult<Expr>)
    requires
        p@.wf(),
    ensures
        parsed(r, p@, int_at(p@.bytes(), p@.pos)),
{
    let ghost start = p@;
    proof {
        lemma_digits_end(start.bytes(), start.pos);
    }
    let r0 = p.parse_int();
    // The payload is the unit value, so replacing it by unit changes nothing.
    let ghost u: () = start.val;
    assert(start.with(u) == start);
    let q = match r0 {
        Ok(q) => q,
        Err(e) => return Err(e),
    };
    let (q, n) = q.take();
    Ok(q.replace(Expr::Int(n)))
}

/// A boolean literal.
fn e_bool(p: Parsing<()>) -> (r: ParseResult<Expr>)
    requires
        p@.wf(),
    ensures
        parsed(r, p@, bool_at(p@.bytes(), p@.pos)),
{
    let ghost start = p@;
    let alt = |k: usize, q: Parsing<()>| -> (r: ParseResult<Expr>)
        requires
            k < 2,
            q@.wf(),
        ensures
            k == 0 ==> parsed(
                r,
                q@,
                if token_at(q@.bytes(), q@.pos, seq!['t', 'r', 'u', 'e']) {
                    Some((Term::Bool(true), 4nat))
                } else {
                    None
                },
            ),
            k == 1 ==> parsed(
                r,
                q@,
                if token_at(q@.bytes(), q@.pos, seq!['f', 'a', 'l', 's', 'e']) {
                    Some((Term::Bool(false), 5nat))
                } else {
                    None
                },
            ),
        {
            proof {
                lemma_tokens();
            }
            let (word, v) = if k == 0 {
                ("true", true)
            } else {
                ("false", false)
            };
            match q.skip(word) {
                Ok(q) => Ok(q.replace(Expr::Bool(v))),
                Err(e) => Err(e),
            }
        };
    let r = p.try_one(2, alt);
    proof {
        if r is Ok {
            let k = choose|k: usize| k < 2 && attempt(alt, k, start, r) && forall|j: usize|
                j < k ==> #[trigger] attempt_failed(alt, j, start);
            if k == 1 {
                assert(attempt_failed(alt, 0, start));
            }
        } else {
            assert(attempt_failed(alt, 0, start));
            assert(attempt_failed(alt, 1, start));
        }
    }
    r
}

/// `r` is what a production of an argument list whose outcome from `start`
/// is `expected` gives.
pub open spec fn listed<T>(
    r: ParseResult<Vec<Expr>>,
    start: Cursor<T>,
    expected: Option<(Seq<Term>, nat)>,
) -> bool {
    match expected {
        None => r is Err,
        Some((ts, n)) => {
            &&& r is Ok
            &&& r->Ok_0@.wf()
            &&& r->Ok_0@.text == start.text
            &&& r->Ok_0@.pos == start.pos + n
            &&& terms_of(r->Ok_0@.val@) == ts
        },
    }
}

/// Past failed alternatives, the first match is the first among the rest.
proof fn lemma_first_at(b: Seq<u8>, i: int, k: int)
    requires
        0 <= k <= 6,
        forall|j: int| 0 <= j < k ==> alt_at(b, i, j) is None,
    ensures
        first_at(b, i, 0) == first_at(b, i, k),
    decreases k,
{
    if k > 0 {
        lemma_first_at(b, i, k - 1);
        assert(alt_at(b, i, k - 1) is None);
        assert(first_at(b, i, k - 1) == first_at(b, i, k));
    }
}

/// An expression: the first alternative that matches.
fn expr(p: Parsing<()>) -> (r: ParseResult<Expr>)
    requires
        p@.wf(),
    ensures
        parsed(r, p@, expr_at(p@.bytes(), p@.pos)),
        r is Err ==> r->Err_0.0@ == "No method worked parsing at \""@ + p@.rest_text() + "\""@,
    decreases p@.remaining(), 10int,
{
    let ghost start = p@;
    let text: Ghost<Seq<char>> = Ghost(start.text);
    let pos: Ghost<int> = Ghost(start.pos);
    let ghost b = start.bytes();
    let ghost i = start.pos;
    let alt = |k: usize, q: Parsing<()>| -> (r: ParseResult<Expr>)
        requires
            k < 6,
            q@.wf(),
            q@.text == text@,
            q@.pos == pos@,
        ensures
            parsed(r, q@, alt_at(q@.bytes(), q@.pos, k as int)),
        {
            if k == 0 {
                e_int(q)
            } else if k == 1 {
                e_bool(q)
            } else if k == 2 {
                e_binary(q, true)
            } else if k == 3 {
                e_binary(q, false)
            } else if k == 4 {
                e_if(q)
            } else {
                e_fn_call(q)
            }
        };
    let r = p.try_one(6, alt);
    proof {
        if r is Ok {
            let k = choose|k: usize| k < 6 && attempt(alt, k, start, r) && forall|j: usize|
                j < k ==> #[trigger] attempt_failed(alt, j, start);
            assert forall|j: int| 0 <= j < k implies alt_at(b, i, j) is None by {
                assert(attempt_failed(alt, j as usize, start));
            }
            lemma_first_at(b, i, k as int);
        } else {
            assert forall|j: int| 0 <= j < 6 implies alt_at(b, i, j) is None by {
                assert(attempt_failed(alt, j as usize, start));
            }
            lemma_first_at(b, i, 6);
        }
    }
    r
}

/// `(x+y)` where `plus`, else `(x=y)`.
fn e_binary(p: Parsing<()>, plus: bool) -> (r: ParseResult<Expr>)
    requires
        p@.wf(),
    ensures
        parsed(r, p@, binary_at(p@.bytes(), p@.pos, if plus { '+' } else { '=' })),
    decreases p@.remaining(), 1int,
{
    let ghost start = p@;
    let text: Ghost<Seq<char>> = Ghost(start.text);
    let pos: Ghost<int> = Ghost(start.pos);
    let ghost op = if plus { '+' } else { '=' };
    let inner = |q: Parsing<()>| -> (r: ParseResult<Expr>)
        requires
            q@.wf(),
            q@.text == text@,
            q@.pos == pos@ + 1,
        ensures
            parsed(r, q@, pair_at(q@.bytes(), q@.pos, op)),
        {
            proof {
                lemma_tokens();
            }
            let q = match expr(q) {
                Ok(q) => q,
                Err(e) => return Err(e),
            };
            let (q, x) = q.take();
            let sym = if plus { "+" } else { "=" };
            let q = match q.skip(sym) {
                Ok(q) => q,
                Err(e) => return Err(e),
            };
            let q = match expr(q) {
                Ok(q) => q,
                Err(e) => return Err(e),
            };
            let (q, y) = q.take();
            let e = if plus {
                Expr::Plus(Box::new(x), Box::new(y))
            } else {
                Expr::Eq(Box::new(x), Box::new(y))
            };
            Ok(q.replace(e))
        };
    proof {
        lemma_tokens();
    }
    p.wrapped("(", inner, ")")
}

/// `if(c,x,y)`.
fn e_if(p: Parsing<()>) -> (r: ParseResult<Expr>)
    requires
        p@.wf(),
    ensures
        parsed(r, p@, if_at(p@.bytes(), p@.pos)),
    decreases p@.remaining(), 1int,
{
    proof {
        lemma_tokens();
    }
    let ghost start = p@;
    let text: Ghost<Seq<char>> = Ghost(start.text);
    let pos: Ghost<int> = Ghost(start.pos);
    let q = match p.skip("if") {
        Ok(q) => q,
        Err(e) => return Err(e),
    };
    let inner = |q: Parsing<()>| -> (r: ParseResult<Expr>)
        requires
            q@.wf(),
            q@.text == text@,
            q@.pos == pos@ + 3,
        ensures
            parsed(r, q@, triple_at(q@.bytes(), q@.pos)),
        {
            proof {
                lemma_tokens();
            }
            let q = match expr(q) {
                Ok(q) => q,
                Err(e) => return Err(e),
            };
            let (q, c) = q.take();
            let q = match q.skip(",") {
                Ok(q) => q,
                Err(e) => return Err(e),
            };
            let q = match expr(q) {
                Ok(q) => q,
                Err(e) => return Err(e),
            };
            let (q, x) = q.take();
            let q = match q.skip(",") {
                Ok(q) => q,
                Err(e) => return Err(e),
            };
            let q = match expr(q) {
                Ok(q) => q,
                Err(e) => return Err(e),
            };
            let (q, y) = q.take();
            Ok(q.replace(Expr::If(Box::new(c), Box::new(x), Box::new(y))))
        };
    q.wrapped("(", inner, ")")
}

/// The run that a letter-or-digit test accepts from `i` is the run of letters
/// and digits there.
proof fn lemma_run_is_alnum<F: Fn(&u8) -> bool>(pred: F, b: Seq<u8>, i: int, k: int, m: int)
    requires
        0 <= i <= b.len(),
        0 <= m <= k,
        forall|c: u8, d: bool| #[trigger] pred.ensures((&c,), d) ==> d == is_alnum(c),
        is_run(pred, b.subrange(i, b.len() as int), k),
    ensures
        alnum_end(b, i + m) == i + k,
        forall|j: int| i <= j < i + k ==> is_alnum(#[trigger] b[j]),
    decreases k - m,
{
    let rest = b.subrange(i, b.len() as int);
    assert forall|j: int| i <= j < i + k implies is_alnum(#[trigger] b[j]) by {
        assert(rest[j - i] == b[j]);
        assert(pred.ensures((&rest[j - i],), true));
    }
    if m < k {
        lemma_run_is_alnum(pred, b, i, k, m + 1);
    } else if i + k < b.len() {
        assert(rest[k] == b[i + k]);
        assert(pred.ensures((&rest[k],), false));
    }
}

/// A sequence of expressions has as many terms.
proof fn lemma_terms_len(es: Seq<Expr>)
    ensures
        terms_of(es).len() == es.len(),
    decreases es.len(),
{
    if es.len() > 0 {
        lemma_terms_len(es.drop_last());
    }
}

/// What repeated arguments followed by commas gave, read against the grammar.
proof fn lemma_trace<F: Fn(Parsing<()>) -> ParseResult<Expr>>(
    once: F,
    text: Seq<char>,
    start: int,
    xs: Seq<Expr>,
    end: int,
)
    requires
        forall|p: Parsing<()>, s: ParseResult<Expr>|
            #[trigger] once.ensures((p,), s) && p@.wf() && p@.text == text && p@.pos >= start
                ==> parsed(s, p@, arg_at(encode_utf8(text), p@.pos)),
        repeats_to(once, text, start, xs, end),
        0 <= start <= encode_utf8(text).len(),
    ensures
        start <= end <= encode_utf8(text).len(),
        list_at(encode_utf8(text), start) == (
            terms_of(xs) + list_at(encode_utf8(text), end).0,
            (end - start) as nat + list_at(encode_utf8(text), end).1,
        ),
    decreases xs.len(),
{
    let b = encode_utf8(text);
    if xs.len() > 0 {
        let (p, q) = choose|p: Parsing<()>, q: Parsing<Expr>|
            #[trigger] once.ensures((p,), Ok(q)) && p@.wf() && p@.text == text && q@ == (Cursor {
                text,
                pos: end,
                val: xs.last(),
            }) && repeats_to(once, text, start, xs.drop_last(), p@.pos);
        let mid = p@.pos;
        lemma_trace(once, text, start, xs.drop_last(), mid);
        assert(parsed(Ok(q), p@, arg_at(b, mid)));
        let (l, n) = list_at(b, end);
        assert(list_at(b, mid) == (seq![term_of(xs.last())] + l, (end - mid) as nat + n));
        assert(terms_of(xs) == terms_of(xs.drop_last()).push(term_of(xs.last())));
        assert(terms_of(xs.drop_last()) + list_at(b, mid).0 =~= terms_of(xs) + l);
    }
}

/// One or more arguments, each followed by a comma, then a last argument.
fn parse_args(p: Parsing<()>) -> (r: ParseResult<Vec<Expr>>)
    requires
        p@.wf(),
    ensures
        listed(r, p@, args_at(p@.bytes(), p@.pos)),
    decreases p@.remaining(), 14int,
{
    let ghost start = p@;
    let text: Ghost<Seq<char>> = Ghost(start.text);
    let pos: Ghost<int> = Ghost(start.pos);
    let ghost b = start.bytes();
    let once = |q: Parsing<()>| -> (r: ParseResult<Expr>)
        requires
            q@.wf(),
            q@.text == text@,
            q@.pos >= pos@,
        ensures
            parsed(r, q@, arg_at(q@.bytes(), q@.pos)),
        {
            proof {
                lemma_tokens();
            }
            match expr(q) {
                Ok(q) => q.skip(","),
                Err(e) => Err(e),
            }
        };
    let q = match p.repeat(once) {
        Ok(q) => q,
        Err(e) => {
            proof {
                // The first application failed, on this very cursor.
                let c = choose|c: Parsing<()>| c@ == start.with(()) && #[trigger] once.ensures((c,), Err(e));
                let ghost u: () = start.val;
                assert(c@ == start);
            }
            return Err(e);
        },
    };
    let ghost end = q@.pos;
    proof {
        lemma_trace(once, start.text, start.pos, q@.val@, end);
        // The repetition stopped where an argument followed by a comma failed.
        let (c, e) = choose|c: Parsing<()>, e: crate::parsing::Error|
            c@ == (Cursor { text: start.text, pos: end, val: () }) && #[trigger] once.ensures((c,), Err(e));
        assert(list_at(b, end) == (Seq::<Term>::empty(), 0nat));
        assert(terms_of(q@.val@) + Seq::<Term>::empty() =~= terms_of(q@.val@));
        lemma_terms_len(q@.val@);
    }
    let (q, mut xs) = q.take();
    let q = match expr(q) {
        Ok(q) => q,
        Err(e) => return Err(e),
    };
    let (q, z) = q.take();
    let ghost xs0 = xs@;
    xs.push(z);
    proof {
        assert(xs@.drop_last() =~= xs0);
    }
    Ok(q.replace(xs))
}

/// A call `name(a,...,z)`.
fn e_fn_call(p: Parsing<()>) -> (r: ParseResult<Expr>)
    requires
        p@.wf(),
    ensures
        parsed(r, p@, call_at(p@.bytes(), p@.pos)),
    decreases p@.remaining(), 1int,
{
    let ghost start = p@;
    let text: Ghost<Seq<char>> = Ghost(start.text);
    let pos: Ghost<int> = Ghost(start.pos);
    let ghost b = start.bytes();
    let ghost i = start.pos;
    let alnum = |c: &u8| -> (d: bool)
        ensures
            d == is_alnum(*c),
        { (*c >= 48 && *c <= 57) || (*c >= 65 && *c <= 90) || (*c >= 97 && *c <= 122) };
    let r0 = p.match_pred(alnum, "is_ascii_alphanumeric");
    let ghost rest = start.rest();
    let ghost k = choose|k: int| is_run(alnum, rest, k) && matched(r0, start, k, "is_ascii_alphanumeric"@);
    proof {
        lemma_run_is_alnum(alnum, b, i, k, 0);
        assert(rest.subrange(0, k) =~= b.subrange(i, i + k));
        if k > 0 {
            partial_valid_utf8_extend_ascii_block(rest.subrange(0, k), 0, k);
            assert(rest.subrange(0, k).subrange(0, 0) =~= Seq::<u8>::empty());
            assert(rest.subrange(0, k).subrange(0, k) =~= rest.subrange(0, k));
        }
    }
    let q = match r0 {
        Ok(q) => q,
        Err(e) => return Err(e),
    };
    let (q, name) = q.take();
    let args = |q: Parsing<()>| -> (r: ParseResult<Vec<Expr>>)
        requires
            q@.wf(),
            q@.text == text@,
            q@.pos > pos@,
        ensures
            listed(r, q@, args_at(q@.bytes(), q@.pos)),
        { parse_args(q) };
    proof {
        lemma_tokens();
    }
    let q = match q.wrapped("(", args, ")") {
        Ok(q) => q,
        Err(e) => return Err(e),
    };
    let (q, xs) = q.take();
    Ok(q.replace(Expr::FnCall(name, xs)))
}

/// What parsing the formula `text` gives: the expression, where one takes up
/// the whole text, or else a syntax error that says where parsing stopped.
pub open spec fn formula(text: Seq<char>) -> Result<Term, Failure> {
    let b = encode_utf8(text);
    match expr_at(b, 0) {
        None => Err(Failure::Syntax("No method worked parsing at \""@ + text + "\""@)),
        Some((t, n)) => if n == b.len() {
            Ok(t)
        } else {
            Err(
                Failure::Syntax(
                    "expected end of string, instead found \""@ + decode_utf8(
                        b.subrange(n as int, b.len() as int),
                    ) + "\""@,
                ),
            )
        },
    }
}

/// A parse result, with the expression and the error seen through their views.
pub open spec fn parse_outcome(r: Result<Expr, Error>) -> Result<Term, Failure> {
    match r {
        Ok(e) => Ok(e@),
        Err(e) => Err(e@),
    }
}

impl Expr {
    /// Parses a formula; `s` is the text after the leading `=`.
    pub fn parse(s: &str) -> (r: Result<Expr, Error>)
        ensures
            parse_outcome(r) == formula(s@),
    {
        let p = Parsing::new(s.to_owned());
        proof {
            encode_utf8_decode_utf8(s@);
            assert(p@.bytes().subrange(0, p@.bytes().len() as int) =~= p@.bytes());
        }
        let p = match expr(p) {
            Ok(p) => p,
            Err(e) => return Err(Error::from(e)),
        };
        let p = match p.done() {
            Ok(p) => p,
            Err(e) => return Err(Error::from(e)),
        };
        let (_, e) = p.take();
        Ok(e)
    }
}

/// The bytes of the decimal digits of `n`, and the number they stand for.
proof fn lemma_decimal(n: nat)
    ensures
        is_ascii_chars(decimal_digits(n)),
        decimal_digits(n).len() >= 1,
        forall|j: int|
            0 <= j < decimal_digits(n).len() ==> crate::parsing::is_digit(
                #[trigger] decimal_digits(n)[j] as u8,
            ),
        decimal_value(ascii(decimal_digits(n))) == n,
    decreases n,
{
    let d = decimal_digits(n);
    let m = ascii(d);
    assert(d[d.len() - 1] == digit_char(n % 10));
    assert(m.last() == 48 + n % 10);
    if n >= 10 {
        lemma_decimal(n / 10);
        let e = decimal_digits(n / 10);
        assert(d == e.push(digit_char(n % 10)));
        assert(m.drop_last() =~= ascii(e));
        assert((n / 10) * 10 + n % 10 == n) by (nonlinear_arith);
        assert(decimal_value(m) == decimal_value(ascii(e)) * 10 + (m.last() - 48) as nat);
    } else {
        assert(m.drop_last() =~= Seq::<u8>::empty());
        assert(decimal_value(m) == decimal_value(m.drop_last()) * 10 + (m.last() - 48) as nat);
    }
}

/// Where every byte from `i` on is a digit, the run of digits reaches the end.
proof fn lemma_all_digits(b: Seq<u8>, i: int)
    requires
        0 <= i <= b.len(),
        forall|j: int| i <= j < b.len() ==> crate::parsing::is_digit(#[trigger] b[j]),
    ensures
        digits_end(b, i) == b.len(),
    decreases b.len() - i,
{
    if i < b.len() {
        lemma_all_digits(b, i + 1);
    }
}

/// Every non-negative integer, written in decimal, parses as that integer and
/// evaluates to it.
pub proof fn lemma_integer_round_trip(n: i64)
    requires
        0 <= n,
    ensures
        formula(int_text(n as int)) == Ok::<Term, Failure>(Term::Int(n)),
        eval_term(Term::Int(n)) == Ok::<Value, Failure>(Value::Int(n)),
{
    let d = decimal_digits(n as nat);
    lemma_decimal(n as nat);
    is_ascii_chars_encode_utf8(d);
    let b = encode_utf8(d);
    assert(b =~= ascii(d));
    lemma_all_digits(b, 0);
    assert(b.subrange(0, b.len() as int) =~= b);
    assert(int_at(b, 0) == Some((Term::Int(n), b.len())));
    assert(alt_at(b, 0, 0) == int_at(b, 0));
    assert(expr_at(b, 0) == first_at(b, 0, 0));
}

} // verus!
