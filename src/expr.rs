//! Formula expressions: their syntax trees, their values and their evaluation.

use vstd::prelude::*;

verus! {

/// A formula's syntax tree.
#[derive(PartialEq, Eq, Debug)]
pub enum Expr {
    Int(i64),
    Bool(bool),
    Plus(Box<Expr>, Box<Expr>),
    Eq(Box<Expr>, Box<Expr>),
    If(Box<Expr>, Box<Expr>, Box<Expr>),
    FnCall(String, Vec<Expr>),
}

/// What a syntax tree stands for, with names as text and arguments as sequences.
pub enum Term {
    Int(i64),
    Bool(bool),
    Plus(Box<Term>, Box<Term>),
    Eq(Box<Term>, Box<Term>),
    If(Box<Term>, Box<Term>, Box<Term>),
    Call(Seq<char>, Seq<Term>),
}

/// The term of an expression.
pub open spec fn term_of(e: Expr) -> Term
    decreases e,
{
    match e {
        Expr::Int(n) => Term::Int(n),
        Expr::Bool(b) => Term::Bool(b),
        Expr::Plus(x, y) => Term::Plus(Box::new(term_of(*x)), Box::new(term_of(*y))),
        Expr::Eq(x, y) => Term::Eq(Box::new(term_of(*x)), Box::new(term_of(*y))),
        Expr::If(c, x, y) => Term::If(
            Box::new(term_of(*c)),
            Box::new(term_of(*x)),
            Box::new(term_of(*y)),
        ),
        Expr::FnCall(name, args) => Term::Call(name@, terms_of(args@)),
    }
}

/// The terms of a sequence of expressions.
pub open spec fn terms_of(es: Seq<Expr>) -> Seq<Term>
    decreases es,
{
    if es.len() == 0 {
        Seq::empty()
    } else {
        terms_of(es.drop_last()).push(term_of(es.last()))
    }
}

impl View for Expr {
    type V = Term;

    open spec fn view(&self) -> Term {
        term_of(*self)
    }
}

/// A value that a formula evaluates to.
#[derive(Clone, Copy, PartialEq, Eq, Debug, Structural)]
pub enum Value {
    Int(i64),
    Bool(bool),
}

/// A failure to parse or evaluate a formula.
#[derive(Debug)]
pub enum Error {
    /// The formula text does not follow the grammar.
    Syntax(String),
    /// An operator or a condition got a value of the wrong kind.
    TypeMismatch,
    /// A call names a function that does not exist.
    UnknownFunction(String),
    /// A sum does not fit in an `i64`.
    Overflow,
}

impl From<crate::parsing::Error> for Error {
    fn from(e: crate::parsing::Error) -> (r: Error)
        ensures
            r == Error::Syntax(e.0),
    {
        Error::Syntax(e.0)
    }
}

impl vstd::std_specs::convert::FromSpecImpl<crate::parsing::Error> for Error {
    open spec fn obeys_from_spec() -> bool {
        true
    }

    open spec fn from_spec(e: crate::parsing::Error) -> Error {
        Error::Syntax(e.0)
    }
}

/// What an error stands for, with texts as sequences.
pub enum Failure {
    Syntax(Seq<char>),
    TypeMismatch,
    UnknownFunction(Seq<char>),
    Overflow,
}

impl View for Error {
    type V = Failure;

    open spec fn view(&self) -> Failure {
        match self {
            Error::Syntax(m) => Failure::Syntax(m@),
            Error::TypeMismatch => Failure::TypeMismatch,
            Error::UnknownFunction(n) => Failure::UnknownFunction(n@),
            Error::Overflow => Failure::Overflow,
        }
    }
}

/// An evaluation result, with the error seen through its view.
pub open spec fn outcome(r: Result<Value, Error>) -> Result<Value, Failure> {
    match r {
        Ok(v) => Ok(v),
        Err(e) => Err(e@),
    }
}

/// The character of a decimal digit.
pub open spec fn digit_char(d: nat) -> char {
    ((48 + d) as u8) as char
}

/// The decimal digits of `n`, most significant first, without leading zeros.
pub open spec fn decimal_digits(n: nat) -> Seq<char>
    decreases n,
{
    if n < 10 {
        seq![digit_char(n)]
    } else {
        decimal_digits(n / 10).push(digit_char(n % 10))
    }
}

/// An integer written in decimal, with a minus sign where it is negative.
pub open spec fn int_text(n: int) -> Seq<char> {
    if n < 0 {
        seq!['-'] + decimal_digits((-n) as nat)
    } else {
        decimal_digits(n as nat)
    }
}

/// How a value is displayed.
pub open spec fn value_text(v: Value) -> Seq<char> {
    match v {
        Value::Int(n) => int_text(n as int),
        Value::Bool(true) => "true"@,
        Value::Bool(false) => "false"@,
    }
}

/// How an error is displayed.
pub open spec fn failure_text(f: Failure) -> Seq<char> {
    match f {
        Failure::Syntax(m) => m,
        Failure::TypeMismatch => "type mismatch"@,
        Failure::UnknownFunction(name) => "function \""@ + name + "\" does not exist"@,
        Failure::Overflow => "integer overflow"@,
    }
}

/// The text of one decimal digit.
fn digit_str(d: u64) -> (r: &'static str)
    requires
        d < 10,
    ensures
        r@ == seq![digit_char(d as nat)],
{
    proof {
        reveal_strlit("0");
        reveal_strlit("1");
        reveal_strlit("2");
        reveal_strlit("3");
        reveal_strlit("4");
        reveal_strlit("5");
        reveal_strlit("6");
        reveal_strlit("7");
        reveal_strlit("8");
        reveal_strlit("9");
    }
    let r = if d == 0 {
        "0"
    } else if d == 1 {
        "1"
    } else if d == 2 {
        "2"
    } else if d == 3 {
        "3"
    } else if d == 4 {
        "4"
    } else if d == 5 {
        "5"
    } else if d == 6 {
        "6"
    } else if d == 7 {
        "7"
    } else if d == 8 {
        "8"
    } else {
        "9"
    };
    assert(r@ =~= seq![digit_char(d as nat)]);
    r
}

/// Appends the decimal digits of `m`.
fn push_digits(s: &mut String, m: u64)
    ensures
        final(s)@ == old(s)@ + decimal_digits(m as nat),
    decreases m,
{
    if m >= 10 {
        push_digits(s, m / 10);
        s.append(digit_str(m % 10));
        assert(old(s)@ + decimal_digits(m as nat) =~= old(s)@ + decimal_digits((m / 10) as nat) + seq![
            digit_char((m % 10) as nat),
        ]);
    } else {
        s.append(digit_str(m));
    }
}

/// `n` written in decimal.
pub fn int_to_text(n: i64) -> (r: String)
    ensures
        r@ == int_text(n as int),
{
    let mut s = String::new();
    if n < 0 {
        s.append("-");
        proof {
            reveal_strlit("-");
        }
        let m = (-(n + 1)) as u64 + 1;
        push_digits(&mut s, m);
        assert(s@ =~= int_text(n as int));
    } else {
        push_digits(&mut s, n as u64);
        assert(s@ =~= int_text(n as int));
    }
    s
}

impl Value {
    /// The value as it is displayed: integers in decimal, booleans as `true`
    /// or `false`.
    pub fn to_text(&self) -> (r: String)
        ensures
            r@ == value_text(*self),
    {
        match self {
            Value::Int(n) => int_to_text(*n),
            Value::Bool(true) => "true".to_owned(),
            Value::Bool(false) => "false".to_owned(),
        }
    }
}

impl Error {
    /// The error as it is displayed.
    pub fn message(&self) -> (r: String)
        ensures
            r@ == failure_text(self@),
    {
        match self {
            Error::Syntax(m) => m.clone(),
            Error::TypeMismatch => "type mismatch".to_owned(),
            Error::UnknownFunction(name) => {
                let mut r = "function \"".to_owned();
                r.append(name.as_str());
                r.append("\" does not exist");
                r
            },
            Error::Overflow => "integer overflow".to_owned(),
        }
    }
}

/// What evaluating `t` gives: operands are evaluated left to right, and a
/// conditional evaluates only the branch it takes.
pub open spec fn eval_term(t: Term) -> Result<Value, Failure>
    decreases t,
{
    match t {
        Term::Int(n) => Ok(Value::Int(n)),
        Term::Bool(b) => Ok(Value::Bool(b)),
        Term::Plus(x, y) => match (eval_term(*x), eval_term(*y)) {
            (Err(f), _) => Err(f),
            (Ok(_), Err(f)) => Err(f),
            (Ok(Value::Int(a)), Ok(Value::Int(b))) => if i64::MIN <= a + b <= i64::MAX {
                Ok(Value::Int((a + b) as i64))
            } else {
                Err(Failure::Overflow)
            },
            _ => Err(Failure::TypeMismatch),
        },
        Term::Eq(x, y) => match (eval_term(*x), eval_term(*y)) {
            (Err(f), _) => Err(f),
            (Ok(_), Err(f)) => Err(f),
            (Ok(Value::Int(a)), Ok(Value::Int(b))) => Ok(Value::Bool(a == b)),
            _ => Err(Failure::TypeMismatch),
        },
        Term::If(c, x, y) => match eval_term(*c) {
            Err(f) => Err(f),
            Ok(Value::Bool(b)) => if b {
                eval_term(*x)
            } else {
                eval_term(*y)
            },
            Ok(_) => Err(Failure::TypeMismatch),
        },
        Term::Call(name, _) => Err(Failure::UnknownFunction(name)),
    }
}

/// A conditional on a constant evaluates to what the branch it takes
/// evaluates to, whatever the other branch is, even one that fails.
pub proof fn lemma_untaken_branch(c: bool, x: Term, y: Term)
    ensures
        eval_term(Term::If(Box::new(Term::Bool(c)), Box::new(x), Box::new(y))) == if c {
            eval_term(x)
        } else {
            eval_term(y)
        },
{
    assert(eval_term(Term::Bool(c)) == Ok::<Value, Failure>(Value::Bool(c)));
}

impl Expr {
    /// Evaluates the expression.
    pub fn eval(&self) -> (r: Result<Value, Error>)
        ensures
            outcome(r) == eval_term(self@),
        decreases self,
    {
        match self {
            Expr::Int(n) => Ok(Value::Int(*n)),
            Expr::Bool(b) => Ok(Value::Bool(*b)),
            Expr::Plus(x, y) => {
                let a = x.eval()?;
                let b = y.eval()?;
                match (a, b) {
                    (Value::Int(a), Value::Int(b)) => match a.checked_add(b) {
                        Some(s) => Ok(Value::Int(s)),
                        None => Err(Error::Overflow),
                    },
                    _ => Err(Error::TypeMismatch),
                }
            },
            Expr::Eq(x, y) => {
                let a = x.eval()?;
                let b = y.eval()?;
                match (a, b) {
                    (Value::Int(a), Value::Int(b)) => Ok(Value::Bool(a == b)),
                    _ => Err(Error::TypeMismatch),
                }
            },
            Expr::If(c, x, y) => match c.eval()? {
                Value::Bool(true) => x.eval(),
                Value::Bool(false) => y.eval(),
                _ => Err(Error::TypeMismatch),
            },
            // No built-in functions are defined, so a call always names an
            // unknown function and its arguments are never evaluated.
            Expr::FnCall(name, _) => Err(Error::UnknownFunction(name.clone())),
        }
    }
}

} // verus!
