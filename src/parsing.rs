//! A backtracking text scanner. A `Parsing<T>` is an immutable cursor into a
//! source text together with the value most recently parsed; every step hands
//! back a new cursor, so an alternative can always be retried from a saved one.

use vstd::prelude::*;
use vstd::string::StringSliceAdditionalSpecFns;
use vstd::utf8::*;

verus! {

/// A parse failure, with a message that names what was expected and what was found.
#[derive(Debug)]
pub struct Error(pub String);

pub type ParseResult<T> = Result<Parsing<T>, Error>;

/// A cursor into `s` at byte offset `i`, carrying the payload `val`.
pub struct Parsing<T> {
    s: String,
    i: usize,
    val: T,
}

pub type P<T> = Parsing<T>;

/// What a cursor stands for: the source text, a byte offset into its UTF-8
/// encoding, and the payload.
pub struct Cursor<T> {
    pub text: Seq<char>,
    pub pos: int,
    pub val: T,
}

impl<T> Cursor<T> {
    /// The UTF-8 encoding of the source text.
    pub open spec fn bytes(self) -> Seq<u8> {
        encode_utf8(self.text)
    }

    /// The bytes that are not consumed yet.
    pub open spec fn rest(self) -> Seq<u8> {
        self.bytes().subrange(self.pos, self.bytes().len() as int)
    }

    /// The text that is not consumed yet.
    pub open spec fn rest_text(self) -> Seq<char> {
        decode_utf8(self.rest())
    }

    /// How many bytes are left to consume.
    pub open spec fn remaining(self) -> int {
        self.bytes().len() - self.pos
    }

    /// The offset lies within the text, and what precedes it is whole characters.
    pub open spec fn wf(self) -> bool {
        &&& 0 <= self.pos <= self.bytes().len()
        &&& valid_utf8(self.bytes().subrange(0, self.pos))
    }

    /// The same text and offset with another payload.
    pub open spec fn with<U>(self, val: U) -> Cursor<U> {
        Cursor { text: self.text, pos: self.pos, val }
    }

    /// The same text and payload, `n` bytes further on.
    pub open spec fn advanced(self, n: int) -> Cursor<T> {
        Cursor { text: self.text, pos: self.pos + n, val: self.val }
    }
}

/// The UTF-8 encoding of a literal.
pub open spec fn encoded(s: Seq<char>) -> Seq<u8> {
    encode_utf8(s)
}

/// `b` holds the bytes `w` from offset `at` on.
pub open spec fn holds_at(b: Seq<u8>, at: int, w: Seq<u8>) -> bool {
    &&& 0 <= at
    &&& at + w.len() <= b.len()
    &&& b.subrange(at, at + w.len()) == w
}

/// What `skip(lit)` gives from `start`.
pub open spec fn skipped<T>(r: ParseResult<T>, start: Cursor<T>, lit: Seq<char>) -> bool {
    if holds_at(start.bytes(), start.pos, encoded(lit)) {
        r is Ok && r->Ok_0@ == start.advanced(encoded(lit).len() as int)
    } else {
        r is Err && r->Err_0.0@ == mismatch(lit, start.rest_text())
    }
}

/// The message of a failed `skip(lit)` where the unconsumed text is `found`.
pub open spec fn mismatch(lit: Seq<char>, found: Seq<char>) -> Seq<char> {
    "Expected \""@ + lit + "\" but found \""@ + found + "\" instead"@
}

/// `alt`, handed a copy of `start` as alternative `k`, can give `r`.
pub open spec fn attempt<T: Clone, T2, F: Fn(usize, Parsing<T>) -> ParseResult<T2>>(
    alt: F,
    k: usize,
    start: Cursor<T>,
    r: ParseResult<T2>,
) -> bool {
    exists|p: Parsing<T>|
        p@.wf() && p@.text == start.text && p@.pos == start.pos && cloned(start.val, p@.val)
            && #[trigger] alt.ensures((k, p), r)
}

/// `alt`, handed a copy of `start` as alternative `k`, can fail.
pub open spec fn attempt_failed<T: Clone, T2, F: Fn(usize, Parsing<T>) -> ParseResult<T2>>(
    alt: F,
    k: usize,
    start: Cursor<T>,
) -> bool {
    exists|e: Error| #[trigger] attempt(alt, k, start, Err(e))
}

/// `once`, applied from offset `start` of `text` again and again, each time
/// where the last application stopped, can give the payloads `xs` and stop at `end`.
pub open spec fn repeats_to<T2, F: Fn(Parsing<()>) -> ParseResult<T2>>(
    once: F,
    text: Seq<char>,
    start: int,
    xs: Seq<T2>,
    end: int,
) -> bool
    decreases xs.len(),
{
    if xs.len() == 0 {
        end == start
    } else {
        exists|p: Parsing<()>, q: Parsing<T2>|
            #[trigger] once.ensures((p,), Ok(q)) && p@.wf() && p@.text == text && q@ == (Cursor {
                text,
                pos: end,
                val: xs.last(),
            }) && repeats_to(once, text, start, xs.drop_last(), p@.pos)
    }
}

/// The first `k` bytes of `b` satisfy `pred`, and the byte after them, if any, does not.
pub open spec fn is_run<F: Fn(&u8) -> bool>(pred: F, b: Seq<u8>, k: int) -> bool {
    &&& 0 <= k <= b.len()
    &&& forall|j: int| 0 <= j < k ==> #[trigger] pred.ensures((&b[j],), true)
    &&& k < b.len() ==> pred.ensures((&b[k],), false)
}

/// What `match_pred` gives from `start` when the run of matching bytes has length `k`.
pub open spec fn matched<T>(r: ParseResult<String>, start: Cursor<T>, k: int, name: Seq<char>) -> bool {
    if k == 0 {
        r is Err && r->Err_0.0@ == "Expected bytes matching \""@ + name + "\", but got \""@
            + start.rest_text() + "\""@
    } else if valid_utf8(start.rest().subrange(0, k)) {
        &&& r is Ok
        &&& r->Ok_0@.text == start.text
        &&& r->Ok_0@.pos == start.pos + k
        &&& r->Ok_0@.val@ == decode_utf8(start.rest().subrange(0, k))
    } else {
        r is Err && r->Err_0.0@ == "Bytes matching \""@ + name + "\" end inside a character: \""@
            + start.rest_text() + "\""@
    }
}

/// An ASCII decimal digit.
pub open spec fn is_digit(c: u8) -> bool {
    48 <= c <= 57
}

/// Where the run of digits that starts at `i` ends.
pub open spec fn digits_end(b: Seq<u8>, i: int) -> int
    decreases b.len() - i,
{
    if 0 <= i < b.len() && is_digit(b[i]) {
        digits_end(b, i + 1)
    } else {
        i
    }
}

/// The number that a sequence of decimal digits stands for.
pub open spec fn decimal_value(d: Seq<u8>) -> nat
    decreases d.len(),
{
    if d.len() == 0 {
        0
    } else {
        decimal_value(d.drop_last()) * 10 + (d.last() - 48) as nat
    }
}

/// What `parse_int` gives from `start`.
pub open spec fn int_parsed(r: ParseResult<i64>, start: Cursor<()>) -> bool {
    let b = start.bytes();
    let e = digits_end(b, start.pos);
    let v = decimal_value(b.subrange(start.pos, e));
    if e == start.pos {
        r is Err && r->Err_0.0@ == "Expected bytes matching \""@ + "is_ascii_digit"@
            + "\", but got \""@ + start.rest_text() + "\""@
    } else if v <= i64::MAX {
        r is Ok && r->Ok_0@ == (Cursor { text: start.text, pos: e, val: v as i64 })
    } else {
        r is Err && r->Err_0.0@ == "number too large to fit in target type"@
    }
}

impl<T> View for Parsing<T> {
    type V = Cursor<T>;

    closed spec fn view(&self) -> Cursor<T> {
        Cursor { text: self.s@, pos: self.i as int, val: self.val }
    }
}

/// A valid prefix of a valid UTF-8 sequence ends on a character boundary.
proof fn lemma_valid_prefix_is_boundary(b: Seq<u8>, k: int)
    requires
        valid_utf8(b),
        0 <= k <= b.len(),
        valid_utf8(b.subrange(0, k)),
    ensures
        is_char_boundary(b, k),
    decreases b.len(),
{
    if k > 0 {
        let p = b.subrange(0, k);
        assert(p[0] == b[0]);
        let l = length_of_first_scalar(b);
        assert(length_of_first_scalar(p) == l);
        assert(l <= k);
        let tail = pop_first_scalar(b);
        assert(pop_first_scalar(p) =~= tail.subrange(0, k - l));
        lemma_valid_prefix_is_boundary(tail, k - l);
    }
}

/// Appending whole characters to a valid prefix keeps it valid.
proof fn lemma_extend_prefix(b: Seq<u8>, i: int, k: int)
    requires
        0 <= i <= i + k <= b.len(),
        0 <= k,
        valid_utf8(b.subrange(0, i)),
        valid_utf8(b.subrange(i, i + k)),
    ensures
        valid_utf8(b.subrange(0, i + k)),
{
    valid_utf8_concat(b.subrange(0, i), b.subrange(i, i + k));
    assert(b.subrange(0, i) + b.subrange(i, i + k) =~= b.subrange(0, i + k));
}

/// Joins three pieces of text into a message.
fn message(a: &str, b: &str, c: &str) -> (r: String)
    ensures
        r@ == a@ + b@ + c@,
{
    let mut r = a.to_owned();
    r.append(b);
    r.append(c);
    r
}

impl<T> Parsing<T> {
    #[verifier::type_invariant]
    closed spec fn inv(self) -> bool {
        &&& self@.wf()
        &&& self@.bytes().len() <= usize::MAX
    }

    /// The payload, cloned.
    pub fn get(&self) -> (r: T)
        where
            T: Clone,
        ensures
            cloned(self@.val, r),
    {
        self.val.clone()
    }

    /// The byte offset of the cursor.
    pub fn offset(&self) -> (r: usize)
        ensures
            r == self@.pos,
    {
        self.i
    }

    /// The whole source text.
    pub fn text(&self) -> (r: &str)
        ensures
            r@ == self@.text,
    {
        self.s.as_str()
    }

    /// The same cursor with another payload.
    pub fn replace<T2>(self, val: T2) -> (r: Parsing<T2>)
        ensures
            r@ == self@.with(val),
            r@.wf(),
    {
        proof {
            use_type_invariant(&self);
        }
        Parsing { s: self.s, i: self.i, val }
    }

    /// The same cursor without a payload.
    pub fn drop(self) -> (r: Parsing<()>)
        ensures
            r@ == self@.with(()),
            r@.wf(),
    {
        self.replace(())
    }

    /// Splits the cursor from its payload.
    pub fn take(self) -> (r: (Parsing<()>, T))
        ensures
            r.0@ == self@.with(()),
            r.0@.wf(),
            r.1 == self@.val,
    {
        proof {
            use_type_invariant(&self);
        }
        (Parsing { s: self.s, i: self.i, val: () }, self.val)
    }

    /// The text that is not consumed yet.
    fn rest_str(&self) -> (r: &str)
        ensures
            r@ == self@.rest_text(),
            r.spec_bytes() == self@.rest(),
    {
        proof {
            use_type_invariant(self);
            encode_utf8_valid_utf8(self.s@);
            lemma_valid_prefix_is_boundary(self@.bytes(), self.i as int);
        }
        let (_, rest) = self.s.as_str().split_at(self.i);
        proof {
            encode_utf8_decode_utf8(rest@);
        }
        rest
    }

    /// The cursor `n` bytes further on, over whole characters.
    fn advance(self, n: usize) -> (r: Parsing<T>)
        requires
            n <= self@.remaining(),
            valid_utf8(self@.bytes().subrange(self@.pos, self@.pos + n)),
        ensures
            r@ == self@.advanced(n as int),
            r@.wf(),
    {
        proof {
            use_type_invariant(&self);
            lemma_extend_prefix(self@.bytes(), self.i as int, n as int);
        }
        Parsing { s: self.s, i: self.i + n, val: self.val }
    }

    /// Moves past `lit` where the unconsumed text starts with it.
    pub fn skip(self, lit: &str) -> (r: ParseResult<T>)
        ensures
            skipped(r, self@, lit@),
            r is Ok ==> r->Ok_0@.wf(),
    {
        proof {
            use_type_invariant(&self);
        }
        let b = self.s.as_str().as_bytes();
        let w = lit.as_bytes();
        if starts_at(b, self.i, w) {
            proof {
                encode_utf8_valid_utf8(lit@);
            }
            Ok(self.advance(w.len()))
        } else {
            let rest = self.rest_str();
            let mut m = message("Expected \"", lit, "\" but found \"");
            m.append(rest);
            m.append("\" instead");
            Err(Error(m))
        }
    }

    /// Succeeds only where the whole text is consumed.
    pub fn done(self) -> (r: ParseResult<T>)
        ensures
            self@.remaining() == 0 ==> r is Ok && r->Ok_0@ == self@ && self@.wf(),
            self@.remaining() != 0 ==> r is Err && r->Err_0.0@
                == "expected end of string, instead found \""@ + self@.rest_text() + "\""@,
    {
        proof {
            use_type_invariant(&self);
        }
        if self.i == self.s.as_str().len() {
            Ok(self)
        } else {
            let rest = self.rest_str();
            Err(Error(message("expected end of string, instead found \"", rest, "\"")))
        }
    }

    /// Tries the alternatives `0..n` of `alt` in order, each on a copy of this
    /// cursor, and gives the first success.
    pub fn try_one<T2, F: Fn(usize, Parsing<T>) -> ParseResult<T2>>(
        self,
        n: usize,
        alt: F,
    ) -> (r: ParseResult<T2>)
        where
            T: Clone,
        requires
            forall|k: usize, p: Parsing<T>|
                k < n && p@.wf() && p@.text == self@.text && p@.pos == self@.pos && cloned(
                    self@.val,
                    p@.val,
                ) ==> #[trigger] alt.requires((k, p)),
        ensures
            r is Ok ==> r->Ok_0@.wf(),
            r is Ok ==> exists|k: usize|
                k < n && attempt(alt, k, self@, r) && forall|j: usize|
                    j < k ==> #[trigger] attempt_failed(alt, j, self@),
            r is Err ==> forall|j: usize| j < n ==> #[trigger] attempt_failed(alt, j, self@),
            r is Err ==> r->Err_0.0@ == "No method worked parsing at \""@ + self@.rest_text() + "\""@,
    {
        let mut k: usize = 0;
        while k < n
            invariant
                k <= n,
                forall|j: usize| j < k ==> #[trigger] attempt_failed(alt, j, self@),
                forall|k: usize, p: Parsing<T>|
                    k < n && p@.wf() && p@.text == self@.text && p@.pos == self@.pos && cloned(
                        self@.val,
                        p@.val,
                    ) ==> #[trigger] alt.requires((k, p)),
            decreases n - k,
        {
            let c = self.clone();
            proof {
                use_type_invariant(&c);
            }
            let res = alt(k, c);
            assert(attempt(alt, k, self@, res));
            if let Ok(q) = &res {
                proof {
                    use_type_invariant(q);
                }
                return res;
            }
            proof {
                let e = res->Err_0;
                assert(res == Err::<Parsing<T2>, Error>(e));
                assert(attempt(alt, k, self@, Err(e)));
            }
            k += 1;
        }
        let rest = self.rest_str();
        Err(Error(message("No method worked parsing at \"", rest, "\"")))
    }

    /// Skips `left`, runs `inner`, then skips `right`.
    pub fn wrapped<T2, F: Fn(Parsing<T>) -> ParseResult<T2>>(
        self,
        left: &str,
        inner: F,
        right: &str,
    ) -> (r: ParseResult<T2>)
        requires
            forall|p: Parsing<T>|
                p@ == self@.advanced(encoded(left@).len() as int) && p@.wf() ==> #[trigger] inner.requires(
                    (p,),
                ),
        ensures
            r is Ok ==> r->Ok_0@.wf(),
            !holds_at(self@.bytes(), self@.pos, encoded(left@)) ==> r is Err && r->Err_0.0@
                == mismatch(left@, self@.rest_text()),
            holds_at(self@.bytes(), self@.pos, encoded(left@)) ==> exists|p: Parsing<T>, m: ParseResult<T2>|
                p@ == self@.advanced(encoded(left@).len() as int) && p@.wf() && #[trigger] inner.ensures(
                    (p,),
                    m,
                )
                    && match m {
                    Ok(q) => skipped(r, q@, right@),
                    Err(e) => r == Err::<Parsing<T2>, Error>(e),
                },
    {
        let p = match self.skip(left) {
            Ok(p) => p,
            Err(e) => return Err(e),
        };
        proof {
            use_type_invariant(&p);
        }
        let m = inner(p);
        match m {
            Ok(q) => q.skip(right),
            Err(e) => Err(e),
        }
    }

    /// Applies `once` again and again, each time where the last application
    /// stopped, until it fails; at least one application must succeed.
    pub fn repeat<T2, F: Fn(Parsing<()>) -> ParseResult<T2>>(self, once: F) -> (r: ParseResult<
        Vec<T2>,
    >)
        requires
            forall|p: Parsing<()>|
                p@.wf() && p@.text == self@.text && p@.pos >= self@.pos ==> #[trigger] once.requires(
                    (p,),
                ),
            forall|p: Parsing<()>, q: Parsing<T2>|
                #[trigger] once.ensures((p,), Ok(q)) ==> q@.text == p@.text && q@.pos > p@.pos,
        ensures
            r is Ok ==> r->Ok_0@.wf(),
            r is Ok ==> {
                let q = r->Ok_0@;
                &&& q.text == self@.text
                &&& q.val@.len() >= 1
                &&& repeats_to(once, self@.text, self@.pos, q.val@, q.pos)
                &&& exists|p: Parsing<()>, e: Error|
                    p@ == (Cursor { text: self@.text, pos: q.pos, val: () }) && #[trigger] once.ensures(
                        (p,),
                        Err(e),
                    )
            },
            r is Err ==> exists|p: Parsing<()>|
                p@ == self@.with(()) && #[trigger] once.ensures((p,), Err(r->Err_0)),
    {
        let mut p = self.drop();
        let mut xs: Vec<T2> = Vec::new();
        let mut going = true;
        proof {
            use_type_invariant(&p);
        }
        while going
            invariant
                p@.text == self@.text,
                p@.wf(),
                repeats_to(once, self@.text, self@.pos, xs@, p@.pos),
                xs@.len() == 0 ==> p@ == self@.with(()),
                !going ==> xs@.len() >= 1 && exists|c: Parsing<()>, e: Error|
                    c@ == p@ && #[trigger] once.ensures((c,), Err(e)),
                p@.pos >= self@.pos,
                forall|p: Parsing<()>|
                    p@.wf() && p@.text == self@.text && p@.pos >= self@.pos ==> #[trigger] once.requires(
                        (p,),
                    ),
                forall|p: Parsing<()>, q: Parsing<T2>|
                    #[trigger] once.ensures((p,), Ok(q)) ==> q@.text == p@.text && q@.pos > p@.pos,
            decreases p@.remaining() + if going { 1int } else { 0int },
        {
            let c = p.clone();
            assert(c@ == p@);
            match once(c) {
                Ok(pp) => {
                    let ghost xs0 = xs@;
                    let (q, v) = pp.take();
                    proof {
                        use_type_invariant(&q);
                    }
                    xs.push(v);
                    assert(xs@.drop_last() =~= xs0);
                    assert(repeats_to(once, self@.text, self@.pos, xs@, q@.pos));
                    p = q;
                },
                Err(e) => {
                    if xs.len() == 0 {
                        assert(c@ == self@.with(()));
                        let r: ParseResult<Vec<T2>> = Err(e);
                        assert(once.ensures((c,), Err(r->Err_0)));
                        return r;
                    }
                    going = false;
                },
            }
        }
        Ok(p.replace(xs))
    }

    /// Consumes the longest non-empty run of bytes that satisfy `pred`; the
    /// payload becomes the text of that run.
    pub fn match_pred<F: Fn(&u8) -> bool>(self, pred: F, pred_name: &str) -> (r: ParseResult<
        String,
    >)
        requires
            forall|c: u8| pred.requires((&c,)),
        ensures
            exists|k: int| is_run(pred, self@.rest(), k) && matched(r, self@, k, pred_name@),
            r is Ok ==> r->Ok_0@.wf(),
    {
        proof {
            use_type_invariant(&self);
        }
        let ghost rest = self@.rest();
        let b = self.s.as_str().as_bytes();
        let n = b.len();
        let mut k: usize = 0;
        let mut more = true;
        while more && k < n - self.i
            invariant
                b@ == self@.bytes(),
                n == b@.len(),
                self.i <= n,
                rest == b@.subrange(self.i as int, n as int),
                k <= n - self.i,
                forall|j: int| 0 <= j < k ==> #[trigger] pred.ensures((&rest[j],), true),
                !more ==> k < rest.len() && pred.ensures((&rest[k as int],), false),
                forall|c: u8| pred.requires((&c,)),
            decreases (n - self.i - k) as int + if more { 1int } else { 0int },
        {
            let c = &b[self.i + k];
            assert(*c == rest[k as int]);
            if pred(c) {
                k += 1;
            } else {
                more = false;
            }
        }
        assert(is_run(pred, rest, k as int));
        let rest_s = self.rest_str();
        if k == 0 {
            let mut m = message("Expected bytes matching \"", pred_name, "\", but got \"");
            m.append(rest_s);
            m.append("\"");
            return Err(Error(m));
        }
        proof {
            encode_utf8_valid_utf8(self.s@);
            lemma_valid_prefix_is_boundary(self@.bytes(), self@.pos);
            valid_utf8_split(self@.bytes(), self@.pos);
        }
        if !rest_s.is_char_boundary(k) {
            proof {
                if valid_utf8(rest.subrange(0, k as int)) {
                    lemma_valid_prefix_is_boundary(rest, k as int);
                }
            }
            let mut m = message("Bytes matching \"", pred_name, "\" end inside a character: \"");
            m.append(rest_s);
            m.append("\"");
            return Err(Error(m));
        }
        let (word, _) = rest_s.split_at(k);
        proof {
            valid_utf8_split(rest, k as int);
            encode_utf8_decode_utf8(word@);
            assert(self@.bytes().subrange(self@.pos, self@.pos + k) =~= rest.subrange(0, k as int));
        }
        let word = word.to_owned();
        Ok(self.advance(k).replace(word))
    }

    /// Consumes a run of decimal digits and reads it as an `i64`.
    pub fn parse_int(self) -> (r: ParseResult<i64>)
        ensures
            int_parsed(r, self@.with(())),
            r is Ok ==> r->Ok_0@.wf(),
    {
        let digit = |c: &u8| -> (d: bool)
            ensures
                d == is_digit(*c),
            { *c >= 48 && *c <= 57 };
        let start = self.drop();
        proof {
            use_type_invariant(&start);
        }
        let ghost st = start@;
        let ghost rest = st.rest();
        let p = start.match_pred(digit, "is_ascii_digit");
        let ghost k = choose|k: int| is_run(digit, rest, k) && matched(p, st, k, "is_ascii_digit"@);
        proof {
            lemma_run_is_digits(digit, st.bytes(), st.pos, k, 0);
            assert(rest.subrange(0, k) =~= st.bytes().subrange(st.pos, st.pos + k));
            if k > 0 {
                partial_valid_utf8_extend_ascii_block(rest.subrange(0, k), 0, k);
                assert(rest.subrange(0, k).subrange(0, 0) =~= Seq::<u8>::empty());
                assert(rest.subrange(0, k).subrange(0, k) =~= rest.subrange(0, k));
            }
        }
        let p = match p {
            Ok(p) => p,
            Err(e) => return Err(e),
        };
        let (q, word) = p.take();
        proof {
            decode_utf8_encode_utf8(rest.subrange(0, k));
        }
        match decimal_of(word.as_str().as_bytes()) {
            Some(v) => Ok(q.replace(v)),
            None => Err(Error("number too large to fit in target type".to_owned())),
        }
    }
}

/// The run that a digit test accepts from `i` is the run of digits there.
proof fn lemma_run_is_digits<F: Fn(&u8) -> bool>(pred: F, b: Seq<u8>, i: int, k: int, m: int)
    requires
        0 <= i <= b.len(),
        0 <= m <= k,
        forall|c: u8, d: bool| #[trigger] pred.ensures((&c,), d) ==> d == is_digit(c),
        is_run(pred, b.subrange(i, b.len() as int), k),
    ensures
        digits_end(b, i + m) == i + k,
        forall|j: int| i <= j < i + k ==> is_digit(#[trigger] b[j]),
    decreases k - m,
{
    let rest = b.subrange(i, b.len() as int);
    assert forall|j: int| i <= j < i + k implies is_digit(#[trigger] b[j]) by {
        assert(rest[j - i] == b[j]);
        assert(pred.ensures((&rest[j - i],), true));
    }
    if m < k {
        lemma_run_is_digits(pred, b, i, k, m + 1);
    } else if i + k < b.len() {
        assert(rest[k] == b[i + k]);
        assert(pred.ensures((&rest[k],), false));
    }
}

/// Reads a run of decimal digits, or gives `None` where its value exceeds `i64::MAX`.
fn decimal_of(d: &[u8]) -> (r: Option<i64>)
    requires
        forall|j: int| 0 <= j < d@.len() ==> is_digit(#[trigger] d@[j]),
    ensures
        r is Some <==> decimal_value(d@) <= i64::MAX,
        r is Some ==> r->Some_0 == decimal_value(d@),
{
    let mut acc: i64 = 0;
    let mut k: usize = 0;
    while k < d.len()
        invariant
            k <= d@.len(),
            forall|j: int| 0 <= j < d@.len() ==> is_digit(#[trigger] d@[j]),
            acc == decimal_value(d@.subrange(0, k as int)),
        decreases d@.len() - k,
    {
        proof {
            assert(d@.subrange(0, k + 1).drop_last() =~= d@.subrange(0, k as int));
        }
        let digit = (d[k] - 48) as i64;
        let next = match acc.checked_mul(10) {
            Some(t) => t.checked_add(digit),
            None => None,
        };
        match next {
            Some(t) => {
                acc = t;
            },
            None => {
                proof {
                    lemma_value_of_prefix(d@, k + 1);
                }
                return None;
            },
        }
        k += 1;
    }
    proof {
        assert(d@.subrange(0, k as int) =~= d@);
    }
    Some(acc)
}

/// A prefix of a run of digits stands for no larger number than the whole.
proof fn lemma_value_of_prefix(d: Seq<u8>, k: int)
    requires
        0 <= k <= d.len(),
    ensures
        decimal_value(d.subrange(0, k)) <= decimal_value(d),
    decreases d.len(),
{
    if k < d.len() {
        assert(d.drop_last().subrange(0, k) =~= d.subrange(0, k));
        lemma_value_of_prefix(d.drop_last(), k);
    } else {
        assert(d.subrange(0, k) =~= d);
    }
}

impl<T: Clone> Clone for Parsing<T> {
    fn clone(&self) -> (r: Self)
        ensures
            r@.text == self@.text,
            r@.pos == self@.pos,
            cloned(self@.val, r@.val),
            r@.wf(),
    {
        proof {
            use_type_invariant(self);
        }
        Parsing { s: self.s.clone(), i: self.i, val: self.val.clone() }
    }
}

impl Parsing<()> {
    /// A cursor at the start of `s`, with no payload.
    pub fn new(s: String) -> (r: Parsing<()>)
        ensures
            r@ == (Cursor { text: s@, pos: 0, val: () }),
            r@.wf(),
    {
        // A slice is never longer than a `usize` counts.
        let _ = s.as_str().as_bytes().len();
        proof {
            assert(encode_utf8(s@).subrange(0, 0) =~= Seq::<u8>::empty());
        }
        Parsing { s, i: 0, val: () }
    }
}

/// Whether `hay` holds `needle` from offset `at` on.
fn starts_at(hay: &[u8], at: usize, needle: &[u8]) -> (r: bool)
    requires
        at <= hay@.len(),
    ensures
        r == holds_at(hay@, at as int, needle@),
{
    let n = hay.len();
    if needle.len() > n - at {
        return false;
    }
    let mut k: usize = 0;
    while k < needle.len()
        invariant
            at + needle@.len() <= hay@.len(),
            hay@.len() == n,
            k <= needle@.len(),
            forall|j: int| 0 <= j < k ==> hay@[at + j] == needle@[j],
        decreases needle@.len() - k,
    {
        if hay[at + k] != needle[k] {
            assert(hay@.subrange(at as int, at + needle@.len())[k as int] != needle@[k as int]);
            return false;
        }
        k += 1;
    }
    assert(hay@.subrange(at as int, at + needle@.len()) =~= needle@);
    true
}

} // verus!
