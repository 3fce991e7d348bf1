//! Tokenizer for the length-prefixed wire grammar.
//!
//! `$<len>\r\n<len bytes>\r\n` is a bulk string (an identifier, or a
//! reserved keyword on an exact match), `*<len>\r\n` followed by `len`
//! tokens is an array, and `:<signed digits>\r\n` is an integer.
use vstd::prelude::*;
use vstd::string::StringSliceAdditionalSpecFns;
use vstd::utf8::{decode_utf8, valid_utf8};

verus! {

pub const CR: u8 = 13;
pub const LF: u8 = 10;
pub const DOLLAR: u8 = 36;
pub const STAR: u8 = 42;
pub const COLON: u8 = 58;
pub const MINUS: u8 = 45;
pub const PLUS: u8 = 43;
pub const ZERO: u8 = 48;
pub const NINE: u8 = 57;

/// Largest magnitude of a negative `i64`.
pub const NEG_LIMIT: u64 = 9223372036854775808;
/// Largest positive `i64`.
pub const POS_LIMIT: u64 = 9223372036854775807;

/// One unit of the wire grammar; an array owns the tokens inside it.
#[derive(Debug, PartialEq, PartialOrd)]
pub enum Token {
    Disconnect,
    Create,
    Read,
    Update,
    Delete,
    Subscribe,
    Array(Vec<Token>),
    Identifier(String),
    Integer(i64),
}

/// The mathematical form of a [`Token`].
pub enum Tok {
    Disconnect,
    Create,
    Read,
    Update,
    Delete,
    Subscribe,
    Array(Seq<Tok>),
    Identifier(Seq<char>),
    Integer(int),
}

impl View for Token {
    type V = Tok;

    open spec fn view(&self) -> Tok
        decreases self,
    {
        match self {
            Token::Disconnect => Tok::Disconnect,
            Token::Create => Tok::Create,
            Token::Read => Tok::Read,
            Token::Update => Tok::Update,
            Token::Delete => Tok::Delete,
            Token::Subscribe => Tok::Subscribe,
            Token::Array(a) => Tok::Array(
                Seq::new(a.len() as nat, |i: int| if 0 <= i < a.len() { a[i]@ } else { Tok::Disconnect }),
            ),
            Token::Identifier(s) => Tok::Identifier(s@),
            Token::Integer(n) => Tok::Integer(*n as int),
        }
    }
}

#[derive(Debug, Clone, PartialEq, Eq, PartialOrd, Structural)]
pub enum Error {
    /// A token started with a byte that begins no token, at this position.
    Delimiter(usize),
    /// The input ended inside a token.
    UnexpectedEOF,
    /// The byte at the given position was not the delimiter that the
    /// grammar requires there: expected, the byte found (read as a `char`),
    /// position.
    Expected(char, char, usize),
    /// A length or integer field is not a number that fits its type.
    Parse,
}

pub open spec fn is_digit(c: u8) -> bool {
    ZERO <= c <= NINE
}

pub open spec fn all_digits(s: Seq<u8>) -> bool {
    forall|i: int| 0 <= i < s.len() ==> is_digit(#[trigger] s[i])
}

/// The number that a run of decimal digits denotes.
pub open spec fn decimal(s: Seq<u8>) -> nat
    decreases s.len(),
{
    if s.len() == 0 {
        0
    } else {
        decimal(s.drop_last()) * 10 + (s.last() - ZERO) as nat
    }
}

/// The end of the run of digits that starts at `p`.
pub open spec fn digits_end(b: Seq<u8>, p: int) -> int
    decreases b.len() - p,
{
    if 0 <= p < b.len() && is_digit(b[p]) {
        digits_end(b, p + 1)
    } else {
        p
    }
}

/// The first carriage return at or after `p`, or the end of the input.
pub open spec fn cr_index(b: Seq<u8>, p: int) -> int
    decreases b.len() - p,
{
    if 0 <= p < b.len() && b[p] != CR {
        cr_index(b, p + 1)
    } else {
        p
    }
}

/// What the two bytes at `p` give where the grammar asks for `\r\n`.
pub open spec fn crlf_at(b: Seq<u8>, p: int) -> Result<(), Error> {
    if p >= b.len() {
        Err(Error::UnexpectedEOF)
    } else if b[p] != CR {
        Err(Error::Expected('\r', b[p] as char, p as usize))
    } else if p + 1 >= b.len() {
        Err(Error::UnexpectedEOF)
    } else if b[p + 1] != LF {
        Err(Error::Expected('\n', b[p + 1] as char, (p + 1) as usize))
    } else {
        Ok(())
    }
}

/// A non-empty run of digits whose value is at most `limit`.
pub open spec fn bounded_decimal(s: Seq<u8>, limit: nat) -> Option<nat> {
    if s.len() > 0 && all_digits(s) && decimal(s) <= limit {
        Some(decimal(s))
    } else {
        None
    }
}

/// An integer field: an optional sign, then digits, within `i64`.
pub open spec fn parse_int(s: Seq<u8>) -> Option<int> {
    if s.len() > 0 && s[0] == MINUS {
        match bounded_decimal(s.drop_first(), NEG_LIMIT as nat) {
            Some(m) => Some(-m),
            None => None,
        }
    } else if s.len() > 0 && s[0] == PLUS {
        match bounded_decimal(s.drop_first(), POS_LIMIT as nat) {
            Some(m) => Some(m as int),
            None => None,
        }
    } else {
        match bounded_decimal(s, POS_LIMIT as nat) {
            Some(m) => Some(m as int),
            None => None,
        }
    }
}

/// The token that a bulk string's text stands for.
pub open spec fn keyword(t: Seq<char>) -> Tok {
    if t == "DISCONNECT"@ {
        Tok::Disconnect
    } else if t == "CREATE"@ {
        Tok::Create
    } else if t == "READ"@ {
        Tok::Read
    } else if t == "UPDATE"@ {
        Tok::Update
    } else if t == "DELETE"@ {
        Tok::Delete
    } else if t == "SUB"@ {
        Tok::Subscribe
    } else {
        Tok::Identifier(t)
    }
}

/// The length field that follows the marker byte at `p`: the value of the
/// run of digits, and the position where the run ends.
pub open spec fn length_field(b: Seq<u8>, p: int) -> Result<(nat, int), Error> {
    let d = digits_end(b, p + 1);
    match bounded_decimal(b.subrange(p + 1, d), usize::MAX as nat) {
        None => Err(Error::Parse),
        Some(n) => match crlf_at(b, d) {
            Err(e) => Err(e),
            Ok(_) => Ok((n, d + 2)),
        },
    }
}

/// Lexing one token from position `p` of `b`: the token and the position
/// after it, or the error met.
pub open spec fn lex_at(b: Seq<u8>, p: int) -> Result<(Tok, int), Error>
    decreases b.len() - p, 0nat,
{
    if p < 0 || p >= b.len() {
        Err(Error::UnexpectedEOF)
    } else if b[p] == DOLLAR {
        match length_field(b, p) {
            Err(e) => Err(e),
            Ok((n, s)) => if s + n > b.len() {
                Err(Error::UnexpectedEOF)
            } else {
                match crlf_at(b, s + n) {
                    Err(e) => Err(e),
                    Ok(_) => {
                        let payload = b.subrange(s, s + n);
                        if valid_utf8(payload) {
                            Ok((keyword(decode_utf8(payload)), s + n + 2))
                        } else {
                            Err(Error::Parse)
                        }
                    },
                }
            },
        }
    } else if b[p] == STAR {
        match length_field(b, p) {
            Err(e) => Err(e),
            Ok((n, s)) => if p < s <= b.len() {
                match lex_items(b, s, n) {
                    Err(e) => Err(e),
                    Ok((ts, q)) => Ok((Tok::Array(ts), q)),
                }
            } else {
                Err(Error::UnexpectedEOF)
            },
        }
    } else if b[p] == COLON {
        let e = cr_index(b, p + 1);
        match crlf_at(b, e) {
            Err(x) => Err(x),
            Ok(_) => match parse_int(b.subrange(p + 1, e)) {
                None => Err(Error::Parse),
                Some(n) => Ok((Tok::Integer(n), e + 2)),
            },
        }
    } else {
        Err(Error::Delimiter(p as usize))
    }
}

/// Lexing `n` tokens in a row from position `p`.
pub open spec fn lex_items(b: Seq<u8>, p: int, n: nat) -> Result<(Seq<Tok>, int), Error>
    decreases b.len() - p, n,
{
    if n == 0 {
        Ok((seq![], p))
    } else {
        match lex_at(b, p) {
            Err(e) => Err(e),
            Ok((t, q)) => if p < q <= b.len() {
                match lex_items(b, q, (n - 1) as nat) {
                    Err(e) => Err(e),
                    Ok((ts, r)) => Ok((seq![t] + ts, r)),
                }
            } else {
                Err(Error::UnexpectedEOF)
            },
        }
    }
}

/// A cursor over the bytes of a text.
pub struct Lexer<'a> {
    input: &'a [u8],
    pos: usize,
}

impl<'a> Lexer<'a> {
    pub closed spec fn bytes(&self) -> Seq<u8> {
        self.input@
    }

    pub closed spec fn position(&self) -> int {
        self.pos as int
    }

    pub fn from(s: &'a str) -> (r: Self)
        ensures
            r.bytes() == s.spec_bytes(),
            r.position() == 0,
    {
        Lexer { input: s.as_bytes(), pos: 0 }
    }
}


/// Relies on `std::str::from_utf8`: it accepts exactly the valid UTF-8
/// byte sequences and hands back the text that they encode.
#[verifier::external_body]
pub(crate) fn utf8_text(b: &[u8]) -> (r: Option<String>)
    ensures
        r is Some <==> valid_utf8(b@),
        r is Some ==> r->Some_0@ == decode_utf8(b@),
{
    match std::str::from_utf8(b) {
        Ok(s) => Some(s.to_string()),
        Err(_) => None,
    }
}

/// Each digit appended to a run at least keeps its value.
pub proof fn lemma_decimal_prefix(s: Seq<u8>, i: int)
    requires
        0 <= i <= s.len(),
    ensures
        decimal(s.subrange(0, i)) <= decimal(s),
    decreases s.len(),
{
    if i < s.len() {
        lemma_decimal_prefix(s.drop_last(), i);
        assert(s.drop_last().subrange(0, i) =~= s.subrange(0, i));
    } else {
        assert(s.subrange(0, i) =~= s);
    }
}

impl<'a> Lexer<'a> {
    fn peek(&self) -> (r: Result<u8, Error>)
        ensures
            self.pos < self.input@.len() ==> r == Ok::<u8, Error>(self.input@[self.pos as int]),
            self.pos >= self.input@.len() ==> r == Err::<u8, Error>(Error::UnexpectedEOF),
    {
        if self.pos < self.input.len() {
            Ok(self.input[self.pos])
        } else {
            Err(Error::UnexpectedEOF)
        }
    }

    fn consume(&mut self) -> (r: Result<u8, Error>)
        ensures
            final(self).input == old(self).input,
            old(self).pos < old(self).input@.len() ==> r == Ok::<u8, Error>(
                old(self).input@[old(self).pos as int],
            ) && final(self).pos == old(self).pos + 1,
            old(self).pos >= old(self).input@.len() ==> r == Err::<u8, Error>(
                Error::UnexpectedEOF,
            ) && final(self).pos == old(self).pos,
    {
        if self.pos < self.input.len() {
            let c = self.input[self.pos];
            self.pos = self.pos + 1;
            Ok(c)
        } else {
            Err(Error::UnexpectedEOF)
        }
    }

    /// Moves past the run of digits at the cursor.
    fn consume_digits(&mut self)
        requires
            old(self).pos <= old(self).input@.len(),
        ensures
            final(self).input == old(self).input,
            final(self).pos == digits_end(old(self).input@, old(self).pos as int),
            old(self).pos <= final(self).pos <= final(self).input@.len(),
    {
        let ghost start = self.pos as int;
        while self.pos < self.input.len() && ZERO <= self.input[self.pos] && self.input[self.pos] <= NINE
            invariant
                self.input == old(self).input,
                start <= self.pos <= self.input@.len(),
                digits_end(self.input@, start) == digits_end(self.input@, self.pos as int),
            decreases self.input@.len() - self.pos,
        {
            self.pos = self.pos + 1;
        }
    }

    /// Moves up to the next carriage return, or to the end of the input.
    fn consume_until_cr(&mut self)
        requires
            old(self).pos <= old(self).input@.len(),
        ensures
            final(self).input == old(self).input,
            final(self).pos == cr_index(old(self).input@, old(self).pos as int),
            old(self).pos <= final(self).pos <= final(self).input@.len(),
    {
        let ghost start = self.pos as int;
        while self.pos < self.input.len() && self.input[self.pos] != CR
            invariant
                self.input == old(self).input,
                start <= self.pos <= self.input@.len(),
                cr_index(self.input@, start) == cr_index(self.input@, self.pos as int),
            decreases self.input@.len() - self.pos,
        {
            self.pos = self.pos + 1;
        }
    }

    fn try_consume_crlf(&mut self) -> (r: Result<(), Error>)
        ensures
            final(self).input == old(self).input,
            r == crlf_at(old(self).input@, old(self).pos as int),
            r is Ok ==> final(self).pos == old(self).pos + 2,
            r is Ok ==> final(self).pos <= final(self).input@.len(),
    {
        if self.pos >= self.input.len() {
            return Err(Error::UnexpectedEOF);
        }
        let c = self.input[self.pos];
        if c != CR {
            return Err(Error::Expected('\r', c as char, self.pos));
        }
        self.pos = self.pos + 1;
        if self.pos >= self.input.len() {
            return Err(Error::UnexpectedEOF);
        }
        let d = self.input[self.pos];
        if d != LF {
            return Err(Error::Expected('\n', d as char, self.pos));
        }
        self.pos = self.pos + 1;
        Ok(())
    }

    /// The value of the digits in `from..to`, where they are a non-empty
    /// run of digits worth at most `limit`.
    fn number(&self, from: usize, to: usize, limit: u64) -> (r: Option<u64>)
        requires
            from <= to <= self.input@.len(),
            limit >= 9,
        ensures
            match bounded_decimal(self.input@.subrange(from as int, to as int), limit as nat) {
                Some(m) => r == Some(m as u64),
                None => r is None,
            },
    {
        let ghost s = self.input@.subrange(from as int, to as int);
        if from == to {
            return None;
        }
        let mut acc: u64 = 0;
        let mut i: usize = from;
        while i < to
            invariant
                from <= i <= to <= self.input@.len(),
                s == self.input@.subrange(from as int, to as int),
                limit >= 9,
                all_digits(self.input@.subrange(from as int, i as int)),
                acc == decimal(self.input@.subrange(from as int, i as int)),
                acc <= limit,
            decreases to - i,
        {
            let c = self.input[i];
            proof {
                assert(s.subrange(0, (i - from) as int) =~= self.input@.subrange(from as int, i as int));
            }
            if c < ZERO || c > NINE {
                assert(!is_digit(s[(i - from) as int]));
                return None;
            }
            let dv: u64 = (c - ZERO) as u64;
            let ghost prev = self.input@.subrange(from as int, i as int);
            let ghost next = self.input@.subrange(from as int, i + 1);
            assert(next.drop_last() =~= prev);
            assert(decimal(next) == decimal(prev) * 10 + dv);
            if acc > (limit - dv) / 10 {
                assert(acc * 10 + dv > limit) by (nonlinear_arith)
                    requires acc > (limit - dv) / 10, dv <= 9, limit >= 9;
                proof {
                    assert(s.subrange(0, (i + 1 - from) as int) =~= next);
                    lemma_decimal_prefix(s, (i + 1 - from) as int);
                }
                return None;
            }
            assert(acc * 10 + dv <= limit) by (nonlinear_arith)
                requires acc <= (limit - dv) / 10, dv <= 9, limit >= 9;
            acc = acc * 10 + dv;
            i = i + 1;
        }
        assert(self.input@.subrange(from as int, i as int) =~= s);
        Some(acc)
    }

    /// The integer written in `from..to`.
    fn integer(&self, from: usize, to: usize) -> (r: Option<i64>)
        requires
            from <= to <= self.input@.len(),
        ensures
            match parse_int(self.input@.subrange(from as int, to as int)) {
                Some(n) => r == Some(n as i64),
                None => r is None,
            },
    {
        let ghost s = self.input@.subrange(from as int, to as int);
        if from < to && self.input[from] == MINUS {
            assert(s.drop_first() =~= self.input@.subrange(from + 1, to as int));
            match self.number(from + 1, to, NEG_LIMIT) {
                Some(m) => if m == NEG_LIMIT {
                    Some(i64::MIN)
                } else {
                    Some(-(m as i64))
                },
                None => None,
            }
        } else if from < to && self.input[from] == PLUS {
            assert(s.drop_first() =~= self.input@.subrange(from + 1, to as int));
            match self.number(from + 1, to, POS_LIMIT) {
                Some(m) => Some(m as i64),
                None => None,
            }
        } else {
            match self.number(from, to, POS_LIMIT) {
                Some(m) => Some(m as i64),
                None => None,
            }
        }
    }

    /// Moves past the length field that follows the marker byte just read.
    fn length_field(&mut self) -> (r: Result<usize, Error>)
        requires
            1 <= old(self).pos <= old(self).input@.len(),
        ensures
            final(self).input == old(self).input,
            match length_field(old(self).input@, old(self).pos - 1) {
                Ok((n, q)) => r == Ok::<usize, Error>(n as usize) && final(self).pos == q,
                Err(e) => r == Err::<usize, Error>(e),
            },
            r is Ok ==> old(self).pos < final(self).pos <= final(self).input@.len(),
    {
        let start = self.pos;
        self.consume_digits();
        let end = self.pos;
        match self.number(start, end, usize::MAX as u64) {
            None => Err(Error::Parse),
            Some(n) => match self.try_consume_crlf() {
                Err(e) => Err(e),
                Ok(()) => Ok(n as usize),
            },
        }
    }

    fn identifier(&self, s: String) -> (t: Token)
        ensures
            t@ == keyword(s@),
    {
        if s == "DISCONNECT".to_owned() {
            Token::Disconnect
        } else if s == "CREATE".to_owned() {
            Token::Create
        } else if s == "READ".to_owned() {
            Token::Read
        } else if s == "UPDATE".to_owned() {
            Token::Update
        } else if s == "DELETE".to_owned() {
            Token::Delete
        } else if s == "SUB".to_owned() {
            Token::Subscribe
        } else {
            Token::Identifier(s)
        }
    }

    /// Reads one token at the cursor. It recurses once per level of array
    /// nesting; every level takes at least four bytes of input, so the
    /// depth is bounded by a quarter of the input's length.
    pub fn lex(&mut self) -> (r: Result<Token, Error>)
        ensures
            final(self).bytes() == old(self).bytes(),
            match lex_at(old(self).bytes(), old(self).position()) {
                Ok((t, q)) => r is Ok && r->Ok_0@ == t && final(self).position() == q,
                Err(e) => r == Err::<Token, Error>(e),
            },
            r is Ok ==> old(self).position() < final(self).position() <= final(self).bytes().len(),
        decreases old(self).bytes().len() - old(self).position(),
    {
        let ghost b = self.input@;
        let ghost p = self.pos as int;
        let c = match self.peek() {
            Ok(c) => c,
            Err(e) => return Err(e),
        };
        if c == DOLLAR {
            let _ = self.consume();
            let n = match self.length_field() {
                Ok(n) => n,
                Err(e) => return Err(e),
            };
            let start = self.pos;
            if n > self.input.len() - start {
                return Err(Error::UnexpectedEOF);
            }
            self.pos = start + n;
            match self.try_consume_crlf() {
                Err(e) => return Err(e),
                Ok(()) => {},
            }
            let payload = vstd::slice::slice_subrange(self.input, start, start + n);
            assert(payload@ =~= b.subrange(start as int, start + n));
            match utf8_text(payload) {
                None => Err(Error::Parse),
                Some(text) => Ok(self.identifier(text)),
            }
        } else if c == STAR {
            let _ = self.consume();
            let n = match self.length_field() {
                Ok(n) => n,
                Err(e) => return Err(e),
            };
            let ghost s = self.pos as int;
            let mut items: Vec<Token> = Vec::new();
            let mut k: usize = 0;
            while k < n
                invariant
                    self.input@ == b,
                    b == old(self).bytes(),
                    p == old(self).position(),
                    0 <= p < b.len() && b[p] == STAR,
                    p < s <= self.pos <= b.len(),
                    k <= n,
                    items@.len() == k,
                    length_field(b, p) == Ok::<(nat, int), Error>((n as nat, s)),
                    match lex_items(b, self.pos as int, (n - k) as nat) {
                        Ok((ts, q)) => lex_items(b, s, n as nat) == Ok::<(Seq<Tok>, int), Error>(
                            (Seq::new(k as nat, |i: int| items@[i]@) + ts, q),
                        ),
                        Err(e) => lex_items(b, s, n as nat) == Err::<(Seq<Tok>, int), Error>(e),
                    },
                decreases n - k,
            {
                let ghost before = items@;
                let ghost here = self.pos as int;
                let t = match self.lex() {
                    Ok(t) => t,
                    Err(e) => {
                        assert(lex_items(b, here, (n - k) as nat) == Err::<(Seq<Tok>, int), Error>(e));
                        assert(lex_items(b, s, n as nat) == Err::<(Seq<Tok>, int), Error>(e));
                        return Err(e);
                    },
                };
                items.push(t);
                k = k + 1;
                proof {
                    let head = Seq::new((k - 1) as nat, |i: int| before[i]@);
                    let grown = Seq::new(k as nat, |i: int| items@[i]@);
                    assert(grown =~= head + seq![t@]);
                    match lex_items(b, self.pos as int, (n - k) as nat) {
                        Ok((ts, q)) => {
                            assert(head + (seq![t@] + ts) =~= grown + ts);
                        },
                        Err(e) => {},
                    }
                }
            }
            let ghost views = Seq::new(k as nat, |i: int| items@[i]@);
            assert(lex_items(b, self.pos as int, 0) == Ok::<(Seq<Tok>, int), Error>((seq![], self.pos as int)));
            assert(views + seq![] =~= views);
            let r = Token::Array(items);
            assert(r@->Array_0 =~= views);
            Ok(r)
        } else if c == COLON {
            let _ = self.consume();
            let start = self.pos;
            self.consume_until_cr();
            let end = self.pos;
            match self.try_consume_crlf() {
                Err(e) => return Err(e),
                Ok(()) => {},
            }
            match self.integer(start, end) {
                None => Err(Error::Parse),
                Some(n) => Ok(Token::Integer(n)),
            }
        } else {
            Err(Error::Delimiter(self.pos))
        }
    }
}

} // verus!
