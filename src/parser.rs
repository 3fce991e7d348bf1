//! Commands read from a token tree, and values written back to the wire.
use vstd::prelude::*;
use vstd::utf8::{decode_utf8, encode_utf8, valid_utf8, decode_utf8_encode_utf8};
use vstd::string::{StringExecFns, StringSliceAdditionalSpecFns};
use std::collections::VecDeque;
use crate::lexer;
use crate::lexer::{Lexer, Tok, Token, lex_at, utf8_text};

verus! {

broadcast use vstd::std_specs::vec::axiom_vec_index_decreases;

/// A value as stored and as sent back.
#[derive(Debug, PartialEq, PartialOrd)]
pub enum Value {
    Text(String),
    Integer(i64),
    Array(Vec<Value>),
    Null,
}

/// The mathematical form of a [`Value`].
pub enum Val {
    Text(Seq<char>),
    Integer(int),
    Array(Seq<Val>),
    Null,
}

impl View for Value {
    type V = Val;

    open spec fn view(&self) -> Val
        decreases self,
    {
        match self {
            Value::Text(s) => Val::Text(s@),
            Value::Integer(n) => Val::Integer(*n as int),
            Value::Array(a) => Val::Array(
                Seq::new(a.len() as nat, |i: int| if 0 <= i < a.len() { a[i]@ } else { Val::Null }),
            ),
            Value::Null => Val::Null,
        }
    }
}

/// One request to the store.
#[derive(Debug, PartialEq, PartialOrd)]
pub enum Command {
    Disconnect,
    Create(String, Value),
    Read(String),
    Update(String, Value),
    Delete(String),
    Subscribe(String),
}

/// The mathematical form of a [`Command`].
pub enum Cmd {
    Disconnect,
    Create(Seq<char>, Val),
    Read(Seq<char>),
    Update(Seq<char>, Val),
    Delete(Seq<char>),
    Subscribe(Seq<char>),
}

impl View for Command {
    type V = Cmd;

    open spec fn view(&self) -> Cmd {
        match self {
            Command::Disconnect => Cmd::Disconnect,
            Command::Create(k, v) => Cmd::Create(k@, v@),
            Command::Read(k) => Cmd::Read(k@),
            Command::Update(k, v) => Cmd::Update(k@, v@),
            Command::Delete(k) => Cmd::Delete(k@),
            Command::Subscribe(k) => Cmd::Subscribe(k@),
        }
    }
}

#[derive(Debug, PartialEq, PartialOrd)]
pub enum Error {
    /// A token of another kind stood where the named kind was required.
    Expected(String, Token),
    /// The tokens ran out inside a command.
    Terminated,
    /// The bytes do not lex.
    Syntax(lexer::Error),
    /// The bytes are not UTF-8 text.
    InvalidUTF8,
}

/// The mathematical form of an [`Error`].
pub enum Fault {
    Expected(Seq<char>, Tok),
    Terminated,
    Syntax(lexer::Error),
    InvalidUTF8,
}

impl View for Error {
    type V = Fault;

    open spec fn view(&self) -> Fault {
        match self {
            Error::Expected(what, t) => Fault::Expected(what@, t@),
            Error::Terminated => Fault::Terminated,
            Error::Syntax(e) => Fault::Syntax(*e),
            Error::InvalidUTF8 => Fault::InvalidUTF8,
        }
    }
}

pub open spec fn token_views(s: Seq<Token>) -> Seq<Tok> {
    s.map_values(|t: Token| t@)
}

pub open spec fn command_views(s: Seq<Command>) -> Seq<Cmd> {
    s.map_values(|c: Command| c@)
}

/// The value that a token stands for as the argument of a command.
pub open spec fn value_of(t: Tok) -> Val
    decreases t,
{
    match t {
        Tok::Identifier(s) => Val::Text(s),
        Tok::Integer(n) => Val::Integer(n),
        Tok::Array(c) => Val::Array(
            Seq::new(c.len(), |i: int| if 0 <= i < c.len() { value_of(c[i]) } else { Val::Null }),
        ),
        _ => Val::Null,
    }
}

pub open spec fn sum(s: Seq<nat>) -> nat
    decreases s.len(),
{
    if s.len() == 0 {
        0
    } else {
        s[0] + sum(s.drop_first())
    }
}

/// The number of tokens in a token tree, arrays included.
pub open spec fn size(t: Tok) -> nat
    decreases t,
{
    match t {
        Tok::Array(c) => 1 + sum(sizes(c)),
        _ => 1,
    }
}

/// The size of each token of a sequence.
pub open spec fn sizes(c: Seq<Tok>) -> Seq<nat>
    decreases c,
{
    Seq::new(c.len(), |i: int| if 0 <= i < c.len() { size(c[i]) } else { 0 })
}

pub open spec fn queue_size(q: Seq<Tok>) -> nat {
    sum(sizes(q))
}

pub proof fn lemma_sum_concat(a: Seq<nat>, b: Seq<nat>)
    ensures
        sum(a + b) == sum(a) + sum(b),
    decreases a.len(),
{
    if a.len() > 0 {
        lemma_sum_concat(a.drop_first(), b);
        assert((a + b).drop_first() =~= a.drop_first() + b);
    } else {
        assert(a + b =~= b);
    }
}

pub proof fn lemma_queue_size_first(q: Seq<Tok>)
    requires
        q.len() > 0,
    ensures
        queue_size(q) == size(q[0]) + queue_size(q.drop_first()),
{
    assert(sizes(q).drop_first() =~= sizes(q.drop_first()));
}

pub proof fn lemma_queue_size_splice(c: Seq<Tok>, rest: Seq<Tok>)
    ensures
        size(Tok::Array(c)) == 1 + queue_size(c),
        queue_size(c + rest) == queue_size(c) + queue_size(rest),
{
    assert(sizes(c + rest) =~= sizes(c) + sizes(rest));
    lemma_sum_concat(sizes(c), sizes(rest));
}

pub open spec fn cons(c: Cmd, r: Result<Seq<Cmd>, Fault>) -> Result<Seq<Cmd>, Fault> {
    match r {
        Ok(cs) => Ok(seq![c] + cs),
        Err(e) => Err(e),
    }
}

/// The key that must come first in `q`.
pub open spec fn key_at(q: Seq<Tok>) -> Result<Seq<char>, Fault> {
    if q.len() == 0 {
        Err(Fault::Terminated)
    } else if q[0] is Identifier {
        Ok(q[0]->Identifier_0)
    } else {
        Err(Fault::Expected("identifier"@, q[0]))
    }
}

/// The commands that a queue of tokens reads as. An array met where a
/// command should start is spliced, in order, onto the front of the queue.
pub open spec fn parse_spec(q: Seq<Tok>) -> Result<Seq<Cmd>, Fault>
    decreases queue_size(q),
{
    if q.len() == 0 {
        Ok(seq![])
    } else {
        proof {
            lemma_queue_size_first(q);
        }
        let rest = q.drop_first();
        match q[0] {
            Tok::Disconnect => cons(Cmd::Disconnect, parse_spec(rest)),
            Tok::Create => match key_at(rest) {
                Err(e) => Err(e),
                Ok(k) => if rest.len() < 2 {
                    Err(Fault::Terminated)
                } else {
                    proof {
                        lemma_queue_size_first(rest);
                        lemma_queue_size_first(rest.drop_first());
                    }
                    cons(Cmd::Create(k, value_of(rest[1])), parse_spec(rest.drop_first().drop_first()))
                },
            },
            Tok::Update => match key_at(rest) {
                Err(e) => Err(e),
                Ok(k) => if rest.len() < 2 {
                    Err(Fault::Terminated)
                } else {
                    proof {
                        lemma_queue_size_first(rest);
                        lemma_queue_size_first(rest.drop_first());
                    }
                    cons(Cmd::Update(k, value_of(rest[1])), parse_spec(rest.drop_first().drop_first()))
                },
            },
            Tok::Read => match key_at(rest) {
                Err(e) => Err(e),
                Ok(k) => {
                    proof {
                        lemma_queue_size_first(rest);
                    }
                    cons(Cmd::Read(k), parse_spec(rest.drop_first()))
                },
            },
            Tok::Delete => match key_at(rest) {
                Err(e) => Err(e),
                Ok(k) => {
                    proof {
                        lemma_queue_size_first(rest);
                    }
                    cons(Cmd::Delete(k), parse_spec(rest.drop_first()))
                },
            },
            Tok::Subscribe => match key_at(rest) {
                Err(e) => Err(e),
                Ok(k) => {
                    proof {
                        lemma_queue_size_first(rest);
                    }
                    cons(Cmd::Subscribe(k), parse_spec(rest.drop_first()))
                },
            },
            Tok::Array(c) => {
                proof {
                    lemma_queue_size_splice(c, rest);
                }
                parse_spec(c + rest)
            },
            _ => Err(Fault::Expected("command or array"@, q[0])),
        }
    }
}

pub open spec fn join(cs: Seq<Cmd>, r: Result<Seq<Cmd>, Fault>) -> Result<Seq<Cmd>, Fault> {
    match r {
        Ok(more) => Ok(cs + more),
        Err(e) => Err(e),
    }
}

pub proof fn lemma_join_cons(cs: Seq<Cmd>, c: Cmd, r: Result<Seq<Cmd>, Fault>)
    ensures
        join(cs, cons(c, r)) == join(cs.push(c), r),
{
    match r {
        Ok(more) => assert(cs + (seq![c] + more) =~= cs.push(c) + more),
        Err(_) => {},
    }
}

pub proof fn lemma_array_view(a: Vec<Token>)
    ensures
        Token::Array(a)@ == Tok::Array(token_views(a@)),
{
    assert(Token::Array(a)@->Array_0 =~= token_views(a@));
}

/// Puts `items`, in order, in front of what `q` holds.
fn push_all_front(q: &mut VecDeque<Token>, items: Vec<Token>)
    ensures
        final(q)@ == items@ + old(q)@,
{
    let ghost all = items@;
    let mut items = items;
    while items.len() > 0
        invariant
            items@.len() <= all.len(),
            items@ == all.subrange(0, items@.len() as int),
            q@ == all.subrange(items@.len() as int, all.len() as int) + old(q)@,
        decreases items@.len(),
    {
        let t = items.pop().unwrap();
        q.push_front(t);
        assert(q@ =~= all.subrange(items@.len() as int, all.len() as int) + old(q)@);
    }
    assert(q@ =~= all + old(q)@);
}

/// The tokens of one request, read from the front.
pub struct Parser {
    tokens: VecDeque<Token>,
}

impl View for Parser {
    type V = Seq<Tok>;

    /// The tokens still to be read.
    closed spec fn view(&self) -> Seq<Tok> {
        token_views(self.tokens@)
    }
}

impl Parser {
    /// Lexes `s`, which must hold one array of tokens.
    pub fn from(s: &[u8]) -> (r: Result<Parser, Error>)
        ensures
            !valid_utf8(s@) ==> r is Err && r->Err_0@ == Fault::InvalidUTF8,
            valid_utf8(s@) ==> match lex_at(s@, 0) {
                Err(e) => r is Err && r->Err_0@ == Fault::Syntax(e),
                Ok((Tok::Array(ts), _)) => r is Ok && r->Ok_0@ == ts,
                Ok((t, _)) => r is Err && r->Err_0@ == Fault::Expected("token array"@, t),
            },
    {
        let text = match utf8_text(s) {
            None => return Err(Error::InvalidUTF8),
            Some(t) => t,
        };
        let mut lexer = Lexer::from(text.as_str());
        proof {
            decode_utf8_encode_utf8(s@);
        }
        match lexer.lex() {
            Err(e) => Err(Error::Syntax(e)),
            Ok(Token::Array(array)) => {
                proof {
                    lemma_array_view(array);
                }
                let mut tokens = VecDeque::new();
                push_all_front(&mut tokens, array);
                assert(tokens@ =~= array@ + Seq::<Token>::empty());
                Ok(Parser { tokens })
            },
            Ok(t) => Err(Error::Expected("token array".to_owned(), t)),
        }
    }

    /// Recurses once per level of array nesting, which the lexer bounds by
    /// the length of the input.
    fn token_to_value(&self, token: &Token) -> (v: Value)
        ensures
            v@ == value_of(token@),
        decreases token,
    {
        match token {
            Token::Identifier(s) => Value::Text(s.clone()),
            Token::Integer(i) => Value::Integer(*i),
            Token::Array(array) => {
                let mut out: Vec<Value> = Vec::new();
                let mut i: usize = 0;
                while i < array.len()
                    invariant
                        *token == Token::Array(*array),
                        i <= array@.len(),
                        out@.len() == i,
                        forall|j: int| 0 <= j < i ==> #[trigger] out@[j]@ == value_of(array@[j]@),
                    decreases array@.len() - i,
                {
                    proof {
                        assert(decreases_to!(*array => array[i as int]));
                        assert(token->Array_0 == *array);
                        assert(decreases_to!(*token => token->Array_0));
                        assert(decreases_to!(*token => array[i as int]));
                    }
                    let v = self.token_to_value(&array[i]);
                    out.push(v);
                    i = i + 1;
                }
                let v = Value::Array(out);
                assert(token@ == Tok::Array(token_views(array@))) by {
                    assert(token@->Array_0 =~= token_views(array@));
                }
                assert forall|j: int| 0 <= j < array@.len() implies #[trigger] value_of(token@)->Array_0[j]
                    == value_of(array@[j]@) by {
                    assert(token@->Array_0[j] == array@[j]@);
                }
                assert(token@->Array_0.len() == array@.len());
                assert(value_of(token@)->Array_0.len() == array@.len());
                assert(forall|j: int| 0 <= j < out@.len() ==> #[trigger] v@->Array_0[j] == out@[j]@);
                assert(v@->Array_0 =~= value_of(token@)->Array_0);
                v
            },
            _ => Value::Null,
        }
    }

    fn expect_identifier(&mut self) -> (r: Result<String, Error>)
        ensures
            match key_at(old(self)@) {
                Ok(k) => r is Ok && r->Ok_0@ == k && final(self)@ == old(self)@.drop_first(),
                Err(e) => r is Err && r->Err_0@ == e,
            },
    {
        let ghost q = self.tokens@;
        match self.tokens.pop_front() {
            Some(Token::Identifier(s)) => {
                assert(token_views(self.tokens@) =~= token_views(q).drop_first());
                Ok(s)
            },
            Some(t) => Err(Error::Expected("identifier".to_owned(), t)),
            None => Err(Error::Terminated),
        }
    }

    fn pop_front(&mut self) -> (r: Result<Value, Error>)
        ensures
            old(self)@.len() == 0 ==> r is Err && r->Err_0@ == Fault::Terminated,
            old(self)@.len() > 0 ==> r is Ok && r->Ok_0@ == value_of(old(self)@[0])
                && final(self)@ == old(self)@.drop_first(),
    {
        let ghost q = self.tokens@;
        match self.tokens.pop_front() {
            Some(token) => {
                assert(token_views(self.tokens@) =~= token_views(q).drop_first());
                Ok(self.token_to_value(&token))
            },
            None => Err(Error::Terminated),
        }
    }

    /// Reads every command that the tokens hold.
    pub fn parse(&mut self) -> (r: Result<Vec<Command>, Error>)
        ensures
            match parse_spec(old(self)@) {
                Ok(cs) => r is Ok && command_views(r->Ok_0@) == cs,
                Err(e) => r is Err && r->Err_0@ == e,
            },
    {
        let mut cmd: Vec<Command> = Vec::new();
        loop
            invariant
                parse_spec(old(self)@) == join(command_views(cmd@), parse_spec(self@)),
            decreases queue_size(self@),
        {
            let ghost q = self@;
            let ghost cs = command_views(cmd@);
            let token = match self.tokens.pop_front() {
                None => {
                    assert(command_views(cmd@) + seq![] =~= command_views(cmd@));
                    return Ok(cmd);
                },
                Some(t) => t,
            };
            proof {
                assert(self@ =~= q.drop_first());
                lemma_queue_size_first(q);
            }
            let c = match token {
                Token::Disconnect => Command::Disconnect,
                Token::Create => {
                    let key = match self.expect_identifier() {
                        Ok(k) => k,
                        Err(e) => return Err(e),
                    };
                    let value = match self.pop_front() {
                        Ok(v) => v,
                        Err(e) => return Err(e),
                    };
                    Command::Create(key, value)
                },
                Token::Read => match self.expect_identifier() {
                    Ok(k) => Command::Read(k),
                    Err(e) => return Err(e),
                },
                Token::Update => {
                    let key = match self.expect_identifier() {
                        Ok(k) => k,
                        Err(e) => return Err(e),
                    };
                    let value = match self.pop_front() {
                        Ok(v) => v,
                        Err(e) => return Err(e),
                    };
                    Command::Update(key, value)
                },
                Token::Delete => match self.expect_identifier() {
                    Ok(k) => Command::Delete(k),
                    Err(e) => return Err(e),
                },
                Token::Subscribe => match self.expect_identifier() {
                    Ok(k) => Command::Subscribe(k),
                    Err(e) => return Err(e),
                },
                Token::Array(array) => {
                    proof {
                        lemma_array_view(array);
                        lemma_queue_size_splice(token_views(array@), q.drop_first());
                    }
                    let ghost rest = self.tokens@;
                    push_all_front(&mut self.tokens, array);
                    assert(self@ =~= token_views(array@) + q.drop_first()) by {
                        assert(token_views(array@ + rest) =~= token_views(array@) + token_views(rest));
                    }
                    continue;
                },
                t => return Err(Error::Expected("command or array".to_owned(), t)),
            };
            proof {
                lemma_join_cons(cs, c@, parse_spec(self@));
                let rest = q.drop_first();
                if rest.len() > 0 {
                    lemma_queue_size_first(rest);
                    if rest.drop_first().len() > 0 {
                        lemma_queue_size_first(rest.drop_first());
                    }
                }
            }
            cmd.push(c);
            assert(command_views(cmd@) =~= cs.push(c@));
        }
    }
}

pub open spec fn crlf() -> Seq<char> {
    seq!['\r', '\n']
}

pub open spec fn digit_char(d: nat) -> char {
    ((d % 10) + 48) as u8 as char
}

/// The decimal digits of `n`, most significant first.
pub open spec fn decimal_text(n: nat) -> Seq<char>
    decreases n,
{
    if n < 10 {
        seq![digit_char(n)]
    } else {
        decimal_text(n / 10).push(digit_char(n % 10))
    }
}

pub open spec fn magnitude(n: int) -> nat {
    if n < 0 {
        (-n) as nat
    } else {
        n as nat
    }
}

/// The pieces, in order, laid end to end.
pub open spec fn concat(ss: Seq<Seq<char>>) -> Seq<char>
    decreases ss.len(),
{
    if ss.len() == 0 {
        seq![]
    } else {
        concat(ss.drop_last()) + ss.last()
    }
}

/// The wire form of a value. A text's length is counted in UTF-8 bytes.
pub open spec fn encoding(v: Val) -> Seq<char>
    decreases v,
{
    match v {
        Val::Null => seq!['*', '0', '\r', '\n'],
        Val::Text(s) => seq!['$'] + decimal_text(encode_utf8(s).len()) + crlf() + s + crlf(),
        Val::Integer(n) => seq![':'] + (if n < 0 {
            seq!['-']
        } else {
            seq![]
        }) + decimal_text(magnitude(n)) + crlf(),
        Val::Array(items) => seq!['*'] + decimal_text(items.len()) + crlf() + concat(encodings(items)),
    }
}

/// The wire form of each value of a sequence.
pub open spec fn encodings(items: Seq<Val>) -> Seq<Seq<char>>
    decreases items,
{
    Seq::new(items.len(), |i: int| if 0 <= i < items.len() { encoding(items[i]) } else { seq![] })
}

/// Relies on `String::push`: the character is appended at the end.
#[verifier::external_body]
fn push_char(s: &mut String, c: char)
    ensures
        final(s)@ == old(s)@.push(c),
{
    s.push(c);
}

fn push_crlf(out: &mut String)
    ensures
        final(out)@ == old(out)@ + crlf(),
{
    push_char(out, '\r');
    push_char(out, '\n');
    assert(out@ =~= old(out)@ + crlf());
}

fn push_decimal(out: &mut String, n: u64)
    ensures
        final(out)@ == old(out)@ + decimal_text(n as nat),
    decreases n,
{
    if n >= 10 {
        push_decimal(out, n / 10);
    }
    let d: u8 = (n % 10) as u8;
    push_char(out, (d + 48) as char);
    assert(out@ =~= old(out)@ + decimal_text(n as nat));
}

impl Value {
    /// Appends the wire form of this value to `out`. Recurses once per
    /// level of array nesting.
    fn encode_into(&self, out: &mut String)
        ensures
            final(out)@ == old(out)@ + encoding(self@),
        decreases self,
    {
        match self {
            Value::Null => {
                push_char(out, '*');
                push_char(out, '0');
                push_crlf(out);
                assert(out@ =~= old(out)@ + encoding(self@));
            },
            Value::Text(s) => {
                push_char(out, '$');
                let bytes = s.as_str().as_bytes();
                push_decimal(out, bytes.len() as u64);
                push_crlf(out);
                out.append(s.as_str());
                push_crlf(out);
                assert(out@ =~= old(out)@ + encoding(self@));
            },
            Value::Integer(n) => {
                push_char(out, ':');
                let m: u64 = if *n < 0 {
                    push_char(out, '-');
                    if *n == i64::MIN {
                        9223372036854775808u64
                    } else {
                        (-*n) as u64
                    }
                } else {
                    *n as u64
                };
                push_decimal(out, m);
                push_crlf(out);
                assert(out@ =~= old(out)@ + encoding(self@));
            },
            Value::Array(a) => {
                push_char(out, '*');
                push_decimal(out, a.len() as u64);
                push_crlf(out);
                let ghost head = out@;
                let ghost parts = encodings(self@->Array_0);
                let mut i: usize = 0;
                while i < a.len()
                    invariant
                        *self == Value::Array(*a),
                        i <= a@.len(),
                        parts == encodings(self@->Array_0),
                        parts.len() == a@.len(),
                        out@ == head + concat(parts.subrange(0, i as int)),
                    decreases a@.len() - i,
                {
                    proof {
                        assert(decreases_to!(*a => a[i as int]));
                        assert(self->Array_0 == *a);
                        assert(decreases_to!(*self => self->Array_0));
                        assert(parts[i as int] == encoding(a@[i as int]@));
                        assert(parts.subrange(0, i + 1).drop_last() =~= parts.subrange(0, i as int));
                    }
                    a[i].encode_into(out);
                    i = i + 1;
                }
                assert(parts.subrange(0, i as int) =~= parts);
                assert(self@->Array_0.len() == a@.len());
                assert(head =~= old(out)@ + (seq!['*'] + decimal_text(a@.len()) + crlf()));
                assert(encoding(self@) == seq!['*'] + decimal_text(self@->Array_0.len()) + crlf() + concat(parts));
                assert(out@ =~= old(out)@ + encoding(self@));
            },
        }
    }

    /// A copy of this value. Recurses once per level of array nesting.
    pub fn duplicate(&self) -> (r: Value)
        ensures
            r@ == self@,
        decreases self,
    {
        match self {
            Value::Text(s) => Value::Text(s.clone()),
            Value::Integer(n) => Value::Integer(*n),
            Value::Array(a) => {
                let mut out: Vec<Value> = Vec::new();
                let mut i: usize = 0;
                while i < a.len()
                    invariant
                        *self == Value::Array(*a),
                        i <= a@.len(),
                        out@.len() == i,
                        forall|j: int| 0 <= j < i ==> #[trigger] out@[j]@ == a@[j]@,
                    decreases a@.len() - i,
                {
                    proof {
                        assert(decreases_to!(*a => a[i as int]));
                        assert(self->Array_0 == *a);
                        assert(decreases_to!(*self => self->Array_0));
                    }
                    out.push(a[i].duplicate());
                    i = i + 1;
                }
                let r = Value::Array(out);
                assert(forall|j: int| 0 <= j < out@.len() ==> #[trigger] r@->Array_0[j] == out@[j]@);
                assert(forall|j: int| 0 <= j < a@.len() ==> #[trigger] self@->Array_0[j] == a@[j]@);
                assert(r@->Array_0 =~= self@->Array_0);
                r
            },
            Value::Null => Value::Null,
        }
    }

    /// The wire form of this value.
    pub fn encode(&self) -> (r: String)
        ensures
            r@ == encoding(self@),
    {
        let mut out = String::new();
        self.encode_into(&mut out);
        assert(out@ =~= encoding(self@));
        out
    }
}

} // verus!
