//! Facts about the wire format: what the encoder writes, the lexer reads
//! back.
use vstd::prelude::*;
use vstd::utf8::{encode_utf8, encode_scalar, valid_utf8, decode_utf8, encode_utf8_valid_utf8, encode_utf8_decode_utf8};
use crate::lexer::{
    CR, LF, DOLLAR, STAR, COLON, MINUS, PLUS, ZERO, NINE, NEG_LIMIT, POS_LIMIT,
    Tok, is_digit, all_digits, decimal, digits_end, cr_index, crlf_at, bounded_decimal,
    parse_int, keyword, length_field, lex_at, lex_items,
};
use crate::parser::{Val, value_of, crlf, digit_char, decimal_text, magnitude, concat, encoding, encodings};

verus! {

/// The decimal digits of `n` as bytes, most significant first.
pub open spec fn digits(n: nat) -> Seq<u8>
    decreases n,
{
    if n < 10 {
        seq![(ZERO + n) as u8]
    } else {
        digits(n / 10).push((ZERO + n % 10) as u8)
    }
}

/// `w` stands in `b` from position `p` on.
pub open spec fn at(b: Seq<u8>, p: int, w: Seq<u8>) -> bool {
    0 <= p && p + w.len() <= b.len() && b.subrange(p, p + w.len()) == w
}

pub proof fn lemma_at_split(b: Seq<u8>, p: int, w1: Seq<u8>, w2: Seq<u8>)
    requires
        at(b, p, w1 + w2),
    ensures
        at(b, p, w1),
        at(b, p + w1.len(), w2),
{
    let whole = b.subrange(p, p + w1.len() + w2.len());
    assert(whole == w1 + w2);
    assert(b.subrange(p, p + w1.len()) =~= whole.subrange(0, w1.len() as int));
    assert(whole.subrange(0, w1.len() as int) =~= w1);
    assert(b.subrange(p + w1.len(), p + w1.len() + w2.len()) =~= whole.subrange(
        w1.len() as int,
        (w1.len() + w2.len()) as int,
    ));
    assert(whole.subrange(w1.len() as int, (w1.len() + w2.len()) as int) =~= w2);
}

pub proof fn lemma_digits(n: nat)
    ensures
        digits(n).len() >= 1,
        all_digits(digits(n)),
        decimal(digits(n)) == n,
        !(digits(n)[0] == MINUS),
        !(digits(n)[0] == PLUS),
        forall|i: int| 0 <= i < digits(n).len() ==> #[trigger] digits(n)[i] != CR,
    decreases n,
{
    if n >= 10 {
        lemma_digits(n / 10);
        let d = digits(n);
        assert(d.drop_last() =~= digits(n / 10));
        assert(d.last() == (ZERO + n % 10) as u8);
        assert((d.last() - ZERO) as nat == n % 10);
        assert(n == (n / 10) * 10 + n % 10);
        assert(decimal(d) == decimal(digits(n / 10)) * 10 + (d.last() - ZERO) as nat);
        assert forall|i: int| 0 <= i < d.len() implies is_digit(#[trigger] d[i]) by {
            if i < d.len() - 1 {
                assert(d[i] == digits(n / 10)[i]);
            }
        }
    } else {
        let d = digits(n);
        assert(d.drop_last() =~= Seq::<u8>::empty());
        assert(decimal(d) == decimal(d.drop_last()) * 10 + (d.last() - ZERO) as nat);
    }
}

/// A run of digits followed by a byte that is no digit ends there.
pub proof fn lemma_digits_end(b: Seq<u8>, p: int, k: int)
    requires
        0 <= p,
        0 <= k,
        p + k <= b.len(),
        forall|i: int| p <= i < p + k ==> is_digit(#[trigger] b[i]),
        p + k == b.len() || !is_digit(b[p + k]),
    ensures
        digits_end(b, p) == p + k,
    decreases k,
{
    if k > 0 {
        lemma_digits_end(b, p + 1, k - 1);
    }
}

/// The first carriage return found from `p` on.
pub proof fn lemma_cr_index(b: Seq<u8>, p: int, k: int)
    requires
        0 <= p,
        0 <= k,
        p + k < b.len(),
        forall|i: int| p <= i < p + k ==> #[trigger] b[i] != CR,
        b[p + k] == CR,
    ensures
        cr_index(b, p) == p + k,
    decreases k,
{
    if k > 0 {
        lemma_cr_index(b, p + 1, k - 1);
    }
}

pub proof fn lemma_utf8_concat(a: Seq<char>, b: Seq<char>)
    ensures
        encode_utf8(a + b) == encode_utf8(a) + encode_utf8(b),
    decreases a.len(),
{
    if a.len() == 0 {
        assert(a + b =~= b);
        assert(encode_utf8(a) + encode_utf8(b) =~= encode_utf8(b));
    } else {
        assert((a + b).drop_first() =~= a.drop_first() + b);
        assert((a + b)[0] == a[0]);
        lemma_utf8_concat(a.drop_first(), b);
        assert(encode_utf8(a + b) =~= encode_utf8(a) + encode_utf8(b));
    }
}

pub proof fn lemma_utf8_ascii(c: char)
    requires
        (c as u32) < 128,
    ensures
        encode_utf8(seq![c]) == seq![(c as u32) as u8],
{
    let x = c as u32;
    assert((x & 0x7F) == x) by (bit_vector)
        requires x < 128;
    assert(seq![c].drop_first() =~= Seq::<char>::empty());
    assert(encode_utf8(seq![c]) =~= encode_scalar(x) + encode_utf8(Seq::<char>::empty()));
}

pub proof fn lemma_decimal_text_bytes(n: nat)
    ensures
        encode_utf8(decimal_text(n)) == digits(n),
    decreases n,
{
    let d = digit_char(n % 10);
    let code: u8 = ((n % 10) + 48) as u8;
    assert(d as u32 == code as u32);
    lemma_utf8_ascii(d);
    if n < 10 {
        assert(decimal_text(n) == seq![d]);
    } else {
        lemma_decimal_text_bytes(n / 10);
        lemma_utf8_concat(decimal_text(n / 10), seq![d]);
        assert(decimal_text(n / 10).push(d) =~= decimal_text(n / 10) + seq![d]);
        assert(digits(n) =~= digits(n / 10) + seq![code]);
    }
}

pub open spec fn crlf_bytes() -> Seq<u8> {
    seq![CR, LF]
}

/// The pieces, in order, laid end to end.
pub open spec fn concat_bytes(ws: Seq<Seq<u8>>) -> Seq<u8>
    decreases ws.len(),
{
    if ws.len() == 0 {
        seq![]
    } else {
        concat_bytes(ws.drop_last()) + ws.last()
    }
}

/// The bytes of the wire form of a value.
pub open spec fn wire(v: Val) -> Seq<u8>
    decreases v,
{
    match v {
        Val::Null => seq![STAR] + digits(0) + crlf_bytes(),
        Val::Text(s) => seq![DOLLAR] + digits(encode_utf8(s).len()) + crlf_bytes() + encode_utf8(s)
            + crlf_bytes(),
        Val::Integer(n) => seq![COLON] + (if n < 0 {
            seq![MINUS]
        } else {
            seq![]
        }) + digits(magnitude(n)) + crlf_bytes(),
        Val::Array(items) => seq![STAR] + digits(items.len()) + crlf_bytes() + concat_bytes(wires(items)),
    }
}

pub open spec fn wires(items: Seq<Val>) -> Seq<Seq<u8>>
    decreases items,
{
    Seq::new(items.len(), |i: int| if 0 <= i < items.len() { wire(items[i]) } else { seq![] })
}

/// A value that a `Value` can hold: integers within `i64`, lengths
/// within `usize`.
pub open spec fn fits(v: Val) -> bool
    decreases v,
{
    match v {
        Val::Text(s) => encode_utf8(s).len() <= usize::MAX,
        Val::Integer(n) => i64::MIN <= n <= i64::MAX,
        Val::Array(items) => items.len() <= usize::MAX && all_true(fit_flags(items)),
        Val::Null => true,
    }
}

pub open spec fn all_true(bs: Seq<bool>) -> bool {
    forall|i: int| 0 <= i < bs.len() ==> #[trigger] bs[i]
}

pub open spec fn fit_flags(items: Seq<Val>) -> Seq<bool>
    decreases items,
{
    Seq::new(items.len(), |i: int| if 0 <= i < items.len() { fits(items[i]) } else { true })
}

/// The token that the wire form of a value lexes to.
pub open spec fn tok_of(v: Val) -> Tok
    decreases v,
{
    match v {
        Val::Text(s) => keyword(s),
        Val::Integer(n) => Tok::Integer(n),
        Val::Array(items) => Tok::Array(
            Seq::new(items.len(), |i: int| if 0 <= i < items.len() { tok_of(items[i]) } else { Tok::Disconnect }),
        ),
        Val::Null => Tok::Array(seq![]),
    }
}

pub open spec fn is_reserved(s: Seq<char>) -> bool {
    s == "DISCONNECT"@ || s == "CREATE"@ || s == "READ"@ || s == "UPDATE"@ || s == "DELETE"@ || s
        == "SUB"@
}

/// No Null anywhere, and no text that is a reserved word.
pub open spec fn plain(v: Val) -> bool
    decreases v,
{
    match v {
        Val::Null => false,
        Val::Text(s) => !is_reserved(s),
        Val::Integer(_) => true,
        Val::Array(items) => all_true(plain_flags(items)),
    }
}

pub open spec fn plain_flags(items: Seq<Val>) -> Seq<bool>
    decreases items,
{
    Seq::new(items.len(), |i: int| if 0 <= i < items.len() { plain(items[i]) } else { true })
}

pub proof fn lemma_at_byte(b: Seq<u8>, p: int, w: Seq<u8>, j: int)
    requires
        at(b, p, w),
        0 <= j < w.len(),
    ensures
        b[p + j] == w[j],
{
    assert(b.subrange(p, p + w.len())[j] == b[p + j]);
}

pub proof fn lemma_concat_bytes_front(ws: Seq<Seq<u8>>)
    requires
        ws.len() > 0,
    ensures
        concat_bytes(ws) == ws[0] + concat_bytes(ws.drop_first()),
    decreases ws.len(),
{
    if ws.len() == 1 {
        assert(ws.drop_last() =~= Seq::<Seq<u8>>::empty());
        assert(ws.drop_first() =~= Seq::<Seq<u8>>::empty());
        assert(concat_bytes(ws) =~= ws[0] + concat_bytes(ws.drop_first()));
    } else {
        lemma_concat_bytes_front(ws.drop_last());
        assert(ws.drop_last().drop_first() =~= ws.drop_first().drop_last());
        assert(concat_bytes(ws) =~= ws[0] + concat_bytes(ws.drop_first()));
    }
}

pub proof fn lemma_utf8_ascii_seq(s: Seq<char>)
    requires
        forall|i: int| 0 <= i < s.len() ==> (#[trigger] s[i] as u32) < 128,
    ensures
        encode_utf8(s) == Seq::new(s.len(), |i: int| s[i] as u32 as u8),
    decreases s.len(),
{
    if s.len() > 0 {
        lemma_utf8_ascii(s[0]);
        lemma_utf8_ascii_seq(s.drop_first());
        lemma_utf8_concat(seq![s[0]], s.drop_first());
        assert(seq![s[0]] + s.drop_first() =~= s);
        assert(encode_utf8(s) =~= Seq::new(s.len(), |i: int| s[i] as u32 as u8));
    } else {
        assert(encode_utf8(s) =~= Seq::new(s.len(), |i: int| s[i] as u32 as u8));
    }
}

pub proof fn lemma_crlf_bytes()
    ensures
        encode_utf8(crlf()) == crlf_bytes(),
{
    lemma_utf8_ascii_seq(crlf());
    assert(Seq::new(crlf().len(), |i: int| crlf()[i] as u32 as u8) =~= crlf_bytes());
}

pub proof fn lemma_marker(c: char, m: u8)
    requires
        c as u32 == m as u32,
        m < 128,
    ensures
        encode_utf8(seq![c]) == seq![m],
{
    lemma_utf8_ascii(c);
}

pub proof fn lemma_concat_utf8(ss: Seq<Seq<char>>, ws: Seq<Seq<u8>>)
    requires
        ss.len() == ws.len(),
        forall|i: int| 0 <= i < ss.len() ==> encode_utf8(#[trigger] ss[i]) == ws[i],
    ensures
        encode_utf8(concat(ss)) == concat_bytes(ws),
    decreases ss.len(),
{
    if ss.len() > 0 {
        lemma_concat_utf8(ss.drop_last(), ws.drop_last());
        lemma_utf8_concat(concat(ss.drop_last()), ss.last());
    } else {
        assert(encode_utf8(Seq::<char>::empty()) =~= Seq::<u8>::empty());
    }
}

/// The characters that `encode` writes are, in UTF-8, the bytes of
/// [`wire`].
pub proof fn lemma_encoding_bytes(v: Val)
    ensures
        encode_utf8(encoding(v)) == wire(v),
    decreases v,
{
    lemma_crlf_bytes();
    match v {
        Val::Null => {
            lemma_marker('*', STAR);
            lemma_marker('0', ZERO);
            lemma_utf8_concat(seq!['*'], seq!['0']);
            lemma_utf8_concat(seq!['*'] + seq!['0'], crlf());
            assert(seq!['*', '0', '\r', '\n'] =~= seq!['*'] + seq!['0'] + crlf());
            assert(digits(0) =~= seq![ZERO]);
        },
        Val::Text(s) => {
            let n = encode_utf8(s).len();
            lemma_marker('$', DOLLAR);
            lemma_decimal_text_bytes(n);
            let a = seq!['$'];
            let b = decimal_text(n);
            lemma_utf8_concat(a, b);
            lemma_utf8_concat(a + b, crlf());
            lemma_utf8_concat(a + b + crlf(), s);
            lemma_utf8_concat(a + b + crlf() + s, crlf());
        },
        Val::Integer(n) => {
            lemma_marker(':', COLON);
            lemma_marker('-', MINUS);
            lemma_decimal_text_bytes(magnitude(n));
            let a = seq![':'];
            let sign: Seq<char> = if n < 0 {
                seq!['-']
            } else {
                seq![]
            };
            assert(encode_utf8(Seq::<char>::empty()) =~= Seq::<u8>::empty());
            let b = decimal_text(magnitude(n));
            lemma_utf8_concat(a, sign);
            lemma_utf8_concat(a + sign, b);
            lemma_utf8_concat(a + sign + b, crlf());
        },
        Val::Array(items) => {
            lemma_marker('*', STAR);
            lemma_decimal_text_bytes(items.len());
            assert forall|i: int| 0 <= i < items.len() implies encode_utf8(
                #[trigger] encodings(items)[i],
            ) == wires(items)[i] by {
                lemma_encoding_bytes(items[i]);
            }
            lemma_concat_utf8(encodings(items), wires(items));
            let a = seq!['*'];
            let b = decimal_text(items.len());
            lemma_utf8_concat(a, b);
            lemma_utf8_concat(a + b, crlf());
            lemma_utf8_concat(a + b + crlf(), concat(encodings(items)));
        },
    }
}

/// A marker byte, the digits of `n` and `\r\n` make a length field worth `n`.
pub proof fn lemma_header(b: Seq<u8>, p: int, m: u8, n: nat)
    requires
        at(b, p, seq![m] + digits(n) + crlf_bytes()),
        n <= usize::MAX,
    ensures
        b[p] == m,
        length_field(b, p) == Ok::<(nat, int), crate::lexer::Error>((n, p + 1 + digits(n).len() + 2)),
{
    let d = digits(n);
    lemma_digits(n);
    lemma_at_split(b, p, seq![m] + d, crlf_bytes());
    lemma_at_split(b, p, seq![m], d);
    lemma_at_byte(b, p, seq![m], 0);
    let e = p + 1 + d.len();
    lemma_at_byte(b, e, crlf_bytes(), 0);
    lemma_at_byte(b, e, crlf_bytes(), 1);
    assert forall|i: int| p + 1 <= i < e implies is_digit(#[trigger] b[i]) by {
        lemma_at_byte(b, p + 1, d, i - (p + 1));
    }
    lemma_digits_end(b, p + 1, d.len() as int);
    assert(b.subrange(p + 1, e) == d);
    assert(crlf_at(b, e) == Ok::<(), crate::lexer::Error>(()));
}

pub proof fn lemma_wire_nonempty(v: Val)
    ensures
        wire(v).len() >= 1,
{
}

/// The wire forms of `items`, laid end to end, lex to their tokens in order.
pub proof fn lemma_lex_wires(b: Seq<u8>, q: int, items: Seq<Val>)
    requires
        at(b, q, concat_bytes(wires(items))),
        forall|i: int, r: int|
            0 <= i < items.len() && #[trigger] at(b, r, wires(items)[i]) ==> lex_at(b, r) == Ok::<
                (Tok, int),
                crate::lexer::Error,
            >((tok_of(items[i]), r + wires(items)[i].len())),
    ensures
        lex_items(b, q, items.len()) == Ok::<(Seq<Tok>, int), crate::lexer::Error>(
            (
                Seq::new(items.len(), |i: int| tok_of(items[i])),
                q + concat_bytes(wires(items)).len(),
            ),
        ),
    decreases items.len(),
{
    let ws = wires(items);
    if items.len() == 0 {
        assert(Seq::new(items.len(), |i: int| tok_of(items[i])) =~= Seq::<Tok>::empty());
    } else {
        lemma_concat_bytes_front(ws);
        lemma_at_split(b, q, ws[0], concat_bytes(ws.drop_first()));
        lemma_wire_nonempty(items[0]);
        let q1 = q + ws[0].len();
        assert(lex_at(b, q) == Ok::<(Tok, int), crate::lexer::Error>((tok_of(items[0]), q1)));
        let rest = items.drop_first();
        assert(wires(rest) =~= ws.drop_first());
        assert forall|i: int, r: int|
            0 <= i < rest.len() && #[trigger] at(b, r, wires(rest)[i]) implies lex_at(b, r) == Ok::<
                (Tok, int),
                crate::lexer::Error,
            >((tok_of(rest[i]), r + wires(rest)[i].len())) by {
            assert(wires(rest)[i] == ws[i + 1]);
            assert(rest[i] == items[i + 1]);
        }
        lemma_lex_wires(b, q1, rest);
        assert(Seq::new(items.len(), |i: int| tok_of(items[i])) =~= seq![tok_of(items[0])]
            + Seq::new(rest.len(), |i: int| tok_of(rest[i])));
    }
}

/// The lexer reads back the wire form of any value, from any position.
pub proof fn lemma_lex_wire(b: Seq<u8>, p: int, v: Val)
    requires
        fits(v),
        at(b, p, wire(v)),
    ensures
        lex_at(b, p) == Ok::<(Tok, int), crate::lexer::Error>((tok_of(v), p + wire(v).len())),
    decreases v,
{
    match v {
        Val::Null => {
            lemma_header(b, p, STAR, 0);
            assert(lex_items(b, p + 4, 0) == Ok::<(Seq<Tok>, int), crate::lexer::Error>((seq![], p + 4)));
        },
        Val::Text(s) => {
            let e = encode_utf8(s);
            let h = seq![DOLLAR] + digits(e.len()) + crlf_bytes();
            lemma_at_split(b, p, h + e, crlf_bytes());
            lemma_at_split(b, p, h, e);
            lemma_header(b, p, DOLLAR, e.len());
            let s0 = p + h.len();
            lemma_at_byte(b, s0 + e.len(), crlf_bytes(), 0);
            lemma_at_byte(b, s0 + e.len(), crlf_bytes(), 1);
            encode_utf8_valid_utf8(s);
            encode_utf8_decode_utf8(s);
            assert(b.subrange(s0, s0 + e.len()) == e);
        },
        Val::Integer(n) => {
            let sign: Seq<u8> = if n < 0 {
                seq![MINUS]
            } else {
                seq![]
            };
            let d = digits(magnitude(n));
            lemma_digits(magnitude(n));
            lemma_at_split(b, p, seq![COLON] + sign + d, crlf_bytes());
            lemma_at_split(b, p, seq![COLON] + sign, d);
            lemma_at_split(b, p, seq![COLON], sign);
            lemma_at_byte(b, p, seq![COLON], 0);
            let e = p + 1 + sign.len() + d.len();
            lemma_at_byte(b, e, crlf_bytes(), 0);
            lemma_at_byte(b, e, crlf_bytes(), 1);
            assert forall|i: int| p + 1 <= i < e implies #[trigger] b[i] != CR by {
                if i < p + 1 + sign.len() {
                    lemma_at_byte(b, p + 1, sign, i - (p + 1));
                } else {
                    lemma_at_byte(b, p + 1 + sign.len(), d, i - (p + 1 + sign.len()));
                }
            }
            lemma_cr_index(b, p + 1, e - (p + 1));
            assert(b.subrange(p + 1, e) =~= sign + d) by {
                assert(b.subrange(p, e) == seq![COLON] + sign + d);
            }
            let field = sign + d;
            if n < 0 {
                assert(field[0] == MINUS);
                assert(field.drop_first() =~= d);
            } else {
                assert(field =~= d);
            }
            assert(parse_int(field) == Some(n));
        },
        Val::Array(items) => {
            let h = seq![STAR] + digits(items.len()) + crlf_bytes();
            let body = concat_bytes(wires(items));
            lemma_at_split(b, p, h, body);
            lemma_header(b, p, STAR, items.len());
            let s0 = p + h.len();
            assert forall|i: int| 0 <= i < items.len() implies #[trigger] fits(items[i]) by {
                assert(fit_flags(items)[i]);
            }
            assert forall|i: int, r: int|
                0 <= i < items.len() && #[trigger] at(b, r, wires(items)[i]) implies lex_at(b, r)
                == Ok::<(Tok, int), crate::lexer::Error>(
                (tok_of(items[i]), r + wires(items)[i].len()),
            ) by {
                lemma_lex_wire(b, r, items[i]);
            }
            lemma_lex_wires(b, s0, items);
            assert(tok_of(v)->Array_0 =~= Seq::new(items.len(), |i: int| tok_of(items[i])));
        },
    }
}

pub proof fn lemma_value_of_tok(v: Val)
    requires
        plain(v),
    ensures
        value_of(tok_of(v)) == v,
    decreases v,
{
    match v {
        Val::Array(items) => {
            let ts = tok_of(v)->Array_0;
            assert forall|i: int| 0 <= i < items.len() implies value_of(#[trigger] ts[i]) == items[i] by {
                assert(plain_flags(items)[i]);
                lemma_value_of_tok(items[i]);
            }
            assert(value_of(tok_of(v))->Array_0 =~= items);
        },
        _ => {},
    }
}

/// Decoding what `encode` writes gives the value back: the UTF-8 bytes of
/// [`encoding`] lex, in full, to a token that stands for the same value.
/// This holds for every value without Null whose texts are not reserved
/// words.
pub proof fn lemma_round_trip(v: Val)
    requires
        fits(v),
        plain(v),
    ensures
        lex_at(encode_utf8(encoding(v)), 0) matches Ok((t, q)) && value_of(t) == v && q
            == encode_utf8(encoding(v)).len(),
{
    let b = encode_utf8(encoding(v));
    lemma_encoding_bytes(v);
    assert(b.subrange(0, b.len() as int) =~= b);
    lemma_lex_wire(b, 0, v);
    lemma_value_of_tok(v);
}

/// A bulk string whose text is a reserved word lexes to that word's token,
/// never to an identifier; any other text lexes to an identifier that holds
/// it.
pub proof fn lemma_reserved_words(s: Seq<char>)
    requires
        encode_utf8(s).len() <= usize::MAX,
    ensures
        lex_at(wire(Val::Text(s)), 0) matches Ok((t, _)) && t == keyword(s) && (is_reserved(s)
            ==> !(t is Identifier)) && (!is_reserved(s) ==> t == Tok::Identifier(s)),
{
    let b = wire(Val::Text(s));
    assert(b.subrange(0, b.len() as int) =~= b);
    lemma_lex_wire(b, 0, Val::Text(s));
}

pub proof fn lemma_digits_end_ge(b: Seq<u8>, p: int)
    ensures
        digits_end(b, p) >= p,
    decreases b.len() - p,
{
    if 0 <= p < b.len() && is_digit(b[p]) {
        lemma_digits_end_ge(b, p + 1);
    }
}

pub proof fn lemma_cr_index_ge(b: Seq<u8>, p: int)
    ensures
        cr_index(b, p) >= p,
    decreases b.len() - p,
{
    if 0 <= p < b.len() && b[p] != CR {
        lemma_cr_index_ge(b, p + 1);
    }
}

pub proof fn lemma_length_field_bounds(b: Seq<u8>, p: int)
    requires
        length_field(b, p) is Ok,
    ensures
        p < length_field(b, p)->Ok_0.1 <= b.len(),
{
    lemma_digits_end_ge(b, p + 1);
}

pub proof fn lemma_items_bounds(b: Seq<u8>, s: int, n: nat)
    requires
        s <= b.len(),
        lex_items(b, s, n) is Ok,
    ensures
        s <= lex_items(b, s, n)->Ok_0.1 <= b.len(),
        lex_items(b, s, n)->Ok_0.0.len() == n,
    decreases n,
{
    if n > 0 {
        let q = lex_at(b, s)->Ok_0.1;
        lemma_items_bounds(b, q, (n - 1) as nat);
    }
}

/// Where the lexer reads a token, it moves forward and stays within the
/// input.
pub proof fn lemma_lex_bounds(b: Seq<u8>, p: int)
    requires
        lex_at(b, p) is Ok,
    ensures
        p < lex_at(b, p)->Ok_0.1 <= b.len(),
{
    if b[p] == DOLLAR || b[p] == STAR {
        lemma_length_field_bounds(b, p);
        if b[p] == STAR {
            let (n, s) = length_field(b, p)->Ok_0;
            lemma_items_bounds(b, s, n);
        }
    } else {
        lemma_cr_index_ge(b, p + 1);
    }
}

/// The lexer reads `t` at `p` and stops at `q`.
#[verifier::opaque]
pub open spec fn reads(b: Seq<u8>, p: int, t: Tok, q: int) -> bool {
    lex_at(b, p) == Ok::<(Tok, int), crate::lexer::Error>((t, q))
}

pub proof fn lemma_items_step(b: Seq<u8>, q: int, n: nat, t: Tok, q1: int, ts: Seq<Tok>, r: int)
    requires
        n > 0,
        reads(b, q, t, q1),
        lex_items(b, q1, (n - 1) as nat) == Ok::<(Seq<Tok>, int), crate::lexer::Error>((ts, r)),
    ensures
        lex_items(b, q, n) == Ok::<(Seq<Tok>, int), crate::lexer::Error>((seq![t] + ts, r)),
{
    reveal(reads);
    lemma_lex_bounds(b, q);
}

#[verifier::spinoff_prover]
pub proof fn lemma_items_from(b: Seq<u8>, ends: Seq<int>, toks: Seq<Tok>, k: int)
    requires
        toks.len() + 1 == ends.len(),
        0 <= k <= toks.len(),
        forall|i: int| 0 <= i < toks.len() ==> #[trigger] reads(b, ends[i], toks[i], ends[i + 1]),
    ensures
        lex_items(b, ends[k], (toks.len() - k) as nat) == Ok::<(Seq<Tok>, int), crate::lexer::Error>(
            (toks.subrange(k, toks.len() as int), ends[toks.len() as int]),
        ),
    decreases toks.len() - k,
{
    if k < toks.len() {
        lemma_items_from(b, ends, toks, k + 1);
        assert(reads(b, ends[k], toks[k], ends[k + 1]));
        lemma_items_step(
            b,
            ends[k],
            (toks.len() - k) as nat,
            toks[k],
            ends[k + 1],
            toks.subrange(k + 1, toks.len() as int),
            ends[toks.len() as int],
        );
        assert(toks.subrange(k, toks.len() as int) =~= seq![toks[k]] + toks.subrange(
            k + 1,
            toks.len() as int,
        ));
    } else {
        assert(toks.subrange(k, toks.len() as int) =~= Seq::<Tok>::empty());
    }
}

/// An array header for `n` followed by `n` tokens, each starting where the
/// one before it ended, lexes to an array of exactly those `n` tokens, in
/// that order.
pub proof fn lemma_array_of_tokens(b: Seq<u8>, p: int, ends: Seq<int>, toks: Seq<Tok>)
    requires
        0 <= p < b.len(),
        b[p] == STAR,
        toks.len() + 1 == ends.len(),
        length_field(b, p) == Ok::<(nat, int), crate::lexer::Error>((toks.len(), ends[0])),
        forall|i: int| 0 <= i < toks.len() ==> lex_at(b, #[trigger] ends[i]) == Ok::<
            (Tok, int),
            crate::lexer::Error,
        >((toks[i], ends[i + 1])),
    ensures
        lex_at(b, p) == Ok::<(Tok, int), crate::lexer::Error>(
            (Tok::Array(toks), ends[toks.len() as int]),
        ),
{
    lemma_length_field_bounds(b, p);
    assert forall|i: int| 0 <= i < toks.len() implies #[trigger] reads(b, ends[i], toks[i], ends[i + 1]) by {
        reveal(reads);
    }
    lemma_items_from(b, ends, toks, 0);
    assert(toks.subrange(0, toks.len() as int) =~= toks);
}

} // verus!
