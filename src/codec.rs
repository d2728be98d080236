//! The binary format of the index.
//!
//! The index is written as a flat stream of self-describing tokens; each
//! token starts with a tag byte:
//!
//! - `0xc0` nothing (`None`), `0xc2` false, `0xc3` true;
//! - `0xd3` a signed integer, 8 bytes big-endian two's complement;
//! - `0xcf` an unsigned 128-bit integer, 16 bytes big-endian;
//! - `0xdb` a string: its UTF-8 length in 8 bytes big-endian, then the bytes;
//! - `0xdd` a sequence: its number of items in 8 bytes big-endian.
//!
//! Timestamps are written as integers (seconds since the Unix epoch) and
//! durations as integers of milliseconds.
use vstd::prelude::*;
use vstd::utf8::*;

verus! {

pub const TAG_NIL: u8 = 0xc0;

pub const TAG_FALSE: u8 = 0xc2;

pub const TAG_TRUE: u8 = 0xc3;

pub const TAG_INT: u8 = 0xd3;

pub const TAG_U128: u8 = 0xcf;

pub const TAG_STR: u8 = 0xdb;

pub const TAG_LIST: u8 = 0xdd;

/// One token of the stream, as values.
pub enum TokenView {
    Nil,
    Bool(bool),
    Int(i64),
    U128(u128),
    Str(Seq<char>),
    List(u64),
}

/// One token of the stream.
#[derive(Debug, Clone, PartialEq, Eq)]
pub enum Token {
    Nil,
    Bool(bool),
    Int(i64),
    U128(u128),
    Str(String),
    List(u64),
}

impl View for Token {
    type V = TokenView;

    open spec fn view(&self) -> TokenView {
        match self {
            Token::Nil => TokenView::Nil,
            Token::Bool(b) => TokenView::Bool(*b),
            Token::Int(i) => TokenView::Int(*i),
            Token::U128(u) => TokenView::U128(*u),
            Token::Str(s) => TokenView::Str(s@),
            Token::List(n) => TokenView::List(*n),
        }
    }
}

/// Big-endian bytes of a `u64`.
pub open spec fn u64_bytes(v: u64) -> Seq<u8> {
    seq![
        (v >> 56u64) as u8,
        (v >> 48u64) as u8,
        (v >> 40u64) as u8,
        (v >> 32u64) as u8,
        (v >> 24u64) as u8,
        (v >> 16u64) as u8,
        (v >> 8u64) as u8,
        v as u8,
    ]
}

/// The `u64` whose big-endian bytes start at `p`.
pub open spec fn u64_at(b: Seq<u8>, p: int) -> u64 {
    (b[p] as u64) << 56u64 | (b[p + 1] as u64) << 48u64 | (b[p + 2] as u64) << 40u64 | (b[p
        + 3] as u64) << 32u64 | (b[p + 4] as u64) << 24u64 | (b[p + 5] as u64) << 16u64 | (b[p
        + 6] as u64) << 8u64 | (b[p + 7] as u64)
}

/// The bytes of one token.
pub open spec fn token_bytes(t: TokenView) -> Seq<u8> {
    match t {
        TokenView::Nil => seq![TAG_NIL],
        TokenView::Bool(false) => seq![TAG_FALSE],
        TokenView::Bool(true) => seq![TAG_TRUE],
        TokenView::Int(i) => seq![TAG_INT] + u64_bytes(i as u64),
        TokenView::U128(u) => seq![TAG_U128] + u64_bytes((u >> 64u128) as u64) + u64_bytes(
            u as u64,
        ),
        TokenView::Str(s) => seq![TAG_STR] + u64_bytes(encode_utf8(s).len() as u64) + encode_utf8(
            s,
        ),
        TokenView::List(n) => seq![TAG_LIST] + u64_bytes(n),
    }
}

/// A token can be written: a string's UTF-8 length fits in 64 bits.
pub open spec fn token_fits(t: TokenView) -> bool {
    match t {
        TokenView::Str(s) => encode_utf8(s).len() <= u64::MAX,
        _ => true,
    }
}

/// The bytes of a stream of tokens.
pub open spec fn tokens_bytes(ts: Seq<TokenView>) -> Seq<u8> {
    ts.map_values(|t: TokenView| token_bytes(t)).flatten()
}

/// The token that starts at `p`, and where the next one starts.
pub open spec fn parse_token(b: Seq<u8>, p: int) -> Option<(TokenView, int)> {
    if p < 0 || p >= b.len() {
        None
    } else if b[p] == TAG_NIL {
        Some((TokenView::Nil, p + 1))
    } else if b[p] == TAG_FALSE {
        Some((TokenView::Bool(false), p + 1))
    } else if b[p] == TAG_TRUE {
        Some((TokenView::Bool(true), p + 1))
    } else if b[p] == TAG_INT {
        if p + 9 <= b.len() {
            Some((TokenView::Int(u64_at(b, p + 1) as i64), p + 9))
        } else {
            None
        }
    } else if b[p] == TAG_U128 {
        if p + 17 <= b.len() {
            Some(
                (
                    TokenView::U128(
                        (u64_at(b, p + 1) as u128) << 64u128 | (u64_at(b, p + 9) as u128),
                    ),
                    p + 17,
                ),
            )
        } else {
            None
        }
    } else if b[p] == TAG_LIST {
        if p + 9 <= b.len() {
            Some((TokenView::List(u64_at(b, p + 1)), p + 9))
        } else {
            None
        }
    } else if b[p] == TAG_STR {
        if p + 9 <= b.len() && p + 9 + u64_at(b, p + 1) <= b.len() && valid_utf8(
            b.subrange(p + 9, p + 9 + u64_at(b, p + 1)),
        ) {
            Some(
                (
                    TokenView::Str(decode_utf8(b.subrange(p + 9, p + 9 + u64_at(b, p + 1)))),
                    p + 9 + u64_at(b, p + 1),
                ),
            )
        } else {
            None
        }
    } else {
        None
    }
}

/// The tokens from `p` to the end, when the bytes there are a whole stream.
pub open spec fn parse_tokens(b: Seq<u8>, p: int) -> Option<Seq<TokenView>>
    decreases b.len() - p,
{
    if p < 0 || p > b.len() {
        None
    } else if p == b.len() {
        Some(Seq::empty())
    } else {
        match parse_token(b, p) {
            Some((t, q)) => if p < q {
                match parse_tokens(b, q) {
                    Some(rest) => Some(seq![t] + rest),
                    None => None,
                }
            } else {
                None
            },
            None => None,
        }
    }
}

proof fn lemma_u64_bytes(v: u64)
    ensures
        u64_at(u64_bytes(v), 0) == v,
{
    let b = u64_bytes(v);
    let (b0, b1, b2, b3, b4, b5, b6, b7) = (b[0], b[1], b[2], b[3], b[4], b[5], b[6], b[7]);
    assert((b0 as u64) << 56u64 | (b1 as u64) << 48u64 | (b2 as u64) << 40u64 | (b3 as u64)
        << 32u64 | (b4 as u64) << 24u64 | (b5 as u64) << 16u64 | (b6 as u64) << 8u64 | (b7 as u64)
        == v) by (bit_vector)
        requires
            b0 == (v >> 56u64) as u8,
            b1 == (v >> 48u64) as u8,
            b2 == (v >> 40u64) as u8,
            b3 == (v >> 32u64) as u8,
            b4 == (v >> 24u64) as u8,
            b5 == (v >> 16u64) as u8,
            b6 == (v >> 8u64) as u8,
            b7 == v as u8,
    ;
}

proof fn lemma_u64_at_shift(b: Seq<u8>, c: Seq<u8>, p: int, q: int)
    requires
        0 <= p,
        p + 8 <= b.len(),
        0 <= q,
        q + 8 <= c.len(),
        b.subrange(p, p + 8) == c.subrange(q, q + 8),
    ensures
        u64_at(b, p) == u64_at(c, q),
{
    let x = b.subrange(p, p + 8);
    assert(x[0] == b[p] && x[1] == b[p + 1] && x[2] == b[p + 2] && x[3] == b[p + 3]);
    assert(x[4] == b[p + 4] && x[5] == b[p + 5] && x[6] == b[p + 6] && x[7] == b[p + 7]);
    let y = c.subrange(q, q + 8);
    assert(y[0] == c[q] && y[1] == c[q + 1] && y[2] == c[q + 2] && y[3] == c[q + 3]);
    assert(y[4] == c[q + 4] && y[5] == c[q + 5] && y[6] == c[q + 6] && y[7] == c[q + 7]);
    assert(b[p] == c[q] && b[p + 1] == c[q + 1] && b[p + 2] == c[q + 2] && b[p + 3] == c[q + 3]);
    assert(b[p + 4] == c[q + 4] && b[p + 5] == c[q + 5] && b[p + 6] == c[q + 6] && b[p + 7] == c[q
        + 7]);
}

/// A token's bytes, where they stand in a longer sequence, parse back to it.
proof fn lemma_parse_token(t: TokenView, b: Seq<u8>, p: int)
    requires
        token_fits(t),
        0 <= p,
        p + token_bytes(t).len() <= b.len(),
        b.subrange(p, p + token_bytes(t).len()) == token_bytes(t),
    ensures
        parse_token(b, p) == Some((t, p + token_bytes(t).len())),
        token_bytes(t).len() > 0,
{
    let tb = token_bytes(t);
    assert(b[p] == tb[0]);
    match t {
        TokenView::Int(i) => {
            lemma_u64_bytes(i as u64);
            assert(b.subrange(p + 1, p + 9) =~= u64_bytes(i as u64).subrange(0, 8)) by {
                assert forall|k: int| 0 <= k < 8 implies #[trigger] b.subrange(p + 1, p + 9)[k] == u64_bytes(i as u64)[k] by {
                    assert(b[p + 1 + k] == tb[1 + k]);
                }
            }
            lemma_u64_at_shift(b, u64_bytes(i as u64), p + 1, 0);
            assert((i as u64) as i64 == i) by (bit_vector);
        },
        TokenView::U128(u) => {
            let hi = (u >> 64u128) as u64;
            let lo = u as u64;
            lemma_u64_bytes(hi);
            lemma_u64_bytes(lo);
            assert(b.subrange(p + 1, p + 9) =~= u64_bytes(hi).subrange(0, 8)) by {
                assert forall|k: int| 0 <= k < 8 implies #[trigger] b.subrange(p + 1, p + 9)[k] == u64_bytes(hi)[k] by {
                    assert(b[p + 1 + k] == tb[1 + k]);
                }
            }
            lemma_u64_at_shift(b, u64_bytes(hi), p + 1, 0);
            assert(b.subrange(p + 9, p + 17) =~= u64_bytes(lo).subrange(0, 8)) by {
                assert forall|k: int| 0 <= k < 8 implies #[trigger] b.subrange(p + 9, p + 17)[k] == u64_bytes(lo)[k] by {
                    assert(b[p + 9 + k] == tb[9 + k]);
                }
            }
            lemma_u64_at_shift(b, u64_bytes(lo), p + 9, 0);
            assert(((hi as u128) << 64u128 | (lo as u128)) == u) by (bit_vector)
                requires
                    hi == (u >> 64u128) as u64,
                    lo == u as u64,
            ;
        },
        TokenView::List(n) => {
            lemma_u64_bytes(n);
            assert(b.subrange(p + 1, p + 9) =~= u64_bytes(n).subrange(0, 8)) by {
                assert forall|k: int| 0 <= k < 8 implies #[trigger] b.subrange(p + 1, p + 9)[k] == u64_bytes(n)[k] by {
                    assert(b[p + 1 + k] == tb[1 + k]);
                }
            }
            lemma_u64_at_shift(b, u64_bytes(n), p + 1, 0);
        },
        TokenView::Str(s) => {
            let e = encode_utf8(s);
            let n = e.len() as u64;
            lemma_u64_bytes(n);
            assert(b.subrange(p + 1, p + 9) =~= u64_bytes(n).subrange(0, 8)) by {
                assert forall|k: int| 0 <= k < 8 implies #[trigger] b.subrange(p + 1, p + 9)[k] == u64_bytes(n)[k] by {
                    assert(b[p + 1 + k] == tb[1 + k]);
                }
            }
            lemma_u64_at_shift(b, u64_bytes(n), p + 1, 0);
            assert(b.subrange(p + 9, p + 9 + n) =~= e) by {
                assert forall|i: int| 0 <= i < e.len() implies b.subrange(p + 9, p + 9 + n)[i]
                    == e[i] by {
                    assert(b[p + 9 + i] == tb[9 + i]);
                }
            }
            encode_utf8_valid_utf8(s);
            encode_utf8_decode_utf8(s);
        },
        _ => {},
    }
}

proof fn lemma_tokens_bytes_front(ts: Seq<TokenView>)
    requires
        ts.len() > 0,
    ensures
        tokens_bytes(ts) == token_bytes(ts[0]) + tokens_bytes(ts.drop_first()),
{
    let m = ts.map_values(|t: TokenView| token_bytes(t));
    assert(m.drop_first() =~= ts.drop_first().map_values(|t: TokenView| token_bytes(t)));
}

/// Appending a token appends its bytes.
pub proof fn lemma_tokens_bytes_push(ts: Seq<TokenView>, t: TokenView)
    ensures
        tokens_bytes(ts.push(t)) == tokens_bytes(ts) + token_bytes(t),
{
    let m = ts.map_values(|t: TokenView| token_bytes(t));
    assert(ts.push(t).map_values(|t: TokenView| token_bytes(t)) =~= m.push(token_bytes(t)));
    m.lemma_flatten_push(token_bytes(t));
}

/// A whole stream of tokens parses back to itself.
pub proof fn lemma_parse_tokens(ts: Seq<TokenView>, b: Seq<u8>, p: int)
    requires
        forall|i: int| 0 <= i < ts.len() ==> token_fits(#[trigger] ts[i]),
        0 <= p <= b.len(),
        b.subrange(p, b.len() as int) == tokens_bytes(ts),
    ensures
        parse_tokens(b, p) == Some(ts),
    decreases ts.len(),
{
    if ts.len() == 0 {
        assert(ts.map_values(|t: TokenView| token_bytes(t)) =~= Seq::<Seq<u8>>::empty());
        assert(b.subrange(p, b.len() as int).len() == 0);
        assert(ts =~= Seq::<TokenView>::empty());
    } else {
        lemma_tokens_bytes_front(ts);
        let t = ts[0];
        let n = token_bytes(t).len();
        assert(token_fits(ts[0]));
        let rest = ts.drop_first();
        assert(b.subrange(p, b.len() as int).len() == b.len() - p);
        assert(tokens_bytes(ts) == token_bytes(t) + tokens_bytes(rest));
        assert(b.len() - p == n + tokens_bytes(rest).len());
        assert(b.subrange(p, p + n) =~= token_bytes(t)) by {
            assert forall|i: int| 0 <= i < n implies b.subrange(p, p + n)[i] == token_bytes(t)[i] by {
                assert(b.subrange(p, b.len() as int)[i] == b[p + i]);
            }
        }
        lemma_parse_token(t, b, p);
        assert(b.subrange(p + n, b.len() as int) =~= tokens_bytes(rest)) by {
            assert forall|i: int| 0 <= i < b.len() - (p + n) implies b.subrange(p + n, b.len() as int)[i]
                == tokens_bytes(rest)[i] by {
                assert(b.subrange(p, b.len() as int)[n + i] == b[p + n + i]);
            }
        }
        lemma_parse_tokens(rest, b, p + n);
        assert(seq![t] + rest =~= ts);
    }
}

/// Relies on `std::str::from_utf8`: it accepts every valid UTF-8 byte
/// string, and the string it gives back has exactly those bytes.
#[verifier::external_body]
fn string_from_utf8(bytes: &[u8]) -> (r: Option<String>)
    ensures
        valid_utf8(bytes@) ==> r is Some,
        r matches Some(s) ==> encode_utf8(s@) == bytes@,
{
    match std::str::from_utf8(bytes) {
        Ok(s) => Some(s.to_owned()),
        Err(_) => None,
    }
}

fn push_u64(out: &mut Vec<u8>, v: u64)
    ensures
        final(out)@ == old(out)@ + u64_bytes(v),
{
    out.push((v >> 56u64) as u8);
    out.push((v >> 48u64) as u8);
    out.push((v >> 40u64) as u8);
    out.push((v >> 32u64) as u8);
    out.push((v >> 24u64) as u8);
    out.push((v >> 16u64) as u8);
    out.push((v >> 8u64) as u8);
    out.push(v as u8);
    assert(out@ =~= old(out)@ + u64_bytes(v));
}

fn read_u64(b: &[u8], p: usize) -> (r: u64)
    requires
        p + 8 <= b@.len(),
    ensures
        r == u64_at(b@, p as int),
{
    (b[p] as u64) << 56u64 | (b[p + 1] as u64) << 48u64 | (b[p + 2] as u64) << 40u64 | (b[p
        + 3] as u64) << 32u64 | (b[p + 4] as u64) << 24u64 | (b[p + 5] as u64) << 16u64 | (b[p
        + 6] as u64) << 8u64 | (b[p + 7] as u64)
}

/// The token for an optional string.
pub open spec fn opt_str_token(o: Option<Seq<char>>) -> TokenView {
    match o {
        Some(s) => TokenView::Str(s),
        None => TokenView::Nil,
    }
}

/// The token for an optional flag.
pub open spec fn opt_bool_token(o: Option<bool>) -> TokenView {
    match o {
        Some(b) => TokenView::Bool(b),
        None => TokenView::Nil,
    }
}

/// The token for an optional 128-bit integer.
pub open spec fn opt_u128_token(o: Option<u128>) -> TokenView {
    match o {
        Some(u) => TokenView::U128(u),
        None => TokenView::Nil,
    }
}

/// Writes tokens to bytes, keeping track of the tokens written.
pub struct TokenWriter {
    bytes: Vec<u8>,
    toks: Ghost<Seq<TokenView>>,
}

impl TokenWriter {
    /// The tokens written so far.
    pub closed spec fn tokens(&self) -> Seq<TokenView> {
        self.toks@
    }

    pub closed spec fn wf(&self) -> bool {
        &&& self.bytes@ == tokens_bytes(self.toks@)
        &&& forall|i: int| 0 <= i < self.toks@.len() ==> token_fits(#[trigger] self.toks@[i])
    }

    pub fn new() -> (w: TokenWriter)
        ensures
            w.wf(),
            w.tokens() == Seq::<TokenView>::empty(),
    {
        let w = TokenWriter { bytes: Vec::new(), toks: Ghost(Seq::empty()) };
        assert(Seq::<TokenView>::empty().map_values(|t: TokenView| token_bytes(t))
            =~= Seq::<Seq<u8>>::empty());
        w
    }

    fn record(&mut self, t: Ghost<TokenView>, start: Ghost<Seq<u8>>)
        requires
            start@ == tokens_bytes(old(self).toks@),
            forall|i: int| 0 <= i < old(self).toks@.len() ==> token_fits(#[trigger] old(self).toks@[i]),
            old(self).bytes@ == start@ + token_bytes(t@),
            token_fits(t@),
        ensures
            final(self).wf(),
            final(self).tokens() == old(self).toks@.push(t@),
            final(self).bytes@ == old(self).bytes@,
    {
        proof {
            lemma_tokens_bytes_push(self.toks@, t@);
        }
        let ghost old_toks = self.toks@;
        self.toks = Ghost(self.toks@.push(t@));
        assert forall|i: int| 0 <= i < self.toks@.len() implies token_fits(#[trigger] self.toks@[i]) by {
            if i < old_toks.len() {
                assert(self.toks@[i] == old_toks[i]);
            }
        }
    }

    pub fn put_nil(&mut self)
        requires
            old(self).wf(),
        ensures
            final(self).wf(),
            final(self).tokens() == old(self).tokens().push(TokenView::Nil),
    {
        let ghost start = self.bytes@;
        self.bytes.push(TAG_NIL);
        assert(self.bytes@ =~= start + token_bytes(TokenView::Nil));
        self.record(Ghost(TokenView::Nil), Ghost(start));
    }

    pub fn put_bool(&mut self, v: bool)
        requires
            old(self).wf(),
        ensures
            final(self).wf(),
            final(self).tokens() == old(self).tokens().push(TokenView::Bool(v)),
    {
        let ghost start = self.bytes@;
        self.bytes.push(if v { TAG_TRUE } else { TAG_FALSE });
        assert(self.bytes@ =~= start + token_bytes(TokenView::Bool(v)));
        self.record(Ghost(TokenView::Bool(v)), Ghost(start));
    }

    pub fn put_int(&mut self, v: i64)
        requires
            old(self).wf(),
        ensures
            final(self).wf(),
            final(self).tokens() == old(self).tokens().push(TokenView::Int(v)),
    {
        let ghost start = self.bytes@;
        self.bytes.push(TAG_INT);
        push_u64(&mut self.bytes, v as u64);
        assert(self.bytes@ =~= start + token_bytes(TokenView::Int(v)));
        self.record(Ghost(TokenView::Int(v)), Ghost(start));
    }

    pub fn put_u128(&mut self, v: u128)
        requires
            old(self).wf(),
        ensures
            final(self).wf(),
            final(self).tokens() == old(self).tokens().push(TokenView::U128(v)),
    {
        let ghost start = self.bytes@;
        self.bytes.push(TAG_U128);
        push_u64(&mut self.bytes, (v >> 64u128) as u64);
        push_u64(&mut self.bytes, v as u64);
        assert(self.bytes@ =~= start + token_bytes(TokenView::U128(v)));
        self.record(Ghost(TokenView::U128(v)), Ghost(start));
    }

    pub fn put_list(&mut self, n: u64)
        requires
            old(self).wf(),
        ensures
            final(self).wf(),
            final(self).tokens() == old(self).tokens().push(TokenView::List(n)),
    {
        let ghost start = self.bytes@;
        self.bytes.push(TAG_LIST);
        push_u64(&mut self.bytes, n);
        assert(self.bytes@ =~= start + token_bytes(TokenView::List(n)));
        self.record(Ghost(TokenView::List(n)), Ghost(start));
    }

    pub fn put_str(&mut self, s: &str)
        requires
            old(self).wf(),
        ensures
            final(self).wf(),
            final(self).tokens() == old(self).tokens().push(TokenView::Str(s@)),
    {
        let ghost start = self.bytes@;
        let b = s.as_bytes();
        self.bytes.push(TAG_STR);
        push_u64(&mut self.bytes, b.len() as u64);
        let ghost mid = self.bytes@;
        let mut i: usize = 0;
        while i < b.len()
            invariant
                i <= b@.len(),
                self.bytes@ == mid + b@.take(i as int),
                self.toks@ == old(self).toks@,
                start == tokens_bytes(old(self).toks@),
                forall|k: int| 0 <= k < old(self).toks@.len() ==> token_fits(#[trigger] old(self).toks@[k]),
            decreases b@.len() - i,
        {
            self.bytes.push(b[i]);
            assert(b@.take(i + 1) =~= b@.take(i as int).push(b@[i as int]));
            i += 1;
        }
        assert(b@.take(i as int) =~= b@);
        assert(self.bytes@ =~= start + token_bytes(TokenView::Str(s@)));
        self.record(Ghost(TokenView::Str(s@)), Ghost(start));
    }

    pub fn put_opt_str(&mut self, o: &Option<String>)
        requires
            old(self).wf(),
        ensures
            final(self).wf(),
            final(self).tokens() == old(self).tokens().push(opt_str_token(crate::end_stream::opt_view(*o))),
    {
        match o {
            Some(s) => self.put_str(s.as_str()),
            None => self.put_nil(),
        }
    }

    pub fn put_opt_bool(&mut self, o: Option<bool>)
        requires
            old(self).wf(),
        ensures
            final(self).wf(),
            final(self).tokens() == old(self).tokens().push(opt_bool_token(o)),
    {
        match o {
            Some(b) => self.put_bool(b),
            None => self.put_nil(),
        }
    }

    pub fn put_opt_u128(&mut self, o: Option<u128>)
        requires
            old(self).wf(),
        ensures
            final(self).wf(),
            final(self).tokens() == old(self).tokens().push(opt_u128_token(o)),
    {
        match o {
            Some(u) => self.put_u128(u),
            None => self.put_nil(),
        }
    }

    /// The bytes of the tokens written.
    pub fn finish(self) -> (b: Vec<u8>)
        requires
            self.wf(),
        ensures
            b@ == tokens_bytes(self.tokens()),
            forall|i: int| 0 <= i < self.tokens().len() ==> token_fits(#[trigger] self.tokens()[i]),
    {
        self.bytes
    }
}

/// Reads the token that starts at `p`.
pub fn read_token(b: &[u8], p: usize) -> (r: Option<(Token, usize)>)
    ensures
        match r {
            Some((t, q)) => parse_token(b@, p as int) == Some((t@, q as int)),
            None => parse_token(b@, p as int) is None,
        },
{
    if p >= b.len() {
        return None;
    }
    let tag = b[p];
    if tag == TAG_NIL {
        Some((Token::Nil, p + 1))
    } else if tag == TAG_FALSE {
        Some((Token::Bool(false), p + 1))
    } else if tag == TAG_TRUE {
        Some((Token::Bool(true), p + 1))
    } else if tag == TAG_INT {
        if b.len() - p < 9 {
            return None;
        }
        Some((Token::Int(read_u64(b, p + 1) as i64), p + 9))
    } else if tag == TAG_U128 {
        if b.len() - p < 17 {
            return None;
        }
        let hi = read_u64(b, p + 1);
        let lo = read_u64(b, p + 9);
        Some((Token::U128((hi as u128) << 64u128 | (lo as u128)), p + 17))
    } else if tag == TAG_LIST {
        if b.len() - p < 9 {
            return None;
        }
        Some((Token::List(read_u64(b, p + 1)), p + 9))
    } else if tag == TAG_STR {
        if b.len() - p < 9 {
            return None;
        }
        let n = read_u64(b, p + 1);
        if n > (b.len() - p - 9) as u64 {
            return None;
        }
        let start = p + 9;
        let end = start + n as usize;
        let mut bytes: Vec<u8> = Vec::new();
        let mut i: usize = start;
        while i < end
            invariant
                start <= i <= end <= b@.len(),
                bytes@ == b@.subrange(start as int, i as int),
            decreases end - i,
        {
            bytes.push(b[i]);
            assert(b@.subrange(start as int, i + 1) =~= b@.subrange(start as int, i as int).push(b@[i as int]));
            i += 1;
        }
        match string_from_utf8(bytes.as_slice()) {
            Some(s) => {
                proof {
                    encode_utf8_decode_utf8(s@);
                    encode_utf8_valid_utf8(s@);
                }
                Some((Token::Str(s), end))
            },
            None => None,
        }
    } else {
        None
    }
}

/// The view of a vector of tokens.
pub open spec fn tokens_view(v: Seq<Token>) -> Seq<TokenView> {
    v.map_values(|t: Token| t@)
}

/// Splits bytes into tokens; `None` unless they are a whole stream.
pub fn read_tokens(b: &[u8]) -> (r: Option<Vec<Token>>)
    ensures
        match r {
            Some(v) => parse_tokens(b@, 0) == Some(tokens_view(v@)),
            None => parse_tokens(b@, 0) is None,
        },
{
    let mut out: Vec<Token> = Vec::new();
    let mut p: usize = 0;
    assert(tokens_view(out@) =~= Seq::<TokenView>::empty());
    while p < b.len()
        invariant
            p <= b@.len(),
            parse_tokens(b@, p as int) matches Some(rest) ==> parse_tokens(b@, 0) == Some(
                tokens_view(out@) + rest,
            ),
            parse_tokens(b@, p as int) is None ==> parse_tokens(b@, 0) is None,
        decreases b@.len() - p,
    {
        match read_token(b, p) {
            Some((t, q)) => {
                if q <= p {
                    return None;
                }
                let ghost before = tokens_view(out@);
                out.push(t);
                assert(tokens_view(out@) =~= before.push(t@));
                proof {
                    if let Some(rest) = parse_tokens(b@, q as int) {
                        assert(before + (seq![t@] + rest) =~= before.push(t@) + rest);
                    }
                }
                p = q;
            },
            None => {
                return None;
            },
        }
    }
    assert(tokens_view(out@) + Seq::<TokenView>::empty() =~= tokens_view(out@));
    Some(out)
}

} // verus!
