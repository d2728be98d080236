//! Lexicographic order on byte strings and on strings by their UTF-8 bytes.
//!
//! The order on strings is the order of their UTF-8 encodings, which is the
//! order that `String`'s `Ord` uses.
use vstd::prelude::*;
use vstd::utf8::*;

verus! {

/// Three-way lexicographic comparison of byte strings: -1, 0 or 1.
pub open spec fn lex_cmp(a: Seq<u8>, b: Seq<u8>) -> int
    decreases a.len(),
{
    if a.len() == 0 {
        if b.len() == 0 {
            0
        } else {
            -1
        }
    } else if b.len() == 0 {
        1
    } else if a[0] < b[0] {
        -1
    } else if a[0] > b[0] {
        1
    } else {
        lex_cmp(a.drop_first(), b.drop_first())
    }
}

/// Three-way comparison of strings by their UTF-8 encodings.
pub open spec fn str_cmp(a: Seq<char>, b: Seq<char>) -> int {
    lex_cmp(encode_utf8(a), encode_utf8(b))
}

pub proof fn lemma_lex_cmp_basics(a: Seq<u8>, b: Seq<u8>)
    ensures
        (lex_cmp(a, b) == 0) == (a == b),
        lex_cmp(a, b) == -lex_cmp(b, a),
        -1 <= lex_cmp(a, b) <= 1,
    decreases a.len(),
{
    if a.len() > 0 && b.len() > 0 && a[0] == b[0] {
        lemma_lex_cmp_basics(a.drop_first(), b.drop_first());
        if a.drop_first() == b.drop_first() {
            assert forall|i: int| 0 <= i < a.len() implies a[i] == b[i] by {
                if i > 0 {
                    assert(a[i] == a.drop_first()[i - 1]);
                    assert(b[i] == b.drop_first()[i - 1]);
                }
            }
            assert(a =~= b);
        }
    } else if a.len() == 0 && b.len() == 0 {
        assert(a =~= b);
    }
}

pub proof fn lemma_lex_cmp_trans(a: Seq<u8>, b: Seq<u8>, c: Seq<u8>)
    requires
        lex_cmp(a, b) < 0,
        lex_cmp(b, c) < 0,
    ensures
        lex_cmp(a, c) < 0,
    decreases a.len(),
{
    if a.len() > 0 && b.len() > 0 && c.len() > 0 && a[0] == b[0] && b[0] == c[0] {
        lemma_lex_cmp_trans(a.drop_first(), b.drop_first(), c.drop_first());
    }
}

pub proof fn lemma_str_cmp_basics(a: Seq<char>, b: Seq<char>)
    ensures
        (str_cmp(a, b) == 0) == (a == b),
        str_cmp(a, b) == -str_cmp(b, a),
        -1 <= str_cmp(a, b) <= 1,
{
    lemma_lex_cmp_basics(encode_utf8(a), encode_utf8(b));
    if encode_utf8(a) == encode_utf8(b) {
        encode_utf8_decode_utf8(a);
        encode_utf8_decode_utf8(b);
    }
}

pub proof fn lemma_str_cmp_trans(a: Seq<char>, b: Seq<char>, c: Seq<char>)
    requires
        str_cmp(a, b) < 0,
        str_cmp(b, c) < 0,
    ensures
        str_cmp(a, c) < 0,
{
    lemma_lex_cmp_trans(encode_utf8(a), encode_utf8(b), encode_utf8(c));
}

/// Compares two byte strings lexicographically.
pub fn compare_bytes(a: &[u8], b: &[u8]) -> (r: i8)
    ensures
        r as int == lex_cmp(a@, b@),
{
    let mut i: usize = 0;
    assert(a@.skip(0) =~= a@);
    assert(b@.skip(0) =~= b@);
    while i < a.len() && i < b.len() && a[i] == b[i]
        invariant
            i <= a.len(),
            i <= b.len(),
            lex_cmp(a@, b@) == lex_cmp(a@.skip(i as int), b@.skip(i as int)),
        decreases a.len() - i,
    {
        assert(a@.skip(i as int).drop_first() =~= a@.skip(i + 1));
        assert(b@.skip(i as int).drop_first() =~= b@.skip(i + 1));
        i += 1;
    }
    if i < a.len() && i < b.len() {
        if a[i] < b[i] {
            -1
        } else {
            1
        }
    } else if i < a.len() {
        1
    } else if i < b.len() {
        -1
    } else {
        0
    }
}

/// Compares two strings by their UTF-8 encodings, as `String`'s `Ord` does.
pub fn compare_str(a: &str, b: &str) -> (r: i8)
    ensures
        r as int == str_cmp(a@, b@),
{
    compare_bytes(a.as_bytes(), b.as_bytes())
}

} // verus!
