//! Texts that are put together: what is read of a text is read of it wherever it stands.

use vstd::prelude::*;
use vstd::utf8::*;

use crate::parse::{
    brace_end, digits_end, dollar, ends_word, escapable, is_blank, lemma_dollar, lemma_ends,
    lemma_paren_end, lemma_token_at, lemma_token_start, name_end, paren_end, put, token_at,
    token_start, tokens_from, word_from, ParseError, Quote, SegmentV, TokV, WordV,
};

verus! {

// ---------- The bytes of a text ---------------------------------------------

proof fn lemma_scalar(c: u32)
    ensures
        c < 128 ==> encode_scalar(c) == seq![c as u8],
        c >= 128 ==> forall|k: int|
            0 <= k < encode_scalar(c).len() ==> #[trigger] encode_scalar(c)[k] >= 128,
        encode_scalar(c).len() > 0,
{
    if c < 128 {
        assert((c & 0x7F) as u8 == c as u8) by (bit_vector)
            requires
                c < 128,
        ;
    } else {
        assert((0xC0u8 | (((c >> 6) & 0x1F) as u8)) >= 128) by (bit_vector);
        assert((0xE0u8 | (((c >> 12) & 0x0F) as u8)) >= 128) by (bit_vector);
        assert((0xF0u8 | (((c >> 18) & 0x7) as u8)) >= 128) by (bit_vector);
        assert((0x80u8 | ((c & 0x3F) as u8)) >= 128) by (bit_vector);
        assert((0x80u8 | (((c >> 6) & 0x3F) as u8)) >= 128) by (bit_vector);
        assert((0x80u8 | (((c >> 12) & 0x3F) as u8)) >= 128) by (bit_vector);
    }
}

proof fn lemma_other_char(d: char, c: char)
    requires
        (c as u32) < 128,
        d != c,
    ensures
        forall|k: int|
            0 <= k < encode_scalar(d as u32).len() ==> #[trigger] encode_scalar(d as u32)[k]
                != c as u8,
{
    char_is_scalar(d);
    lemma_scalar(d as u32);
    if (d as u32) < 128 {
        let n = d as u32;
        let m = c as u32;
        assert(d as int == n && c as int == m);
        assert(n != m);
        assert(n as u8 == n && m as u8 == m);
        assert(encode_scalar(n)[0] == n as u8);
    }
}

/// The bytes of two texts are those of the one and then those of the other.
pub proof fn lemma_bytes_of_both(a: Seq<char>, b: Seq<char>)
    ensures
        encode_utf8(a + b) == encode_utf8(a) + encode_utf8(b),
    decreases a.len(),
{
    if a.len() == 0 {
        assert(a + b =~= b);
        assert(encode_utf8(a) + encode_utf8(b) =~= encode_utf8(b));
    } else {
        assert((a + b).drop_first() =~= a.drop_first() + b);
        lemma_bytes_of_both(a.drop_first(), b);
        assert(encode_utf8(a + b) =~= encode_utf8(a) + encode_utf8(b));
    }
}

/// An ASCII character that is not in a text is not among its bytes.
pub proof fn lemma_absent(s: Seq<char>, c: char)
    requires
        (c as u32) < 128,
        !s.contains(c),
    ensures
        forall|k: int| 0 <= k < encode_utf8(s).len() ==> #[trigger] encode_utf8(s)[k] != c as u8,
    decreases s.len(),
{
    if s.len() > 0 {
        lemma_other_char(s[0], c);
        let rest = s.drop_first();
        assert(!rest.contains(c)) by {
            if rest.contains(c) {
                let k = choose|k: int| 0 <= k < rest.len() && rest[k] == c;
                assert(s[k + 1] == c);
            }
        }
        lemma_absent(rest, c);
        let e = encode_scalar(s[0] as u32);
        assert forall|k: int| 0 <= k < encode_utf8(s).len() implies #[trigger] encode_utf8(s)[k]
            != c as u8 by {
            if k < e.len() {
                assert(encode_utf8(s)[k] == e[k]);
            } else {
                assert(encode_utf8(s)[k] == encode_utf8(rest)[k - e.len()]);
            }
        }
    }
}

/// A text that does not end in an ASCII character does not end in its byte.
pub proof fn lemma_other_end(s: Seq<char>, c: char)
    requires
        (c as u32) < 128,
        s.len() > 0 ==> s.last() != c,
    ensures
        encode_utf8(s).len() > 0 ==> encode_utf8(s).last() != c as u8,
{
    if s.len() > 0 {
        let last = seq![s.last()];
        assert(s =~= s.drop_last() + last);
        lemma_bytes_of_both(s.drop_last(), last);
        lemma_absent(last, c);
        char_is_scalar(s.last());
        lemma_scalar(s.last() as u32);
        assert(last.drop_first() =~= Seq::<char>::empty());
        assert(encode_utf8(Seq::<char>::empty()) =~= Seq::<u8>::empty());
        assert(encode_utf8(last) =~= encode_scalar(s.last() as u32));
        let n = encode_utf8(last).len();
        assert(encode_utf8(s).last() == encode_utf8(last)[n - 1]);
    }
}

// ---------- What stands in front of more ------------------------------------

/// A byte that ends a word, and is no part of an operator that could begin before it.
pub open spec fn stops(c: u8) -> bool {
    is_blank(c) || c == 59
}

/// A text behind which more can stand: it does not end in a backslash, and what follows starts
/// with a byte that ends a word.
pub open spec fn splits(a: Seq<u8>, u: Seq<u8>) -> bool {
    &&& a.len() > 0 ==> a.last() != 92
    &&& u.len() > 0 && stops(u[0])
}

proof fn lemma_runs_stay(a: Seq<u8>, u: Seq<u8>, i: int)
    requires
        splits(a, u),
        0 <= i <= a.len(),
    ensures
        name_end(a + u, i) == name_end(a, i),
        digits_end(a + u, i) == digits_end(a, i),
        brace_end(a, i) < a.len() ==> brace_end(a + u, i) == brace_end(a, i),
    decreases a.len() - i,
{
    if i < a.len() {
        lemma_runs_stay(a, u, i + 1);
    } else {
        assert((a + u)[i] == u[0]);
    }
}

proof fn lemma_parens_stay(a: Seq<u8>, u: Seq<u8>, i: int, depth: nat)
    requires
        0 <= i <= a.len(),
        paren_end(a, i, depth) < a.len(),
    ensures
        paren_end(a + u, i, depth) == paren_end(a, i, depth),
    decreases a.len() - i,
{
    if i < a.len() {
        if a[i] == 41 {
            if depth > 1 {
                lemma_parens_stay(a, u, i + 1, (depth - 1) as nat);
            }
        } else if a[i] == 40 {
            lemma_parens_stay(a, u, i + 1, depth + 1);
        } else {
            lemma_parens_stay(a, u, i + 1, depth);
        }
    }
}

proof fn lemma_dollar_stays(a: Seq<u8>, u: Seq<u8>, i: int)
    requires
        splits(a, u),
        0 <= i < a.len(),
        dollar(a, i) is Ok,
    ensures
        dollar(a + u, i) == dollar(a, i),
{
    let s = a + u;
    assert(i + 1 < a.len());
    assert(s[i + 1] == a[i + 1]);
    lemma_ends(a, i + 2);
    lemma_ends(a, i + 1);
    lemma_paren_end(a, i + 2, 1);
    if a[i + 1] == 123 {
        lemma_runs_stay(a, u, i + 2);
        let j = brace_end(a, i + 2);
        assert(s.subrange(i + 2, j) =~= a.subrange(i + 2, j));
    } else if a[i + 1] == 40 {
        let j = paren_end(a, i + 2, 1);
        lemma_parens_stay(a, u, i + 2, 1);
        assert(s.subrange(i + 2, j) =~= a.subrange(i + 2, j));
    } else {
        lemma_runs_stay(a, u, i + 1);
        let j = name_end(a, i + 1);
        assert(s.subrange(i + 1, j) =~= a.subrange(i + 1, j));
    }
}

proof fn lemma_word_stays(a: Seq<u8>, u: Seq<u8>, i: int, q: Quote, w: WordV)
    requires
        splits(a, u),
        0 <= i <= a.len(),
        word_from(a, i, q, w) is Ok,
    ensures
        word_from(a + u, i, q, w) == word_from(a, i, q, w),
    decreases a.len() - i,
{
    let s = a + u;
    if i == a.len() {
        assert(s[i] == u[0]);
    } else {
        let c = a[i];
        assert(s[i] == c);
        if q == Quote::Bare && ends_word(c) {
        } else if q == Quote::Single {
            if c == 39 {
                lemma_word_stays(a, u, i + 1, Quote::Bare, w);
            } else {
                lemma_word_stays(a, u, i + 1, q, put(w, c));
            }
        } else if c == 34 {
            let p = if q == Quote::Bare {
                Quote::Double
            } else {
                Quote::Bare
            };
            lemma_word_stays(a, u, i + 1, p, w);
        } else if q == Quote::Bare && c == 39 {
            lemma_word_stays(a, u, i + 1, Quote::Single, w);
        } else if c == 36 {
            lemma_dollar(a, i);
            lemma_dollar_stays(a, u, i);
            let (seg, j) = dollar(a, i)->Ok_0;
            lemma_word_stays(a, u, j, q, w.push(seg));
        } else if c == 92 {
            assert(i + 1 < a.len());
            assert(s[i + 1] == a[i + 1]);
            if q == Quote::Bare || escapable(a[i + 1]) {
                lemma_word_stays(a, u, i + 2, q, put(w, a[i + 1]));
            } else {
                lemma_word_stays(a, u, i + 2, q, put(put(w, 92), a[i + 1]));
            }
        } else {
            lemma_word_stays(a, u, i + 1, q, put(w, c));
        }
    }
}

proof fn lemma_token_stays(a: Seq<u8>, u: Seq<u8>, i: int)
    requires
        splits(a, u),
        0 <= i < a.len(),
        token_at(a, i) is Ok,
    ensures
        token_at(a + u, i) == token_at(a, i),
{
    let s = a + u;
    let d = digits_end(a, i);
    lemma_ends(a, i);
    lemma_runs_stay(a, u, i);
    assert(s[i] == a[i]);
    assert(s[a.len() as int] == u[0]);
    if i + 1 < a.len() {
        assert(s[i + 1] == a[i + 1]);
    }
    if d < a.len() {
        assert(s[d] == a[d]);
        if d + 1 < a.len() {
            assert(s[d + 1] == a[d + 1]);
        }
        assert(s.subrange(i, d) =~= a.subrange(i, d));
    }
    let none = Seq::<SegmentV>::empty();
    if word_from(a, i, Quote::Bare, none) is Ok {
        lemma_word_stays(a, u, i, Quote::Bare, none);
    }
}

/// Where the next token starts, with more behind. Where it does not start before the end of `a`,
/// it starts from there on, perhaps behind a comment that runs on.
proof fn lemma_start_stays(a: Seq<u8>, u: Seq<u8>, i: int, comment: bool) -> (open: bool)
    requires
        0 <= i <= a.len(),
    ensures
        token_start(a, i, comment) < a.len() ==> token_start(a + u, i, comment) == token_start(
            a,
            i,
            comment,
        ),
        token_start(a, i, comment) >= a.len() ==> token_start(a + u, i, comment) == token_start(
            a + u,
            a.len() as int,
            open,
        ),
        !comment && (forall|k: int| 0 <= k < a.len() ==> a[k] != 35) ==> !open,
    decreases a.len() - i,
{
    let s = a + u;
    if i == a.len() {
        comment
    } else {
        assert(s[i] == a[i]);
        if comment {
            let rest = lemma_start_stays(a, u, i + 1, a[i] != 10);
            rest
        } else if is_blank(a[i]) {
            lemma_start_stays(a, u, i + 1, false)
        } else if a[i] == 35 {
            lemma_start_stays(a, u, i + 1, true)
        } else {
            false
        }
    }
}

/// Reading on from where the next token starts changes nothing.
pub proof fn lemma_at_start(s: Seq<u8>, i: int, comment: bool, acc: Seq<TokV>)
    requires
        0 <= i <= s.len(),
    ensures
        token_start(s, token_start(s, i, comment), false) == token_start(s, i, comment),
        tokens_from(s, i, acc) == tokens_from(s, token_start(s, i, false), acc),
{
    lemma_token_start(s, i, comment);
    lemma_token_start(s, i, false);
    let j = token_start(s, i, false);
    assert(token_start(s, j, false) == j);
}

/// The tokens of `a` are read with more behind it as without, and then those behind it, perhaps
/// behind a comment that runs on.
pub proof fn lemma_tokens_stay(a: Seq<u8>, u: Seq<u8>, i: int, acc: Seq<TokV>) -> (open: bool)
    requires
        splits(a, u),
        0 <= i <= a.len(),
        tokens_from(a, i, acc) is Ok,
    ensures
        tokens_from(a + u, i, acc) == tokens_from(
            a + u,
            token_start(a + u, a.len() as int, open),
            tokens_from(a, i, acc)->Ok_0,
        ),
        (forall|k: int| 0 <= k < a.len() ==> a[k] != 35) ==> !open,
    decreases a.len() - i,
{
    let s = a + u;
    let open = lemma_start_stays(a, u, i, false);
    lemma_token_start(a, i, false);
    lemma_at_start(s, i, false, acc);
    let j = token_start(a, i, false);
    if j >= a.len() {
        lemma_at_start(s, a.len() as int, open, acc);
        open
    } else {
        lemma_token_at(a, j);
        lemma_token_stays(a, u, j);
        let (t, k) = token_at(a, j)->Ok_0;
        lemma_tokens_stay(a, u, k, acc.push(t))
    }
}

// ---------- What stands behind more -----------------------------------------

/// What was read, `n` further on.
pub open spec fn moved<T>(r: Result<(T, int), ParseError>, n: int) -> Result<
    (T, int),
    ParseError,
> {
    match r {
        Ok((x, j)) => Ok((x, n + j)),
        Err(e) => Err(e),
    }
}

/// Runs behind more end where they end alone.
pub proof fn lemma_runs_move(p: Seq<u8>, b: Seq<u8>, i: int)
    requires
        0 <= i <= b.len(),
    ensures
        name_end(p + b, p.len() + i) == p.len() + name_end(b, i),
        digits_end(p + b, p.len() + i) == p.len() + digits_end(b, i),
        brace_end(p + b, p.len() + i) == p.len() + brace_end(b, i),
    decreases b.len() - i,
{
    if i < b.len() {
        assert((p + b)[p.len() + i] == b[i]);
        lemma_runs_move(p, b, i + 1);
    }
}

proof fn lemma_parens_move(p: Seq<u8>, b: Seq<u8>, i: int, depth: nat)
    requires
        0 <= i <= b.len(),
    ensures
        paren_end(p + b, p.len() + i, depth) == p.len() + paren_end(b, i, depth),
    decreases b.len() - i,
{
    if i < b.len() {
        assert((p + b)[p.len() + i] == b[i]);
        if b[i] == 41 {
            if depth > 1 {
                lemma_parens_move(p, b, i + 1, (depth - 1) as nat);
            }
        } else if b[i] == 40 {
            lemma_parens_move(p, b, i + 1, depth + 1);
        } else {
            lemma_parens_move(p, b, i + 1, depth);
        }
    }
}

proof fn lemma_part(p: Seq<u8>, b: Seq<u8>, i: int, j: int)
    requires
        0 <= i <= j <= b.len(),
    ensures
        (p + b).subrange(p.len() + i, p.len() + j) == b.subrange(i, j),
{
    assert((p + b).subrange(p.len() + i, p.len() + j) =~= b.subrange(i, j));
}

pub proof fn lemma_dollar_moves(p: Seq<u8>, b: Seq<u8>, i: int)
    requires
        0 <= i < b.len(),
    ensures
        dollar(p + b, p.len() + i) == moved(dollar(b, i), p.len() as int),
{
    if i + 1 < b.len() {
        assert((p + b)[p.len() + i + 1] == b[i + 1]);
        lemma_ends(b, i + 2);
        lemma_ends(b, i + 1);
        lemma_paren_end(b, i + 2, 1);
        lemma_runs_move(p, b, i + 2);
        lemma_runs_move(p, b, i + 1);
        lemma_parens_move(p, b, i + 2, 1);
        lemma_part(p, b, i + 2, brace_end(b, i + 2));
        lemma_part(p, b, i + 2, paren_end(b, i + 2, 1));
        lemma_part(p, b, i + 1, name_end(b, i + 1));
    }
}

/// A word behind more is read as it is read alone.
pub proof fn lemma_word_moves(p: Seq<u8>, b: Seq<u8>, i: int, q: Quote, w: WordV)
    requires
        0 <= i <= b.len(),
    ensures
        word_from(p + b, p.len() + i, q, w) == moved(word_from(b, i, q, w), p.len() as int),
    decreases b.len() - i,
{
    if i < b.len() {
        let c = b[i];
        assert((p + b)[p.len() + i] == c);
        if q == Quote::Bare && ends_word(c) {
        } else if q == Quote::Single {
            if c == 39 {
                lemma_word_moves(p, b, i + 1, Quote::Bare, w);
            } else {
                lemma_word_moves(p, b, i + 1, q, put(w, c));
            }
        } else if c == 34 {
            let o = if q == Quote::Bare {
                Quote::Double
            } else {
                Quote::Bare
            };
            lemma_word_moves(p, b, i + 1, o, w);
        } else if q == Quote::Bare && c == 39 {
            lemma_word_moves(p, b, i + 1, Quote::Single, w);
        } else if c == 36 {
            lemma_dollar(b, i);
            lemma_dollar_moves(p, b, i);
            match dollar(b, i) {
                Err(e) => {},
                Ok((seg, j)) => {
                    lemma_word_moves(p, b, j, q, w.push(seg));
                },
            }
        } else if c == 92 {
            if i + 1 >= b.len() {
                lemma_word_moves(p, b, i + 1, q, w);
            } else {
                assert((p + b)[p.len() + i + 1] == b[i + 1]);
                if q == Quote::Bare || escapable(b[i + 1]) {
                    lemma_word_moves(p, b, i + 2, q, put(w, b[i + 1]));
                } else {
                    lemma_word_moves(p, b, i + 2, q, put(put(w, 92), b[i + 1]));
                }
            }
        } else {
            lemma_word_moves(p, b, i + 1, q, put(w, c));
        }
    }
}

/// A token behind more is read as it is read alone.
pub proof fn lemma_token_moves(p: Seq<u8>, b: Seq<u8>, i: int)
    requires
        0 <= i < b.len(),
    ensures
        token_at(p + b, p.len() + i) == moved(token_at(b, i), p.len() as int),
{
    let s = p + b;
    let d = digits_end(b, i);
    assert(s[p.len() + i] == b[i]);
    lemma_ends(b, i);
    lemma_runs_move(p, b, i);
    lemma_word_moves(p, b, i, Quote::Bare, Seq::<SegmentV>::empty());
    if i + 1 < b.len() {
        assert(s[p.len() + i + 1] == b[i + 1]);
    }
    if d < b.len() {
        assert(s[p.len() + d] == b[d]);
        if d + 1 < b.len() {
            assert(s[p.len() + d + 1] == b[d + 1]);
        }
        lemma_part(p, b, i, d);
    }
}

/// Where the next token starts, behind more.
pub proof fn lemma_start_moves(p: Seq<u8>, b: Seq<u8>, i: int, comment: bool)
    requires
        0 <= i <= b.len(),
    ensures
        token_start(p + b, p.len() + i, comment) == p.len() + token_start(b, i, comment),
    decreases b.len() - i,
{
    if i < b.len() {
        assert((p + b)[p.len() + i] == b[i]);
        if comment {
            lemma_start_moves(p, b, i + 1, b[i] != 10);
        } else if is_blank(b[i]) {
            lemma_start_moves(p, b, i + 1, false);
        } else if b[i] == 35 {
            lemma_start_moves(p, b, i + 1, true);
        }
    }
}

/// The tokens of `b` are read behind more as they are read of it alone.
pub proof fn lemma_tokens_move(p: Seq<u8>, b: Seq<u8>, i: int, acc: Seq<TokV>)
    requires
        0 <= i <= b.len(),
    ensures
        tokens_from(p + b, p.len() + i, acc) == tokens_from(b, i, acc),
    decreases b.len() - i,
{
    lemma_start_moves(p, b, i, false);
    lemma_token_start(b, i, false);
    let j = token_start(b, i, false);
    if j < b.len() {
        lemma_token_at(b, j);
        lemma_token_moves(p, b, j);
        match token_at(b, j) {
            Err(e) => {},
            Ok((t, k)) => {
                lemma_tokens_move(p, b, k, acc.push(t));
            },
        }
    }
}

/// The tokens that were read before stand in front of those that are read.
pub proof fn lemma_tokens_gather(b: Seq<u8>, i: int, before: Seq<TokV>, acc: Seq<TokV>)
    requires
        0 <= i <= b.len(),
    ensures
        tokens_from(b, i, before + acc) == match tokens_from(b, i, acc) {
            Ok(t) => Ok(before + t),
            Err(e) => Err(e),
        },
    decreases b.len() - i,
{
    lemma_token_start(b, i, false);
    let j = token_start(b, i, false);
    if j < b.len() {
        lemma_token_at(b, j);
        match token_at(b, j) {
            Err(e) => {},
            Ok((t, k)) => {
                assert((before + acc).push(t) =~= before + acc.push(t));
                lemma_tokens_gather(b, k, before, acc.push(t));
            },
        }
    }
}

/// Where no `;` is written, none is read.
pub proof fn lemma_no_semicolons(b: Seq<u8>, i: int, acc: Seq<TokV>)
    requires
        0 <= i <= b.len(),
        forall|k: int| 0 <= k < b.len() ==> b[k] != 59,
        forall|k: int| 0 <= k < acc.len() ==> !(#[trigger] acc[k] is Semi),
    ensures
        tokens_from(b, i, acc) matches Ok(t) ==> forall|k: int|
            0 <= k < t.len() ==> !(#[trigger] t[k] is Semi),
    decreases b.len() - i,
{
    lemma_token_start(b, i, false);
    let j = token_start(b, i, false);
    if j < b.len() {
        lemma_token_at(b, j);
        match token_at(b, j) {
            Err(e) => {},
            Ok((t, k)) => {
                assert(!(t is Semi));
                lemma_no_semicolons(b, k, acc.push(t));
            },
        }
    }
}

} // verus!
