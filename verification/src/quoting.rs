//! What a word stands for, by how it is written: bare, escaped, in quotes, or as the value of
//! something; and how words, operators and redirections are told apart.

use vstd::prelude::*;
use vstd::utf8::*;

use crate::parse::{
    brace_end, chain_from, command_from, digits_end, dollar, lemma_ends, name_end, no_command,
    paren_end, parsed, pipeline_from, put, rest_from, token_at, token_start, tokens_from,
    word_from, CommandV, ParseError, Quote, RedirectV, SegmentV, StmtV, TokV, WordV,
};
use crate::splice::{
    lemma_absent, lemma_bytes_of_both, lemma_runs_move, lemma_word_moves, moved,
};
use crate::text::is_digit;

verus! {

// ---------- What a word stands for ------------------------------------------

/// A piece of what a word stands for: a character, or the value of something.
pub enum AtomV {
    Char(char),
    Var(Seq<char>),
    Status,
    Sub(Seq<char>),
}

/// The characters of a literal.
pub open spec fn char_atoms(s: Seq<char>) -> Seq<AtomV>
    decreases s.len(),
{
    if s.len() == 0 {
        Seq::empty()
    } else {
        char_atoms(s.drop_last()).push(AtomV::Char(s.last()))
    }
}

/// What a word stands for, piece by piece.
pub open spec fn flat(w: WordV) -> Seq<AtomV>
    decreases w.len(),
{
    if w.len() == 0 {
        Seq::empty()
    } else {
        flat(w.drop_last()) + match w.last() {
            SegmentV::Literal(s) => char_atoms(s),
            SegmentV::Var(n) => seq![AtomV::Var(n)],
            SegmentV::Status => seq![AtomV::Status],
            SegmentV::Sub(s) => seq![AtomV::Sub(s)],
        }
    }
}

/// No literal of the word is empty, and no two stand side by side.
pub open spec fn is_compact(w: WordV) -> bool {
    &&& forall|i: int|
        0 <= i < w.len() ==> ((#[trigger] w[i]) matches SegmentV::Literal(s) ==> s.len() > 0)
    &&& forall|i: int|
        0 < i < w.len() ==> !((#[trigger] w[i]) is Literal && w[i - 1] is Literal)
}

proof fn lemma_chars(t: Seq<char>, c: char)
    ensures
        char_atoms(t.push(c)) == char_atoms(t).push(AtomV::Char(c)),
        char_atoms(seq![c]) == seq![AtomV::Char(c)],
        char_atoms(t.push(c)).len() == char_atoms(t).len() + 1,
        char_atoms(t.push(c)).last() == AtomV::Char(c),
        forall|i: int|
            0 <= i < char_atoms(t).len() ==> #[trigger] char_atoms(t.push(c))[i]
                == char_atoms(t)[i],
{
    assert(t.push(c).drop_last() =~= t);
    assert(seq![c].drop_last() =~= Seq::<char>::empty());
    assert(char_atoms(Seq::<char>::empty()) =~= Seq::<AtomV>::empty());
    assert(char_atoms(seq![c]) =~= seq![AtomV::Char(c)]);
}

proof fn lemma_char_atoms(s: Seq<char>)
    ensures
        char_atoms(s).len() == s.len(),
        forall|i: int|
            0 <= i < s.len() ==> #[trigger] char_atoms(s)[i] is Char && char_atoms(s)[i]->Char_0
                == s[i],
    decreases s.len(),
{
    if s.len() > 0 {
        lemma_char_atoms(s.drop_last());
        lemma_chars(s.drop_last(), s.last());
        assert(s.drop_last().push(s.last()) =~= s);
    }
}

proof fn lemma_put(w: WordV, c: u8)
    requires
        is_compact(w),
    ensures
        flat(put(w, c)) == flat(w).push(AtomV::Char(c as char)),
        is_compact(put(w, c)),
{
    let n = put(w, c);
    let one = seq![c as char];
    if w.len() > 0 && w.last() is Literal {
        let t = w.last()->Literal_0;
        assert(n.drop_last() =~= w.drop_last());
        lemma_chars(t, c as char);
        assert(flat(n) =~= flat(w).push(AtomV::Char(c as char)));
        assert forall|i: int| 0 < i < n.len() implies !((#[trigger] n[i]) is Literal && n[i
            - 1] is Literal) by {
            assert(!(w[i] is Literal && w[i - 1] is Literal));
        }
        assert forall|i: int| 0 <= i < n.len() implies ((#[trigger] n[i]) matches SegmentV::Literal(
            s,
        ) ==> s.len() > 0) by {
            if i < w.len() - 1 {
                assert(w[i] == n[i]);
            }
        }
    } else {
        assert(n == w.push(SegmentV::Literal(one)));
        assert(n.drop_last() =~= w);
        lemma_chars(Seq::empty(), c as char);
        assert(flat(n) =~= flat(w).push(AtomV::Char(c as char)));
        lemma_push_compact(w, SegmentV::Literal(one));
    }
}

proof fn lemma_push_compact(w: WordV, seg: SegmentV)
    requires
        is_compact(w),
        seg matches SegmentV::Literal(s) ==> s.len() > 0 && (w.len() > 0 ==> !(w.last() is Literal)),
    ensures
        is_compact(w.push(seg)),
{
    let n = w.push(seg);
    assert forall|i: int| 0 < i < n.len() implies !((#[trigger] n[i]) is Literal && n[i
        - 1] is Literal) by {
        if i < w.len() {
            assert(!(w[i] is Literal && w[i - 1] is Literal));
        } else {
            assert(n[i - 1] == w.last());
        }
    }
    assert forall|i: int| 0 <= i < n.len() implies ((#[trigger] n[i]) matches SegmentV::Literal(s)
        ==> s.len() > 0) by {
        if i < w.len() {
            assert(n[i] == w[i]);
        }
    }
}

proof fn lemma_push(w: WordV, seg: SegmentV)
    requires
        is_compact(w),
        !(seg is Literal),
    ensures
        flat(w.push(seg)) == flat(w).push(
            match seg {
                SegmentV::Var(n) => AtomV::Var(n),
                SegmentV::Status => AtomV::Status,
                SegmentV::Sub(s) => AtomV::Sub(s),
                SegmentV::Literal(s) => AtomV::Status,
            },
        ),
        is_compact(w.push(seg)),
{
    assert(w.push(seg).drop_last() =~= w);
    lemma_push_compact(w, seg);
}

/// A compact word that stands for a text is the literal of that text.
pub proof fn lemma_literal(w: WordV, t: Seq<char>)
    requires
        is_compact(w),
        flat(w) == char_atoms(t),
    ensures
        w == if t.len() == 0 {
            Seq::<SegmentV>::empty()
        } else {
            seq![SegmentV::Literal(t)]
        },
{
    lemma_char_atoms(t);
    if w.len() == 0 {
        assert(flat(w).len() == t.len());
        assert(w =~= Seq::<SegmentV>::empty());
    } else {
        let p = w.drop_last();
        let f = flat(p);
        assert(w[w.len() - 1] == w.last());
        if !(w.last() is Literal) {
            lemma_ends_in_value(w);
            assert(char_atoms(t)[t.len() - 1] is Char);
        }
        let s = w.last()->Literal_0;
        if p.len() > 0 {
            assert(w[w.len() - 2] == p.last());
            lemma_ends_in_value(p);
            assert(flat(w)[f.len() - 1] == f.last());
            assert(char_atoms(t)[f.len() - 1] is Char);
        }
        assert(p =~= Seq::<SegmentV>::empty());
        assert(flat(w) =~= char_atoms(s));
        lemma_same_chars(s, t);
        assert(w =~= seq![SegmentV::Literal(t)]);
    }
}

proof fn lemma_same_chars(s: Seq<char>, t: Seq<char>)
    requires
        char_atoms(s) == char_atoms(t),
    ensures
        s == t,
{
    lemma_char_atoms(s);
    lemma_char_atoms(t);
    assert forall|i: int| 0 <= i < s.len() implies s[i] == t[i] by {
        assert(char_atoms(s)[i] == char_atoms(t)[i]);
        assert(char_atoms(s)[i]->Char_0 == s[i]);
        assert(char_atoms(t)[i]->Char_0 == t[i]);
    }
    assert(s =~= t);
}

proof fn lemma_ends_in_value(w: WordV)
    requires
        w.len() > 0,
        !(w.last() is Literal),
    ensures
        flat(w).len() > 0,
        !(flat(w).last() is Char),
{
}

// ---------- How a word is written -------------------------------------------

/// A value, as it is written behind a `$`.
pub enum ValueV {
    /// `$NAME`
    Named(Seq<u8>),
    /// `${NAME}`
    Braced(Seq<char>),
    /// `$(LINE)`
    Sub(Seq<char>),
    /// `$?`
    Status,
}

/// A piece of a word between double quotes.
pub enum InnerV {
    /// A byte that stands for itself.
    Plain(u8),
    /// A backslash and a byte.
    Escaped(u8),
    Value(ValueV),
}

/// A piece of a word, as it is written.
pub enum PieceV {
    /// A byte that stands for itself.
    Plain(u8),
    /// A backslash and a byte.
    Escaped(u8),
    /// Bytes between single quotes.
    Single(Seq<u8>),
    /// Pieces between double quotes.
    Double(Seq<InnerV>),
    Value(ValueV),
}

/// How a value is written.
pub open spec fn value_bytes(v: ValueV) -> Seq<u8> {
    match v {
        ValueV::Named(n) => seq![36u8] + n,
        ValueV::Braced(n) => seq![36u8, 123u8] + encode_utf8(n) + seq![125u8],
        ValueV::Sub(s) => seq![36u8, 40u8] + encode_utf8(s) + seq![41u8],
        ValueV::Status => seq![36u8, 63u8],
    }
}

/// How a piece between double quotes is written.
pub open spec fn inner_bytes(p: InnerV) -> Seq<u8> {
    match p {
        InnerV::Plain(b) => seq![b],
        InnerV::Escaped(b) => seq![92u8, b],
        InnerV::Value(v) => value_bytes(v),
    }
}

/// How pieces between double quotes are written.
pub open spec fn inners_bytes(ps: Seq<InnerV>) -> Seq<u8>
    decreases ps.len(),
{
    if ps.len() == 0 {
        Seq::empty()
    } else {
        inner_bytes(ps[0]) + inners_bytes(ps.drop_first())
    }
}

/// How a piece of a word is written.
pub open spec fn piece_bytes(p: PieceV) -> Seq<u8> {
    match p {
        PieceV::Plain(b) => seq![b],
        PieceV::Escaped(b) => seq![92u8, b],
        PieceV::Single(t) => seq![39u8] + t + seq![39u8],
        PieceV::Double(ps) => seq![34u8] + inners_bytes(ps) + seq![34u8],
        PieceV::Value(v) => value_bytes(v),
    }
}

/// How a word is written.
pub open spec fn word_bytes(ps: Seq<PieceV>) -> Seq<u8>
    decreases ps.len(),
{
    if ps.len() == 0 {
        Seq::empty()
    } else {
        piece_bytes(ps[0]) + word_bytes(ps.drop_first())
    }
}

/// What a value stands for.
pub open spec fn value_atom(v: ValueV) -> AtomV {
    match v {
        ValueV::Named(n) => AtomV::Var(Seq::new(n.len(), |i: int| n[i] as char)),
        ValueV::Braced(n) => AtomV::Var(n),
        ValueV::Sub(s) => AtomV::Sub(s),
        ValueV::Status => AtomV::Status,
    }
}

/// The bytes that a backslash takes the meaning from between double quotes: `$`, a backquote, `"`,
/// a backslash and a newline.
pub open spec fn has_meaning(b: u8) -> bool {
    b == 36 || b == 96 || b == 34 || b == 92 || b == 10
}

/// What a piece between double quotes stands for. A backslash in front of a byte that has a
/// meaning there gives that byte alone; in front of any other byte it stands for itself.
pub open spec fn inner_atoms(p: InnerV) -> Seq<AtomV> {
    match p {
        InnerV::Plain(b) => seq![AtomV::Char(b as char)],
        InnerV::Escaped(b) => if has_meaning(b) {
            seq![AtomV::Char(b as char)]
        } else {
            seq![AtomV::Char('\\'), AtomV::Char(b as char)]
        },
        InnerV::Value(v) => seq![value_atom(v)],
    }
}

/// What pieces between double quotes stand for.
pub open spec fn inners_atoms(ps: Seq<InnerV>) -> Seq<AtomV>
    decreases ps.len(),
{
    if ps.len() == 0 {
        Seq::empty()
    } else {
        inner_atoms(ps[0]) + inners_atoms(ps.drop_first())
    }
}

/// What a piece of a word stands for. Outside quotes a backslash gives the byte behind it alone,
/// and between single quotes every byte stands for itself.
pub open spec fn piece_atoms(p: PieceV) -> Seq<AtomV> {
    match p {
        PieceV::Plain(b) => seq![AtomV::Char(b as char)],
        PieceV::Escaped(b) => seq![AtomV::Char(b as char)],
        PieceV::Single(t) => Seq::new(t.len(), |i: int| AtomV::Char(t[i] as char)),
        PieceV::Double(ps) => inners_atoms(ps),
        PieceV::Value(v) => seq![value_atom(v)],
    }
}

/// What a word stands for, by how it is written.
pub open spec fn word_atoms(ps: Seq<PieceV>) -> Seq<AtomV>
    decreases ps.len(),
{
    if ps.len() == 0 {
        Seq::empty()
    } else {
        piece_atoms(ps[0]) + word_atoms(ps.drop_first())
    }
}

/// A letter, a digit or `_`.
pub open spec fn is_name_byte(b: u8) -> bool {
    65 <= b <= 90 || 97 <= b <= 122 || b == 95 || 48 <= b <= 57
}

/// The parentheses in `b` are closed in turn, behind `depth` open ones that stay open.
pub open spec fn is_balanced(b: Seq<u8>, depth: nat) -> bool
    decreases b.len(),
{
    if b.len() == 0 {
        depth == 0
    } else if b[0] == 40 {
        is_balanced(b.drop_first(), depth + 1)
    } else if b[0] == 41 {
        depth > 0 && is_balanced(b.drop_first(), (depth - 1) as nat)
    } else {
        is_balanced(b.drop_first(), depth)
    }
}

/// A value that is written as one, in front of `rest`.
pub open spec fn is_value(v: ValueV, rest: Seq<u8>) -> bool {
    match v {
        ValueV::Named(n) => {
            &&& n.len() > 0 && !(48 <= n[0] <= 57)
            &&& forall|i: int| 0 <= i < n.len() ==> is_name_byte(#[trigger] n[i])
            &&& rest.len() > 0 ==> !is_name_byte(rest[0])
        },
        ValueV::Braced(n) => n.len() > 0 && forall|i: int|
            0 <= i < encode_utf8(n).len() ==> #[trigger] encode_utf8(n)[i] != 125,
        ValueV::Sub(s) => is_balanced(encode_utf8(s), 0),
        ValueV::Status => true,
    }
}

/// Pieces that are written as such between double quotes, in front of `rest`.
pub open spec fn are_inners(ps: Seq<InnerV>, rest: Seq<u8>) -> bool
    decreases ps.len(),
{
    ps.len() > 0 ==> {
        &&& match ps[0] {
            InnerV::Plain(b) => b != 34 && b != 36 && b != 92,
            InnerV::Escaped(_) => true,
            InnerV::Value(v) => is_value(v, inners_bytes(ps.drop_first()) + rest),
        }
        &&& are_inners(ps.drop_first(), rest)
    }
}

/// A byte that ends a word outside quotes: a blank, an operator, or the start of a comment.
pub open spec fn is_end(b: u8) -> bool {
    b == 32 || b == 9 || b == 10 || b == 124 || b == 38 || b == 59 || b == 60 || b == 62 || b
        == 35
}

/// Pieces that are written as such, in front of `rest`.
pub open spec fn are_pieces(ps: Seq<PieceV>, rest: Seq<u8>) -> bool
    decreases ps.len(),
{
    ps.len() > 0 ==> {
        &&& match ps[0] {
            PieceV::Plain(b) => !is_end(b) && b != 34 && b != 36 && b != 39 && b != 92,
            PieceV::Escaped(_) => true,
            PieceV::Single(t) => forall|i: int| 0 <= i < t.len() ==> #[trigger] t[i] != 39,
            PieceV::Double(qs) => are_inners(qs, seq![34u8]),
            PieceV::Value(v) => is_value(v, word_bytes(ps.drop_first()) + rest),
        }
        &&& are_pieces(ps.drop_first(), rest)
    }
}

// ---------- Reading it ------------------------------------------------------

proof fn lemma_name(n: Seq<u8>, rest: Seq<u8>, i: int)
    requires
        0 <= i <= n.len(),
        forall|k: int| 0 <= k < n.len() ==> is_name_byte(#[trigger] n[k]),
        rest.len() > 0 ==> !is_name_byte(rest[0]),
    ensures
        name_end(seq![36u8] + n + rest, i + 1) == n.len() + 1,
    decreases n.len() - i,
{
    let s = seq![36u8] + n + rest;
    if i < n.len() {
        assert(s[i + 1] == n[i]);
        lemma_name(n, rest, i + 1);
    } else if rest.len() > 0 {
        assert(s[i + 1] == rest[0]);
    }
}

proof fn lemma_brace(n: Seq<u8>, rest: Seq<u8>, i: int)
    requires
        0 <= i <= n.len(),
        forall|k: int| 0 <= k < n.len() ==> #[trigger] n[k] != 125,
    ensures
        brace_end(seq![36u8, 123u8] + n + seq![125u8] + rest, i + 2) == n.len() + 2,
    decreases n.len() - i,
{
    let s = seq![36u8, 123u8] + n + seq![125u8] + rest;
    if i < n.len() {
        assert(s[i + 2] == n[i]);
        lemma_brace(n, rest, i + 1);
    } else {
        assert(s[i + 2] == 125);
    }
}

proof fn lemma_paren(n: Seq<u8>, rest: Seq<u8>, i: int, depth: nat)
    requires
        0 <= i <= n.len(),
        is_balanced(n.skip(i), depth),
    ensures
        paren_end(seq![36u8, 40u8] + n + seq![41u8] + rest, i + 2, depth + 1) == n.len() + 2,
    decreases n.len() - i,
{
    let s = seq![36u8, 40u8] + n + seq![41u8] + rest;
    let t = n.skip(i);
    if i < n.len() {
        assert(s[i + 2] == n[i]);
        assert(t[0] == n[i]);
        assert(t.drop_first() =~= n.skip(i + 1));
        if n[i] == 40 {
            lemma_paren(n, rest, i + 1, depth + 1);
        } else if n[i] == 41 {
            lemma_paren(n, rest, i + 1, (depth - 1) as nat);
        } else {
            lemma_paren(n, rest, i + 1, depth);
        }
    } else {
        assert(s[i + 2] == 41);
    }
}

proof fn lemma_ascii_text(n: Seq<u8>)
    requires
        forall|k: int| 0 <= k < n.len() ==> #[trigger] n[k] < 128,
    ensures
        valid_utf8(n),
        decode_utf8(n) == Seq::new(n.len(), |i: int| n[i] as char),
{
    let t = Seq::new(n.len(), |i: int| n[i] as char);
    assert forall|i: int| 0 <= i < t.len() implies '\0' <= #[trigger] t[i] <= '\u{7f}' by {
        assert(n[i] < 128);
    }
    assert(is_ascii_chars(t));
    is_ascii_chars_encode_utf8(t);
    assert(encode_utf8(t) =~= n) by {
        assert forall|i: int| 0 <= i < n.len() implies encode_utf8(t)[i] == n[i] by {
            assert(t[i] as u8 == n[i]);
        }
    }
    encode_utf8_valid_utf8(t);
    encode_utf8_decode_utf8(t);
}

proof fn lemma_value(v: ValueV, rest: Seq<u8>)
    requires
        is_value(v, rest),
    ensures
        ({
            let s = value_bytes(v) + rest;
            &&& s[0] == 36
            &&& value_bytes(v).len() > 1
            &&& dollar(s, 0) matches Ok((seg, j))
            &&& j == value_bytes(v).len()
            &&& match seg {
                SegmentV::Literal(_) => false,
                SegmentV::Var(n) => value_atom(v) == AtomV::Var(n),
                SegmentV::Status => value_atom(v) is Status,
                SegmentV::Sub(t) => value_atom(v) == AtomV::Sub(t),
            }
        }),
{
    let s = value_bytes(v) + rest;
    match v {
        ValueV::Named(n) => {
            lemma_name(n, rest, 0);
            assert(s =~= seq![36u8] + n + rest);
            assert(s[1] == n[0]);
            assert(is_name_byte(n[0]));
            assert(s.subrange(1, n.len() as int + 1) =~= n);
            assert forall|k: int| 0 <= k < n.len() implies #[trigger] n[k] < 128 by {
                assert(is_name_byte(n[k]));
            }
            lemma_ascii_text(n);
        },
        ValueV::Braced(t) => {
            let n = encode_utf8(t);
            lemma_brace(n, rest, 0);
            assert(s =~= seq![36u8, 123u8] + n + seq![125u8] + rest);
            assert(s[1] == 123);
            assert(s.subrange(2, n.len() as int + 2) =~= n);
            encode_utf8_valid_utf8(t);
            encode_utf8_decode_utf8(t);
            if n.len() == 0 {
                assert(decode_utf8(n) =~= Seq::<char>::empty());
            }
        },
        ValueV::Sub(t) => {
            let n = encode_utf8(t);
            assert(n.skip(0) =~= n);
            lemma_paren(n, rest, 0, 0);
            assert(s =~= seq![36u8, 40u8] + n + seq![41u8] + rest);
            assert(s[1] == 40);
            assert(s.subrange(2, n.len() as int + 2) =~= n);
            encode_utf8_valid_utf8(t);
            encode_utf8_decode_utf8(t);
        },
        ValueV::Status => {
            assert(s[1] == 63);
        },
    }
}

proof fn lemma_reads_value(v: ValueV, rest: Seq<u8>, q: Quote, w: WordV) -> (n: WordV)
    requires
        is_value(v, rest),
        q == Quote::Bare || q == Quote::Double,
        is_compact(w),
    ensures
        word_from(value_bytes(v) + rest, 0, q, w) == moved(
            word_from(rest, 0, q, n),
            value_bytes(v).len() as int,
        ),
        is_compact(n),
        flat(n) == flat(w).push(value_atom(v)),
{
    let s = value_bytes(v) + rest;
    lemma_value(v, rest);
    let (seg, j) = dollar(s, 0)->Ok_0;
    let n = w.push(seg);
    lemma_push(w, seg);
    lemma_word_moves(value_bytes(v), rest, 0, q, n);
    n
}

proof fn lemma_reads_single(t: Seq<u8>, rest: Seq<u8>, i: int, w: WordV) -> (n: WordV)
    requires
        0 <= i <= t.len(),
        forall|k: int| 0 <= k < t.len() ==> #[trigger] t[k] != 39,
        is_compact(w),
    ensures
        word_from(seq![39u8] + t + seq![39u8] + rest, i + 1, Quote::Single, w) == word_from(
            seq![39u8] + t + seq![39u8] + rest,
            t.len() as int + 2,
            Quote::Bare,
            n,
        ),
        is_compact(n),
        flat(n) == flat(w) + Seq::new((t.len() - i) as nat, |k: int| AtomV::Char(t[i + k] as char)),
    decreases t.len() - i,
{
    let s = seq![39u8] + t + seq![39u8] + rest;
    let more = Seq::new((t.len() - i) as nat, |k: int| AtomV::Char(t[i + k] as char));
    if i == t.len() {
        assert(s[i + 1] == 39);
        assert(flat(w) + more =~= flat(w));
        w
    } else {
        assert(s[i + 1] == t[i]);
        lemma_put(w, t[i]);
        let n = lemma_reads_single(t, rest, i + 1, put(w, t[i]));
        assert(flat(n) =~= flat(w) + more);
        n
    }
}

proof fn lemma_reads_inners(ps: Seq<InnerV>, rest: Seq<u8>, w: WordV) -> (n: WordV)
    requires
        are_inners(ps, seq![34u8]),
        is_compact(w),
    ensures
        word_from(inners_bytes(ps) + seq![34u8] + rest, 0, Quote::Double, w) == moved(
            word_from(rest, 0, Quote::Bare, n),
            inners_bytes(ps).len() as int + 1,
        ),
        is_compact(n),
        flat(n) == flat(w) + inners_atoms(ps),
    decreases ps.len(),
{
    let s = inners_bytes(ps) + seq![34u8] + rest;
    if ps.len() == 0 {
        assert(s =~= seq![34u8] + rest);
        assert(s[0] == 34);
        lemma_word_moves(seq![34u8], rest, 0, Quote::Bare, w);
        assert(flat(w) + inners_atoms(ps) =~= flat(w));
        w
    } else {
        let x = inner_bytes(ps[0]);
        let tail = ps.drop_first();
        let more = inners_bytes(tail) + seq![34u8] + rest;
        assert(s =~= x + more);
        let m = match ps[0] {
            InnerV::Plain(b) => {
                assert(s[0] == b);
                lemma_put(w, b);
                lemma_word_moves(x, more, 0, Quote::Double, put(w, b));
                put(w, b)
            },
            InnerV::Escaped(b) => {
                assert(s[0] == 92 && s[1] == b);
                if has_meaning(b) {
                    lemma_put(w, b);
                    lemma_word_moves(x, more, 0, Quote::Double, put(w, b));
                    put(w, b)
                } else {
                    lemma_put(w, 92);
                    lemma_put(put(w, 92), b);
                    lemma_word_moves(x, more, 0, Quote::Double, put(put(w, 92), b));
                    put(put(w, 92), b)
                }
            },
            InnerV::Value(v) => {
                assert(is_value(v, more)) by {
                    let near = inners_bytes(tail) + seq![34u8];
                    assert(is_value(v, near));
                    assert(more[0] == near[0]);
                }
                lemma_reads_value(v, more, Quote::Double, w)
            },
        };
        assert(flat(m) =~= flat(w) + inner_atoms(ps[0]));
        assert(word_from(s, 0, Quote::Double, w) == moved(
            word_from(more, 0, Quote::Double, m),
            x.len() as int,
        ));
        let n = lemma_reads_inners(tail, rest, m);
        assert(flat(n) =~= flat(w) + inners_atoms(ps));
        n
    }
}

proof fn lemma_reads_piece(p: PieceV, more: Seq<u8>, w: WordV) -> (m: WordV)
    requires
        match p {
            PieceV::Plain(b) => !is_end(b) && b != 34 && b != 36 && b != 39 && b != 92,
            PieceV::Escaped(_) => true,
            PieceV::Single(t) => forall|i: int| 0 <= i < t.len() ==> #[trigger] t[i] != 39,
            PieceV::Double(qs) => are_inners(qs, seq![34u8]),
            PieceV::Value(v) => is_value(v, more),
        },
        is_compact(w),
    ensures
        word_from(piece_bytes(p) + more, 0, Quote::Bare, w) == moved(
            word_from(more, 0, Quote::Bare, m),
            piece_bytes(p).len() as int,
        ),
        is_compact(m),
        flat(m) == flat(w) + piece_atoms(p),
{
    let x = piece_bytes(p);
    let s = x + more;
    match p {
        PieceV::Plain(b) => {
            assert(s[0] == b);
            lemma_put(w, b);
            lemma_word_moves(x, more, 0, Quote::Bare, put(w, b));
            assert(flat(put(w, b)) =~= flat(w) + piece_atoms(p));
            put(w, b)
        },
        PieceV::Escaped(b) => {
            assert(s[0] == 92 && s[1] == b);
            lemma_put(w, b);
            lemma_word_moves(x, more, 0, Quote::Bare, put(w, b));
            assert(flat(put(w, b)) =~= flat(w) + piece_atoms(p));
            put(w, b)
        },
        PieceV::Single(t) => {
            assert(s[0] == 39);
            assert(s =~= seq![39u8] + t + seq![39u8] + more);
            let m = lemma_reads_single(t, more, 0, w);
            lemma_word_moves(x, more, 0, Quote::Bare, m);
            let had = Seq::new((t.len() - 0) as nat, |k: int| AtomV::Char(t[0 + k] as char));
            assert(had =~= piece_atoms(p));
            m
        },
        PieceV::Double(qs) => {
            assert(s[0] == 34);
            let inside = inners_bytes(qs) + seq![34u8] + more;
            assert(s =~= seq![34u8] + inside);
            lemma_word_moves(seq![34u8], inside, 0, Quote::Double, w);
            lemma_reads_inners(qs, more, w)
        },
        PieceV::Value(v) => {
            let m = lemma_reads_value(v, more, Quote::Bare, w);
            assert(flat(m) =~= flat(w) + piece_atoms(p));
            m
        },
    }
}

/// A word is read as what it stands for, in front of what ends it.
pub proof fn lemma_reads_word(ps: Seq<PieceV>, rest: Seq<u8>, w: WordV) -> (n: WordV)
    requires
        are_pieces(ps, rest),
        rest.len() > 0 ==> is_end(rest[0]),
        is_compact(w),
    ensures
        word_from(word_bytes(ps) + rest, 0, Quote::Bare, w) == Ok::<(WordV, int), ParseError>(
            (n, word_bytes(ps).len() as int),
        ),
        is_compact(n),
        flat(n) == flat(w) + word_atoms(ps),
    decreases ps.len(),
{
    let s = word_bytes(ps) + rest;
    if ps.len() == 0 {
        assert(s =~= rest);
        assert(flat(w) + word_atoms(ps) =~= flat(w));
        w
    } else {
        let tail = ps.drop_first();
        let more = word_bytes(tail) + rest;
        assert(s =~= piece_bytes(ps[0]) + more);
        let m = lemma_reads_piece(ps[0], more, w);
        let n = lemma_reads_word(tail, rest, m);
        assert(flat(n) =~= flat(w) + word_atoms(ps));
        n
    }
}

// ---------- A word as a line ------------------------------------------------

proof fn lemma_after_digits(ps: Seq<PieceV>, rest: Seq<u8>)
    requires
        are_pieces(ps, rest),
        rest.len() == 0 || rest == seq![92u8],
    ensures
        ({
            let s = word_bytes(ps) + rest;
            let d = digits_end(s, 0);
            d < s.len() ==> s[d] != 60 && s[d] != 62
        }),
    decreases ps.len(),
{
    let s = word_bytes(ps) + rest;
    if ps.len() > 0 {
        let x = piece_bytes(ps[0]);
        let more = word_bytes(ps.drop_first()) + rest;
        assert(s =~= x + more);
        assert(s[0] == x[0]);
        if is_digit(s[0]) {
            assert(x.len() == 1);
            lemma_after_digits(ps.drop_first(), rest);
            lemma_runs_move(x, more, 0);
            lemma_ends(more, 0);
            assert(digits_end(s, 0) == digits_end(s, 1));
            let d = digits_end(more, 0);
            if d < more.len() {
                assert(s[1 + d] == more[d]);
            }
        }
    } else {
        assert(s =~= rest);
    }
}

/// The tokens are one word that stands for `atoms`.
pub open spec fn is_one_word(t: Result<Seq<TokV>, ParseError>, atoms: Seq<AtomV>) -> bool {
    &&& t matches Ok(t)
    &&& t.len() == 1
    &&& t[0] matches TokV::Word(w)
    &&& flat(w) == atoms
    &&& is_compact(w)
}

/// A word is read as what it stands for, however it is written: bare, behind backslashes, between
/// quotes of either kind, as a value, or as all of these in turn.
pub proof fn law_words_are_read_as_written(ps: Seq<PieceV>)
    requires
        are_pieces(ps, Seq::empty()),
        ps.len() > 0,
    ensures
        is_one_word(tokens_from(word_bytes(ps), 0, Seq::empty()), word_atoms(ps)),
{
    let s = word_bytes(ps);
    let none = Seq::<u8>::empty();
    let w = Seq::<SegmentV>::empty();
    assert(s + none =~= s);
    let n = lemma_reads_word(ps, none, w);
    assert(flat(n) =~= word_atoms(ps));
    lemma_after_digits(ps, none);
    let x = piece_bytes(ps[0]);
    assert(x.len() > 0);
    assert(s[0] == x[0]);
    assert(token_start(s, 0, false) == 0);
    assert(token_at(s, 0) == Ok::<(TokV, int), ParseError>((TokV::Word(n), s.len() as int)));
    let one = Seq::<TokV>::empty().push(TokV::Word(n));
    assert(token_start(s, s.len() as int, false) == s.len());
    assert(tokens_from(s, s.len() as int, one) == Ok::<Seq<TokV>, ParseError>(one));
}

proof fn lemma_reads_last_backslash(ps: Seq<PieceV>, w: WordV) -> (n: WordV)
    requires
        are_pieces(ps, seq![92u8]),
        is_compact(w),
    ensures
        word_from(word_bytes(ps) + seq![92u8], 0, Quote::Bare, w) == Ok::<
            (WordV, int),
            ParseError,
        >((n, (word_bytes(ps).len() + 1) as int)),
        is_compact(n),
        flat(n) == flat(w) + word_atoms(ps),
    decreases ps.len(),
{
    let rest = seq![92u8];
    let s = word_bytes(ps) + rest;
    if ps.len() == 0 {
        assert(s =~= rest);
        assert(word_from(s, 1, Quote::Bare, w) == Ok::<(WordV, int), ParseError>((w, 1)));
        assert(flat(w) + word_atoms(ps) =~= flat(w));
        w
    } else {
        let tail = ps.drop_first();
        let more = word_bytes(tail) + rest;
        assert(s =~= piece_bytes(ps[0]) + more);
        let m = lemma_reads_piece(ps[0], more, w);
        let n = lemma_reads_last_backslash(tail, m);
        assert(flat(n) =~= flat(w) + word_atoms(ps));
        n
    }
}

/// A backslash with nothing behind it stands for nothing: the word in front of it is the same, and
/// alone it is a word with nothing in it.
pub proof fn law_a_last_backslash_stands_for_nothing(ps: Seq<PieceV>)
    requires
        are_pieces(ps, seq![92u8]),
    ensures
        is_one_word(tokens_from(word_bytes(ps) + seq![92u8], 0, Seq::empty()), word_atoms(ps)),
{
    let s = word_bytes(ps) + seq![92u8];
    let w = Seq::<SegmentV>::empty();
    let n = lemma_reads_last_backslash(ps, w);
    assert(flat(n) =~= word_atoms(ps));
    lemma_after_digits(ps, seq![92u8]);
    if ps.len() > 0 {
        let x = piece_bytes(ps[0]);
        assert(x.len() > 0);
        assert(s[0] == x[0]);
    } else {
        assert(s[0] == 92);
    }
    assert(token_start(s, 0, false) == 0);
    assert(token_at(s, 0) == Ok::<(TokV, int), ParseError>((TokV::Word(n), s.len() as int)));
    let one = Seq::<TokV>::empty().push(TokV::Word(n));
    assert(token_start(s, s.len() as int, false) == s.len());
    assert(tokens_from(s, s.len() as int, one) == Ok::<Seq<TokV>, ParseError>(one));
}

proof fn lemma_one_piece(p: PieceV)
    ensures
        word_bytes(seq![p]) == piece_bytes(p),
        word_atoms(seq![p]) == piece_atoms(p),
        are_pieces(seq![p].drop_first(), Seq::empty()),
        word_bytes(seq![p].drop_first()) == Seq::<u8>::empty(),
{
    let none = Seq::<PieceV>::empty();
    assert(seq![p].drop_first() =~= none);
    assert(word_bytes(none) =~= Seq::<u8>::empty());
    assert(word_atoms(none) =~= Seq::<AtomV>::empty());
    assert(word_bytes(seq![p]) =~= piece_bytes(p));
    assert(word_atoms(seq![p]) =~= piece_atoms(p));
}

/// The line is one command of one word, and that is the literal `t`.
pub open spec fn is_one_literal(line: Seq<char>, t: Seq<char>) -> bool {
    parsed(line) == Ok::<Option<StmtV>, ParseError>(
        Some(
            StmtV::Cmd(
                CommandV {
                    words: seq![
                        if t.len() == 0 {
                            Seq::<SegmentV>::empty()
                        } else {
                            seq![SegmentV::Literal(t)]
                        },
                    ],
                    redirects: Seq::<RedirectV>::empty(),
                },
            ),
        ),
    )
}

proof fn lemma_one_literal(line: Seq<char>, t: Seq<char>)
    requires
        is_one_word(tokens_from(encode_utf8(line), 0, Seq::empty()), char_atoms(t)),
    ensures
        is_one_literal(line, t),
{
    let toks = tokens_from(encode_utf8(line), 0, Seq::<TokV>::empty())->Ok_0;
    let w = toks[0]->Word_0;
    lemma_literal(w, t);
    let c = CommandV { words: seq![w], redirects: Seq::<RedirectV>::empty() };
    assert(no_command().words.push(w) =~= seq![w]);
    assert(command_from(toks, 1, c) == Ok::<(CommandV, int), ParseError>((c, 1)));
    assert(command_from(toks, 0, no_command()) == Ok::<(CommandV, int), ParseError>((c, 1)));
    let s = StmtV::Cmd(c);
    assert(pipeline_from(toks, 0) == Ok::<(StmtV, int), ParseError>((s, 1)));
    assert(chain_from(toks, 1, s) == Ok::<(StmtV, int), ParseError>((s, 1)));
    assert(rest_from(toks, 1, s) == Ok::<(StmtV, int), ParseError>((s, 1)));
}

// ---------- Texts between quotes --------------------------------------------

/// A text with a backslash in front of every `"`, `$`, backquote and backslash.
pub open spec fn guarded(t: Seq<char>) -> Seq<char>
    decreases t.len(),
{
    if t.len() == 0 {
        Seq::empty()
    } else {
        let c = t.last();
        guarded(t.drop_last()) + if c == '"' || c == '$' || c == '`' || c == '\\' {
            seq!['\\', c]
        } else {
            seq![c]
        }
    }
}

/// A text with a backslash in front of every character.
pub open spec fn escaped(t: Seq<char>) -> Seq<char>
    decreases t.len(),
{
    if t.len() == 0 {
        Seq::empty()
    } else {
        escaped(t.drop_last()) + seq!['\\', t.last()]
    }
}

spec fn guarded_inners(t: Seq<char>) -> Seq<InnerV>
    decreases t.len(),
{
    if t.len() == 0 {
        Seq::empty()
    } else {
        let c = t.last();
        guarded_inners(t.drop_last()).push(
            if c == '"' || c == '$' || c == '`' || c == '\\' {
                InnerV::Escaped(c as u8)
            } else {
                InnerV::Plain(c as u8)
            },
        )
    }
}

proof fn lemma_inners_push(ps: Seq<InnerV>, p: InnerV)
    ensures
        inners_bytes(ps.push(p)) == inners_bytes(ps) + inner_bytes(p),
        inners_atoms(ps.push(p)) == inners_atoms(ps) + inner_atoms(p),
    decreases ps.len(),
{
    let all = ps.push(p);
    if ps.len() == 0 {
        assert(all.drop_first() =~= ps);
        assert(inners_bytes(all) =~= inners_bytes(ps) + inner_bytes(p));
        assert(inners_atoms(all) =~= inners_atoms(ps) + inner_atoms(p));
    } else {
        assert(all.drop_first() =~= ps.drop_first().push(p));
        assert(all[0] == ps[0]);
        lemma_inners_push(ps.drop_first(), p);
        assert(inners_bytes(all) =~= inners_bytes(ps) + inner_bytes(p));
        assert(inners_atoms(all) =~= inners_atoms(ps) + inner_atoms(p));
    }
}

proof fn lemma_are_inners_push(ps: Seq<InnerV>, p: InnerV, rest: Seq<u8>)
    requires
        are_inners(ps, rest),
        forall|i: int| 0 <= i < ps.len() ==> !(#[trigger] ps[i] is Value),
        !(p is Value),
        p matches InnerV::Plain(b) ==> b != 34 && b != 36 && b != 92,
    ensures
        are_inners(ps.push(p), rest),
    decreases ps.len(),
{
    let all = ps.push(p);
    if ps.len() == 0 {
        assert(all.drop_first() =~= ps);
    } else {
        assert(all.drop_first() =~= ps.drop_first().push(p));
        assert(all[0] == ps[0]);
        assert forall|i: int| 0 <= i < ps.drop_first().len() implies !(#[trigger]
        ps.drop_first()[i] is Value) by {
            assert(ps.drop_first()[i] == ps[i + 1]);
        }
        lemma_are_inners_push(ps.drop_first(), p, rest);
    }
}

proof fn lemma_char_byte(c: char)
    requires
        c <= '\u{7f}',
    ensures
        (c as u8) as char == c,
        encode_utf8(seq![c]) == seq![c as u8],
        c == '"' <==> c as u8 == 34,
        c == '$' <==> c as u8 == 36,
        c == '`' <==> c as u8 == 96,
        c == '\\' <==> c as u8 == 92,
{
    let one = seq![c];
    assert(is_ascii_chars(one));
    is_ascii_chars_encode_utf8(one);
    assert(one[0] as u8 == encode_utf8(one)[0]);
    assert(encode_utf8(one) =~= seq![c as u8]);
}

proof fn lemma_guarded(t: Seq<char>)
    requires
        is_ascii_chars(t),
    ensures
        encode_utf8(guarded(t)) == inners_bytes(guarded_inners(t)),
        inners_atoms(guarded_inners(t)) == char_atoms(t),
        are_inners(guarded_inners(t), seq![34u8]),
        forall|i: int|
            0 <= i < guarded_inners(t).len() ==> !(#[trigger] guarded_inners(t)[i] is Value),
    decreases t.len(),
{
    if t.len() == 0 {
        assert(encode_utf8(guarded(t)) =~= Seq::<u8>::empty());
        assert(inners_atoms(guarded_inners(t)) =~= char_atoms(t));
    } else {
        let p = t.drop_last();
        let c = t.last();
        assert(t[t.len() - 1] == c);
        assert(is_ascii_chars(p)) by {
            assert forall|i: int| 0 <= i < p.len() implies '\0' <= #[trigger] p[i] <= '\u{7f}' by {
                assert(p[i] == t[i]);
            }
        }
        lemma_guarded(p);
        lemma_char_byte(c);
        lemma_char_byte('\\');
        let special = c == '"' || c == '$' || c == '`' || c == '\\';
        let inner = if special {
            InnerV::Escaped(c as u8)
        } else {
            InnerV::Plain(c as u8)
        };
        lemma_inners_push(guarded_inners(p), inner);
        lemma_are_inners_push(guarded_inners(p), inner, seq![34u8]);
        if special {
            lemma_bytes_of_both(guarded(p), seq!['\\', c]);
            lemma_bytes_of_both(seq!['\\'], seq![c]);
            assert(seq!['\\'] + seq![c] =~= seq!['\\', c]);
            assert(encode_utf8(seq!['\\', c]) =~= inner_bytes(inner));
        } else {
            lemma_bytes_of_both(guarded(p), seq![c]);
        }
        lemma_chars(p, c);
        assert(p.push(c) =~= t);
        assert(inner_atoms(inner) =~= seq![AtomV::Char(c)]);
        assert(inners_atoms(guarded_inners(t)) =~= char_atoms(t));
    }
}

/// Between double quotes a backslash takes the meaning from `"`, `$`, a backquote and a backslash:
/// any ASCII text that is written so is read as itself, as one literal.
pub proof fn law_double_quotes_give_the_text(t: Seq<char>)
    requires
        is_ascii_chars(t),
    ensures
        is_one_literal(seq!['"'] + guarded(t) + seq!['"'], t),
{
    let line = seq!['"'] + guarded(t) + seq!['"'];
    lemma_guarded(t);
    lemma_char_byte('"');
    lemma_bytes_of_both(seq!['"'] + guarded(t), seq!['"']);
    lemma_bytes_of_both(seq!['"'], guarded(t));
    let p = PieceV::Double(guarded_inners(t));
    let ps = seq![p];
    lemma_one_piece(p);
    assert(word_bytes(ps) =~= encode_utf8(line));
    law_words_are_read_as_written(ps);
    lemma_one_literal(line, t);
}

spec fn escaped_pieces(t: Seq<char>) -> Seq<PieceV>
    decreases t.len(),
{
    if t.len() == 0 {
        Seq::empty()
    } else {
        seq![PieceV::Escaped(t[0] as u8)] + escaped_pieces(t.drop_first())
    }
}

/// `escaped`, from the front.
proof fn lemma_escaped_front(t: Seq<char>)
    requires
        t.len() > 0,
    ensures
        escaped(t) == seq!['\\', t[0]] + escaped(t.drop_first()),
    decreases t.len(),
{
    if t.len() == 1 {
        assert(t.drop_last() =~= Seq::<char>::empty());
        assert(t.drop_first() =~= Seq::<char>::empty());
        assert(escaped(t) =~= seq!['\\', t[0]] + escaped(t.drop_first()));
    } else {
        let p = t.drop_last();
        lemma_escaped_front(p);
        assert(p.drop_first() =~= t.drop_first().drop_last());
        assert(t.drop_first().last() == t.last());
        assert(escaped(t) =~= seq!['\\', t[0]] + escaped(t.drop_first()));
    }
}

proof fn lemma_char_atoms_front(t: Seq<char>, c: char)
    requires
        t.len() > 0,
        t[0] == c,
    ensures
        char_atoms(t) == seq![AtomV::Char(c)] + char_atoms(t.drop_first()),
{
    let r = t.drop_first();
    let y = seq![AtomV::Char(c)] + char_atoms(r);
    lemma_char_atoms(t);
    lemma_char_atoms(r);
    assert forall|i: int| 0 <= i < t.len() implies char_atoms(t)[i] == y[i] by {
        assert(char_atoms(t)[i] is Char && char_atoms(t)[i]->Char_0 == t[i]);
        if i > 0 {
            assert(y[i] == char_atoms(r)[i - 1]);
            assert(char_atoms(r)[i - 1] is Char && char_atoms(r)[i - 1]->Char_0 == r[i - 1]);
        } else {
            assert(y[0] == AtomV::Char(c));
        }
    }
    assert(char_atoms(t) =~= y);
}

proof fn lemma_escaped(t: Seq<char>)
    requires
        is_ascii_chars(t),
    ensures
        encode_utf8(escaped(t)) == word_bytes(escaped_pieces(t)),
        word_atoms(escaped_pieces(t)) == char_atoms(t),
        are_pieces(escaped_pieces(t), Seq::empty()),
        escaped_pieces(t).len() == t.len(),
    decreases t.len(),
{
    if t.len() == 0 {
        assert(encode_utf8(escaped(t)) =~= Seq::<u8>::empty());
        assert(word_atoms(escaped_pieces(t)) =~= char_atoms(t));
    } else {
        let rest = t.drop_first();
        let c = t[0];
        assert(is_ascii_chars(rest)) by {
            assert forall|i: int| 0 <= i < rest.len() implies '\0' <= #[trigger] rest[i]
                <= '\u{7f}' by {
                assert(rest[i] == t[i + 1]);
            }
        }
        assert(t[0] <= '\u{7f}');
        lemma_escaped(rest);
        lemma_char_byte(c);
        lemma_char_byte('\\');
        lemma_escaped_front(t);
        lemma_char_atoms_front(t, c);
        lemma_bytes_of_both(seq!['\\', c], escaped(rest));
        lemma_bytes_of_both(seq!['\\'], seq![c]);
        assert(seq!['\\'] + seq![c] =~= seq!['\\', c]);
        let ps = escaped_pieces(t);
        assert(ps.drop_first() =~= escaped_pieces(rest));
        assert(ps[0] == PieceV::Escaped(c as u8));
        assert(encode_utf8(seq!['\\', c]) =~= piece_bytes(ps[0]));
        assert(word_atoms(ps) =~= char_atoms(t));
    }
}

/// Outside quotes a backslash takes the meaning from every character: any ASCII text with a
/// backslash in front of each character is read as itself, as one literal.
pub proof fn law_backslashes_give_the_text(t: Seq<char>)
    requires
        is_ascii_chars(t),
        t.len() > 0,
    ensures
        is_one_literal(escaped(t), t),
{
    lemma_escaped(t);
    law_words_are_read_as_written(escaped_pieces(t));
    lemma_one_literal(escaped(t), t);
}

/// Between single quotes every character but a single quote stands for itself: any ASCII text
/// without one is read as itself, as one literal.
pub proof fn law_single_quotes_give_the_text(t: Seq<char>)
    requires
        is_ascii_chars(t),
        !t.contains('\''),
    ensures
        is_one_literal(seq!['\''] + t + seq!['\''], t),
{
    let line = seq!['\''] + t + seq!['\''];
    let b = encode_utf8(t);
    is_ascii_chars_encode_utf8(t);
    is_ascii_chars_encode_utf8(seq!['\'']);
    assert(encode_utf8(seq!['\'']) =~= seq![39u8]);
    lemma_bytes_of_both(seq!['\''] + t, seq!['\'']);
    lemma_bytes_of_both(seq!['\''], t);
    lemma_absent(t, '\'');
    let ps = seq![PieceV::Single(b)];
    lemma_one_piece(ps[0]);
    assert(word_bytes(ps) =~= encode_utf8(line));
    lemma_char_atoms(t);
    assert(word_atoms(ps) =~= char_atoms(t)) by {
        let l = word_atoms(ps);
        assert forall|i: int| 0 <= i < t.len() implies l[i] == char_atoms(t)[i] by {
            assert(t[i] as u8 == b[i]);
            assert(t[i] <= '\u{7f}');
            lemma_char_byte(t[i]);
            assert(char_atoms(t)[i]->Char_0 == t[i]);
        }
    }
    law_words_are_read_as_written(ps);
    lemma_one_literal(line, t);
}

} // verus!
