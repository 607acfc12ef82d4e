//! How a line falls into tokens: at blanks, at new lines, and at operators.

use vstd::prelude::*;
use vstd::utf8::*;

use crate::joins::{
    law_redirections_stand_anywhere, line_tokens, piece_redirects, piece_tokens, piece_words,
    PieceV,
};
use crate::parse::{
    brace_end, command_from, digits_end, dollar, no_command, paren_end, statement, token_at,
    token_start, tokens_from, word_from, CommandV, ParseError, Quote, RedirOp, RedirectV, SegmentV,
    StmtV, TokV, WordV,
};
use crate::splice::{
    lemma_absent, lemma_at_start, lemma_bytes_of_both, lemma_other_end, lemma_start_moves,
    lemma_tokens_gather, lemma_tokens_move, lemma_tokens_stay,
};
use crate::text::{digits_value, is_digit};

verus! {

proof fn lemma_blank_between(a: Seq<char>, b: Seq<char>, c: char)
    requires
        c == ' ' || c == '\t' || c == '\n',
        a.len() > 0 ==> a.last() != '\\',
        c == '\n' || !a.contains('#'),
        line_tokens(a) is Ok,
    ensures
        line_tokens(a + seq![c] + b) == match line_tokens(b) {
            Ok(t) => Ok(line_tokens(a)->Ok_0 + t),
            Err(e) => Err(e),
        },
{
    let (x, y) = (encode_utf8(a), encode_utf8(b));
    let none = Seq::<TokV>::empty();
    let ta = line_tokens(a)->Ok_0;
    is_ascii_chars_encode_utf8(seq![c]);
    let o = seq![c as u8];
    assert(encode_utf8(seq![c]) =~= o);
    lemma_bytes_of_both(a + seq![c], b);
    lemma_bytes_of_both(a, seq![c]);
    lemma_other_end(a, '\\');
    if !a.contains('#') {
        lemma_absent(a, '#');
    }
    let u = o + y;
    assert(x + o + y =~= x + u);
    assert(u[0] == c as u8);
    let open = lemma_tokens_stay(x, u, 0, none);
    let n = x.len() as int;
    lemma_start_moves(x, u, 0, open);
    assert(token_start(u, 0, open) == token_start(u, 1, false));
    lemma_start_moves(o, y, 0, false);
    assert(o + y =~= u);
    lemma_at_start(y, 0, false, ta);
    crate::parse::lemma_token_start(y, 0, false);
    let j = token_start(y, 0, false);
    let p = x + o;
    assert(p + y =~= x + u);
    lemma_tokens_move(p, y, j, ta);
    assert(token_start(x + u, n, open) == p.len() + j);
    lemma_tokens_gather(y, 0, ta, none);
    assert(ta + none =~= ta);
}

/// A space or a tab between two lines, the first without a comment, puts the tokens of the one in
/// front of those of the other; so does a new line, even where the first ends in a comment.
pub proof fn law_blanks_come_between_tokens(a: Seq<char>, b: Seq<char>, c: char)
    requires
        c == ' ' || c == '\t' || c == '\n',
        a.len() > 0 ==> a.last() != '\\',
        c == '\n' || !a.contains('#'),
        line_tokens(a) is Ok,
        line_tokens(b) is Ok,
    ensures
        line_tokens(a + seq![c] + b) == Ok::<Seq<TokV>, ParseError>(
            line_tokens(a)->Ok_0 + line_tokens(b)->Ok_0,
        ),
{
    lemma_blank_between(a, b, c);
}

proof fn lemma_in_front(o: Seq<u8>, y: Seq<u8>, t: TokV)
    requires
        o.len() > 0,
        token_start(o + y, 0, false) == 0,
        token_at(o + y, 0) == Ok::<(TokV, int), ParseError>((t, o.len() as int)),
        tokens_from(y, 0, Seq::empty()) is Ok,
    ensures
        tokens_from(o + y, 0, Seq::empty()) == Ok::<Seq<TokV>, ParseError>(
            seq![t] + tokens_from(y, 0, Seq::empty())->Ok_0,
        ),
{
    let none = Seq::<TokV>::empty();
    let one = none.push(t);
    lemma_tokens_move(o, y, 0, one);
    lemma_tokens_gather(y, 0, one, none);
    assert(one + none =~= one);
    assert(one =~= seq![t]);
}

/// What an operator is written as, and the token that it is.
pub open spec fn is_operator_text(op: Seq<char>, t: TokV) -> bool {
    match t {
        TokV::Pipe => op == seq!['|'],
        TokV::OrIf => op == seq!['|', '|'],
        TokV::AndIf => op == seq!['&', '&'],
        TokV::Semi => op == seq![';'],
        TokV::Redir(None, RedirOp::In) => op == seq!['<'],
        TokV::Redir(None, RedirOp::Out) => op == seq!['>'],
        TokV::Redir(None, RedirOp::Append) => op == seq!['>', '>'],
        _ => false,
    }
}

/// An operator in front of a line is read as itself, with no blank needed behind it, unless it
/// would make a longer operator with what follows.
pub proof fn law_operators_are_read(op: Seq<char>, t: TokV, b: Seq<char>)
    requires
        is_operator_text(op, t),
        line_tokens(b) is Ok,
        t is Pipe ==> b.len() > 0 ==> b[0] != '|',
        t == TokV::Redir(None, RedirOp::Out) ==> b.len() > 0 ==> b[0] != '>',
    ensures
        line_tokens(op + b) == Ok::<Seq<TokV>, ParseError>(seq![t] + line_tokens(b)->Ok_0),
{
    let (o, y) = (encode_utf8(op), encode_utf8(b));
    assert(is_ascii_chars(op));
    is_ascii_chars_encode_utf8(op);
    lemma_bytes_of_both(op, b);
    let s = o + y;
    assert(op[0] as u8 == o[0]);
    assert(s[0] == o[0]);
    if op.len() == 2 {
        assert(op[1] as u8 == o[1]);
        assert(s[1] == o[1]);
    }
    if b.len() > 0 {
        lemma_first_byte(b, '|');
        lemma_first_byte(b, '>');
        assert(op.len() == 1 ==> s[1] == y[0]);
    } else {
        assert(y =~= Seq::<u8>::empty());
    }
    assert(token_start(s, 0, false) == 0);
    assert(token_at(s, 0) == Ok::<(TokV, int), ParseError>((t, o.len() as int)));
    lemma_in_front(o, y, t);
}

proof fn lemma_first_byte(b: Seq<char>, c: char)
    requires
        b.len() > 0,
        (c as u32) < 128,
    ensures
        encode_utf8(b).len() > 0,
        encode_utf8(b)[0] == c as u8 ==> b[0] == c,
{
    let first = seq![b[0]];
    assert(b =~= first + b.drop_first());
    lemma_bytes_of_both(first, b.drop_first());
    encode_utf8_first_scalar(first);
    if b[0] != c {
        assert(!first.contains(c));
        lemma_absent(first, c);
    }
    assert(encode_utf8(first).len() > 0);
    assert(encode_utf8(b)[0] == encode_utf8(first)[0]);
}

/// A redirection with a number in front of it speaks of that descriptor.
pub proof fn law_numbers_in_front_of_redirections(
    digits: Seq<u8>,
    op: Seq<u8>,
    t: RedirOp,
    b: Seq<u8>,
)
    requires
        digits.len() > 0,
        forall|i: int| 0 <= i < digits.len() ==> 48 <= #[trigger] digits[i] <= 57,
        digits_value(digits) <= i32::MAX,
        match t {
            RedirOp::In => op == seq![60u8],
            RedirOp::Out => op == seq![62u8] && (b.len() > 0 ==> b[0] != 62),
            RedirOp::Append => op == seq![62u8, 62u8],
        },
        tokens_from(b, 0, Seq::empty()) is Ok,
    ensures
        tokens_from(digits + op + b, 0, Seq::empty()) == Ok::<Seq<TokV>, ParseError>(
            seq![TokV::Redir(Some(digits_value(digits) as i32), t)]
                + tokens_from(b, 0, Seq::empty())->Ok_0,
        ),
{
    let o = digits + op;
    let s = o + b;
    let n = digits.len() as int;
    lemma_digits_run(digits, op + b, 0);
    assert(digits + (op + b) =~= s);
    assert(48 <= digits[0] <= 57);
    assert(s[0] == digits[0]);
    assert(s[n] == op[0]);
    if op.len() == 2 {
        assert(s[n + 1] == op[1]);
    } else if b.len() > 0 {
        assert(s[n + 1] == b[0]);
    }
    assert(s.subrange(0, n) =~= digits);
    assert(token_start(s, 0, false) == 0);
    let tok = TokV::Redir(Some(digits_value(digits) as i32), t);
    assert(token_at(s, 0) == Ok::<(TokV, int), ParseError>((tok, o.len() as int)));
    lemma_in_front(o, b, tok);
}

proof fn lemma_digits_run(d: Seq<u8>, rest: Seq<u8>, i: int)
    requires
        0 <= i <= d.len(),
        forall|k: int| 0 <= k < d.len() ==> 48 <= #[trigger] d[k] <= 57,
        rest.len() > 0,
        rest[0] == 60 || rest[0] == 62,
    ensures
        digits_end(d + rest, i) == d.len(),
    decreases d.len() - i,
{
    let s = d + rest;
    if i < d.len() {
        assert(s[i] == d[i]);
        assert(is_digit(d[i]));
        lemma_digits_run(d, rest, i + 1);
    } else {
        assert(s[i] == rest[0]);
    }
}

/// A redirection without a number speaks of stdin where it reads and of stdout where it writes.
pub proof fn law_redirections_have_a_default(op: RedirOp, w: WordV, target: WordV)
    ensures
        statement(seq![TokV::Word(w), TokV::Redir(None, op), TokV::Word(target)]) == Ok::<
            Option<StmtV>,
            ParseError,
        >(
            Some(
                StmtV::Cmd(
                    CommandV {
                        words: seq![w],
                        redirects: seq![
                            RedirectV {
                                fd: match op {
                                    RedirOp::In => 0,
                                    RedirOp::Out => 1,
                                    RedirOp::Append => 1,
                                },
                                op,
                                target,
                            },
                        ],
                    },
                ),
            ),
        ),
{
    let ps = seq![PieceV::Word(w), PieceV::Redirect(None, op, target)];
    let none = Seq::<PieceV>::empty();
    let tail = seq![PieceV::Redirect(None, op, target)];
    assert(ps.drop_first() =~= tail);
    assert(tail.drop_first() =~= none);
    assert(piece_tokens(none).len() == 0 && piece_words(none).len() == 0 && piece_redirects(
        none,
    ).len() == 0);
    assert(piece_tokens(tail) =~= seq![TokV::Redir(None, op), TokV::Word(target)]);
    assert(piece_tokens(ps) =~= seq![TokV::Word(w), TokV::Redir(None, op), TokV::Word(target)]);
    let r = RedirectV {
        fd: match op {
            RedirOp::In => 0,
            RedirOp::Out => 1,
            RedirOp::Append => 1,
        },
        op,
        target,
    };
    assert(piece_words(tail) =~= Seq::<WordV>::empty());
    assert(piece_words(ps) =~= seq![w]);
    assert(piece_redirects(tail) =~= seq![r]);
    assert(piece_redirects(ps) =~= seq![r]);
    law_redirections_stand_anywhere(ps, ps);
}

// ---------- What cannot be read ---------------------------------------------

proof fn lemma_unclosed(s: Seq<u8>, i: int, w: WordV)
    requires
        0 <= i <= s.len(),
        forall|k: int| i <= k < s.len() ==> s[k] != 39,
    ensures
        word_from(s, i, Quote::Single, w) == Err::<(WordV, int), ParseError>(
            ParseError::SingleQuote,
        ),
    decreases s.len() - i,
{
    if i < s.len() {
        lemma_unclosed(s, i + 1, crate::parse::put(w, s[i]));
    }
}

/// A quote that is not closed is an error, and so are a lone `&` and a `$` in front of something
/// that is no name.
pub proof fn law_what_cannot_be_read(t: Seq<u8>)
    ensures
        (forall|i: int| 0 <= i < t.len() ==> t[i] != 39) ==> tokens_from(
            seq![39u8] + t,
            0,
            Seq::empty(),
        ) == Err::<Seq<TokV>, ParseError>(ParseError::SingleQuote),
        (t.len() > 0 ==> t[0] != 38) ==> tokens_from(seq![38u8] + t, 0, Seq::empty()) == Err::<
            Seq<TokV>,
            ParseError,
        >(ParseError::Background),
        (t.len() > 0 ==> t[0] != 123 && t[0] != 40 && t[0] != 63 && t[0] != 95 && !(65 <= t[0]
            <= 90) && !(97 <= t[0] <= 122)) ==> tokens_from(seq![36u8] + t, 0, Seq::empty())
            == Err::<Seq<TokV>, ParseError>(ParseError::Dollar),
{
    let none = Seq::<SegmentV>::empty();
    let s = seq![39u8] + t;
    assert(s[0] == 39);
    assert(token_start(s, 0, false) == 0);
    if forall|i: int| 0 <= i < t.len() ==> t[i] != 39 {
        assert forall|k: int| 1 <= k < s.len() implies s[k] != 39 by {
            assert(s[k] == t[k - 1]);
        }
        lemma_unclosed(s, 1, none);
        assert(word_from(s, 0, Quote::Bare, none) == word_from(s, 1, Quote::Single, none));
    }
    let s = seq![38u8] + t;
    assert(s[0] == 38);
    assert(token_start(s, 0, false) == 0);
    if t.len() > 0 {
        assert(s[1] == t[0]);
    }
    let s = seq![36u8] + t;
    assert(s[0] == 36);
    assert(token_start(s, 0, false) == 0);
    if t.len() > 0 {
        assert(s[1] == t[0]);
    }
}

proof fn lemma_open_double(s: Seq<u8>, i: int, w: WordV)
    requires
        0 <= i <= s.len(),
        forall|k: int| i <= k < s.len() ==> s[k] != 34 && s[k] != 36 && s[k] != 92,
    ensures
        word_from(s, i, Quote::Double, w) == Err::<(WordV, int), ParseError>(
            ParseError::DoubleQuote,
        ),
    decreases s.len() - i,
{
    if i < s.len() {
        lemma_open_double(s, i + 1, crate::parse::put(w, s[i]));
    }
}

proof fn lemma_no_brace(s: Seq<u8>, i: int)
    requires
        0 <= i <= s.len(),
        forall|k: int| i <= k < s.len() ==> s[k] != 125,
    ensures
        brace_end(s, i) == s.len(),
    decreases s.len() - i,
{
    if i < s.len() {
        lemma_no_brace(s, i + 1);
    }
}

proof fn lemma_no_paren(s: Seq<u8>, i: int, depth: nat)
    requires
        0 <= i <= s.len(),
        forall|k: int| i <= k < s.len() ==> s[k] != 41,
    ensures
        paren_end(s, i, depth) == s.len(),
    decreases s.len() - i,
{
    if i < s.len() {
        lemma_no_paren(
            s,
            i + 1,
            if s[i] == 40 {
                depth + 1
            } else {
                depth
            },
        );
    }
}

/// Double quotes, braces and parentheses that are not closed are errors, each its own, and so is a
/// brace with nothing in it.
pub proof fn law_what_is_not_closed_is_an_error(t: Seq<u8>)
    ensures
        (forall|i: int| 0 <= i < t.len() ==> t[i] != 34 && t[i] != 36 && t[i] != 92)
            ==> tokens_from(seq![34u8] + t, 0, Seq::empty()) == Err::<Seq<TokV>, ParseError>(
            ParseError::DoubleQuote,
        ),
        (forall|i: int| 0 <= i < t.len() ==> t[i] != 125) ==> tokens_from(
            seq![36u8, 123] + t,
            0,
            Seq::empty(),
        ) == Err::<Seq<TokV>, ParseError>(ParseError::Brace),
        (forall|i: int| 0 <= i < t.len() ==> t[i] != 41) ==> tokens_from(
            seq![36u8, 40] + t,
            0,
            Seq::empty(),
        ) == Err::<Seq<TokV>, ParseError>(ParseError::Paren),
        tokens_from(seq![36u8, 123, 125] + t, 0, Seq::empty()) == Err::<Seq<TokV>, ParseError>(
            ParseError::EmptyName,
        ),
{
    let none = Seq::<SegmentV>::empty();
    let s = seq![34u8] + t;
    assert(s[0] == 34);
    assert(token_start(s, 0, false) == 0);
    if forall|i: int| 0 <= i < t.len() ==> t[i] != 34 && t[i] != 36 && t[i] != 92 {
        assert forall|k: int| 1 <= k < s.len() implies s[k] != 34 && s[k] != 36 && s[k] != 92 by {
            assert(s[k] == t[k - 1]);
        }
        lemma_open_double(s, 1, none);
        assert(word_from(s, 0, Quote::Bare, none) == word_from(s, 1, Quote::Double, none));
    }
    let s = seq![36u8, 123] + t;
    assert(s[0] == 36 && s[1] == 123);
    assert(token_start(s, 0, false) == 0);
    if forall|i: int| 0 <= i < t.len() ==> t[i] != 125 {
        assert forall|k: int| 2 <= k < s.len() implies s[k] != 125 by {
            assert(s[k] == t[k - 2]);
        }
        lemma_no_brace(s, 2);
        assert(dollar(s, 0) is Err);
    }
    let s = seq![36u8, 40] + t;
    assert(s[0] == 36 && s[1] == 40);
    assert(token_start(s, 0, false) == 0);
    if forall|i: int| 0 <= i < t.len() ==> t[i] != 41 {
        assert forall|k: int| 2 <= k < s.len() implies s[k] != 41 by {
            assert(s[k] == t[k - 2]);
        }
        lemma_no_paren(s, 2, 1);
        assert(dollar(s, 0) is Err);
    }
    let s = seq![36u8, 123, 125] + t;
    assert(s[0] == 36 && s[1] == 123 && s[2] == 125);
    assert(token_start(s, 0, false) == 0);
    assert(brace_end(s, 2) == 2);
    let e = Seq::<u8>::empty();
    assert(s.subrange(2, 2) =~= e);
    assert(valid_utf8(e));
    assert(dollar(s, 0) is Err);
}

/// What stands where a command should, and is none, is an error: an operator at the start, behind
/// another, or at the end of a chain or a pipeline.
pub proof fn law_what_is_no_command_is_an_error(w: WordV, op: TokV, next: TokV, more: Seq<TokV>)
    requires
        op is Pipe || op is AndIf || op is OrIf || op is Semi,
        next is Pipe || next is AndIf || next is OrIf || next is Semi,
    ensures
        statement(seq![op] + more) == Err::<Option<StmtV>, ParseError>(ParseError::EmptyCommand),
        statement(seq![TokV::Word(w), op, next] + more) == Err::<Option<StmtV>, ParseError>(
            ParseError::EmptyCommand,
        ),
        !(op is Semi) ==> statement(seq![TokV::Word(w), op]) == Err::<Option<StmtV>, ParseError>(
            ParseError::EmptyCommand,
        ),
        op is Semi ==> statement(seq![TokV::Word(w), op]) == statement(seq![TokV::Word(w)]),
{
    let a = seq![op] + more;
    assert(a[0] == op);
    assert(command_from(a, 0, no_command()) is Err);
    lemma_one_word(seq![TokV::Word(w), op, next] + more, w);
    let b = seq![TokV::Word(w), op, next] + more;
    assert(b[1] == op && b[2] == next);
    assert(command_from(b, 2, no_command()) == Err::<(CommandV, int), ParseError>(
        ParseError::EmptyCommand,
    ));
    let c = seq![TokV::Word(w), op];
    lemma_one_word(c, w);
    assert(c[1] == op);
    assert(command_from(c, 2, no_command()) == Err::<(CommandV, int), ParseError>(
        ParseError::EmptyCommand,
    ));
    let d = seq![TokV::Word(w)];
    let one = CommandV { words: no_command().words.push(w), redirects: no_command().redirects };
    assert(command_from(d, 1, one) == Ok::<(CommandV, int), ParseError>((one, 1)));
    assert(command_from(d, 0, no_command()) == Ok::<(CommandV, int), ParseError>((one, 1)));
}

proof fn lemma_one_word(t: Seq<TokV>, w: WordV)
    requires
        t.len() >= 2,
        t[0] == TokV::Word(w),
        t[1] is Pipe || t[1] is AndIf || t[1] is OrIf || t[1] is Semi,
    ensures
        command_from(t, 0, no_command()) == Ok::<(CommandV, int), ParseError>(
            (
                CommandV { words: no_command().words.push(w), redirects: no_command().redirects },
                1,
            ),
        ),
{
    let one = CommandV { words: no_command().words.push(w), redirects: no_command().redirects };
    assert(one.words.len() == 1);
    assert(command_from(t, 1, one) == Ok::<(CommandV, int), ParseError>((one, 1)));
}

/// A redirection needs a file: where an operator, another redirection or nothing follows it, that
/// is an error, which names the redirection where it has no number.
pub proof fn law_redirections_need_a_file(
    w: WordV,
    fd: Option<i32>,
    op: RedirOp,
    next: TokV,
    more: Seq<TokV>,
)
    requires
        !(next is Word),
    ensures
        ({
            let e = ParseError::Target(
                if fd is Some {
                    None
                } else {
                    Some(op)
                },
            );
            &&& statement(seq![TokV::Word(w), TokV::Redir(fd, op)]) == Err::<
                Option<StmtV>,
                ParseError,
            >(e)
            &&& statement(seq![TokV::Word(w), TokV::Redir(fd, op), next] + more) == Err::<
                Option<StmtV>,
                ParseError,
            >(e)
        }),
{
    let one = CommandV { words: no_command().words.push(w), redirects: no_command().redirects };
    let a = seq![TokV::Word(w), TokV::Redir(fd, op)];
    assert(a[0] == TokV::Word(w) && a[1] == TokV::Redir(fd, op));
    assert(command_from(a, 1, one) is Err);
    let b = seq![TokV::Word(w), TokV::Redir(fd, op), next] + more;
    assert(b[0] == TokV::Word(w) && b[1] == TokV::Redir(fd, op) && b[2] == next);
    assert(command_from(b, 1, one) is Err);
}

} // verus!
