//! What holds of lines that are put together: with an operator between them, or with a comment
//! behind.

use vstd::prelude::*;
use vstd::utf8::*;

use crate::eval::{is_pure_builtin, is_pure_line};
use crate::grammar::lemma_in_comment;
use crate::parse::{
    and_or_from, chain_from, command_from, default_fd, lemma_and_or_from, lemma_command_from,
    lemma_pipeline_from, no_command, parsed, pipeline_from, pipes_from, rest_from, statement,
    token_at, token_start, tokens_from, CommandV, ParseError, RedirOp, RedirectV, StmtV, TokV,
    WordV,
};
use crate::splice::{
    lemma_absent, lemma_at_start, lemma_bytes_of_both, lemma_no_semicolons, lemma_other_end, lemma_start_moves,
    lemma_tokens_gather, lemma_tokens_move, lemma_tokens_stay, moved, splits, stops,
};

verus! {

// ---------- Tokens in front of an operator ----------------------------------

/// `v` starts with an operator that ends a pipeline.
spec fn ends_pipeline(v: Seq<TokV>) -> bool {
    v.len() > 0 && (v[0] is AndIf || v[0] is OrIf || v[0] is Semi)
}

proof fn lemma_command_stays(t: Seq<TokV>, v: Seq<TokV>, i: int, c: CommandV)
    requires
        ends_pipeline(v),
        0 <= i <= t.len(),
        command_from(t, i, c) is Ok,
    ensures
        command_from(t + v, i, c) == command_from(t, i, c),
    decreases t.len() - i,
{
    let s = t + v;
    if i == t.len() {
        assert(s[i] == v[0]);
    } else {
        assert(s[i] == t[i]);
        match t[i] {
            TokV::Word(w) => {
                lemma_command_stays(
                    t,
                    v,
                    i + 1,
                    CommandV { words: c.words.push(w), redirects: c.redirects },
                );
            },
            TokV::Redir(fd, op) => {
                assert(i + 1 < t.len() && t[i + 1] is Word);
                assert(s[i + 1] == t[i + 1]);
                let n = match fd {
                    Some(n) => n,
                    None => default_fd(op),
                };
                let r = RedirectV { fd: n, op, target: t[i + 1]->Word_0 };
                lemma_command_stays(
                    t,
                    v,
                    i + 2,
                    CommandV { words: c.words, redirects: c.redirects.push(r) },
                );
            },
            _ => {},
        }
    }
}

proof fn lemma_pipes_stay(t: Seq<TokV>, v: Seq<TokV>, i: int, cs: Seq<CommandV>)
    requires
        ends_pipeline(v),
        0 <= i <= t.len(),
        pipes_from(t, i, cs) is Ok,
    ensures
        pipes_from(t + v, i, cs) == pipes_from(t, i, cs),
    decreases t.len() - i,
{
    let s = t + v;
    if i == t.len() {
        assert(s[i] == v[0]);
    } else {
        assert(s[i] == t[i]);
        if t[i] is Pipe {
            lemma_command_from(t, i + 1, no_command());
            lemma_command_stays(t, v, i + 1, no_command());
            let (c, j) = command_from(t, i + 1, no_command())->Ok_0;
            lemma_pipes_stay(t, v, j, cs.push(c));
        }
    }
}

proof fn lemma_pipeline_stays(t: Seq<TokV>, v: Seq<TokV>, i: int)
    requires
        ends_pipeline(v),
        0 <= i <= t.len(),
        pipeline_from(t, i) is Ok,
    ensures
        pipeline_from(t + v, i) == pipeline_from(t, i),
{
    let s = t + v;
    lemma_command_stays(t, v, i, no_command());
    lemma_command_from(t, i, no_command());
    let (c, j) = command_from(t, i, no_command())->Ok_0;
    if j < t.len() {
        assert(s[j] == t[j]);
        if t[j] is Pipe {
            lemma_pipes_stay(t, v, j, seq![c]);
        }
    } else {
        assert(s[j] == v[0]);
    }
}

/// A chain that takes all of `t` is read with more behind it, and goes on there.
proof fn lemma_chain_stays(t: Seq<TokV>, v: Seq<TokV>, i: int, left: StmtV)
    requires
        ends_pipeline(v),
        0 <= i <= t.len(),
        chain_from(t, i, left) matches Ok((_, j)) && j == t.len(),
    ensures
        chain_from(t + v, i, left) == chain_from(
            t + v,
            t.len() as int,
            chain_from(t, i, left)->Ok_0.0,
        ),
    decreases t.len() - i,
{
    if i < t.len() {
        assert((t + v)[i] == t[i]);
        lemma_pipeline_from(t, i + 1);
        lemma_pipeline_stays(t, v, i + 1);
        let (right, j) = pipeline_from(t, i + 1)->Ok_0;
        let l = if t[i] is AndIf {
            StmtV::AndIf(Box::new(left), Box::new(right))
        } else {
            StmtV::OrIf(Box::new(left), Box::new(right))
        };
        lemma_chain_stays(t, v, j, l);
    }
}

/// A statement without `;` is a chain, and is read with more behind it as without.
proof fn lemma_statement_stays(t: Seq<TokV>, v: Seq<TokV>)
    requires
        ends_pipeline(v),
        statement(t) matches Ok(Some(_)),
        forall|k: int| 0 <= k < t.len() ==> !(#[trigger] t[k] is Semi),
    ensures
        and_or_from(t + v, 0) == chain_from(t + v, t.len() as int, statement(t)->Ok_0->0),
{
    lemma_pipeline_from(t, 0);
    lemma_and_or_from(t, 0);
    let (a, n) = and_or_from(t, 0)->Ok_0;
    if n < t.len() {
        assert(!(t[n] is Semi));
    }
    assert(rest_from(t, n, a) == Ok::<(StmtV, int), ParseError>((a, n)));
    assert(n == t.len());
    let (left, j) = pipeline_from(t, 0)->Ok_0;
    lemma_pipeline_stays(t, v, 0);
    lemma_chain_stays(t, v, j, left);
}

// ---------- Tokens behind an operator ---------------------------------------

proof fn lemma_command_moves(p: Seq<TokV>, t: Seq<TokV>, i: int, c: CommandV)
    requires
        0 <= i <= t.len(),
    ensures
        command_from(p + t, p.len() + i, c) == moved(command_from(t, i, c), p.len() as int),
    decreases t.len() - i,
{
    if i < t.len() {
        let s = p + t;
        assert(s[p.len() + i] == t[i]);
        match t[i] {
            TokV::Word(w) => {
                lemma_command_moves(
                    p,
                    t,
                    i + 1,
                    CommandV { words: c.words.push(w), redirects: c.redirects },
                );
            },
            TokV::Redir(fd, op) => {
                if i + 1 < t.len() {
                    assert(s[p.len() + i + 1] == t[i + 1]);
                    if t[i + 1] is Word {
                        let n = match fd {
                            Some(n) => n,
                            None => default_fd(op),
                        };
                        let r = RedirectV { fd: n, op, target: t[i + 1]->Word_0 };
                        lemma_command_moves(
                            p,
                            t,
                            i + 2,
                            CommandV { words: c.words, redirects: c.redirects.push(r) },
                        );
                    }
                }
            },
            _ => {},
        }
    }
}

proof fn lemma_pipes_move(p: Seq<TokV>, t: Seq<TokV>, i: int, cs: Seq<CommandV>)
    requires
        0 <= i <= t.len(),
    ensures
        pipes_from(p + t, p.len() + i, cs) == moved(pipes_from(t, i, cs), p.len() as int),
    decreases t.len() - i,
{
    if i < t.len() {
        assert((p + t)[p.len() + i] == t[i]);
        if t[i] is Pipe {
            lemma_command_from(t, i + 1, no_command());
            lemma_command_moves(p, t, i + 1, no_command());
            match command_from(t, i + 1, no_command()) {
                Err(e) => {},
                Ok((c, j)) => {
                    lemma_pipes_move(p, t, j, cs.push(c));
                },
            }
        }
    }
}

proof fn lemma_pipeline_moves(p: Seq<TokV>, t: Seq<TokV>, i: int)
    requires
        0 <= i <= t.len(),
    ensures
        pipeline_from(p + t, p.len() + i) == moved(pipeline_from(t, i), p.len() as int),
{
    lemma_command_from(t, i, no_command());
    lemma_command_moves(p, t, i, no_command());
    match command_from(t, i, no_command()) {
        Err(e) => {},
        Ok((c, j)) => {
            lemma_pipes_move(p, t, j, seq![c]);
            if j < t.len() {
                assert((p + t)[p.len() + j] == t[j]);
            }
        },
    }
}

proof fn lemma_chain_moves(p: Seq<TokV>, t: Seq<TokV>, i: int, left: StmtV)
    requires
        0 <= i <= t.len(),
    ensures
        chain_from(p + t, p.len() + i, left) == moved(chain_from(t, i, left), p.len() as int),
    decreases t.len() - i,
{
    if i < t.len() {
        assert((p + t)[p.len() + i] == t[i]);
        if t[i] is AndIf || t[i] is OrIf {
            lemma_pipeline_from(t, i + 1);
            lemma_pipeline_moves(p, t, i + 1);
            match pipeline_from(t, i + 1) {
                Err(e) => {},
                Ok((right, j)) => {
                    let l = if t[i] is AndIf {
                        StmtV::AndIf(Box::new(left), Box::new(right))
                    } else {
                        StmtV::OrIf(Box::new(left), Box::new(right))
                    };
                    lemma_chain_moves(p, t, j, l);
                },
            }
        }
    }
}

proof fn lemma_and_or_moves(p: Seq<TokV>, t: Seq<TokV>, i: int)
    requires
        0 <= i <= t.len(),
    ensures
        and_or_from(p + t, p.len() + i) == moved(and_or_from(t, i), p.len() as int),
{
    lemma_pipeline_from(t, i);
    lemma_pipeline_moves(p, t, i);
    match pipeline_from(t, i) {
        Err(e) => {},
        Ok((left, j)) => {
            lemma_chain_moves(p, t, j, left);
        },
    }
}

proof fn lemma_rest_moves(p: Seq<TokV>, t: Seq<TokV>, i: int, left: StmtV)
    requires
        0 <= i <= t.len(),
    ensures
        rest_from(p + t, p.len() + i, left) == moved(rest_from(t, i, left), p.len() as int),
    decreases t.len() - i,
{
    if i < t.len() {
        assert((p + t)[p.len() + i] == t[i]);
        if t[i] is Semi && i + 1 < t.len() {
            lemma_and_or_from(t, i + 1);
            lemma_and_or_moves(p, t, i + 1);
            match and_or_from(t, i + 1) {
                Err(e) => {},
                Ok((right, j)) => {
                    lemma_rest_moves(
                        p,
                        t,
                        j,
                        StmtV::Sequence(Box::new(left), Box::new(right)),
                    );
                },
            }
        }
    }
}

// ---------- The tokens of joined lines --------------------------------------

/// A line that another can follow on the same line: no comment starts in it, and it does not end
/// in a backslash.
pub open spec fn goes_on(a: Seq<char>) -> bool {
    &&& !a.contains('#')
    &&& a.len() > 0 ==> a.last() != '\\'
}

/// The tokens of a line.
pub open spec fn line_tokens(s: Seq<char>) -> Result<Seq<TokV>, ParseError> {
    tokens_from(encode_utf8(s), 0, Seq::<TokV>::empty())
}

/// `op` is written with ASCII characters, ends words, and is read as the token `t` whatever
/// follows.
spec fn is_operator(op: Seq<u8>, t: TokV) -> bool {
    &&& op.len() > 0 && stops(op[0])
    &&& forall|b: Seq<u8>, acc: Seq<TokV>| #[trigger]
        tokens_from(op + b, 0, acc) == tokens_from(op + b, op.len() as int, acc.push(t))
}

proof fn lemma_tokens_of_both(a: Seq<char>, op: Seq<char>, b: Seq<char>, t: TokV)
    requires
        goes_on(a),
        is_operator(encode_utf8(op), t),
        line_tokens(a) is Ok,
        line_tokens(b) is Ok,
    ensures
        line_tokens(a + op + b) == Ok::<Seq<TokV>, ParseError>(
            line_tokens(a)->Ok_0 + seq![t] + line_tokens(b)->Ok_0,
        ),
{
    let (x, o, y) = (encode_utf8(a), encode_utf8(op), encode_utf8(b));
    let none = Seq::<TokV>::empty();
    let (ta, tb) = (line_tokens(a)->Ok_0, line_tokens(b)->Ok_0);
    lemma_bytes_of_both(a + op, b);
    lemma_bytes_of_both(a, op);
    lemma_absent(a, '#');
    lemma_other_end(a, '\\');
    let u = o + y;
    assert(x + o + y =~= x + u);
    assert(u[0] == o[0]);
    assert(splits(x, u));
    let open = lemma_tokens_stay(x, u, 0, none);
    assert(!open);
    let n = x.len() as int;
    lemma_at_start(x + u, n, false, ta);
    lemma_tokens_move(x, u, 0, ta);
    assert(tokens_from(u, 0, ta) == tokens_from(u, o.len() as int, ta.push(t)));
    lemma_tokens_move(o, y, 0, ta.push(t));
    lemma_tokens_gather(y, 0, ta.push(t), none);
    assert(ta.push(t) + none =~= ta.push(t));
    assert(ta.push(t) + tb =~= ta + seq![t] + tb);
}

proof fn lemma_skip_blank(s: Seq<u8>, i: int, acc: Seq<TokV>)
    requires
        0 <= i < s.len(),
        s[i] == 32,
    ensures
        tokens_from(s, i, acc) == tokens_from(s, i + 1, acc),
{
    assert(token_start(s, i, false) == token_start(s, i + 1, false));
}

/// The operator token `t` that stands in `s` at `i` is read.
proof fn lemma_read_operator(s: Seq<u8>, i: int, t: TokV, k: int, acc: Seq<TokV>)
    requires
        0 <= i < k <= s.len(),
        s[i] == 124 || s[i] == 38 || s[i] == 59,
        token_at(s, i) == Ok::<(TokV, int), ParseError>((t, k)),
    ensures
        tokens_from(s, i, acc) == tokens_from(s, k, acc.push(t)),
{
    assert(token_start(s, i, false) == i);
}

/// What the operators are written as.
proof fn lemma_operators()
    ensures
        is_operator(encode_utf8(";"@), TokV::Semi),
        is_operator(encode_utf8("; "@), TokV::Semi),
        is_operator(encode_utf8(" && "@), TokV::AndIf),
        is_operator(encode_utf8(" || "@), TokV::OrIf),
{
    reveal_strlit(";");
    reveal_strlit("; ");
    reveal_strlit(" && ");
    reveal_strlit(" || ");
    is_ascii_chars_encode_utf8(";"@);
    is_ascii_chars_encode_utf8("; "@);
    is_ascii_chars_encode_utf8(" && "@);
    is_ascii_chars_encode_utf8(" || "@);
    assert(encode_utf8(";"@) =~= seq![59u8]);
    assert(encode_utf8("; "@) =~= seq![59u8, 32u8]);
    assert(encode_utf8(" && "@) =~= seq![32u8, 38u8, 38u8, 32u8]);
    assert(encode_utf8(" || "@) =~= seq![32u8, 124u8, 124u8, 32u8]);
    let o = encode_utf8(";"@);
    assert forall|b: Seq<u8>, acc: Seq<TokV>| #[trigger]
        tokens_from(o + b, 0, acc) == tokens_from(o + b, 1, acc.push(TokV::Semi)) by {
        assert((o + b)[0] == 59);
        lemma_read_operator(o + b, 0, TokV::Semi, 1, acc);
    }
    let o = encode_utf8("; "@);
    assert forall|b: Seq<u8>, acc: Seq<TokV>| #[trigger]
        tokens_from(o + b, 0, acc) == tokens_from(o + b, 2, acc.push(TokV::Semi)) by {
        let s = o + b;
        assert(s[0] == 59 && s[1] == 32);
        lemma_read_operator(s, 0, TokV::Semi, 1, acc);
        lemma_skip_blank(s, 1, acc.push(TokV::Semi));
    }
    let o = encode_utf8(" && "@);
    assert forall|b: Seq<u8>, acc: Seq<TokV>| #[trigger]
        tokens_from(o + b, 0, acc) == tokens_from(o + b, 4, acc.push(TokV::AndIf)) by {
        let s = o + b;
        assert(s[0] == 32 && s[1] == 38 && s[2] == 38 && s[3] == 32);
        lemma_skip_blank(s, 0, acc);
        lemma_read_operator(s, 1, TokV::AndIf, 3, acc);
        lemma_skip_blank(s, 3, acc.push(TokV::AndIf));
    }
    let o = encode_utf8(" || "@);
    assert forall|b: Seq<u8>, acc: Seq<TokV>| #[trigger]
        tokens_from(o + b, 0, acc) == tokens_from(o + b, 4, acc.push(TokV::OrIf)) by {
        let s = o + b;
        assert(s[0] == 32 && s[1] == 124 && s[2] == 124 && s[3] == 32);
        lemma_skip_blank(s, 0, acc);
        lemma_read_operator(s, 1, TokV::OrIf, 3, acc);
        lemma_skip_blank(s, 3, acc.push(TokV::OrIf));
    }
}

proof fn lemma_pipe_operator()
    ensures
        is_operator(encode_utf8(" | "@), TokV::Pipe),
{
    reveal_strlit(" | ");
    is_ascii_chars_encode_utf8(" | "@);
    assert(encode_utf8(" | "@) =~= seq![32u8, 124u8, 32u8]);
    let o = encode_utf8(" | "@);
    assert forall|b: Seq<u8>, acc: Seq<TokV>| #[trigger]
        tokens_from(o + b, 0, acc) == tokens_from(o + b, 3, acc.push(TokV::Pipe)) by {
        let s = o + b;
        assert(s[0] == 32 && s[1] == 124 && s[2] == 32);
        lemma_skip_blank(s, 0, acc);
        lemma_read_operator(s, 1, TokV::Pipe, 2, acc);
        lemma_skip_blank(s, 2, acc.push(TokV::Pipe));
    }
}

// ---------- Comments --------------------------------------------------------

/// A comment behind a line that can be read changes nothing, whatever quotes, variables or
/// operators it holds.
pub proof fn law_a_comment_behind_changes_nothing(s: Seq<char>, t: Seq<char>)
    requires
        parsed(s) is Ok,
        s.len() > 0 ==> s.last() != '\\',
        !t.contains('\n'),
    ensures
        parsed(s + " #"@ + t) == parsed(s),
{
    reveal_strlit(" #");
    is_ascii_chars_encode_utf8(" #"@);
    let (x, y) = (encode_utf8(s), encode_utf8(t));
    let o = encode_utf8(" #"@);
    assert(o =~= seq![32u8, 35u8]);
    lemma_bytes_of_both(s + " #"@, t);
    lemma_bytes_of_both(s, " #"@);
    lemma_other_end(s, '\\');
    lemma_absent(t, '\n');
    let u = o + y;
    assert(x + o + y =~= x + u);
    assert(u[0] == 32 && u[1] == 35);
    assert forall|k: int| 0 <= k < u.len() implies u[k] != 10 by {
        if k >= 2 {
            assert(u[k] == y[k - 2]);
        }
    }
    let none = Seq::<TokV>::empty();
    let open = lemma_tokens_stay(x, u, 0, none);
    lemma_start_moves(x, u, 0, open);
    lemma_in_comment(u, 0);
    lemma_in_comment(u, 2);
    assert(token_start(u, 1, false) == token_start(u, 2, true));
    assert(token_start(u, 0, false) == token_start(u, 1, false));
    assert(token_start(x + u, x.len() as int, open) == (x + u).len());
}

// ---------- Lines one after the other ---------------------------------------

/// A line behind another and a `;` is the sequence of the two, and a `;` at the end changes
/// nothing.
pub proof fn law_a_semicolon_joins_two_lines(a: Seq<char>, b: Seq<char>)
    requires
        parsed(a) matches Ok(Some(_)),
        parsed(b) matches Ok(Some(_)),
        goes_on(a),
        !a.contains(';'),
        !b.contains(';'),
    ensures
        parsed(a + ";"@ + b) == Ok::<Option<StmtV>, ParseError>(
            Some(
                StmtV::Sequence(
                    Box::new(parsed(a)->Ok_0->0),
                    Box::new(parsed(b)->Ok_0->0),
                ),
            ),
        ),
        parsed(a + ";"@) == parsed(a),
{
    let none = Seq::<char>::empty();
    lemma_operators();
    lemma_tokens_of_both(a, ";"@, b, TokV::Semi);
    assert(encode_utf8(none) =~= Seq::<u8>::empty());
    assert(line_tokens(none) == Ok::<Seq<TokV>, ParseError>(Seq::<TokV>::empty()));
    lemma_tokens_of_both(a, ";"@, none, TokV::Semi);
    assert(a + ";"@ + none =~= a + ";"@);
    lemma_absent(a, ';');
    lemma_absent(b, ';');
    let (ta, tb) = (line_tokens(a)->Ok_0, line_tokens(b)->Ok_0);
    lemma_no_semicolons(encode_utf8(a), 0, Seq::empty());
    lemma_no_semicolons(encode_utf8(b), 0, Seq::empty());
    let left = statement(ta)->Ok_0->0;
    let right = statement(tb)->Ok_0->0;
    let n = ta.len() as int;
    // The first line alone, with the semicolon behind it.
    let v = seq![TokV::Semi];
    assert(ta + v + Seq::<TokV>::empty() =~= ta + v);
    lemma_statement_stays(ta, v);
    assert((ta + v)[n] is Semi);
    assert(chain_from(ta + v, n, left) == Ok::<(StmtV, int), ParseError>((left, n)));
    assert(rest_from(ta + v, n, left) == Ok::<(StmtV, int), ParseError>((left, n + 1)));
    // Both.
    let w = v + tb;
    assert(ta + v + tb =~= ta + w);
    assert(w[0] is Semi);
    lemma_statement_stays(ta, w);
    let s = ta + w;
    assert(s[n] is Semi);
    assert(chain_from(s, n, left) == Ok::<(StmtV, int), ParseError>((left, n)));
    let p = ta + v;
    assert(p + tb =~= s);
    lemma_and_or_from(tb, 0);
    lemma_and_or_moves(p, tb, 0);
    let (r, j) = and_or_from(tb, 0)->Ok_0;
    if j < tb.len() {
        assert(!(tb[j] is Semi));
    }
    assert(rest_from(tb, j, r) == Ok::<(StmtV, int), ParseError>((r, j)));
    assert(j == tb.len() && r == right);
    let both = StmtV::Sequence(Box::new(left), Box::new(right));
    assert(and_or_from(s, n + 1) == Ok::<(StmtV, int), ParseError>((right, s.len() as int)));
    assert(rest_from(s, s.len() as int, both) == Ok::<(StmtV, int), ParseError>(
        (both, s.len() as int),
    ));
    assert(rest_from(s, n, left) == Ok::<(StmtV, int), ParseError>((both, s.len() as int)));
}

// ---------- Builtins in every part ------------------------------------------

/// What follows a chain is read alike behind any other, and is of builtins or not.
proof fn lemma_chain_parts(t: Seq<TokV>, i: int, l: StmtV, m: StmtV) -> (rest: bool)
    requires
        0 <= i <= t.len(),
        chain_from(t, i, l) is Ok,
    ensures
        chain_from(t, i, m) is Ok,
        chain_from(t, i, m)->Ok_0.1 == chain_from(t, i, l)->Ok_0.1,
        is_pure_builtin(chain_from(t, i, l)->Ok_0.0) == (is_pure_builtin(l) && rest),
        is_pure_builtin(chain_from(t, i, m)->Ok_0.0) == (is_pure_builtin(m) && rest),
    decreases t.len() - i,
{
    if i < t.len() && (t[i] is AndIf || t[i] is OrIf) {
        lemma_pipeline_from(t, i + 1);
        let (right, j) = pipeline_from(t, i + 1)->Ok_0;
        let (x, y) = if t[i] is AndIf {
            (
                StmtV::AndIf(Box::new(l), Box::new(right)),
                StmtV::AndIf(Box::new(m), Box::new(right)),
            )
        } else {
            (StmtV::OrIf(Box::new(l), Box::new(right)), StmtV::OrIf(Box::new(m), Box::new(right)))
        };
        let rest = lemma_chain_parts(t, j, x, y);
        is_pure_builtin(right) && rest
    } else {
        true
    }
}

/// What follows a statement is read alike behind any other, and is of builtins or not.
proof fn lemma_rest_parts(t: Seq<TokV>, i: int, l: StmtV, m: StmtV) -> (rest: bool)
    requires
        0 <= i <= t.len(),
        rest_from(t, i, l) is Ok,
    ensures
        rest_from(t, i, m) is Ok,
        rest_from(t, i, m)->Ok_0.1 == rest_from(t, i, l)->Ok_0.1,
        is_pure_builtin(rest_from(t, i, l)->Ok_0.0) == (is_pure_builtin(l) && rest),
        is_pure_builtin(rest_from(t, i, m)->Ok_0.0) == (is_pure_builtin(m) && rest),
    decreases t.len() - i,
{
    if i < t.len() && t[i] is Semi && i + 1 < t.len() {
        lemma_and_or_from(t, i + 1);
        let (right, j) = and_or_from(t, i + 1)->Ok_0;
        let x = StmtV::Sequence(Box::new(l), Box::new(right));
        let y = StmtV::Sequence(Box::new(m), Box::new(right));
        let rest = lemma_rest_parts(t, j, x, y);
        is_pure_builtin(right) && rest
    } else {
        true
    }
}

/// The tokens of a chain, an operator and those of a statement spell a statement, which is of
/// builtins if both are.
proof fn lemma_joined_statement(ta: Seq<TokV>, op: TokV, tb: Seq<TokV>)
    requires
        op is AndIf || op is OrIf || op is Semi,
        statement(ta) matches Ok(Some(_)),
        statement(tb) matches Ok(Some(_)),
        forall|k: int| 0 <= k < ta.len() ==> !(#[trigger] ta[k] is Semi),
    ensures
        statement(ta + seq![op] + tb) matches Ok(Some(s)) && is_pure_builtin(s) == (
        is_pure_builtin(statement(ta)->Ok_0->0) && is_pure_builtin(statement(tb)->Ok_0->0)),
{
    let v = seq![op];
    let p = ta + v;
    let s = p + tb;
    let n = ta.len() as int;
    assert(s =~= ta + (v + tb));
    assert((v + tb)[0] == op);
    lemma_statement_stays(ta, v + tb);
    assert(s[n] == op);
    let a = statement(ta)->Ok_0->0;
    let b = statement(tb)->Ok_0->0;
    lemma_pipeline_from(tb, 0);
    lemma_pipeline_moves(p, tb, 0);
    lemma_and_or_from(tb, 0);
    lemma_and_or_moves(p, tb, 0);
    let (l, j) = and_or_from(tb, 0)->Ok_0;
    lemma_rest_moves(p, tb, j, l);
    let k = p.len() + j;
    assert(rest_from(s, k, l) == moved(rest_from(tb, j, l), p.len() as int));
    if op is Semi {
        assert(chain_from(s, n, a) == Ok::<(StmtV, int), ParseError>((a, n)));
        let x = StmtV::Sequence(Box::new(a), Box::new(l));
        let rest = lemma_rest_parts(s, k, l, x);
        assert(rest_from(s, n, a) == rest_from(s, k, x));
    } else {
        let (first, f) = pipeline_from(tb, 0)->Ok_0;
        lemma_chain_moves(p, tb, f, first);
        let x = if op is AndIf {
            StmtV::AndIf(Box::new(a), Box::new(first))
        } else {
            StmtV::OrIf(Box::new(a), Box::new(first))
        };
        let more = lemma_chain_parts(s, p.len() + f, first, x);
        assert(chain_from(s, n, a) == chain_from(s, p.len() + f, x));
        let y = chain_from(s, n, a)->Ok_0.0;
        let rest = lemma_rest_parts(s, k, l, y);
    }
}

proof fn lemma_command_without_pipes(t: Seq<TokV>, i: int, c: CommandV)
    requires
        0 <= i <= t.len(),
    ensures
        command_from(t, i, c) matches Ok((_, j)) ==> forall|k: int|
            i <= k < j ==> !(#[trigger] t[k] is Pipe),
    decreases t.len() - i,
{
    if i < t.len() {
        match t[i] {
            TokV::Word(w) => {
                lemma_command_without_pipes(
                    t,
                    i + 1,
                    CommandV { words: c.words.push(w), redirects: c.redirects },
                );
            },
            TokV::Redir(fd, op) => {
                if i + 1 < t.len() && t[i + 1] is Word {
                    let n = match fd {
                        Some(n) => n,
                        None => default_fd(op),
                    };
                    let r = RedirectV { fd: n, op, target: t[i + 1]->Word_0 };
                    lemma_command_without_pipes(
                        t,
                        i + 2,
                        CommandV { words: c.words, redirects: c.redirects.push(r) },
                    );
                }
            },
            _ => {},
        }
    }
}

proof fn lemma_chain_without_pipes(t: Seq<TokV>, i: int, left: StmtV)
    requires
        0 <= i <= t.len(),
    ensures
        chain_from(t, i, left) matches Ok((s, j)) ==> is_pure_builtin(s) ==> is_pure_builtin(left)
            && forall|k: int| i <= k < j ==> !(#[trigger] t[k] is Pipe),
    decreases t.len() - i,
{
    if i < t.len() && (t[i] is AndIf || t[i] is OrIf) {
        lemma_pipeline_from(t, i + 1);
        match pipeline_from(t, i + 1) {
            Err(e) => {},
            Ok((right, j)) => {
                let l = if t[i] is AndIf {
                    StmtV::AndIf(Box::new(left), Box::new(right))
                } else {
                    StmtV::OrIf(Box::new(left), Box::new(right))
                };
                lemma_chain_without_pipes(t, j, l);
                lemma_command_without_pipes(t, i + 1, no_command());
                assert(is_pure_builtin(l) == (is_pure_builtin(left) && is_pure_builtin(right)));
                assert(is_pure_builtin(right) ==> right is Cmd);
            },
        }
    }
}

proof fn lemma_and_or_without_pipes(t: Seq<TokV>, i: int)
    requires
        0 <= i <= t.len(),
    ensures
        and_or_from(t, i) matches Ok((s, j)) ==> is_pure_builtin(s) ==> forall|k: int|
            i <= k < j ==> !(#[trigger] t[k] is Pipe),
{
    lemma_pipeline_from(t, i);
    match pipeline_from(t, i) {
        Err(e) => {},
        Ok((left, j)) => {
            lemma_chain_without_pipes(t, j, left);
            lemma_command_without_pipes(t, i, no_command());
        },
    }
}

proof fn lemma_rest_without_pipes(t: Seq<TokV>, i: int, left: StmtV)
    requires
        0 <= i <= t.len(),
    ensures
        rest_from(t, i, left) matches Ok((s, j)) ==> is_pure_builtin(s) ==> is_pure_builtin(left)
            && forall|k: int| i <= k < j ==> !(#[trigger] t[k] is Pipe),
    decreases t.len() - i,
{
    if i < t.len() && t[i] is Semi && i + 1 < t.len() {
        lemma_and_or_from(t, i + 1);
        lemma_and_or_without_pipes(t, i + 1);
        match and_or_from(t, i + 1) {
            Err(e) => {},
            Ok((right, j)) => {
                lemma_rest_without_pipes(
                    t,
                    j,
                    StmtV::Sequence(Box::new(left), Box::new(right)),
                );
            },
        }
    }
}

proof fn lemma_builtins_without_pipes(t: Seq<TokV>)
    ensures
        statement(t) matches Ok(Some(s)) ==> is_pure_builtin(s) ==> forall|k: int|
            0 <= k < t.len() ==> !(#[trigger] t[k] is Pipe),
{
    if t.len() > 0 {
        lemma_and_or_from(t, 0);
        lemma_and_or_without_pipes(t, 0);
        match and_or_from(t, 0) {
            Err(e) => {},
            Ok((left, j)) => {
                lemma_rest_without_pipes(t, j, left);
            },
        }
    }
}

/// Two lines joined by `&&`, `||` or `;` are of builtins if each of them is. A pipeline never is,
/// nor a line that cannot be read or spells nothing.
pub proof fn law_builtins_are_builtins_in_every_part(a: Seq<char>, b: Seq<char>)
    requires
        parsed(a) matches Ok(Some(_)),
        parsed(b) matches Ok(Some(_)),
        goes_on(a),
        !a.contains(';'),
    ensures
        parsed(a + " && "@ + b) matches Ok(Some(_)),
        parsed(a + " || "@ + b) matches Ok(Some(_)),
        parsed(a + "; "@ + b) matches Ok(Some(_)),
        is_pure_line(a + " && "@ + b) == (is_pure_line(a) && is_pure_line(b)),
        is_pure_line(a + " || "@ + b) == (is_pure_line(a) && is_pure_line(b)),
        is_pure_line(a + "; "@ + b) == (is_pure_line(a) && is_pure_line(b)),
        !is_pure_line(a + " | "@ + b),
        forall|x: Seq<char>|
            parsed(x) is Err || parsed(x) == Ok::<Option<StmtV>, ParseError>(None)
                ==> !#[trigger] is_pure_line(x),
{
    lemma_operators();
    lemma_pipe_operator();
    lemma_absent(a, ';');
    lemma_no_semicolons(encode_utf8(a), 0, Seq::empty());
    lemma_tokens_of_both(a, " && "@, b, TokV::AndIf);
    lemma_tokens_of_both(a, " || "@, b, TokV::OrIf);
    lemma_tokens_of_both(a, "; "@, b, TokV::Semi);
    lemma_tokens_of_both(a, " | "@, b, TokV::Pipe);
    let (ta, tb) = (line_tokens(a)->Ok_0, line_tokens(b)->Ok_0);
    lemma_joined_statement(ta, TokV::AndIf, tb);
    lemma_joined_statement(ta, TokV::OrIf, tb);
    lemma_joined_statement(ta, TokV::Semi, tb);
    let t = ta + seq![TokV::Pipe] + tb;
    assert(t[ta.len() as int] is Pipe);
    lemma_builtins_without_pipes(t);
}

// ---------- Redirections among words ----------------------------------------

/// A piece of a command: a word, or a redirection with the descriptor written in front of it, if
/// any, and its target.
pub enum PieceV {
    Word(WordV),
    Redirect(Option<i32>, RedirOp, WordV),
}

/// The tokens of the pieces of a command.
pub open spec fn piece_tokens(ps: Seq<PieceV>) -> Seq<TokV>
    decreases ps.len(),
{
    if ps.len() == 0 {
        Seq::empty()
    } else {
        (match ps[0] {
            PieceV::Word(w) => seq![TokV::Word(w)],
            PieceV::Redirect(fd, op, target) => seq![TokV::Redir(fd, op), TokV::Word(target)],
        }) + piece_tokens(ps.drop_first())
    }
}

/// The words among the pieces, in order, without the targets.
pub open spec fn piece_words(ps: Seq<PieceV>) -> Seq<WordV>
    decreases ps.len(),
{
    if ps.len() == 0 {
        Seq::empty()
    } else {
        let rest = piece_words(ps.drop_first());
        match ps[0] {
            PieceV::Word(w) => seq![w] + rest,
            PieceV::Redirect(..) => rest,
        }
    }
}

/// The redirections among the pieces, in order. Without a number `<` speaks of descriptor 0, and
/// `>` and `>>` of descriptor 1.
pub open spec fn piece_redirects(ps: Seq<PieceV>) -> Seq<RedirectV>
    decreases ps.len(),
{
    if ps.len() == 0 {
        Seq::empty()
    } else {
        let rest = piece_redirects(ps.drop_first());
        match ps[0] {
            PieceV::Word(_) => rest,
            PieceV::Redirect(fd, op, target) => seq![
                RedirectV {
                    fd: match fd {
                        Some(n) => n,
                        None => default_fd(op),
                    },
                    op,
                    target,
                },
            ] + rest,
        }
    }
}

proof fn lemma_reads_pieces(p: Seq<TokV>, ps: Seq<PieceV>, c: CommandV)
    requires
        ps.len() > 0 || c.words.len() > 0 || c.redirects.len() > 0,
    ensures
        command_from(p + piece_tokens(ps), p.len() as int, c) == Ok::<(CommandV, int), ParseError>(
            (
                CommandV {
                    words: c.words + piece_words(ps),
                    redirects: c.redirects + piece_redirects(ps),
                },
                (p + piece_tokens(ps)).len() as int,
            ),
        ),
    decreases ps.len(),
{
    let t = p + piece_tokens(ps);
    let n = p.len() as int;
    if ps.len() == 0 {
        assert(c.words + piece_words(ps) =~= c.words);
        assert(c.redirects + piece_redirects(ps) =~= c.redirects);
    } else {
        let rest = ps.drop_first();
        match ps[0] {
            PieceV::Word(w) => {
                let q = p.push(TokV::Word(w));
                assert(t =~= q + piece_tokens(rest));
                assert(t[n] == TokV::Word(w));
                let d = CommandV { words: c.words.push(w), redirects: c.redirects };
                lemma_reads_pieces(q, rest, d);
                assert(d.words + piece_words(rest) =~= c.words + piece_words(ps));
            },
            PieceV::Redirect(fd, op, target) => {
                let q = p.push(TokV::Redir(fd, op)).push(TokV::Word(target));
                assert(t =~= q + piece_tokens(rest));
                assert(t[n] == TokV::Redir(fd, op));
                assert(t[n + 1] == TokV::Word(target));
                let r = RedirectV {
                    fd: match fd {
                        Some(k) => k,
                        None => default_fd(op),
                    },
                    op,
                    target,
                };
                let d = CommandV { words: c.words, redirects: c.redirects.push(r) };
                lemma_reads_pieces(q, rest, d);
                assert(d.redirects + piece_redirects(rest) =~= c.redirects + piece_redirects(ps));
            },
        }
    }
}

/// Where in a command its redirections stand does not matter: as long as the words keep their
/// order and the redirections theirs, the command is the same.
pub proof fn law_redirections_stand_anywhere(ps: Seq<PieceV>, qs: Seq<PieceV>)
    requires
        ps.len() > 0,
        piece_words(qs) == piece_words(ps),
        piece_redirects(qs) == piece_redirects(ps),
    ensures
        statement(piece_tokens(ps)) == Ok::<Option<StmtV>, ParseError>(
            Some(
                StmtV::Cmd(
                    CommandV { words: piece_words(ps), redirects: piece_redirects(ps) },
                ),
            ),
        ),
        statement(piece_tokens(qs)) == statement(piece_tokens(ps)),
        command_from(piece_tokens(ps), 0, no_command()) == Ok::<(CommandV, int), ParseError>(
            (
                CommandV { words: piece_words(ps), redirects: piece_redirects(ps) },
                piece_tokens(ps).len() as int,
            ),
        ),
        command_from(piece_tokens(qs), 0, no_command()) == Ok::<(CommandV, int), ParseError>(
            (
                CommandV { words: piece_words(ps), redirects: piece_redirects(ps) },
                piece_tokens(qs).len() as int,
            ),
        ),
{
    lemma_reads_one_command(ps);
    if qs.len() == 0 {
        assert(piece_words(ps).len() + piece_redirects(ps).len() > 0);
    }
    lemma_reads_one_command(qs);
}

proof fn lemma_reads_one_command(ps: Seq<PieceV>)
    requires
        ps.len() > 0,
    ensures
        statement(piece_tokens(ps)) == Ok::<Option<StmtV>, ParseError>(
            Some(
                StmtV::Cmd(
                    CommandV { words: piece_words(ps), redirects: piece_redirects(ps) },
                ),
            ),
        ),
        command_from(piece_tokens(ps), 0, no_command()) == Ok::<(CommandV, int), ParseError>(
            (
                CommandV { words: piece_words(ps), redirects: piece_redirects(ps) },
                piece_tokens(ps).len() as int,
            ),
        ),
{
    let none = Seq::<TokV>::empty();
    let t = piece_tokens(ps);
    assert(none + t =~= t);
    lemma_reads_pieces(none, ps, no_command());
    assert(no_command().words + piece_words(ps) =~= piece_words(ps));
    assert(no_command().redirects + piece_redirects(ps) =~= piece_redirects(ps));
    let n = t.len() as int;
    assert(n > 0);
    let s = StmtV::Cmd(
        CommandV { words: piece_words(ps), redirects: piece_redirects(ps) },
    );
    assert(pipeline_from(t, 0) == Ok::<(StmtV, int), ParseError>((s, n)));
    assert(chain_from(t, n, s) == Ok::<(StmtV, int), ParseError>((s, n)));
    assert(rest_from(t, n, s) == Ok::<(StmtV, int), ParseError>((s, n)));
}

} // verus!
