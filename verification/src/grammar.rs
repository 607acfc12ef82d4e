//! What holds of the grammar as a whole: which statements there are, that each of them can be
//! written and is read back as it was, and how quotes and comments are read.

use vstd::prelude::*;
use vstd::utf8::*;

use crate::parse::{
    brace_end, default_fd, dollar, ends_word, escapable, in_name, lemma_dollar, lemma_token_at,
    lemma_token_start, name_end, paren_end, parsed, starts_name,
    and_or_from, chain_from, command_from, lemma_and_or_from, lemma_command_from,
    lemma_pipeline_from, no_command, pipeline_from, pipes_from, put, rest_from, statement, token_at,
    token_start, tokens_from, word_from, CommandV, ParseError, Quote, RedirectV, SegmentV, StmtV,
    TokV, WordV,
};

verus! {

// ---------- The shape of statements -----------------------------------------

/// A command with a word or a redirection.
pub open spec fn is_command(c: CommandV) -> bool {
    c.words.len() > 0 || c.redirects.len() > 0
}

/// A command, or a pipeline of two commands or more.
pub open spec fn is_pipeline(s: StmtV) -> bool {
    match s {
        StmtV::Cmd(c) => is_command(c),
        StmtV::Pipe(cs) => cs.len() >= 2 && forall|i: int|
            0 <= i < cs.len() ==> is_command(#[trigger] cs[i]),
        _ => false,
    }
}

/// A chain of pipelines: `&&` and `||` bind alike, to the left.
pub open spec fn is_chain(s: StmtV) -> bool
    decreases s,
{
    match s {
        StmtV::AndIf(l, r) => is_chain(*l) && is_pipeline(*r),
        StmtV::OrIf(l, r) => is_chain(*l) && is_pipeline(*r),
        _ => is_pipeline(s),
    }
}

/// A statement: chains joined by `;`, which binds loosest, to the left.
pub open spec fn is_statement(s: StmtV) -> bool
    decreases s,
{
    match s {
        StmtV::Sequence(l, r) => is_statement(*l) && is_chain(*r),
        _ => is_chain(s),
    }
}

proof fn lemma_pipes_shape(t: Seq<TokV>, i: int, cs: Seq<CommandV>)
    requires
        0 <= i <= t.len(),
        forall|k: int| 0 <= k < cs.len() ==> is_command(#[trigger] cs[k]),
    ensures
        pipes_from(t, i, cs) matches Ok((r, _)) ==> r.len() >= cs.len() && (i < t.len()
            && t[i] is Pipe ==> r.len() > cs.len()) && forall|k: int|
            0 <= k < r.len() ==> is_command(#[trigger] r[k]),
    decreases t.len() - i,
{
    if i < t.len() && t[i] is Pipe {
        lemma_command_from(t, i + 1, no_command());
        match command_from(t, i + 1, no_command()) {
            Err(e) => {},
            Ok((c, j)) => {
                lemma_pipes_shape(t, j, cs.push(c));
            },
        }
    }
}

proof fn lemma_pipeline_shape(t: Seq<TokV>, i: int)
    requires
        0 <= i <= t.len(),
    ensures
        pipeline_from(t, i) matches Ok((s, _)) ==> is_pipeline(s),
{
    lemma_command_from(t, i, no_command());
    match command_from(t, i, no_command()) {
        Err(e) => {},
        Ok((c, j)) => {
            lemma_pipes_shape(t, j, seq![c]);
        },
    }
}

proof fn lemma_chain_shape(t: Seq<TokV>, i: int, left: StmtV)
    requires
        0 <= i <= t.len(),
        is_chain(left),
    ensures
        chain_from(t, i, left) matches Ok((s, _)) ==> is_chain(s),
    decreases t.len() - i,
{
    if i < t.len() && (t[i] is AndIf || t[i] is OrIf) {
        lemma_pipeline_shape(t, i + 1);
        lemma_pipeline_from(t, i + 1);
        match pipeline_from(t, i + 1) {
            Err(e) => {},
            Ok((right, j)) => {
                let l = if t[i] is AndIf {
                    StmtV::AndIf(Box::new(left), Box::new(right))
                } else {
                    StmtV::OrIf(Box::new(left), Box::new(right))
                };
                lemma_chain_shape(t, j, l);
            },
        }
    }
}

proof fn lemma_and_or_shape(t: Seq<TokV>, i: int)
    requires
        0 <= i <= t.len(),
    ensures
        and_or_from(t, i) matches Ok((s, _)) ==> is_chain(s),
{
    lemma_pipeline_shape(t, i);
    lemma_pipeline_from(t, i);
    match pipeline_from(t, i) {
        Err(e) => {},
        Ok((left, j)) => {
            lemma_chain_shape(t, j, left);
        },
    }
}

proof fn lemma_rest_shape(t: Seq<TokV>, i: int, left: StmtV)
    requires
        0 <= i <= t.len(),
        is_statement(left),
    ensures
        rest_from(t, i, left) matches Ok((s, _)) ==> is_statement(s),
    decreases t.len() - i,
{
    if i < t.len() && t[i] is Semi && i + 1 < t.len() {
        lemma_and_or_shape(t, i + 1);
        lemma_and_or_from(t, i + 1);
        match and_or_from(t, i + 1) {
            Err(e) => {},
            Ok((right, j)) => {
                lemma_rest_shape(t, j, StmtV::Sequence(Box::new(left), Box::new(right)));
            },
        }
    }
}

/// Every statement that is read has the shape of one: no command in it is empty, a pipeline
/// has two commands or more, `&&` and `||` group to the left, and `;` binds loosest.
pub proof fn law_statements_have_their_shape(t: Seq<TokV>)
    ensures
        statement(t) matches Ok(Some(s)) ==> is_statement(s),
{
    if t.len() > 0 {
        lemma_and_or_shape(t, 0);
        lemma_and_or_from(t, 0);
        match and_or_from(t, 0) {
            Err(e) => {},
            Ok((left, j)) => {
                lemma_rest_shape(t, j, left);
            },
        }
    }
}

// ---------- Writing a statement ---------------------------------------------

/// The tokens of a command: its words, then its redirections with their descriptors.
pub open spec fn command_tokens(c: CommandV) -> Seq<TokV> {
    Seq::new(
        c.words.len() + 2 * c.redirects.len(),
        |j: int|
            if j < c.words.len() {
                TokV::Word(c.words[j])
            } else {
                let r = c.redirects[(j - c.words.len()) / 2];
                if (j - c.words.len()) % 2 == 0 {
                    TokV::Redir(Some(r.fd), r.op)
                } else {
                    TokV::Word(r.target)
                }
            },
    )
}

/// The tokens of the commands of a pipeline, each behind a `|`.
pub open spec fn piped_tokens(cs: Seq<CommandV>) -> Seq<TokV>
    decreases cs.len(),
{
    if cs.len() == 0 {
        Seq::empty()
    } else {
        seq![TokV::Pipe] + command_tokens(cs[0]) + piped_tokens(cs.drop_first())
    }
}

/// The tokens of a statement.
pub open spec fn statement_tokens(s: StmtV) -> Seq<TokV>
    decreases s,
{
    match s {
        StmtV::Cmd(c) => command_tokens(c),
        StmtV::Pipe(cs) => if cs.len() == 0 {
            Seq::empty()
        } else {
            command_tokens(cs[0]) + piped_tokens(cs.drop_first())
        },
        StmtV::AndIf(l, r) => statement_tokens(*l) + seq![TokV::AndIf] + statement_tokens(*r),
        StmtV::OrIf(l, r) => statement_tokens(*l) + seq![TokV::OrIf] + statement_tokens(*r),
        StmtV::Sequence(l, r) => statement_tokens(*l) + seq![TokV::Semi] + statement_tokens(*r),
    }
}

/// `p` stands in `t` at `i`.
spec fn stands(t: Seq<TokV>, i: int, p: Seq<TokV>) -> bool {
    0 <= i && i + p.len() <= t.len() && t.subrange(i, i + p.len()) == p
}

proof fn lemma_stands(t: Seq<TokV>, i: int, a: Seq<TokV>, b: Seq<TokV>)
    requires
        stands(t, i, a + b),
    ensures
        stands(t, i, a),
        stands(t, i + a.len(), b),
{
    let whole = t.subrange(i, i + (a + b).len());
    assert forall|k: int| 0 <= k < a.len() implies t[i + k] == a[k] by {
        assert(whole[k] == (a + b)[k]);
    }
    assert forall|k: int| 0 <= k < b.len() implies t[i + a.len() + k] == b[k] by {
        assert(whole[a.len() + k] == (a + b)[a.len() + k]);
    }
    assert(t.subrange(i, i + a.len()) =~= a);
    assert(t.subrange(i + a.len(), i + a.len() + b.len()) =~= b);
}

/// A command cannot go on at token `i`.
spec fn command_ends(t: Seq<TokV>, i: int) -> bool {
    i < t.len() ==> !(t[i] is Word) && !(t[i] is Redir)
}

proof fn lemma_reads_command_from(t: Seq<TokV>, i: int, c: CommandV, m: int)
    requires
        stands(t, i, command_tokens(c)),
        command_ends(t, i + command_tokens(c).len()),
        is_command(c),
        0 <= m <= c.words.len() + c.redirects.len(),
    ensures
        ({
            let w = c.words.len() as int;
            let (done, at) = if m <= w {
                (
                    CommandV { words: c.words.take(m), redirects: Seq::<RedirectV>::empty() },
                    i + m,
                )
            } else {
                (
                    CommandV { words: c.words, redirects: c.redirects.take(m - w) },
                    i + w + 2 * (m - w),
                )
            };
            command_from(t, at, done) == Ok::<(CommandV, int), ParseError>(
                (c, i + command_tokens(c).len()),
            )
        }),
    decreases c.words.len() + c.redirects.len() - m,
{
    let w = c.words.len() as int;
    let p = command_tokens(c);
    assert forall|k: int| 0 <= k < p.len() implies t[i + k] == p[k] by {
        assert(t.subrange(i, i + p.len())[k] == p[k]);
    }
    if m < w {
        lemma_reads_command_from(t, i, c, m + 1);
        assert(c.words.take(m).push(c.words[m]) =~= c.words.take(m + 1));
        assert(t[i + m] == p[m]);
    } else if m < w + c.redirects.len() {
        lemma_reads_command_from(t, i, c, m + 1);
        let n = m - w;
        let r = c.redirects[n];
        assert(c.redirects.take(n).push(r) =~= c.redirects.take(n + 1));
        assert(c.redirects.take(0) =~= Seq::<RedirectV>::empty());
        assert(c.words.take(w) =~= c.words);
        let at = i + w + 2 * n;
        assert(t[at] == p[w + 2 * n]);
        assert(t[at + 1] == p[w + 2 * n + 1]);
        assert(r == RedirectV { fd: r.fd, op: r.op, target: r.target });
    } else {
        assert(c.redirects.take(m - w) =~= c.redirects);
        assert(c.words.take(w) =~= c.words);
        if m == w {
            assert(c.redirects =~= Seq::<RedirectV>::empty());
        }
    }
}

proof fn lemma_reads_command(t: Seq<TokV>, i: int, c: CommandV)
    requires
        stands(t, i, command_tokens(c)),
        command_ends(t, i + command_tokens(c).len()),
        is_command(c),
    ensures
        command_from(t, i, no_command()) == Ok::<(CommandV, int), ParseError>(
            (c, i + command_tokens(c).len()),
        ),
{
    lemma_reads_command_from(t, i, c, 0);
    assert(c.words.take(0) =~= Seq::<WordV>::empty());
}

proof fn lemma_piped_starts(t: Seq<TokV>, i: int, cs: Seq<CommandV>)
    requires
        stands(t, i, piped_tokens(cs)),
        command_ends(t, i + piped_tokens(cs).len()),
    ensures
        command_ends(t, i),
{
    if cs.len() > 0 {
        let p = piped_tokens(cs);
        assert(p[0] == TokV::Pipe);
        assert(t.subrange(i, i + p.len())[0] == p[0]);
    }
}

proof fn lemma_reads_pipes(t: Seq<TokV>, i: int, cs: Seq<CommandV>, acc: Seq<CommandV>)
    requires
        stands(t, i, piped_tokens(cs)),
        command_ends(t, i + piped_tokens(cs).len()),
        i + piped_tokens(cs).len() < t.len() ==> !(t[i + piped_tokens(cs).len()] is Pipe),
        forall|k: int| 0 <= k < cs.len() ==> is_command(#[trigger] cs[k]),
    ensures
        pipes_from(t, i, acc) == Ok::<(Seq<CommandV>, int), ParseError>(
            (acc + cs, i + piped_tokens(cs).len()),
        ),
    decreases cs.len(),
{
    if cs.len() == 0 {
        assert(acc + cs =~= acc);
    } else {
        let c = cs[0];
        let one = seq![TokV::Pipe];
        let rest = cs.drop_first();
        assert(piped_tokens(cs) == one + command_tokens(c) + piped_tokens(rest));
        lemma_stands(t, i, one + command_tokens(c), piped_tokens(rest));
        lemma_stands(t, i, one, command_tokens(c));
        assert(t.subrange(i, i + 1)[0] == one[0]);
        let j = i + 1 + command_tokens(c).len();
        assert(i + piped_tokens(cs).len() == j + piped_tokens(rest).len());
        lemma_piped_starts(t, j, rest);
        lemma_reads_command(t, i + 1, c);
        assert forall|k: int| 0 <= k < rest.len() implies is_command(#[trigger] rest[k]) by {
            assert(rest[k] == cs[k + 1]);
        }
        lemma_reads_pipes(t, j, rest, acc.push(c));
        assert(acc.push(c) + rest =~= acc + cs);
    }
}

proof fn lemma_reads_pipeline(t: Seq<TokV>, i: int, s: StmtV)
    requires
        is_pipeline(s),
        stands(t, i, statement_tokens(s)),
        command_ends(t, i + statement_tokens(s).len()),
        i + statement_tokens(s).len() < t.len() ==> !(t[i + statement_tokens(s).len()] is Pipe),
    ensures
        pipeline_from(t, i) == Ok::<(StmtV, int), ParseError>((s, i + statement_tokens(s).len())),
{
    match s {
        StmtV::Cmd(c) => {
            lemma_reads_command(t, i, c);
        },
        StmtV::Pipe(cs) => {
            let c = cs[0];
            let rest = cs.drop_first();
            lemma_stands(t, i, command_tokens(c), piped_tokens(rest));
            let j = i + command_tokens(c).len();
            assert(rest[0] == cs[1]);
            let p = piped_tokens(rest);
            assert(p[0] == TokV::Pipe);
            assert(t.subrange(j, j + p.len())[0] == p[0]);
            lemma_reads_command(t, i, c);
            assert forall|k: int| 0 <= k < rest.len() implies is_command(#[trigger] rest[k]) by {
                assert(rest[k] == cs[k + 1]);
            }
            lemma_reads_pipes(t, j, rest, seq![c]);
            assert(seq![c] + rest =~= cs);
        },
        _ => {},
    }
}

proof fn lemma_reads_chain(t: Seq<TokV>, i: int, s: StmtV)
    requires
        is_chain(s),
        stands(t, i, statement_tokens(s)),
        command_ends(t, i + statement_tokens(s).len()),
        i + statement_tokens(s).len() < t.len() ==> !(t[i + statement_tokens(s).len()] is Pipe),
    ensures
        and_or_from(t, i) == chain_from(t, i + statement_tokens(s).len(), s),
    decreases s,
{
    match s {
        StmtV::AndIf(l, r) => {
            lemma_reads_link(t, i, *l, TokV::AndIf, *r);
        },
        StmtV::OrIf(l, r) => {
            lemma_reads_link(t, i, *l, TokV::OrIf, *r);
        },
        _ => {
            lemma_reads_pipeline(t, i, s);
        },
    }
}

proof fn lemma_reads_link(t: Seq<TokV>, i: int, l: StmtV, op: TokV, r: StmtV)
    requires
        is_chain(l),
        is_pipeline(r),
        op is AndIf || op is OrIf,
        ({
            let p = statement_tokens(l) + seq![op] + statement_tokens(r);
            stands(t, i, p) && command_ends(t, i + p.len()) && (i + p.len() < t.len() ==> !(
            t[i + p.len()] is Pipe))
        }),
    ensures
        and_or_from(t, i) == chain_from(
            t,
            i + statement_tokens(l).len() + 1 + statement_tokens(r).len(),
            if op is AndIf {
                StmtV::AndIf(Box::new(l), Box::new(r))
            } else {
                StmtV::OrIf(Box::new(l), Box::new(r))
            },
        ),
    decreases l,
{
    let a = statement_tokens(l);
    let b = statement_tokens(r);
    lemma_stands(t, i, a + seq![op], b);
    lemma_stands(t, i, a, seq![op]);
    let j = i + a.len();
    assert(t.subrange(j, j + 1)[0] == seq![op][0]);
    match l {
        StmtV::AndIf(ll, lr) => {
            lemma_reads_link(t, i, *ll, TokV::AndIf, *lr);
        },
        StmtV::OrIf(ll, lr) => {
            lemma_reads_link(t, i, *ll, TokV::OrIf, *lr);
        },
        _ => {
            lemma_reads_pipeline(t, i, l);
        },
    }
    lemma_reads_pipeline(t, j + 1, r);
}

/// What `and_or_from` and then `rest_from` read from the start on.
spec fn read(t: Seq<TokV>) -> Result<(StmtV, int), ParseError> {
    match and_or_from(t, 0) {
        Err(e) => Err(e),
        Ok((left, j)) => rest_from(t, j, left),
    }
}

proof fn lemma_tokens_nonempty(s: StmtV)
    requires
        is_statement(s),
    ensures
        statement_tokens(s).len() > 0,
    decreases s,
{
    match s {
        StmtV::Pipe(cs) => {
            assert(is_command(cs[0]));
        },
        _ => {},
    }
}

proof fn lemma_reads_statement(t: Seq<TokV>, s: StmtV)
    requires
        is_statement(s),
        stands(t, 0, statement_tokens(s)),
        statement_tokens(s).len() < t.len() ==> t[statement_tokens(s).len() as int] is Semi,
    ensures
        read(t) == rest_from(t, statement_tokens(s).len() as int, s),
    decreases s,
{
    match s {
        StmtV::Sequence(l, r) => {
            let a = statement_tokens(*l);
            let b = statement_tokens(*r);
            lemma_stands(t, 0, a + seq![TokV::Semi], b);
            lemma_stands(t, 0, a, seq![TokV::Semi]);
            let j = a.len() as int;
            assert(t.subrange(j, j + 1)[0] == seq![TokV::Semi][0]);
            lemma_reads_statement(t, *l);
            lemma_tokens_nonempty(*r);
            lemma_reads_chain(t, j + 1, *r);
        },
        _ => {
            lemma_reads_chain(t, 0, s);
        },
    }
}

/// Every statement can be written, and is read back as it was.
pub proof fn law_written_statements_are_read_back(s: StmtV)
    requires
        is_statement(s),
    ensures
        statement(statement_tokens(s)) == Ok::<Option<StmtV>, ParseError>(Some(s)),
{
    let t = statement_tokens(s);
    assert(t.subrange(0, t.len() as int) =~= t);
    lemma_tokens_nonempty(s);
    lemma_reads_statement(t, s);
}

/// A `;` at the end of a statement changes nothing.
pub proof fn law_last_semicolon_is_optional(s: StmtV)
    requires
        is_statement(s),
    ensures
        statement(statement_tokens(s).push(TokV::Semi)) == statement(statement_tokens(s)),
{
    let p = statement_tokens(s);
    let t = p.push(TokV::Semi);
    assert(t.subrange(0, p.len() as int) =~= p);
    lemma_tokens_nonempty(s);
    lemma_reads_statement(t, s);
    law_written_statements_are_read_back(s);
}

// ---------- Quotes and comments ---------------------------------------------

/// The word that stands for the bytes `b`, one character for each.
pub open spec fn literal(b: Seq<u8>) -> WordV {
    if b.len() == 0 {
        Seq::empty()
    } else {
        seq![SegmentV::Literal(Seq::new(b.len(), |i: int| b[i] as char))]
    }
}

proof fn lemma_single_quotes(b: Seq<u8>, i: int)
    requires
        forall|k: int| 0 <= k < b.len() ==> b[k] != 39,
        0 <= i <= b.len(),
    ensures
        word_from(seq![39u8] + b + seq![39u8], i + 1, Quote::Single, literal(b.take(i))) == Ok::<
            (WordV, int),
            ParseError,
        >((literal(b), b.len() as int + 2)),
    decreases b.len() - i,
{
    let s = seq![39u8] + b + seq![39u8];
    if i == b.len() {
        assert(b.take(i) =~= b);
        assert(s[i + 1] == 39);
        assert(word_from(s, i + 2, Quote::Bare, literal(b)) == Ok::<(WordV, int), ParseError>(
            (literal(b), i + 2),
        ));
    } else {
        lemma_single_quotes(b, i + 1);
        assert(s[i + 1] == b[i]);
        let w = literal(b.take(i));
        let next = b.take(i + 1);
        if i == 0 {
            assert(Seq::new(next.len(), |k: int| next[k] as char) =~= seq![b[i] as char]);
            assert(put(w, b[i]) =~= literal(next));
        } else {
            let t = Seq::new(b.take(i).len(), |k: int| b.take(i)[k] as char);
            assert(w.last() == SegmentV::Literal(t));
            assert(t.push(b[i] as char) =~= Seq::new(next.len(), |k: int| next[k] as char));
            assert(put(w, b[i]) =~= literal(next));
        }
    }
}

/// Between single quotes every byte but a single quote stands for itself, as one character: the
/// quoted text is one word. A character outside ASCII is not read as itself but as its bytes.
pub proof fn law_single_quotes_are_literal(b: Seq<u8>)
    requires
        forall|k: int| 0 <= k < b.len() ==> b[k] != 39,
    ensures
        tokens_from(seq![39u8] + b + seq![39u8], 0, Seq::<TokV>::empty()) == Ok::<
            Seq<TokV>,
            ParseError,
        >(seq![TokV::Word(literal(b))]),
{
    let s = seq![39u8] + b + seq![39u8];
    lemma_single_quotes(b, 0);
    assert(b.take(0) =~= Seq::<u8>::empty());
    assert(s[0] == 39);
    assert(token_start(s, 0, false) == 0);
    assert(word_from(s, 0, Quote::Bare, Seq::<SegmentV>::empty()) == word_from(
        s,
        1,
        Quote::Single,
        Seq::<SegmentV>::empty(),
    ));
    assert(token_at(s, 0) == Ok::<(TokV, int), ParseError>(
        (TokV::Word(literal(b)), s.len() as int),
    ));
    let one = Seq::<TokV>::empty().push(TokV::Word(literal(b)));
    assert(token_start(s, s.len() as int, false) == s.len());
    assert(tokens_from(s, s.len() as int, one) == Ok::<Seq<TokV>, ParseError>(one));
    assert(one =~= seq![TokV::Word(literal(b))]);
}

/// A comment runs on to the end where there is no newline.
pub proof fn lemma_in_comment(s: Seq<u8>, i: int)
    requires
        0 <= i <= s.len(),
        forall|k: int| i <= k < s.len() ==> s[k] != 10,
    ensures
        token_start(s, i, true) == s.len(),
    decreases s.len() - i,
{
    if i < s.len() {
        lemma_in_comment(s, i + 1);
    }
}

/// A comment runs to the end of the line: a line that starts with `#` spells no statement.
pub proof fn law_comments_are_ignored(s: Seq<u8>)
    requires
        s.len() > 0,
        s[0] == 35,
        forall|k: int| 0 <= k < s.len() ==> s[k] != 10,
    ensures
        tokens_from(s, 0, Seq::<TokV>::empty()) == Ok::<Seq<TokV>, ParseError>(
            Seq::<TokV>::empty(),
        ),
        statement(Seq::<TokV>::empty()) == Ok::<Option<StmtV>, ParseError>(None),
{
    lemma_in_comment(s, 1);
}


// ---------- Text stays text -------------------------------------------------

proof fn lemma_ascii_is_text(b: Seq<u8>)
    requires
        forall|i: int| 0 <= i < b.len() ==> #[trigger] b[i] < 128,
    ensures
        valid_utf8(b),
    decreases b.len(),
{
    if b.len() > 0 {
        broadcast use utf8_byte_ranges_bitwise;

        assert(b[0] < 128);
        assert(is_leading_byte_width_1(b[0]));
        let x = b[0];
        assert(codepoint_width_1(x) < 0x80) by {
            assert(x & 0x7f < 0x80) by (bit_vector);
        }
        let rest = pop_first_scalar(b);
        assert(rest =~= b.subrange(1, b.len() as int));
        lemma_ascii_is_text(rest);
    }
}

/// What stands between two ASCII characters of a text, or behind the last, is a text.
proof fn lemma_between(s: Seq<u8>, i: int, j: int)
    requires
        valid_utf8(s),
        0 <= i < j <= s.len(),
        s[i] < 128,
        j < s.len() ==> s[j] < 128,
    ensures
        valid_utf8(s.subrange(i + 1, j)),
{
    broadcast use utf8_byte_ranges_bitwise;

    is_char_boundary_iff_not_is_continuation_byte(s, i);
    assert(!is_continuation_byte(s[i]));
    valid_utf8_split(s, i);
    let t = s.subrange(i, s.len() as int);
    assert(t[0] == s[i]);
    assert(is_leading_byte_width_1(t[0]));
    let u = pop_first_scalar(t);
    assert(u =~= s.subrange(i + 1, s.len() as int));
    if j < s.len() {
        let k = j - i - 1;
        assert(u[k] == s[j]);
        assert(!is_continuation_byte(u[k]));
        is_char_boundary_iff_not_is_continuation_byte(u, k);
        valid_utf8_split(u, k);
        assert(u.subrange(0, k) =~= s.subrange(i + 1, j));
    } else {
        assert(u =~= s.subrange(i + 1, j));
    }
}

proof fn lemma_brace_end(s: Seq<u8>, i: int)
    requires
        0 <= i <= s.len(),
    ensures
        i <= brace_end(s, i) <= s.len(),
        brace_end(s, i) < s.len() ==> s[brace_end(s, i)] == 125,
    decreases s.len() - i,
{
    if i < s.len() && s[i] != 125 {
        lemma_brace_end(s, i + 1);
    }
}

proof fn lemma_paren_end(s: Seq<u8>, i: int, depth: nat)
    requires
        0 <= i <= s.len(),
    ensures
        i <= paren_end(s, i, depth) <= s.len(),
        paren_end(s, i, depth) < s.len() ==> s[paren_end(s, i, depth)] == 41,
    decreases s.len() - i,
{
    if i < s.len() {
        if s[i] == 41 {
            if depth > 1 {
                lemma_paren_end(s, i + 1, (depth - 1) as nat);
            }
        } else if s[i] == 40 {
            lemma_paren_end(s, i + 1, depth + 1);
        } else {
            lemma_paren_end(s, i + 1, depth);
        }
    }
}

proof fn lemma_name_end(s: Seq<u8>, i: int)
    requires
        0 <= i <= s.len(),
    ensures
        i <= name_end(s, i) <= s.len(),
        forall|k: int| i <= k < name_end(s, i) ==> #[trigger] s[k] < 128,
    decreases s.len() - i,
{
    if i < s.len() && in_name(s[i]) {
        lemma_name_end(s, i + 1);
    }
}

proof fn lemma_dollar_text(s: Seq<u8>, i: int)
    requires
        valid_utf8(s),
        0 <= i < s.len(),
    ensures
        dollar(s, i) != Err::<(SegmentV, int), ParseError>(ParseError::NotText),
{
    if i + 1 < s.len() {
        if s[i + 1] == 123 {
            lemma_brace_end(s, i + 2);
            let j = brace_end(s, i + 2);
            if j < s.len() {
                lemma_between(s, i + 1, j);
            }
        } else if s[i + 1] == 40 {
            lemma_paren_end(s, i + 2, 1);
            let j = paren_end(s, i + 2, 1);
            if j < s.len() {
                lemma_between(s, i + 1, j);
            }
        } else if starts_name(s[i + 1]) {
            lemma_name_end(s, i + 1);
            let b = s.subrange(i + 1, name_end(s, i + 1));
            assert forall|k: int| 0 <= k < b.len() implies #[trigger] b[k] < 128 by {
                assert(b[k] == s[i + 1 + k]);
            }
            lemma_ascii_is_text(b);
        }
    }
}

proof fn lemma_word_text(s: Seq<u8>, i: int, q: Quote, w: WordV)
    requires
        valid_utf8(s),
        0 <= i,
    ensures
        word_from(s, i, q, w) != Err::<(WordV, int), ParseError>(ParseError::NotText),
    decreases s.len() - i,
{
    if i < s.len() {
        let c = s[i];
        if q == Quote::Bare && ends_word(c) {
        } else if q == Quote::Single {
            if c == 39 {
                lemma_word_text(s, i + 1, Quote::Bare, w);
            } else {
                lemma_word_text(s, i + 1, q, put(w, c));
            }
        } else if c == 34 {
            let p = if q == Quote::Bare {
                Quote::Double
            } else {
                Quote::Bare
            };
            lemma_word_text(s, i + 1, p, w);
        } else if q == Quote::Bare && c == 39 {
            lemma_word_text(s, i + 1, Quote::Single, w);
        } else if c == 36 {
            lemma_dollar_text(s, i);
            lemma_dollar(s, i);
            match dollar(s, i) {
                Err(e) => {},
                Ok((seg, j)) => {
                    lemma_word_text(s, j, q, w.push(seg));
                },
            }
        } else if c == 92 {
            if i + 1 >= s.len() {
                lemma_word_text(s, i + 1, q, w);
            } else if q == Quote::Bare || escapable(s[i + 1]) {
                lemma_word_text(s, i + 2, q, put(w, s[i + 1]));
            } else {
                lemma_word_text(s, i + 2, q, put(put(w, 92), s[i + 1]));
            }
        } else {
            lemma_word_text(s, i + 1, q, put(w, c));
        }
    }
}

proof fn lemma_tokens_text(s: Seq<u8>, i: int, acc: Seq<TokV>)
    requires
        valid_utf8(s),
        0 <= i <= s.len(),
    ensures
        tokens_from(s, i, acc) != Err::<Seq<TokV>, ParseError>(ParseError::NotText),
    decreases s.len() - i,
{
    lemma_token_start(s, i, false);
    let j = token_start(s, i, false);
    if j < s.len() {
        lemma_word_text(s, j, Quote::Bare, Seq::<SegmentV>::empty());
        lemma_token_at(s, j);
        match token_at(s, j) {
            Err(e) => {},
            Ok((t, k)) => {
                lemma_tokens_text(s, k, acc.push(t));
            },
        }
    }
}

proof fn lemma_command_text(t: Seq<TokV>, i: int, c: CommandV)
    requires
        0 <= i,
    ensures
        command_from(t, i, c) != Err::<(CommandV, int), ParseError>(ParseError::NotText),
    decreases t.len() - i,
{
    if i < t.len() {
        match t[i] {
            TokV::Word(w) => {
                lemma_command_text(
                    t,
                    i + 1,
                    CommandV { words: c.words.push(w), redirects: c.redirects },
                );
            },
            TokV::Redir(fd, op) => {
                if i + 1 < t.len() && t[i + 1] is Word {
                    let n = match fd {
                        Some(n) => n,
                        None => default_fd(op),
                    };
                    let r = RedirectV { fd: n, op, target: t[i + 1]->Word_0 };
                    lemma_command_text(
                        t,
                        i + 2,
                        CommandV { words: c.words, redirects: c.redirects.push(r) },
                    );
                }
            },
            _ => {},
        }
    }
}

proof fn lemma_pipes_text(t: Seq<TokV>, i: int, cs: Seq<CommandV>)
    requires
        0 <= i <= t.len(),
    ensures
        pipes_from(t, i, cs) != Err::<(Seq<CommandV>, int), ParseError>(ParseError::NotText),
    decreases t.len() - i,
{
    if i < t.len() && t[i] is Pipe {
        lemma_command_text(t, i + 1, no_command());
        lemma_command_from(t, i + 1, no_command());
        match command_from(t, i + 1, no_command()) {
            Err(e) => {},
            Ok((c, j)) => {
                lemma_pipes_text(t, j, cs.push(c));
            },
        }
    }
}

proof fn lemma_pipeline_text(t: Seq<TokV>, i: int)
    requires
        0 <= i <= t.len(),
    ensures
        pipeline_from(t, i) != Err::<(StmtV, int), ParseError>(ParseError::NotText),
{
    lemma_command_text(t, i, no_command());
    lemma_command_from(t, i, no_command());
    match command_from(t, i, no_command()) {
        Err(e) => {},
        Ok((c, j)) => {
            lemma_pipes_text(t, j, seq![c]);
        },
    }
}

proof fn lemma_chain_text(t: Seq<TokV>, i: int, left: StmtV)
    requires
        0 <= i <= t.len(),
    ensures
        chain_from(t, i, left) != Err::<(StmtV, int), ParseError>(ParseError::NotText),
    decreases t.len() - i,
{
    if i < t.len() && (t[i] is AndIf || t[i] is OrIf) {
        lemma_pipeline_text(t, i + 1);
        lemma_pipeline_from(t, i + 1);
        match pipeline_from(t, i + 1) {
            Err(e) => {},
            Ok((right, j)) => {
                let l = if t[i] is AndIf {
                    StmtV::AndIf(Box::new(left), Box::new(right))
                } else {
                    StmtV::OrIf(Box::new(left), Box::new(right))
                };
                lemma_chain_text(t, j, l);
            },
        }
    }
}

proof fn lemma_and_or_text(t: Seq<TokV>, i: int)
    requires
        0 <= i <= t.len(),
    ensures
        and_or_from(t, i) != Err::<(StmtV, int), ParseError>(ParseError::NotText),
{
    lemma_pipeline_text(t, i);
    lemma_pipeline_from(t, i);
    match pipeline_from(t, i) {
        Err(e) => {},
        Ok((left, j)) => {
            lemma_chain_text(t, j, left);
        },
    }
}

proof fn lemma_rest_text(t: Seq<TokV>, i: int, left: StmtV)
    requires
        0 <= i <= t.len(),
    ensures
        rest_from(t, i, left) != Err::<(StmtV, int), ParseError>(ParseError::NotText),
    decreases t.len() - i,
{
    if i < t.len() && t[i] is Semi && i + 1 < t.len() {
        lemma_and_or_text(t, i + 1);
        lemma_and_or_from(t, i + 1);
        match and_or_from(t, i + 1) {
            Err(e) => {},
            Ok((right, j)) => {
                lemma_rest_text(t, j, StmtV::Sequence(Box::new(left), Box::new(right)));
            },
        }
    }
}

/// A line is text, and so is every name and every substitution in it: reading one never fails
/// for want of text.
pub proof fn law_names_are_text(src: Seq<char>)
    ensures
        parsed(src) != Err::<Option<StmtV>, ParseError>(ParseError::NotText),
{
    broadcast use encode_utf8_valid_utf8;

    let s = encode_utf8(src);
    assert(valid_utf8(s));
    lemma_tokens_text(s, 0, Seq::empty());
    match tokens_from(s, 0, Seq::<TokV>::empty()) {
        Err(e) => {},
        Ok(t) => {
            if t.len() > 0 {
                lemma_and_or_text(t, 0);
                lemma_and_or_from(t, 0);
                match and_or_from(t, 0) {
                    Err(e) => {},
                    Ok((left, j)) => {
                        lemma_rest_text(t, j, left);
                    },
                }
            }
        },
    }
}

} // verus!
