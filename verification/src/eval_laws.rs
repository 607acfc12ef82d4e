//! What holds of every evaluation.

use vstd::prelude::*;

use crate::eval::{
    all_words, command_plan, conclude, eq_at, eval, eval_line, expand, expand_all, exported,
    exported_all, first_unsupported, is_builtin_command, is_pure_builtin, leaf_plan, leaf_run,
    leaf_words, lemma_stages_ask, opens, plain, stage_of, stages_plan, strip_newlines, subs,
    supported, unset_all, value, word_subs, ActionV, EvalErrorV, OpenV, OutcomeV, PlanV, ReplyV,
    StageV,
};
use crate::parse::{parsed, CommandV, RedirOp, RedirectV, SegmentV, StmtV, WordV};
use crate::text::{joined, signed_decimal};
use crate::tree::{ProcessV, StateV};

verus! {

// ---------- Builtins --------------------------------------------------------

proof fn lemma_plain(w: WordV)
    requires
        plain(w),
    ensures
        word_subs(w).len() == 0,
    decreases w.len(),
{
    if w.len() > 0 {
        let rest = w.drop_last();
        assert forall|i: int| 0 <= i < rest.len() implies !(#[trigger] rest[i] is Sub) by {
            assert(rest[i] == w[i]);
        }
        lemma_plain(rest);
        assert(!(w[w.len() - 1] is Sub));
    }
}

proof fn lemma_no_subs(ws: Seq<WordV>)
    requires
        forall|i: int| 0 <= i < ws.len() ==> plain(#[trigger] ws[i]),
    ensures
        subs(ws).len() == 0,
    decreases ws.len(),
{
    if ws.len() > 0 {
        let rest = ws.drop_last();
        assert forall|i: int| 0 <= i < rest.len() implies plain(#[trigger] rest[i]) by {
            assert(rest[i] == ws[i]);
        }
        lemma_no_subs(rest);
        assert(plain(ws[ws.len() - 1]));
        lemma_plain(ws.last());
    }
}

proof fn lemma_first_text(
    ws: Seq<WordV>,
    env: Map<Seq<char>, Seq<char>>,
    status: i32,
    caps: Seq<Seq<char>>,
)
    requires
        ws.len() > 0,
    ensures
        expand_all(ws, env, status, caps).len() == ws.len(),
        expand_all(ws, env, status, caps)[0] == expand(ws[0], env, status, caps, 0),
    decreases ws.len(),
{
    let rest = ws.drop_last();
    if ws.len() > 1 {
        lemma_first_text(rest, env, status, caps);
    } else {
        assert(subs(rest).len() == 0);
        assert(expand_all(rest, env, status, caps).len() == 0);
    }
}

proof fn lemma_one_command(c: CommandV)
    ensures
        leaf_words(seq![c]) == all_words(c),
{
    assert(seq![c].drop_last() =~= Seq::<CommandV>::empty());
    assert(leaf_words(seq![c].drop_last()) + all_words(c) =~= all_words(c));
}

proof fn lemma_builtin_command(
    c: CommandV,
    st: StateV,
    status: i32,
    capture: bool,
    replies: Seq<ReplyV>,
)
    requires
        is_builtin_command(c),
    ensures
        leaf_run(seq![c], false, Seq::empty(), st, status, capture, replies) matches OutcomeV::Stuck(
            a,
        ) ==> a is Canonicalize,
{
    lemma_one_command(c);
    let ws = all_words(c);
    assert forall|i: int| 0 <= i < ws.len() implies plain(#[trigger] ws[i]) by {
        if i < c.words.len() {
            assert(ws[i] == c.words[i]);
        } else {
            assert(ws[i] == c.redirects[i - c.words.len()].target);
        }
    }
    lemma_no_subs(ws);
    let caps = Seq::<Seq<char>>::empty();
    let texts = expand_all(ws, st.env, status, caps);
    if c.words.len() > 0 {
        lemma_first_text(ws, st.env, status, caps);
        let w = c.words[0];
        assert(ws[0] == w);
        let name = w[0]->Literal_0;
        assert(w.drop_last() =~= Seq::<SegmentV>::empty());
        assert(w.last() == w[0]);
        assert(expand(w.drop_last(), st.env, status, caps, 0) =~= Seq::<char>::empty());
        assert(expand(w, st.env, status, caps, 0) =~= name);
        assert(texts.take(c.words.len() as int)[0] == name);
    }
}

/// A line of builtins spawns nothing: all that it ever asks for is to resolve a directory.
pub proof fn law_pure_builtins_spawn_nothing(
    s: StmtV,
    st: StateV,
    status: i32,
    capture: bool,
    replies: Seq<ReplyV>,
)
    requires
        is_pure_builtin(s),
    ensures
        eval(s, st, status, capture, replies) matches OutcomeV::Stuck(a) ==> a is Canonicalize,
    decreases s,
{
    match s {
        StmtV::Cmd(c) => {
            lemma_builtin_command(c, st, status, capture, replies);
        },
        StmtV::Pipe(cs) => {},
        StmtV::Sequence(l, r) => {
            law_pure_builtins_spawn_nothing(*l, st, status, capture, replies);
            if let OutcomeV::Done(s1, e1, rest) = eval(*l, st, status, capture, replies) {
                law_pure_builtins_spawn_nothing(*r, s1, e1, capture, rest);
            }
        },
        StmtV::AndIf(l, r) => {
            law_pure_builtins_spawn_nothing(*l, st, status, capture, replies);
            if let OutcomeV::Done(s1, e1, rest) = eval(*l, st, status, capture, replies) {
                law_pure_builtins_spawn_nothing(*r, s1, e1, capture, rest);
            }
        },
        StmtV::OrIf(l, r) => {
            law_pure_builtins_spawn_nothing(*l, st, status, capture, replies);
            if let OutcomeV::Done(s1, e1, rest) = eval(*l, st, status, capture, replies) {
                law_pure_builtins_spawn_nothing(*r, s1, e1, capture, rest);
            }
        },
    }
}

// ---------- State -----------------------------------------------------------

/// A process that ran leaves the state as it was: what it did to its directory and environment
/// dies with it.
pub proof fn law_processes_leave_the_state(
    a: ActionV,
    st: StateV,
    reply: ReplyV,
    rest: Seq<ReplyV>,
)
    requires
        a is Spawn || a is Pty || a is Pipeline,
    ensures
        conclude(a, st, reply, rest) matches OutcomeV::Done(s, code, _) ==> s == st
            && reply == ReplyV::Exited(code),
{
}

proof fn lemma_pipeline_state(
    cs: Seq<CommandV>,
    caps: Seq<Seq<char>>,
    st: StateV,
    status: i32,
    capture: bool,
    replies: Seq<ReplyV>,
)
    requires
        cs.len() != 1,
    ensures
        leaf_run(cs, true, caps, st, status, capture, replies) matches OutcomeV::Done(s, _, _)
            ==> s == st,
    decreases subs(leaf_words(cs)).len() - caps.len(),
{
    let srcs = subs(leaf_words(cs));
    if caps.len() < srcs.len() {
        if replies.len() > 0 {
            if let ReplyV::Captured(t) = replies[0] {
                lemma_pipeline_state(
                    cs,
                    caps.push(t),
                    st,
                    status,
                    capture,
                    replies.drop_first(),
                );
            }
        }
    } else {
        let texts = expand_all(leaf_words(cs), st.env, status, caps);
        lemma_stages_ask(cs, texts, st, 0, 0, Seq::empty());
    }
}

/// A pipeline leaves the state as it was, even where its stages are named like builtins.
pub proof fn law_pipelines_leave_the_state(
    cs: Seq<CommandV>,
    st: StateV,
    status: i32,
    capture: bool,
    replies: Seq<ReplyV>,
)
    requires
        cs.len() != 1,
    ensures
        eval(StmtV::Pipe(cs), st, status, capture, replies) matches OutcomeV::Done(s, _, _) ==> s
            == st,
{
    lemma_pipeline_state(cs, Seq::empty(), st, status, capture, replies);
}

/// `cd` keeps `PWD` in step with the working directory, and changes no other variable.
pub proof fn law_cd_keeps_pwd_in_step(
    target: Seq<char>,
    st: StateV,
    reply: ReplyV,
    rest: Seq<ReplyV>,
)
    ensures
        conclude(ActionV::Canonicalize { target }, st, reply, rest) matches OutcomeV::Done(
            s,
            code,
            _,
        ) ==> {
            &&& code == 0
            &&& s.env.contains_key("PWD"@)
            &&& s.env["PWD"@] == s.cwd
            &&& reply == ReplyV::Resolved(s.cwd)
            &&& s.env.remove("PWD"@) == st.env.remove("PWD"@)
        },
{
    if let ReplyV::Resolved(dir) = reply {
        assert(st.env.insert("PWD"@, dir).remove("PWD"@) =~= st.env.remove("PWD"@));
    }
}

proof fn lemma_eq_at(name: Seq<char>, v: Seq<char>, i: int)
    requires
        0 <= i <= name.len(),
        forall|k: int| 0 <= k < name.len() ==> name[k] != '=',
    ensures
        eq_at(name + seq!['='] + v, i) == name.len(),
    decreases name.len() - i,
{
    let s = name + seq!['='] + v;
    if i < name.len() {
        assert(s[i] == name[i]);
        lemma_eq_at(name, v, i + 1);
    } else {
        assert(s[i] == '=');
    }
}

/// What is exported is what later commands see.
pub proof fn law_exports_are_seen(
    env: Map<Seq<char>, Seq<char>>,
    name: Seq<char>,
    v: Seq<char>,
)
    requires
        forall|k: int| 0 <= k < name.len() ==> name[k] != '=',
    ensures
        value(name, exported(env, name + seq!['='] + v)) == v,
{
    let s = name + seq!['='] + v;
    lemma_eq_at(name, v, 0);
    assert(s.take(name.len() as int) =~= name);
    assert(s.skip(name.len() as int + 1) =~= v);
}

// ---------- Order -----------------------------------------------------------

/// `&&` goes on only after success, `||` only after failure, `;` always; what is skipped changes
/// nothing and asks for nothing. A line that fails, or waits, goes no further.
pub proof fn law_chains_short_circuit(
    l: StmtV,
    r: StmtV,
    st: StateV,
    status: i32,
    capture: bool,
    replies: Seq<ReplyV>,
)
    ensures
        eval(l, st, status, capture, replies) matches OutcomeV::Done(s1, e1, rest) ==> {
            let left = eval(l, st, status, capture, replies);
            let right = eval(r, s1, e1, capture, rest);
            let and = StmtV::AndIf(Box::new(l), Box::new(r));
            let or = StmtV::OrIf(Box::new(l), Box::new(r));
            let seq = StmtV::Sequence(Box::new(l), Box::new(r));
            &&& eval(and, st, status, capture, replies) == if e1 == 0 { right } else { left }
            &&& eval(or, st, status, capture, replies) == if e1 == 0 { left } else { right }
            &&& eval(seq, st, status, capture, replies) == right
        },
        !(eval(l, st, status, capture, replies) is Done) ==> {
            let left = eval(l, st, status, capture, replies);
            let and = StmtV::AndIf(Box::new(l), Box::new(r));
            let or = StmtV::OrIf(Box::new(l), Box::new(r));
            let seq = StmtV::Sequence(Box::new(l), Box::new(r));
            &&& eval(and, st, status, capture, replies) == left
            &&& eval(or, st, status, capture, replies) == left
            &&& eval(seq, st, status, capture, replies) == left
        },
{
}

/// `out` with `more` behind the replies that were not needed.
pub open spec fn extended(out: OutcomeV, more: Seq<ReplyV>) -> OutcomeV {
    match out {
        OutcomeV::Done(s, code, rest) => OutcomeV::Done(s, code, rest + more),
        o => o,
    }
}

proof fn lemma_leaf_stands(
    cs: Seq<CommandV>,
    piped: bool,
    caps: Seq<Seq<char>>,
    st: StateV,
    status: i32,
    capture: bool,
    replies: Seq<ReplyV>,
    more: Seq<ReplyV>,
)
    ensures
        ({
            let out = leaf_run(cs, piped, caps, st, status, capture, replies);
            out is Stuck || leaf_run(cs, piped, caps, st, status, capture, replies + more)
                == extended(out, more)
        }),
    decreases subs(leaf_words(cs)).len() - caps.len(),
{
    let srcs = subs(leaf_words(cs));
    if replies.len() > 0 {
        assert((replies + more)[0] == replies[0]);
        assert((replies + more).drop_first() =~= replies.drop_first() + more);
    }
    if caps.len() < srcs.len() {
        if replies.len() > 0 {
            if let ReplyV::Captured(t) = replies[0] {
                lemma_leaf_stands(
                    cs,
                    piped,
                    caps.push(t),
                    st,
                    status,
                    capture,
                    replies.drop_first(),
                    more,
                );
            }
        }
    } else {
        let texts = expand_all(leaf_words(cs), st.env, status, caps);
        if let PlanV::Ask(a) = leaf_plan(cs, piped, texts, st, capture) {
            if replies.len() > 0 {
                assert(conclude(a, st, replies[0], replies.drop_first() + more) == extended(
                    conclude(a, st, replies[0], replies.drop_first()),
                    more,
                ));
            }
        }
    }
}

/// What was decided stands: replies that come later than an evaluation needs them do not change
/// what it came to.
pub proof fn law_outcomes_stand(
    s: StmtV,
    st: StateV,
    status: i32,
    capture: bool,
    replies: Seq<ReplyV>,
    more: Seq<ReplyV>,
)
    ensures
        ({
            let out = eval(s, st, status, capture, replies);
            out is Stuck || eval(s, st, status, capture, replies + more) == extended(out, more)
        }),
    decreases s,
{
    match s {
        StmtV::Cmd(c) => {
            lemma_leaf_stands(
                seq![c],
                false,
                Seq::empty(),
                st,
                status,
                capture,
                replies,
                more,
            );
        },
        StmtV::Pipe(cs) => {
            lemma_leaf_stands(cs, true, Seq::empty(), st, status, capture, replies, more);
        },
        StmtV::Sequence(l, r) => {
            law_outcomes_stand(*l, st, status, capture, replies, more);
            if let OutcomeV::Done(s1, e1, rest) = eval(*l, st, status, capture, replies) {
                law_outcomes_stand(*r, s1, e1, capture, rest, more);
            }
        },
        StmtV::AndIf(l, r) => {
            law_outcomes_stand(*l, st, status, capture, replies, more);
            if let OutcomeV::Done(s1, e1, rest) = eval(*l, st, status, capture, replies) {
                law_outcomes_stand(*r, s1, e1, capture, rest, more);
            }
        },
        StmtV::OrIf(l, r) => {
            law_outcomes_stand(*l, st, status, capture, replies, more);
            if let OutcomeV::Done(s1, e1, rest) = eval(*l, st, status, capture, replies) {
                law_outcomes_stand(*r, s1, e1, capture, rest, more);
            }
        },
    }
}

// ---------- Words -----------------------------------------------------------

/// Words that stand for the texts `ts` as they are.
pub open spec fn literals(ts: Seq<Seq<char>>) -> Seq<WordV>
    decreases ts.len(),
{
    if ts.len() == 0 {
        Seq::empty()
    } else {
        literals(ts.drop_last()).push(seq![SegmentV::Literal(ts.last())])
    }
}

proof fn lemma_literal_word(
    t: Seq<char>,
    env: Map<Seq<char>, Seq<char>>,
    status: i32,
    caps: Seq<Seq<char>>,
    off: int,
)
    ensures
        plain(seq![SegmentV::Literal(t)]),
        expand(seq![SegmentV::Literal(t)], env, status, caps, off) == t,
{
    let w = seq![SegmentV::Literal(t)];
    assert(w.drop_last() =~= Seq::<SegmentV>::empty());
    assert(expand(w.drop_last(), env, status, caps, off) =~= Seq::<char>::empty());
    assert(expand(w, env, status, caps, off) =~= t);
}

proof fn lemma_literals(
    ts: Seq<Seq<char>>,
    env: Map<Seq<char>, Seq<char>>,
    status: i32,
    caps: Seq<Seq<char>>,
)
    ensures
        literals(ts).len() == ts.len(),
        forall|i: int| 0 <= i < ts.len() ==> plain(#[trigger] literals(ts)[i]),
        subs(literals(ts)).len() == 0,
        expand_all(literals(ts), env, status, caps) == ts,
    decreases ts.len(),
{
    let ws = literals(ts);
    if ts.len() > 0 {
        let rest = ts.drop_last();
        lemma_literals(rest, env, status, caps);
        lemma_literal_word(ts.last(), env, status, caps, 0);
        assert(ws.drop_last() =~= literals(rest));
        assert forall|i: int| 0 <= i < ts.len() implies plain(#[trigger] ws[i]) by {
            if i < rest.len() {
                assert(ws[i] == literals(rest)[i]);
            }
        }
        lemma_no_subs(ws);
        assert(expand_all(ws, env, status, caps) =~= rest.push(ts.last()));
        assert(rest.push(ts.last()) =~= ts);
    } else {
        assert(expand_all(ws, env, status, caps) =~= ts);
    }
}

/// Parts of a word stand side by side: a literal for itself, a variable for its value or for
/// nothing, `$?` for the exit code in decimal, and a substitution for its output without the
/// newlines at its end.
pub proof fn law_words_expand_part_by_part(
    w: WordV,
    g: SegmentV,
    env: Map<Seq<char>, Seq<char>>,
    status: i32,
    caps: Seq<Seq<char>>,
    off: int,
)
    requires
        0 <= off,
        off + word_subs(w.push(g)).len() <= caps.len(),
    ensures
        expand(Seq::empty(), env, status, caps, off) == Seq::<char>::empty(),
        ({
            let before = expand(w, env, status, caps, off);
            let all = expand(w.push(g), env, status, caps, off);
            let part = all.skip(before.len() as int);
            &&& all == before + part
            &&& g matches SegmentV::Literal(t) ==> part == t
            &&& g matches SegmentV::Var(n) ==> if env.contains_key(n) {
                part == env[n]
            } else {
                part.len() == 0
            }
            &&& g is Status ==> part == signed_decimal(status as int)
            &&& g is Sub ==> {
                let out = caps[off + word_subs(w).len()];
                &&& part.len() > 0 ==> part.last() != '\n'
                &&& part.is_prefix_of(out)
                &&& forall|i: int| part.len() <= i < out.len() ==> #[trigger] out[i] == '\n'
            }
        }),
{
    let v = w.push(g);
    assert(v.drop_last() =~= w);
    let before = expand(w, env, status, caps, off);
    let all = expand(v, env, status, caps, off);
    assert(v.last() == g);
    if g is Sub {
        lemma_strip_newlines(caps[off + word_subs(w).len()]);
    }
    let part = match g {
        SegmentV::Literal(s) => s,
        SegmentV::Var(n) => value(n, env),
        SegmentV::Status => signed_decimal(status as int),
        SegmentV::Sub(_) => strip_newlines(caps[off + word_subs(w).len()]),
    };
    assert(all == before + part);
    assert(all.skip(before.len() as int) =~= part);
}

proof fn lemma_strip_newlines(s: Seq<char>)
    ensures
        strip_newlines(s).len() > 0 ==> strip_newlines(s).last() != '\n',
        strip_newlines(s).is_prefix_of(s),
        forall|i: int| strip_newlines(s).len() <= i < s.len() ==> #[trigger] s[i] == '\n',
    decreases s.len(),
{
    if s.len() > 0 && s.last() == '\n' {
        let p = s.drop_last();
        lemma_strip_newlines(p);
        let n = strip_newlines(s).len() as int;
        assert(s.subrange(0, n) =~= p.subrange(0, n));
        assert forall|i: int| n <= i < s.len() implies #[trigger] s[i] == '\n' by {
            if i < p.len() {
                assert(p[i] == '\n');
            }
        }
    } else {
        assert(s.subrange(0, s.len() as int) =~= s);
    }
}

/// A line that a command substitutes is asked for, in the state and with the exit code at hand,
/// before the command itself runs, and one after the other.
pub proof fn law_substitutions_come_first(
    c: CommandV,
    st: StateV,
    status: i32,
    capture: bool,
    outs: Seq<Seq<char>>,
)
    requires
        outs.len() < subs(c.words + c.redirects.map_values(|r: RedirectV| r.target)).len(),
    ensures
        eval(StmtV::Cmd(c), st, status, capture, captures(outs)) == OutcomeV::Stuck(
            ActionV::Substitute {
                source: subs(c.words + c.redirects.map_values(|r: RedirectV| r.target))[
                    outs.len() as int
                ],
                state: st,
                status,
            },
        ),
{
    lemma_one_command(c);
    lemma_captures(seq![c], Seq::empty(), st, status, capture, outs);
}

/// The replies of substitutions that put out `outs`.
pub open spec fn captures(outs: Seq<Seq<char>>) -> Seq<ReplyV> {
    outs.map_values(|t: Seq<char>| ReplyV::Captured(t))
}

proof fn lemma_captures(
    cs: Seq<CommandV>,
    caps: Seq<Seq<char>>,
    st: StateV,
    status: i32,
    capture: bool,
    outs: Seq<Seq<char>>,
)
    requires
        caps.len() + outs.len() < subs(leaf_words(cs)).len(),
    ensures
        leaf_run(cs, false, caps, st, status, capture, captures(outs)) == OutcomeV::Stuck(
            ActionV::Substitute {
                source: subs(leaf_words(cs))[(caps.len() + outs.len()) as int],
                state: st,
                status,
            },
        ),
    decreases outs.len(),
{
    if outs.len() > 0 {
        lemma_captures(cs, caps.push(outs[0]), st, status, capture, outs.drop_first());
        assert(captures(outs).drop_first() =~= captures(outs.drop_first()));
        assert(captures(outs)[0] == ReplyV::Captured(outs[0]));
    }
}

// ---------- Commands --------------------------------------------------------

/// The command that the texts `argv` spell, with nothing redirected.
pub open spec fn simple(argv: Seq<Seq<char>>) -> CommandV {
    CommandV { words: literals(argv), redirects: Seq::empty() }
}

proof fn lemma_simple(
    argv: Seq<Seq<char>>,
    st: StateV,
    status: i32,
    capture: bool,
    replies: Seq<ReplyV>,
)
    ensures
        eval(StmtV::Cmd(simple(argv)), st, status, capture, replies) == match command_plan(
            simple(argv),
            argv,
            st,
            capture,
            true,
        ) {
            PlanV::Finish(s, code) => OutcomeV::Done(s, code, replies),
            PlanV::Refuse(e) => OutcomeV::Fail(e),
            PlanV::Ask(a) => if replies.len() == 0 {
                OutcomeV::Stuck(a)
            } else {
                conclude(a, st, replies[0], replies.drop_first())
            },
        },
        argv.take(simple(argv).words.len() as int) == argv,
        argv.skip(simple(argv).words.len() as int) == Seq::<Seq<char>>::empty(),
{
    let c = simple(argv);
    lemma_one_command(c);
    lemma_literals(argv, st.env, status, Seq::empty());
    assert(all_words(c) =~= literals(argv));
    assert(argv.take(argv.len() as int) =~= argv);
    assert(argv.skip(argv.len() as int) =~= Seq::<Seq<char>>::empty());
    assert(seq![c].len() == 1 && seq![c][0] == c);
}

proof fn lemma_names_differ()
    ensures
        "cd"@ != "export"@,
        "cd"@ != "unset"@,
        "export"@ != "unset"@,
{
    reveal_strlit("cd");
    reveal_strlit("export");
    reveal_strlit("unset");
    assert("export"@[0] != "unset"@[0]);
}

proof fn lemma_unset_all(
    env: Map<Seq<char>, Seq<char>>,
    names: Seq<Seq<char>>,
    n: Seq<char>,
)
    ensures
        unset_all(env, names).contains_key(n) <==> env.contains_key(n) && !names.contains(n),
        unset_all(env, names).contains_key(n) ==> unset_all(env, names)[n] == env[n],
    decreases names.len(),
{
    if names.len() > 0 {
        let rest = names.drop_last();
        lemma_unset_all(env, rest, n);
        assert(names[names.len() - 1] == names.last());
        if names.contains(n) && n != names.last() {
            let i = choose|i: int| 0 <= i < names.len() && names[i] == n;
            assert(rest[i] == n);
        }
        if rest.contains(n) {
            let i = choose|i: int| 0 <= i < rest.len() && rest[i] == n;
            assert(names[i] == n);
        }
    }
}

/// `unset` takes the named variables out of the environment and no other, and stays where it is.
pub proof fn law_unset_takes_the_names_out(
    names: Seq<Seq<char>>,
    st: StateV,
    status: i32,
    capture: bool,
    replies: Seq<ReplyV>,
)
    ensures
        eval(
            StmtV::Cmd(simple(seq!["unset"@] + names)),
            st,
            status,
            capture,
            replies,
        ) matches OutcomeV::Done(s, code, rest) && code == 0 && rest == replies && s.cwd == st.cwd
            && (forall|n: Seq<char>| names.contains(n) ==> !#[trigger] s.env.contains_key(n)) && (
        forall|n: Seq<char>|
            !names.contains(n) ==> (#[trigger] s.env.contains_key(n) <==> st.env.contains_key(n)))
            && (forall|n: Seq<char>|
            !names.contains(n) && st.env.contains_key(n) ==> #[trigger] s.env[n] == st.env[n]),
{
    let argv = seq!["unset"@] + names;
    lemma_simple(argv, st, status, capture, replies);
    lemma_names_differ();
    assert forall|n: Seq<char>|
        (#[trigger] unset_all(st.env, names).contains_key(n) <==> st.env.contains_key(n)
            && !names.contains(n)) && (unset_all(st.env, names).contains_key(n) ==> unset_all(
            st.env,
            names,
        )[n] == st.env[n]) by {
        lemma_unset_all(st.env, names, n);
    }
    let after = unset_all(st.env, names);
    assert forall|n: Seq<char>|
        !names.contains(n) && st.env.contains_key(n) implies #[trigger] after[n] == st.env[n] by {
        assert(after.contains_key(n));
    }
    assert(argv[0] == "unset"@);
    assert(argv.skip(1) =~= names);
    assert(simple(argv).words.len() == argv.len()) by {
        lemma_literals(argv, st.env, status, Seq::empty());
    }
}

/// The argument `arg` of `export` sets the variable `n` to `v`: it is the name, an equals sign and
/// the value, and the name holds no equals sign.
pub open spec fn sets(arg: Seq<char>, n: Seq<char>, v: Seq<char>) -> bool {
    &&& arg == n + seq!['='] + v
    &&& !n.contains('=')
}

proof fn lemma_first_eq(arg: Seq<char>, i: int)
    requires
        0 <= i <= arg.len(),
        !arg.take(i).contains('='),
    ensures
        i <= eq_at(arg, i) <= arg.len(),
        !arg.take(eq_at(arg, i)).contains('='),
        eq_at(arg, i) < arg.len() ==> arg[eq_at(arg, i)] == '=',
    decreases arg.len() - i,
{
    if i < arg.len() && arg[i] != '=' {
        let t = arg.take(i + 1);
        assert forall|k: int| 0 <= k < t.len() implies t[k] != '=' by {
            if k < i {
                assert(t[k] == arg.take(i)[k]);
            }
        }
        lemma_first_eq(arg, i + 1);
    }
}

proof fn lemma_exported(env: Map<Seq<char>, Seq<char>>, arg: Seq<char>)
    ensures
        forall|n: Seq<char>, v: Seq<char>| #[trigger]
            sets(arg, n, v) ==> exported(env, arg) == env.insert(n, v),
        (forall|n: Seq<char>, v: Seq<char>| !#[trigger] sets(arg, n, v)) ==> exported(env, arg)
            == env,
{
    let i = eq_at(arg, 0);
    assert(arg.take(0) =~= Seq::<char>::empty());
    lemma_first_eq(arg, 0);
    assert forall|n: Seq<char>, v: Seq<char>| #[trigger] sets(arg, n, v) implies exported(env, arg)
        == env.insert(n, v) by {
        assert forall|k: int| 0 <= k < n.len() implies n[k] != '=' by {
            assert(n.contains(n[k]));
        }
        lemma_eq_at(n, v, 0);
        assert(arg.take(i) =~= n);
        assert(arg.skip(i + 1) =~= v);
    }
    if i < arg.len() {
        assert(arg =~= arg.take(i) + seq!['='] + arg.skip(i + 1));
        assert(sets(arg, arg.take(i), arg.skip(i + 1)));
    }
}

proof fn lemma_exported_all(
    env: Map<Seq<char>, Seq<char>>,
    args: Seq<Seq<char>>,
    n: Seq<char>,
    k: int,
)
    requires
        -1 <= k < args.len(),
        forall|j: int, v: Seq<char>| k < j < args.len() ==> !#[trigger] sets(args[j], n, v),
    ensures
        k < 0 ==> {
            let e = exported_all(env, args);
            &&& e.contains_key(n) <==> env.contains_key(n)
            &&& env.contains_key(n) ==> e[n] == env[n]
        },
        forall|v: Seq<char>|
            0 <= k && #[trigger] sets(args[k], n, v) ==> exported_all(env, args).contains_key(n)
                && exported_all(env, args)[n] == v,
    decreases args.len(),
{
    if args.len() > 0 {
        let rest = args.drop_last();
        let last = args.last();
        let e = exported_all(env, rest);
        lemma_exported(e, last);
        if k < args.len() - 1 {
            assert forall|j: int, v: Seq<char>| k < j < rest.len() implies !#[trigger] sets(
                rest[j],
                n,
                v,
            ) by {
                assert(rest[j] == args[j]);
            }
            lemma_exported_all(env, rest, n, k);
            assert(args[args.len() - 1] == last);
            if exists|m: Seq<char>, v: Seq<char>| #[trigger] sets(last, m, v) {
                let (m, v) = choose|m: Seq<char>, v: Seq<char>| #[trigger] sets(last, m, v);
                assert(exported(e, last) == e.insert(m, v));
                assert(m != n);
            }
            if k >= 0 {
                assert(rest[k] == args[k]);
            }
        } else {
            assert(args[k] == last);
        }
    }
}

/// `export` sets each variable that it is told to the value that it is told last, and no other;
/// what holds no equals sign is passed over.
pub proof fn law_export_sets_what_it_is_told(
    args: Seq<Seq<char>>,
    st: StateV,
    status: i32,
    capture: bool,
    replies: Seq<ReplyV>,
    n: Seq<char>,
)
    ensures
        eval(
            StmtV::Cmd(simple(seq!["export"@] + args)),
            st,
            status,
            capture,
            replies,
        ) matches OutcomeV::Done(s, code, rest) && code == 0 && rest == replies && s.cwd == st.cwd
            && (forall|k: int, v: Seq<char>|
            0 <= k < args.len() && #[trigger] sets(args[k], n, v) && (forall|j: int, u: Seq<char>|
                k < j < args.len() ==> !#[trigger] sets(args[j], n, u)) ==> s.env.contains_key(n)
                && s.env[n] == v) && ((forall|j: int, u: Seq<char>|
            0 <= j < args.len() ==> !#[trigger] sets(args[j], n, u)) ==> (s.env.contains_key(n)
            <==> st.env.contains_key(n)) && (st.env.contains_key(n) ==> s.env[n] == st.env[n])),
{
    let argv = seq!["export"@] + args;
    lemma_simple(argv, st, status, capture, replies);
    lemma_names_differ();
    assert(argv[0] == "export"@);
    assert(argv.skip(1) =~= args);
    assert(simple(argv).words.len() == argv.len()) by {
        lemma_literals(argv, st.env, status, Seq::empty());
    }
    let e = exported_all(st.env, args);
    assert forall|k: int, v: Seq<char>|
        0 <= k < args.len() && #[trigger] sets(args[k], n, v) && (forall|j: int, u: Seq<char>|
            k < j < args.len() ==> !#[trigger] sets(args[j], n, u)) implies e.contains_key(n)
        && e[n] == v by {
        lemma_exported_all(st.env, args, n, k);
    }
    if forall|j: int, u: Seq<char>| 0 <= j < args.len() ==> !#[trigger] sets(args[j], n, u) {
        lemma_exported_all(st.env, args, n, -1);
    }
}

/// `cd` goes to its argument as seen from the working directory, or without one to `HOME`, and
/// lets the rest of its arguments be; it does not know where to go without either.
pub proof fn law_cd_goes_where_it_is_told(
    args: Seq<Seq<char>>,
    st: StateV,
    status: i32,
    capture: bool,
)
    ensures
        ({
            let c = StmtV::Cmd(simple(seq!["cd"@] + args));
            let out = eval(c, st, status, capture, Seq::empty());
            &&& args.len() > 0 ==> (out matches OutcomeV::Stuck(ActionV::Canonicalize { target })
                && target == joined(st.cwd, args[0]))
            &&& args.len() == 0 && st.env.contains_key("HOME"@) ==> (out matches OutcomeV::Stuck(
                ActionV::Canonicalize { target },
            ) && target == st.env["HOME"@])
            &&& args.len() == 0 && !st.env.contains_key("HOME"@) ==> out == OutcomeV::Fail(
                EvalErrorV::NoHome,
            )
        }),
{
    let argv = seq!["cd"@] + args;
    lemma_simple(argv, st, status, capture, Seq::empty());
    lemma_names_differ();
    assert(argv[0] == "cd"@);
    if args.len() > 0 {
        assert(argv[1] == args[0]);
    }
    assert(simple(argv).words.len() == argv.len()) by {
        lemma_literals(argv, st.env, status, Seq::empty());
    }
}

/// Any other command is one process that is given the words, the working directory and the
/// environment: in a terminal where the environment asks for one and the output is not captured,
/// else on pipes with no file opened. Its exit code is that of the command, and the state is as it
/// was.
pub proof fn law_other_commands_are_processes(
    argv: Seq<Seq<char>>,
    st: StateV,
    status: i32,
    capture: bool,
    code: i32,
)
    requires
        argv.len() > 0,
        argv[0] != "cd"@ && argv[0] != "export"@ && argv[0] != "unset"@,
    ensures
        ({
            let c = StmtV::Cmd(simple(argv));
            let out = eval(c, st, status, capture, Seq::empty());
            let p = ProcessV { argv, cwd: st.cwd, env: st.env };
            let tty = st.env.contains_key("FERN_IO"@) && st.env["FERN_IO"@] == "tty"@;
            &&& out == OutcomeV::Stuck(
                if tty && !capture {
                    ActionV::Pty { process: p, attach: true }
                } else {
                    ActionV::Spawn { process: p, opens: Seq::empty() }
                },
            )
            &&& eval(c, st, status, capture, seq![ReplyV::Exited(code)]) == OutcomeV::Done(
                st,
                code,
                Seq::empty(),
            )
        }),
{
    let one = seq![ReplyV::Exited(code)];
    lemma_simple(argv, st, status, capture, Seq::empty());
    lemma_simple(argv, st, status, capture, one);
    assert(one.drop_first() =~= Seq::<ReplyV>::empty());
    assert(simple(argv).words.len() == argv.len()) by {
        lemma_literals(argv, st.env, status, Seq::empty());
    }
    let rs = Seq::<RedirectV>::empty();
    assert(opens(rs, Seq::empty(), 0) =~= Seq::<OpenV>::empty());
}

// ---------- Redirections ----------------------------------------------------

/// Redirections to files with the names `paths`.
pub open spec fn redirected(rs: Seq<(i32, RedirOp)>, paths: Seq<Seq<char>>) -> Seq<RedirectV>
    decreases rs.len(),
{
    if rs.len() == 0 {
        Seq::empty()
    } else {
        redirected(rs.drop_last(), paths.drop_last()).push(
            RedirectV {
                fd: rs.last().0,
                op: rs.last().1,
                target: seq![SegmentV::Literal(paths.last())],
            },
        )
    }
}

proof fn lemma_redirected(rs: Seq<(i32, RedirOp)>, paths: Seq<Seq<char>>)
    requires
        rs.len() == paths.len(),
    ensures
        redirected(rs, paths).len() == rs.len(),
        forall|i: int|
            0 <= i < rs.len() ==> (#[trigger] redirected(rs, paths)[i]).fd == rs[i].0 && redirected(
                rs,
                paths,
            )[i].op == rs[i].1,
        redirected(rs, paths).map_values(|r: RedirectV| r.target) == literals(paths),
    decreases rs.len(),
{
    let all = redirected(rs, paths);
    let target = |r: RedirectV| r.target;
    if rs.len() > 0 {
        let rest = redirected(rs.drop_last(), paths.drop_last());
        lemma_redirected(rs.drop_last(), paths.drop_last());
        assert(all.drop_last() =~= rest);
        assert(all.map_values(target) =~= rest.map_values(target).push(all.last().target));
        assert forall|i: int| 0 <= i < rs.len() implies (#[trigger] all[i]).fd == rs[i].0
            && all[i].op == rs[i].1 by {
            if i < rest.len() {
                assert(all[i] == rest[i]);
                assert(rest[i].fd == rs.drop_last()[i].0);
            }
        }
    } else {
        assert(all.map_values(target) =~= literals(paths));
    }
}

proof fn lemma_first_unsupported(rs: Seq<RedirectV>, i: int, k: int)
    requires
        0 <= i <= k <= rs.len(),
        forall|j: int| 0 <= j < k ==> supported((#[trigger] rs[j]).fd, rs[j].op),
        k < rs.len() ==> !supported(rs[k].fd, rs[k].op),
    ensures
        first_unsupported(rs, i) == k,
    decreases k - i,
{
    if i < k {
        assert(supported(rs[i].fd, rs[i].op));
        lemma_first_unsupported(rs, i + 1, k);
    }
}

proof fn lemma_literals_both(a: Seq<Seq<char>>, b: Seq<Seq<char>>)
    ensures
        literals(a + b) == literals(a) + literals(b),
    decreases b.len(),
{
    if b.len() == 0 {
        assert(a + b =~= a);
        assert(literals(a) + literals(b) =~= literals(a));
    } else {
        assert((a + b).drop_last() =~= a + b.drop_last());
        assert((a + b).last() == b.last());
        lemma_literals_both(a, b.drop_last());
        assert(literals(a + b) =~= literals(a) + literals(b));
    }
}

/// A descriptor can be redirected: stdin from a file, stdout and stderr to one.
pub proof fn law_what_can_be_redirected(fd: i32, op: RedirOp)
    ensures
        supported(fd, op) <==> match op {
            RedirOp::In => fd == 0,
            RedirOp::Out => fd == 1 || fd == 2,
            RedirOp::Append => fd == 1 || fd == 2,
        },
{
}

/// A command whose output is redirected is a process on pipes, even where the environment asks for
/// a terminal; each file is opened in its order, for its descriptor and its direction. At the first
/// descriptor that cannot be redirected the files before it are opened, and then the line fails.
pub proof fn law_redirections_open_their_files(
    argv: Seq<Seq<char>>,
    rs: Seq<(i32, RedirOp)>,
    paths: Seq<Seq<char>>,
    k: int,
    st: StateV,
    status: i32,
    capture: bool,
)
    requires
        argv.len() > 0,
        argv[0] != "cd"@ && argv[0] != "export"@ && argv[0] != "unset"@,
        rs.len() == paths.len(),
        rs.len() > 0,
        0 <= k <= rs.len(),
        forall|j: int| 0 <= j < k ==> supported((#[trigger] rs[j]).0, rs[j].1),
        k < rs.len() ==> !supported(rs[k].0, rs[k].1),
    ensures
        ({
            let c = CommandV { words: literals(argv), redirects: redirected(rs, paths) };
            let out = eval(StmtV::Cmd(c), st, status, capture, Seq::empty());
            if k == rs.len() {
                &&& out matches OutcomeV::Stuck(ActionV::Spawn { process, opens })
                &&& process == (ProcessV { argv, cwd: st.cwd, env: st.env })
                &&& opens.len() == k
                &&& forall|i: int|
                    0 <= i < k ==> #[trigger] opens[i] == (OpenV {
                        fd: rs[i].0,
                        path: paths[i],
                        op: rs[i].1,
                    })
            } else {
                &&& out matches OutcomeV::Stuck(ActionV::Open { stages, opens, fd, op })
                &&& stages.len() == 0 && fd == rs[k].0 && op == rs[k].1 && opens.len() == k
                &&& forall|i: int|
                    0 <= i < k ==> #[trigger] opens[i] == (OpenV {
                        fd: rs[i].0,
                        path: paths[i],
                        op: rs[i].1,
                    })
                &&& eval(StmtV::Cmd(c), st, status, capture, seq![ReplyV::Ready])
                    == OutcomeV::Fail(EvalErrorV::Unsupported { fd, op })
            }
        }),
{
    let rd = redirected(rs, paths);
    let c = CommandV { words: literals(argv), redirects: rd };
    let texts = argv + paths;
    lemma_redirected(rs, paths);
    lemma_one_command(c);
    lemma_literals_both(argv, paths);
    lemma_literals(argv, st.env, status, Seq::empty());
    lemma_literals(texts, st.env, status, Seq::empty());
    assert(all_words(c) =~= literals(texts));
    assert(texts.take(argv.len() as int) =~= argv);
    assert(texts.skip(argv.len() as int) =~= paths);
    assert(seq![c].len() == 1 && seq![c][0] == c);
    assert forall|j: int| 0 <= j < k implies supported((#[trigger] rd[j]).fd, rd[j].op) by {
        assert(supported(rs[j].0, rs[j].1));
    }
    if k < rs.len() {
        assert(rd[k].fd == rs[k].0);
    }
    lemma_first_unsupported(rd, 0, k);
    let files = opens(rd, paths, k);
    assert forall|i: int| 0 <= i < k implies #[trigger] files[i] == (OpenV {
        fd: rs[i].0,
        path: paths[i],
        op: rs[i].1,
    }) by {
        assert(rd[i].fd == rs[i].0);
    }
    let one = seq![ReplyV::Ready];
    assert(one[0] == ReplyV::Ready);
}

/// `cd` cannot be redirected.
pub proof fn law_cd_is_not_redirected(
    argv: Seq<Seq<char>>,
    rs: Seq<(i32, RedirOp)>,
    paths: Seq<Seq<char>>,
    st: StateV,
    status: i32,
    capture: bool,
    replies: Seq<ReplyV>,
)
    requires
        argv.len() > 0,
        argv[0] == "cd"@,
        rs.len() == paths.len(),
        rs.len() > 0,
    ensures
        eval(
            StmtV::Cmd(CommandV { words: literals(argv), redirects: redirected(rs, paths) }),
            st,
            status,
            capture,
            replies,
        ) == OutcomeV::Fail(EvalErrorV::BuiltinRedirect),
{
    let c = CommandV { words: literals(argv), redirects: redirected(rs, paths) };
    let texts = argv + paths;
    lemma_redirected(rs, paths);
    lemma_one_command(c);
    lemma_literals_both(argv, paths);
    lemma_literals(argv, st.env, status, Seq::empty());
    lemma_literals(texts, st.env, status, Seq::empty());
    assert(all_words(c) =~= literals(texts));
    assert(texts.take(argv.len() as int) =~= argv);
    assert(seq![c].len() == 1 && seq![c][0] == c);
}

// ---------- Replies ---------------------------------------------------------

/// What fails outside fails the line, and says why: of `cd` it says where to. A reply that does not
/// fit what was asked for fails it too, and none of them changes anything.
pub proof fn law_failures_fail_the_line(
    a: ActionV,
    st: StateV,
    reply: ReplyV,
    rest: Seq<ReplyV>,
    m: Seq<char>,
)
    ensures
        conclude(a, st, ReplyV::Failed(m), rest) == OutcomeV::Fail(
            match a {
                ActionV::Canonicalize { target } => EvalErrorV::Cd { target, reason: m },
                _ => EvalErrorV::Outside(m),
            },
        ),
        conclude(a, st, reply, rest) matches OutcomeV::Done(s, code, left) ==> left == rest && (
        a is Canonicalize ==> reply == ReplyV::Resolved(s.cwd) && code == 0) && (
        !(a is Canonicalize) ==> s == st && reply == ReplyV::Exited(code)),
        a is Start && reply is Ready ==> conclude(a, st, reply, rest) == OutcomeV::Fail(
            EvalErrorV::EmptyStage,
        ),
{
}

/// Every command of a pipeline is a stage of it, in its order: a process with the words of that
/// command, in the directory and with the environment at hand. Its exit code is that of the
/// pipeline, and the state stays.
pub proof fn law_pipelines_run_all_their_commands(
    argvs: Seq<Seq<Seq<char>>>,
    st: StateV,
    status: i32,
    capture: bool,
    code: i32,
)
    requires
        argvs.len() > 1,
        forall|i: int| 0 <= i < argvs.len() ==> (#[trigger] argvs[i]).len() > 0,
    ensures
        ({
            let s = StmtV::Pipe(simples(argvs));
            &&& eval(s, st, status, capture, Seq::empty()) matches OutcomeV::Stuck(
                ActionV::Pipeline { stages },
            )
            &&& stages.len() == argvs.len()
            &&& forall|i: int|
                0 <= i < argvs.len() ==> (#[trigger] stages[i]).process == (ProcessV {
                    argv: argvs[i],
                    cwd: st.cwd,
                    env: st.env,
                }) && stages[i].opens.len() == 0
            &&& eval(s, st, status, capture, seq![ReplyV::Exited(code)]) == OutcomeV::Done(
                st,
                code,
                Seq::empty(),
            )
        }),
{
    let cs = simples(argvs);
    lemma_simples(argvs, st, status);
    let texts = flattened(argvs);
    assert(argvs.take(argvs.len() as int) =~= argvs);
    lemma_stages(argvs, st, 0, Seq::empty());
    let one = seq![ReplyV::Exited(code)];
    assert(one[0] == ReplyV::Exited(code));
    assert(one.drop_first() =~= Seq::<ReplyV>::empty());
}

/// The commands that lists of texts spell.
pub open spec fn simples(argvs: Seq<Seq<Seq<char>>>) -> Seq<CommandV>
    decreases argvs.len(),
{
    if argvs.len() == 0 {
        Seq::empty()
    } else {
        simples(argvs.drop_last()).push(simple(argvs.last()))
    }
}

/// The texts of lists of texts, one list behind the other.
spec fn flattened(argvs: Seq<Seq<Seq<char>>>) -> Seq<Seq<char>>
    decreases argvs.len(),
{
    if argvs.len() == 0 {
        Seq::empty()
    } else {
        flattened(argvs.drop_last()) + argvs.last()
    }
}

proof fn lemma_simples(argvs: Seq<Seq<Seq<char>>>, st: StateV, status: i32)
    ensures
        simples(argvs).len() == argvs.len(),
        forall|i: int| 0 <= i < argvs.len() ==> #[trigger] simples(argvs)[i] == simple(argvs[i]),
        leaf_words(simples(argvs)) == literals(flattened(argvs)),
        subs(leaf_words(simples(argvs))).len() == 0,
        expand_all(leaf_words(simples(argvs)), st.env, status, Seq::empty()) == flattened(argvs),
    decreases argvs.len(),
{
    let cs = simples(argvs);
    lemma_literals(flattened(argvs), st.env, status, Seq::empty());
    if argvs.len() > 0 {
        let rest = argvs.drop_last();
        lemma_simples(rest, st, status);
        assert(cs.drop_last() =~= simples(rest));
        assert(cs.last() == simple(argvs.last()));
        assert(all_words(simple(argvs.last())) =~= literals(argvs.last()));
        lemma_literals_both(flattened(rest), argvs.last());
        assert forall|i: int| 0 <= i < argvs.len() implies #[trigger] cs[i] == simple(argvs[i]) by {
            if i < rest.len() {
                assert(cs[i] == simples(rest)[i]);
                assert(rest[i] == argvs[i]);
            }
        }
    }
}

proof fn lemma_flattened(argvs: Seq<Seq<Seq<char>>>, i: int)
    requires
        0 <= i < argvs.len(),
    ensures
        ({
            let at = flattened(argvs.take(i)).len() as int;
            &&& at + argvs[i].len() <= flattened(argvs).len()
            &&& flattened(argvs).subrange(at, at + argvs[i].len()) == argvs[i]
            &&& flattened(argvs.take(i + 1)).len() == at + argvs[i].len()
        }),
    decreases argvs.len(),
{
    let n = argvs.len() - 1;
    let rest = argvs.drop_last();
    assert(argvs.take(i + 1).drop_last() =~= argvs.take(i));
    assert(argvs.take(i + 1).last() == argvs[i]);
    let at = flattened(argvs.take(i)).len() as int;
    if i < n {
        lemma_flattened(rest, i);
        assert(rest.take(i) =~= argvs.take(i));
        assert(rest[i] == argvs[i]);
        assert(flattened(argvs).subrange(at, at + argvs[i].len()) =~= flattened(rest).subrange(
            at,
            at + argvs[i].len(),
        ));
    } else {
        assert(argvs.take(i) =~= rest);
        assert(flattened(argvs).subrange(at, at + argvs[i].len()) =~= argvs[i]);
    }
}

proof fn lemma_stages(argvs: Seq<Seq<Seq<char>>>, st: StateV, i: int, stages: Seq<StageV>)
    requires
        0 <= i <= argvs.len(),
        stages.len() == i,
        forall|j: int| 0 <= j < argvs.len() ==> (#[trigger] argvs[j]).len() > 0,
        forall|j: int|
            0 <= j < i ==> (#[trigger] stages[j]).process == (ProcessV {
                argv: argvs[j],
                cwd: st.cwd,
                env: st.env,
            }) && stages[j].opens.len() == 0,
    ensures
        stages_plan(
            simples(argvs),
            flattened(argvs),
            st,
            i,
            flattened(argvs.take(i)).len() as int,
            stages,
        ) matches PlanV::Ask(ActionV::Pipeline { stages: all }) && all.len() == argvs.len() && (
        forall|j: int|
            0 <= j < argvs.len() ==> (#[trigger] all[j]).process == (ProcessV {
                argv: argvs[j],
                cwd: st.cwd,
                env: st.env,
            }) && all[j].opens.len() == 0),
    decreases argvs.len() - i,
{
    lemma_simples(argvs, st, 0);
    let cs = simples(argvs);
    if i < argvs.len() {
        let at = flattened(argvs.take(i)).len() as int;
        let c = cs[i];
        lemma_flattened(argvs, i);
        lemma_literals(argvs[i], st.env, 0, Seq::empty());
        assert(c == simple(argvs[i]));
        let stage = stage_of(c, flattened(argvs), at, st);
        assert(stage.process.argv == argvs[i]);
        assert(first_unsupported(c.redirects, 0) == 0);
        let next = stages.push(stage);
        assert forall|j: int| 0 <= j < i + 1 implies (#[trigger] next[j]).process == (ProcessV {
            argv: argvs[j],
            cwd: st.cwd,
            env: st.env,
        }) && next[j].opens.len() == 0 by {
            if j < i {
                assert(next[j] == stages[j]);
            }
        }
        lemma_stages(argvs, st, i + 1, next);
    }
}

// ---------- Lines -----------------------------------------------------------

/// A line that spells nothing succeeds and changes nothing; one that cannot be read fails with why;
/// any other does what its statement does.
pub proof fn law_lines_do_what_they_spell(
    line: Seq<char>,
    st: StateV,
    status: i32,
    capture: bool,
    replies: Seq<ReplyV>,
)
    ensures
        parsed(line) matches Ok(None) ==> eval_line(line, st, status, capture, replies)
            == OutcomeV::Done(st, 0, replies),
        parsed(line) matches Err(e) ==> eval_line(line, st, status, capture, replies)
            == OutcomeV::Fail(EvalErrorV::Parse(e)),
        parsed(line) matches Ok(Some(s)) ==> eval_line(line, st, status, capture, replies) == eval(
            s,
            st,
            status,
            capture,
            replies,
        ),
{
}

/// A command spelled in plain words is a builtin exactly where its first word is `cd`, `export` or
/// `unset`; one with another line in it is none.
pub proof fn law_three_commands_are_builtins(argv: Seq<Seq<char>>, c: CommandV, i: int, k: int)
    requires
        argv.len() > 0,
        0 <= i < c.words.len(),
        0 <= k < c.words[i].len(),
        c.words[i][k] is Sub,
    ensures
        is_pure_builtin(StmtV::Cmd(simple(argv))) <==> argv[0] == "cd"@ || argv[0] == "export"@
            || argv[0] == "unset"@,
        !is_pure_builtin(StmtV::Cmd(c)),
{
    let ws = literals(argv);
    lemma_literals(argv, Map::empty(), 0, Seq::empty());
    lemma_first_literal(argv);
    assert(ws[0].len() == 1);
    assert(!plain(c.words[i])) by {
        assert(c.words[i][k] is Sub);
    }
}

proof fn lemma_first_literal(ts: Seq<Seq<char>>)
    requires
        ts.len() > 0,
    ensures
        literals(ts).len() == ts.len(),
        literals(ts)[0] == seq![SegmentV::Literal(ts[0])],
    decreases ts.len(),
{
    if ts.len() > 1 {
        lemma_first_literal(ts.drop_last());
        assert(ts.drop_last()[0] == ts[0]);
    } else {
        assert(ts.drop_last() =~= Seq::<Seq<char>>::empty());
        assert(literals(ts.drop_last()).len() == 0);
    }
}

// ---------- Substitutions ---------------------------------------------------

/// Words that each stand for what another line puts out.
pub open spec fn substitutes(sources: Seq<Seq<char>>) -> Seq<WordV>
    decreases sources.len(),
{
    if sources.len() == 0 {
        Seq::empty()
    } else {
        substitutes(sources.drop_last()).push(seq![SegmentV::Sub(sources.last())])
    }
}

/// `t` is what stands for an output `out`: all of it but the newlines at its end.
pub open spec fn stands_for(t: Seq<char>, out: Seq<char>) -> bool {
    &&& t.is_prefix_of(out)
    &&& t.len() > 0 ==> t.last() != '\n'
    &&& forall|i: int| t.len() <= i < out.len() ==> #[trigger] out[i] == '\n'
}

proof fn lemma_substitutes(
    name: Seq<char>,
    sources: Seq<Seq<char>>,
    env: Map<Seq<char>, Seq<char>>,
    status: i32,
    outs: Seq<Seq<char>>,
)
    requires
        sources.len() <= outs.len(),
    ensures
        ({
            let ws = literals(seq![name]) + substitutes(sources);
            let ts = expand_all(ws, env, status, outs);
            &&& subs(ws) == sources
            &&& ts.len() == sources.len() + 1 && ws.len() == ts.len()
            &&& ts[0] == name
            &&& forall|i: int| 0 <= i < sources.len() ==> stands_for(#[trigger] ts[i + 1], outs[i])
        }),
    decreases sources.len(),
{
    let front = literals(seq![name]);
    let ws = front + substitutes(sources);
    let ts = expand_all(ws, env, status, outs);
    if sources.len() == 0 {
        lemma_literals(seq![name], env, status, outs);
        assert(ws =~= front);
        assert(subs(ws) =~= sources);
    } else {
        let rest = sources.drop_last();
        lemma_substitutes(name, rest, env, status, outs);
        let before = front + substitutes(rest);
        let w = seq![SegmentV::Sub(sources.last())];
        assert(ws.drop_last() =~= before);
        assert(ws.last() == w);
        let none = Seq::<SegmentV>::empty();
        assert(w.drop_last() =~= none);
        assert(word_subs(none).len() == 0);
        assert(word_subs(w) =~= seq![sources.last()]);
        assert(subs(ws) =~= sources);
        let n = rest.len() as int;
        assert(subs(before).len() == n);
        let t = expand(w, env, status, outs, n);
        assert(expand(none, env, status, outs, n) =~= Seq::<char>::empty());
        assert(t =~= strip_newlines(outs[n]));
        lemma_strip_newlines(outs[n]);
        let b = expand_all(before, env, status, outs);
        assert(ts == b.push(t));
        assert forall|i: int| 0 <= i < sources.len() implies stands_for(
            #[trigger] ts[i + 1],
            outs[i],
        ) by {
            if i < n {
                assert(ts[i + 1] == b[i + 1]);
            }
        }
    }
}

proof fn lemma_all_captured(
    cs: Seq<CommandV>,
    caps: Seq<Seq<char>>,
    st: StateV,
    status: i32,
    capture: bool,
    outs: Seq<Seq<char>>,
)
    requires
        caps.len() + outs.len() == subs(leaf_words(cs)).len(),
    ensures
        leaf_run(cs, false, caps, st, status, capture, captures(outs)) == leaf_run(
            cs,
            false,
            caps + outs,
            st,
            status,
            capture,
            Seq::empty(),
        ),
    decreases outs.len(),
{
    if outs.len() > 0 {
        lemma_all_captured(cs, caps.push(outs[0]), st, status, capture, outs.drop_first());
        assert(captures(outs).drop_first() =~= captures(outs.drop_first()));
        assert(captures(outs)[0] == ReplyV::Captured(outs[0]));
        assert(caps.push(outs[0]) + outs.drop_first() =~= caps + outs);
    } else {
        assert(caps + outs =~= caps);
        assert(captures(outs) =~= Seq::<ReplyV>::empty());
    }
}

/// What a substituted line put out stands in its own place in the command, without the newlines at
/// its end, and it stays one word.
pub proof fn law_outputs_stand_in_their_places(
    name: Seq<char>,
    sources: Seq<Seq<char>>,
    outs: Seq<Seq<char>>,
    st: StateV,
    status: i32,
)
    requires
        name != "cd"@ && name != "export"@ && name != "unset"@,
        sources.len() == outs.len(),
    ensures
        ({
            let c = CommandV {
                words: literals(seq![name]) + substitutes(sources),
                redirects: Seq::empty(),
            };
            &&& eval(StmtV::Cmd(c), st, status, true, captures(outs)) matches OutcomeV::Stuck(
                ActionV::Spawn { process, opens },
            )
            &&& process.argv.len() == outs.len() + 1 && process.argv[0] == name
            &&& forall|i: int|
                0 <= i < outs.len() ==> stands_for(#[trigger] process.argv[i + 1], outs[i])
            &&& process.cwd == st.cwd && process.env == st.env && opens.len() == 0
        }),
{
    let c = CommandV {
        words: literals(seq![name]) + substitutes(sources),
        redirects: Seq::empty(),
    };
    lemma_one_command(c);
    lemma_substitutes(name, sources, st.env, status, outs);
    assert(all_words(c) =~= c.words);
    let none = Seq::<Seq<char>>::empty();
    lemma_all_captured(seq![c], none, st, status, true, outs);
    assert(none + outs =~= outs);
    let ts = expand_all(c.words, st.env, status, outs);
    assert(ts.take(c.words.len() as int) =~= ts);
    assert(seq![c].len() == 1 && seq![c][0] == c);
}

} // verus!
