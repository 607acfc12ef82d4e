//! The evaluator: what a command line does, given what the outside world answers.
//!
//! Builtins (`cd`, `export`, `unset`) update the state. Other commands spawn a process and leave
//! the state as it is. Pipelines spawn each stage, stdout to stdin. Redirects on a command, in a
//! pipeline or alone, apply to that command's spawn.
//!
//! The evaluator itself spawns nothing. It asks for one action at a time and goes on with the
//! reply, so that what a line does is a function of the line, the state and the replies.

use vstd::prelude::*;

use crate::parse::{
    commands_view, parse, parsed, redirects_view, words_view, Command, CommandV, ParseError,
    RedirOp, Redirect, RedirectV, Segment, SegmentV, Stmt, StmtV, Word, WordV,
};
use crate::text::{
    as_text, chars_of, join_path, joined, push_signed, signed_decimal, str_eq, string_of,
    text_of_bytes,
};
use crate::tree::{strings, CellId, Process, ProcessV, State, StateV};
use crate::wire::{CellEvent, CellEventV, Stream};

verus! {

// ---------- Errors ----------------------------------------------------------

/// Why a line could not be evaluated.
#[derive(Debug)]
pub enum EvalError {
    Parse(ParseError),
    /// A redirect on `cd`.
    BuiltinRedirect,
    /// `cd` without an argument and without `HOME`.
    NoHome,
    /// A directory that cannot be resolved.
    Cd { target: String, reason: String },
    /// A redirect of a descriptor that cannot be redirected that way.
    Unsupported { fd: i32, op: RedirOp },
    /// A pipeline stage without words.
    EmptyStage,
    /// Something that went wrong outside.
    Outside(String),
    /// A reply that does not answer the action asked for.
    Mismatch,
}

/// Why a line could not be evaluated.
pub enum EvalErrorV {
    Parse(ParseError),
    BuiltinRedirect,
    NoHome,
    Cd { target: Seq<char>, reason: Seq<char> },
    Unsupported { fd: i32, op: RedirOp },
    EmptyStage,
    Outside(Seq<char>),
    Mismatch,
}

impl View for EvalError {
    type V = EvalErrorV;

    open spec fn view(&self) -> EvalErrorV {
        match self {
            EvalError::Parse(e) => EvalErrorV::Parse(*e),
            EvalError::BuiltinRedirect => EvalErrorV::BuiltinRedirect,
            EvalError::NoHome => EvalErrorV::NoHome,
            EvalError::Cd { target, reason } => EvalErrorV::Cd {
                target: target@,
                reason: reason@,
            },
            EvalError::Unsupported { fd, op } => EvalErrorV::Unsupported { fd: *fd, op: *op },
            EvalError::EmptyStage => EvalErrorV::EmptyStage,
            EvalError::Outside(m) => EvalErrorV::Outside(m@),
            EvalError::Mismatch => EvalErrorV::Mismatch,
        }
    }
}

/// The name of a redirection's direction.
pub open spec fn op_name(op: RedirOp) -> Seq<char> {
    match op {
        RedirOp::In => "In"@,
        RedirOp::Out => "Out"@,
        RedirOp::Append => "Append"@,
    }
}

impl EvalErrorV {
    /// What the error says.
    pub open spec fn text(self) -> Seq<char> {
        match self {
            EvalErrorV::Parse(e) => e.text(),
            EvalErrorV::BuiltinRedirect => "redirects on builtin not yet supported"@,
            EvalErrorV::NoHome => "cd: HOME not set"@,
            EvalErrorV::Cd { target, reason } => "cd "@ + target + ": "@ + reason,
            EvalErrorV::Unsupported { fd, op } => "unsupported redirect: fd="@ + signed_decimal(
                fd as int,
            ) + ", op="@ + op_name(op),
            EvalErrorV::EmptyStage => "empty command in pipeline"@,
            EvalErrorV::Outside(m) => m,
            EvalErrorV::Mismatch => "unexpected reply"@,
        }
    }
}

impl Clone for EvalError {
    fn clone(&self) -> (r: EvalError)
        ensures
            r@ == self@,
    {
        match self {
            EvalError::Parse(e) => EvalError::Parse(*e),
            EvalError::BuiltinRedirect => EvalError::BuiltinRedirect,
            EvalError::NoHome => EvalError::NoHome,
            EvalError::Cd { target, reason } => EvalError::Cd {
                target: target.clone(),
                reason: reason.clone(),
            },
            EvalError::Unsupported { fd, op } => EvalError::Unsupported { fd: *fd, op: *op },
            EvalError::EmptyStage => EvalError::EmptyStage,
            EvalError::Outside(m) => EvalError::Outside(m.clone()),
            EvalError::Mismatch => EvalError::Mismatch,
        }
    }
}

impl EvalError {
    /// What the error says.
    pub fn message(&self) -> (r: String)
        ensures
            r@ == self@.text(),
    {
        match self {
            EvalError::Parse(e) => e.message(),
            EvalError::BuiltinRedirect => "redirects on builtin not yet supported".to_owned(),
            EvalError::NoHome => "cd: HOME not set".to_owned(),
            EvalError::Cd { target, reason } => {
                let mut s = "cd ".to_owned();
                s.append(target.as_str());
                s.append(": ");
                s.append(reason.as_str());
                s
            },
            EvalError::Unsupported { fd, op } => {
                let mut s = "unsupported redirect: fd=".to_owned();
                push_signed(&mut s, *fd);
                s.append(", op=");
                match op {
                    RedirOp::In => {
                        s.append("In");
                    },
                    RedirOp::Out => {
                        s.append("Out");
                    },
                    RedirOp::Append => {
                        s.append("Append");
                    },
                }
                s
            },
            EvalError::EmptyStage => "empty command in pipeline".to_owned(),
            EvalError::Outside(m) => m.clone(),
            EvalError::Mismatch => "unexpected reply".to_owned(),
        }
    }
}

/// What is said of a file that could not be opened for a redirection.
pub fn open_error(op: RedirOp, path: &str, reason: &str) -> (r: String)
    ensures
        r@ == (match op {
            RedirOp::In => "< "@,
            RedirOp::Out => "> "@,
            RedirOp::Append => ">> "@,
        }) + path@ + ": "@ + reason@,
{
    let mut s = match op {
        RedirOp::In => "< ".to_owned(),
        RedirOp::Out => "> ".to_owned(),
        RedirOp::Append => ">> ".to_owned(),
    };
    s.append(path);
    s.append(": ");
    s.append(reason);
    s
}

/// What is said of a program that could not be spawned.
pub fn spawn_error(program: &str, reason: &str) -> (r: String)
    ensures
        r@ == "spawn "@ + program@ + ": "@ + reason@,
{
    let mut s = "spawn ".to_owned();
    s.append(program);
    s.append(": ");
    s.append(reason);
    s
}

// ---------- Output ----------------------------------------------------------

/// The event for a piece of output. Pieces that are not UTF-8 are approximated.
pub fn chunk(id: CellId, stream: Stream, bytes: &[u8]) -> (r: CellEvent)
    ensures
        r@ == (CellEventV::OutputChunk { id, stream, data: as_text(bytes@) }),
{
    CellEvent::OutputChunk { id, stream, data: text_of_bytes(bytes) }
}

/// The exit code of a process; -1 for one that a signal ended.
pub fn exit_code(code: Option<i32>) -> (r: i32)
    ensures
        r == match code {
            Some(c) => c,
            None => -1i32,
        },
{
    match code {
        Some(c) => c,
        None => -1,
    }
}

// ---------- Builtins and modes ----------------------------------------------

/// The shell builtins, handled in-process.
pub open spec fn is_builtin(name: Seq<char>) -> bool {
    name == "cd"@ || name == "export"@ || name == "unset"@
}

/// Whether `name` is a shell builtin. This is the single source of truth: the evaluator tells
/// builtins from external commands by it, and so does [`is_pure_builtin_line`].
pub fn builtin(name: &str) -> (r: bool)
    ensures
        r == is_builtin(name@),
{
    str_eq(name, "cd") || str_eq(name, "export") || str_eq(name, "unset")
}

/// The inherited environment asks for a terminal.
pub open spec fn in_tty_mode(s: StateV) -> bool {
    s.env.contains_key("FERN_IO"@) && s.env["FERN_IO"@] == "tty"@
}

/// True when the inherited environment asks for a terminal (`FERN_IO=tty`). Mode is
/// configuration carried by the branch, not a per-cell flag.
pub fn tty_mode(state: &State) -> (r: bool)
    ensures
        r == in_tty_mode(state@),
{
    match state.env.get("FERN_IO") {
        Some(v) => str_eq(v.as_str(), "tty"),
        None => false,
    }
}

/// A command that starts with a literal builtin and runs no other command line, or that has no
/// words at all.
pub open spec fn is_builtin_command(c: CommandV) -> bool {
    if c.words.len() == 0 {
        no_subs(c)
    } else {
        &&& no_subs(c)
        &&& c.words[0].len() == 1
        &&& c.words[0][0] matches SegmentV::Literal(name)
        &&& is_builtin(name)
    }
}

/// No word and no redirection target holds a substitution.
pub open spec fn no_subs(c: CommandV) -> bool {
    &&& forall|i: int| 0 <= i < c.words.len() ==> plain(#[trigger] c.words[i])
    &&& forall|i: int| 0 <= i < c.redirects.len() ==> plain((#[trigger] c.redirects[i]).target)
}

/// A word without substitutions.
pub open spec fn plain(w: WordV) -> bool {
    forall|i: int| 0 <= i < w.len() ==> !(#[trigger] w[i] is Sub)
}

/// Every command of the statement is a builtin; a pipeline always runs external processes.
pub open spec fn is_pure_builtin(s: StmtV) -> bool
    decreases s,
{
    match s {
        StmtV::Cmd(c) => is_builtin_command(c),
        StmtV::Pipe(_) => false,
        StmtV::AndIf(l, r) => is_pure_builtin(*l) && is_pure_builtin(*r),
        StmtV::OrIf(l, r) => is_pure_builtin(*l) && is_pure_builtin(*r),
        StmtV::Sequence(l, r) => is_pure_builtin(*l) && is_pure_builtin(*r),
    }
}

/// A line spells a statement, and every command of that is a builtin.
pub open spec fn is_pure_line(s: Seq<char>) -> bool {
    parsed(s) matches Ok(Some(x)) && is_pure_builtin(x)
}

fn word_is_plain(w: &Word) -> (r: bool)
    ensures
        r == plain(w@),
{
    let mut i: usize = 0;
    while i < w.segments.len()
        invariant
            i <= w.segments.len(),
            forall|k: int| 0 <= k < i ==> !(#[trigger] w@[k] is Sub),
        decreases w.segments.len() - i,
    {
        assert(w@[i as int] == w.segments@[i as int]@);
        if matches!(w.segments[i], Segment::Sub(_)) {
            return false;
        }
        i += 1;
    }
    true
}

fn command_is_plain(c: &Command) -> (r: bool)
    ensures
        r == no_subs(c@),
{
    let mut i: usize = 0;
    while i < c.words.len()
        invariant
            i <= c.words.len(),
            forall|k: int| 0 <= k < i ==> plain(#[trigger] c@.words[k]),
        decreases c.words.len() - i,
    {
        assert(c@.words[i as int] == c.words@[i as int]@);
        if !word_is_plain(&c.words[i]) {
            return false;
        }
        i += 1;
    }
    let mut j: usize = 0;
    while j < c.redirects.len()
        invariant
            j <= c.redirects.len(),
            forall|k: int| 0 <= k < j ==> plain((#[trigger] c@.redirects[k]).target),
        decreases c.redirects.len() - j,
    {
        assert(c@.redirects[j as int] == c.redirects@[j as int]@);
        if !word_is_plain(&c.redirects[j].target) {
            return false;
        }
        j += 1;
    }
    true
}

fn command_is_builtin(c: &Command) -> (r: bool)
    ensures
        r == is_builtin_command(c@),
{
    if !command_is_plain(c) {
        return false;
    }
    if c.words.len() == 0 {
        return true;
    }
    assert(c@.words[0] == c.words@[0]@);
    let w = &c.words[0];
    if w.segments.len() != 1 {
        return false;
    }
    assert(w@[0] == w.segments@[0]@);
    match &w.segments[0] {
        Segment::Literal(name) => builtin(name.as_str()),
        _ => false,
    }
}

fn stmt_is_pure_builtin(s: &Stmt) -> (r: bool)
    ensures
        r == is_pure_builtin(s@),
    decreases s,
{
    match s {
        Stmt::Cmd(c) => command_is_builtin(c),
        Stmt::Pipe(_) => false,
        Stmt::AndIf(l, r) => stmt_is_pure_builtin(l) && stmt_is_pure_builtin(r),
        Stmt::OrIf(l, r) => stmt_is_pure_builtin(l) && stmt_is_pure_builtin(r),
        Stmt::Sequence(l, r) => stmt_is_pure_builtin(l) && stmt_is_pure_builtin(r),
    }
}

/// True iff `source` parses and every command in it is a builtin: running it spawns no external
/// program, so on a `FERN_IO=tty` branch it needs no terminal and can run inline. Conservative:
/// a parse failure, an empty line, a pipeline, a substitution, or a leading word that isn't a
/// literal builtin all yield `false`.
pub fn is_pure_builtin_line(source: &str) -> (r: bool)
    ensures
        r == is_pure_line(source@),
{
    match parse(source) {
        Ok(Some(s)) => stmt_is_pure_builtin(&s),
        _ => false,
    }
}

// ---------- Expansion -------------------------------------------------------

/// The substitutions in a word, in order.
pub open spec fn word_subs(w: WordV) -> Seq<Seq<char>>
    decreases w.len(),
{
    if w.len() == 0 {
        Seq::empty()
    } else {
        let before = word_subs(w.drop_last());
        match w.last() {
            SegmentV::Sub(s) => before.push(s),
            _ => before,
        }
    }
}

/// The substitutions in a list of words, in order.
pub open spec fn subs(ws: Seq<WordV>) -> Seq<Seq<char>>
    decreases ws.len(),
{
    if ws.len() == 0 {
        Seq::empty()
    } else {
        subs(ws.drop_last()) + word_subs(ws.last())
    }
}

/// `s` without the newlines it ends in.
pub open spec fn strip_newlines(s: Seq<char>) -> Seq<char>
    decreases s.len(),
{
    if s.len() > 0 && s.last() == '\n' {
        strip_newlines(s.drop_last())
    } else {
        s
    }
}

/// The value of a variable; nothing where it is not set.
pub open spec fn value(name: Seq<char>, env: Map<Seq<char>, Seq<char>>) -> Seq<char> {
    if env.contains_key(name) {
        env[name]
    } else {
        Seq::empty()
    }
}

/// What a word stands for. The outputs of its substitutions stand in `caps`, from `off` on.
pub open spec fn expand(
    w: WordV,
    env: Map<Seq<char>, Seq<char>>,
    status: i32,
    caps: Seq<Seq<char>>,
    off: int,
) -> Seq<char>
    decreases w.len(),
{
    if w.len() == 0 {
        Seq::empty()
    } else {
        let before = w.drop_last();
        expand(before, env, status, caps, off) + match w.last() {
            SegmentV::Literal(s) => s,
            SegmentV::Var(n) => value(n, env),
            SegmentV::Status => signed_decimal(status as int),
            SegmentV::Sub(_) => strip_newlines(caps[off + word_subs(before).len()]),
        }
    }
}

/// What each of a list of words stands for.
pub open spec fn expand_all(
    ws: Seq<WordV>,
    env: Map<Seq<char>, Seq<char>>,
    status: i32,
    caps: Seq<Seq<char>>,
) -> Seq<Seq<char>>
    decreases ws.len(),
{
    if ws.len() == 0 {
        Seq::empty()
    } else {
        let before = ws.drop_last();
        expand_all(before, env, status, caps).push(
            expand(ws.last(), env, status, caps, subs(before).len() as int),
        )
    }
}

/// The words of a command and the targets of its redirections.
pub open spec fn all_words(c: CommandV) -> Seq<WordV> {
    c.words + c.redirects.map_values(|r: RedirectV| r.target)
}

/// The words of a list of commands, one command after the other.
pub open spec fn leaf_words(cs: Seq<CommandV>) -> Seq<WordV>
    decreases cs.len(),
{
    if cs.len() == 0 {
        Seq::empty()
    } else {
        leaf_words(cs.drop_last()) + all_words(cs.last())
    }
}

fn stripped(s: &str) -> (r: String)
    ensures
        r@ == strip_newlines(s@),
{
    let v = chars_of(s);
    let mut n: usize = v.len();
    assert(v@.take(n as int) =~= s@);
    while n > 0 && v[n - 1] == '\n'
        invariant
            n <= v.len(),
            strip_newlines(s@) == strip_newlines(v@.take(n as int)),
        decreases n,
    {
        assert(v@.take(n as int).drop_last() =~= v@.take(n - 1));
        n -= 1;
    }
    assert(v@.subrange(0, n as int) =~= v@.take(n as int));
    string_of(&v, 0, n)
}

fn push_value(out: &mut String, name: &str, state: &State)
    ensures
        final(out)@ == old(out)@ + value(name@, state@.env),
{
    match state.env.get(name) {
        Some(v) => {
            out.append(v.as_str());
        },
        None => {
            assert(out@ =~= old(out)@ + Seq::<char>::empty());
        },
    }
}

proof fn lemma_word_subs_take(w: WordV, i: int)
    requires
        0 <= i <= w.len(),
    ensures
        word_subs(w.take(i)).len() <= word_subs(w).len(),
    decreases w.len() - i,
{
    if i < w.len() {
        lemma_word_subs_take(w, i + 1);
        assert(w.take(i + 1).drop_last() =~= w.take(i));
    } else {
        assert(w.take(i) =~= w);
    }
}

proof fn lemma_subs_take(ws: Seq<WordV>, i: int)
    requires
        0 <= i <= ws.len(),
    ensures
        subs(ws.take(i)).len() <= subs(ws).len(),
    decreases ws.len() - i,
{
    if i < ws.len() {
        lemma_subs_take(ws, i + 1);
        assert(ws.take(i + 1).drop_last() =~= ws.take(i));
    } else {
        assert(ws.take(i) =~= ws);
    }
}

fn expand_word(w: &Word, state: &State, status: i32, caps: &Vec<String>, off: usize) -> (r: String)
    requires
        off + word_subs(w@).len() <= caps.len(),
    ensures
        r@ == expand(w@, state@.env, status, strings(caps@), off as int),
{
    let mut out = String::new();
    let mut i: usize = 0;
    let mut n: usize = off;
    assert(out@ =~= Seq::<char>::empty());
    while i < w.segments.len()
        invariant
            i <= w.segments.len(),
            off + word_subs(w@).len() <= caps.len(),
            n == off + word_subs(w@.take(i as int)).len(),
            out@ == expand(w@.take(i as int), state@.env, status, strings(caps@), off as int),
        decreases w.segments.len() - i,
    {
        proof {
            let t = w@.take(i + 1);
            assert(t.drop_last() =~= w@.take(i as int));
            assert(t.last() == w.segments@[i as int]@);
            lemma_word_subs_take(w@, i + 1);
        }
        match &w.segments[i] {
            Segment::Literal(s) => {
                out.append(s.as_str());
            },
            Segment::Var(name) => {
                push_value(&mut out, name.as_str(), state);
            },
            Segment::Status => {
                push_signed(&mut out, status);
            },
            Segment::Sub(_) => {
                assert(strings(caps@)[n as int] == caps@[n as int]@);
                let t = stripped(caps[n].as_str());
                out.append(t.as_str());
                n += 1;
            },
        }
        i += 1;
    }
    assert(w@.take(i as int) =~= w@);
    out
}

pub(crate) fn expand_words(ws: &Vec<Word>, state: &State, status: i32, caps: &Vec<String>) -> (r: Vec<String>)
    requires
        subs(words_view(ws@)).len() == caps.len(),
    ensures
        strings(r@) == expand_all(words_view(ws@), state@.env, status, strings(caps@)),
{
    let ghost v = words_view(ws@);
    let mut out: Vec<String> = Vec::new();
    let mut i: usize = 0;
    let mut n: usize = 0;
    assert(strings(out@) =~= Seq::<Seq<char>>::empty());
    while i < ws.len()
        invariant
            i <= ws.len(),
            v == words_view(ws@),
            subs(v).len() == caps.len(),
            n == subs(v.take(i as int)).len(),
            strings(out@) == expand_all(v.take(i as int), state@.env, status, strings(caps@)),
        decreases ws.len() - i,
    {
        proof {
            let t = v.take(i + 1);
            assert(t.drop_last() =~= v.take(i as int));
            assert(t.last() == ws@[i as int]@);
            lemma_subs_take(v, i + 1);
        }
        let ghost before = strings(out@);
        let s = expand_word(&ws[i], state, status, caps, n);
        let m: usize = count_subs(&ws[i]);
        out.push(s);
        assert(strings(out@) =~= before.push(s@));
        n += m;
        i += 1;
    }
    assert(v.take(i as int) =~= v);
    out
}

fn count_subs(w: &Word) -> (r: usize)
    ensures
        r == word_subs(w@).len(),
{
    let mut n: usize = 0;
    let mut i: usize = 0;
    while i < w.segments.len()
        invariant
            i <= w.segments.len(),
            n <= i,
            n == word_subs(w@.take(i as int)).len(),
        decreases w.segments.len() - i,
    {
        proof {
            let t = w@.take(i + 1);
            assert(t.drop_last() =~= w@.take(i as int));
            assert(t.last() == w.segments@[i as int]@);
        }
        if matches!(w.segments[i], Segment::Sub(_)) {
            n += 1;
        }
        i += 1;
    }
    assert(w@.take(i as int) =~= w@);
    n
}

pub(crate) fn sources(ws: &Vec<Word>) -> (r: Vec<String>)
    ensures
        strings(r@) == subs(words_view(ws@)),
{
    let ghost v = words_view(ws@);
    let mut out: Vec<String> = Vec::new();
    let mut i: usize = 0;
    assert(strings(out@) =~= Seq::<Seq<char>>::empty());
    while i < ws.len()
        invariant
            i <= ws.len(),
            v == words_view(ws@),
            strings(out@) == subs(v.take(i as int)),
        decreases ws.len() - i,
    {
        let w = &ws[i];
        let ghost base = strings(out@);
        let mut j: usize = 0;
        assert(base + word_subs(w@.take(0)) =~= base);
        while j < w.segments.len()
            invariant
                j <= w.segments.len(),
                strings(out@) == base + word_subs(w@.take(j as int)),
            decreases w.segments.len() - j,
        {
            proof {
                let t = w@.take(j + 1);
                assert(t.drop_last() =~= w@.take(j as int));
                assert(t.last() == w.segments@[j as int]@);
            }
            let ghost before = strings(out@);
            match &w.segments[j] {
                Segment::Sub(s) => {
                    out.push(s.clone());
                    assert(strings(out@) =~= before.push(s@));
                    assert(strings(out@) =~= base + word_subs(w@.take(j + 1)));
                },
                _ => {},
            }
            j += 1;
        }
        assert(w@.take(j as int) =~= w@);
        proof {
            let t = v.take(i + 1);
            assert(t.drop_last() =~= v.take(i as int));
            assert(t.last() == w@);
        }
        i += 1;
    }
    assert(v.take(i as int) =~= v);
    out
}

pub(crate) fn words_of(cs: &Vec<Command>) -> (r: Vec<Word>)
    ensures
        words_view(r@) == leaf_words(commands_view(cs@)),
{
    let ghost v = commands_view(cs@);
    let mut out: Vec<Word> = Vec::new();
    let mut i: usize = 0;
    assert(words_view(out@) =~= Seq::<WordV>::empty());
    while i < cs.len()
        invariant
            i <= cs.len(),
            v == commands_view(cs@),
            words_view(out@) == leaf_words(v.take(i as int)),
        decreases cs.len() - i,
    {
        let c = &cs[i];
        let ghost base = words_view(out@);
        let ghost targets = c@.redirects.map_values(|r: RedirectV| r.target);
        let mut j: usize = 0;
        assert(base + c@.words.take(0) =~= base);
        while j < c.words.len()
            invariant
                j <= c.words.len(),
                words_view(out@) == base + c@.words.take(j as int),
            decreases c.words.len() - j,
        {
            let ghost before = words_view(out@);
            let w = c.words[j].clone();
            out.push(w);
            assert(words_view(out@) =~= before.push(c.words@[j as int]@));
            assert(c@.words.take(j + 1) =~= c@.words.take(j as int).push(c@.words[j as int]));
            assert(words_view(out@) =~= base + c@.words.take(j + 1));
            j += 1;
        }
        assert(c@.words.take(j as int) =~= c@.words);
        let mut k: usize = 0;
        assert(base + c@.words + targets.take(0) =~= base + c@.words);
        while k < c.redirects.len()
            invariant
                k <= c.redirects.len(),
                targets == c@.redirects.map_values(|r: RedirectV| r.target),
                words_view(out@) == base + c@.words + targets.take(k as int),
            decreases c.redirects.len() - k,
        {
            let ghost before = words_view(out@);
            let w = c.redirects[k].target.clone();
            out.push(w);
            assert(c@.redirects[k as int] == c.redirects@[k as int]@);
            assert(words_view(out@) =~= before.push(targets[k as int]));
            assert(targets.take(k + 1) =~= targets.take(k as int).push(targets[k as int]));
            assert(words_view(out@) =~= base + c@.words + targets.take(k + 1));
            k += 1;
        }
        assert(targets.take(k as int) =~= targets);
        proof {
            let t = v.take(i + 1);
            assert(t.drop_last() =~= v.take(i as int));
            assert(t.last() == c@);
            assert(words_view(out@) =~= leaf_words(t));
        }
        i += 1;
    }
    assert(v.take(i as int) =~= v);
    out
}

// ---------- Actions and replies ---------------------------------------------

/// A file to open for a redirection.
#[derive(Debug)]
pub struct Open {
    pub fd: i32,
    pub path: String,
    pub op: RedirOp,
}

/// A file to open for a redirection.
pub struct OpenV {
    pub fd: i32,
    pub path: Seq<char>,
    pub op: RedirOp,
}

impl View for Open {
    type V = OpenV;

    open spec fn view(&self) -> OpenV {
        OpenV { fd: self.fd, path: self.path@, op: self.op }
    }
}

/// The files of a vector.
pub open spec fn opens_view(v: Seq<Open>) -> Seq<OpenV> {
    v.map_values(|o: Open| o@)
}

/// A stage of a pipeline: its process, and the files that its redirections open.
#[derive(Debug)]
pub struct Stage {
    pub process: Process,
    pub opens: Vec<Open>,
}

/// A stage of a pipeline: its process, and the files that its redirections open.
pub struct StageV {
    pub process: ProcessV,
    pub opens: Seq<OpenV>,
}

impl View for Stage {
    type V = StageV;

    open spec fn view(&self) -> StageV {
        StageV { process: self.process@, opens: opens_view(self.opens@) }
    }
}

/// The stages of a vector.
pub open spec fn stages_view(v: Seq<Stage>) -> Seq<StageV> {
    v.map_values(|s: Stage| s@)
}

/// What the evaluator asks of the outside world.
#[derive(Debug)]
pub enum Action {
    /// Run a command line in this state, after this exit code, and capture its stdout.
    Substitute { source: String, state: State, status: i32 },
    /// Resolve a directory.
    Canonicalize { target: String },
    /// Open the files in order, spawn the process with them, and wait for it. Stdin is null and
    /// stdout and stderr are streamed where no file takes their place.
    Spawn { process: Process, opens: Vec<Open> },
    /// Run the process in a terminal; expose its controls if `attach` is set.
    Pty { process: Process, attach: bool },
    /// For each stage in turn open its files in order and spawn its process with them; then wait
    /// for all. Where no file takes their place, stdin is the stdout of the stage before, and null
    /// for the first stage or behind a stage whose stdout is a file; stdout goes to the stage
    /// behind, and is streamed for the last one; and stderr is streamed.
    Pipeline { stages: Vec<Stage> },
    /// Start the stages as a pipeline does, and open the files in order; the redirection that
    /// follows them is not supported.
    Open { stages: Vec<Stage>, opens: Vec<Open>, fd: i32, op: RedirOp },
    /// Start the stages as a pipeline does; the stage that follows them is empty.
    Start { stages: Vec<Stage> },
}

/// What the evaluator asks of the outside world.
pub enum ActionV {
    Substitute { source: Seq<char>, state: StateV, status: i32 },
    Canonicalize { target: Seq<char> },
    Spawn { process: ProcessV, opens: Seq<OpenV> },
    Pty { process: ProcessV, attach: bool },
    Pipeline { stages: Seq<StageV> },
    Open { stages: Seq<StageV>, opens: Seq<OpenV>, fd: i32, op: RedirOp },
    Start { stages: Seq<StageV> },
}

impl View for Action {
    type V = ActionV;

    open spec fn view(&self) -> ActionV {
        match self {
            Action::Substitute { source, state, status } => ActionV::Substitute {
                source: source@,
                state: state@,
                status: *status,
            },
            Action::Canonicalize { target } => ActionV::Canonicalize { target: target@ },
            Action::Spawn { process, opens } => ActionV::Spawn {
                process: process@,
                opens: opens_view(opens@),
            },
            Action::Pty { process, attach } => ActionV::Pty { process: process@, attach: *attach },
            Action::Pipeline { stages } => ActionV::Pipeline { stages: stages_view(stages@) },
            Action::Open { stages, opens, fd, op } => ActionV::Open {
                stages: stages_view(stages@),
                opens: opens_view(opens@),
                fd: *fd,
                op: *op,
            },
            Action::Start { stages } => ActionV::Start { stages: stages_view(stages@) },
        }
    }
}

/// What the outside world answers.
#[derive(Debug)]
pub enum Reply {
    /// The stdout of a command line.
    Captured(String),
    /// A directory, resolved.
    Resolved(String),
    /// An exit code.
    Exited(i32),
    /// Files are open, or stages are running.
    Ready,
    /// It failed, and this is why.
    Failed(String),
}

/// What the outside world answers.
pub enum ReplyV {
    Captured(Seq<char>),
    Resolved(Seq<char>),
    Exited(i32),
    Ready,
    Failed(Seq<char>),
}

impl View for Reply {
    type V = ReplyV;

    open spec fn view(&self) -> ReplyV {
        match self {
            Reply::Captured(s) => ReplyV::Captured(s@),
            Reply::Resolved(s) => ReplyV::Resolved(s@),
            Reply::Exited(n) => ReplyV::Exited(*n),
            Reply::Ready => ReplyV::Ready,
            Reply::Failed(s) => ReplyV::Failed(s@),
        }
    }
}

// ---------- What one command or pipeline does -------------------------------

/// What comes of a command: it is over, it cannot be, or it needs an action.
pub enum PlanV {
    Finish(StateV, i32),
    Refuse(EvalErrorV),
    Ask(ActionV),
}

/// The position of the first `=` from `i` on, or the end.
pub open spec fn eq_at(s: Seq<char>, i: int) -> int
    decreases s.len() - i,
{
    if 0 <= i < s.len() && s[i] != '=' {
        eq_at(s, i + 1)
    } else {
        i
    }
}

/// `env` after exporting `arg`: `NAME=VALUE` sets a variable, anything else is ignored.
pub open spec fn exported(env: Map<Seq<char>, Seq<char>>, arg: Seq<char>) -> Map<
    Seq<char>,
    Seq<char>,
> {
    let i = eq_at(arg, 0);
    if i < arg.len() {
        env.insert(arg.take(i), arg.skip(i + 1))
    } else {
        env
    }
}

/// `env` after exporting each of `args` in order.
pub open spec fn exported_all(env: Map<Seq<char>, Seq<char>>, args: Seq<Seq<char>>) -> Map<
    Seq<char>,
    Seq<char>,
>
    decreases args.len(),
{
    if args.len() == 0 {
        env
    } else {
        exported(exported_all(env, args.drop_last()), args.last())
    }
}

/// `env` without the variables `args`.
pub open spec fn unset_all(env: Map<Seq<char>, Seq<char>>, args: Seq<Seq<char>>) -> Map<
    Seq<char>,
    Seq<char>,
>
    decreases args.len(),
{
    if args.len() == 0 {
        env
    } else {
        unset_all(env, args.drop_last()).remove(args.last())
    }
}

/// Stdin can be read from a file; stdout and stderr can be written or appended to one.
pub open spec fn supported(fd: i32, op: RedirOp) -> bool {
    match op {
        RedirOp::In => fd == 0,
        _ => fd == 1 || fd == 2,
    }
}

/// The first redirection from `i` on that is not supported, or the end.
pub open spec fn first_unsupported(rs: Seq<RedirectV>, i: int) -> int
    decreases rs.len() - i,
{
    if 0 <= i < rs.len() && supported(rs[i].fd, rs[i].op) {
        first_unsupported(rs, i + 1)
    } else {
        i
    }
}

/// The files that the first `n` redirections open.
pub open spec fn opens(rs: Seq<RedirectV>, paths: Seq<Seq<char>>, n: int) -> Seq<OpenV> {
    Seq::new(n as nat, |i: int| OpenV { fd: rs[i].fd, path: paths[i], op: rs[i].op })
}

/// The process that runs `argv` in the state `st`.
pub open spec fn process(argv: Seq<Seq<char>>, st: StateV) -> ProcessV {
    ProcessV { argv, cwd: st.cwd, env: st.env }
}

/// An external command: in a terminal if the state asks for one and nothing is redirected,
/// under pipes otherwise.
pub open spec fn external_plan(
    argv: Seq<Seq<char>>,
    rs: Seq<RedirectV>,
    paths: Seq<Seq<char>>,
    st: StateV,
    capture: bool,
    attach: bool,
) -> PlanV {
    if in_tty_mode(st) && !capture && rs.len() == 0 {
        PlanV::Ask(ActionV::Pty { process: process(argv, st), attach })
    } else {
        let k = first_unsupported(rs, 0);
        if k < rs.len() {
            PlanV::Ask(
                ActionV::Open {
                    stages: Seq::empty(),
                    opens: opens(rs, paths, k),
                    fd: rs[k].fd,
                    op: rs[k].op,
                },
            )
        } else {
            PlanV::Ask(ActionV::Spawn { process: process(argv, st), opens: opens(rs, paths, k) })
        }
    }
}

/// `cd`: to its argument as seen from the working directory, or to `HOME`.
pub open spec fn cd_plan(argv: Seq<Seq<char>>, redirected: bool, st: StateV) -> PlanV {
    if redirected {
        PlanV::Refuse(EvalErrorV::BuiltinRedirect)
    } else if argv.len() >= 2 {
        PlanV::Ask(ActionV::Canonicalize { target: joined(st.cwd, argv[1]) })
    } else if st.env.contains_key("HOME"@) {
        PlanV::Ask(ActionV::Canonicalize { target: st.env["HOME"@] })
    } else {
        PlanV::Refuse(EvalErrorV::NoHome)
    }
}

/// What a command does. `texts` holds what its words and then its redirection targets stand
/// for.
pub open spec fn command_plan(
    c: CommandV,
    texts: Seq<Seq<char>>,
    st: StateV,
    capture: bool,
    attach: bool,
) -> PlanV {
    let n = c.words.len() as int;
    let argv = texts.take(n);
    if n == 0 {
        PlanV::Finish(st, 0)
    } else if argv[0] == "cd"@ {
        cd_plan(argv, c.redirects.len() > 0, st)
    } else if argv[0] == "export"@ {
        PlanV::Finish(StateV { cwd: st.cwd, env: exported_all(st.env, argv.skip(1)) }, 0)
    } else if argv[0] == "unset"@ {
        PlanV::Finish(StateV { cwd: st.cwd, env: unset_all(st.env, argv.skip(1)) }, 0)
    } else {
        external_plan(argv, c.redirects, texts.skip(n), st, capture, attach)
    }
}

/// A stage of a pipeline that runs the command `c`, whose texts start at `at`. The redirections
/// are those of the command.
pub open spec fn stage_of(c: CommandV, texts: Seq<Seq<char>>, at: int, st: StateV) -> StageV {
    let words_end = at + c.words.len();
    let end = words_end + c.redirects.len();
    StageV {
        process: process(texts.subrange(at, words_end), st),
        opens: opens(
            c.redirects,
            texts.subrange(words_end, end),
            first_unsupported(c.redirects, 0),
        ),
    }
}

/// What a pipeline does from its stage `i` on, whose texts start at `at`, behind `stages`.
pub open spec fn stages_plan(
    cs: Seq<CommandV>,
    texts: Seq<Seq<char>>,
    st: StateV,
    i: int,
    at: int,
    stages: Seq<StageV>,
) -> PlanV
    decreases cs.len() - i,
{
    if i < 0 || i >= cs.len() {
        PlanV::Ask(ActionV::Pipeline { stages })
    } else {
        let c = cs[i];
        let stage = stage_of(c, texts, at, st);
        let k = first_unsupported(c.redirects, 0);
        if c.words.len() == 0 {
            PlanV::Ask(ActionV::Start { stages })
        } else if k < c.redirects.len() {
            PlanV::Ask(
                ActionV::Open {
                    stages,
                    opens: stage.opens,
                    fd: c.redirects[k].fd,
                    op: c.redirects[k].op,
                },
            )
        } else {
            let end = at + c.words.len() + c.redirects.len();
            stages_plan(cs, texts, st, i + 1, end, stages.push(stage))
        }
    }
}

/// A pipeline of several stages asks for something, and never for a terminal.
pub proof fn lemma_stages_ask(
    cs: Seq<CommandV>,
    texts: Seq<Seq<char>>,
    st: StateV,
    i: int,
    at: int,
    stages: Seq<StageV>,
)
    ensures
        stages_plan(cs, texts, st, i, at, stages) matches PlanV::Ask(a) && (a is Pipeline
            || a is Start || a is Open),
    decreases cs.len() - i,
{
    if 0 <= i < cs.len() {
        let c = cs[i];
        let end = at + c.words.len() + c.redirects.len();
        lemma_stages_ask(cs, texts, st, i + 1, end, stages.push(stage_of(c, texts, at, st)));
    }
}

/// What a command or a pipeline does. A pipeline of one command is that command, without
/// controls for its terminal.
pub open spec fn leaf_plan(
    cs: Seq<CommandV>,
    piped: bool,
    texts: Seq<Seq<char>>,
    st: StateV,
    capture: bool,
) -> PlanV {
    if cs.len() == 0 {
        PlanV::Finish(st, 0)
    } else if cs.len() == 1 {
        command_plan(cs[0], texts, st, capture, !piped)
    } else {
        stages_plan(cs, texts, st, 0, 0, Seq::empty())
    }
}

// ---------- What a statement does -------------------------------------------

/// How far an evaluation comes on given replies: to its end, with the replies it did not need;
/// to an action that no reply is left for; or to an error.
pub enum OutcomeV {
    Done(StateV, i32, Seq<ReplyV>),
    Stuck(ActionV),
    Fail(EvalErrorV),
}

/// The state after `cd` to `dir`.
pub open spec fn moved(st: StateV, dir: Seq<char>) -> StateV {
    StateV { cwd: dir, env: st.env.insert("PWD"@, dir) }
}

/// What an action comes to on a reply.
pub open spec fn conclude(a: ActionV, st: StateV, reply: ReplyV, rest: Seq<ReplyV>) -> OutcomeV {
    match (a, reply) {
        (ActionV::Canonicalize { target }, ReplyV::Failed(reason)) => OutcomeV::Fail(
            EvalErrorV::Cd { target, reason },
        ),
        (_, ReplyV::Failed(m)) => OutcomeV::Fail(EvalErrorV::Outside(m)),
        (ActionV::Canonicalize { .. }, ReplyV::Resolved(dir)) => OutcomeV::Done(
            moved(st, dir),
            0,
            rest,
        ),
        (ActionV::Spawn { .. }, ReplyV::Exited(n)) => OutcomeV::Done(st, n, rest),
        (ActionV::Pty { .. }, ReplyV::Exited(n)) => OutcomeV::Done(st, n, rest),
        (ActionV::Pipeline { .. }, ReplyV::Exited(n)) => OutcomeV::Done(st, n, rest),
        (ActionV::Open { fd, op, .. }, ReplyV::Ready) => OutcomeV::Fail(
            EvalErrorV::Unsupported { fd, op },
        ),
        (ActionV::Start { .. }, ReplyV::Ready) => OutcomeV::Fail(EvalErrorV::EmptyStage),
        _ => OutcomeV::Fail(EvalErrorV::Mismatch),
    }
}

/// A command or a pipeline, with the outputs `caps` of its first substitutions.
pub open spec fn leaf_run(
    cs: Seq<CommandV>,
    piped: bool,
    caps: Seq<Seq<char>>,
    st: StateV,
    status: i32,
    capture: bool,
    replies: Seq<ReplyV>,
) -> OutcomeV
    decreases subs(leaf_words(cs)).len() - caps.len(),
{
    let srcs = subs(leaf_words(cs));
    if caps.len() < srcs.len() {
        if replies.len() == 0 {
            OutcomeV::Stuck(
                ActionV::Substitute { source: srcs[caps.len() as int], state: st, status },
            )
        } else {
            match replies[0] {
                ReplyV::Captured(t) => leaf_run(
                    cs,
                    piped,
                    caps.push(t),
                    st,
                    status,
                    capture,
                    replies.drop_first(),
                ),
                ReplyV::Failed(m) => OutcomeV::Fail(EvalErrorV::Outside(m)),
                _ => OutcomeV::Fail(EvalErrorV::Mismatch),
            }
        }
    } else {
        let texts = expand_all(leaf_words(cs), st.env, status, caps);
        match leaf_plan(cs, piped, texts, st, capture) {
            PlanV::Finish(s, code) => OutcomeV::Done(s, code, replies),
            PlanV::Refuse(e) => OutcomeV::Fail(e),
            PlanV::Ask(a) => if replies.len() == 0 {
                OutcomeV::Stuck(a)
            } else {
                conclude(a, st, replies[0], replies.drop_first())
            },
        }
    }
}

/// What a statement does in the state `st`, after exit code `status`. A captured line never runs
/// in a terminal.
pub open spec fn eval(
    s: StmtV,
    st: StateV,
    status: i32,
    capture: bool,
    replies: Seq<ReplyV>,
) -> OutcomeV
    decreases s,
{
    match s {
        StmtV::Cmd(c) => leaf_run(
            seq![c],
            false,
            Seq::empty(),
            st,
            status,
            capture,
            replies,
        ),
        StmtV::Pipe(cs) => leaf_run(cs, true, Seq::empty(), st, status, capture, replies),
        StmtV::Sequence(l, r) => match eval(*l, st, status, capture, replies) {
            OutcomeV::Done(s1, e1, rest) => eval(*r, s1, e1, capture, rest),
            o => o,
        },
        StmtV::AndIf(l, r) => match eval(*l, st, status, capture, replies) {
            OutcomeV::Done(s1, e1, rest) if e1 == 0 => eval(*r, s1, e1, capture, rest),
            o => o,
        },
        StmtV::OrIf(l, r) => match eval(*l, st, status, capture, replies) {
            OutcomeV::Done(s1, e1, rest) if e1 != 0 => eval(*r, s1, e1, capture, rest),
            o => o,
        },
    }
}

/// What a line does. A line without a statement succeeds and changes nothing.
pub open spec fn eval_line(
    line: Seq<char>,
    st: StateV,
    status: i32,
    capture: bool,
    replies: Seq<ReplyV>,
) -> OutcomeV {
    match parsed(line) {
        Err(e) => OutcomeV::Fail(EvalErrorV::Parse(e)),
        Ok(None) => OutcomeV::Done(st, 0, replies),
        Ok(Some(s)) => eval(s, st, status, capture, replies),
    }
}

// ---------- Planning --------------------------------------------------------

/// What comes of a command: it is over, it cannot be, or it needs an action.
pub(crate) enum Plan {
    Finish(State, i32),
    Refuse(EvalError),
    Ask(Action),
}

impl Plan {
    pub(crate) open spec fn view(&self) -> PlanV {
        match self {
            Plan::Finish(s, n) => PlanV::Finish(s@, *n),
            Plan::Refuse(e) => PlanV::Refuse(e@),
            Plan::Ask(a) => PlanV::Ask(a@),
        }
    }
}

fn copy_texts(v: &Vec<String>, from: usize, to: usize) -> (r: Vec<String>)
    requires
        from <= to <= v.len(),
    ensures
        strings(r@) == strings(v@).subrange(from as int, to as int),
{
    let mut r: Vec<String> = Vec::new();
    let mut i: usize = from;
    assert(strings(r@) =~= strings(v@).subrange(from as int, from as int));
    while i < to
        invariant
            from <= i <= to <= v.len(),
            strings(r@) == strings(v@).subrange(from as int, i as int),
        decreases to - i,
    {
        let ghost before = strings(r@);
        let s = v[i].clone();
        r.push(s);
        assert(strings(r@) =~= before.push(s@));
        assert(strings(r@) =~= strings(v@).subrange(from as int, i + 1));
        i += 1;
    }
    r
}

fn export_one(state: &mut State, arg: &str)
    ensures
        final(state)@ == (StateV { cwd: old(state)@.cwd, env: exported(old(state)@.env, arg@) }),
{
    let v = chars_of(arg);
    let mut i: usize = 0;
    while i < v.len() && v[i] != '='
        invariant
            i <= v.len(),
            v@ == arg@,
            eq_at(arg@, 0) == eq_at(arg@, i as int),
        decreases v.len() - i,
    {
        i += 1;
    }
    if i < v.len() {
        let name = string_of(&v, 0, i);
        let val = string_of(&v, i + 1, v.len());
        assert(name@ =~= arg@.take(i as int));
        assert(val@ =~= arg@.skip(i + 1));
        state.set_var(name.as_str(), val);
    }
}

fn plan_export(texts: &Vec<String>, n: usize, st: &State) -> (r: Plan)
    requires
        0 < n <= texts.len(),
    ensures
        r@ == PlanV::Finish(
            StateV {
                cwd: st@.cwd,
                env: exported_all(st@.env, strings(texts@).take(n as int).skip(1)),
            },
            0,
        ),
{
    let ghost args = strings(texts@).take(n as int).skip(1);
    let mut s = st.clone();
    let mut i: usize = 1;
    while i < n
        invariant
            1 <= i <= n <= texts.len(),
            args == strings(texts@).take(n as int).skip(1),
            s@ == (StateV { cwd: st@.cwd, env: exported_all(st@.env, args.take(i - 1)) }),
        decreases n - i,
    {
        proof {
            let t = args.take(i as int);
            assert(t.drop_last() =~= args.take(i - 1));
            assert(t.last() == texts@[i as int]@);
        }
        export_one(&mut s, texts[i].as_str());
        i += 1;
    }
    assert(args.take(i - 1) =~= args);
    Plan::Finish(s, 0)
}

fn plan_unset(texts: &Vec<String>, n: usize, st: &State) -> (r: Plan)
    requires
        0 < n <= texts.len(),
    ensures
        r@ == PlanV::Finish(
            StateV {
                cwd: st@.cwd,
                env: unset_all(st@.env, strings(texts@).take(n as int).skip(1)),
            },
            0,
        ),
{
    let ghost args = strings(texts@).take(n as int).skip(1);
    let mut s = st.clone();
    let mut i: usize = 1;
    while i < n
        invariant
            1 <= i <= n <= texts.len(),
            args == strings(texts@).take(n as int).skip(1),
            s@ == (StateV { cwd: st@.cwd, env: unset_all(st@.env, args.take(i - 1)) }),
        decreases n - i,
    {
        proof {
            let t = args.take(i as int);
            assert(t.drop_last() =~= args.take(i - 1));
            assert(t.last() == texts@[i as int]@);
        }
        s.unset_var(texts[i].as_str());
        i += 1;
    }
    assert(args.take(i - 1) =~= args);
    Plan::Finish(s, 0)
}

fn plan_cd(texts: &Vec<String>, n: usize, redirected: bool, st: &State) -> (r: Plan)
    requires
        0 < n <= texts.len(),
    ensures
        r@ == cd_plan(strings(texts@).take(n as int), redirected, st@),
{
    if redirected {
        return Plan::Refuse(EvalError::BuiltinRedirect);
    }
    if n >= 2 {
        let target = join_path(st.cwd.as_str(), texts[1].as_str());
        return Plan::Ask(Action::Canonicalize { target });
    }
    match st.var("HOME") {
        Some(target) => Plan::Ask(Action::Canonicalize { target }),
        None => Plan::Refuse(EvalError::NoHome),
    }
}

fn can_redirect(fd: i32, op: RedirOp) -> (r: bool)
    ensures
        r == supported(fd, op),
{
    match op {
        RedirOp::In => fd == 0,
        _ => fd == 1 || fd == 2,
    }
}

/// The files of the redirections up to the first that is not supported, and where that stands.
/// The texts of their targets start at `at`.
fn plan_opens(rs: &Vec<Redirect>, texts: &Vec<String>, at: usize) -> (r: (Vec<Open>, usize))
    requires
        at + rs.len() <= texts.len(),
    ensures
        r.1 == first_unsupported(redirects_view(rs@), 0),
        r.1 <= rs.len(),
        opens_view(r.0@) == opens(
            redirects_view(rs@),
            strings(texts@).subrange(at as int, at + rs.len()),
            r.1 as int,
        ),
{
    let ghost rv = redirects_view(rs@);
    let ghost paths = strings(texts@).subrange(at as int, at + rs.len());
    let mut files: Vec<Open> = Vec::new();
    let mut i: usize = 0;
    assert(opens_view(files@) =~= opens(rv, paths, 0));
    while i < rs.len()
        invariant
            i <= rs.len(),
            at + rs.len() <= texts.len(),
            rv == redirects_view(rs@),
            paths == strings(texts@).subrange(at as int, at + rs.len()),
            first_unsupported(rv, 0) == first_unsupported(rv, i as int),
            opens_view(files@) == opens(rv, paths, i as int),
        decreases rs.len() - i,
    {
        let fd: i32 = rs[i].fd;
        let op = rs[i].op;
        assert(rv[i as int] == rs@[i as int]@);
        if !can_redirect(fd, op) {
            return (files, i);
        }
        let ghost before = opens_view(files@);
        let o = Open { fd, path: texts[at + i].clone(), op };
        files.push(o);
        assert(opens_view(files@) =~= before.push(o@));
        assert(opens_view(files@) =~= opens(rv, paths, i + 1));
        i += 1;
    }
    (files, i)
}

fn plan_external(
    rs: &Vec<Redirect>,
    texts: &Vec<String>,
    n: usize,
    st: &State,
    capture: bool,
    attach: bool,
) -> (r: Plan)
    requires
        n + rs.len() <= texts.len(),
    ensures
        r@ == external_plan(
            strings(texts@).take(n as int),
            redirects_view(rs@),
            strings(texts@).skip(n as int),
            st@,
            capture,
            attach,
        ),
{
    let ghost rv = redirects_view(rs@);
    let ghost paths = strings(texts@).skip(n as int);
    let argv = copy_texts(texts, 0, n);
    assert(strings(argv@) =~= strings(texts@).take(n as int));
    let process = Process::from_state(st, argv);
    if rs.len() == 0 && !capture && tty_mode(st) {
        return Plan::Ask(Action::Pty { process, attach });
    }
    let (files, k) = plan_opens(rs, texts, n);
    assert(opens_view(files@) =~= opens(rv, paths, k as int));
    if k < rs.len() {
        assert(rv[k as int] == rs@[k as int]@);
        let stages: Vec<Stage> = Vec::new();
        assert(stages_view(stages@) =~= Seq::<StageV>::empty());
        return Plan::Ask(Action::Open { stages, opens: files, fd: rs[k].fd, op: rs[k].op });
    }
    Plan::Ask(Action::Spawn { process, opens: files })
}

fn plan_command(
    c: &Command,
    texts: &Vec<String>,
    st: &State,
    capture: bool,
    attach: bool,
) -> (r: Plan)
    requires
        texts.len() == c.words.len() + c.redirects.len(),
    ensures
        r@ == command_plan(c@, strings(texts@), st@, capture, attach),
{
    let n: usize = c.words.len();
    if n == 0 {
        return Plan::Finish(st.clone(), 0);
    }
    let name = texts[0].as_str();
    assert(strings(texts@).take(n as int)[0] == name@);
    if str_eq(name, "cd") {
        plan_cd(texts, n, c.redirects.len() > 0, st)
    } else if str_eq(name, "export") {
        plan_export(texts, n, st)
    } else if str_eq(name, "unset") {
        plan_unset(texts, n, st)
    } else {
        plan_external(&c.redirects, texts, n, st, capture, attach)
    }
}

/// How many texts the first commands have.
spec fn texts_before(cs: Seq<CommandV>, i: int) -> nat {
    leaf_words(cs.take(i)).len()
}

proof fn lemma_texts_before(cs: Seq<CommandV>, i: int)
    requires
        0 <= i < cs.len(),
    ensures
        texts_before(cs, i + 1) == texts_before(cs, i) + cs[i].words.len()
            + cs[i].redirects.len(),
        texts_before(cs, i + 1) <= leaf_words(cs).len(),
    decreases cs.len() - i,
{
    assert(cs.take(i + 1).drop_last() =~= cs.take(i));
    if i + 1 < cs.len() {
        lemma_texts_before(cs, i + 1);
    } else {
        assert(cs.take(i + 1) =~= cs);
    }
}

fn plan_stages(cs: &Vec<Command>, texts: &Vec<String>, st: &State) -> (r: Plan)
    requires
        texts.len() == leaf_words(commands_view(cs@)).len(),
    ensures
        r@ == stages_plan(commands_view(cs@), strings(texts@), st@, 0, 0, Seq::empty()),
{
    let ghost v = commands_view(cs@);
    let ghost tv = strings(texts@);
    let ghost goal = stages_plan(v, tv, st@, 0, 0, Seq::empty());
    let mut stages: Vec<Stage> = Vec::new();
    let mut i: usize = 0;
    let mut at: usize = 0;
    assert(stages_view(stages@) =~= Seq::<StageV>::empty());
    while i < cs.len()
        invariant
            i <= cs.len(),
            v == commands_view(cs@),
            tv == strings(texts@),
            texts.len() == leaf_words(v).len(),
            at == texts_before(v, i as int),
            goal == stages_plan(v, tv, st@, 0, 0, Seq::empty()),
            goal == stages_plan(v, tv, st@, i as int, at as int, stages_view(stages@)),
        decreases cs.len() - i,
    {
        let c = &cs[i];
        assert(v[i as int] == c@);
        proof {
            lemma_texts_before(v, i as int);
        }
        if c.words.len() == 0 {
            return Plan::Ask(Action::Start { stages });
        }
        let words_end: usize = at + c.words.len();
        let (files, k) = plan_opens(&c.redirects, texts, words_end);
        if k < c.redirects.len() {
            assert(c@.redirects[k as int] == c.redirects@[k as int]@);
            let fd: i32 = c.redirects[k].fd;
            return Plan::Ask(Action::Open { stages, opens: files, fd, op: c.redirects[k].op });
        }
        let argv = copy_texts(texts, at, words_end);
        let stage = Stage { process: Process::from_state(st, argv), opens: files };
        let ghost before = stages_view(stages@);
        stages.push(stage);
        assert(stages_view(stages@) =~= before.push(stage@));
        at = words_end + c.redirects.len();
        i += 1;
    }
    Plan::Ask(Action::Pipeline { stages })
}

pub(crate) fn plan_leaf(
    cs: &Vec<Command>,
    piped: bool,
    texts: &Vec<String>,
    st: &State,
    capture: bool,
) -> (r: Plan)
    requires
        texts.len() == leaf_words(commands_view(cs@)).len(),
    ensures
        r@ == leaf_plan(commands_view(cs@), piped, strings(texts@), st@, capture),
{
    let ghost v = commands_view(cs@);
    if cs.len() == 0 {
        Plan::Finish(st.clone(), 0)
    } else if cs.len() == 1 {
        proof {
            lemma_texts_before(v, 0);
            assert(v.take(1) =~= v);
            assert(v.take(0) =~= Seq::<CommandV>::empty());
            assert(v[0] == cs@[0]@);
        }
        plan_command(&cs[0], texts, st, capture, !piped)
    } else {
        plan_stages(cs, texts, st)
    }
}

} // verus!
