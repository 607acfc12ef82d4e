//! The cockpit: attach to a branch and work on it.
//!
//! A finished tip gives a prompt, and each line typed there extends the branch; a running tip is
//! followed first. While parked at the prompt, cells that other clients land on the branch are
//! shown above it.

use std::collections::HashSet;
use vstd::prelude::*;

use crate::eval::is_pure_line;
use crate::render::{
    echo, echoed, exit_line, prints_view, say_exit, stops_mid_line, ensure_trailing_newline, Print,
    PrintV,
};
use crate::text::{
    as_text, chars_of, decimal, is_white, last_char, opt_text, push_decimal, str_eq, string_of,
    strip_cr, text_of_bytes, trim, trimmed, white, without_cr,
};
use crate::tree::CellId;
use crate::wire::{CellEvent, CellEventV, CellSnapshot, CellSnapshotV};

verus! {

// ---------- Standard input --------------------------------------------------

/// Bytes read from stdin that were not used yet. They are used as lines at the prompt and as raw
/// chunks in a cell's terminal, and what is left over carries over.
#[derive(Debug)]
pub struct StdinBuffer {
    buf: Vec<u8>,
}

impl View for StdinBuffer {
    type V = Seq<u8>;

    closed spec fn view(&self) -> Seq<u8> {
        self.buf@
    }
}

/// The position of the first newline from `i` on, or the end.
pub open spec fn newline_at(b: Seq<u8>, i: int) -> int
    decreases b.len() - i,
{
    if 0 <= i < b.len() && b[i] != 10 {
        newline_at(b, i + 1)
    } else {
        i
    }
}

impl StdinBuffer {
    /// Nothing was read.
    pub fn new() -> (r: StdinBuffer)
        ensures
            r@ == Seq::<u8>::empty(),
    {
        StdinBuffer { buf: Vec::new() }
    }

    /// Takes in bytes that were read.
    pub fn feed(&mut self, bytes: &[u8])
        ensures
            final(self)@ == old(self)@ + bytes@,
    {
        let mut v = vstd::slice::slice_to_vec(bytes);
        self.buf.append(&mut v);
    }

    /// All that is left, as a raw chunk; none if nothing is.
    pub fn chunk(&mut self) -> (r: Option<Vec<u8>>)
        ensures
            final(self)@ == Seq::<u8>::empty(),
            match r {
                Some(b) => old(self)@.len() > 0 && b@ == old(self)@,
                None => old(self)@.len() == 0,
            },
    {
        if self.buf.len() == 0 {
            assert(self.buf@ =~= Seq::<u8>::empty());
            return None;
        }
        let mut all: Vec<u8> = Vec::new();
        core::mem::swap(&mut all, &mut self.buf);
        Some(all)
    }

    /// The next line, without its newline and without carriage returns at its end; none if there
    /// is no whole line.
    pub fn line(&mut self) -> (r: Option<String>)
        ensures
            ({
                let n = newline_at(old(self)@, 0);
                if n < old(self)@.len() {
                    &&& opt_text(r) == Some(strip_cr(as_text(old(self)@.take(n))))
                    &&& final(self)@ == old(self)@.skip(n + 1)
                } else {
                    r is None && final(self)@ == old(self)@
                }
            }),
    {
        let mut n: usize = 0;
        while n < self.buf.len() && self.buf[n] != 10
            invariant
                n <= self.buf.len(),
                self.buf@ == old(self)@,
                newline_at(old(self)@, 0) == newline_at(old(self)@, n as int),
            decreases self.buf.len() - n,
        {
            n += 1;
        }
        if n >= self.buf.len() {
            return None;
        }
        let rest = self.buf.split_off(n + 1);
        let mut line: Vec<u8> = rest;
        core::mem::swap(&mut line, &mut self.buf);
        line.truncate(n);
        assert(line@ =~= old(self)@.take(n as int));
        assert(self.buf@ =~= old(self)@.skip(n + 1));
        let t = text_of_bytes(line.as_slice());
        Some(without_cr(t.as_str()))
    }

    /// What is left when stdin has closed, as a last line; none if nothing is.
    pub fn last_line(&mut self) -> (r: Option<String>)
        ensures
            final(self)@ == Seq::<u8>::empty(),
            opt_text(r) == if old(self)@.len() > 0 {
                Some(as_text(old(self)@))
            } else {
                None
            },
    {
        match self.chunk() {
            Some(b) => Some(text_of_bytes(b.as_slice())),
            None => None,
        }
    }
}

// ---------- Other clients' cells --------------------------------------------

/// What is known of the cells of others.
#[derive(Debug)]
pub struct Feed {
    mine: HashSet<CellId>,
    foreign: HashSet<CellId>,
    at_line_start: bool,
}

/// What is known of the cells of others.
#[verifier::ext_equal]
pub struct FeedV {
    /// The cells that this cockpit submitted.
    pub mine: Set<CellId>,
    /// The cells of others on this branch that are being shown.
    pub foreign: Set<CellId>,
    /// Whether what was shown last ended a line.
    pub at_line_start: bool,
}

impl View for Feed {
    type V = FeedV;

    closed spec fn view(&self) -> FeedV {
        FeedV { mine: self.mine@, foreign: self.foreign@, at_line_start: self.at_line_start }
    }
}

/// What takes the prompt off the screen, where it stands there.
pub open spec fn cleared(at_prompt: bool) -> Seq<PrintV> {
    if at_prompt {
        seq![PrintV::Stdout("\r\u{1b}[K"@)]
    } else {
        Seq::empty()
    }
}

/// The feed after an event, and what is shown of it on `branch`. Cells that this cockpit
/// submitted are not shown again, nor are those on other branches. The status line of a cell
/// never lands in the middle of a line.
pub open spec fn feed_step(
    f: FeedV,
    branch: Seq<char>,
    e: CellEventV,
    at_prompt: bool,
) -> (FeedV, Seq<PrintV>) {
    match e {
        CellEventV::Started { id, source, who, branch: b, .. } => if f.mine.contains(id) || b
            != branch {
            (f, Seq::empty())
        } else {
            (
                FeedV { foreign: f.foreign.insert(id), at_line_start: true, ..f },
                cleared(at_prompt).push(
                    PrintV::Stdout(
                        "[#"@ + decimal(id as nat) + " "@ + who + " on "@ + b + "] $ "@ + source
                            + "\n"@,
                    ),
                ),
            )
        },
        CellEventV::OutputChunk { id, stream, data } => if !f.foreign.contains(id) {
            (f, Seq::empty())
        } else {
            (
                FeedV {
                    at_line_start: if data.len() > 0 {
                        data.last() == '\n'
                    } else {
                        f.at_line_start
                    },
                    ..f
                },
                cleared(at_prompt).push(echo(stream, data)),
            )
        },
        CellEventV::Completed { id, exit_code, duration_ms, .. } => if !f.foreign.contains(id) {
            (f, Seq::empty())
        } else {
            (
                FeedV { foreign: f.foreign.remove(id), at_line_start: true, ..f },
                (if f.at_line_start {
                    cleared(at_prompt)
                } else {
                    cleared(at_prompt).push(PrintV::Stdout("\n"@))
                }).push(PrintV::Stdout(exit_line(id, exit_code, duration_ms))),
            )
        },
    }
}

pub(crate) fn push_print(v: &mut Vec<Print>, p: Print)
    ensures
        prints_view(final(v)@) == prints_view(old(v)@).push(p@),
{
    v.push(p);
    assert(prints_view(v@) =~= prints_view(old(v)@).push(p@));
}

fn clear_prompt(at_prompt: bool) -> (r: Vec<Print>)
    ensures
        prints_view(r@) == cleared(at_prompt),
{
    let mut v: Vec<Print> = Vec::new();
    assert(prints_view(v@) =~= Seq::<PrintV>::empty());
    if at_prompt {
        push_print(&mut v, Print::Stdout("\r\u{1b}[K".to_owned()));
        assert(prints_view(v@) =~= cleared(true));
    }
    v
}

impl Feed {
    /// Nothing is known.
    pub fn new() -> (r: Feed)
        ensures
            r@ == (FeedV { mine: Set::empty(), foreign: Set::empty(), at_line_start: true }),
    {
        broadcast use vstd::std_specs::hash::group_hash_axioms;

        Feed { mine: HashSet::new(), foreign: HashSet::new(), at_line_start: true }
    }

    /// The cell `id` was submitted here.
    pub fn submitted(&mut self, id: CellId)
        ensures
            final(self)@ == (FeedV { mine: old(self)@.mine.insert(id), ..old(self)@ }),
    {
        broadcast use vstd::std_specs::hash::group_hash_axioms;

        self.mine.insert(id);
    }

    /// No cell of others is shown any more.
    pub fn forget(&mut self)
        ensures
            final(self)@ == (FeedV { foreign: Set::empty(), ..old(self)@ }),
    {
        broadcast use vstd::std_specs::hash::group_hash_axioms;

        self.foreign = HashSet::new();
    }

    /// Whether no cell of others is being shown.
    pub fn is_quiet(&self) -> (r: bool)
        ensures
            r == (self@.foreign.len() == 0),
    {
        broadcast use vstd::std_specs::hash::group_hash_axioms;

        self.foreign.len() == 0
    }

    /// Takes in an event. Says what is shown of it on `branch`.
    pub fn render(&mut self, branch: &str, e: CellEvent, at_prompt: bool) -> (r: Vec<Print>)
        ensures
            (final(self)@, prints_view(r@)) == feed_step(old(self)@, branch@, e@, at_prompt),
    {
        broadcast use vstd::std_specs::hash::group_hash_axioms;

        let nothing: Vec<Print> = Vec::new();
        assert(prints_view(nothing@) =~= Seq::<PrintV>::empty());
        match e {
            CellEvent::Started { id, source, who, branch: b, .. } => {
                if self.mine.contains(&id) || !str_eq(b.as_str(), branch) {
                    return nothing;
                }
                self.foreign.insert(id);
                self.at_line_start = true;
                let mut out = clear_prompt(at_prompt);
                let mut s = "[#".to_owned();
                push_decimal(&mut s, id);
                s.append(" ");
                s.append(who.as_str());
                s.append(" on ");
                s.append(b.as_str());
                s.append("] $ ");
                s.append(source.as_str());
                s.append("\n");
                push_print(&mut out, Print::Stdout(s));
                out
            },
            CellEvent::OutputChunk { id, stream, data } => {
                if !self.foreign.contains(&id) {
                    return nothing;
                }
                let mut out = clear_prompt(at_prompt);
                push_print(&mut out, echoed(stream, data.as_str()));
                match last_char(data.as_str()) {
                    Some(c) => {
                        self.at_line_start = c == '\n';
                    },
                    None => {},
                }
                out
            },
            CellEvent::Completed { id, exit_code, duration_ms, .. } => {
                if !self.foreign.contains(&id) {
                    return nothing;
                }
                self.foreign.remove(&id);
                let mut out = clear_prompt(at_prompt);
                if !self.at_line_start {
                    push_print(&mut out, Print::Stdout("\n".to_owned()));
                }
                push_print(&mut out, Print::Stdout(say_exit(id, exit_code, duration_ms)));
                self.at_line_start = true;
                out
            },
        }
    }
}

// ---------- Lines -----------------------------------------------------------

/// The end of the run of characters that are not white space, from `i` on.
pub open spec fn word_end(s: Seq<char>, i: int) -> int
    decreases s.len() - i,
{
    if 0 <= i < s.len() && !is_white(s[i]) {
        word_end(s, i + 1)
    } else {
        i
    }
}

/// The start of the first word from `i` on, or the end.
pub open spec fn word_start(s: Seq<char>, i: int) -> int
    decreases s.len() - i,
{
    if 0 <= i < s.len() && is_white(s[i]) {
        word_start(s, i + 1)
    } else {
        i
    }
}

/// The first word of `s` from `i` on, and where it ends; none if only white space is left.
pub open spec fn next_word(s: Seq<char>, i: int) -> Option<(Seq<char>, int)> {
    let b = word_start(s, i);
    let e = word_end(s, b);
    if b < s.len() {
        Some((s.subrange(b, e), e))
    } else {
        None
    }
}

fn read_word(v: &Vec<char>, i: usize) -> (r: Option<(String, usize)>)
    requires
        i <= v.len(),
    ensures
        match r {
            Some((w, e)) => next_word(v@, i as int) == Some((w@, e as int)) && e <= v.len(),
            None => next_word(v@, i as int) is None,
        },
{
    let mut b: usize = i;
    while b < v.len() && white(v[b])
        invariant
            i <= b <= v.len(),
            word_start(v@, i as int) == word_start(v@, b as int),
        decreases v.len() - b,
    {
        b += 1;
    }
    if b >= v.len() {
        return None;
    }
    let mut e: usize = b;
    while e < v.len() && !white(v[e])
        invariant
            b <= e <= v.len(),
            word_end(v@, b as int) == word_end(v@, e as int),
        decreases v.len() - e,
    {
        e += 1;
    }
    Some((string_of(v, b, e), e))
}

/// A command to the cockpit itself.
#[derive(Debug)]
pub enum Meta {
    Quit,
    Help,
    At,
    Branches,
    Tree,
    Switch(Option<String>),
    Unknown(String),
}

/// A command to the cockpit itself.
pub enum MetaV {
    Quit,
    Help,
    At,
    Branches,
    Tree,
    Switch(Option<Seq<char>>),
    Unknown(Seq<char>),
}

impl View for Meta {
    type V = MetaV;

    open spec fn view(&self) -> MetaV {
        match self {
            Meta::Quit => MetaV::Quit,
            Meta::Help => MetaV::Help,
            Meta::At => MetaV::At,
            Meta::Branches => MetaV::Branches,
            Meta::Tree => MetaV::Tree,
            Meta::Switch(n) => MetaV::Switch(opt_text(*n)),
            Meta::Unknown(w) => MetaV::Unknown(w@),
        }
    }
}

/// What follows a `:` says.
pub open spec fn meta(rest: Seq<char>) -> MetaV {
    match next_word(rest, 0) {
        None => MetaV::Help,
        Some((w, e)) => if w == "quit"@ || w == "q"@ || w == "exit"@ {
            MetaV::Quit
        } else if w == "help"@ || w == "h"@ {
            MetaV::Help
        } else if w == "at"@ {
            MetaV::At
        } else if w == "branches"@ {
            MetaV::Branches
        } else if w == "tree"@ {
            MetaV::Tree
        } else if w == "switch"@ {
            MetaV::Switch(
                match next_word(rest, e) {
                    Some((n, _)) => Some(n),
                    None => None,
                },
            )
        } else {
            MetaV::Unknown(w)
        },
    }
}

fn read_meta(v: &Vec<char>) -> (r: Meta)
    ensures
        r@ == meta(v@),
{
    match read_word(v, 0) {
        None => Meta::Help,
        Some((w, e)) => {
            let w = w.as_str();
            if str_eq(w, "quit") || str_eq(w, "q") || str_eq(w, "exit") {
                Meta::Quit
            } else if str_eq(w, "help") || str_eq(w, "h") {
                Meta::Help
            } else if str_eq(w, "at") {
                Meta::At
            } else if str_eq(w, "branches") {
                Meta::Branches
            } else if str_eq(w, "tree") {
                Meta::Tree
            } else if str_eq(w, "switch") {
                Meta::Switch(
                    match read_word(v, e) {
                        Some((n, _)) => Some(n),
                        None => None,
                    },
                )
            } else {
                Meta::Unknown(w.to_owned())
            }
        },
    }
}

/// What a line typed at the prompt is.
#[derive(Debug)]
pub enum Line {
    Blank,
    Meta(Meta),
    Command(String),
}

/// What a line typed at the prompt is.
pub enum LineV {
    Blank,
    Meta(MetaV),
    Command(Seq<char>),
}

impl View for Line {
    type V = LineV;

    open spec fn view(&self) -> LineV {
        match self {
            Line::Blank => LineV::Blank,
            Line::Meta(m) => LineV::Meta(m@),
            Line::Command(c) => LineV::Command(c@),
        }
    }
}

/// What a line typed at the prompt is: nothing, a command to the cockpit behind a `:`, or a
/// command line.
pub open spec fn line_kind(line: Seq<char>) -> LineV {
    let t = trimmed(line);
    if t.len() == 0 {
        LineV::Blank
    } else if t[0] == ':' {
        LineV::Meta(meta(t.skip(1)))
    } else {
        LineV::Command(t)
    }
}

/// What a line typed at the prompt is.
pub fn classify(line: &str) -> (r: Line)
    ensures
        r@ == line_kind(line@),
{
    let t = trim(line);
    let v = chars_of(t.as_str());
    if v.len() == 0 {
        return Line::Blank;
    }
    if v[0] == ':' {
        let rest = string_of(&v, 1, v.len());
        assert(rest@ =~= t@.skip(1));
        let rv = chars_of(rest.as_str());
        return Line::Meta(read_meta(&rv));
    }
    Line::Command(t)
}

/// A command runs in the background, with its terminal handed to the user: the branch is in
/// terminal mode, and the command spawns something.
pub open spec fn runs_detached(tty: bool, source: Seq<char>) -> bool {
    tty && !is_pure_line(source)
}

// ---------- Texts -----------------------------------------------------------

/// The prompt.
pub open spec fn prompt_text(branch: Seq<char>) -> Seq<char> {
    "(on "@ + branch + ") > "@
}

pub(crate) fn prompt(branch: &str) -> (r: Print)
    ensures
        r@ == PrintV::Stdout(prompt_text(branch@)),
{
    let mut s = "(on ".to_owned();
    s.append(branch);
    s.append(") > ");
    Print::Stdout(s)
}

/// The greeting.
pub open spec fn greeting(branch: Seq<char>) -> Seq<char> {
    "fern — attached to '"@ + branch + "'. :help for commands, :quit to leave.\n"@
}

/// What `:help` says.
pub open spec fn help_text() -> Seq<char> {
    ":branches          list branches\n:switch <name>     switch the current branch\n:tree              show the cell tree\n:at                show the current branch\n:quit / :q         leave the cockpit\n"@
}

/// How an error is shown.
pub open spec fn error_text(message: Seq<char>) -> Seq<char> {
    "error: "@ + message + "\n"@
}

pub(crate) fn say_error(message: &str) -> (r: Print)
    ensures
        r@ == PrintV::Stdout(error_text(message@)),
{
    let mut s = "error: ".to_owned();
    s.append(message);
    s.append("\n");
    Print::Stdout(s)
}

/// What a finished line shows below its output.
pub open spec fn finish_prints(c: CellSnapshotV) -> Seq<PrintV> {
    let code = match c.exit_code {
        Some(n) => n,
        None => -1i32,
    };
    let status = PrintV::Stdout(exit_line(c.id, code, c.duration_ms));
    if stops_mid_line(c.stdout, c.stderr) {
        seq![PrintV::Stdout(seq!['\n']), status]
    } else {
        seq![status]
    }
}

pub(crate) fn finish(c: &CellSnapshot) -> (r: Vec<Print>)
    ensures
        prints_view(r@) == finish_prints(c@),
{
    let mut v: Vec<Print> = Vec::new();
    assert(prints_view(v@) =~= Seq::<PrintV>::empty());
    match ensure_trailing_newline(c.stdout.as_str(), c.stderr.as_str()) {
        Some(p) => {
            push_print(&mut v, p);
        },
        None => {},
    }
    let code: i32 = match c.exit_code {
        Some(n) => n,
        None => -1,
    };
    push_print(&mut v, Print::Stdout(say_exit(c.id, code, c.duration_ms)));
    assert(prints_view(v@) =~= finish_prints(c@));
    v
}

} // verus!
