//! The rules of the client: what it asks, and what it makes of the answers.

use vstd::prelude::*;
use vstd::utf8::*;

use crate::daemon::{heard, Transcript, TranscriptV};
use crate::render::{echo, echoed, exit_line, prints_view, say_exit, Print, PrintV};
use crate::text::{
    as_text, copy_opt, decimal, join_path, joined, number, opt_text, push_decimal, push_signed,
    read_u64, signed_decimal, str_eq, text_of_bytes, trim, trimmed,
};
use crate::tree::{strings, CellId, DEFAULT_BRANCH};
use crate::wire::{
    branches_view, BranchSnapshot, BranchSnapshotV, CellEvent, CellEventV, CellSnapshot,
    CellSnapshotV, Request, RequestV, Response, ResponseV, TreeSnapshot,
};

verus! {

// ---------- Command lines ---------------------------------------------------

/// Words with a space between each two.
pub open spec fn spaced(words: Seq<Seq<char>>) -> Seq<char>
    decreases words.len(),
{
    if words.len() == 0 {
        Seq::empty()
    } else if words.len() == 1 {
        words[0]
    } else {
        spaced(words.drop_last()) + " "@ + words.last()
    }
}

/// Joins words with spaces.
pub fn join_words(words: &Vec<String>) -> (r: String)
    ensures
        r@ == spaced(strings(words@)),
{
    let ghost v = strings(words@);
    let mut s = String::new();
    let mut i: usize = 0;
    assert(v.take(0) =~= Seq::<Seq<char>>::empty());
    assert(s@ =~= spaced(v.take(0)));
    while i < words.len()
        invariant
            i <= words.len(),
            v == strings(words@),
            s@ == spaced(v.take(i as int)),
        decreases words.len() - i,
    {
        proof {
            assert(v.take(i + 1).drop_last() =~= v.take(i as int));
            assert(v.take(i + 1).last() == words@[i as int]@);
        }
        if i > 0 {
            s.append(" ");
        }
        s.append(words[i].as_str());
        assert(s@ =~= spaced(v.take(i + 1)));
        i += 1;
    }
    assert(v.take(i as int) =~= v);
    s
}

/// The command line that words make, unless it is blank.
pub fn command_line(words: &Vec<String>) -> (r: Option<String>)
    ensures
        match r {
            Some(s) => s@ == spaced(strings(words@)) && trimmed(s@).len() > 0,
            None => trimmed(spaced(strings(words@))).len() == 0,
        },
{
    let line = join_words(words);
    if trim(line.as_str()).as_str().is_empty() {
        None
    } else {
        Some(line)
    }
}

/// Says that a cell runs in the background.
pub fn detached(id: CellId) -> (r: String)
    ensures
        r@ == "detached: cell #"@ + decimal(id as nat) + " running\n"@,
{
    let mut s = "detached: cell #".to_owned();
    push_decimal(&mut s, id);
    s.append(" running\n");
    s
}

// ---------- The current branch ----------------------------------------------

/// Where the name of the current branch is kept: below the runtime directory, or below `/tmp`
/// where there is none.
pub fn current_branch_path(runtime_dir: Option<String>) -> (r: String)
    ensures
        r@ == joined(
            match runtime_dir {
                Some(d) => d@,
                None => "/tmp"@,
            },
            "fern-branch"@,
        ),
{
    match runtime_dir {
        Some(d) => join_path(d.as_str(), "fern-branch"),
        None => join_path("/tmp", "fern-branch"),
    }
}

/// The current branch, by what its file holds: its text, unless that is blank or could not be
/// read.
pub open spec fn current_branch(file: Option<Seq<char>>) -> Seq<char> {
    match file {
        Some(f) if trimmed(f).len() > 0 => trimmed(f),
        _ => DEFAULT_BRANCH@,
    }
}

/// The current branch, by what its file holds.
pub fn read_current_branch(file: Option<String>) -> (r: String)
    ensures
        r@ == current_branch(opt_text(file)),
{
    match file {
        Some(f) => {
            let t = trim(f.as_str());
            if t.as_str().is_empty() {
                DEFAULT_BRANCH.to_owned()
            } else {
                t
            }
        },
        None => DEFAULT_BRANCH.to_owned(),
    }
}

/// The first of the branches that has the name.
pub open spec fn find_branch(bs: Seq<BranchSnapshotV>, name: Seq<char>) -> Option<BranchSnapshotV>
    decreases bs.len(),
{
    if bs.len() == 0 {
        None
    } else if bs[0].name == name {
        Some(bs[0])
    } else {
        find_branch(bs.drop_first(), name)
    }
}

/// The first of the branches that has the name.
pub fn lookup<'a>(branches: &'a Vec<BranchSnapshot>, name: &str) -> (r: Option<&'a BranchSnapshot>)
    ensures
        match r {
            Some(b) => find_branch(branches_view(branches@), name@) == Some(b@),
            None => find_branch(branches_view(branches@), name@) is None,
        },
{
    let ghost v = branches_view(branches@);
    let mut i: usize = 0;
    assert(v.skip(0) =~= v);
    while i < branches.len()
        invariant
            i <= branches.len(),
            v == branches_view(branches@),
            find_branch(v, name@) == find_branch(v.skip(i as int), name@),
        decreases branches.len() - i,
    {
        assert(v.skip(i as int)[0] == branches@[i as int]@);
        assert(v.skip(i as int).drop_first() =~= v.skip(i + 1));
        if str_eq(branches[i].name.as_str(), name) {
            return Some(&branches[i]);
        }
        i += 1;
    }
    None
}

/// What is said where the current branch is gone.
pub open spec fn gone_text(name: Seq<char>) -> Seq<char> {
    "[fern] current branch '"@ + name
        + "' no longer exists (daemon restarted?) — falling back to '"@ + DEFAULT_BRANCH@ + "'\n"@
}

/// The branch that a command without one lands on.
#[derive(Debug)]
pub enum Cursor {
    /// This one.
    On(String),
    /// The default branch, for the current one is gone. This is said, and the default branch is
    /// the current one from now on.
    Healed(String),
}

/// Whether it is known without asking that the current branch exists: the default branch always
/// does.
pub fn needs_no_check(name: &str) -> (r: bool)
    ensures
        r == (name@ == DEFAULT_BRANCH@),
{
    str_eq(name, DEFAULT_BRANCH)
}

/// The branch that a command without one lands on: the current one, unless it is gone.
pub fn resolve_current_branch(name: &str, branches: &Vec<BranchSnapshot>) -> (r: Cursor)
    ensures
        match r {
            Cursor::On(n) => n@ == name@ && (name@ == DEFAULT_BRANCH@ || find_branch(
                branches_view(branches@),
                name@,
            ) is Some),
            Cursor::Healed(m) => {
                &&& name@ != DEFAULT_BRANCH@
                &&& find_branch(branches_view(branches@), name@) is None
                &&& m@ == gone_text(name@)
            },
        },
{
    if str_eq(name, DEFAULT_BRANCH) || lookup(branches, name).is_some() {
        return Cursor::On(name.to_owned());
    }
    let mut s = "[fern] current branch '".to_owned();
    s.append(name);
    s.append("' no longer exists (daemon restarted?) — falling back to '");
    s.append(DEFAULT_BRANCH);
    s.append("'\n");
    Cursor::Healed(s)
}

/// Who submits: who is given, the user's name, or `?`.
pub fn submitter(who: Option<String>, user: Option<String>) -> (r: String)
    ensures
        r@ == match (opt_text(who), opt_text(user)) {
            (Some(w), _) => w,
            (None, Some(u)) => u,
            (None, None) => "?"@,
        },
{
    match who {
        Some(w) => w,
        None => match user {
            Some(u) => u,
            None => "?".to_owned(),
        },
    }
}

// ---------- Answers ---------------------------------------------------------

/// Why a request did not give what it was for.
#[derive(Debug)]
pub enum Refusal {
    /// The daemon says so.
    Said(String),
    /// The daemon sent something else.
    Unexpected(Response),
}

/// The refusal that an answer is, where it is not what the request was for.
pub open spec fn is_refusal(r: Refusal, resp: ResponseV) -> bool {
    match r {
        Refusal::Said(m) => resp == ResponseV::Error { message: m@ },
        Refusal::Unexpected(other) => !(resp is Error) && other@ == resp,
    }
}

/// Expects a bare acknowledgement.
pub fn expect_done(resp: Response) -> (r: Result<(), Refusal>)
    ensures
        match r {
            Ok(_) => resp@ is Done,
            Err(e) => !(resp@ is Done) && is_refusal(e, resp@),
        },
{
    match resp {
        Response::Done => Ok(()),
        Response::Error { message } => Err(Refusal::Said(message)),
        other => Err(Refusal::Unexpected(other)),
    }
}

/// Expects a cell.
pub fn expect_cell(resp: Response) -> (r: Result<CellSnapshot, Refusal>)
    ensures
        match r {
            Ok(c) => resp@ == ResponseV::Cell(c@),
            Err(e) => !(resp@ is Cell) && is_refusal(e, resp@),
        },
{
    match resp {
        Response::Cell(c) => Ok(c),
        Response::Error { message } => Err(Refusal::Said(message)),
        other => Err(Refusal::Unexpected(other)),
    }
}

/// Expects the tree.
pub fn expect_tree(resp: Response) -> (r: Result<TreeSnapshot, Refusal>)
    ensures
        match r {
            Ok(t) => resp@ == ResponseV::Tree(t@),
            Err(e) => !(resp@ is Tree) && is_refusal(e, resp@),
        },
{
    match resp {
        Response::Tree(t) => Ok(t),
        Response::Error { message } => Err(Refusal::Said(message)),
        other => Err(Refusal::Unexpected(other)),
    }
}

/// Expects the branches.
pub fn expect_branches(resp: Response) -> (r: Result<Vec<BranchSnapshot>, Refusal>)
    ensures
        match r {
            Ok(b) => resp@ == (ResponseV::Branches { branches: branches_view(b@) }),
            Err(e) => !(resp@ is Branches) && is_refusal(e, resp@),
        },
{
    match resp {
        Response::Branches { branches } => Ok(branches),
        Response::Error { message } => Err(Refusal::Said(message)),
        other => Err(Refusal::Unexpected(other)),
    }
}

// ---------- Submitting ------------------------------------------------------

/// What is said where a line landed on another branch than it was sent to.
pub open spec fn fork_prints(requested: Seq<char>, landed: Seq<char>) -> Seq<PrintV> {
    if requested == landed {
        Seq::empty()
    } else {
        seq![
            PrintV::Stderr(
                "[fern] forked off '"@ + requested + "' → new branch '"@ + landed + "'\n"@,
            ),
        ]
    }
}

/// Tells the user when a submission forked instead of fast-forwarding.
pub fn report_fork(requested: &str, landed: &str) -> (r: Vec<Print>)
    ensures
        prints_view(r@) == fork_prints(requested@, landed@),
{
    let mut v: Vec<Print> = Vec::new();
    assert(prints_view(v@) =~= Seq::<PrintV>::empty());
    if !str_eq(requested, landed) {
        let mut s = "[fern] forked off '".to_owned();
        s.append(requested);
        s.append("' → new branch '");
        s.append(landed);
        s.append("'\n");
        let p = Print::Stderr(s);
        v.push(p);
        assert(prints_view(v@) =~= seq![p@]);
    }
    v
}

fn no_prints() -> (r: Vec<Print>)
    ensures
        prints_view(r@) == Seq::<PrintV>::empty(),
{
    let v: Vec<Print> = Vec::new();
    assert(prints_view(v@) =~= Seq::<PrintV>::empty());
    v
}

fn one_print(p: Print) -> (r: Vec<Print>)
    ensures
        prints_view(r@) == seq![p@],
{
    let mut v: Vec<Print> = Vec::new();
    v.push(p);
    assert(prints_view(v@) =~= seq![p@]);
    v
}

/// A line that was submitted, as far as it is known.
#[derive(Debug)]
pub struct Submission {
    branch: String,
    who: String,
    source: String,
    parent: Option<CellId>,
    transcript: Transcript,
}

/// A line that was submitted, as far as it is known.
pub struct SubmissionV {
    pub branch: Seq<char>,
    pub who: Seq<char>,
    pub source: Seq<char>,
    pub parent: Option<CellId>,
    pub transcript: TranscriptV,
}

impl View for Submission {
    type V = SubmissionV;

    closed spec fn view(&self) -> SubmissionV {
        SubmissionV {
            branch: self.branch@,
            who: self.who@,
            source: self.source@,
            parent: self.parent,
            transcript: self.transcript@,
        }
    }
}

/// What an answer means for a line that was submitted.
#[derive(Debug)]
pub enum Progress {
    /// It goes on; this is printed.
    More(Vec<Print>),
    /// It is over.
    Done(CellSnapshot),
    /// It was refused.
    Failed(String),
}

/// What an answer means for a line that was submitted.
pub enum ProgressV {
    More(Seq<PrintV>),
    Done(CellSnapshotV),
    Failed(Seq<char>),
}

impl View for Progress {
    type V = ProgressV;

    open spec fn view(&self) -> ProgressV {
        match self {
            Progress::More(p) => ProgressV::More(prints_view(p@)),
            Progress::Done(c) => ProgressV::Done(c@),
            Progress::Failed(m) => ProgressV::Failed(m@),
        }
    }
}

/// The line after one more answer, and what that means. Output is printed as it comes and kept.
pub open spec fn progress(s: SubmissionV, resp: ResponseV) -> (SubmissionV, ProgressV) {
    match resp {
        ResponseV::Event(e) => match e {
            CellEventV::Started { parent, branch, .. } => (
                SubmissionV { parent, ..s },
                ProgressV::More(fork_prints(s.branch, branch)),
            ),
            CellEventV::OutputChunk { stream, data, .. } => (
                SubmissionV { transcript: heard(s.transcript, e), ..s },
                ProgressV::More(seq![echo(stream, data)]),
            ),
            CellEventV::Completed { id, exit_code, duration_ms, hash } => (
                s,
                ProgressV::Done(
                    CellSnapshotV {
                        id,
                        parent: s.parent,
                        submitter: s.who,
                        source: s.source,
                        exit_code: Some(exit_code),
                        duration_ms,
                        stdout: s.transcript.stdout,
                        stderr: s.transcript.stderr,
                        hash,
                    },
                ),
            ),
        },
        ResponseV::Error { message } => (s, ProgressV::Failed(message)),
        _ => (s, ProgressV::More(Seq::empty())),
    }
}

impl Submission {
    /// A line that is about to be submitted.
    pub fn new(branch: String, who: String, source: String) -> (r: Submission)
        ensures
            r@ == (SubmissionV {
                branch: branch@,
                who: who@,
                source: source@,
                parent: None,
                transcript: (TranscriptV { stdout: Seq::empty(), stderr: Seq::empty() }),
            }),
    {
        Submission { branch, who, source, parent: None, transcript: Transcript::new() }
    }

    /// The request that submits the line.
    pub fn request(&self, parent: Option<CellId>, detach: bool) -> (r: Request)
        ensures
            r@ == (RequestV::Submit {
                branch: self@.branch,
                parent,
                source: self@.source,
                who: self@.who,
                detach,
            }),
    {
        Request::Submit {
            branch: self.branch.clone(),
            parent,
            source: self.source.clone(),
            who: self.who.clone(),
            detach,
        }
    }

    /// Takes in one answer.
    pub fn take(&mut self, resp: Response) -> (r: Progress)
        ensures
            (final(self)@, r@) == progress(old(self)@, resp@),
    {
        match resp {
            Response::Event(e) => match &e {
                CellEvent::Started { parent, branch, .. } => {
                    self.parent = *parent;
                    Progress::More(report_fork(self.branch.as_str(), branch.as_str()))
                },
                CellEvent::OutputChunk { stream, data, .. } => {
                    self.transcript.hear(&e);
                    Progress::More(one_print(echoed(*stream, data.as_str())))
                },
                CellEvent::Completed { id, exit_code, duration_ms, hash } => Progress::Done(
                    CellSnapshot {
                        id: *id,
                        parent: self.parent,
                        submitter: self.who.clone(),
                        source: self.source.clone(),
                        exit_code: Some(*exit_code),
                        duration_ms: *duration_ms,
                        stdout: self.transcript.stdout.clone(),
                        stderr: self.transcript.stderr.clone(),
                        hash: copy_opt(hash),
                    },
                ),
            },
            Response::Error { message } => Progress::Failed(message),
            _ => Progress::More(no_prints()),
        }
    }
}

/// What an answer means for a line that was submitted to run in the background.
#[derive(Debug)]
pub enum Launch {
    /// Nothing yet.
    Wait,
    /// It runs as this cell; this is printed.
    Started(CellId, Vec<Print>),
    /// It was refused.
    Failed(String),
}

/// Takes in one answer to a line that was submitted to `requested`, to run in the background.
pub fn launched(requested: &str, resp: Response) -> (r: Launch)
    ensures
        match resp@ {
            ResponseV::Event(CellEventV::Started { id, branch, .. }) => {
                &&& r matches Launch::Started(i, p)
                &&& i == id
                &&& prints_view(p@) == fork_prints(requested@, branch)
            },
            ResponseV::Error { message } => r matches Launch::Failed(m) && m@ == message,
            _ => r is Wait,
        },
{
    match resp {
        Response::Event(CellEvent::Started { id, branch, .. }) => {
            Launch::Started(id, report_fork(requested, branch.as_str()))
        },
        Response::Error { message } => Launch::Failed(message),
        _ => Launch::Wait,
    }
}

// ---------- Targets ---------------------------------------------------------

/// The cell that a target names: the tip of the branch of that name, or the cell of that number.
pub open spec fn target_cell(bs: Seq<BranchSnapshotV>, target: Seq<char>) -> Option<CellId> {
    match find_branch(bs, target) {
        Some(b) => Some(b.tip),
        None => number(target),
    }
}

/// The cell that a target names. Branch names win over numbers.
pub fn resolve_target(branches: &Vec<BranchSnapshot>, target: &str) -> (r: Result<CellId, String>)
    ensures
        match target_cell(branches_view(branches@), target@) {
            Some(id) => r == Ok::<CellId, String>(id),
            None => r matches Err(m) && m@ == "no branch '"@ + target@ + "' and not a cell id"@,
        },
{
    match lookup(branches, target) {
        Some(b) => Ok(b.tip),
        None => match read_u64(target) {
            Some(n) => Ok(n),
            None => {
                let mut s = "no branch '".to_owned();
                s.append(target);
                s.append("' and not a cell id");
                Err(s)
            },
        },
    }
}

/// The tip of a branch, and whether it is running.
pub fn branch_tip_state(branches: &Vec<BranchSnapshot>, name: &str) -> (r: Option<(CellId, bool)>)
    ensures
        r == match find_branch(branches_view(branches@), name@) {
            Some(b) => Some((b.tip, b.running)),
            None => None,
        },
{
    match lookup(branches, name) {
        Some(b) => Some((b.tip, b.running)),
        None => None,
    }
}

/// Whether a branch is in terminal mode.
pub fn branch_is_tty(branches: &Vec<BranchSnapshot>, name: &str) -> (r: bool)
    ensures
        r == (find_branch(branches_view(branches@), name@) matches Some(b) && b.tty),
{
    match lookup(branches, name) {
        Some(b) => b.tty,
        None => false,
    }
}

// ---------- Following a cell ------------------------------------------------

/// How to follow a cell, by the answer to an attach request.
#[derive(Debug)]
pub enum Follow {
    /// In a terminal.
    Terminal,
    /// By its events: it has no terminal.
    Events,
    /// Not at all: the daemon sent something else.
    Unexpected(Response),
}

/// How to follow a cell, by the answer to an attach request.
pub fn follow_mode(resp: Response) -> (r: Follow)
    ensures
        match resp@ {
            ResponseV::Done => r is Terminal,
            ResponseV::Error { .. } => r is Events,
            _ => r matches Follow::Unexpected(other) && other@ == resp@,
        },
{
    match resp {
        Response::Done => Follow::Terminal,
        Response::Error { .. } => Follow::Events,
        other => Follow::Unexpected(other),
    }
}

/// What is said on entering a cell's terminal.
pub fn driving(id: CellId) -> (r: String)
    ensures
        r@ == "[fern] driving cell #"@ + decimal(id as nat)
            + ". Ctrl+] to detach (leaves the cockpit).\r\n"@,
{
    let mut s = "[fern] driving cell #".to_owned();
    push_decimal(&mut s, id);
    s.append(". Ctrl+] to detach (leaves the cockpit).\r\n");
    s
}

/// What keys typed in a cell's terminal come to.
#[derive(Debug)]
pub enum Typed {
    /// The user leaves; this is printed.
    Detach(Print),
    /// This goes to the cell.
    Send(Request),
}

/// `bytes` hold a Ctrl+].
pub open spec fn leaves(bytes: Seq<u8>) -> bool {
    exists|i: int| 0 <= i < bytes.len() && #[trigger] bytes[i] == 0x1d
}

/// What keys typed in the terminal of the cell `id` come to: a Ctrl+] among them leaves, and they
/// are not sent.
pub fn typed(id: CellId, bytes: &[u8]) -> (r: Typed)
    ensures
        if leaves(bytes@) {
            r matches Typed::Detach(p) && p@ == PrintV::Stderr(
                "\r\n[fern] detached (cell still running)\r\n"@,
            )
        } else {
            r matches Typed::Send(req) && req@ == (RequestV::Input { id, data: as_text(bytes@) })
        },
{
    let mut i: usize = 0;
    while i < bytes.len()
        invariant
            i <= bytes.len(),
            forall|k: int| 0 <= k < i ==> #[trigger] bytes@[k] != 0x1d,
        decreases bytes.len() - i,
    {
        if bytes[i] == 0x1d {
            assert(bytes@[i as int] == 0x1d);
            return Typed::Detach(
                Print::Stderr("\r\n[fern] detached (cell still running)\r\n".to_owned()),
            );
        }
        i += 1;
    }
    Typed::Send(Request::Input { id, data: text_of_bytes(bytes) })
}

/// What an answer shows in a cell's terminal, and whether it is the last.
pub open spec fn terminal_step(resp: ResponseV) -> (Seq<PrintV>, bool) {
    match resp {
        ResponseV::Event(CellEventV::OutputChunk { data, .. }) => (
            seq![PrintV::Stdout(data)],
            false,
        ),
        ResponseV::Event(CellEventV::Completed { exit_code, .. }) => (
            seq![
                PrintV::Stderr(
                    "\r\n[fern] cell exited with code "@ + signed_decimal(
                        exit_code as int,
                    ) + "\r\n"@,
                ),
            ],
            true,
        ),
        ResponseV::Error { message } => (
            seq![PrintV::Stderr("\r\n[fern] error: "@ + message + "\r\n"@)],
            true,
        ),
        _ => (Seq::empty(), false),
    }
}

/// What an answer shows in a cell's terminal, and whether it is the last.
pub fn terminal_event(resp: Response) -> (r: (Vec<Print>, bool))
    ensures
        (prints_view(r.0@), r.1) == terminal_step(resp@),
{
    match resp {
        Response::Event(CellEvent::OutputChunk { data, .. }) => {
            (one_print(Print::Stdout(data)), false)
        },
        Response::Event(CellEvent::Completed { exit_code, .. }) => {
            let mut s = "\r\n[fern] cell exited with code ".to_owned();
            push_signed(&mut s, exit_code);
            s.append("\r\n");
            (one_print(Print::Stderr(s)), true)
        },
        Response::Error { message } => {
            let mut s = "\r\n[fern] error: ".to_owned();
            s.append(message.as_str());
            s.append("\r\n");
            (one_print(Print::Stderr(s)), true)
        },
        _ => (no_prints(), false),
    }
}

/// The stored result of a cell, as it is replayed; none while it runs.
pub fn replay_stored(id: CellId, cell: &CellSnapshot) -> (r: Option<Vec<Print>>)
    ensures
        match cell@.exit_code {
            None => r is None,
            Some(code) => r matches Some(p) && prints_view(p@) == seq![
                PrintV::Stdout(cell@.stdout),
                PrintV::Stderr(cell@.stderr),
                PrintV::Stdout(exit_line(id, code, cell@.duration_ms)),
            ],
        },
{
    match cell.exit_code {
        None => None,
        Some(code) => {
            let mut v: Vec<Print> = Vec::new();
            v.push(Print::Stdout(cell.stdout.clone()));
            v.push(Print::Stderr(cell.stderr.clone()));
            v.push(Print::Stdout(say_exit(id, code, cell.duration_ms)));
            assert(prints_view(v@) =~= seq![
                PrintV::Stdout(cell@.stdout),
                PrintV::Stderr(cell@.stderr),
                PrintV::Stdout(exit_line(id, code, cell@.duration_ms)),
            ]);
            Some(v)
        },
    }
}

/// What an answer shows of the cell `id`, and whether it is the last.
pub open spec fn stream_step(id: CellId, resp: ResponseV) -> (Seq<PrintV>, bool) {
    match resp {
        ResponseV::Event(CellEventV::OutputChunk { id: i, stream, data }) if i == id => (
            seq![echo(stream, data)],
            false,
        ),
        ResponseV::Event(CellEventV::Completed { id: i, exit_code, duration_ms, .. }) if i
            == id => (seq![PrintV::Stdout(exit_line(id, exit_code, duration_ms))], true),
        _ => (Seq::empty(), false),
    }
}

/// What an answer shows of the cell `id`, and whether it is the last.
pub fn stream_event(id: CellId, resp: Response) -> (r: (Vec<Print>, bool))
    ensures
        (prints_view(r.0@), r.1) == stream_step(id, resp@),
{
    match resp {
        Response::Event(CellEvent::OutputChunk { id: i, stream, data }) => {
            if i == id {
                (one_print(echoed(stream, data.as_str())), false)
            } else {
                (no_prints(), false)
            }
        },
        Response::Event(CellEvent::Completed { id: i, exit_code, duration_ms, .. }) => {
            if i == id {
                (one_print(Print::Stdout(say_exit(id, exit_code, duration_ms))), true)
            } else {
                (no_prints(), false)
            }
        },
        _ => (no_prints(), false),
    }
}

/// What one line of input to a waiting cell is sent as.
pub fn send_line(id: CellId, data: String) -> (r: Request)
    ensures
        r@ == (RequestV::Input { id, data: data@.push('\n') }),
{
    let mut payload = data;
    payload.push('\n');
    Request::Input { id, data: payload }
}

// ---------- Branch verbs ----------------------------------------------------

/// Where a new branch starts: at the cell given, or at the tip of the current branch.
pub fn branch_base(
    at: Option<CellId>,
    current: &str,
    branches: &Vec<BranchSnapshot>,
) -> (r: Result<CellId, String>)
    ensures
        match at {
            Some(id) => r == Ok::<CellId, String>(id),
            None => match find_branch(branches_view(branches@), current@) {
                Some(b) => r == Ok::<CellId, String>(b.tip),
                None => r matches Err(m) && m@ == "current branch '"@ + current@
                    + "' not found; pass --at <id>"@,
            },
        },
{
    match at {
        Some(id) => Ok(id),
        None => match lookup(branches, current) {
            Some(b) => Ok(b.tip),
            None => {
                let mut s = "current branch '".to_owned();
                s.append(current);
                s.append("' not found; pass --at <id>");
                Err(s)
            },
        },
    }
}

/// What is said of a branch that was created.
pub fn created(name: &str, at: CellId) -> (r: String)
    ensures
        r@ == "created branch '"@ + name@ + "' at #"@ + decimal(at as nat) + "\n"@,
{
    let mut s = "created branch '".to_owned();
    s.append(name);
    s.append("' at #");
    push_decimal(&mut s, at);
    s.append("\n");
    s
}

/// What is said of a branch that was deleted, and the branch that is the current one from now on,
/// where that changes.
pub fn deleted(name: &str, current: &str) -> (r: (String, Option<String>))
    ensures
        if current@ == name@ {
            &&& opt_text(r.1) == Some(DEFAULT_BRANCH@)
            &&& r.0@ == "deleted branch '"@ + name@ + "' (switched to '"@ + DEFAULT_BRANCH@
                + "')\n"@
        } else {
            r.1 is None && r.0@ == "deleted branch '"@ + name@ + "'\n"@
        },
{
    let mut s = "deleted branch '".to_owned();
    s.append(name);
    if str_eq(current, name) {
        s.append("' (switched to '");
        s.append(DEFAULT_BRANCH);
        s.append("')\n");
        (s, Some(DEFAULT_BRANCH.to_owned()))
    } else {
        s.append("'\n");
        (s, None)
    }
}

/// What is said of a branch that was renamed, and the branch that is the current one from now on,
/// where that changes.
pub fn renamed(from: &str, to: &str, current: &str) -> (r: (String, Option<String>))
    ensures
        r.0@ == "renamed branch '"@ + from@ + "' → '"@ + to@ + "'\n"@,
        opt_text(r.1) == if current@ == from@ {
            Some(to@)
        } else {
            None
        },
{
    let mut s = "renamed branch '".to_owned();
    s.append(from);
    s.append("' → '");
    s.append(to);
    s.append("'\n");
    if str_eq(current, from) {
        (s, Some(to.to_owned()))
    } else {
        (s, None)
    }
}

/// What is said on switching to a branch, or why that cannot be.
pub fn switch(name: &str, branches: &Vec<BranchSnapshot>) -> (r: Result<String, String>)
    ensures
        match find_branch(branches_view(branches@), name@) {
            Some(_) => r matches Ok(m) && m@ == "switched to branch '"@ + name@ + "'\n"@,
            None => r matches Err(m) && m@ == "no such branch '"@ + name@
                + "' (use `fern branch new "@ + name@ + "` to create it)"@,
        },
{
    match lookup(branches, name) {
        Some(_) => {
            let mut s = "switched to branch '".to_owned();
            s.append(name);
            s.append("'\n");
            Ok(s)
        },
        None => {
            let mut s = "no such branch '".to_owned();
            s.append(name);
            s.append("' (use `fern branch new ");
            s.append(name);
            s.append("` to create it)");
            Err(s)
        },
    }
}

} // verus!
