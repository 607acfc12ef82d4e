//! The rules of the daemon: what it answers, what it does to the tree, and what it writes to the
//! log.

use vstd::prelude::*;
use vstd::utf8::*;

use crate::forest::{
    law_branches_keep_trees_sound, law_finishing_keeps_trees_sound, law_inserting_keeps_trees_sound,
    law_reserving_keeps_trees_sound, law_walks_meet_every_cell_once, placed, sound,
};
use crate::names::{listing, texts};
use crate::snapshot::{
    branch_snapshots, cell_snapshot, snapshot_branches, snapshot_cell, snapshot_tree, tree_snapshot,
};
use crate::store::{record_of, recorded, records_view, Record, RecordV};
use crate::text::{
    bytes_of, chars_of, copy_opt, decimal, is_white, number, opt_text, push_decimal,
    read_u64, starts_with, str_eq,
    string_of, white,
};
use crate::tree::{
    Cell, CellId, CellResult, CellV, ResultV, Output, State, StateV, Tree, TreeV, DEFAULT_BRANCH,
};
use crate::wire::{CellEvent, CellEventV, Request, RequestV, Response, ResponseV, Stream};

verus! {

// ---------- The tree that the daemon keeps ----------------------------------

/// A tree that the daemon keeps: it is sound, and every branch points at a cell of it.
pub open spec fn kept(t: TreeV) -> bool {
    &&& sound(t)
    &&& forall|n: Seq<char>| #[trigger]
        t.branches.contains_key(n) ==> t.cells.contains_key(t.branches[n])
}

// ---------- Subscribers -----------------------------------------------------

/// How many events a subscriber may fall behind: as many as is asked for, if that is a number
/// that can be had, or 4096.
pub open spec fn buffered(asked: Option<Seq<char>>) -> int {
    match asked {
        Some(t) => match number(t) {
            Some(n) if 0 < n <= i32::MAX => n as int,
            _ => 4096,
        },
        None => 4096,
    }
}

/// How many events a subscriber may fall behind.
pub fn event_buffer(asked: Option<String>) -> (r: usize)
    ensures
        r == buffered(opt_text(asked)),
{
    match asked {
        Some(t) => match read_u64(t.as_str()) {
            Some(n) if 0 < n && n <= i32::MAX as u64 => n as usize,
            _ => 4096,
        },
        None => 4096,
    }
}

// ---------- What is said ----------------------------------------------------

/// A refusal.
pub open spec fn refusal(message: Seq<char>) -> ResponseV {
    ResponseV::Error { message }
}

fn say(a: &str, b: &str, c: &str) -> (r: String)
    ensures
        r@ == a@ + b@ + c@,
{
    let mut s = a.to_owned();
    s.append(b);
    s.append(c);
    s
}

fn say_id(a: &str, id: CellId, c: &str) -> (r: String)
    ensures
        r@ == a@ + decimal(id as nat) + c@,
{
    let mut s = a.to_owned();
    push_decimal(&mut s, id);
    s.append(c);
    s
}

fn say_number(a: &str, id: CellId) -> (r: String)
    ensures
        r@ == a@ + decimal(id as nat),
{
    let mut s = a.to_owned();
    push_decimal(&mut s, id);
    s
}

fn refuse(message: String) -> (r: Response)
    ensures
        r@ == refusal(message@),
{
    Response::Error { message }
}

/// The answer to a line that is no request.
pub fn bad_request(reason: &str) -> (r: Response)
    ensures
        r@ == refusal("bad request: "@ + reason@),
{
    let mut s = "bad request: ".to_owned();
    s.append(reason);
    refuse(s)
}

// ---------- Branch names ----------------------------------------------------

/// A text with white space in it.
pub open spec fn has_white(s: Seq<char>) -> bool {
    exists|i: int| 0 <= i < s.len() && is_white(#[trigger] s[i])
}

/// Why a branch cannot be created under a name, whatever the tree.
pub open spec fn name_error(name: Seq<char>) -> Option<Seq<char>> {
    if name.len() == 0 {
        Some("branch name can't be empty"@)
    } else if has_white(name) {
        Some("branch name can't contain whitespace"@)
    } else if "fork-"@.is_prefix_of(name) {
        Some("branch names starting with 'fork-' are reserved"@)
    } else {
        None
    }
}

fn holds_white(s: &str) -> (r: bool)
    ensures
        r == has_white(s@),
{
    let v = chars_of(s);
    let mut i: usize = 0;
    while i < v.len()
        invariant
            i <= v.len(),
            v@ == s@,
            forall|k: int| 0 <= k < i ==> !is_white(#[trigger] s@[k]),
        decreases v.len() - i,
    {
        if white(v[i]) {
            assert(is_white(s@[i as int]));
            return true;
        }
        i += 1;
    }
    false
}

/// Why a branch cannot be created under a name, whatever the tree.
pub fn check_name(name: &str) -> (r: Option<String>)
    ensures
        opt_text(r) == name_error(name@),
{
    if name.is_empty() {
        Some("branch name can't be empty".to_owned())
    } else if holds_white(name) {
        Some("branch name can't contain whitespace".to_owned())
    } else if starts_with(name, "fork-") {
        Some("branch names starting with 'fork-' are reserved".to_owned())
    } else {
        None
    }
}

// ---------- Requests that are answered at once ------------------------------

/// The tree after a request, the answer to it, and the records it leaves in the log. None for
/// the requests that need more than an answer.
pub open spec fn answered(t: TreeV, req: RequestV) -> Option<(TreeV, ResponseV, Seq<RecordV>)> {
    let none = Seq::<RecordV>::empty();
    match req {
        RequestV::GetTree => Some((t, ResponseV::Tree(tree_snapshot(t)), none)),
        RequestV::ListBranches => Some(
            (t, ResponseV::Branches { branches: branch_snapshots(t) }, none),
        ),
        RequestV::CreateBranch { name, at } => Some(
            match name_error(name) {
                Some(m) => (t, refusal(m), none),
                None => if t.branches.contains_key(name) {
                    (t, refusal("branch '"@ + name + "' already exists"@), none)
                } else if !t.cells.contains_key(at) {
                    (t, refusal("no such cell #"@ + decimal(at as nat)), none)
                } else {
                    (
                        t.with_branch(name, at),
                        ResponseV::Done,
                        seq![RecordV::SetBranch { name, tip: at }],
                    )
                },
            },
        ),
        RequestV::DeleteBranch { name } => Some(
            if name == DEFAULT_BRANCH@ {
                (t, refusal("refusing to delete the default branch '"@ + name + "'"@), none)
            } else if !t.branches.contains_key(name) {
                (t, refusal("no such branch '"@ + name + "'"@), none)
            } else {
                (
                    t.without_branch(name),
                    ResponseV::Done,
                    seq![RecordV::DeleteBranch { name }],
                )
            },
        ),
        RequestV::RenameBranch { from, to } => Some(
            if from == DEFAULT_BRANCH@ {
                (t, refusal("refusing to rename the default branch '"@ + from + "'"@), none)
            } else if !t.branches.contains_key(from) {
                (t, refusal("no such branch '"@ + from + "'"@), none)
            } else if t.branches.contains_key(to) {
                (t, refusal("branch '"@ + to + "' already exists"@), none)
            } else {
                (
                    t.renamed(from, to),
                    ResponseV::Done,
                    seq![RecordV::RenameBranch { from, to }],
                )
            },
        ),
        RequestV::GetCell { id } => Some(
            if t.cells.contains_key(id) {
                (t, ResponseV::Cell(cell_snapshot(t.cells[id])), none)
            } else {
                (t, refusal("no such cell #"@ + decimal(id as nat)), none)
            },
        ),
        RequestV::Input { .. } => Some(
            (t, refusal("Input received outside Attach session"@), none),
        ),
        _ => None,
    }
}

/// An answer, and the records that it leaves in the log.
#[derive(Debug)]
pub struct Answer {
    pub response: Response,
    pub records: Vec<Record>,
}

fn only(response: Response) -> (r: Answer)
    ensures
        r.response@ == response@,
        records_view(r.records@) == Seq::<RecordV>::empty(),
{
    let records: Vec<Record> = Vec::new();
    assert(records_view(records@) =~= Seq::<RecordV>::empty());
    Answer { response, records }
}

fn logged(record: Record) -> (r: Answer)
    ensures
        r.response@ == ResponseV::Done,
        records_view(r.records@) == seq![record@],
{
    let mut records: Vec<Record> = Vec::new();
    records.push(record);
    assert(records_view(records@) =~= seq![record@]);
    Answer { response: Response::Done, records }
}

fn create_branch(tree: &mut Tree, name: &str, at: CellId) -> (r: Answer)
    ensures
        answered(old(tree)@, RequestV::CreateBranch { name: name@, at }) == Some(
            (final(tree)@, r.response@, records_view(r.records@)),
        ),
{
    match check_name(name) {
        Some(m) => only(refuse(m)),
        None => {
            if tree.branch_exists(name) {
                only(refuse(say("branch '", name, "' already exists")))
            } else if tree.get(at).is_none() {
                only(refuse(say_number("no such cell #", at)))
            } else {
                tree.set_branch(name, at);
                logged(Record::SetBranch { name: name.to_owned(), tip: at })
            }
        },
    }
}

fn delete_branch(tree: &mut Tree, name: &str) -> (r: Answer)
    ensures
        answered(old(tree)@, RequestV::DeleteBranch { name: name@ }) == Some(
            (final(tree)@, r.response@, records_view(r.records@)),
        ),
{
    if str_eq(name, DEFAULT_BRANCH) {
        only(refuse(say("refusing to delete the default branch '", name, "'")))
    } else if !tree.branch_exists(name) {
        only(refuse(say("no such branch '", name, "'")))
    } else {
        tree.delete_branch(name);
        logged(Record::DeleteBranch { name: name.to_owned() })
    }
}

fn rename_branch(tree: &mut Tree, from: &str, to: &str) -> (r: Answer)
    ensures
        answered(old(tree)@, RequestV::RenameBranch { from: from@, to: to@ }) == Some(
            (final(tree)@, r.response@, records_view(r.records@)),
        ),
{
    if str_eq(from, DEFAULT_BRANCH) {
        only(refuse(say("refusing to rename the default branch '", from, "'")))
    } else if !tree.branch_exists(from) {
        only(refuse(say("no such branch '", from, "'")))
    } else if tree.branch_exists(to) {
        only(refuse(say("branch '", to, "' already exists")))
    } else {
        tree.rename_branch(from, to);
        logged(Record::RenameBranch { from: from.to_owned(), to: to.to_owned() })
    }
}

/// A request that is answered at once keeps the tree as the daemon keeps it.
pub proof fn law_answers_keep_the_tree(t: TreeV, req: RequestV)
    requires
        kept(t),
    ensures
        answered(t, req) matches Some((u, _, _)) ==> kept(u),
{
    if let Some((u, r, l)) = answered(t, req) {
        law_branches_keep_trees_sound(t, u.branches);
        assert(u =~= TreeV { branches: u.branches, ..t });
    }
}

/// Answers a request. None for the requests that need more than an answer.
pub fn answer(tree: &mut Tree, req: &Request) -> (r: Option<Answer>)
    requires
        kept(old(tree)@),
    ensures
        kept(final(tree)@),
        match r {
            Some(a) => answered(old(tree)@, req@) == Some(
                (final(tree)@, a.response@, records_view(a.records@)),
            ),
            None => answered(old(tree)@, req@) is None && final(tree)@ == old(tree)@,
        },
{
    proof {
        law_answers_keep_the_tree(tree@, req@);
        law_walks_meet_every_cell_once(tree@);
    }
    match req {
        Request::GetTree => Some(only(Response::Tree(snapshot_tree(tree)))),
        Request::ListBranches => Some(
            only(Response::Branches { branches: snapshot_branches(tree) }),
        ),
        Request::CreateBranch { name, at } => Some(create_branch(tree, name.as_str(), *at)),
        Request::DeleteBranch { name } => Some(delete_branch(tree, name.as_str())),
        Request::RenameBranch { from, to } => Some(
            rename_branch(tree, from.as_str(), to.as_str()),
        ),
        Request::GetCell { id } => {
            let response = match tree.get(*id) {
                Some(c) => Response::Cell(snapshot_cell(c)),
                None => refuse(say_number("no such cell #", *id)),
            };
            Some(only(response))
        },
        Request::Input { .. } => Some(
            only(refuse("Input received outside Attach session".to_owned())),
        ),
        _ => None,
    }
}

// ---------- Connections -----------------------------------------------------

/// What there is to do about a line that a client sent.
#[derive(Debug)]
pub enum Job {
    /// Nothing.
    Skip,
    /// Write the records to the log, and send the answer.
    Reply(Answer),
    Submit { branch: String, parent: Option<CellId>, source: String, who: String, detach: bool },
    /// Send every event from now on, and nothing else.
    Subscribe,
    Kill(CellId),
    /// Connect the client to the cell, and do nothing else.
    Attach(CellId),
    Resize { id: CellId, rows: u16, cols: u16 },
}

/// What there is to do about a line that a client sent.
pub enum JobV {
    Skip,
    Reply(ResponseV, Seq<RecordV>),
    Submit {
        branch: Seq<char>,
        parent: Option<CellId>,
        source: Seq<char>,
        who: Seq<char>,
        detach: bool,
    },
    Subscribe,
    Kill(CellId),
    Attach(CellId),
    Resize { id: CellId, rows: u16, cols: u16 },
}

impl View for Job {
    type V = JobV;

    open spec fn view(&self) -> JobV {
        match self {
            Job::Skip => JobV::Skip,
            Job::Reply(a) => JobV::Reply(a.response@, records_view(a.records@)),
            Job::Submit { branch, parent, source, who, detach } => JobV::Submit {
                branch: branch@,
                parent: *parent,
                source: source@,
                who: who@,
                detach: *detach,
            },
            Job::Subscribe => JobV::Subscribe,
            Job::Kill(id) => JobV::Kill(*id),
            Job::Attach(id) => JobV::Attach(*id),
            Job::Resize { id, rows, cols } => JobV::Resize { id: *id, rows: *rows, cols: *cols },
        }
    }
}

/// What a line that a client sent is: a request, or why it is none.
pub open spec fn request_view(r: Result<Request, String>) -> Result<RequestV, Seq<char>> {
    match r {
        Ok(req) => Ok(req@),
        Err(e) => Err(e@),
    }
}

/// The tree after a line that a client sent, and what there is to do about it. Blank lines are
/// skipped, and lines that are no request are answered.
pub open spec fn handled(
    t: TreeV,
    line: Seq<char>,
    request: Result<RequestV, Seq<char>>,
) -> (TreeV, JobV) {
    if line.len() == 0 {
        (t, JobV::Skip)
    } else {
        match request {
            Err(e) => (t, JobV::Reply(refusal("bad request: "@ + e), Seq::empty())),
            Ok(req) => match answered(t, req) {
                Some((u, response, records)) => (u, JobV::Reply(response, records)),
                None => (
                    t,
                    match req {
                        RequestV::Submit { branch, parent, source, who, detach } => JobV::Submit {
                            branch,
                            parent,
                            source,
                            who,
                            detach,
                        },
                        RequestV::Kill { id } => JobV::Kill(id),
                        RequestV::Attach { id } => JobV::Attach(id),
                        RequestV::Resize { id, rows, cols } => JobV::Resize { id, rows, cols },
                        _ => JobV::Subscribe,
                    },
                ),
            },
        }
    }
}

/// Handles a line that a client sent. `request` is what it reads as.
pub fn handle_line(tree: &mut Tree, line: &str, request: Result<Request, String>) -> (r: Job)
    requires
        kept(old(tree)@),
    ensures
        kept(final(tree)@),
        (final(tree)@, r@) == handled(old(tree)@, line@, request_view(request)),
{
    if line.is_empty() {
        return Job::Skip;
    }
    let req = match request {
        Err(e) => {
            return Job::Reply(only(bad_request(e.as_str())));
        },
        Ok(req) => req,
    };
    if let Some(a) = answer(tree, &req) {
        return Job::Reply(a);
    }
    match req {
        Request::Submit { branch, parent, source, who, detach } => Job::Submit {
            branch,
            parent,
            source,
            who,
            detach,
        },
        Request::Kill { id } => Job::Kill(id),
        Request::Attach { id } => Job::Attach(id),
        Request::Resize { id, rows, cols } => Job::Resize { id, rows, cols },
        _ => Job::Subscribe,
    }
}

// ---------- Submit ----------------------------------------------------------

/// What becomes of a submitted line.
pub enum SubmitV {
    Rejected(Seq<char>),
    /// It runs as the cell `id`, from the state `start` and exit code `status` of its parent, on
    /// the branch `branch`.
    Accepted { id: CellId, parent: CellId, start: StateV, status: i32, branch: Seq<char> },
}

/// The cell below which a line lands: the one given, or the tip of the branch.
pub open spec fn landing(t: TreeV, branch: Seq<char>, parent: Option<CellId>) -> Option<CellId> {
    match parent {
        Some(p) => Some(p),
        None => t.tip(branch),
    }
}

/// What becomes of a submitted line. It extends the branch when it lands on its tip; otherwise
/// the parent is historical, and it starts the new branch `fork`.
pub open spec fn submit_verdict(
    t: TreeV,
    branch: Seq<char>,
    parent: Option<CellId>,
    fork: Seq<char>,
) -> SubmitV {
    match landing(t, branch, parent) {
        None => SubmitV::Rejected(
            "no such branch '"@ + branch + "' and no --parent given"@,
        ),
        Some(p) => if !t.cells.contains_key(p) {
            SubmitV::Rejected("no such parent cell #"@ + decimal(p as nat))
        } else {
            match t.cells[p].result {
                None => SubmitV::Rejected(
                    "parent #"@ + decimal(p as nat) + " hasn't finished — can't branch yet"@,
                ),
                Some(r) => SubmitV::Accepted {
                    id: t.next_id,
                    parent: p,
                    start: r.end_state,
                    status: r.exit_code,
                    branch: if t.tip(branch) == Some(p) {
                        branch
                    } else {
                        fork
                    },
                },
            }
        },
    }
}

/// A cell that runs.
pub open spec fn running_cell(
    id: CellId,
    parent: CellId,
    source: Seq<char>,
    who: Seq<char>,
) -> CellV {
    CellV { id, parent: Some(parent), submitter: who, source, result: None, hash: None }
}

/// The tree in which a submitted line runs, and its branch points at it.
pub open spec fn submitted(t: TreeV, v: SubmitV, source: Seq<char>, who: Seq<char>) -> TreeV {
    match v {
        SubmitV::Rejected(_) => t,
        SubmitV::Accepted { id, parent, branch, .. } => (TreeV {
            next_id: (t.next_id + 1) as u64,
            ..t
        }).with_branch(branch, id).inserted(parent, running_cell(id, parent, source, who)),
    }
}

/// The event that announces a submitted line.
pub open spec fn started(v: SubmitV, source: Seq<char>, who: Seq<char>) -> Option<CellEventV> {
    match v {
        SubmitV::Rejected(_) => None,
        SubmitV::Accepted { id, parent, branch, .. } => Some(
            CellEventV::Started { id, parent: Some(parent), source, who, branch },
        ),
    }
}

/// What becomes of a submitted line.
#[derive(Debug)]
pub enum Submit {
    /// It is turned down with this answer.
    Rejected(Response),
    /// It runs, from this state and exit code, and this is announced.
    Accepted { id: CellId, start: State, status: i32, event: CellEvent },
}

/// The outcome of a submission is the verdict.
pub open spec fn is_verdict(r: Submit, v: SubmitV, source: Seq<char>, who: Seq<char>) -> bool {
    match r {
        Submit::Rejected(response) => v matches SubmitV::Rejected(m) && response@ == refusal(m),
        Submit::Accepted { id, start, status, event } => {
            &&& v matches SubmitV::Accepted { id: i, start: s, status: n, .. }
            &&& i == id && s == start@ && n == status
            &&& Some(event@) == started(v, source, who)
        },
    }
}

/// A submitted line keeps the tree as the daemon keeps it.
pub proof fn law_submitting_keeps_the_tree(
    t: TreeV,
    branch: Seq<char>,
    parent: Option<CellId>,
    fork: Seq<char>,
    source: Seq<char>,
    who: Seq<char>,
)
    requires
        kept(t),
        t.next_id < u64::MAX,
    ensures
        kept(submitted(t, submit_verdict(t, branch, parent, fork), source, who)),
{
    let v = submit_verdict(t, branch, parent, fork);
    if let SubmitV::Accepted { id, parent: p, branch: b, .. } = v {
        let t1 = TreeV { next_id: (t.next_id + 1) as u64, ..t };
        law_reserving_keeps_trees_sound(t, t1.next_id);
        let t2 = t1.with_branch(b, id);
        law_branches_keep_trees_sound(t1, t2.branches);
        assert(t2 =~= TreeV { branches: t2.branches, ..t1 });
        let c = running_cell(id, p, source, who);
        assert(!t.cells.contains_key(id)) by {
            if t.cells.contains_key(id) {
                assert(placed(t, id));
            }
        }
        law_inserting_keeps_trees_sound(t2, p, c);
        let u = t2.inserted(p, c);
        assert forall|n: Seq<char>| #[trigger] u.branches.contains_key(n) implies u.cells
            .contains_key(u.branches[n]) by {
            if n != b {
                assert(t.branches.contains_key(n));
            }
        }
    }
}

/// Submits a line. `fork` is the name of the new branch, should one be needed.
pub fn submit_named(
    tree: &mut Tree,
    branch: &str,
    parent: Option<CellId>,
    source: &str,
    who: &str,
    fork: &str,
) -> (r: Submit)
    requires
        kept(old(tree)@),
        old(tree)@.next_id < u64::MAX,
    ensures
        kept(final(tree)@),
        is_verdict(r, submit_verdict(old(tree)@, branch@, parent, fork@), source@, who@),
        final(tree)@ == submitted(
            old(tree)@,
            submit_verdict(old(tree)@, branch@, parent, fork@),
            source@,
            who@,
        ),
{
    proof {
        law_submitting_keeps_the_tree(tree@, branch@, parent, fork@, source@, who@);
    }
    let tip = tree.branch_tip(branch);
    let p: CellId = match parent {
        Some(p) => p,
        None => match tip {
            Some(p) => p,
            None => {
                return Submit::Rejected(
                    refuse(say("no such branch '", branch, "' and no --parent given")),
                );
            },
        },
    };
    let (start, status) = match tree.get(p) {
        None => {
            return Submit::Rejected(refuse(say_number("no such parent cell #", p)));
        },
        Some(c) => match &c.result {
            None => {
                return Submit::Rejected(
                    refuse(say_id("parent #", p, " hasn't finished — can't branch yet")),
                );
            },
            Some(r) => (r.end_state.clone(), r.exit_code),
        },
    };
    let id: CellId = tree.reserve_id();
    let landed = if tip == Some(p) {
        branch.to_owned()
    } else {
        fork.to_owned()
    };
    tree.set_branch(landed.as_str(), id);
    let cell = Cell {
        id,
        parent: Some(p),
        submitter: who.to_owned(),
        source: source.to_owned(),
        hash: None,
        result: None,
    };
    tree.insert_cell(p, cell);
    let event = CellEvent::Started {
        id,
        parent: Some(p),
        source: source.to_owned(),
        who: who.to_owned(),
        branch: landed,
    };
    Submit::Accepted { id, start, status, event }
}

/// A lower-case hexadecimal digit.
pub open spec fn is_hex(c: char) -> bool {
    '0' <= c <= '9' || 'a' <= c <= 'f'
}

/// `uuid::Uuid::new_v4`, written by `simple`: 32 lower-case hexadecimal digits, drawn at random.
/// Which ones is not stated, nor that the system has random bytes to give.
#[verifier::external_body]
fn random_name() -> (r: String)
    ensures
        r@.len() == 32,
        forall|i: int| 0 <= i < 32 ==> is_hex(#[trigger] r@[i]),
{
    uuid::Uuid::new_v4().simple().to_string()
}

/// The name of a branch that a fork starts: `fork-` and eight hexadecimal digits.
pub open spec fn is_fork_name(n: Seq<char>) -> bool {
    &&& n.len() == 13
    &&& "fork-"@.is_prefix_of(n)
    &&& forall|i: int| 5 <= i < 13 ==> is_hex(#[trigger] n[i])
}

/// Draws the name of a branch for a fork.
pub fn gen_fork_name() -> (r: String)
    ensures
        is_fork_name(r@),
{
    let id = random_name();
    let digits = chars_of(id.as_str());
    let short = string_of(&digits, 0, 8);
    let mut s = "fork-".to_owned();
    s.append(short.as_str());
    proof {
        reveal_strlit("fork-");
        assert("fork-"@.len() == 5);
        assert forall|i: int| 5 <= i < 13 implies is_hex(#[trigger] s@[i]) by {
            assert(s@[i] == id@[i - 5]);
        }
        assert(s@.take(5) =~= "fork-"@);
    }
    s
}

/// A submission forks: its parent is a finished cell that is not the tip of the branch.
pub open spec fn forks(t: TreeV, branch: Seq<char>, parent: Option<CellId>) -> bool {
    match landing(t, branch, parent) {
        None => false,
        Some(p) => t.cells.contains_key(p) && t.cells[p].result is Some && t.tip(branch) != Some(p),
    }
}

/// Submits a line, for which `fork` was drawn as the name of a new branch. None, and nothing has
/// changed, where the line starts a new branch and that name is taken.
pub fn submit_drawn(
    tree: &mut Tree,
    branch: &str,
    parent: Option<CellId>,
    source: &str,
    who: &str,
    fork: &str,
) -> (r: Option<Submit>)
    requires
        kept(old(tree)@),
        old(tree)@.next_id < u64::MAX,
    ensures
        kept(final(tree)@),
        r is None <==> forks(old(tree)@, branch@, parent) && old(tree)@.branches.contains_key(
            fork@,
        ),
        match r {
            None => final(tree)@ == old(tree)@,
            Some(s) => {
                let v = submit_verdict(old(tree)@, branch@, parent, fork@);
                &&& is_verdict(s, v, source@, who@)
                &&& final(tree)@ == submitted(old(tree)@, v, source@, who@)
            },
        },
{
    if tree.branch_exists(fork) && will_fork(tree, branch, parent) {
        return None;
    }
    Some(submit_named(tree, branch, parent, source, who, fork))
}

/// Submits a line, and draws a name for a new branch. None, and nothing has changed, where the
/// line starts a new branch and the name drawn for it is taken: then it is to be submitted again.
pub fn submit(
    tree: &mut Tree,
    branch: &str,
    parent: Option<CellId>,
    source: &str,
    who: &str,
) -> (r: Option<Submit>)
    requires
        kept(old(tree)@),
        old(tree)@.next_id < u64::MAX,
    ensures
        kept(final(tree)@),
        match r {
            None => {
                &&& forks(old(tree)@, branch@, parent)
                &&& final(tree)@ == old(tree)@
                &&& exists|fork: Seq<char>| #[trigger]
                    is_fork_name(fork) && old(tree)@.branches.contains_key(fork)
            },
            Some(s) => exists|fork: Seq<char>|
                {
                    let t = old(tree)@;
                    let v = submit_verdict(t, branch@, parent, fork);
                    &&& #[trigger] is_fork_name(fork)
                    &&& forks(t, branch@, parent) ==> !t.branches.contains_key(fork)
                    &&& is_verdict(s, v, source@, who@)
                    &&& final(tree)@ == submitted(t, v, source@, who@)
                },
        },
{
    let fork = gen_fork_name();
    submit_drawn(tree, branch, parent, source, who, fork.as_str())
}

fn will_fork(tree: &Tree, branch: &str, parent: Option<CellId>) -> (r: bool)
    ensures
        r == forks(tree@, branch@, parent),
{
    let tip = tree.branch_tip(branch);
    let landing = match parent {
        Some(p) => Some(p),
        None => tip,
    };
    match landing {
        None => false,
        Some(p) => match tree.get(p) {
            None => false,
            Some(c) => c.result.is_some() && tip != Some(p),
        },
    }
}

// ---------- Output and completion -------------------------------------------

/// What a cell has written so far.
#[derive(Debug)]
pub struct Transcript {
    pub stdout: String,
    pub stderr: String,
}

/// What a cell has written so far.
pub struct TranscriptV {
    pub stdout: Seq<char>,
    pub stderr: Seq<char>,
}

impl View for Transcript {
    type V = TranscriptV;

    open spec fn view(&self) -> TranscriptV {
        TranscriptV { stdout: self.stdout@, stderr: self.stderr@ }
    }
}

/// The transcript after one more event: chunks go to their stream, other events to none.
pub open spec fn heard(t: TranscriptV, e: CellEventV) -> TranscriptV {
    match e {
        CellEventV::OutputChunk { stream: Stream::Stdout, data, .. } => TranscriptV {
            stdout: t.stdout + data,
            ..t
        },
        CellEventV::OutputChunk { stream: Stream::Stderr, data, .. } => TranscriptV {
            stderr: t.stderr + data,
            ..t
        },
        _ => t,
    }
}

impl Transcript {
    /// Nothing was written.
    pub fn new() -> (r: Transcript)
        ensures
            r@ == (TranscriptV { stdout: Seq::empty(), stderr: Seq::empty() }),
    {
        let r = Transcript { stdout: String::new(), stderr: String::new() };
        assert(r@.stdout =~= Seq::<char>::empty());
        assert(r@.stderr =~= Seq::<char>::empty());
        r
    }

    /// Takes in one event.
    pub fn hear(&mut self, e: &CellEvent)
        ensures
            final(self)@ == heard(old(self)@, e@),
    {
        match e {
            CellEvent::OutputChunk { stream, data, .. } => match stream {
                Stream::Stdout => {
                    self.stdout.append(data.as_str());
                },
                Stream::Stderr => {
                    self.stderr.append(data.as_str());
                },
            },
            _ => {},
        }
    }
}

/// What was written, by the events `es`.
pub open spec fn heard_all(es: Seq<CellEventV>) -> TranscriptV
    decreases es.len(),
{
    if es.len() == 0 {
        TranscriptV { stdout: Seq::empty(), stderr: Seq::empty() }
    } else {
        heard(heard_all(es.drop_last()), es.last())
    }
}

/// Collects the events of an evaluation into its output.
pub fn collect(events: &Vec<CellEvent>, exit_code: i32) -> (r: Output)
    ensures
        ({
            let t = heard_all(events@.map_values(|e: CellEvent| e@));
            &&& r.exit_code == exit_code
            &&& r.stdout@ == encode_utf8(t.stdout)
            &&& r.stderr@ == encode_utf8(t.stderr)
        }),
{
    let ghost v = events@.map_values(|e: CellEvent| e@);
    let mut t = Transcript::new();
    let mut i: usize = 0;
    assert(v.take(0) =~= Seq::<CellEventV>::empty());
    while i < events.len()
        invariant
            i <= events.len(),
            v == events@.map_values(|e: CellEvent| e@),
            t@ == heard_all(v.take(i as int)),
        decreases events.len() - i,
    {
        proof {
            assert(v.take(i + 1).drop_last() =~= v.take(i as int));
            assert(v.take(i + 1).last() == events@[i as int]@);
        }
        t.hear(&events[i]);
        i += 1;
    }
    assert(v.take(i as int) =~= v);
    Output {
        exit_code,
        stdout: bytes_of(t.stdout.as_str()),
        stderr: bytes_of(t.stderr.as_str()),
    }
}

/// How an evaluation ended.
#[derive(Debug)]
pub enum Ending {
    /// With this state and exit code.
    Evaluated(State, i32),
    /// With this error.
    Failed(String),
    /// It was killed.
    Killed,
    /// It broke down.
    Panicked,
}

/// How an evaluation ended.
pub enum EndingV {
    Evaluated(StateV, i32),
    Failed(Seq<char>),
    Killed,
    Panicked,
}

impl View for Ending {
    type V = EndingV;

    open spec fn view(&self) -> EndingV {
        match self {
            Ending::Evaluated(s, n) => EndingV::Evaluated(s@, *n),
            Ending::Failed(m) => EndingV::Failed(m@),
            Ending::Killed => EndingV::Killed,
            Ending::Panicked => EndingV::Panicked,
        }
    }
}

/// The result of a cell that started from the state `start`. What could not be evaluated exits
/// with 2 and says why on stderr; what was killed exits with -1; neither changes the state.
pub open spec fn result_of(
    start: StateV,
    ending: EndingV,
    t: TranscriptV,
    duration_ms: u64,
) -> ResultV {
    let (end_state, exit_code, extra) = match ending {
        EndingV::Evaluated(s, n) => (s, n, Seq::<char>::empty()),
        EndingV::Failed(m) => (start, 2i32, m.push('\n')),
        EndingV::Killed => (start, -1i32, "[killed by fern kill]\n"@),
        EndingV::Panicked => (start, 2i32, Seq::<char>::empty()),
    };
    ResultV {
        exit_code,
        stdout: encode_utf8(t.stdout),
        stderr: encode_utf8(t.stderr + extra),
        duration_ms,
        end_state,
    }
}

/// The names of the branches whose tip is `id`, sorted.
pub open spec fn branches_at(l: Seq<(Seq<char>, CellId)>, id: CellId) -> Seq<RecordV>
    decreases l.len(),
{
    if l.len() == 0 {
        Seq::empty()
    } else {
        let before = branches_at(l.drop_last(), id);
        if l.last().1 == id {
            before.push(RecordV::SetBranch { name: l.last().0, tip: id })
        } else {
            before
        }
    }
}

/// The records that a completed cell leaves in the log: the cell, and the branches that point at
/// it by now. A branch that was deleted while the cell ran is not among them.
pub open spec fn completion_records(t: TreeV, id: CellId) -> Seq<RecordV> {
    match recorded(t.cells[id]) {
        Some(r) => seq![r] + branches_at(listing(t.branches), id),
        None => branches_at(listing(t.branches), id),
    }
}

/// What is announced and logged of a completed cell.
#[derive(Debug)]
pub struct Completion {
    /// Why the line could not be evaluated, as output.
    pub chunk: Option<CellEvent>,
    pub event: CellEvent,
    pub records: Vec<Record>,
}

fn records_at(tree: &Tree, id: CellId) -> (r: Vec<Record>)
    ensures
        records_view(r@) == branches_at(listing(tree@.branches), id),
{
    let entries = tree.branches();
    let ghost l = listing(tree@.branches);
    let mut out: Vec<Record> = Vec::new();
    let mut i: usize = 0;
    assert(records_view(out@) =~= Seq::<RecordV>::empty());
    while i < entries.len()
        invariant
            i <= entries.len(),
            l == texts(entries@),
            records_view(out@) == branches_at(l.take(i as int), id),
        decreases entries.len() - i,
    {
        proof {
            let t = l.take(i + 1);
            assert(t.drop_last() =~= l.take(i as int));
            assert(t.last() == (entries@[i as int].0@, entries@[i as int].1));
        }
        if entries[i].1 == id {
            let ghost before = records_view(out@);
            let rec = Record::SetBranch { name: entries[i].0.clone(), tip: id };
            out.push(rec);
            assert(records_view(out@) =~= before.push(rec@));
        }
        i += 1;
    }
    assert(l.take(i as int) =~= l);
    out
}

/// A completed cell keeps the tree as the daemon keeps it.
pub proof fn law_completing_keeps_the_tree(t: TreeV, id: CellId, r: ResultV)
    requires
        kept(t),
        t.cells.contains_key(id),
        t.cells[id].result is None,
    ensures
        kept(t.finished(id, r)),
{
    law_finishing_keeps_trees_sound(t, id, r);
    let u = t.finished(id, r);
    assert forall|n: Seq<char>| #[trigger] u.branches.contains_key(n) implies u.cells.contains_key(
        u.branches[n],
    ) by {
        assert(t.branches.contains_key(n));
    }
}

/// Records the result of a running cell. Says what is announced of it, in order, and what is
/// logged.
pub fn complete(
    tree: &mut Tree,
    id: CellId,
    start: State,
    ending: Ending,
    transcript: Transcript,
    duration_ms: u64,
) -> (r: Completion)
    requires
        kept(old(tree)@),
        old(tree)@.cells.contains_key(id),
        old(tree)@.cells[id].result is None,
    ensures
        kept(final(tree)@),
        ({
            let result = result_of(start@, ending@, transcript@, duration_ms);
            &&& final(tree)@ == old(tree)@.finished(id, result)
            &&& r.event@ == (CellEventV::Completed {
                id,
                exit_code: result.exit_code,
                duration_ms,
                hash: final(tree)@.cells[id].hash,
            })
            &&& match r.chunk {
                Some(e) => ending@ matches EndingV::Failed(m) && e@ == (CellEventV::OutputChunk {
                    id,
                    stream: Stream::Stderr,
                    data: m.push('\n'),
                }),
                None => !(ending@ is Failed),
            }
            &&& records_view(r.records@) == completion_records(final(tree)@, id)
        }),
{
    let ghost before = tree@;
    let ghost result = result_of(start@, ending@, transcript@, duration_ms);
    proof {
        law_completing_keeps_the_tree(tree@, id, result);
    }
    let stdout = bytes_of(transcript.stdout.as_str());
    let mut err = transcript.stderr;
    let ghost err0 = err@;
    let mut chunk: Option<CellEvent> = None;
    let (end_state, exit_code): (State, i32) = match ending {
        Ending::Evaluated(s, n) => {
            assert(err@ =~= err0 + Seq::<char>::empty());
            (s, n)
        },
        Ending::Failed(m) => {
            let mut line = m;
            line.push('\n');
            err.append(line.as_str());
            chunk = Some(CellEvent::OutputChunk { id, stream: Stream::Stderr, data: line });
            (start, 2)
        },
        Ending::Killed => {
            err.append("[killed by fern kill]\n");
            (start, -1)
        },
        Ending::Panicked => {
            assert(err@ =~= err0 + Seq::<char>::empty());
            (start, 2)
        },
    };
    let stderr = bytes_of(err.as_str());
    let res = CellResult { exit_code, stdout, stderr, duration_ms, end_state };
    assert(res@ == result);
    tree.set_cell_result(id, res);
    let mut records = records_at(tree, id);
    let ghost at = records_view(records@);
    let hash = match tree.get(id) {
        Some(c) => {
            match record_of(c) {
                Some(rec) => {
                    records.insert(0, rec);
                    assert(records_view(records@) =~= seq![rec@] + at);
                },
                None => {},
            }
            copy_opt(&c.hash)
        },
        None => None,
    };
    let event = CellEvent::Completed { id, exit_code, duration_ms, hash };
    Completion { chunk, event, records }
}

// ---------- Running cells ---------------------------------------------------

/// A detached cell that runs.
#[derive(Debug, Clone, Copy, PartialEq, Eq, Structural)]
pub struct Active {
    /// Whether it runs in terminal mode. Only such cells ever have a terminal.
    pub tty: bool,
    /// Whether its terminal is there.
    pub pty: bool,
}

/// What there is to do about a kill request.
#[derive(Debug)]
pub enum Kill {
    /// Kill the process in the terminal; the evaluation goes on to record it.
    Terminal,
    /// Abort the evaluation.
    Abort,
    /// Answer this.
    Refused(Response),
}

/// What is said of a cell that does not run.
pub open spec fn not_running(id: CellId) -> Seq<char> {
    "cell #"@ + decimal(id as nat) + " is not running"@
}

/// What is said of a running cell that is not in terminal mode.
pub open spec fn not_terminal(id: CellId) -> Seq<char> {
    "cell #"@ + decimal(id as nat) + " is not a terminal cell"@
}

/// Decides a kill request for the cell `id`.
pub fn handle_kill(id: CellId, active: Option<Active>) -> (r: Kill)
    ensures
        match active {
            None => r matches Kill::Refused(m) && m@ == refusal(not_running(id)),
            Some(a) => if a.pty {
                r is Terminal
            } else {
                r is Abort
            },
        },
{
    match active {
        None => Kill::Refused(refuse(say_id("cell #", id, " is not running"))),
        Some(a) => {
            if a.pty {
                Kill::Terminal
            } else {
                Kill::Abort
            }
        },
    }
}

/// Decides a resize request for the cell `id`: the answer where it cannot be done.
pub fn handle_resize(id: CellId, active: Option<Active>) -> (r: Option<Response>)
    ensures
        match active {
            None => r matches Some(m) && m@ == refusal(not_running(id)),
            Some(a) => if a.pty {
                r is None
            } else if a.tty {
                r matches Some(m) && m@ == refusal(
                    "cell #"@ + decimal(id as nat) + " has no terminal yet"@,
                )
            } else {
                r matches Some(m) && m@ == refusal(not_terminal(id))
            },
        },
{
    match active {
        None => Some(refuse(say_id("cell #", id, " is not running"))),
        Some(a) => {
            if a.pty {
                None
            } else if a.tty {
                Some(refuse(say_id("cell #", id, " has no terminal yet")))
            } else {
                Some(refuse(say_id("cell #", id, " is not a terminal cell")))
            }
        },
    }
}

/// What there is to do about an attach request.
#[derive(Debug)]
pub enum Attach {
    /// The terminal is there: answer that it is done, and connect.
    Connect,
    /// Wait for the terminal, and ask again.
    Wait,
    /// Answer this.
    Refused(Response),
}

/// Decides an attach request for the cell `id`, which may have `finished`, and for which the
/// client may have waited long enough.
pub fn handle_attach(
    id: CellId,
    active: Option<Active>,
    finished: bool,
    waited: bool,
) -> (r: Attach)
    ensures
        match active {
            None => r matches Attach::Refused(m) && m@ == refusal(not_running(id)),
            Some(a) => if !a.tty {
                r matches Attach::Refused(m) && m@ == refusal(not_terminal(id))
            } else if a.pty {
                r is Connect
            } else if finished || waited {
                r matches Attach::Refused(m) && m@ == refusal(
                    "cell #"@ + decimal(id as nat) + " spawned no attachable terminal process"@,
                )
            } else {
                r is Wait
            },
        },
{
    match active {
        None => Attach::Refused(refuse(say_id("cell #", id, " is not running"))),
        Some(a) => {
            if !a.tty {
                Attach::Refused(refuse(say_id("cell #", id, " is not a terminal cell")))
            } else if a.pty {
                Attach::Connect
            } else if finished || waited {
                Attach::Refused(
                    refuse(say_id("cell #", id, " spawned no attachable terminal process")),
                )
            } else {
                Attach::Wait
            }
        },
    }
}

/// An event that a client attached to the cell `id` is sent: its output and its completion.
pub open spec fn concerns(e: CellEventV, id: CellId) -> bool {
    match e {
        CellEventV::OutputChunk { id: i, .. } => i == id,
        CellEventV::Completed { id: i, .. } => i == id,
        CellEventV::Started { .. } => false,
    }
}

/// What comes in while a client is attached to a cell.
#[derive(Debug)]
pub enum Incoming {
    /// An event of any cell.
    Event(CellEvent),
    /// Some events were missed.
    Lagged,
    /// A line from the client that is a request.
    Asked(Request),
    /// A line from the client that is none.
    Junk,
    /// The client or the events are gone.
    Closed,
}

/// What there is to do about it.
#[derive(Debug)]
pub enum Relay {
    Nothing,
    /// Send this to the client, and end if it is the last.
    Send(Response, bool),
    /// Write this to the cell's terminal.
    Write(String),
    End,
}

/// What there is to do about what comes in while a client is attached to the cell `id`: its
/// output and its completion go to the client, the latter last; input for it goes to its
/// terminal; everything else is ignored.
pub fn relay(id: CellId, input: Incoming) -> (r: Relay)
    ensures
        match input {
            Incoming::Event(e) => if concerns(e@, id) {
                r matches Relay::Send(m, last) && m@ == ResponseV::Event(e@) && last == (
                e@ is Completed)
            } else {
                r is Nothing
            },
            Incoming::Asked(req) => match req@ {
                RequestV::Input { id: i, data } if i == id => r matches Relay::Write(d) && d@
                    == data,
                _ => r is Nothing,
            },
            Incoming::Closed => r is End,
            _ => r is Nothing,
        },
{
    match input {
        Incoming::Event(e) => {
            let (to, last) = match &e {
                CellEvent::OutputChunk { id: i, .. } => (*i == id, false),
                CellEvent::Completed { id: i, .. } => (*i == id, true),
                CellEvent::Started { .. } => (false, false),
            };
            if to {
                Relay::Send(Response::Event(e), last)
            } else {
                Relay::Nothing
            }
        },
        Incoming::Asked(req) => match req {
            Request::Input { id: i, data } => {
                if i == id {
                    Relay::Write(data)
                } else {
                    Relay::Nothing
                }
            },
            _ => Relay::Nothing,
        },
        Incoming::Closed => Relay::End,
        Incoming::Lagged => Relay::Nothing,
        Incoming::Junk => Relay::Nothing,
    }
}

} // verus!
