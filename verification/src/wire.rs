//! Wire protocol between the daemon and its clients.
//!
//! Newline-delimited JSON over a unix socket. Each Submit yields a stream of events:
//! `Started`, any number of `OutputChunk`, `Completed`. For detached submits the submitting
//! connection sees only `Started`; what follows flows to the subscribers.

use vstd::prelude::*;

use crate::text::{copy_opt, join_path, joined, opt_text};
use crate::tree::CellId;

verus! {

/// What a client asks of the daemon.
#[derive(Debug)]
pub enum Request {
    Submit {
        /// The branch to extend. Its tip is the parent unless one is given.
        branch: String,
        parent: Option<CellId>,
        source: String,
        who: String,
        /// If true, the daemon returns after the Started event and runs the cell in the
        /// background.
        detach: bool,
    },
    Subscribe,
    GetTree,
    ListBranches,
    /// Make the branch `name` point at the cell `at`.
    CreateBranch { name: String, at: CellId },
    DeleteBranch { name: String },
    RenameBranch { from: String, to: String },
    GetCell { id: CellId },
    /// Abort a running detached cell.
    Kill { id: CellId },
    /// Attach to a running terminal cell. After this request the connection is bidirectional:
    /// Input requests go to the cell's terminal, and the cell's events come back.
    Attach { id: CellId },
    /// Send raw bytes to a cell's terminal, on the connection that issued Attach.
    Input { id: CellId, data: String },
    /// Tell a running terminal cell how large its terminal is.
    Resize { id: CellId, rows: u16, cols: u16 },
}

/// A request.
pub enum RequestV {
    Submit {
        branch: Seq<char>,
        parent: Option<CellId>,
        source: Seq<char>,
        who: Seq<char>,
        detach: bool,
    },
    Subscribe,
    GetTree,
    ListBranches,
    CreateBranch { name: Seq<char>, at: CellId },
    DeleteBranch { name: Seq<char> },
    RenameBranch { from: Seq<char>, to: Seq<char> },
    GetCell { id: CellId },
    Kill { id: CellId },
    Attach { id: CellId },
    Input { id: CellId, data: Seq<char> },
    Resize { id: CellId, rows: u16, cols: u16 },
}

impl View for Request {
    type V = RequestV;

    open spec fn view(&self) -> RequestV {
        match self {
            Request::Submit { branch, parent, source, who, detach } => RequestV::Submit {
                branch: branch@,
                parent: *parent,
                source: source@,
                who: who@,
                detach: *detach,
            },
            Request::Subscribe => RequestV::Subscribe,
            Request::GetTree => RequestV::GetTree,
            Request::ListBranches => RequestV::ListBranches,
            Request::CreateBranch { name, at } => RequestV::CreateBranch { name: name@, at: *at },
            Request::DeleteBranch { name } => RequestV::DeleteBranch { name: name@ },
            Request::RenameBranch { from, to } => RequestV::RenameBranch { from: from@, to: to@ },
            Request::GetCell { id } => RequestV::GetCell { id: *id },
            Request::Kill { id } => RequestV::Kill { id: *id },
            Request::Attach { id } => RequestV::Attach { id: *id },
            Request::Input { id, data } => RequestV::Input { id: *id, data: data@ },
            Request::Resize { id, rows, cols } => RequestV::Resize {
                id: *id,
                rows: *rows,
                cols: *cols,
            },
        }
    }
}

/// Which of its two streams a process wrote to.
#[derive(Debug, Clone, Copy, PartialEq, Eq, Structural)]
pub enum Stream {
    Stdout,
    Stderr,
}

/// What happens to a cell.
#[derive(Debug)]
pub enum CellEvent {
    Started {
        id: CellId,
        parent: Option<CellId>,
        source: String,
        who: String,
        /// The branch that the cell landed on.
        branch: String,
    },
    OutputChunk { id: CellId, stream: Stream, data: String },
    Completed {
        id: CellId,
        exit_code: i32,
        duration_ms: u64,
        /// SHA-256 content hash.
        hash: Option<String>,
    },
}

/// An event.
pub enum CellEventV {
    Started {
        id: CellId,
        parent: Option<CellId>,
        source: Seq<char>,
        who: Seq<char>,
        branch: Seq<char>,
    },
    OutputChunk { id: CellId, stream: Stream, data: Seq<char> },
    Completed { id: CellId, exit_code: i32, duration_ms: u64, hash: Option<Seq<char>> },
}

impl View for CellEvent {
    type V = CellEventV;

    open spec fn view(&self) -> CellEventV {
        match self {
            CellEvent::Started { id, parent, source, who, branch } => CellEventV::Started {
                id: *id,
                parent: *parent,
                source: source@,
                who: who@,
                branch: branch@,
            },
            CellEvent::OutputChunk { id, stream, data } => CellEventV::OutputChunk {
                id: *id,
                stream: *stream,
                data: data@,
            },
            CellEvent::Completed { id, exit_code, duration_ms, hash } => CellEventV::Completed {
                id: *id,
                exit_code: *exit_code,
                duration_ms: *duration_ms,
                hash: opt_text(*hash),
            },
        }
    }
}

impl Clone for CellEvent {
    fn clone(&self) -> (r: CellEvent)
        ensures
            r@ == self@,
    {
        match self {
            CellEvent::Started { id, parent, source, who, branch } => CellEvent::Started {
                id: *id,
                parent: *parent,
                source: source.clone(),
                who: who.clone(),
                branch: branch.clone(),
            },
            CellEvent::OutputChunk { id, stream, data } => CellEvent::OutputChunk {
                id: *id,
                stream: *stream,
                data: data.clone(),
            },
            CellEvent::Completed { id, exit_code, duration_ms, hash } => CellEvent::Completed {
                id: *id,
                exit_code: *exit_code,
                duration_ms: *duration_ms,
                hash: copy_opt(hash),
            },
        }
    }
}

/// A cell as clients see it.
#[derive(Debug)]
pub struct CellSnapshot {
    pub id: CellId,
    pub parent: Option<CellId>,
    pub submitter: String,
    pub source: String,
    /// `None` while the cell is still running.
    pub exit_code: Option<i32>,
    pub duration_ms: u64,
    pub stdout: String,
    pub stderr: String,
    /// SHA-256 content hash. `None` while running.
    pub hash: Option<String>,
}

/// A cell as clients see it.
pub struct CellSnapshotV {
    pub id: CellId,
    pub parent: Option<CellId>,
    pub submitter: Seq<char>,
    pub source: Seq<char>,
    pub exit_code: Option<i32>,
    pub duration_ms: u64,
    pub stdout: Seq<char>,
    pub stderr: Seq<char>,
    pub hash: Option<Seq<char>>,
}

impl View for CellSnapshot {
    type V = CellSnapshotV;

    open spec fn view(&self) -> CellSnapshotV {
        CellSnapshotV {
            id: self.id,
            parent: self.parent,
            submitter: self.submitter@,
            source: self.source@,
            exit_code: self.exit_code,
            duration_ms: self.duration_ms,
            stdout: self.stdout@,
            stderr: self.stderr@,
            hash: opt_text(self.hash),
        }
    }
}

/// All cells as clients see them.
#[derive(Debug)]
pub struct TreeSnapshot {
    pub cells: Vec<CellSnapshot>,
}

/// The snapshots of a vector.
pub open spec fn snapshots_view(v: Seq<CellSnapshot>) -> Seq<CellSnapshotV> {
    v.map_values(|c: CellSnapshot| c@)
}

impl View for TreeSnapshot {
    type V = Seq<CellSnapshotV>;

    open spec fn view(&self) -> Seq<CellSnapshotV> {
        snapshots_view(self.cells@)
    }
}

/// A branch as clients see it.
#[derive(Debug)]
pub struct BranchSnapshot {
    pub name: String,
    pub tip: CellId,
    /// The tip's content hash. `None` while the tip runs.
    pub tip_hash: Option<String>,
    /// Whether the tip is still running.
    pub running: bool,
    /// Whether the next command on the branch would run in a terminal.
    pub tty: bool,
}

/// A branch as clients see it.
pub struct BranchSnapshotV {
    pub name: Seq<char>,
    pub tip: CellId,
    pub tip_hash: Option<Seq<char>>,
    pub running: bool,
    pub tty: bool,
}

impl View for BranchSnapshot {
    type V = BranchSnapshotV;

    open spec fn view(&self) -> BranchSnapshotV {
        BranchSnapshotV {
            name: self.name@,
            tip: self.tip,
            tip_hash: opt_text(self.tip_hash),
            running: self.running,
            tty: self.tty,
        }
    }
}

/// The branches of a vector.
pub open spec fn branches_view(v: Seq<BranchSnapshot>) -> Seq<BranchSnapshotV> {
    v.map_values(|b: BranchSnapshot| b@)
}

/// What the daemon answers.
#[derive(Debug)]
pub enum Response {
    Event(CellEvent),
    Tree(TreeSnapshot),
    Branches { branches: Vec<BranchSnapshot> },
    Cell(CellSnapshot),
    Error { message: String },
    /// It was done.
    Done,
}

/// An answer.
pub enum ResponseV {
    Event(CellEventV),
    Tree(Seq<CellSnapshotV>),
    Branches { branches: Seq<BranchSnapshotV> },
    Cell(CellSnapshotV),
    Error { message: Seq<char> },
    /// It was done.
    Done,
}

impl View for Response {
    type V = ResponseV;

    open spec fn view(&self) -> ResponseV {
        match self {
            Response::Event(e) => ResponseV::Event(e@),
            Response::Tree(t) => ResponseV::Tree(t@),
            Response::Branches { branches } => ResponseV::Branches {
                branches: branches_view(branches@),
            },
            Response::Cell(c) => ResponseV::Cell(c@),
            Response::Error { message } => ResponseV::Error { message: message@ },
            Response::Done => ResponseV::Done,
        }
    }
}

/// Where the daemon listens: below the runtime directory, or below `/tmp` where there is none.
pub fn socket_path(runtime_dir: Option<String>) -> (r: String)
    ensures
        r@ == joined(
            match runtime_dir {
                Some(d) => d@,
                None => "/tmp"@,
            },
            "fern.sock"@,
        ),
{
    match runtime_dir {
        Some(d) => join_path(d.as_str(), "fern.sock"),
        None => join_path("/tmp", "fern.sock"),
    }
}

} // verus!
