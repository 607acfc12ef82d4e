//! Append-only persistence for the cell tree.
//!
//! The log holds one record per line: the root (state and system info) when a store is first
//! created, each cell as it *completes* (running cells are never persisted: they die with the
//! daemon), and branch operations. On startup the log replays into a `Tree`, recomputing every
//! content hash from the persisted data and holding it against the logged one.
//!
//! Replay is tolerant by design: a torn final line, a cell whose parent never persisted, or a
//! branch pointing at a missing cell are warned about and skipped.

use vstd::prelude::*;
use vstd::utf8::*;

use crate::text::{
    as_text, bytes_of, chars_of, decimal, join_path, joined, opt_text, push_decimal, str_eq,
    string_of, text_of_bytes, trim, trimmed,
};
use crate::tree::{
    Cell, CellId, CellResult, CellV, ResultV, State, StateV, SystemInfo, SystemInfoV, Tree, TreeV,
};

verus! {

// ---------- Records ---------------------------------------------------------

/// One line in the log.
#[derive(Debug)]
pub enum Record {
    /// First record of a store: everything needed to rebuild the root cell with the same hash.
    Root { state: State, sysinfo: SystemInfo },
    Cell {
        id: CellId,
        parent: CellId,
        submitter: String,
        source: String,
        exit_code: i32,
        /// Output as text.
        stdout: String,
        stderr: String,
        duration_ms: u64,
        end_state: State,
        /// Content hash at write time; verified on replay.
        hash: String,
    },
    SetBranch { name: String, tip: CellId },
    DeleteBranch { name: String },
    RenameBranch { from: String, to: String },
}

/// A record.
pub enum RecordV {
    Root { state: StateV, sysinfo: SystemInfoV },
    Cell {
        id: CellId,
        parent: CellId,
        submitter: Seq<char>,
        source: Seq<char>,
        exit_code: i32,
        stdout: Seq<char>,
        stderr: Seq<char>,
        duration_ms: u64,
        end_state: StateV,
        hash: Seq<char>,
    },
    SetBranch { name: Seq<char>, tip: CellId },
    DeleteBranch { name: Seq<char> },
    RenameBranch { from: Seq<char>, to: Seq<char> },
}

impl View for Record {
    type V = RecordV;

    open spec fn view(&self) -> RecordV {
        match self {
            Record::Root { state, sysinfo } => RecordV::Root { state: state@, sysinfo: sysinfo@ },
            Record::Cell {
                id,
                parent,
                submitter,
                source,
                exit_code,
                stdout,
                stderr,
                duration_ms,
                end_state,
                hash,
            } => RecordV::Cell {
                id: *id,
                parent: *parent,
                submitter: submitter@,
                source: source@,
                exit_code: *exit_code,
                stdout: stdout@,
                stderr: stderr@,
                duration_ms: *duration_ms,
                end_state: end_state@,
                hash: hash@,
            },
            Record::SetBranch { name, tip } => RecordV::SetBranch { name: name@, tip: *tip },
            Record::DeleteBranch { name } => RecordV::DeleteBranch { name: name@ },
            Record::RenameBranch { from, to } => RecordV::RenameBranch { from: from@, to: to@ },
        }
    }
}

/// The records of a vector.
pub open spec fn records_view(v: Seq<Record>) -> Seq<RecordV> {
    v.map_values(|r: Record| r@)
}

/// The log record for a completed cell; none for the root or a cell that hasn't finished.
pub open spec fn recorded(c: CellV) -> Option<RecordV> {
    match (c.parent, c.result, c.hash) {
        (Some(parent), Some(r), Some(hash)) => Some(
            RecordV::Cell {
                id: c.id,
                parent,
                submitter: c.submitter,
                source: c.source,
                exit_code: r.exit_code,
                stdout: as_text(r.stdout),
                stderr: as_text(r.stderr),
                duration_ms: r.duration_ms,
                end_state: r.end_state,
                hash,
            },
        ),
        _ => None,
    }
}

/// Build the log record for a completed cell. None for the root or a cell that hasn't finished
/// (neither is ever logged).
pub fn record_of(cell: &Cell) -> (r: Option<Record>)
    ensures
        match r {
            Some(rec) => recorded(cell@) == Some(rec@),
            None => recorded(cell@) is None,
        },
{
    let parent: CellId = match cell.parent {
        Some(p) => p,
        None => {
            return None;
        },
    };
    let result = match &cell.result {
        Some(r) => r,
        None => {
            return None;
        },
    };
    let hash = match &cell.hash {
        Some(h) => h.clone(),
        None => {
            return None;
        },
    };
    Some(
        Record::Cell {
            id: cell.id,
            parent,
            submitter: cell.submitter.clone(),
            source: cell.source.clone(),
            exit_code: result.exit_code,
            stdout: text_of_bytes(result.stdout.as_slice()),
            stderr: text_of_bytes(result.stderr.as_slice()),
            duration_ms: result.duration_ms,
            end_state: result.end_state.clone(),
            hash,
        },
    )
}

// ---------- Where the log is ------------------------------------------------

/// `$XDG_DATA_HOME/fern/tree.jsonl`, falling back to `~/.local/share` and to `/tmp`.
pub open spec fn log_path(xdg_data_home: Option<Seq<char>>, home: Option<Seq<char>>) -> Seq<char> {
    let base = match (xdg_data_home, home) {
        (Some(d), _) => d,
        (None, Some(h)) => joined(h, ".local/share"@),
        (None, None) => "/tmp"@,
    };
    joined(joined(base, "fern"@), "tree.jsonl"@)
}

/// `$XDG_DATA_HOME/fern/tree.jsonl`, falling back to `~/.local/share` and to `/tmp`.
pub fn default_path_from(xdg_data_home: Option<String>, home: Option<String>) -> (r: String)
    ensures
        r@ == log_path(opt_text(xdg_data_home), opt_text(home)),
{
    let base = match xdg_data_home {
        Some(d) => d,
        None => match home {
            Some(h) => join_path(h.as_str(), ".local/share"),
            None => "/tmp".to_owned(),
        },
    };
    let dir = join_path(base.as_str(), "fern");
    join_path(dir.as_str(), "tree.jsonl")
}

// ---------- The lines of the log --------------------------------------------

/// The end of the line that runs on at `i`.
pub open spec fn line_end(s: Seq<char>, i: int) -> int
    decreases s.len() - i,
{
    if 0 <= i < s.len() && s[i] != '\n' {
        line_end(s, i + 1)
    } else {
        i
    }
}

/// A line that a newline ended, without the carriage return that may stand before it.
pub open spec fn chomped(s: Seq<char>) -> Seq<char> {
    if s.len() > 0 && s.last() == '\r' {
        s.drop_last()
    } else {
        s
    }
}

/// The lines of `s` from `i` on that are not blank, each with its number, the next being `n`.
pub open spec fn lines_from(s: Seq<char>, i: int, n: nat) -> Seq<(nat, Seq<char>)>
    decreases s.len() - i,
{
    if i < 0 || i >= s.len() {
        Seq::empty()
    } else {
        let e = line_end(s, i);
        let line = if e < s.len() {
            chomped(s.subrange(i, e))
        } else {
            s.subrange(i, e)
        };
        let rest = if i <= e < s.len() {
            lines_from(s, e + 1, n + 1)
        } else {
            Seq::empty()
        };
        if trimmed(line).len() == 0 {
            rest
        } else {
            seq![(n, line)] + rest
        }
    }
}

/// The numbered lines of a vector.
pub open spec fn numbered(v: Seq<(usize, String)>) -> Seq<(nat, Seq<char>)> {
    v.map_values(|e: (usize, String)| (e.0 as nat, e.1@))
}

/// The lines of a log that are not blank, each with its number, counted from 1.
pub fn log_lines(text: &str) -> (r: Vec<(usize, String)>)
    ensures
        numbered(r@) == lines_from(text@, 0, 1),
{
    let v = chars_of(text);
    let mut out: Vec<(usize, String)> = Vec::new();
    let mut i: usize = 0;
    let mut n: usize = 0;
    assert(numbered(out@) + lines_from(text@, 0, 1) =~= lines_from(text@, 0, 1));
    while i < v.len()
        invariant
            i <= v.len(),
            n <= i,
            v@ == text@,
            numbered(out@) + lines_from(text@, i as int, (n + 1) as nat) == lines_from(
                text@,
                0,
                1,
            ),
        decreases v.len() - i,
    {
        let mut e: usize = i;
        while e < v.len() && v[e] != '\n'
            invariant
                i <= e <= v.len(),
                v@ == text@,
                line_end(text@, i as int) == line_end(text@, e as int),
            decreases v.len() - e,
        {
            e += 1;
        }
        let line = if e < v.len() && e > i && v[e - 1] == '\r' {
            string_of(&v, i, e - 1)
        } else {
            string_of(&v, i, e)
        };
        let ghost l = if e < text@.len() {
            chomped(text@.subrange(i as int, e as int))
        } else {
            text@.subrange(i as int, e as int)
        };
        assert(line@ =~= l);
        n += 1;
        let bare = trim(line.as_str());
        let ghost before = numbered(out@);
        let ghost rest = if e < text@.len() {
            lines_from(text@, e + 1, (n + 1) as nat)
        } else {
            Seq::empty()
        };
        if !bare.as_str().is_empty() {
            out.push((n, line));
            assert(numbered(out@) =~= before.push((n as nat, l)));
            assert(before + (seq![(n as nat, l)] + rest) =~= numbered(out@) + rest);
        }
        assert(numbered(out@) + rest == lines_from(text@, 0, 1));
        if e >= v.len() {
            assert(numbered(out@) + rest =~= numbered(out@));
            return out;
        }
        i = e + 1;
    }
    assert(numbered(out@) + lines_from(text@, i as int, (n + 1) as nat) =~= numbered(out@));
    out
}

/// What is said of a line of the log that is no record.
pub fn bad_line(number: usize, reason: &str) -> (r: String)
    ensures
        r@ == "fern store: skipping bad line "@ + decimal(number as nat) + ": "@ + reason@,
{
    let mut s = "fern store: skipping bad line ".to_owned();
    push_decimal(&mut s, number as u64);
    s.append(": ");
    s.append(reason);
    s
}

// ---------- Replay ----------------------------------------------------------

/// The cell that a record speaks of.
pub open spec fn cell_of(r: RecordV) -> CellV
    recommends
        r is Cell,
{
    CellV {
        id: r->Cell_id,
        parent: Some(r->Cell_parent),
        submitter: r->Cell_submitter,
        source: r->Cell_source,
        result: Some(
            ResultV {
                exit_code: r->Cell_exit_code,
                stdout: encode_utf8(r->Cell_stdout),
                stderr: encode_utf8(r->Cell_stderr),
                duration_ms: r->Cell_duration_ms,
                end_state: r->Cell_end_state,
            },
        ),
        hash: None,
    }
}

/// The tree after one more record. What does not fit is skipped.
pub open spec fn replay_step(t: TreeV, r: RecordV) -> TreeV {
    match r {
        RecordV::Cell { id, parent, .. } => if t.cells.contains_key(id) || !t.cells.contains_key(
            parent,
        ) {
            t
        } else {
            t.restored(parent, cell_of(r))
        },
        RecordV::SetBranch { name, tip } => if t.cells.contains_key(tip) {
            t.with_branch(name, tip)
        } else {
            t
        },
        RecordV::DeleteBranch { name } => t.without_branch(name),
        RecordV::RenameBranch { from, to } => t.renamed(from, to),
        RecordV::Root { .. } => t,
    }
}

/// The tree after the records `rs`, in order.
pub open spec fn replay_all(t: TreeV, rs: Seq<RecordV>) -> TreeV
    decreases rs.len(),
{
    if rs.len() == 0 {
        t
    } else {
        replay_step(replay_all(t, rs.drop_last()), rs.last())
    }
}

/// The tree that a log stands for; none for a log that does not start with a root.
pub open spec fn replayed(rs: Seq<RecordV>) -> Option<TreeV> {
    if rs.len() > 0 && rs[0] is Root {
        Some(
            replay_all(
                TreeV::planted(rs[0]->Root_state, rs[0]->Root_sysinfo),
                rs.drop_first(),
            ),
        )
    } else {
        None
    }
}

/// What is said of a record that does not fit, or whose hash does not come out again.
pub open spec fn warning(t: TreeV, r: RecordV) -> Option<Seq<char>> {
    match r {
        RecordV::Cell { id, parent, hash, .. } => if t.cells.contains_key(id) {
            Some("fern store: duplicate cell #"@ + decimal(id as nat) + "; skipping"@)
        } else if !t.cells.contains_key(parent) {
            Some(
                "fern store: cell #"@ + decimal(id as nat) + " has missing parent #"@ + decimal(
                    parent as nat,
                ) + "; skipping"@,
            )
        } else {
            match t.sealed(Some(parent), cell_of(r)).hash {
                Some(h) if h == hash => None,
                again => Some(
                    "fern store: hash mismatch for cell #"@ + decimal(id as nat) + ": logged "@
                        + hash + ", recomputed "@ + (match again {
                        Some(h) => h,
                        None => "none"@,
                    }),
                ),
            }
        },
        RecordV::SetBranch { name, tip } => if t.cells.contains_key(tip) {
            None
        } else {
            Some(
                "fern store: branch '"@ + name + "' points at missing cell #"@ + decimal(
                    tip as nat,
                ) + "; skipping"@,
            )
        },
        RecordV::Root { .. } => Some("fern store: unexpected mid-log Root record; ignoring"@),
        _ => None,
    }
}

/// Applies one record to a tree. Returns what is to be said of it, if anything.
pub fn replay_record(tree: &mut Tree, rec: &Record) -> (r: Option<String>)
    ensures
        final(tree)@ == replay_step(old(tree)@, rec@),
        opt_text(r) == warning(old(tree)@, rec@),
{
    match rec {
        Record::Cell {
            id,
            parent,
            submitter,
            source,
            exit_code,
            stdout,
            stderr,
            duration_ms,
            end_state,
            hash,
        } => {
            if tree.get(*id).is_some() {
                let mut s = "fern store: duplicate cell #".to_owned();
                push_decimal(&mut s, *id);
                s.append("; skipping");
                return Some(s);
            }
            if tree.get(*parent).is_none() {
                let mut s = "fern store: cell #".to_owned();
                push_decimal(&mut s, *id);
                s.append(" has missing parent #");
                push_decimal(&mut s, *parent);
                s.append("; skipping");
                return Some(s);
            }
            let cell = Cell {
                id: *id,
                parent: Some(*parent),
                submitter: submitter.clone(),
                source: source.clone(),
                hash: None,
                result: Some(
                    CellResult {
                        exit_code: *exit_code,
                        stdout: bytes_of(stdout.as_str()),
                        stderr: bytes_of(stderr.as_str()),
                        duration_ms: *duration_ms,
                        end_state: end_state.clone(),
                    },
                ),
            };
            let ghost cv = cell@;
            assert(cv == cell_of(rec@));
            let again = tree.restore_cell(*parent, cell);
            match &again {
                Some(h) => {
                    if str_eq(h.as_str(), hash.as_str()) {
                        return None;
                    }
                },
                None => {},
            }
            let mut s = "fern store: hash mismatch for cell #".to_owned();
            push_decimal(&mut s, *id);
            s.append(": logged ");
            s.append(hash.as_str());
            s.append(", recomputed ");
            match &again {
                Some(h) => {
                    s.append(h.as_str());
                },
                None => {
                    s.append("none");
                },
            }
            Some(s)
        },
        Record::SetBranch { name, tip } => {
            if tree.get(*tip).is_some() {
                tree.set_branch(name.as_str(), *tip);
                None
            } else {
                let mut s = "fern store: branch '".to_owned();
                s.append(name.as_str());
                s.append("' points at missing cell #");
                push_decimal(&mut s, *tip);
                s.append("; skipping");
                Some(s)
            }
        },
        Record::DeleteBranch { name } => {
            tree.delete_branch(name.as_str());
            None
        },
        Record::RenameBranch { from, to } => {
            tree.rename_branch(from.as_str(), to.as_str());
            None
        },
        Record::Root { .. } => {
            Some("fern store: unexpected mid-log Root record; ignoring".to_owned())
        },
    }
}

/// The warnings that replaying `rs` on `t` gives, in order.
pub open spec fn warnings(t: TreeV, rs: Seq<RecordV>) -> Seq<Seq<char>>
    decreases rs.len(),
{
    if rs.len() == 0 {
        Seq::empty()
    } else {
        let before = rs.drop_last();
        match warning(replay_all(t, before), rs.last()) {
            Some(w) => warnings(t, before).push(w),
            None => warnings(t, before),
        }
    }
}

/// Replays logged records into a Tree, with what is to be said of those that do not fit. Returns
/// None when the log has no Root record (empty/new store): the caller starts fresh and writes
/// one.
pub fn replay_logged(records: &[Record]) -> (r: Option<(Tree, Vec<String>)>)
    ensures
        match r {
            None => replayed(records_view(records@)) is None,
            Some((t, ws)) => {
                let rs = records_view(records@);
                &&& replayed(rs) == Some(t@)
                &&& crate::tree::strings(ws@) == warnings(
                    TreeV::planted(rs[0]->Root_state, rs[0]->Root_sysinfo),
                    rs.drop_first(),
                )
            },
        },
{
    let ghost rs = records_view(records@);
    if records.len() == 0 {
        return None;
    }
    assert(rs[0] == records@[0]@);
    let mut tree = match &records[0] {
        Record::Root { state, sysinfo } => Tree::new(state.clone(), sysinfo.clone()),
        _ => {
            return None;
        },
    };
    let ghost start = tree@;
    let ghost rest = rs.drop_first();
    let mut ws: Vec<String> = Vec::new();
    let mut i: usize = 1;
    assert(crate::tree::strings(ws@) =~= Seq::<Seq<char>>::empty());
    while i < records.len()
        invariant
            1 <= i <= records.len(),
            rs == records_view(records@),
            rest == rs.drop_first(),
            tree@ == replay_all(start, rest.take(i - 1)),
            crate::tree::strings(ws@) == warnings(start, rest.take(i - 1)),
        decreases records.len() - i,
    {
        proof {
            let t = rest.take(i as int);
            assert(t.drop_last() =~= rest.take(i - 1));
            assert(t.last() == records@[i as int]@);
        }
        match replay_record(&mut tree, &records[i]) {
            Some(w) => {
                let ghost before = crate::tree::strings(ws@);
                ws.push(w);
                assert(crate::tree::strings(ws@) =~= before.push(w@));
            },
            None => {},
        }
        i += 1;
    }
    assert(rest.take(i - 1) =~= rest);
    Some((tree, ws))
}

/// Replays logged records into a Tree. Returns None when the log has no Root record.
pub fn replay(records: &[Record]) -> (r: Option<Tree>)
    ensures
        match r {
            None => replayed(records_view(records@)) is None,
            Some(t) => replayed(records_view(records@)) == Some(t@),
        },
{
    match replay_logged(records) {
        Some((t, _)) => Some(t),
        None => None,
    }
}

} // verus!
