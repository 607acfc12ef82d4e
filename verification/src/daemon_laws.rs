//! What clients can rely on of the daemon's answers.

use vstd::prelude::*;
use vstd::utf8::*;

use crate::daemon::{
    answered, branches_at, buffered, completion_records, concerns, forks, handled, heard_all,
    is_fork_name, is_verdict, not_running, not_terminal, result_of, started, submit_verdict,
    submitted, EndingV, JobV, Submit, SubmitV, TranscriptV,
};
use crate::forest::{in_order, law_every_cell_is_listed_in_order, sound};
use crate::hash::root_hash;
use crate::mux::lemma_decimal_injective;
use crate::names::{before, lemma_listing, lemma_map_of_at, listable, listing, map_of};
use crate::render_laws::{lemma_ends, lemma_same_around, starts_with};
use crate::snapshot::{branch_snapshot, branch_snapshots, cell_snapshot, tree_snapshot};
use crate::store::{recorded, RecordV};
use crate::text::{as_text, decimal, is_white};
use crate::text_laws::{is_blank_text, law_numbers_are_read_back, lemma_trimmed};
use crate::tree::{
    concluded, hostname, start_state, with_var, CellId, CellV, Output, ResultV, State, StateV,
    SubmitError, SystemInfoV, TreeV, DEFAULT_BRANCH,
};
use crate::wire::{CellEventV, RequestV, ResponseV, Stream};

verus! {

// ---------- Branches --------------------------------------------------------

/// Two trees have the same cells and give out the same number next.
pub open spec fn same_cells(t: TreeV, u: TreeV) -> bool {
    t.cells == u.cells && t.children == u.children && t.next_id == u.next_id
}

/// Two trees agree on where the branch `n` points, or that there is none.
pub open spec fn agree_on(t: TreeV, u: TreeV, n: Seq<char>) -> bool {
    &&& t.branches.contains_key(n) <==> u.branches.contains_key(n)
    &&& t.branches.contains_key(n) ==> t.branches[n] == u.branches[n]
}

/// A request was turned down: nothing changed, nothing was logged, and the client is told.
pub open spec fn turned_down(t: TreeV, req: RequestV) -> bool {
    answered(t, req) matches Some((u, r, records)) && u == t && r is Error && records.len() == 0
}

/// A request was carried out.
pub open spec fn done(t: TreeV, req: RequestV) -> bool {
    answered(t, req) matches Some((_, r, _)) && r is Done
}

/// A branch is made where it is asked for, at a cell that there is and under a name that is free,
/// has a character and no white space, and is not one of those that forks have; no other branch is
/// touched. Anything else is turned down.
pub proof fn law_branches_are_made_where_asked(t: TreeV, name: Seq<char>, at: CellId, n: Seq<char>)
    ensures
        ({
            let req = RequestV::CreateBranch { name, at };
            let good = name.len() > 0 && (forall|i: int|
                0 <= i < name.len() ==> !is_white(#[trigger] name[i])) && !(name.len() >= 5
                && name.take(5) == "fork-"@) && !t.branches.contains_key(name)
                && t.cells.contains_key(at);
            &&& !good ==> turned_down(t, req)
            &&& good ==> done(t, req) && {
                let (u, _, records) = answered(t, req)->Some_0;
                &&& u.branches.contains_key(name) && u.branches[name] == at
                &&& n != name ==> agree_on(t, u, n)
                &&& same_cells(t, u)
                &&& records == seq![RecordV::SetBranch { name, tip: at }]
            }
        }),
{
    reveal_strlit("fork-");
    let p = "fork-"@;
    if name.len() >= 5 {
        assert(name.subrange(0, 5) =~= name.take(5));
        assert(p.is_prefix_of(name) <==> name.take(5) == p);
    } else {
        assert(!p.is_prefix_of(name));
    }
    let req = RequestV::CreateBranch { name, at };
    assert(crate::daemon::has_white(name) <==> !(forall|i: int|
        0 <= i < name.len() ==> !is_white(#[trigger] name[i])));
}

/// A branch is deleted where there is one, and no other goes with it, nor does any cell; the
/// default branch cannot be deleted.
pub proof fn law_branches_are_deleted_alone(t: TreeV, name: Seq<char>, n: Seq<char>)
    ensures
        ({
            let req = RequestV::DeleteBranch { name };
            let good = name != DEFAULT_BRANCH@ && t.branches.contains_key(name);
            &&& !good ==> turned_down(t, req)
            &&& good ==> done(t, req) && {
                let (u, _, records) = answered(t, req)->Some_0;
                &&& !u.branches.contains_key(name)
                &&& n != name ==> agree_on(t, u, n)
                &&& same_cells(t, u)
                &&& records == seq![RecordV::DeleteBranch { name }]
            }
        }),
{
}

/// A branch that is renamed points where it did, under its new name, which must be free; the old
/// one is gone, and no other branch is touched. The default branch keeps its name.
pub proof fn law_renamed_branches_point_where_they_did(
    t: TreeV,
    from: Seq<char>,
    to: Seq<char>,
    n: Seq<char>,
)
    ensures
        ({
            let req = RequestV::RenameBranch { from, to };
            let good = from != DEFAULT_BRANCH@ && t.branches.contains_key(from)
                && !t.branches.contains_key(to);
            &&& !good ==> turned_down(t, req)
            &&& good ==> done(t, req) && {
                let (u, _, records) = answered(t, req)->Some_0;
                &&& u.branches.contains_key(to) && u.branches[to] == t.branches[from]
                &&& !u.branches.contains_key(from)
                &&& n != from && n != to ==> agree_on(t, u, n)
                &&& same_cells(t, u)
                &&& records == seq![RecordV::RenameBranch { from, to }]
            }
        }),
{
}

/// To ask for something changes nothing and leaves nothing in the log.
pub proof fn law_asking_changes_nothing(t: TreeV, req: RequestV)
    requires
        req is GetTree || req is ListBranches || req is GetCell || req is Input,
    ensures
        answered(t, req) matches Some((u, r, records)) && u == t && records.len() == 0 && (
        req is GetTree ==> r is Tree) && (req is ListBranches ==> r is Branches) && (req is Input
            ==> r is Error),
        req matches RequestV::GetCell { id } ==> (answered(t, req) matches Some((_, r, _)) && if
        t.cells.contains_key(id) {
            r == ResponseV::Cell(cell_snapshot(t.cells[id]))
        } else {
            r is Error
        }),
{
}

/// What is turned down is explained: the answer names the branch or the cell that is the matter.
pub proof fn law_refusals_name_what_is_the_matter(t: TreeV, name: Seq<char>, id: CellId)
    ensures
        !t.cells.contains_key(id) ==> answered(t, RequestV::GetCell { id }) == Some(
            (
                t,
                ResponseV::Error { message: "no such cell #"@ + decimal(id as nat) },
                Seq::<RecordV>::empty(),
            ),
        ),
        name != DEFAULT_BRANCH@ && !t.branches.contains_key(name) ==> answered(
            t,
            RequestV::DeleteBranch { name },
        ) == Some(
            (
                t,
                ResponseV::Error { message: "no such branch '"@ + name + "'"@ },
                Seq::<RecordV>::empty(),
            ),
        ),
{
}

// ---------- Snapshots -------------------------------------------------------

/// A cell is shown as it is: with its number, parent, submitter, line and hash, and, once it is
/// over, its exit code, its time and its output as text. A running cell has none of these yet.
pub proof fn law_cells_are_shown_as_they_are(c: CellV)
    ensures
        ({
            let s = cell_snapshot(c);
            &&& s.id == c.id && s.parent == c.parent && s.submitter == c.submitter && s.source
                == c.source && s.hash == c.hash
            &&& c.result matches Some(r) ==> s.exit_code == Some(r.exit_code) && s.duration_ms
                == r.duration_ms && s.stdout == as_text(r.stdout) && s.stderr == as_text(r.stderr)
            &&& c.result is None ==> s.exit_code is None && s.duration_ms == 0 && s.stdout.len()
                == 0 && s.stderr.len() == 0
        }),
{
}

/// Output that is text is shown as that text.
pub proof fn law_text_is_shown_as_it_is(s: Seq<char>)
    ensures
        as_text(encode_utf8(s)) == s,
{
    encode_utf8_valid_utf8(s);
    encode_utf8_decode_utf8(s);
}

/// The tree that clients are sent has every cell once, in the order of the numbers, each as it is.
pub proof fn law_trees_are_shown_whole(t: TreeV, id: CellId)
    requires
        sound(t),
    ensures
        ({
            let s = tree_snapshot(t);
            &&& t.cells.contains_key(id) <==> exists|i: int|
                0 <= i < s.len() && #[trigger] s[i] == cell_snapshot(t.cells[id])
                    && in_order(t)[i] == id
            &&& forall|i: int, j: int| 0 <= i < j < s.len() ==> in_order(t)[i] < in_order(t)[j]
        }),
{
    law_every_cell_is_listed_in_order(t);
    let s = tree_snapshot(t);
    let ids = in_order(t);
    assert(s.len() == ids.len());
    if t.cells.contains_key(id) {
        let i = choose|i: int| 0 <= i < ids.len() && ids[i] == id;
        assert(s[i] == cell_snapshot(t.cells[id]));
    }
    if exists|i: int|
        0 <= i < s.len() && #[trigger] s[i] == cell_snapshot(t.cells[id]) && in_order(t)[i] == id {
        assert(ids.contains(id));
    }
}

/// A branch is shown with its tip, whether that is running, its hash once it is over, and whether
/// the next command on the branch would have a terminal.
pub proof fn law_branches_are_shown_as_they_are(t: TreeV, name: Seq<char>, tip: CellId)
    requires
        t.cells.contains_key(tip),
    ensures
        ({
            let b = branch_snapshot(t, name, tip);
            &&& b.name == name && b.tip == tip
            &&& b.running <==> t.cells[tip].result is None
            &&& b.running ==> b.tip_hash is None && !b.tty
            &&& t.cells[tip].result matches Some(r) ==> b.tip_hash == t.cells[tip].hash && (b.tty
                <==> r.end_state.env.contains_key("FERN_IO"@) && r.end_state.env["FERN_IO"@]
                == "tty"@)
        }),
{
}

/// Every branch is listed once, with its tip, in the order of the names, and nothing else is.
pub proof fn law_branches_are_listed_by_name(t: TreeV)
    requires
        listable(t.branches),
    ensures
        ({
            let bs = branch_snapshots(t);
            &&& forall|i: int, j: int|
                0 <= i < j < bs.len() ==> before(#[trigger] bs[i].name, #[trigger] bs[j].name)
            &&& forall|i: int|
                0 <= i < bs.len() ==> t.branches.contains_key((#[trigger] bs[i]).name)
                    && t.branches[bs[i].name] == bs[i].tip && bs[i] == branch_snapshot(
                    t,
                    bs[i].name,
                    bs[i].tip,
                )
            &&& forall|n: Seq<char>| #[trigger]
                t.branches.contains_key(n) ==> exists|i: int|
                    0 <= i < bs.len() && (#[trigger] bs[i]).name == n
        }),
{
    let l = listing(t.branches);
    let bs = branch_snapshots(t);
    lemma_listing(t.branches);
    assert(bs.len() == l.len());
    assert forall|i: int| 0 <= i < bs.len() implies t.branches.contains_key((#[trigger] bs[i]).name)
        && t.branches[bs[i].name] == bs[i].tip && bs[i] == branch_snapshot(
        t,
        bs[i].name,
        bs[i].tip,
    ) by {
        lemma_map_of_at(l, i);
        assert(bs[i] == branch_snapshot(t, l[i].0, l[i].1));
    }
    assert forall|i: int, j: int| 0 <= i < j < bs.len() implies before(
        #[trigger] bs[i].name,
        #[trigger] bs[j].name,
    ) by {
        assert(bs[i].name == l[i].0 && bs[j].name == l[j].0);
    }
    assert forall|n: Seq<char>| #[trigger] t.branches.contains_key(n) implies exists|i: int|
        0 <= i < bs.len() && (#[trigger] bs[i]).name == n by {
        assert(map_of(l).contains_key(n));
        let i = choose|i: int| 0 <= i < l.len() && (#[trigger] l[i]).0 == n;
        assert(bs[i].name == n);
    }
}

// ---------- Lines -----------------------------------------------------------

/// A line that is empty is skipped, one that is no request is answered with why, and one that is a
/// request is dealt with as that: its own cell, its own branch, its own line, and nothing changes
/// the tree but an answer.
pub proof fn law_each_request_is_dealt_with(
    t: TreeV,
    line: Seq<char>,
    req: RequestV,
    e: Seq<char>,
)
    ensures
        line.len() == 0 ==> handled(t, line, Ok(req)) == (t, JobV::Skip) && handled(t, line, Err(e))
            == (t, JobV::Skip),
        line.len() > 0 ==> (handled(t, line, Err(e)) matches (u, JobV::Reply(r, records)) && u == t
            && records.len() == 0 && r == (ResponseV::Error { message: "bad request: "@ + e })),
        line.len() > 0 ==> {
            let (u, job) = handled(t, line, Ok(req));
            match req {
                RequestV::Submit { branch, parent, source, who, detach } => u == t && job
                    == JobV::Submit { branch, parent, source, who, detach },
                RequestV::Kill { id } => u == t && job == JobV::Kill(id),
                RequestV::Attach { id } => u == t && job == JobV::Attach(id),
                RequestV::Resize { id, rows, cols } => u == t && job == JobV::Resize {
                    id,
                    rows,
                    cols,
                },
                RequestV::Subscribe => u == t && job == JobV::Subscribe,
                _ => answered(t, req) matches Some((v, r, records)) && u == v && job == JobV::Reply(
                    r,
                    records,
                ),
            }
        },
{
}

// ---------- Submissions -----------------------------------------------------

/// A line is turned down exactly where there is nothing below which it could land: no parent is
/// given and the branch is not there, or the parent is not there, or it has not finished.
pub proof fn law_lines_land_below_finished_cells(
    t: TreeV,
    branch: Seq<char>,
    parent: Option<CellId>,
    fork: Seq<char>,
)
    ensures
        ({
            let v = submit_verdict(t, branch, parent, fork);
            let p = match parent {
                Some(p) => p,
                None => t.branches[branch],
            };
            let found = (parent is Some || t.branches.contains_key(branch)) && t.cells.contains_key(
                p,
            );
            let ready = found && t.cells[p].result is Some;
            &&& v is Rejected <==> !ready
            &&& v matches SubmitV::Accepted { id, parent: q, start, status, branch: b } ==> {
                &&& id == t.next_id && q == p
                &&& start == t.cells[p].result->Some_0.end_state
                &&& status == t.cells[p].result->Some_0.exit_code
                &&& b == if t.branches.contains_key(branch) && t.branches[branch] == p {
                    branch
                } else {
                    fork
                }
            }
        }),
{
}

/// A line that is taken becomes a cell with its text and its submitter, and that is what is
/// announced: its number, where it comes from and the branch that it landed on.
pub proof fn law_taken_lines_are_announced(
    t: TreeV,
    v: SubmitV,
    source: Seq<char>,
    who: Seq<char>,
)
    ensures
        v is Rejected ==> started(v, source, who) is None && submitted(t, v, source, who) == t,
        v matches SubmitV::Accepted { id, parent: p, branch: b, .. } ==> {
            let u = submitted(t, v, source, who);
            &&& started(v, source, who) == Some(
                CellEventV::Started { id, parent: Some(p), source, who, branch: b },
            )
            &&& u.cells.contains_key(id)
            &&& u.cells[id].id == id && u.cells[id].parent == Some(p) && u.cells[id].source
                == source && u.cells[id].submitter == who && u.cells[id].result is None
            &&& u.branches.contains_key(b) && u.branches[b] == id
            &&& u.children_of(p).len() > 0 && u.children_of(p).contains(id)
            &&& u.next_id == (t.next_id + 1) as u64
        },
{
    if let SubmitV::Accepted { id, parent: p, branch: b, .. } = v {
        let u = submitted(t, v, source, who);
        let below = t.children_of(p).push(id);
        assert(below[below.len() - 1] == id);
        assert(below.contains(id));
        assert(u.children_of(p) =~= below);
    }
}

// ---------- Results ---------------------------------------------------------

/// A line that was evaluated leaves the state, the exit code and the output that it came to. One
/// that could not be, or was killed, leaves the state as it was; it exits with 2 or with -1, and
/// what went wrong stands behind its output to stderr.
pub proof fn law_results_say_how_a_line_ended(
    start: StateV,
    ending: EndingV,
    t: TranscriptV,
    ms: u64,
)
    ensures
        ({
            let r = result_of(start, ending, t, ms);
            &&& r.stdout == encode_utf8(t.stdout) && r.duration_ms == ms
            &&& ending matches EndingV::Evaluated(s, n) ==> r.end_state == s && r.exit_code == n
                && as_text(r.stderr) == t.stderr
            &&& !(ending is Evaluated) ==> r.end_state == start
            &&& ending matches EndingV::Failed(m) ==> r.exit_code == 2 && as_text(r.stderr)
                == t.stderr + m + seq!['\n']
            &&& ending is Killed ==> r.exit_code == -1 && as_text(r.stderr) == t.stderr
                + "[killed by fern kill]\n"@
            &&& ending is Panicked ==> r.exit_code == 2 && as_text(r.stderr) == t.stderr
        }),
{
    let none = Seq::<char>::empty();
    assert(t.stderr + none =~= t.stderr);
    law_text_is_shown_as_it_is(t.stderr);
    if let EndingV::Failed(m) = ending {
        assert(t.stderr + m.push('\n') =~= t.stderr + m + seq!['\n']);
        law_text_is_shown_as_it_is(t.stderr + m.push('\n'));
    }
    law_text_is_shown_as_it_is(t.stderr + "[killed by fern kill]\n"@);
}

/// What a cell wrote to a stream is all that its chunks on that stream held, one behind the other.
pub proof fn law_chunks_are_kept_in_order(a: Seq<CellEventV>, b: Seq<CellEventV>, e: CellEventV)
    ensures
        heard_all(a + b).stdout == heard_all(a).stdout + heard_all(b).stdout,
        heard_all(a + b).stderr == heard_all(a).stderr + heard_all(b).stderr,
        heard_all(seq![e]) == match e {
            CellEventV::OutputChunk { stream: Stream::Stdout, data, .. } => TranscriptV {
                stdout: data,
                stderr: Seq::empty(),
            },
            CellEventV::OutputChunk { stream: Stream::Stderr, data, .. } => TranscriptV {
                stdout: Seq::empty(),
                stderr: data,
            },
            _ => TranscriptV { stdout: Seq::empty(), stderr: Seq::empty() },
        },
    decreases b.len(),
{
    let none = Seq::<CellEventV>::empty();
    assert(seq![e].drop_last() =~= none);
    assert(seq![e].last() == e);
    let blank = Seq::<char>::empty();
    assert(heard_all(none) == TranscriptV { stdout: blank, stderr: blank });
    if let CellEventV::OutputChunk { data, .. } = e {
        assert(blank + data =~= data);
    }
    if b.len() == 0 {
        assert(a + b =~= a);
        assert(heard_all(a).stdout + blank =~= heard_all(a).stdout);
        assert(heard_all(a).stderr + blank =~= heard_all(a).stderr);
    } else {
        let c = b.drop_last();
        assert((a + b).drop_last() =~= a + c);
        assert((a + b).last() == b.last());
        law_chunks_are_kept_in_order(a, c, e);
        if let CellEventV::OutputChunk { data, .. } = b.last() {
            assert(heard_all(a).stdout + heard_all(c).stdout + data =~= heard_all(a).stdout + (
            heard_all(c).stdout + data));
            assert(heard_all(a).stderr + heard_all(c).stderr + data =~= heard_all(a).stderr + (
            heard_all(c).stderr + data));
        }
    }
}

proof fn lemma_branches_at(l: Seq<(Seq<char>, CellId)>, id: CellId, n: Seq<char>)
    ensures
        branches_at(l, id).contains(RecordV::SetBranch { name: n, tip: id }) <==> l.contains(
            (n, id),
        ),
        forall|i: int|
            0 <= i < branches_at(l, id).len() ==> #[trigger] branches_at(l, id)[i] is SetBranch,
    decreases l.len(),
{
    if l.len() > 0 {
        let rest = l.drop_last();
        lemma_branches_at(rest, id, n);
        let (a, b) = (branches_at(rest, id), branches_at(l, id));
        let want = RecordV::SetBranch { name: n, tip: id };
        assert(l[l.len() - 1] == l.last());
        if l.contains((n, id)) && l.last() != (n, id) {
            let i = choose|i: int| 0 <= i < l.len() && l[i] == (n, id);
            assert(rest[i] == (n, id));
        }
        if rest.contains((n, id)) {
            let i = choose|i: int| 0 <= i < rest.len() && rest[i] == (n, id);
            assert(l[i] == (n, id));
        }
        if l.last().1 == id {
            assert(b[b.len() - 1] == RecordV::SetBranch { name: l.last().0, tip: id });
            if a.contains(want) {
                let i = choose|i: int| 0 <= i < a.len() && a[i] == want;
                assert(b[i] == want);
            }
            if b.contains(want) && l.last().0 != n {
                let i = choose|i: int| 0 <= i < b.len() && b[i] == want;
                assert(a[i] == want);
            }
            assert forall|i: int| 0 <= i < b.len() implies #[trigger] b[i] is SetBranch by {
                if i < a.len() {
                    assert(b[i] == a[i]);
                }
            }
        }
    }
}

/// When a cell is over the log is told of it, and behind that of each branch that points at it and
/// of no other.
pub proof fn law_the_log_is_told_of_a_cell_and_its_branches(t: TreeV, id: CellId, n: Seq<char>)
    requires
        listable(t.branches),
        t.cells.contains_key(id),
        t.cells[id].parent is Some,
        t.cells[id].result is Some,
        t.cells[id].hash is Some,
    ensures
        ({
            let rs = completion_records(t, id);
            &&& rs.len() > 0 && Some(rs[0]) == recorded(t.cells[id])
            &&& rs.skip(1).contains(RecordV::SetBranch { name: n, tip: id })
                <==> t.branches.contains_key(n) && t.branches[n] == id
            &&& forall|i: int| 1 <= i < rs.len() ==> #[trigger] rs[i] is SetBranch
        }),
{
    let l = listing(t.branches);
    lemma_listing(t.branches);
    lemma_branches_at(l, id, n);
    let rs = completion_records(t, id);
    let bs = branches_at(l, id);
    assert(rs.skip(1) =~= bs);
    assert forall|i: int| 1 <= i < rs.len() implies #[trigger] rs[i] is SetBranch by {
        assert(rs[i] == bs[i - 1]);
    }
    if l.contains((n, id)) {
        let i = choose|i: int| 0 <= i < l.len() && l[i] == (n, id);
        lemma_map_of_at(l, i);
    }
    if t.branches.contains_key(n) && t.branches[n] == id {
        assert(map_of(l).contains_key(n));
        let i = choose|i: int| 0 <= i < l.len() && (#[trigger] l[i]).0 == n;
        lemma_map_of_at(l, i);
        assert(l[i] == (n, id));
    }
}

/// What is logged of a finished cell is the cell: its number, its parent, who submitted it, its
/// line, and all of its result.
pub proof fn law_records_hold_the_cell(c: CellV)
    ensures
        recorded(c) is Some <==> c.parent is Some && c.result is Some && c.hash is Some,
        recorded(c) matches Some(r) ==> (r matches RecordV::Cell {
            id,
            parent,
            submitter,
            source,
            exit_code,
            stdout,
            stderr,
            duration_ms,
            end_state,
            hash,
        } && id == c.id && c.parent == Some(parent) && submitter == c.submitter && source
            == c.source && c.hash == Some(hash) && (c.result matches Some(x) && exit_code
            == x.exit_code && duration_ms == x.duration_ms && end_state == x.end_state && stdout
            == as_text(x.stdout) && stderr == as_text(x.stderr))),
{
}

/// A client that is attached to a cell hears what that cell puts out and when it is over, and
/// nothing of any other.
pub proof fn law_attached_clients_hear_one_cell(e: CellEventV, id: CellId)
    ensures
        e matches CellEventV::OutputChunk { id: i, .. } ==> (concerns(e, id) <==> i == id),
        e matches CellEventV::Completed { id: i, .. } ==> (concerns(e, id) <==> i == id),
        e is Started ==> !concerns(e, id),
{
}

// ---------- The machine -----------------------------------------------------

/// A subscriber may fall behind as far as was asked for, as long as that is a number that can be
/// had.
pub proof fn law_buffers_are_as_asked(n: u64)
    ensures
        0 < n <= i32::MAX ==> buffered(Some(decimal(n as nat))) == n,
        n == 0 || n > i32::MAX ==> buffered(Some(decimal(n as nat))) == buffered(None),
        buffered(None) == 4096,
{
    law_numbers_are_read_back(n);
}

/// The machine has the name that its file holds, whatever white space stands around it; where the
/// file is blank or gone, the name that the variable holds; and else it is unknown.
pub proof fn law_machines_have_names(
    pre: Seq<char>,
    name: Seq<char>,
    post: Seq<char>,
    var: Seq<char>,
    any: Option<Seq<char>>,
)
    requires
        is_blank_text(pre),
        is_blank_text(post),
        name.len() > 0,
        !is_white(name[0]),
        !is_white(name.last()),
    ensures
        hostname(Some(pre + name + post), any) == name,
        hostname(Some(pre), Some(var)) == var,
        hostname(None, Some(var)) == var,
        hostname(Some(pre), None) == "unknown"@,
        hostname(None, None) == "unknown"@,
{
    lemma_trimmed(pre, name, post);
    crate::text_laws::law_trimming_takes_only_white_space(pre);
}

/// A variable that is given is set, one that is not stays as it is, and so do all others.
pub proof fn law_given_variables_are_set(
    env: Map<Seq<char>, Seq<char>>,
    key: Seq<char>,
    value: Option<Seq<char>>,
    n: Seq<char>,
)
    ensures
        ({
            let e = with_var(env, key, value);
            &&& value matches Some(v) ==> e.contains_key(key) && e[key] == v
            &&& n != key || value is None ==> (e.contains_key(n) <==> env.contains_key(n)) && (
            env.contains_key(n) ==> e[n] == env[n])
        }),
{
}

/// A tree starts with its root alone, which is the system's, has no line, has succeeded without
/// output, and ended in the state that the tree was given; its hash covers that state and the
/// machine, and the default branch points at it.
pub proof fn law_trees_start_with_a_root(state: StateV, info: SystemInfoV, id: CellId)
    ensures
        ({
            let t = TreeV::planted(state, info);
            &&& t.cells.contains_key(id) <==> id == 0
            &&& t.cells[0].parent is None && t.cells[0].id == 0 && t.cells[0].source.len() == 0
            &&& t.cells[0].submitter == "system"@ && t.cells[0].hash == Some(
                root_hash(info, state),
            )
            &&& t.cells[0].result matches Some(r)
            &&& r.exit_code == 0 && r.stdout.len() == 0 && r.stderr.len() == 0 && r.end_state
                == state && r.duration_ms == 0
            &&& t.branches.contains_key(DEFAULT_BRANCH@) && t.branches[DEFAULT_BRANCH@] == 0
            &&& t.branches.dom() == set![DEFAULT_BRANCH@]
            &&& t.next_id == 1
            &&& t.children_of(0).len() == 0
        }),
{
    let t = TreeV::planted(state, info);
    assert(t.branches.dom() =~= set![DEFAULT_BRANCH@]);
}

/// A line starts in the state that its parent ended in; one that has no such parent does not
/// start.
pub proof fn law_lines_start_where_their_parent_ended(t: TreeV, p: CellId)
    ensures
        !t.cells.contains_key(p) ==> start_state(t, p) == Err::<StateV, SubmitError>(
            SubmitError::NoParent(p),
        ),
        t.cells.contains_key(p) && t.cells[p].result is None ==> start_state(t, p) == Err::<
            StateV,
            SubmitError,
        >(SubmitError::Running(p)),
        t.cells.contains_key(p) ==> (t.cells[p].result matches Some(r) ==> start_state(t, p)
            == Ok::<StateV, SubmitError>(r.end_state)),
{
}

/// A cell that finishes keeps what it was and has its result; a cell that is inserted is the last
/// child of its parent, and the only one that is new.
pub proof fn law_trees_grow_cell_by_cell(
    t: TreeV,
    id: CellId,
    r: ResultV,
    parent: CellId,
    c: CellV,
    other: CellId,
)
    requires
        t.cells.contains_key(id),
        !t.cells.contains_key(c.id),
        !t.children.contains_key(c.id),
        parent != c.id,
        other != c.id,
    ensures
        ({
            let (old, new) = (t.cells[id], t.finished(id, r).cells[id]);
            &&& new.result == Some(r) && new.id == old.id && new.parent == old.parent
            &&& new.source == old.source && new.submitter == old.submitter
            &&& new.hash is Some
        }),
        ({
            let u = t.inserted(parent, c);
            &&& u.children_of(parent) == t.children_of(parent) + seq![c.id]
            &&& other != parent ==> u.children_of(other) == t.children_of(other)
            &&& u.children_of(c.id).len() == 0
            &&& u.cells.contains_key(other) <==> t.cells.contains_key(other)
            &&& u.cells[other] == t.cells[other]
            &&& u.cells.contains_key(c.id) && u.cells[c.id].source == c.source
                && u.cells[c.id].parent == c.parent && u.cells[c.id].result == c.result
                && u.cells[c.id].id == c.id && u.cells[c.id].submitter == c.submitter
            &&& u.branches == t.branches && u.next_id == t.next_id
        }),
{
    let u = t.inserted(parent, c);
    assert(u.children_of(parent) =~= t.children_of(parent) + seq![c.id]);
}

// ---------- Forks -----------------------------------------------------------

/// The names that forks have cannot be given to a branch.
pub proof fn law_fork_names_are_reserved(t: TreeV, name: Seq<char>, at: CellId)
    requires
        is_fork_name(name),
    ensures
        turned_down(t, RequestV::CreateBranch { name, at }),
        name.len() == 13,
        name.take(5) == seq!['f', 'o', 'r', 'k', '-'],
        forall|i: int|
            5 <= i < 13 ==> '0' <= #[trigger] name[i] <= '9' || 'a' <= name[i] <= 'f',
{
    reveal_strlit("fork-");
    assert(name.subrange(0, 5) =~= name.take(5));
    assert("fork-"@ =~= seq!['f', 'o', 'r', 'k', '-']);
    law_branches_are_made_where_asked(t, name, at, name);
}

/// A line forks exactly where it lands below a finished cell that is not the tip of its branch.
pub proof fn law_lines_fork_off_the_tip(
    t: TreeV,
    branch: Seq<char>,
    parent: Option<CellId>,
    fork: Seq<char>,
)
    requires
        fork != branch,
    ensures
        forks(t, branch, parent) <==> (submit_verdict(t, branch, parent, fork) matches
            SubmitV::Accepted { branch: b, .. } && b == fork),
        !forks(t, branch, parent) ==> (submit_verdict(t, branch, parent, fork) matches
            SubmitV::Accepted { branch: b, .. } ==> b == branch),
{
}

/// What is said of a cell names it.
pub proof fn law_cells_that_cannot_be_reached_are_named(id: CellId, other: CellId)
    ensures
        id != other ==> not_running(id) != not_running(other) && not_terminal(id) != not_terminal(
            other,
        ),
        starts_with(not_running(id), "cell #"@ + decimal(id as nat) + " is not "@),
        starts_with(not_terminal(id), "cell #"@ + decimal(id as nat) + " is not "@),
        not_running(id) != not_terminal(id),
{
    reveal_strlit(" is not running");
    reveal_strlit(" is not a terminal cell");
    reveal_strlit(" is not ");
    let (a, b) = (decimal(id as nat), decimal(other as nat));
    if not_running(id) == not_running(other) {
        lemma_same_around("cell #"@, a, b, " is not running"@);
        lemma_decimal_injective(id as nat, other as nat);
    }
    if not_terminal(id) == not_terminal(other) {
        lemma_same_around("cell #"@, a, b, " is not a terminal cell"@);
        lemma_decimal_injective(id as nat, other as nat);
    }
    let head = "cell #"@ + a + " is not "@;
    let (x, y) = (" is not running"@.skip(8), " is not a terminal cell"@.skip(8));
    assert(" is not running"@ =~= " is not "@ + x);
    assert(" is not a terminal cell"@ =~= " is not "@ + y);
    assert(not_running(id) =~= head + x);
    assert(not_terminal(id) =~= head + y);
    lemma_ends(head, x);
    lemma_ends(head, y);
    assert(not_running(id).len() != not_terminal(id).len());
}

/// A line that was run to its end leaves what it came to; one that could not be run exits with 2,
/// says why on stderr, and leaves the state as it was.
pub proof fn law_lines_leave_what_they_came_to(
    start: StateV,
    end: State,
    o: Output,
    e: String,
    ms: u64,
)
    ensures
        ({
            let r = concluded(start, Ok((end, o)), ms);
            &&& r.end_state == end@ && r.exit_code == o.exit_code && r.stdout == o.stdout@
                && r.stderr == o.stderr@ && r.duration_ms == ms
        }),
        ({
            let r = concluded(start, Err(e), ms);
            &&& r.end_state == start && r.exit_code == 2 && r.stdout.len() == 0 && r.duration_ms
                == ms
            &&& as_text(r.stderr) == e@ + seq!['\n']
        }),
{
    assert(e@.push('\n') =~= e@ + seq!['\n']);
    law_text_is_shown_as_it_is(e@.push('\n'));
}

/// What a submission is answered is what became of it: the refusal that says why, or the cell with
/// the state and exit code that it starts from and the event that announces it.
pub proof fn law_submissions_are_answered_with_their_verdict(
    r: Submit,
    v: SubmitV,
    source: Seq<char>,
    who: Seq<char>,
)
    requires
        is_verdict(r, v, source, who),
    ensures
        v matches SubmitV::Rejected(m) ==> (r matches Submit::Rejected(a) && a@
            == (ResponseV::Error { message: m })),
        v matches SubmitV::Accepted { id, parent, start, status, branch } ==> (r matches
            Submit::Accepted { id: i, start: s, status: n, event: e } && i == id && s@ == start
            && n == status && e@ == (CellEventV::Started {
            id,
            parent: Some(parent),
            source,
            who,
            branch,
        })),
{
}

/// A line that is turned down is told why: the branch is not there, or the parent is not, or it has
/// not finished, each by its name or number.
pub proof fn law_lines_turned_down_are_told_why(
    t: TreeV,
    branch: Seq<char>,
    p: CellId,
    fork: Seq<char>,
)
    ensures
        !t.branches.contains_key(branch) ==> submit_verdict(t, branch, None, fork)
            == SubmitV::Rejected("no such branch '"@ + branch + "' and no --parent given"@),
        !t.cells.contains_key(p) ==> submit_verdict(t, branch, Some(p), fork) == SubmitV::Rejected(
            "no such parent cell #"@ + decimal(p as nat),
        ),
        t.cells.contains_key(p) && t.cells[p].result is None ==> submit_verdict(
            t,
            branch,
            Some(p),
            fork,
        ) == SubmitV::Rejected(
            "parent #"@ + decimal(p as nat) + " hasn't finished — can't branch yet"@,
        ),
{
}

/// A name that cannot be had is told why: it is empty, holds white space, is one of those that
/// forks have, or is taken.
pub proof fn law_names_that_cannot_be_had_are_told_why(t: TreeV, name: Seq<char>, at: CellId)
    ensures
        ({
            let req = RequestV::CreateBranch { name, at };
            let why = if name.len() == 0 {
                "branch name can't be empty"@
            } else if exists|i: int| 0 <= i < name.len() && is_white(#[trigger] name[i]) {
                "branch name can't contain whitespace"@
            } else if "fork-"@.is_prefix_of(name) {
                "branch names starting with 'fork-' are reserved"@
            } else if t.branches.contains_key(name) {
                "branch '"@ + name + "' already exists"@
            } else {
                "no such cell #"@ + decimal(at as nat)
            };
            turned_down(t, req) ==> answered(t, req)->Some_0.1 == (ResponseV::Error {
                message: why,
            })
        }),
{
}

} // verus!
