//! What holds of the log: where it is, what its lines are, and what replaying it does.

use vstd::prelude::*;
use vstd::utf8::*;

use crate::history::cell_with;
use crate::store::{
    line_end, lines_from, log_path, replay_all, replay_step, warning, warnings, RecordV,
};
use crate::text::{joined, trimmed};
use crate::tree::{CellId, TreeV};
use crate::wire::CellSnapshotV;

verus! {

// ---------- The file --------------------------------------------------------

proof fn lemma_below(base: Seq<char>, p: Seq<char>)
    requires
        base.len() > 0,
        base.last() != '/',
        p.len() > 0,
        p[0] != '/',
    ensures
        joined(base, p) == base + seq!['/'] + p,
{
    assert(joined(base, p) =~= base + seq!['/'] + p);
}

/// The log lies in `fern/tree.jsonl` below the data directory where that is set, wherever the home
/// is; else below `.local/share` of the home; and else below `/tmp`.
pub proof fn law_the_log_lies_below_the_data_directory(
    d: Seq<char>,
    h: Seq<char>,
    any: Option<Seq<char>>,
)
    requires
        d.len() > 0,
        d.last() != '/',
        h.len() > 0,
        h.last() != '/',
    ensures
        log_path(Some(d), any) == d + "/fern/tree.jsonl"@,
        log_path(None, Some(h)) == h + "/.local/share/fern/tree.jsonl"@,
        log_path(None, None) == "/tmp/fern/tree.jsonl"@,
{
    reveal_strlit("fern");
    reveal_strlit("tree.jsonl");
    reveal_strlit(".local/share");
    reveal_strlit("/tmp");
    reveal_strlit("/fern/tree.jsonl");
    reveal_strlit("/.local/share/fern/tree.jsonl");
    reveal_strlit("/tmp/fern/tree.jsonl");
    let share = h + seq!['/'] + ".local/share"@;
    lemma_below(h, ".local/share"@);
    lemma_below(d, "fern"@);
    lemma_below(share, "fern"@);
    lemma_below("/tmp"@, "fern"@);
    lemma_below(d + seq!['/'] + "fern"@, "tree.jsonl"@);
    lemma_below(share + seq!['/'] + "fern"@, "tree.jsonl"@);
    lemma_below("/tmp"@ + seq!['/'] + "fern"@, "tree.jsonl"@);
    assert(log_path(Some(d), any) =~= d + "/fern/tree.jsonl"@);
    assert(log_path(None, Some(h)) =~= h + "/.local/share/fern/tree.jsonl"@);
    assert(log_path(None, None) =~= "/tmp/fern/tree.jsonl"@);
}

// ---------- Lines -----------------------------------------------------------

proof fn lemma_end_moves(a: Seq<char>, s: Seq<char>, i: int)
    requires
        0 <= i <= s.len(),
    ensures
        line_end(a + s, a.len() + i) == a.len() + line_end(s, i),
        i <= line_end(s, i) <= s.len(),
    decreases s.len() - i,
{
    if i < s.len() {
        assert((a + s)[a.len() + i] == s[i]);
        if s[i] != '\n' {
            lemma_end_moves(a, s, i + 1);
        }
    }
}

proof fn lemma_lines_move(a: Seq<char>, s: Seq<char>, i: int, n: nat)
    requires
        0 <= i <= s.len(),
    ensures
        lines_from(a + s, a.len() + i, n) == lines_from(s, i, n),
    decreases s.len() - i,
{
    if i < s.len() {
        lemma_end_moves(a, s, i);
        let e = line_end(s, i);
        assert((a + s).subrange(a.len() + i, a.len() + e) =~= s.subrange(i, e));
        if e < s.len() {
            lemma_lines_move(a, s, e + 1, n + 1);
        }
    }
}

proof fn lemma_end_of_line(l: Seq<char>, rest: Seq<char>, i: int)
    requires
        0 <= i <= l.len(),
        !l.contains('\n'),
        rest.len() > 0 ==> rest[0] == '\n',
    ensures
        line_end(l + rest, i) == l.len(),
    decreases l.len() - i,
{
    let s = l + rest;
    if i < l.len() {
        assert(s[i] == l[i]);
        assert(l.contains(l[i]));
        lemma_end_of_line(l, rest, i + 1);
    } else if rest.len() > 0 {
        assert(s[i] == rest[0]);
    }
}

/// The log is read line by line, and each line keeps its number, counted from the first; blank
/// lines are counted and passed over, and a carriage return before the line feed is no part of the
/// line.
pub proof fn law_log_lines_keep_their_numbers(l: Seq<char>, rest: Seq<char>, n: nat)
    requires
        !l.contains('\n'),
    ensures
        ({
            let line = if l.len() > 0 && l.last() == '\r' {
                l.drop_last()
            } else {
                l
            };
            let below = lines_from(rest, 0, n + 1);
            lines_from(l + seq!['\n'] + rest, 0, n) == if trimmed(line).len() == 0 {
                below
            } else {
                seq![(n, line)] + below
            }
        }),
        lines_from(l, 0, n) == if trimmed(l).len() == 0 {
            Seq::<(nat, Seq<char>)>::empty()
        } else {
            seq![(n, l)]
        },
{
    let none = Seq::<char>::empty();
    let s = l + seq!['\n'] + rest;
    lemma_end_of_line(l, seq!['\n'] + rest, 0);
    assert(l + (seq!['\n'] + rest) =~= s);
    let e = l.len() as int;
    assert(s.subrange(0, e) =~= l);
    let front = l + seq!['\n'];
    lemma_lines_move(front, rest, 0, n + 1);
    assert(front.len() == e + 1);
    lemma_end_of_line(l, none, 0);
    assert(l + none =~= l);
    assert(l.subrange(0, e) =~= l);
    if l.len() > 0 {
        let empty = Seq::<(nat, Seq<char>)>::empty();
        assert(seq![(n, l)] + empty =~= seq![(n, l)]);
    } else {
        assert(trimmed(l).len() == 0) by {
            crate::text_laws::law_trimming_takes_only_white_space(l);
        }
    }
}

// ---------- Replaying -------------------------------------------------------

/// A record of a cell puts that cell below its parent, with all that the record holds of it; one
/// that is there already, or whose parent is not, changes nothing.
pub proof fn law_replayed_cells_are_those_recorded(t: TreeV, r: RecordV, other: CellId)
    requires
        r is Cell,
        other != r->Cell_id,
    ensures
        ({
            let u = replay_step(t, r);
            let fits = !t.cells.contains_key(r->Cell_id) && t.cells.contains_key(r->Cell_parent);
            let c = u.cells[r->Cell_id];
            &&& !fits ==> u == t
            &&& fits ==> {
                &&& u.cells.contains_key(r->Cell_id)
                &&& c.id == r->Cell_id && c.parent == Some(r->Cell_parent) && c.submitter
                    == r->Cell_submitter && c.source == r->Cell_source
                &&& c.result matches Some(x)
                &&& x.exit_code == r->Cell_exit_code && x.duration_ms == r->Cell_duration_ms
                    && x.end_state == r->Cell_end_state
                &&& x.stdout == encode_utf8(r->Cell_stdout) && x.stderr == encode_utf8(
                    r->Cell_stderr,
                )
                &&& u.cells.contains_key(other) <==> t.cells.contains_key(other)
                &&& u.cells[other] == t.cells[other]
                &&& u.branches == t.branches
                &&& u.next_id > r->Cell_id || u.next_id == u64::MAX
                &&& u.next_id >= t.next_id
                &&& u.children_of(r->Cell_parent).contains(r->Cell_id)
            }
        }),
{
    let (id, p) = (r->Cell_id, r->Cell_parent);
    if !t.cells.contains_key(id) && t.cells.contains_key(p) {
        let below = t.children_of(p).push(id);
        assert(below[below.len() - 1] == id);
        assert(replay_step(t, r).children_of(p) =~= below);
    }
}

/// Records of branches set, delete and rename the branch that they name, and no other; one that
/// would point at a cell that is not there is passed over, and so is a second root.
pub proof fn law_replayed_branches_are_those_recorded(t: TreeV, r: RecordV, n: Seq<char>)
    ensures
        ({
            let u = replay_step(t, r);
            let same = (u.branches.contains_key(n) <==> t.branches.contains_key(n)) && (
            t.branches.contains_key(n) ==> u.branches[n] == t.branches[n]);
            match r {
                RecordV::SetBranch { name, tip } => {
                    &&& u.cells == t.cells
                    &&& t.cells.contains_key(tip) ==> u.branches.contains_key(name)
                        && u.branches[name] == tip
                    &&& n != name || !t.cells.contains_key(tip) ==> same
                },
                RecordV::DeleteBranch { name } => {
                    &&& u.cells == t.cells
                    &&& !u.branches.contains_key(name)
                    &&& n != name ==> same
                },
                RecordV::RenameBranch { from, to } => {
                    let can = t.branches.contains_key(from) && !t.branches.contains_key(to);
                    &&& u.cells == t.cells
                    &&& can ==> u.branches.contains_key(to) && u.branches[to] == t.branches[from]
                        && !u.branches.contains_key(from)
                    &&& !can || (n != from && n != to) ==> same
                },
                RecordV::Root { .. } => u == t,
                RecordV::Cell { .. } => u.branches == t.branches,
            }
        }),
{
}

/// Records are replayed one after the other, and warned of as they come.
pub proof fn law_records_are_replayed_in_order(t: TreeV, a: Seq<RecordV>, b: Seq<RecordV>)
    ensures
        replay_all(t, a + b) == replay_all(replay_all(t, a), b),
        warnings(t, a + b) == warnings(t, a) + warnings(replay_all(t, a), b),
    decreases b.len(),
{
    if b.len() == 0 {
        assert(a + b =~= a);
        assert(warnings(t, a) + warnings(replay_all(t, a), b) =~= warnings(t, a));
    } else {
        assert((a + b).drop_last() =~= a + b.drop_last());
        assert((a + b).last() == b.last());
        law_records_are_replayed_in_order(t, a, b.drop_last());
        assert(warnings(t, a + b) =~= warnings(t, a) + warnings(replay_all(t, a), b));
    }
}

/// A record is warned of exactly where it is passed over, or where the hash that comes out of
/// replaying a cell is not the one that was logged. To delete or rename is never warned of.
pub proof fn law_what_is_passed_over_is_warned_of(t: TreeV, r: RecordV)
    ensures
        match r {
            RecordV::Cell { id, parent, hash, .. } => warning(t, r) is None
                <==> !t.cells.contains_key(id) && t.cells.contains_key(parent) && replay_step(
                t,
                r,
            ).cells[id].hash == Some(hash),
            RecordV::SetBranch { tip, .. } => warning(t, r) is None <==> t.cells.contains_key(tip),
            RecordV::Root { .. } => warning(t, r) is Some,
            _ => warning(t, r) is None,
        },
{
}

/// A cell is found by its number among those that were sent, and none where none has it.
pub proof fn law_cells_are_found_by_number(cells: Seq<CellSnapshotV>, id: CellId)
    ensures
        match cell_with(cells, id) {
            Some(c) => c.id == id && cells.contains(c),
            None => forall|i: int| 0 <= i < cells.len() ==> (#[trigger] cells[i]).id != id,
        },
    decreases cells.len(),
{
    if cells.len() > 0 {
        let rest = cells.drop_last();
        law_cells_are_found_by_number(rest, id);
        assert(cells[cells.len() - 1] == cells.last());
        if cells.last().id != id {
            if let Some(c) = cell_with(rest, id) {
                let i = choose|i: int| 0 <= i < rest.len() && rest[i] == c;
                assert(cells[i] == c);
            } else {
                assert forall|i: int| 0 <= i < cells.len() implies (#[trigger] cells[i]).id
                    != id by {
                    if i < rest.len() {
                        assert(cells[i] == rest[i]);
                    }
                }
            }
        }
    }
}

} // verus!
