//! The tree as clients see it.

use vstd::prelude::*;

use crate::eval::{in_tty_mode, tty_mode};
use crate::forest::{in_order, lemma_in_order_cells, sort_ids, walk_cells, walk_ends};
use crate::names::{listing, texts};
use crate::text::{as_text, copy_opt, text_of_bytes};
use crate::tree::{Cell, CellId, CellV, Tree, TreeV};
use crate::wire::{
    branches_view, BranchSnapshot, BranchSnapshotV, CellSnapshot, CellSnapshotV, TreeSnapshot,
};

verus! {

/// A cell as clients see it. A running cell has no exit code, no output and no hash.
pub open spec fn cell_snapshot(c: CellV) -> CellSnapshotV {
    CellSnapshotV {
        id: c.id,
        parent: c.parent,
        submitter: c.submitter,
        source: c.source,
        exit_code: match c.result {
            Some(r) => Some(r.exit_code),
            None => None,
        },
        duration_ms: match c.result {
            Some(r) => r.duration_ms,
            None => 0,
        },
        stdout: match c.result {
            Some(r) => as_text(r.stdout),
            None => Seq::empty(),
        },
        stderr: match c.result {
            Some(r) => as_text(r.stderr),
            None => Seq::empty(),
        },
        hash: c.hash,
    }
}

/// A cell as clients see it.
pub fn snapshot_cell(c: &Cell) -> (r: CellSnapshot)
    ensures
        r@ == cell_snapshot(c@),
{
    let (exit_code, duration_ms, stdout, stderr) = match &c.result {
        Some(r) => (
            Some(r.exit_code),
            r.duration_ms,
            text_of_bytes(r.stdout.as_slice()),
            text_of_bytes(r.stderr.as_slice()),
        ),
        None => (None, 0, String::new(), String::new()),
    };
    let s = CellSnapshot {
        id: c.id,
        parent: c.parent,
        submitter: c.submitter.clone(),
        source: c.source.clone(),
        exit_code,
        duration_ms,
        stdout,
        stderr,
        hash: copy_opt(&c.hash),
    };
    assert(s@.stdout =~= cell_snapshot(c@).stdout);
    assert(s@.stderr =~= cell_snapshot(c@).stderr);
    s
}

/// A branch as clients see it. While its tip runs it has no tip hash, and it is in terminal mode
/// when the state that the next command would inherit is.
pub open spec fn branch_snapshot(t: TreeV, name: Seq<char>, tip: CellId) -> BranchSnapshotV {
    let running = t.cells.contains_key(tip) && t.cells[tip].result is None;
    BranchSnapshotV {
        name,
        tip,
        tip_hash: if running || !t.cells.contains_key(tip) {
            None
        } else {
            t.cells[tip].hash
        },
        running,
        tty: t.cells.contains_key(tip) && match t.cells[tip].result {
            Some(r) => in_tty_mode(r.end_state),
            None => false,
        },
    }
}

/// The branches as clients see them, sorted by name.
pub open spec fn branch_snapshots(t: TreeV) -> Seq<BranchSnapshotV> {
    listing(t.branches).map_values(|e: (Seq<char>, CellId)| branch_snapshot(t, e.0, e.1))
}

fn snapshot_branch(t: &Tree, name: &str, tip: CellId) -> (r: BranchSnapshot)
    ensures
        r@ == branch_snapshot(t@, name@, tip),
{
    let (tip_hash, running, tty) = match t.get(tip) {
        None => (None, false, false),
        Some(c) => match &c.result {
            None => (None, true, false),
            Some(r) => (copy_opt(&c.hash), false, tty_mode(&r.end_state)),
        },
    };
    BranchSnapshot { name: name.to_owned(), tip, tip_hash, running, tty }
}

/// The branches as clients see them, sorted by name.
pub fn snapshot_branches(t: &Tree) -> (r: Vec<BranchSnapshot>)
    ensures
        branches_view(r@) == branch_snapshots(t@),
{
    let entries = t.branches();
    let ghost l = listing(t@.branches);
    let mut out: Vec<BranchSnapshot> = Vec::new();
    let mut i: usize = 0;
    while i < entries.len()
        invariant
            i <= entries.len(),
            l == texts(entries@),
            l == listing(t@.branches),
            out@.len() == i,
            forall|k: int|
                0 <= k < i ==> (#[trigger] out@[k])@ == branch_snapshot(t@, l[k].0, l[k].1),
        decreases entries.len() - i,
    {
        assert(l[i as int] == (entries@[i as int].0@, entries@[i as int].1));
        out.push(snapshot_branch(t, entries[i].0.as_str(), entries[i].1));
        i += 1;
    }
    assert(branches_view(out@) =~= branch_snapshots(t@));
    out
}

/// All cells that are met from the root on, in the order of their numbers.
pub open spec fn tree_snapshot(t: TreeV) -> Seq<CellSnapshotV> {
    in_order(t).map_values(|k: CellId| cell_snapshot(t.cells[k]))
}

/// All cells that are met from the root on, in the order of their numbers.
pub fn snapshot_tree(t: &Tree) -> (r: TreeSnapshot)
    requires
        walk_ends(t@),
    ensures
        r@ == tree_snapshot(t@),
{
    let met = walk_cells(t);
    let ids = sort_ids(&met);
    proof {
        lemma_in_order_cells(t@);
        assert(ids@ == in_order(t@));
    }
    let mut cells: Vec<CellSnapshot> = Vec::new();
    let mut i: usize = 0;
    while i < ids.len()
        invariant
            i <= ids.len(),
            ids@ == in_order(t@),
            forall|k: int| 0 <= k < ids.len() ==> t@.cells.contains_key(#[trigger] ids@[k]),
            cells@.len() == i,
            forall|k: int|
                0 <= k < i ==> (#[trigger] cells@[k])@ == cell_snapshot(t@.cells[ids@[k]]),
        decreases ids.len() - i,
    {
        match t.get(ids[i]) {
            Some(c) => {
                cells.push(snapshot_cell(c));
            },
            None => {},
        }
        i += 1;
    }
    let r = TreeSnapshot { cells };
    assert(r@ =~= tree_snapshot(t@));
    r
}

} // verus!
