//! The history of a cell in a snapshot of the tree: the cells from the root down to it.

use std::collections::HashMap;
use vstd::prelude::*;

use crate::forest::{
    in_order, law_every_cell_is_listed_in_order, lemma_marked, placed, ranked, sound, unmarked,
};
use crate::snapshot::{cell_snapshot, tree_snapshot};
use crate::tree::{CellId, TreeV};
use crate::wire::{snapshots_view, CellSnapshot, CellSnapshotV, TreeSnapshot};

verus! {

/// The cell of a snapshot with the number. Where several have it, the last counts.
pub open spec fn cell_with(cells: Seq<CellSnapshotV>, id: CellId) -> Option<CellSnapshotV>
    decreases cells.len(),
{
    if cells.len() == 0 {
        None
    } else if cells.last().id == id {
        Some(cells.last())
    } else {
        cell_with(cells.drop_last(), id)
    }
}

/// The cells from the oldest ancestor down to `cur`, if `fuel` steps upward reach the top.
pub open spec fn climb(cells: Seq<CellSnapshotV>, cur: Option<CellId>, fuel: nat) -> Option<
    Seq<CellSnapshotV>,
>
    decreases fuel,
{
    match cur {
        None => Some(Seq::empty()),
        Some(id) => match cell_with(cells, id) {
            None => Some(Seq::empty()),
            Some(c) => if fuel == 0 {
                None
            } else {
                match climb(cells, c.parent, (fuel - 1) as nat) {
                    None => None,
                    Some(above) => Some(above.push(c)),
                }
            },
        },
    }
}

/// The way up from `tip` comes to an end.
pub open spec fn lineage_ends(cells: Seq<CellSnapshotV>, tip: CellId) -> bool {
    exists|fuel: nat| #[trigger] climb(cells, Some(tip), fuel) is Some
}

/// The cells from the oldest ancestor down to `tip`.
pub open spec fn lineage_of(cells: Seq<CellSnapshotV>, tip: CellId) -> Seq<CellSnapshotV> {
    let fuel = choose|fuel: nat| #[trigger] climb(cells, Some(tip), fuel) is Some;
    climb(cells, Some(tip), fuel)->0
}

proof fn lemma_cell_with(cells: Seq<CellSnapshotV>, id: CellId)
    ensures
        cell_with(cells, id) matches Some(c) ==> c.id == id && cells.contains(c),
    decreases cells.len(),
{
    if cells.len() > 0 {
        assert(cells[cells.len() - 1] == cells.last());
        if cells.last().id != id {
            lemma_cell_with(cells.drop_last(), id);
            match cell_with(cells.drop_last(), id) {
                Some(c) => {
                    let i = choose|i: int|
                        0 <= i < cells.drop_last().len() && cells.drop_last()[i] == c;
                    assert(cells[i] == c);
                },
                None => {},
            }
        }
    }
}

/// Every cell ranks above its parent.
spec fn ranks_rise(cells: Seq<CellSnapshotV>, rank: Map<CellId, nat>) -> bool {
    forall|i: int|
        0 <= i < cells.len() ==> ((#[trigger] cells[i]).parent matches Some(p) ==> rank[p]
            < rank[cells[i].id])
}

proof fn lemma_ranks_rise(
    cells: Seq<CellSnapshotV>,
    rank: Map<CellId, nat>,
    cur: Option<CellId>,
    fuel: nat,
)
    requires
        ranks_rise(cells, rank),
        cur matches Some(id) ==> rank[id] < fuel,
    ensures
        climb(cells, cur, fuel) is Some,
    decreases fuel,
{
    match cur {
        Some(id) => {
            lemma_cell_with(cells, id);
            match cell_with(cells, id) {
                Some(c) => {
                    let i = choose|i: int| 0 <= i < cells.len() && cells[i] == c;
                    assert(cells[i].parent matches Some(p) ==> rank[p] < rank[cells[i].id]);
                    lemma_ranks_rise(cells, rank, c.parent, (fuel - 1) as nat);
                },
                None => {},
            }
        },
        None => {},
    }
}

/// In the tree that the daemon sends, the way up from every cell ends.
pub proof fn law_lineages_end(t: TreeV, tip: CellId)
    requires
        sound(t),
    ensures
        lineage_ends(tree_snapshot(t), tip),
{
    let cells = tree_snapshot(t);
    let rank = choose|rank: Map<CellId, nat>| ranked(t.cells, rank);
    law_every_cell_is_listed_in_order(t);
    assert forall|i: int| 0 <= i < cells.len() implies ((#[trigger] cells[i]).parent matches Some(
        p,
    ) ==> rank[p] < rank[cells[i].id]) by {
        let k = in_order(t)[i];
        assert(in_order(t).contains(k));
        assert(t.cells.contains_key(k));
        assert(placed(t, k));
        assert(cells[i] == cell_snapshot(t.cells[k]));
        assert(t.cells[k].parent matches Some(p) ==> rank[p] < rank[k]);
    }
    lemma_ranks_rise(cells, rank, Some(tip), rank[tip] + 1);
}

/// A lineage ends in its tip, each of its cells but the first has the one before as its parent,
/// and the first has no parent, or one that the snapshot lacks.
pub proof fn law_lineages_are_chains(cells: Seq<CellSnapshotV>, tip: CellId)
    requires
        lineage_ends(cells, tip),
    ensures
        lineage_of(cells, tip).len() == 0 <==> cell_with(cells, tip) is None,
        lineage_of(cells, tip).len() > 0 ==> lineage_of(cells, tip).last().id == tip,
        forall|i: int|
            0 < i < lineage_of(cells, tip).len() ==> (#[trigger] lineage_of(cells, tip)[i]).parent
                == Some(lineage_of(cells, tip)[i - 1].id),
        lineage_of(cells, tip).len() > 0 ==> (lineage_of(cells, tip)[0].parent matches Some(p)
            ==> cell_with(cells, p) is None),
        forall|i: int|
            0 <= i < lineage_of(cells, tip).len() ==> cell_with(
                cells,
                (#[trigger] lineage_of(cells, tip)[i]).id,
            ) == Some(lineage_of(cells, tip)[i]),
{
    let fuel = choose|fuel: nat| #[trigger] climb(cells, Some(tip), fuel) is Some;
    lemma_chain(cells, Some(tip), fuel);
}

proof fn lemma_chain(cells: Seq<CellSnapshotV>, cur: Option<CellId>, fuel: nat)
    requires
        climb(cells, cur, fuel) is Some,
    ensures
        ({
            let l = climb(cells, cur, fuel)->0;
            &&& l.len() == 0 <==> (cur matches Some(id) ==> cell_with(cells, id) is None)
            &&& l.len() > 0 ==> cur == Some(l.last().id)
            &&& forall|i: int| 0 < i < l.len() ==> (#[trigger] l[i]).parent == Some(l[i - 1].id)
            &&& l.len() > 0 ==> (l[0].parent matches Some(p) ==> cell_with(cells, p) is None)
            &&& forall|i: int|
                0 <= i < l.len() ==> cell_with(cells, (#[trigger] l[i]).id) == Some(l[i])
        }),
    decreases fuel,
{
    match cur {
        Some(id) => {
            lemma_cell_with(cells, id);
            match cell_with(cells, id) {
                Some(c) => {
                    lemma_chain(cells, c.parent, (fuel - 1) as nat);
                },
                None => {},
            }
        },
        None => {},
    }
}

/// What is referred to.
pub open spec fn referred(v: Seq<&CellSnapshot>) -> Seq<CellSnapshotV> {
    v.map_values(|c: &CellSnapshot| c@)
}

fn index_cells(cells: &Vec<CellSnapshot>) -> (r: HashMap<CellId, usize>)
    ensures
        forall|id: CellId| #[trigger]
            r@.contains_key(id) ==> r@[id] < cells@.len() && cell_with(
                snapshots_view(cells@),
                id,
            ) == Some(cells@[r@[id] as int]@),
        forall|id: CellId| !#[trigger] r@.contains_key(id) ==> cell_with(
            snapshots_view(cells@),
            id,
        ) is None,
{
    broadcast use vstd::std_specs::hash::group_hash_axioms;

    let mut r: HashMap<CellId, usize> = HashMap::new();
    let ghost v = snapshots_view(cells@);
    let mut i: usize = 0;
    while i < cells.len()
        invariant
            i <= cells.len(),
            v == snapshots_view(cells@),
            forall|id: CellId| #[trigger]
                r@.contains_key(id) ==> r@[id] < i && cell_with(v.take(i as int), id) == Some(
                    cells@[r@[id] as int]@,
                ),
            forall|id: CellId| !#[trigger] r@.contains_key(id) ==> cell_with(
                v.take(i as int),
                id,
            ) is None,
        decreases cells.len() - i,
    {
        broadcast use vstd::std_specs::hash::group_hash_axioms;

        let ghost was = r@;
        r.insert(cells[i].id, i);
        proof {
            let t = v.take(i + 1);
            assert(t.drop_last() =~= v.take(i as int));
            assert(t.last() == cells@[i as int]@);
            assert forall|id: CellId| #[trigger]
                r@.contains_key(id) implies r@[id] < i + 1 && cell_with(t, id) == Some(
                cells@[r@[id] as int]@,
            ) by {
                if id != cells@[i as int].id {
                    assert(was.contains_key(id));
                }
            }
            assert forall|id: CellId| !#[trigger] r@.contains_key(id) implies cell_with(
                t,
                id,
            ) is None by {
                assert(!was.contains_key(id));
            }
        }
        i += 1;
    }
    proof {
        assert(v.take(i as int) =~= v);
    }
    r
}

/// The chain of cells from the root down to `tip`, in the order they are shown.
pub fn lineage<'a>(tree: &'a TreeSnapshot, tip: CellId) -> (r: Vec<&'a CellSnapshot>)
    requires
        lineage_ends(tree@, tip),
    ensures
        referred(r@) == lineage_of(tree@, tip),
{
    broadcast use vstd::std_specs::hash::group_hash_axioms;

    let by_id = index_cells(&tree.cells);
    let ghost mut fuel = choose|fuel: nat| #[trigger] climb(tree@, Some(tip), fuel) is Some;
    let mut chain: Vec<usize> = Vec::new();
    let ghost whole = lineage_of(tree@, tip);
    let ghost mut below = Seq::<CellSnapshotV>::empty();
    let mut cur: Option<CellId> = Some(tip);
    proof {
        assert(whole =~= climb(tree@, cur, fuel)->0 + below);
    }
    loop
        invariant
            climb(tree@, cur, fuel) is Some,
            whole == climb(tree@, cur, fuel)->0 + below,
            below.len() == chain@.len(),
            forall|i: int|
                0 <= i < chain@.len() ==> (#[trigger] chain@[i]) < tree.cells@.len()
                    && below[chain@.len() - 1 - i] == tree.cells@[chain@[i] as int]@,
            forall|id: CellId| #[trigger]
                by_id@.contains_key(id) ==> by_id@[id] < tree.cells@.len() && cell_with(
                    tree@,
                    id,
                ) == Some(tree.cells@[by_id@[id] as int]@),
            forall|id: CellId| !#[trigger] by_id@.contains_key(id) ==> cell_with(
                tree@,
                id,
            ) is None,
        ensures
            whole == below,
            below.len() == chain@.len(),
            forall|i: int|
                0 <= i < chain@.len() ==> (#[trigger] chain@[i]) < tree.cells@.len()
                    && below[chain@.len() - 1 - i] == tree.cells@[chain@[i] as int]@,
        decreases fuel,
    {
        broadcast use vstd::std_specs::hash::group_hash_axioms;

        let k: usize = match cur {
            Some(id) => match by_id.get(&id) {
                Some(k) => *k,
                None => {
                    assert(Seq::<CellSnapshotV>::empty() + below =~= below);
                    break;
                },
            },
            None => {
                assert(Seq::<CellSnapshotV>::empty() + below =~= below);
                break;
            },
        };
        let ghost c = tree.cells@[k as int]@;
        let ghost above = climb(tree@, c.parent, (fuel - 1) as nat)->0;
        let ghost was = below;
        let ghost had = chain@;
        chain.push(k);
        cur = tree.cells[k].parent;
        proof {
            below = seq![c] + was;
            assert(above.push(c) + was =~= above + below);
            fuel = (fuel - 1) as nat;
            assert forall|i: int| 0 <= i < chain@.len() implies (#[trigger] chain@[i])
                < tree.cells@.len() && below[chain@.len() - 1 - i]
                == tree.cells@[chain@[i] as int]@ by {
                if i < had.len() {
                    assert(chain@[i] == had[i]);
                    assert(below[chain@.len() - 1 - i] == was[had.len() - 1 - i]);
                }
            }
        }
    }
    let mut r: Vec<&'a CellSnapshot> = Vec::new();
    let mut n: usize = chain.len();
    while n > 0
        invariant
            n <= chain@.len(),
            r@.len() == chain@.len() - n,
            whole.len() == chain@.len(),
            forall|i: int|
                0 <= i < chain@.len() ==> (#[trigger] chain@[i]) < tree.cells@.len()
                    && whole[chain@.len() - 1 - i] == tree.cells@[chain@[i] as int]@,
            forall|j: int| 0 <= j < r@.len() ==> (#[trigger] r@[j])@ == whole[j],
        decreases n,
    {
        n -= 1;
        assert(chain@[n as int] < tree.cells@.len());
        r.push(&tree.cells[chain[n]]);
        assert(whole[chain@.len() - 1 - n] == tree.cells@[chain@[n as int] as int]@);
    }
    assert(referred(r@) =~= whole);
    r
}

// ---------- Whether a lineage ends ------------------------------------------

proof fn lemma_climb_on(
    cells: Seq<CellSnapshotV>,
    cur: Option<CellId>,
    fuel: nat,
    more: nat,
)
    requires
        climb(cells, cur, fuel) is Some,
        fuel <= more,
    ensures
        climb(cells, cur, more) is Some,
    decreases fuel,
{
    if let Some(id) = cur {
        if let Some(c) = cell_with(cells, id) {
            lemma_climb_on(cells, c.parent, (fuel - 1) as nat, (more - 1) as nat);
        }
    }
}

/// The place of the cell with the number, the last where several have it.
fn place_of(cells: &Vec<CellSnapshot>, id: CellId) -> (r: Option<usize>)
    ensures
        match r {
            Some(k) => k < cells.len() && cell_with(snapshots_view(cells@), id) == Some(
                cells@[k as int]@,
            ),
            None => cell_with(snapshots_view(cells@), id) is None,
        },
{
    let ghost v = snapshots_view(cells@);
    let mut n: usize = cells.len();
    assert(v.take(n as int) =~= v);
    while n > 0
        invariant
            n <= cells.len(),
            v == snapshots_view(cells@),
            cell_with(v, id) == cell_with(v.take(n as int), id),
        decreases n,
    {
        assert(v.take(n as int).last() == cells@[n - 1]@);
        assert(v.take(n as int).drop_last() =~= v.take(n - 1));
        n -= 1;
        if cells[n].id == id {
            return Some(n);
        }
    }
    None
}

/// The way up from `cur` is known to end: there is no cell, or it is marked.
spec fn ends_at(cells: Seq<CellSnapshotV>, marks: Seq<bool>, cur: Option<CellId>, k: int) -> bool {
    match cur {
        None => true,
        Some(id) => match cell_with(cells, id) {
            None => true,
            Some(c) => 0 <= k < cells.len() && c == cells[k] && marks[k],
        },
    }
}

/// The way up from `cur` leads to a cell that is not marked.
spec fn goes_to_open(cells: Seq<CellSnapshotV>, marks: Seq<bool>, cur: Option<CellId>) -> bool {
    cur matches Some(id) && cell_with(cells, id) matches Some(c) && exists|k: int|
        0 <= k < cells.len() && #[trigger] cells[k] == c && !marks[k]
}

proof fn lemma_never_ends(
    cells: Seq<CellSnapshotV>,
    marks: Seq<bool>,
    cur: Option<CellId>,
    fuel: nat,
)
    requires
        marks.len() == cells.len(),
        goes_to_open(cells, marks, cur),
        forall|k: int|
            0 <= k < cells.len() && !marks[k] ==> goes_to_open(
                cells,
                marks,
                (#[trigger] cells[k]).parent,
            ),
    ensures
        climb(cells, cur, fuel) is None,
    decreases fuel,
{
    if fuel > 0 {
        let c = cell_with(cells, cur->0)->0;
        let k = choose|k: int| 0 <= k < cells.len() && #[trigger] cells[k] == c && !marks[k];
        lemma_never_ends(cells, marks, cells[k].parent, (fuel - 1) as nat);
    }
}

/// Whether the way up from `cur` is known to end.
fn is_known(cells: &Vec<CellSnapshot>, marks: &Vec<bool>, cur: Option<CellId>) -> (r: bool)
    requires
        marks.len() == cells.len(),
    ensures
        r ==> exists|k: int| #[trigger] ends_at(snapshots_view(cells@), marks@, cur, k),
        !r ==> goes_to_open(snapshots_view(cells@), marks@, cur),
{
    let ghost v = snapshots_view(cells@);
    match cur {
        None => {
            assert(ends_at(v, marks@, cur, 0));
            true
        },
        Some(id) => match place_of(cells, id) {
            None => {
                assert(ends_at(v, marks@, cur, 0));
                true
            },
            Some(k) => {
                assert(v[k as int] == cells@[k as int]@);
                if marks[k] {
                    assert(ends_at(v, marks@, cur, k as int));
                }
                marks[k]
            },
        },
    }
}

/// Whether the way up from a cell of a snapshot comes to an end. A cell is marked once the way up
/// from its parent is known to end; what is never marked is its own ancestor or below one.
pub fn has_lineage(tree: &TreeSnapshot, tip: CellId) -> (r: bool)
    ensures
        r == lineage_ends(tree@, tip),
{
    let cells = &tree.cells;
    let ghost v = tree@;
    let n: usize = cells.len();
    let mut marks: Vec<bool> = Vec::new();
    while marks.len() < n
        invariant
            marks.len() <= n,
            forall|j: int| 0 <= j < marks.len() ==> !#[trigger] marks@[j],
        decreases n - marks.len(),
    {
        marks.push(false);
    }
    let ghost mut fuel: nat = 0;
    let mut changed: bool = true;
    while changed
        invariant
            n == cells.len(),
            marks.len() == n,
            v == snapshots_view(cells@),
            forall|j: int|
                0 <= j < n && #[trigger] marks@[j] ==> climb(v, v[j].parent, fuel) is Some,
            !changed ==> forall|k: int|
                0 <= k < n && !marks@[k] ==> goes_to_open(v, marks@, (#[trigger] v[k]).parent),
        decreases unmarked(marks@) + if changed { 1nat } else { 0nat },
    {
        let ghost before = unmarked(marks@);
        changed = false;
        let mut i: usize = 0;
        while i < n
            invariant
                i <= n,
                n == cells.len(),
                marks.len() == n,
                v == snapshots_view(cells@),
                forall|j: int|
                    0 <= j < n && #[trigger] marks@[j] ==> climb(v, v[j].parent, fuel) is Some,
                !changed ==> unmarked(marks@) == before && forall|k: int|
                    0 <= k < i && !marks@[k] ==> goes_to_open(
                        v,
                        marks@,
                        (#[trigger] v[k]).parent,
                    ),
                changed ==> unmarked(marks@) < before,
            decreases n - i,
        {
            assert(v[i as int] == cells@[i as int]@);
            let up = cells[i].parent;
            if !marks[i] && is_known(cells, &marks, up) {
                proof {
                    lemma_known(v, marks@, up, fuel);
                    assert forall|j: int| 0 <= j < n && #[trigger] marks@[j] implies climb(
                        v,
                        v[j].parent,
                        fuel + 1,
                    ) is Some by {
                        lemma_climb_on(v, v[j].parent, fuel, fuel + 1);
                    }
                    lemma_marked(marks@, i as int);
                    fuel = fuel + 1;
                }
                marks.set(i, true);
                changed = true;
            }
            i += 1;
        }
    }
    let known = is_known(cells, &marks, Some(tip));
    proof {
        if known {
            lemma_known(v, marks@, Some(tip), fuel);
        } else {
            assert forall|f: nat| #[trigger] climb(v, Some(tip), f) is None by {
                lemma_never_ends(v, marks@, Some(tip), f);
            }
        }
    }
    known
}

proof fn lemma_known(cells: Seq<CellSnapshotV>, marks: Seq<bool>, cur: Option<CellId>, fuel: nat)
    requires
        marks.len() == cells.len(),
        exists|k: int| #[trigger] ends_at(cells, marks, cur, k),
        forall|j: int|
            0 <= j < cells.len() && #[trigger] marks[j] ==> climb(
                cells,
                cells[j].parent,
                fuel,
            ) is Some,
    ensures
        climb(cells, cur, fuel + 1) is Some,
{
    let k = choose|k: int| #[trigger] ends_at(cells, marks, cur, k);
    if let Some(id) = cur {
        if let Some(c) = cell_with(cells, id) {
            assert(marks[k]);
            assert(c == cells[k]);
        }
    }
}

} // verus!
