//! What the log keeps: that the tree comes back from it.

use vstd::prelude::*;
use vstd::utf8::*;

use crate::daemon::{
    answered, branches_at, completion_records, kept, result_of, submit_verdict, submitted, EndingV,
    SubmitV, TranscriptV,
};
use crate::forest::{
    in_order, law_branches_keep_trees_sound, law_every_cell_is_listed_in_order,
    law_new_trees_are_sound, law_restoring_keeps_trees_sound, placed,
};
use crate::names::{lemma_listing, lemma_map_of_at, listable, listing, map_of};
use crate::snapshot::tree_snapshot;
use crate::store::{
    cell_of, recorded, records_view, replay_all, replay_logged, replay_step, replayed, warning,
    warnings, Record, RecordV,
};
use crate::tree::{
    root_cell, strings, CellId, CellV, ResultV, State, StateV, SystemInfo, SystemInfoV, Tree,
    TreeV, DEFAULT_BRANCH,
};
use crate::wire::RequestV;

verus! {

// ---------- What is kept ----------------------------------------------------

/// No cell of the tree is running.
pub open spec fn at_rest(t: TreeV) -> bool {
    forall|k: CellId| #[trigger] t.cells.contains_key(k) ==> t.cells[k].result is Some
}

/// `u` is what a restart would make of `t`: its finished cells as they are, and its branches,
/// except that a branch whose tip is running may be missing or lag behind.
pub open spec fn comes_back(u: TreeV, t: TreeV) -> bool {
    &&& forall|k: CellId| #[trigger]
        u.cells.contains_key(k) <==> (t.cells.contains_key(k) && t.cells[k].result is Some)
    &&& forall|k: CellId| #[trigger] u.cells.contains_key(k) ==> u.cells[k] == t.cells[k]
    &&& u.next_id <= t.next_id
    &&& forall|n: Seq<char>| #[trigger]
        u.branches.contains_key(n) ==> t.branches.contains_key(n)
    &&& forall|n: Seq<char>| #[trigger]
        t.branches.contains_key(n) ==> (t.cells[t.branches[n]].result is Some
            ==> u.branches.contains_key(n) && u.branches[n] == t.branches[n])
}

/// The tree comes back from the log.
pub open spec fn persisted(log: Seq<RecordV>, t: TreeV) -> bool {
    replayed(log) matches Some(u) && comes_back(u, t)
}

// ---------- Replaying -------------------------------------------------------

proof fn lemma_replay_append(t: TreeV, a: Seq<RecordV>, b: Seq<RecordV>)
    ensures
        replay_all(t, a + b) == replay_all(replay_all(t, a), b),
    decreases b.len(),
{
    if b.len() == 0 {
        assert(a + b =~= a);
    } else {
        assert((a + b).drop_last() =~= a + b.drop_last());
        lemma_replay_append(t, a, b.drop_last());
    }
}

proof fn lemma_replayed_append(log: Seq<RecordV>, more: Seq<RecordV>)
    requires
        replayed(log) is Some,
    ensures
        replayed(log + more) == Some(replay_all(replayed(log)->0, more)),
{
    let start = TreeV::planted(log[0]->Root_state, log[0]->Root_sysinfo);
    assert((log + more)[0] == log[0]);
    assert((log + more).drop_first() =~= log.drop_first() + more);
    lemma_replay_append(start, log.drop_first(), more);
}

proof fn lemma_step_keeps(t: TreeV, r: RecordV)
    requires
        kept(t),
        at_rest(t),
    ensures
        kept(replay_step(t, r)),
        at_rest(replay_step(t, r)),
{
    let u = replay_step(t, r);
    match r {
        RecordV::Cell { id, parent, .. } => {
            if !t.cells.contains_key(id) && t.cells.contains_key(parent) {
                law_restoring_keeps_trees_sound(t, parent, cell_of(r));
                assert forall|n: Seq<char>| #[trigger] u.branches.contains_key(n) implies u.cells
                    .contains_key(u.branches[n]) by {
                    assert(t.branches.contains_key(n));
                }
            }
        },
        _ => {
            law_branches_keep_trees_sound(t, u.branches);
            assert(u =~= TreeV { branches: u.branches, ..t });
        },
    }
}

proof fn lemma_replay_keeps(t: TreeV, rs: Seq<RecordV>)
    requires
        kept(t),
        at_rest(t),
    ensures
        kept(replay_all(t, rs)),
        at_rest(replay_all(t, rs)),
    decreases rs.len(),
{
    if rs.len() > 0 {
        lemma_replay_keeps(t, rs.drop_last());
        lemma_step_keeps(replay_all(t, rs.drop_last()), rs.last());
    }
}

proof fn lemma_planted(state: StateV, info: SystemInfoV)
    ensures
        kept(TreeV::planted(state, info)),
        at_rest(TreeV::planted(state, info)),
{
    law_new_trees_are_sound(state, info);
}

/// Whatever a log holds, what it replays to is a tree that the daemon keeps, and in which no cell
/// is running.
pub proof fn law_replayed_trees_are_kept(log: Seq<RecordV>)
    ensures
        replayed(log) matches Some(u) ==> kept(u) && at_rest(u),
{
    if replayed(log) is Some {
        let info = log[0]->Root_sysinfo;
        lemma_planted(log[0]->Root_state, info);
        lemma_replay_keeps(TreeV::planted(log[0]->Root_state, info), log.drop_first());
    }
}

// ---------- Every operation keeps the log in step ---------------------------

proof fn lemma_comes_back_itself(t: TreeV)
    requires
        kept(t),
        at_rest(t),
    ensures
        comes_back(t, t),
{
}

/// A new store holds the new tree.
pub proof fn law_new_stores_hold_their_root(state: StateV, sysinfo: SystemInfoV)
    ensures
        persisted(seq![RecordV::Root { state, sysinfo }], TreeV::planted(state, sysinfo)),
{
    let log = seq![RecordV::Root { state, sysinfo }];
    let t = TreeV::planted(state, sysinfo);
    assert(log.drop_first() =~= Seq::<RecordV>::empty());
    lemma_planted(state, sysinfo);
    lemma_comes_back_itself(t);
}

/// What a request that is answered at once does to the tree, its records do to what comes back.
pub proof fn law_answers_are_persisted(log: Seq<RecordV>, t: TreeV, req: RequestV)
    requires
        kept(t),
        persisted(log, t),
    ensures
        answered(t, req) matches Some((now, _, records)) ==> persisted(log + records, now),
{
    let u = replayed(log)->0;
    if let Some((now, r, records)) = answered(t, req) {
        lemma_replayed_append(log, records);
        let none = Seq::<RecordV>::empty();
        if records.len() == 0 {
            assert(replay_all(u, records) == u);
        } else {
            let rec = records[0];
            assert(records.drop_last() =~= none);
            assert(records.last() == rec);
            assert(replay_all(u, records.drop_last()) == u);
            assert(replay_all(u, records) == replay_step(u, rec));
            let v = replay_step(u, rec);
            match req {
                RequestV::CreateBranch { name, at } => {
                    assert(now.branches == t.branches.insert(name, at));
                    assert forall|n: Seq<char>|
                        #[trigger] now.branches.contains_key(n)
                            && now.cells[now.branches[n]].result is Some implies v.branches.contains_key(n)
                            && v.branches[n] == now.branches[n] by {
                        if n != name {
                            assert(t.branches.contains_key(n));
                        }
                    }
                },
                RequestV::DeleteBranch { name } => {
                    assert forall|n: Seq<char>|
                        #[trigger] now.branches.contains_key(n)
                            && now.cells[now.branches[n]].result is Some implies v.branches.contains_key(n)
                            && v.branches[n] == now.branches[n] by {
                        assert(t.branches.contains_key(n));
                    }
                },
                RequestV::RenameBranch { from, to } => {
                    assert(t.branches.contains_key(from));
                    assert forall|n: Seq<char>|
                        #[trigger] now.branches.contains_key(n)
                            && now.cells[now.branches[n]].result is Some implies v.branches.contains_key(n)
                            && v.branches[n] == now.branches[n] by {
                        if n != to {
                            assert(t.branches.contains_key(n));
                        }
                    }
                },
                _ => {},
            }
        }
    }
}

/// A submitted line leaves nothing in the log, and what comes back does not change: running
/// cells are not persisted.
pub proof fn law_submits_are_persisted(
    log: Seq<RecordV>,
    t: TreeV,
    branch: Seq<char>,
    parent: Option<CellId>,
    fork: Seq<char>,
    source: Seq<char>,
    who: Seq<char>,
)
    requires
        kept(t),
        t.next_id < u64::MAX,
        persisted(log, t),
    ensures
        persisted(log, submitted(t, submit_verdict(t, branch, parent, fork), source, who)),
{
    let u = replayed(log)->0;
    let v = submit_verdict(t, branch, parent, fork);
    if let SubmitV::Accepted { id, parent: p, branch: b, .. } = v {
        let now = submitted(t, v, source, who);
        assert(!t.cells.contains_key(id)) by {
            if t.cells.contains_key(id) {
                assert(placed(t, id));
            }
        }
        assert forall|n: Seq<char>|
            #[trigger] now.branches.contains_key(n)
                && now.cells[now.branches[n]].result is Some implies u.branches.contains_key(n)
                && u.branches[n] == now.branches[n] by {
            if n != b {
                assert(t.branches.contains_key(n));
            }
        }
        assert forall|n: Seq<char>| #[trigger] u.branches.contains_key(n) implies now.branches
            .contains_key(n) by {
            assert(t.branches.contains_key(n));
        }
    }
}

/// A name of the listing `l` points at `id`.
spec fn points(l: Seq<(Seq<char>, CellId)>, n: Seq<char>, id: CellId) -> bool {
    exists|i: int| 0 <= i < l.len() && (#[trigger] l[i]) == (n, id)
}

proof fn lemma_replay_branches(u: TreeV, l: Seq<(Seq<char>, CellId)>, id: CellId)
    requires
        u.cells.contains_key(id),
    ensures
        ({
            let v = replay_all(u, branches_at(l, id));
            &&& v.cells == u.cells
            &&& v.next_id == u.next_id
            &&& forall|n: Seq<char>| #[trigger]
                v.branches.contains_key(n) <==> (u.branches.contains_key(n) || points(l, n, id))
            &&& forall|n: Seq<char>| #[trigger]
                v.branches.contains_key(n) ==> v.branches[n] == if points(l, n, id) {
                    id
                } else {
                    u.branches[n]
                }
        }),
    decreases l.len(),
{
    if l.len() > 0 {
        let before = l.drop_last();
        lemma_replay_branches(u, before, id);
        let e = l.last();
        let v0 = replay_all(u, branches_at(before, id));
        let v = replay_all(u, branches_at(l, id));
        if e.1 == id {
            let rec = RecordV::SetBranch { name: e.0, tip: id };
            assert(branches_at(l, id).drop_last() =~= branches_at(before, id));
            assert(branches_at(l, id).last() == rec);
            assert(v == v0.with_branch(e.0, id));
        }
        assert forall|n: Seq<char>| points(l, n, id) <==> (points(before, n, id) || (e == (
            n,
            id,
        ))) by {
            if points(l, n, id) {
                let i = choose|i: int| 0 <= i < l.len() && (#[trigger] l[i]) == (n, id);
                if i < before.len() {
                    assert(before[i] == (n, id));
                }
            }
            if points(before, n, id) {
                let i = choose|i: int| 0 <= i < before.len() && (#[trigger] before[i]) == (n, id);
                assert(l[i] == (n, id));
            }
            if e == (n, id) {
                assert(l[l.len() - 1] == (n, id));
            }
        }
    }
}

proof fn lemma_points(m: Map<Seq<char>, CellId>, n: Seq<char>, id: CellId)
    requires
        listable(m),
    ensures
        points(listing(m), n, id) <==> (m.contains_key(n) && m[n] == id),
{
    let l = listing(m);
    lemma_listing(m);
    if points(l, n, id) {
        let i = choose|i: int| 0 <= i < l.len() && (#[trigger] l[i]) == (n, id);
        lemma_map_of_at(l, i);
    }
    if m.contains_key(n) && m[n] == id {
        assert(map_of(l).contains_key(n));
        let i = choose|i: int| 0 <= i < l.len() && (#[trigger] l[i]).0 == n;
        lemma_map_of_at(l, i);
        assert(l[i] == (n, id));
    }
}

proof fn lemma_cell_comes_back(t: TreeV, id: CellId, r: ResultV, u: TreeV)
    requires
        kept(t),
        t.cells.contains_key(id),
        t.cells[id].result is None,
        valid_utf8(r.stdout),
        valid_utf8(r.stderr),
        comes_back(u, t),
    ensures
        ({
            let now = t.finished(id, r);
            &&& recorded(now.cells[id]) matches Some(rec)
            &&& rec is Cell
            &&& rec->Cell_id == id
            &&& !u.cells.contains_key(id)
            &&& u.cells.contains_key(rec->Cell_parent)
            &&& u.sealed(Some(rec->Cell_parent), cell_of(rec)) == now.cells[id]
        }),
{
    let now = t.finished(id, r);
    assert(placed(t, id));
    assert(!u.cells.contains_key(id));
    let p = t.cells[id].parent->0;
    assert(t.cells.contains_key(p));
    assert(u.cells.contains_key(p));
    let rec = recorded(now.cells[id])->0;
    decode_utf8_encode_utf8(r.stdout);
    decode_utf8_encode_utf8(r.stderr);
    let c = CellV { result: Some(r), ..t.cells[id] };
    assert(cell_of(rec).result == c.result);
    assert(u.hash_above(Some(p)) == t.hash_above(Some(p)));
    assert(now.cells[id] == t.sealed(Some(p), c));
}

/// A completed cell and the branches that point at it come back.
#[verifier::spinoff_prover]
#[verifier::rlimit(40)]
pub proof fn law_completions_are_persisted(log: Seq<RecordV>, t: TreeV, id: CellId, r: ResultV)
    requires
        kept(t),
        listable(t.branches),
        t.cells.contains_key(id),
        t.cells[id].result is None,
        valid_utf8(r.stdout),
        valid_utf8(r.stderr),
        persisted(log, t),
    ensures
        persisted(log + completion_records(t.finished(id, r), id), t.finished(id, r)),
{
    let u = replayed(log)->0;
    let now = t.finished(id, r);
    lemma_cell_comes_back(t, id, r, u);
    assert(placed(t, id));
    let rec = recorded(now.cells[id])->0;
    let p = rec->Cell_parent;
    let l = listing(now.branches);
    let names = branches_at(l, id);
    lemma_replayed_append(log, seq![rec] + names);
    lemma_replay_append(u, seq![rec], names);
    assert(seq![rec].drop_last() =~= Seq::<RecordV>::empty());
    assert(replay_all(u, seq![rec].drop_last()) == u);
    let u1 = replay_step(u, rec);
    assert(replay_all(u, seq![rec]) == u1);
    assert(u1 == u.restored(p, cell_of(rec)));
    lemma_replay_branches(u1, l, id);
    let v = replay_all(u1, names);
    assert forall|n: Seq<char>| points(l, n, id) <==> (now.branches.contains_key(n)
        && now.branches[n] == id) by {
        lemma_points(now.branches, n, id);
    }
    assert forall|k: CellId| #[trigger] v.cells.contains_key(k) implies v.cells[k]
        == now.cells[k] by {
        if k != id {
            assert(u.cells.contains_key(k));
        }
    }
    assert forall|k: CellId| #[trigger] v.cells.contains_key(k) <==> (now.cells.contains_key(k)
        && now.cells[k].result is Some) by {
        if k != id {
            assert(u.cells.contains_key(k) <==> (t.cells.contains_key(k)
                && t.cells[k].result is Some));
        }
    }
    assert forall|n: Seq<char>|
        #[trigger] now.branches.contains_key(n)
            && now.cells[now.branches[n]].result is Some implies v.branches.contains_key(n)
            && v.branches[n] == now.branches[n] by {
        assert(t.branches.contains_key(n));
        assert(points(l, n, id) <==> now.branches[n] == id);
        if now.branches[n] != id && now.cells[now.branches[n]].result is Some {
            assert(u.branches.contains_key(n));
        }
    }
    assert forall|n: Seq<char>| #[trigger] v.branches.contains_key(n) implies now.branches
        .contains_key(n) by {
        if !points(l, n, id) {
            assert(u.branches.contains_key(n));
        }
    }
}

/// The hash that a finished cell is logged with comes out again when the log is replayed, so that
/// nothing is said of it.
pub proof fn law_logged_hashes_come_out_again(log: Seq<RecordV>, t: TreeV, id: CellId, r: ResultV)
    requires
        kept(t),
        t.cells.contains_key(id),
        t.cells[id].result is None,
        valid_utf8(r.stdout),
        valid_utf8(r.stderr),
        persisted(log, t),
    ensures
        recorded(t.finished(id, r).cells[id]) matches Some(rec) && warning(
            replayed(log)->0,
            rec,
        ) is None,
{
    let u = replayed(log)->0;
    lemma_cell_comes_back(t, id, r, u);
}

/// What the daemon records as output is text, so it comes back as it was.
pub proof fn law_recorded_output_is_text(
    start: StateV,
    ending: EndingV,
    t: TranscriptV,
    duration_ms: u64,
)
    ensures
        ({
            let r = result_of(start, ending, t, duration_ms);
            valid_utf8(r.stdout) && valid_utf8(r.stderr)
        }),
{
    broadcast use encode_utf8_valid_utf8;

}

// ---------- The tree survives a restart -------------------------------------

proof fn lemma_same_listing(a: Seq<CellId>, b: Seq<CellId>)
    requires
        forall|i: int, j: int| 0 <= i < j < a.len() ==> #[trigger] a[i] < #[trigger] a[j],
        forall|i: int, j: int| 0 <= i < j < b.len() ==> #[trigger] b[i] < #[trigger] b[j],
        forall|k: CellId| a.contains(k) <==> #[trigger] b.contains(k),
    ensures
        a == b,
    decreases a.len(),
{
    if a.len() == 0 {
        if b.len() > 0 {
            assert(b.contains(b[0]));
            assert(a.contains(b[0]));
        }
        assert(a =~= b);
    } else {
        assert(a.contains(a[0]));
        assert(b.contains(a[0]));
        let x = a.last();
        assert(a.contains(x));
        assert(b.contains(x));
        let y = b.last();
        assert(b.contains(y));
        assert(a.contains(y));
        let i = choose|i: int| 0 <= i < a.len() && a[i] == y;
        let j = choose|j: int| 0 <= j < b.len() && b[j] == x;
        if i < a.len() - 1 {
            assert(a[i] < a[a.len() - 1]);
        }
        if j < b.len() - 1 {
            assert(b[j] < b[b.len() - 1]);
        }
        assert(x == y);
        let a1 = a.drop_last();
        let b1 = b.drop_last();
        assert forall|k: CellId| a1.contains(k) <==> #[trigger] b1.contains(k) by {
            if a1.contains(k) {
                let m = choose|m: int| 0 <= m < a1.len() && a1[m] == k;
                assert(a[m] == k);
                assert(a[m] < a[a.len() - 1]);
                assert(a.contains(k));
                assert(b.contains(k));
                let n = choose|n: int| 0 <= n < b.len() && b[n] == k;
                assert(b1[n] == k);
            }
            if b1.contains(k) {
                let m = choose|m: int| 0 <= m < b1.len() && b1[m] == k;
                assert(b[m] == k);
                assert(b[m] < b[b.len() - 1]);
                assert(b.contains(k));
                assert(a.contains(k));
                let n = choose|n: int| 0 <= n < a.len() && a[n] == k;
                assert(a1[n] == k);
            }
        }
        lemma_same_listing(a1, b1);
        assert(a =~= a1.push(x));
        assert(b =~= b1.push(y));
    }
}

/// The tree survives a restart: where no cell is running, what comes back from the log has the
/// same cells, with the same hashes, and the same branches, and clients see the same tree.
pub proof fn law_the_tree_survives_a_restart(log: Seq<RecordV>, t: TreeV)
    requires
        kept(t),
        persisted(log, t),
        at_rest(t),
    ensures
        replayed(log) matches Some(u) && u.cells == t.cells && u.branches == t.branches
            && tree_snapshot(u) == tree_snapshot(t),
{
    let u = replayed(log)->0;
    assert(u.cells =~= t.cells);
    assert forall|n: Seq<char>| #[trigger] t.branches.contains_key(n) implies u.branches
        .contains_key(n) && u.branches[n] == t.branches[n] by {
        assert(t.cells.contains_key(t.branches[n]));
    }
    assert forall|n: Seq<char>| #[trigger] u.branches.contains_key(n) implies t.branches
        .contains_key(n) by {}
    assert(u.branches =~= t.branches);
    law_replayed_trees_are_kept(log);
    law_every_cell_is_listed_in_order(u);
    law_every_cell_is_listed_in_order(t);
    assert forall|k: CellId| in_order(u).contains(k) <==> #[trigger] in_order(t).contains(k) by {
        assert(in_order(u).contains(k) <==> u.cells.contains_key(k));
        assert(in_order(t).contains(k) <==> t.cells.contains_key(k));
    }
    lemma_same_listing(in_order(u), in_order(t));
    assert(tree_snapshot(u) =~= tree_snapshot(t));
}

// ---------- A log written from a tree ---------------------------------------

/// The records of some cells.
pub open spec fn cell_records(t: TreeV, ids: Seq<CellId>) -> Seq<RecordV> {
    ids.map_values(|id: CellId| recorded(t.cells[id])->0)
}

/// The records of some branches.
pub open spec fn branch_records(l: Seq<(Seq<char>, CellId)>) -> Seq<RecordV> {
    l.map_values(|e: (Seq<char>, CellId)| RecordV::SetBranch { name: e.0, tip: e.1 })
}

/// `ids` are the numbers of all cells but the root, in order.
pub open spec fn numbers_of(t: TreeV, ids: Seq<CellId>) -> bool {
    &&& forall|i: int, j: int| 0 <= i < j < ids.len() ==> ids[i] < ids[j]
    &&& forall|k: CellId| #[trigger] t.cells.contains_key(k) <==> (k == 0 || ids.contains(k))
    &&& !ids.contains(0)
}

/// `l` holds all branches, each with its tip.
pub open spec fn branches_of(t: TreeV, l: Seq<(Seq<char>, CellId)>) -> bool {
    &&& forall|i: int|
        0 <= i < l.len() ==> t.branches.contains_key((#[trigger] l[i]).0)
            && t.branches[l[i].0] == l[i].1
    &&& forall|n: Seq<char>| #[trigger] t.branches.contains_key(n) ==> named(l, n)
}

/// A branch of `l` has the name.
pub open spec fn named(l: Seq<(Seq<char>, CellId)>, n: Seq<char>) -> bool {
    exists|i: int| 0 <= i < l.len() && (#[trigger] l[i]).0 == n
}

/// Every cell is older than its children, and what it wrote is text.
pub open spec fn is_writable(t: TreeV) -> bool {
    forall|k: CellId| #[trigger]
        t.cells.contains_key(k) ==> {
            &&& t.cells[k].parent matches Some(p) ==> p < k
            &&& t.cells[k].result matches Some(r) ==> valid_utf8(r.stdout) && valid_utf8(r.stderr)
        }
}

/// The number behind a number, as far as there is one.
pub open spec fn behind(id: CellId) -> CellId {
    if id == u64::MAX {
        id
    } else {
        (id + 1) as u64
    }
}

proof fn lemma_cells_written(t: TreeV, state: StateV, sysinfo: SystemInfoV, ids: Seq<CellId>, m: int)
    requires
        kept(t),
        at_rest(t),
        is_writable(t),
        t.cells[0] == root_cell(state, sysinfo),
        numbers_of(t, ids),
        0 <= m <= ids.len(),
    ensures
        ({
            let u = TreeV::planted(state, sysinfo);
            let v = replay_all(u, cell_records(t, ids.take(m)));
            &&& forall|k: CellId| #[trigger]
                v.cells.contains_key(k) <==> (k == 0 || ids.take(m).contains(k))
            &&& forall|k: CellId| #[trigger] v.cells.contains_key(k) ==> v.cells[k] == t.cells[k]
            &&& v.branches == u.branches
            &&& v.next_id == if m == 0 {
                1
            } else {
                behind(ids[m - 1])
            }
        }),
    decreases m,
{
    let u = TreeV::planted(state, sysinfo);
    let rs = cell_records(t, ids.take(m));
    if m > 0 {
        let before = ids.take(m - 1);
        let id = ids[m - 1];
        lemma_cells_written(t, state, sysinfo, ids, m - 1);
        assert(ids.take(m).drop_last() =~= before);
        assert(rs.drop_last() =~= cell_records(t, before));
        let rec = recorded(t.cells[id])->0;
        assert(rs.last() == rec);
        let v = replay_all(u, cell_records(t, before));
        assert(ids.contains(id));
        assert(t.cells.contains_key(id));
        assert(placed(t, id));
        let c = t.cells[id];
        let p = c.parent->0;
        assert(p < id);
        assert(v.cells.contains_key(p)) by {
            if p != 0 {
                assert(t.cells.contains_key(p));
                let i = choose|i: int| 0 <= i < ids.len() && ids[i] == p;
                assert(i < m - 1);
                assert(before[i] == p);
            }
        }
        assert(!before.contains(id)) by {
            if before.contains(id) {
                let i = choose|i: int| 0 <= i < before.len() && before[i] == id;
                assert(ids[i] < ids[m - 1]);
            }
        }
        assert(c == t.sealed(Some(p), c));
        let r = c.result->0;
        decode_utf8_encode_utf8(r.stdout);
        decode_utf8_encode_utf8(r.stderr);
        assert(cell_of(rec).result == c.result);
        assert(v.hash_above(Some(p)) == t.hash_above(Some(p)));
        assert(v.sealed(Some(p), cell_of(rec)) == c);
        let w = replay_step(v, rec);
        assert(w == v.restored(p, cell_of(rec)));
        assert forall|k: CellId| ids.take(m).contains(k) <==> (before.contains(k) || k == id) by {
            assert(ids.take(m) =~= before.push(id));
            if before.contains(k) {
                let i = choose|i: int| 0 <= i < before.len() && before[i] == k;
                assert(ids.take(m)[i] == k);
            }
            if k == id {
                assert(ids.take(m)[m - 1] == k);
            }
        }
        if m > 1 {
            assert(ids[m - 2] < id);
        }
        assert(id != 0);
    }
}

proof fn lemma_branches_written(t: TreeV, v: TreeV, l: Seq<(Seq<char>, CellId)>, m: int)
    requires
        kept(t),
        branches_of(t, l),
        v.cells == t.cells,
        0 <= m <= l.len(),
    ensures
        ({
            let w = replay_all(v, branch_records(l.take(m)));
            &&& w.cells == v.cells
            &&& w.next_id == v.next_id
            &&& forall|n: Seq<char>| #[trigger]
                w.branches.contains_key(n) <==> (v.branches.contains_key(n) || named(l.take(m), n))
            &&& forall|n: Seq<char>| #[trigger]
                w.branches.contains_key(n) && named(l.take(m), n) ==> w.branches[n]
                    == t.branches[n]
        }),
    decreases m,
{
    let rs = branch_records(l.take(m));
    if m > 0 {
        let before = l.take(m - 1);
        lemma_branches_written(t, v, l, m - 1);
        assert(l.take(m).drop_last() =~= before);
        assert(rs.drop_last() =~= branch_records(before));
        let e = l[m - 1];
        assert(rs.last() == RecordV::SetBranch { name: e.0, tip: e.1 });
        assert(t.branches.contains_key(e.0));
        assert forall|n: Seq<char>| #[trigger] named(l.take(m), n) <==> (named(before, n) || n
            == e.0) by {
            if named(l.take(m), n) {
                let i = choose|i: int| 0 <= i < m && (#[trigger] l.take(m)[i]).0 == n;
                if i < m - 1 {
                    assert(before[i].0 == n);
                }
            }
            if named(before, n) {
                let i = choose|i: int| 0 <= i < m - 1 && (#[trigger] before[i]).0 == n;
                assert(l.take(m)[i].0 == n);
            }
            if n == e.0 {
                assert(l.take(m)[m - 1].0 == n);
            }
        }
    }
}

/// A log written from a finished tree replays to that tree: a root, the records of the other
/// cells by their numbers, and the branches give the same cells, with the same hashes, and the
/// same branches, and the next number is the one behind the largest.
pub proof fn law_a_written_tree_comes_back(
    t: TreeV,
    state: StateV,
    sysinfo: SystemInfoV,
    ids: Seq<CellId>,
    names: Seq<(Seq<char>, CellId)>,
)
    requires
        kept(t),
        at_rest(t),
        is_writable(t),
        t.cells[0] == root_cell(state, sysinfo),
        t.branches.contains_key(DEFAULT_BRANCH@),
        numbers_of(t, ids),
        branches_of(t, names),
    ensures
        ({
            let log = seq![RecordV::Root { state, sysinfo }] + cell_records(t, ids)
                + branch_records(names);
            &&& replayed(log) matches Some(u)
            &&& u.cells == t.cells
            &&& u.branches == t.branches
            &&& u.next_id == if ids.len() == 0 {
                1
            } else {
                behind(ids.last())
            }
        }),
{
    let root = seq![RecordV::Root { state, sysinfo }];
    let cells = cell_records(t, ids);
    let log = root + cells + branch_records(names);
    let start = TreeV::planted(state, sysinfo);
    assert(log.drop_first() =~= cells + branch_records(names));
    assert(log[0] == root[0]);
    lemma_replay_append(start, cells, branch_records(names));
    lemma_cells_written(t, state, sysinfo, ids, ids.len() as int);
    assert(ids.take(ids.len() as int) =~= ids);
    let v = replay_all(start, cells);
    assert(v.cells =~= t.cells);
    lemma_branches_written(t, v, names, names.len() as int);
    assert(names.take(names.len() as int) =~= names);
    let u = replay_all(v, branch_records(names));
    assert(u.branches =~= t.branches);
}

// ---------- Starting --------------------------------------------------------

/// The tree that the daemon starts with, what it writes to the log first, and what it says.
#[derive(Debug)]
pub struct Opened {
    pub tree: Tree,
    pub records: Vec<Record>,
    pub warnings: Vec<String>,
}

/// Starts from what is in the log; or, where that holds no tree, from a new root in `state`, which
/// is then logged.
pub fn restore(log: &[Record], state: State, sysinfo: SystemInfo) -> (r: Opened)
    ensures
        kept(r.tree@),
        persisted(records_view(log@) + records_view(r.records@), r.tree@)
            || replayed(records_view(log@)) is None && log@.len() > 0,
        match replayed(records_view(log@)) {
            Some(u) => {
                let rs = records_view(log@);
                &&& r.tree@ == u
                &&& records_view(r.records@) == Seq::<RecordV>::empty()
                &&& strings(r.warnings@) == warnings(
                    TreeV::planted(rs[0]->Root_state, rs[0]->Root_sysinfo),
                    rs.drop_first(),
                )
            },
            None => {
                &&& r.tree@ == TreeV::planted(state@, sysinfo@)
                &&& records_view(r.records@) == seq![
                    RecordV::Root { state: state@, sysinfo: sysinfo@ },
                ]
                &&& strings(r.warnings@) == Seq::<Seq<char>>::empty()
            },
        },
{
    let ghost lv = records_view(log@);
    proof {
        law_replayed_trees_are_kept(lv);
        lemma_planted(state@, sysinfo@);
        law_new_stores_hold_their_root(state@, sysinfo@);
    }
    let mut records: Vec<Record> = Vec::new();
    assert(records_view(records@) =~= Seq::<RecordV>::empty());
    match replay_logged(log) {
        Some((tree, warnings)) => {
            proof {
                lemma_comes_back_itself(tree@);
                assert(lv + records_view(records@) =~= lv);
            }
            Opened { tree, records, warnings }
        },
        None => {
            let tree = Tree::new(state.clone(), sysinfo.clone());
            let rec = Record::Root { state, sysinfo };
            records.push(rec);
            assert(records_view(records@) =~= seq![rec@]);
            if log.len() == 0 {
                assert(lv + records_view(records@) =~= seq![rec@]);
            }
            let warnings: Vec<String> = Vec::new();
            assert(strings(warnings@) =~= Seq::<Seq<char>>::empty());
            Opened { tree, records, warnings }
        },
    }
}

} // verus!
