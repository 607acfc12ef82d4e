//! The shape of a tree of cells: that it is one, that the operations keep it one, and how it is
//! walked.

use vstd::prelude::*;

use crate::tree::{CellId, CellV, ResultV, StateV, SystemInfoV, Tree, TreeV};

verus! {

// ---------- Soundness -------------------------------------------------------

/// Every cell ranks below its parent.
pub open spec fn ranked(cells: Map<CellId, CellV>, rank: Map<CellId, nat>) -> bool {
    forall|k: CellId|
        #![trigger cells[k]]
        cells.contains_key(k) ==> (cells[k].parent matches Some(p) ==> rank[p] < rank[k])
}

/// No cell is its own ancestor.
pub open spec fn acyclic(cells: Map<CellId, CellV>) -> bool {
    exists|rank: Map<CellId, nat>| ranked(cells, rank)
}

/// The cell `k` is in its place: it bears its number, its parent is a finished cell that lists
/// it, it lists its own children, and its hash is the one that is its due.
pub open spec fn placed(t: TreeV, k: CellId) -> bool {
    let c = t.cells[k];
    &&& c.id == k
    &&& k < t.next_id || t.next_id == u64::MAX
    &&& t.children.contains_key(k)
    &&& t.children[k].no_duplicates()
    &&& forall|i: int|
        0 <= i < t.children[k].len() ==> t.cells.contains_key(#[trigger] t.children[k][i])
            && t.cells[t.children[k][i]].parent == Some(k)
    &&& if k == 0 {
        c.parent is None && c.result is Some && c.hash is Some
    } else {
        &&& c.parent matches Some(p)
        &&& t.cells.contains_key(p)
        &&& t.cells[p].result is Some
        &&& t.children.contains_key(p)
        &&& t.children[p].contains(k)
        &&& c == t.sealed(Some(p), c)
    }
}

/// A tree of cells: it has a root, it is finite, every cell is in its place and none is its own
/// ancestor.
pub open spec fn sound(t: TreeV) -> bool {
    &&& t.cells.contains_key(0)
    &&& t.cells.dom().finite()
    &&& forall|k: CellId| #[trigger] t.cells.contains_key(k) ==> placed(t, k)
    &&& forall|k: CellId| #[trigger] t.children.contains_key(k) ==> t.cells.contains_key(k)
    &&& acyclic(t.cells)
}

/// A new tree is sound.
pub proof fn law_new_trees_are_sound(state: StateV, info: SystemInfoV)
    ensures
        sound(TreeV::planted(state, info)),
{
    let t = TreeV::planted(state, info);
    assert(ranked(t.cells, map![0u64 => 0nat]));
}

/// Reserving a number keeps a tree sound.
pub proof fn law_reserving_keeps_trees_sound(t: TreeV, next: CellId)
    requires
        sound(t),
        t.next_id <= next,
    ensures
        sound(TreeV { next_id: next, ..t }),
{
    let u = TreeV { next_id: next, ..t };
    assert forall|k: CellId| #[trigger] u.cells.contains_key(k) implies placed(u, k) by {
        assert(placed(t, k));
        if k != 0 {
            let p = t.cells[k].parent->0;
            assert(u.sealed(Some(p), u.cells[k]) == t.sealed(Some(p), t.cells[k]));
        }
    }
}

/// Moving, adding and removing branches keeps a tree sound.
pub proof fn law_branches_keep_trees_sound(t: TreeV, branches: Map<Seq<char>, CellId>)
    requires
        sound(t),
    ensures
        sound(TreeV { branches, ..t }),
{
    let u = TreeV { branches, ..t };
    assert forall|k: CellId| #[trigger] u.cells.contains_key(k) implies placed(u, k) by {
        assert(placed(t, k));
        if k != 0 {
            let p = t.cells[k].parent->0;
            assert(u.sealed(Some(p), u.cells[k]) == t.sealed(Some(p), t.cells[k]));
        }
    }
}

/// A new cell below a finished one keeps a tree sound.
pub proof fn law_inserting_keeps_trees_sound(t: TreeV, parent: CellId, c: CellV)
    requires
        sound(t),
        t.cells.contains_key(parent),
        t.cells[parent].result is Some,
        !t.cells.contains_key(c.id),
        c.parent == Some(parent),
        c.id < t.next_id || t.next_id == u64::MAX,
    ensures
        sound(t.inserted(parent, c)),
{
    let u = t.inserted(parent, c);
    let id = c.id;
    assert(placed(t, parent));
    assert(!t.children.contains_key(id));
    assert(u.children[id] =~= Seq::<CellId>::empty());
    assert(u.children[parent] =~= t.children[parent].push(id));
    assert forall|k: CellId| #[trigger] u.cells.contains_key(k) implies placed(u, k) by {
        if k == id {
            assert(u.children[parent].last() == id);
            assert(u.children[parent].contains(id));
            let s = t.sealed(Some(parent), c);
            assert(u.hash_above(Some(parent)) == t.hash_above(Some(parent)));
            assert(s.result == c.result);
            assert(u.sealed(Some(parent), s) == s);
        } else {
            assert(t.cells.contains_key(k));
            assert(placed(t, k));
            let before = t.children[k];
            let now = u.children[k];
            if k == parent {
                assert(now == before.push(id));
                assert(!before.contains(id)) by {
                    if before.contains(id) {
                        let i = choose|i: int| 0 <= i < before.len() && before[i] == id;
                        assert(t.cells.contains_key(before[i]));
                    }
                }
                assert(now.no_duplicates());
            } else {
                assert(now == before);
            }
            assert forall|i: int| 0 <= i < now.len() implies u.cells.contains_key(
                #[trigger] now[i],
            ) && u.cells[now[i]].parent == Some(k) by {
                if i < before.len() {
                    assert(now[i] == before[i]);
                    assert(t.cells.contains_key(before[i]));
                }
            }
            if k != 0 {
                let p = t.cells[k].parent->0;
                let i = choose|i: int| 0 <= i < t.children[p].len() && t.children[p][i] == k;
                assert(u.children[p][i] == k);
                assert(u.children[p].contains(k));
                assert(u.hash_above(Some(p)) == t.hash_above(Some(p)));
                assert(u.sealed(Some(p), u.cells[k]) == t.sealed(Some(p), t.cells[k]));
            }
        }
    }
    let rank = choose|rank: Map<CellId, nat>| ranked(t.cells, rank);
    let wider = rank.insert(id, rank[parent] + 1);
    assert forall|k: CellId| #![trigger u.cells[k]] u.cells.contains_key(k) implies (
    u.cells[k].parent matches Some(p) ==> wider[p] < wider[k]) by {
        if k != id {
            assert(t.cells.contains_key(k));
            assert(placed(t, k));
            assert(u.cells[k] == t.cells[k]);
            if let Some(p) = t.cells[k].parent {
                assert(p != id);
                assert(rank[p] < rank[k]);
            }
        }
    }
    assert(ranked(u.cells, wider));
}

/// A cell read back below a finished one keeps a tree sound.
pub proof fn law_restoring_keeps_trees_sound(t: TreeV, parent: CellId, c: CellV)
    requires
        sound(t),
        t.cells.contains_key(parent),
        t.cells[parent].result is Some,
        !t.cells.contains_key(c.id),
        c.parent == Some(parent),
    ensures
        sound(t.restored(parent, c)),
{
    let u = t.restored(parent, c);
    let wide = TreeV { next_id: u.next_id, ..t };
    law_reserving_keeps_trees_sound(t, u.next_id);
    law_inserting_keeps_trees_sound(wide, parent, c);
    assert(wide.hash_above(Some(parent)) == t.hash_above(Some(parent)));
    assert(wide.inserted(parent, c) =~= u);
}

/// A running cell that finishes keeps a tree sound.
pub proof fn law_finishing_keeps_trees_sound(t: TreeV, id: CellId, r: ResultV)
    requires
        sound(t),
        t.cells.contains_key(id),
        t.cells[id].result is None,
    ensures
        sound(t.finished(id, r)),
{
    let u = t.finished(id, r);
    assert(placed(t, id));
    let c = CellV { result: Some(r), ..t.cells[id] };
    assert(u.cells.dom() =~= t.cells.dom());
    assert forall|k: CellId| #[trigger] u.cells.contains_key(k) implies placed(u, k) by {
        assert(t.cells.contains_key(k));
        assert(placed(t, k));
        assert forall|i: int| 0 <= i < u.children[k].len() implies u.cells.contains_key(
            #[trigger] u.children[k][i],
        ) && u.cells[u.children[k][i]].parent == Some(k) by {
            assert(t.cells.contains_key(t.children[k][i]));
        }
        if k != 0 {
            let p = t.cells[k].parent->0;
            assert(p != id);
            assert(u.hash_above(Some(p)) == t.hash_above(Some(p)));
            if k == id {
                assert(u.sealed(Some(p), u.cells[k]) == u.cells[k]);
            } else {
                assert(u.sealed(Some(p), u.cells[k]) == t.sealed(Some(p), t.cells[k]));
            }
        }
    }
    let rank = choose|rank: Map<CellId, nat>| ranked(t.cells, rank);
    assert forall|k: CellId| #![trigger u.cells[k]] u.cells.contains_key(k) implies (
    u.cells[k].parent matches Some(p) ==> rank[p] < rank[k]) by {
        assert(t.cells.contains_key(k));
        assert(t.cells[k].parent == u.cells[k].parent);
        if let Some(p) = t.cells[k].parent {
            assert(rank[p] < rank[k]);
        }
    }
    assert(ranked(u.cells, rank));
}

// ---------- Walking ---------------------------------------------------------

/// Walks the tree from the cells on `stack`, the last first, each cell before its children;
/// gives `out` and the cells that were met behind it. None if that takes more than `fuel` steps.
pub open spec fn walk(t: TreeV, stack: Seq<CellId>, out: Seq<CellId>, fuel: nat) -> Option<
    Seq<CellId>,
>
    decreases fuel,
{
    if stack.len() == 0 {
        Some(out)
    } else if fuel == 0 {
        None
    } else {
        let id = stack.last();
        let rest = stack.drop_last();
        if t.cells.contains_key(id) {
            walk(t, rest + t.children_of(id).reverse(), out.push(id), (fuel - 1) as nat)
        } else {
            walk(t, rest, out, (fuel - 1) as nat)
        }
    }
}

/// The walk from the root comes to an end.
pub open spec fn walk_ends(t: TreeV) -> bool {
    exists|fuel: nat| #[trigger] walk(t, seq![0u64], Seq::empty(), fuel) is Some
}

/// The cells met from the root on, each before its children and in their order.
pub open spec fn walked(t: TreeV) -> Seq<CellId> {
    let fuel = choose|fuel: nat| #[trigger] walk(t, seq![0u64], Seq::empty(), fuel) is Some;
    walk(t, seq![0u64], Seq::empty(), fuel)->0
}

proof fn lemma_more_fuel(t: TreeV, stack: Seq<CellId>, out: Seq<CellId>, a: nat, b: nat)
    requires
        walk(t, stack, out, a) is Some,
        a <= b,
    ensures
        walk(t, stack, out, b) == walk(t, stack, out, a),
    decreases a,
{
    if stack.len() > 0 {
        let id = stack.last();
        let rest = stack.drop_last();
        if t.cells.contains_key(id) {
            lemma_more_fuel(
                t,
                rest + t.children_of(id).reverse(),
                out.push(id),
                (a - 1) as nat,
                (b - 1) as nat,
            );
        } else {
            lemma_more_fuel(t, rest, out, (a - 1) as nat, (b - 1) as nat);
        }
    }
}

/// The walk does not depend on how many steps it is allowed, once they are enough.
proof fn lemma_walked(t: TreeV, fuel: nat)
    requires
        walk(t, seq![0u64], Seq::empty(), fuel) is Some,
    ensures
        walk_ends(t),
        walk(t, seq![0u64], Seq::empty(), fuel) == Some(walked(t)),
{
    let f = choose|f: nat| #[trigger] walk(t, seq![0u64], Seq::empty(), f) is Some;
    if f <= fuel {
        lemma_more_fuel(t, seq![0u64], Seq::empty(), f, fuel);
    } else {
        lemma_more_fuel(t, seq![0u64], Seq::empty(), fuel, f);
    }
}

/// What holds while a sound tree is walked.
spec fn walking(t: TreeV, stack: Seq<CellId>, out: Seq<CellId>) -> bool {
    &&& out.no_duplicates()
    &&& stack.no_duplicates()
    &&& forall|i: int, j: int|
        0 <= i < stack.len() && 0 <= j < out.len() ==> #[trigger] stack[i] != #[trigger] out[j]
    &&& forall|j: int| 0 <= j < out.len() ==> t.cells.contains_key(#[trigger] out[j])
    &&& forall|i: int|
        0 <= i < stack.len() ==> t.cells.contains_key(#[trigger] stack[i]) && (stack[i] == 0 || (
        t.cells[stack[i]].parent is Some && out.contains(t.cells[stack[i]].parent->0)))
    &&& forall|j: int|
        0 <= j < out.len() ==> (#[trigger] out[j] == 0 || (t.cells[out[j]].parent is Some
            && out.contains(t.cells[out[j]].parent->0)))
    &&& out.contains(0) || stack.contains(0)
    &&& forall|j: int, c: CellId|
        0 <= j < out.len() && #[trigger] t.children[out[j]].contains(c) ==> out.contains(c)
            || stack.contains(c)
}

proof fn lemma_walk_step(t: TreeV, stack: Seq<CellId>, out: Seq<CellId>)
    requires
        sound(t),
        walking(t, stack, out),
        stack.len() > 0,
    ensures
        t.cells.contains_key(stack.last()),
        walking(
            t,
            stack.drop_last() + t.children_of(stack.last()).reverse(),
            out.push(stack.last()),
        ),
{
    let id = stack.last();
    let n = stack.len() - 1;
    assert(stack[n] == id);
    assert(t.cells.contains_key(stack[n]));
    assert(placed(t, id));
    let ch = t.children_of(id);
    assert(ch == t.children[id]);
    let rest = stack.drop_last();
    let s1 = rest + ch.reverse();
    let o1 = out.push(id);
    assert(!out.contains(id)) by {
        if out.contains(id) {
            let j = choose|j: int| 0 <= j < out.len() && out[j] == id;
            assert(stack[n] != out[j]);
        }
    }
    assert(o1.no_duplicates());
    // A child of `id` has not been met: whatever was met or waits, other than the root, has its
    // parent among the cells that were met, and `id` is not among them.
    assert forall|i: int| 0 <= i < ch.len() implies !out.contains(#[trigger] ch[i])
        && !stack.contains(ch[i]) by {
        let c = ch[i];
        assert(t.cells.contains_key(t.children[id][i]));
        assert(t.cells[c].parent == Some(id));
        assert(placed(t, c));
        assert(c != 0);
        if out.contains(c) {
            let j = choose|j: int| 0 <= j < out.len() && out[j] == c;
            assert(out[j] == c);
        }
        if stack.contains(c) {
            let j = choose|j: int| 0 <= j < stack.len() && stack[j] == c;
            assert(stack[j] == c);
        }
    }
    assert forall|i: int| 0 <= i < ch.len() implies #[trigger] ch.reverse()[i] == ch[ch.len() - 1
        - i] by {}
    assert forall|i: int, j: int| 0 <= i < s1.len() && 0 <= j < s1.len() && i != j implies s1[i]
        != s1[j] by {
        if i < n && j < n {
            assert(stack[i] != stack[j]);
        } else if i < n {
            assert(!stack.contains(ch[ch.len() - 1 - (j - n)]));
            assert(stack[i] == s1[i]);
        } else if j < n {
            assert(!stack.contains(ch[ch.len() - 1 - (i - n)]));
            assert(stack[j] == s1[j]);
        } else {
            assert(ch[ch.len() - 1 - (i - n)] != ch[ch.len() - 1 - (j - n)]);
        }
    }
    assert(s1.no_duplicates());
    assert forall|i: int, j: int| 0 <= i < s1.len() && 0 <= j < o1.len() implies #[trigger] s1[i]
        != #[trigger] o1[j] by {
        if i < n {
            assert(s1[i] == stack[i]);
            if j < out.len() {
                assert(stack[i] != out[j]);
            } else {
                assert(stack[i] != stack[n]);
            }
        } else {
            let c = ch[ch.len() - 1 - (i - n)];
            assert(s1[i] == c);
            assert(!out.contains(c) && !stack.contains(c));
            if j < out.len() {
                assert(out.contains(out[j]));
            } else {
                assert(stack.contains(stack[n]));
            }
        }
    }
    assert(o1.contains(id)) by {
        assert(o1[out.len() as int] == id);
    }
    assert forall|x: CellId| out.contains(x) implies #[trigger] o1.contains(x) by {
        let j = choose|j: int| 0 <= j < out.len() && out[j] == x;
        assert(o1[j] == x);
    }
    assert forall|x: CellId| stack.contains(x) && x != id implies #[trigger] s1.contains(x) by {
        let j = choose|j: int| 0 <= j < stack.len() && stack[j] == x;
        assert(s1[j] == x);
    }
    assert forall|i: int| 0 <= i < s1.len() implies t.cells.contains_key(#[trigger] s1[i]) && (s1[i]
        == 0 || (t.cells[s1[i]].parent is Some && o1.contains(t.cells[s1[i]].parent->0))) by {
        if i < n {
            assert(s1[i] == stack[i]);
        } else {
            let m = ch.len() - 1 - (i - n);
            assert(s1[i] == ch[m]);
            assert(t.cells.contains_key(t.children[id][m]));
        }
    }
    assert forall|j: int| 0 <= j < o1.len() implies (#[trigger] o1[j] == 0 || (
    t.cells[o1[j]].parent is Some && o1.contains(t.cells[o1[j]].parent->0))) by {
        if j < out.len() {
            assert(o1[j] == out[j]);
        } else {
            assert(o1[j] == stack[n]);
        }
    }
    assert forall|j: int, c: CellId|
        0 <= j < o1.len() && #[trigger] t.children[o1[j]].contains(c) implies o1.contains(c)
        || s1.contains(c) by {
        if j < out.len() {
            assert(o1[j] == out[j]);
            assert(t.children[out[j]].contains(c));
            assert(out.contains(c) || stack.contains(c));
        } else {
            assert(ch.contains(c));
            let i = choose|i: int| 0 <= i < ch.len() && ch[i] == c;
            assert(s1[n + (ch.len() - 1 - i)] == c);
        }
    }
    assert(o1.contains(0) || s1.contains(0));
}

proof fn lemma_walk(t: TreeV, stack: Seq<CellId>, out: Seq<CellId>)
    requires
        sound(t),
        walking(t, stack, out),
    ensures
        ({
            let fuel = (t.cells.dom().len() - out.len()) as nat;
            &&& out.len() <= t.cells.dom().len()
            &&& walk(t, stack, out, fuel) matches Some(r) && walking(t, Seq::empty(), r)
        }),
    decreases t.cells.dom().len() - out.len(),
{
    let met = out.to_set();
    out.unique_seq_to_set();
    assert(met.subset_of(t.cells.dom())) by {
        assert forall|x: CellId| met.contains(x) implies t.cells.dom().contains(x) by {
            let j = choose|j: int| 0 <= j < out.len() && out[j] == x;
            assert(t.cells.contains_key(out[j]));
        }
    }
    vstd::set_lib::lemma_len_subset(met, t.cells.dom());
    if stack.len() > 0 {
        lemma_walk_step(t, stack, out);
        let id = stack.last();
        let o1 = out.push(id);
        o1.unique_seq_to_set();
        assert(o1.to_set().subset_of(t.cells.dom())) by {
            assert forall|x: CellId| o1.to_set().contains(x) implies t.cells.dom().contains(x) by {
                let j = choose|j: int| 0 <= j < o1.len() && o1[j] == x;
                if j < out.len() {
                    assert(t.cells.contains_key(out[j]));
                }
            }
        }
        vstd::set_lib::lemma_len_subset(o1.to_set(), t.cells.dom());
        lemma_walk(t, stack.drop_last() + t.children_of(id).reverse(), o1);
    } else {
        assert(stack =~= Seq::<CellId>::empty());
    }
}

/// A sound tree is walked to its end, and the walk meets every cell once.
pub proof fn law_walks_meet_every_cell_once(t: TreeV)
    requires
        sound(t),
    ensures
        walk_ends(t),
        walked(t).no_duplicates(),
        forall|k: CellId| walked(t).contains(k) <==> #[trigger] t.cells.contains_key(k),
{
    let s = seq![0u64];
    assert(s[0] == 0);
    assert(walking(t, s, Seq::empty()));
    lemma_walk(t, s, Seq::empty());
    lemma_walked(t, t.cells.dom().len());
    let w = walked(t);
    assert(walking(t, Seq::empty(), w));
    let rank = choose|rank: Map<CellId, nat>| ranked(t.cells, rank);
    assert forall|k: CellId| #[trigger] t.cells.contains_key(k) implies w.contains(k) by {
        lemma_met(t, w, rank, k);
    }
    assert forall|k: CellId| w.contains(k) implies #[trigger] t.cells.contains_key(k) by {
        let j = choose|j: int| 0 <= j < w.len() && w[j] == k;
        assert(t.cells.contains_key(w[j]));
    }
}

proof fn lemma_met(t: TreeV, w: Seq<CellId>, rank: Map<CellId, nat>, k: CellId)
    requires
        sound(t),
        walking(t, Seq::empty(), w),
        ranked(t.cells, rank),
        t.cells.contains_key(k),
    ensures
        w.contains(k),
    decreases rank[k],
{
    let none = Seq::<CellId>::empty();
    assert(!none.contains(0));
    assert(!none.contains(k));
    if k != 0 {
        assert(placed(t, k));
        let p = t.cells[k].parent->0;
        assert(rank[p] < rank[k]);
        lemma_met(t, w, rank, p);
        let j = choose|j: int| 0 <= j < w.len() && w[j] == p;
        assert(t.children[w[j]].contains(k));
    }
}

/// The cells met from the root on, each before its children and in their order.
pub fn walk_cells(t: &Tree) -> (r: Vec<CellId>)
    requires
        walk_ends(t@),
    ensures
        r@ == walked(t@),
{
    let mut stack: Vec<CellId> = vec![0];
    let mut out: Vec<CellId> = Vec::new();
    let ghost mut fuel = choose|fuel: nat| #[trigger]
        walk(t@, seq![0u64], Seq::empty(), fuel) is Some;
    assert(stack@ =~= seq![0u64]);
    assert(out@ =~= Seq::<CellId>::empty());
    while stack.len() > 0
        invariant
            walk(t@, stack@, out@, fuel) == Some(walked(t@)),
        decreases fuel,
    {
        let ghost before = stack@;
        let id: CellId = stack[stack.len() - 1];
        stack.pop();
        assert(stack@ =~= before.drop_last());
        if t.get(id).is_some() {
            out.push(id);
            let ch = t.children_of(id);
            let mut i: usize = ch.len();
            let ghost rest = stack@;
            assert(stack@ =~= rest + ch@.reverse().take(0));
            while i > 0
                invariant
                    i <= ch.len(),
                    stack@ == rest + ch@.reverse().take(ch.len() - i),
                decreases i,
            {
                i -= 1;
                stack.push(ch[i]);
                assert(ch@.reverse().take(ch.len() - i) =~= ch@.reverse().take(
                    ch.len() - i - 1,
                ).push(ch@[i as int]));
                assert(stack@ =~= rest + ch@.reverse().take(ch.len() - i));
            }
            assert(ch@.reverse().take(ch.len() as int) =~= ch@.reverse());
        }
        proof {
            fuel = (fuel - 1) as nat;
        }
    }
    out
}

// ---------- In the order of their numbers -----------------------------------

/// Numbers in ascending order.
pub open spec fn rising() -> spec_fn(CellId, CellId) -> bool {
    |a: CellId, b: CellId| a <= b
}

/// The cells met from the root on, in the order of their numbers.
pub open spec fn in_order(t: TreeV) -> Seq<CellId> {
    walked(t).sort_by(rising())
}

proof fn lemma_insert_multiset(s: Seq<CellId>, i: int, x: CellId)
    requires
        0 <= i <= s.len(),
    ensures
        s.insert(i, x).to_multiset() == s.to_multiset().insert(x),
{
    broadcast use vstd::seq_lib::group_to_multiset_ensures;

    let t = s.insert(i, x);
    assert(t.remove(i) =~= s);
    assert(t[i] == x);
    assert(t.contains(x));
    assert(s.to_multiset() =~= t.to_multiset().remove(x));
    assert(t.to_multiset() =~= s.to_multiset().insert(x));
}

/// Sorts numbers in ascending order.
pub fn sort_ids(ids: &Vec<CellId>) -> (r: Vec<CellId>)
    ensures
        r@ == ids@.sort_by(rising()),
{
    broadcast use vstd::seq_lib::group_to_multiset_ensures;

    let mut out: Vec<CellId> = Vec::new();
    let mut i: usize = 0;
    assert(ids@.take(0) =~= out@);
    while i < ids.len()
        invariant
            i <= ids.len(),
            out@.to_multiset() == ids@.take(i as int).to_multiset(),
            forall|a: int, b: int| 0 <= a < b < out.len() ==> out@[a] <= out@[b],
        decreases ids.len() - i,
    {
        let x: CellId = ids[i];
        let mut p: usize = out.len();
        while p > 0 && out[p - 1] > x
            invariant
                p <= out.len(),
                forall|a: int, b: int| 0 <= a < b < out.len() ==> out@[a] <= out@[b],
                forall|a: int| p <= a < out.len() ==> x < out@[a],
            decreases p,
        {
            p -= 1;
        }
        proof {
            lemma_insert_multiset(out@, p as int, x);
            assert(ids@.take(i + 1) =~= ids@.take(i as int).push(x));
            ids@.take(i as int).to_multiset_ensures();
            assert(ids@.take(i + 1).to_multiset() == ids@.take(i as int).to_multiset().insert(x));
        }
        out.insert(p, x);
        i += 1;
    }
    assert(ids@.take(i as int) =~= ids@);
    proof {
        ids@.lemma_sort_by_ensures(rising());
        assert(vstd::relations::sorted_by(out@, rising()));
        vstd::seq_lib::lemma_sorted_unique(out@, ids@.sort_by(rising()), rising());
    }
    out
}

/// Of a sound tree, every cell is listed once, in the order of the numbers.
pub proof fn law_every_cell_is_listed_in_order(t: TreeV)
    requires
        sound(t),
    ensures
        forall|i: int, j: int|
            0 <= i < j < in_order(t).len() ==> #[trigger] in_order(t)[i] < #[trigger] in_order(t)[j],
        forall|k: CellId| in_order(t).contains(k) <==> #[trigger] t.cells.contains_key(k),
{
    broadcast use vstd::seq_lib::group_to_multiset_ensures;

    law_walks_meet_every_cell_once(t);
    let w = walked(t);
    let s = in_order(t);
    w.lemma_sort_by_ensures(rising());
    assert forall|k: CellId| s.contains(k) <==> #[trigger] t.cells.contains_key(k) by {
        assert(s.contains(k) <==> s.to_multiset().count(k) > 0);
        assert(w.contains(k) <==> w.to_multiset().count(k) > 0);
    }
    assert forall|i: int, j: int| 0 <= i < j < s.len() implies #[trigger] s[i]
        < #[trigger] s[j] by {
        assert(rising()(s[i], s[j]));
        if s[i] == s[j] {
            w.lemma_multiset_has_no_duplicates();
            let x = s[i];
            assert(s.contains(x));
            lemma_twice(s, i, j);
            assert(w.to_multiset().count(x) <= 1);
        }
    }
}

/// What stands at two places occurs twice.
proof fn lemma_twice(s: Seq<CellId>, i: int, j: int)
    requires
        0 <= i < j < s.len(),
        s[i] == s[j],
    ensures
        s.to_multiset().count(s[i]) >= 2,
{
    broadcast use vstd::seq_lib::group_to_multiset_ensures;

    let x = s[i];
    let t = s.remove(i);
    assert(t[j - 1] == x);
    assert(t.contains(x));
    assert(t.to_multiset().count(x) > 0);
    assert(t.to_multiset() =~= s.to_multiset().remove(x));
    assert(s.contains(x));
}

proof fn lemma_walk_meets_cells(t: TreeV, stack: Seq<CellId>, out: Seq<CellId>, fuel: nat)
    requires
        forall|j: int| 0 <= j < out.len() ==> t.cells.contains_key(#[trigger] out[j]),
    ensures
        walk(t, stack, out, fuel) matches Some(r) ==> forall|j: int|
            0 <= j < r.len() ==> t.cells.contains_key(#[trigger] r[j]),
    decreases fuel,
{
    if stack.len() > 0 && fuel > 0 {
        let id = stack.last();
        let rest = stack.drop_last();
        if t.cells.contains_key(id) {
            lemma_walk_meets_cells(
                t,
                rest + t.children_of(id).reverse(),
                out.push(id),
                (fuel - 1) as nat,
            );
        } else {
            lemma_walk_meets_cells(t, rest, out, (fuel - 1) as nat);
        }
    }
}

/// Only cells of the tree are met.
proof fn lemma_walked_cells(t: TreeV)
    requires
        walk_ends(t),
    ensures
        forall|j: int| 0 <= j < walked(t).len() ==> t.cells.contains_key(#[trigger] walked(t)[j]),
{
    let fuel = choose|fuel: nat| #[trigger] walk(t, seq![0u64], Seq::empty(), fuel) is Some;
    lemma_walk_meets_cells(t, seq![0u64], Seq::empty(), fuel);
}

/// Only cells of the tree are listed.
pub proof fn lemma_in_order_cells(t: TreeV)
    requires
        walk_ends(t),
    ensures
        forall|j: int|
            0 <= j < in_order(t).len() ==> t.cells.contains_key(#[trigger] in_order(t)[j]),
{
    lemma_walked_cells(t);
    let w = walked(t);
    let s = in_order(t);
    w.lemma_sort_by_ensures(rising());
    assert forall|j: int| 0 <= j < s.len() implies t.cells.contains_key(#[trigger] s[j]) by {
        assert(s.contains(s[j]));
        assert(w.contains(s[j]));
        let i = choose|i: int| 0 <= i < w.len() && w[i] == s[j];
        assert(t.cells.contains_key(w[i]));
    }
}

// ---------- Numbers ---------------------------------------------------------

/// Something that is done to a tree: a number is reserved, a cell comes in or finishes, or a
/// branch moves, goes or changes its name.
pub enum StepV {
    Reserve,
    Insert(CellId, CellV),
    Finish(CellId, ResultV),
    SetBranch(Seq<char>, CellId),
    DeleteBranch(Seq<char>),
    RenameBranch(Seq<char>, Seq<char>),
}

/// The tree after a step.
pub open spec fn stepped(t: TreeV, s: StepV) -> TreeV {
    match s {
        StepV::Reserve => TreeV { next_id: (t.next_id + 1) as u64, ..t },
        StepV::Insert(parent, c) => t.inserted(parent, c),
        StepV::Finish(id, r) => t.finished(id, r),
        StepV::SetBranch(name, id) => t.with_branch(name, id),
        StepV::DeleteBranch(name) => t.without_branch(name),
        StepV::RenameBranch(from, to) => t.renamed(from, to),
    }
}

/// The tree after some steps.
pub open spec fn run(t: TreeV, steps: Seq<StepV>) -> TreeV
    decreases steps.len(),
{
    if steps.len() == 0 {
        t
    } else {
        stepped(run(t, steps.drop_last()), steps.last())
    }
}

/// The numbers that some steps reserve, in order.
pub open spec fn reserved(t: TreeV, steps: Seq<StepV>) -> Seq<CellId>
    decreases steps.len(),
{
    if steps.len() == 0 {
        Seq::empty()
    } else {
        let before = reserved(t, steps.drop_last());
        if steps.last() is Reserve {
            before.push(run(t, steps.drop_last()).next_id)
        } else {
            before
        }
    }
}

/// A new tree gives out the numbers 1, 2, 3 and so on, whatever else is done to it, and giving one
/// out changes neither its cells nor its branches.
pub proof fn law_numbers_are_given_out_in_order(
    state: StateV,
    info: SystemInfoV,
    steps: Seq<StepV>,
)
    requires
        reserved(TreeV::planted(state, info), steps).len() < u64::MAX - 1,
    ensures
        ({
            let t = TreeV::planted(state, info);
            &&& forall|k: int|
                0 <= k < reserved(t, steps).len() ==> #[trigger] reserved(t, steps)[k] == k + 1
            &&& run(t, steps).next_id == reserved(t, steps).len() + 1
        }),
        forall|t: TreeV|
            {
                let u = #[trigger] stepped(t, StepV::Reserve);
                &&& u.cells == t.cells
                &&& u.children == t.children
                &&& u.branches == t.branches
            },
    decreases steps.len(),
{
    if steps.len() > 0 {
        law_numbers_are_given_out_in_order(state, info, steps.drop_last());
    }
}

// ---------- Marks -----------------------------------------------------------

/// How many are not marked.
pub open spec fn unmarked(marks: Seq<bool>) -> nat
    decreases marks.len(),
{
    if marks.len() == 0 {
        0
    } else {
        unmarked(marks.drop_last()) + if marks.last() {
            0nat
        } else {
            1nat
        }
    }
}

/// One more mark is one less to make.
pub proof fn lemma_marked(marks: Seq<bool>, i: int)
    requires
        0 <= i < marks.len(),
        !marks[i],
    ensures
        unmarked(marks.update(i, true)) + 1 == unmarked(marks),
    decreases marks.len(),
{
    let next = marks.update(i, true);
    if i == marks.len() - 1 {
        assert(next.drop_last() =~= marks.drop_last());
    } else {
        lemma_marked(marks.drop_last(), i);
        assert(next.drop_last() =~= marks.drop_last().update(i, true));
    }
}

} // verus!
