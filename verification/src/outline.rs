//! How the tree is printed: as an outline.

use vstd::prelude::*;

use crate::render::{cell_line, nests, tree_lines, tree_text};
use crate::tree::CellId;
use crate::wire::CellSnapshotV;

verus! {

/// Two spaces for each step.
pub open spec fn margin(depth: nat) -> Seq<char> {
    Seq::new(2 * depth, |i: int| ' ')
}

/// The lines of cells: each row is the place of a cell among `cells`, and how deep it stands.
pub open spec fn rows_text(cells: Seq<CellSnapshotV>, rows: Seq<(int, nat)>) -> Seq<char>
    decreases rows.len(),
{
    if rows.len() == 0 {
        Seq::empty()
    } else {
        rows_text(cells, rows.drop_last()) + cell_line(
            cells[rows.last().0],
            margin(rows.last().1),
        )
    }
}

/// The row `k` stands right below the row `j`, which is that of its parent: it is one step further
/// in, and all that stands between them is further in than the parent.
pub open spec fn right_below(
    cells: Seq<CellSnapshotV>,
    rows: Seq<(int, nat)>,
    j: int,
    k: int,
) -> bool {
    &&& 0 <= j < k < rows.len()
    &&& rows[j].1 + 1 == rows[k].1
    &&& cells[rows[k].0].parent == Some(cells[rows[j].0].id)
    &&& forall|l: int| j < l < k ==> (#[trigger] rows[l]).1 > rows[j].1
}

/// The row is that of a cell of the list.
pub open spec fn is_row(cells: Seq<CellSnapshotV>, r: (int, nat)) -> bool {
    0 <= r.0 < cells.len()
}

/// The row `k` stands right below that of its parent.
pub open spec fn hangs(cells: Seq<CellSnapshotV>, rows: Seq<(int, nat)>, k: int) -> bool {
    exists|j: int| #[trigger] right_below(cells, rows, j, k)
}

/// The `n`th cell has a row right below the row `k`.
pub open spec fn holds(cells: Seq<CellSnapshotV>, rows: Seq<(int, nat)>, k: int, n: int) -> bool {
    exists|l: int| #[trigger] right_below(cells, rows, k, l) && rows[l].0 == n
}

/// The rows `k` and `l` stand below the same row: they are as far in, and nothing between them is
/// less so.
pub open spec fn siblings(rows: Seq<(int, nat)>, k: int, l: int) -> bool {
    &&& 0 <= k < l < rows.len()
    &&& rows[k].1 == rows[l].1
    &&& forall|x: int| k < x < l ==> (#[trigger] rows[x]).1 >= rows[k].1
}

/// Rows are the outline of what stands below `parent`, from the step `depth` on: each is that of a
/// cell and stands right below that of its parent, all children of a cell that has a row have one,
/// and siblings stand in the order of the cells.
pub open spec fn is_outline(
    cells: Seq<CellSnapshotV>,
    parent: Option<CellId>,
    depth: nat,
    rows: Seq<(int, nat)>,
) -> bool {
    &&& forall|k: int|
        0 <= k < rows.len() ==> is_row(cells, #[trigger] rows[k]) && rows[k].1 >= depth
    &&& forall|k: int|
        0 <= k < rows.len() && (#[trigger] rows[k]).1 == depth ==> cells[rows[k].0].parent == parent
    &&& forall|k: int| 0 <= k < rows.len() && rows[k].1 > depth ==> #[trigger] hangs(cells, rows, k)
    &&& forall|k: int, n: int|
        0 <= k < rows.len() && 0 <= n < cells.len() && cells[n].parent == Some(
            cells[rows[k].0].id,
        ) ==> #[trigger] holds(cells, rows, k, n)
    &&& forall|k: int, l: int| #[trigger] siblings(rows, k, l) ==> rows[k].0 < rows[l].0
}

/// The cells from the `i`th on whose parent is `parent` have rows at the step `depth`, and no cell
/// before the `i`th has.
spec fn starts_at(
    cells: Seq<CellSnapshotV>,
    parent: Option<CellId>,
    depth: nat,
    i: int,
    rows: Seq<(int, nat)>,
) -> bool {
    &&& forall|n: int|
        i <= n < cells.len() && (#[trigger] cells[n]).parent == parent ==> rows.contains((n, depth))
    &&& forall|k: int| 0 <= k < rows.len() && (#[trigger] rows[k]).1 == depth ==> rows[k].0 >= i
}

proof fn lemma_rows_both(cells: Seq<CellSnapshotV>, a: Seq<(int, nat)>, b: Seq<(int, nat)>)
    ensures
        rows_text(cells, a + b) == rows_text(cells, a) + rows_text(cells, b),
    decreases b.len(),
{
    if b.len() == 0 {
        assert(a + b =~= a);
        assert(rows_text(cells, a) + rows_text(cells, b) =~= rows_text(cells, a));
    } else {
        assert((a + b).drop_last() =~= a + b.drop_last());
        assert((a + b).last() == b.last());
        lemma_rows_both(cells, a, b.drop_last());
        assert(rows_text(cells, a + b) =~= rows_text(cells, a) + rows_text(cells, b));
    }
}

proof fn lemma_shift(
    cells: Seq<CellSnapshotV>,
    a: Seq<(int, nat)>,
    m: Seq<(int, nat)>,
    b: Seq<(int, nat)>,
    j: int,
    k: int,
)
    requires
        right_below(cells, m, j, k),
    ensures
        right_below(cells, a + m + b, a.len() + j, a.len() + k),
{
    let s = a + m + b;
    let n = a.len();
    assert(s[n + j] == m[j] && s[n + k] == m[k]);
    assert forall|l: int| n + j < l < n + k implies (#[trigger] s[l]).1 > s[n + j].1 by {
        assert(s[l] == m[l - n]);
    }
}

proof fn lemma_join_rows(
    cells: Seq<CellSnapshotV>,
    parent: Option<CellId>,
    depth: nat,
    i: int,
    below: Seq<(int, nat)>,
    rest: Seq<(int, nat)>,
)
    requires
        0 <= i < cells.len(),
        cells[i].parent == parent,
        is_outline(cells, Some(cells[i].id), depth + 1, below),
        starts_at(cells, Some(cells[i].id), depth + 1, 0, below),
        is_outline(cells, parent, depth, rest),
        starts_at(cells, parent, depth, i + 1, rest),
    ensures
        is_outline(cells, parent, depth, seq![(i, depth)] + below + rest),
        starts_at(cells, parent, depth, i, seq![(i, depth)] + below + rest),
{
    let head = seq![(i, depth)];
    let none = Seq::<(int, nat)>::empty();
    let rows = head + below + rest;
    let e = 1 + below.len() as int;
    assert(rows[0] == (i, depth));
    assert forall|k: int| 1 <= k < e implies #[trigger] rows[k] == below[k - 1] by {}
    assert forall|k: int| e <= k < rows.len() implies #[trigger] rows[k] == rest[k - e] by {}
    assert forall|k: int| 0 <= k < rows.len() implies is_row(cells, #[trigger] rows[k])
        && rows[k].1 >= depth by {
        if 1 <= k < e {
            assert(is_row(cells, below[k - 1]));
        } else if k >= e {
            assert(is_row(cells, rest[k - e]));
        }
    }
    assert forall|k: int| 0 <= k < rows.len() && (#[trigger] rows[k]).1 == depth implies cells[
        rows[k].0
    ].parent == parent && rows[k].0 >= i by {
        if 1 <= k < e {
            assert(below[k - 1].1 >= depth + 1);
        } else if k >= e {
            assert(rest[k - e].1 == depth);
        }
    }
    lemma_join_above(cells, parent, depth, i, below, rest);
    lemma_join_below(cells, parent, depth, i, below, rest);
    lemma_join_order(cells, parent, depth, i, below, rest);
    assert forall|n: int| i <= n < cells.len() && (#[trigger] cells[n]).parent
        == parent implies rows.contains((n, depth)) by {
        if n == i {
            assert(rows[0] == (n, depth));
        } else {
            assert(rest.contains((n, depth)));
            let k = choose|k: int| 0 <= k < rest.len() && rest[k] == (n, depth);
            assert(rows[e + k] == (n, depth));
        }
    }
}

proof fn lemma_join_above(
    cells: Seq<CellSnapshotV>,
    parent: Option<CellId>,
    depth: nat,
    i: int,
    below: Seq<(int, nat)>,
    rest: Seq<(int, nat)>,
)
    requires
        0 <= i < cells.len(),
        is_outline(cells, Some(cells[i].id), depth + 1, below),
        is_outline(cells, parent, depth, rest),
    ensures
        ({
            let rows = seq![(i, depth)] + below + rest;
            forall|k: int|
                0 <= k < rows.len() && rows[k].1 > depth ==> #[trigger] hangs(cells, rows, k)
        }),
{
    let head = seq![(i, depth)];
    let none = Seq::<(int, nat)>::empty();
    let rows = head + below + rest;
    let e = 1 + below.len() as int;
    assert forall|k: int| 0 <= k < rows.len() && rows[k].1 > depth implies #[trigger] hangs(
        cells,
        rows,
        k,
    ) by {
        assert(rows[0] == (i, depth));
        if k < e {
            assert(rows[k] == below[k - 1]);
            if below[k - 1].1 == depth + 1 {
                assert forall|l: int| 0 < l < k implies (#[trigger] rows[l]).1 > rows[0].1 by {
                    assert(rows[l] == below[l - 1]);
                    assert(below[l - 1].1 >= depth + 1);
                }
                assert(right_below(cells, rows, 0, k));
            } else {
                assert(below[k - 1].1 >= depth + 1);
                assert(hangs(cells, below, k - 1));
                let j = choose|j: int| #[trigger] right_below(cells, below, j, k - 1);
                lemma_shift(cells, head, below, rest, j, k - 1);
                assert(right_below(cells, rows, j + 1, k));
            }
        } else {
            assert(rows[k] == rest[k - e]);
            assert(hangs(cells, rest, k - e));
            let j = choose|j: int| #[trigger] right_below(cells, rest, j, k - e);
            lemma_shift(cells, head + below, rest, none, j, k - e);
            assert(head + below + rest + none =~= rows);
            assert(right_below(cells, rows, e + j, k));
        }
    }
}

proof fn lemma_join_below(
    cells: Seq<CellSnapshotV>,
    parent: Option<CellId>,
    depth: nat,
    i: int,
    below: Seq<(int, nat)>,
    rest: Seq<(int, nat)>,
)
    requires
        0 <= i < cells.len(),
        is_outline(cells, Some(cells[i].id), depth + 1, below),
        starts_at(cells, Some(cells[i].id), depth + 1, 0, below),
        is_outline(cells, parent, depth, rest),
    ensures
        ({
            let rows = seq![(i, depth)] + below + rest;
            forall|k: int, n: int|
                0 <= k < rows.len() && 0 <= n < cells.len() && cells[n].parent == Some(
                    cells[rows[k].0].id,
                ) ==> #[trigger] holds(cells, rows, k, n)
        }),
{
    let head = seq![(i, depth)];
    let none = Seq::<(int, nat)>::empty();
    let rows = head + below + rest;
    let e = 1 + below.len() as int;
    assert forall|k: int, n: int|
        0 <= k < rows.len() && 0 <= n < cells.len() && cells[n].parent == Some(
            cells[rows[k].0].id,
        ) implies #[trigger] holds(cells, rows, k, n) by {
        assert(rows[0] == (i, depth));
        if k == 0 {
            assert(below.contains((n, depth + 1)));
            let x = choose|x: int| 0 <= x < below.len() && below[x] == (n, depth + 1);
            let l = x + 1;
            assert(rows[l] == below[x]);
            assert forall|y: int| 0 < y < l implies (#[trigger] rows[y]).1 > rows[0].1 by {
                assert(rows[y] == below[y - 1]);
                assert(below[y - 1].1 >= depth + 1);
            }
            assert(right_below(cells, rows, 0, l) && rows[l].0 == n);
        } else if k < e {
            assert(rows[k] == below[k - 1]);
            assert(holds(cells, below, k - 1, n));
            let l = choose|l: int| #[trigger]
                right_below(cells, below, k - 1, l) && below[l].0 == n;
            lemma_shift(cells, head, below, rest, k - 1, l);
            assert(rows[l + 1] == below[l]);
            assert(right_below(cells, rows, k, l + 1));
        } else {
            assert(rows[k] == rest[k - e]);
            assert(holds(cells, rest, k - e, n));
            let l = choose|l: int| #[trigger] right_below(cells, rest, k - e, l) && rest[l].0 == n;
            lemma_shift(cells, head + below, rest, none, k - e, l);
            assert(head + below + rest + none =~= rows);
            assert(rows[e + l] == rest[l]);
            assert(right_below(cells, rows, k, e + l));
        }
    }
}

proof fn lemma_join_order(
    cells: Seq<CellSnapshotV>,
    parent: Option<CellId>,
    depth: nat,
    i: int,
    below: Seq<(int, nat)>,
    rest: Seq<(int, nat)>,
)
    requires
        0 <= i < cells.len(),
        is_outline(cells, Some(cells[i].id), depth + 1, below),
        is_outline(cells, parent, depth, rest),
        starts_at(cells, parent, depth, i + 1, rest),
    ensures
        ({
            let rows = seq![(i, depth)] + below + rest;
            forall|k: int, l: int| #[trigger] siblings(rows, k, l) ==> rows[k].0 < rows[l].0
        }),
{
    let head = seq![(i, depth)];
    let rows = head + below + rest;
    let e = 1 + below.len() as int;
    assert forall|k: int, l: int| #[trigger] siblings(rows, k, l) implies rows[k].0
        < rows[l].0 by {
        assert(rows[0] == (i, depth));
        if l < e {
            assert(rows[l] == below[l - 1]);
            assert(below[l - 1].1 >= depth + 1);
            assert(k > 0);
            assert(rows[k] == below[k - 1]);
            assert forall|x: int| k - 1 < x < l - 1 implies (#[trigger] below[x]).1 >= below[k
                - 1].1 by {
                assert(rows[x + 1] == below[x]);
            }
            assert(siblings(below, k - 1, l - 1));
        } else {
            assert(rows[l] == rest[l - e]);
            if k >= e {
                assert(rows[k] == rest[k - e]);
                assert forall|x: int| k - e < x < l - e implies (#[trigger] rest[x]).1 >= rest[k
                    - e].1 by {
                    assert(rows[x + e] == rest[x]);
                }
                assert(siblings(rest, k - e, l - e));
            } else if k == 0 {
                assert(rest[l - e].1 == depth);
            } else {
                assert(rows[k] == below[k - 1]);
                assert(below[k - 1].1 >= depth + 1);
                assert(rest[0].1 >= depth);
                if rest[0].1 > depth {
                    assert(hangs(cells, rest, 0));
                    let j = choose|j: int| #[trigger] right_below(cells, rest, j, 0);
                }
                assert(rest[0].1 == depth);
                assert(rows[e] == rest[0]);
                if l > e {
                    assert(rows[e].1 >= rows[k].1);
                }
            }
        }
    }
}

proof fn lemma_outline(
    cells: Seq<CellSnapshotV>,
    parent: Option<CellId>,
    depth: nat,
    i: int,
    fuel: nat,
) -> (rows: Seq<(int, nat)>)
    requires
        0 <= i <= cells.len(),
        tree_lines(cells, parent, margin(depth), i, fuel) is Some,
    ensures
        tree_lines(cells, parent, margin(depth), i, fuel) == Some(rows_text(cells, rows)),
        is_outline(cells, parent, depth, rows),
        starts_at(cells, parent, depth, i, rows),
    decreases fuel, cells.len() - i,
{
    let none = Seq::<(int, nat)>::empty();
    if i >= cells.len() {
        none
    } else if cells[i].parent != parent {
        let rows = lemma_outline(cells, parent, depth, i + 1, fuel);
        assert(starts_at(cells, parent, depth, i, rows));
        rows
    } else {
        let c = cells[i];
        reveal_strlit("  ");
        assert(margin(depth) + "  "@ =~= margin(depth + 1));
        let below = lemma_outline(cells, Some(c.id), depth + 1, 0, (fuel - 1) as nat);
        let rest = lemma_outline(cells, parent, depth, i + 1, fuel);
        let head = seq![(i, depth)];
        lemma_join_rows(cells, parent, depth, i, below, rest);
        lemma_rows_both(cells, head, below);
        lemma_rows_both(cells, head + below, rest);
        assert(head.drop_last() =~= none);
        let line = cell_line(c, margin(depth));
        assert(rows_text(cells, none) + line =~= line);
        assert(rows_text(cells, head) == cell_line(c, margin(depth)));
        head + below + rest
    }
}

/// The tree is printed as an outline: every cell without a parent stands at the margin, in the
/// order of the list; the children of a cell stand right below it, two spaces further in and in
/// that order, each with all that is below it; and nothing else is printed.
pub proof fn law_trees_are_printed_as_outlines(cells: Seq<CellSnapshotV>) -> (rows: Seq<(int, nat)>)
    requires
        nests(cells),
    ensures
        tree_text(cells) == rows_text(cells, rows),
        is_outline(cells, None, 0, rows),
        forall|n: int|
            0 <= n < cells.len() && (#[trigger] cells[n]).parent is None ==> rows.contains((n, 0)),
{
    let fuel = choose|fuel: nat| #[trigger]
        tree_lines(cells, None, Seq::empty(), 0, fuel) is Some;
    assert(margin(0) =~= Seq::<char>::empty());
    lemma_outline(cells, None, 0, 0, fuel)
}

} // verus!
