//! The layout of panes on a screen: a binary split tree whose leaves tile an area.

use vstd::prelude::*;

verus! {

/// The number of a pane.
pub type PaneId = u32;

/// How a pane is split.
#[derive(Debug, Clone, Copy, PartialEq, Eq, Structural)]
pub enum Dir {
    /// Panes side by side (split the width).
    Horizontal,
    /// Panes stacked (split the height).
    Vertical,
}

/// A layout of panes: a binary split tree. A split halves its area.
#[derive(Debug)]
pub enum Layout {
    Leaf(PaneId),
    Split { dir: Dir, a: Box<Layout>, b: Box<Layout> },
}

/// The panes of a layout, from left to right and top to bottom.
pub open spec fn leaves(l: Layout) -> Seq<PaneId>
    decreases l,
{
    match l {
        Layout::Leaf(p) => seq![p],
        Layout::Split { a, b, .. } => leaves(*a) + leaves(*b),
    }
}

/// An area of the screen: its upper left corner, its width and its height.
#[derive(Debug, Clone, Copy, PartialEq, Eq, Structural)]
pub struct Rect {
    pub x: u16,
    pub y: u16,
    pub w: u16,
    pub h: u16,
}

/// The area's corners have coordinates.
pub open spec fn on_screen(r: Rect) -> bool {
    r.x + r.w <= u16::MAX && r.y + r.h <= u16::MAX
}

/// The point lies in the area.
pub open spec fn inside(r: Rect, x: int, y: int) -> bool {
    r.x <= x < r.x + r.w && r.y <= y < r.y + r.h
}

/// The first half of an area. The second half takes what is left over.
pub open spec fn first_half(dir: Dir, r: Rect) -> Rect {
    match dir {
        Dir::Horizontal => Rect { w: r.w / 2, ..r },
        Dir::Vertical => Rect { h: r.h / 2, ..r },
    }
}

/// The second half of an area.
pub open spec fn second_half(dir: Dir, r: Rect) -> Rect {
    match dir {
        Dir::Horizontal => Rect { x: (r.x + r.w / 2) as u16, w: (r.w - r.w / 2) as u16, ..r },
        Dir::Vertical => Rect { y: (r.y + r.h / 2) as u16, h: (r.h - r.h / 2) as u16, ..r },
    }
}

/// The area of each pane.
pub open spec fn tiles(l: Layout, area: Rect) -> Seq<(PaneId, Rect)>
    decreases l,
{
    match l {
        Layout::Leaf(p) => seq![(p, area)],
        Layout::Split { dir, a, b } => tiles(*a, first_half(dir, area)) + tiles(
            *b,
            second_half(dir, area),
        ),
    }
}

/// The first area of a pane, from the `i`th on.
pub open spec fn tile_of(t: Seq<(PaneId, Rect)>, p: PaneId, i: int) -> Option<Rect>
    decreases t.len() - i,
{
    if i < 0 || i >= t.len() {
        None
    } else if t[i].0 == p {
        Some(t[i].1)
    } else {
        tile_of(t, p, i + 1)
    }
}

/// The panes tile the area: each has a part of it, no two parts meet, and nothing of the area is
/// left over.
pub proof fn law_panes_tile_the_area(l: Layout, area: Rect)
    requires
        on_screen(area),
    ensures
        tiles(l, area).len() == leaves(l).len(),
        forall|i: int|
            0 <= i < leaves(l).len() ==> (#[trigger] tiles(l, area)[i]).0 == leaves(l)[i]
                && on_screen(tiles(l, area)[i].1),
        forall|i: int, x: int, y: int|
            0 <= i < leaves(l).len() && #[trigger] inside(tiles(l, area)[i].1, x, y) ==> inside(
                area,
                x,
                y,
            ),
        forall|i: int, j: int, x: int, y: int|
            0 <= i < leaves(l).len() && 0 <= j < leaves(l).len() && #[trigger] inside(
                tiles(l, area)[i].1,
                x,
                y,
            ) && #[trigger] inside(tiles(l, area)[j].1, x, y) ==> i == j,
        forall|x: int, y: int| #[trigger]
            inside(area, x, y) ==> covered(tiles(l, area), x, y),
    decreases l,
{
    match l {
        Layout::Leaf(p) => {
            let t = tiles(l, area);
            assert(t[0] == (p, area));
            assert forall|x: int, y: int| #[trigger] inside(area, x, y) implies covered(t, x, y) by {
                assert(inside(t[0].1, x, y));
            }
        },
        Layout::Split { dir, a, b } => {
            let ra = first_half(dir, area);
            let rb = second_half(dir, area);
            law_panes_tile_the_area(*a, ra);
            law_panes_tile_the_area(*b, rb);
            let ta = tiles(*a, ra);
            let tb = tiles(*b, rb);
            let t = tiles(l, area);
            assert forall|i: int| 0 <= i < t.len() implies #[trigger] t[i] == if i < ta.len() {
                ta[i]
            } else {
                tb[i - ta.len()]
            } by {}
            assert forall|x: int, y: int| #[trigger] inside(area, x, y) implies covered(t, x, y) by {
                if inside(ra, x, y) {
                    let i = choose|i: int|
                        0 <= i < ta.len() && #[trigger] inside(ta[i].1, x, y);
                    assert(t[i] == ta[i]);
                    assert(inside(t[i].1, x, y));
                } else {
                    assert(inside(rb, x, y));
                    let i = choose|i: int|
                        0 <= i < tb.len() && #[trigger] inside(tb[i].1, x, y);
                    assert(t[i + ta.len()] == tb[i]);
                    assert(inside(t[i + ta.len()].1, x, y));
                }
            }
            assert forall|i: int, x: int, y: int|
                0 <= i < t.len() && #[trigger] inside(t[i].1, x, y) implies inside(area, x, y) && (
            i < ta.len() <==> inside(ra, x, y)) && (i >= ta.len() <==> inside(rb, x, y)) by {
                if i < ta.len() {
                    assert(inside(ta[i].1, x, y));
                } else {
                    assert(inside(tb[i - ta.len()].1, x, y));
                }
            }
            assert forall|i: int, j: int, x: int, y: int|
                0 <= i < t.len() && 0 <= j < t.len() && #[trigger] inside(t[i].1, x, y)
                    && #[trigger] inside(t[j].1, x, y) implies i == j by {
                if i < ta.len() {
                    assert(inside(ta[i].1, x, y) && inside(ta[j].1, x, y));
                } else {
                    assert(inside(tb[i - ta.len()].1, x, y) && inside(tb[j - ta.len()].1, x, y));
                }
            }
        },
    }
}

/// Some part holds the point.
pub open spec fn covered(t: Seq<(PaneId, Rect)>, x: int, y: int) -> bool {
    exists|i: int| 0 <= i < t.len() && #[trigger] inside(t[i].1, x, y)
}

/// Lays the panes out on an area, in order.
pub fn layout_rects(layout: &Layout, area: Rect, out: &mut Vec<(PaneId, Rect)>)
    requires
        on_screen(area),
    ensures
        final(out)@ == old(out)@ + tiles(*layout, area),
    decreases *layout,
{
    match layout {
        Layout::Leaf(p) => {
            out.push((*p, area));
            assert(out@ =~= old(out)@ + seq![(*p, area)]);
        },
        Layout::Split { dir, a, b } => {
            let (ra, rb) = match dir {
                Dir::Horizontal => {
                    let aw: u16 = area.w / 2;
                    (
                        Rect { x: area.x, y: area.y, w: aw, h: area.h },
                        Rect { x: area.x + aw, y: area.y, w: area.w - aw, h: area.h },
                    )
                },
                Dir::Vertical => {
                    let ah: u16 = area.h / 2;
                    (
                        Rect { x: area.x, y: area.y, w: area.w, h: ah },
                        Rect { x: area.x, y: area.y + ah, w: area.w, h: area.h - ah },
                    )
                },
            };
            layout_rects(a, ra, out);
            layout_rects(b, rb, out);
            assert(out@ =~= old(out)@ + (tiles(**a, ra) + tiles(**b, rb)));
        },
    }
}

/// The layout with another in the place of its first leaf `target`.
pub open spec fn replaced(l: Layout, target: PaneId, with: Layout) -> Layout
    decreases l,
{
    match l {
        Layout::Leaf(p) => if p == target {
            with
        } else {
            l
        },
        Layout::Split { dir, a, b } => if leaves(*a).contains(target) {
            Layout::Split { dir, a: Box::new(replaced(*a, target, with)), b }
        } else {
            Layout::Split { dir, a, b: Box::new(replaced(*b, target, with)) }
        },
    }
}

/// Puts another layout in the place of the first leaf `target`, and says whether there was one.
pub fn replace_leaf(layout: &mut Layout, target: PaneId, repl: &mut Option<Layout>) -> (r: bool)
    ensures
        r == leaves(*old(layout)).contains(target),
        *final(layout) == if r && *old(repl) is Some {
            replaced(*old(layout), target, (*old(repl))->0)
        } else {
            *old(layout)
        },
        *final(repl) == if r {
            None
        } else {
            *old(repl)
        },
    decreases *old(layout),
{
    match layout {
        Layout::Leaf(p) => {
            assert(leaves(*old(layout))[0] == *p);
            if *p == target {
                match repl.take() {
                    Some(with) => {
                        *layout = with;
                    },
                    None => {},
                }
                true
            } else {
                false
            }
        },
        Layout::Split { a, b, .. } => {
            proof {
                lemma_contains_either(leaves(**a), leaves(**b), target);
            }
            if replace_leaf(a, target, repl) {
                true
            } else {
                replace_leaf(b, target, repl)
            }
        },
    }
}

proof fn lemma_contains_either(a: Seq<PaneId>, b: Seq<PaneId>, p: PaneId)
    ensures
        (a + b).contains(p) <==> a.contains(p) || b.contains(p),
{
    let s = a + b;
    if a.contains(p) {
        let i = choose|i: int| 0 <= i < a.len() && a[i] == p;
        assert(s[i] == p);
    }
    if b.contains(p) {
        let i = choose|i: int| 0 <= i < b.len() && b[i] == p;
        assert(s[i + a.len()] == p);
    }
    if s.contains(p) {
        let i = choose|i: int| 0 <= i < s.len() && s[i] == p;
        if i < a.len() {
            assert(a[i] == p);
        } else {
            assert(b[i - a.len()] == p);
        }
    }
}

/// Splitting the pane `target` keeps every pane, each once, and adds the new one.
pub proof fn law_splitting_adds_one_pane(l: Layout, target: PaneId, dir: Dir, new: PaneId)
    requires
        leaves(l).no_duplicates(),
        leaves(l).contains(target),
        !leaves(l).contains(new),
    ensures
        ({
            let s = Layout::Split {
                dir,
                a: Box::new(Layout::Leaf(target)),
                b: Box::new(Layout::Leaf(new)),
            };
            let r = leaves(replaced(l, target, s));
            &&& r.no_duplicates()
            &&& r.len() == leaves(l).len() + 1
            &&& forall|p: PaneId| #[trigger] r.contains(p) <==> leaves(l).contains(p) || p == new
        }),
    decreases l,
{
    let s = Layout::Split {
        dir,
        a: Box::new(Layout::Leaf(target)),
        b: Box::new(Layout::Leaf(new)),
    };
    let r = leaves(replaced(l, target, s));
    match l {
        Layout::Leaf(q) => {
            assert(leaves(l)[0] == q);
            assert(r =~= seq![target, new]) by {
                assert(leaves(Layout::Leaf(target)) == seq![target]);
                assert(leaves(Layout::Leaf(new)) == seq![new]);
            }
            assert(r[0] == target && r[1] == new);
        },
        Layout::Split { dir: d, a, b } => {
            let la = leaves(*a);
            let lb = leaves(*b);
            assert forall|p: PaneId| #[trigger] leaves(l).contains(p) <==> la.contains(p)
                || lb.contains(p) by {
                lemma_contains_either(la, lb, p);
            }
            lemma_apart(la, lb);
            if la.contains(target) {
                law_splitting_adds_one_pane(*a, target, dir, new);
                lemma_together(leaves(replaced(*a, target, s)), lb);
                assert forall|p: PaneId| #[trigger] r.contains(p) <==> leaves(l).contains(p) || p
                    == new by {
                    lemma_contains_either(leaves(replaced(*a, target, s)), lb, p);
                }
            } else {
                law_splitting_adds_one_pane(*b, target, dir, new);
                lemma_together(la, leaves(replaced(*b, target, s)));
                assert forall|p: PaneId| #[trigger] r.contains(p) <==> leaves(l).contains(p) || p
                    == new by {
                    lemma_contains_either(la, leaves(replaced(*b, target, s)), p);
                }
            }
        },
    }
}

proof fn lemma_apart(a: Seq<PaneId>, b: Seq<PaneId>)
    requires
        (a + b).no_duplicates(),
    ensures
        a.no_duplicates(),
        b.no_duplicates(),
        forall|p: PaneId| !(#[trigger] a.contains(p) && b.contains(p)),
{
    let s = a + b;
    assert forall|i: int, j: int| 0 <= i < a.len() && 0 <= j < a.len() && i != j implies a[i]
        != a[j] by {
        assert(s[i] == a[i] && s[j] == a[j]);
    }
    assert forall|i: int, j: int| 0 <= i < b.len() && 0 <= j < b.len() && i != j implies b[i]
        != b[j] by {
        assert(s[i + a.len()] == b[i] && s[j + a.len()] == b[j]);
    }
    assert forall|p: PaneId| !(#[trigger] a.contains(p) && b.contains(p)) by {
        if a.contains(p) && b.contains(p) {
            let i = choose|i: int| 0 <= i < a.len() && a[i] == p;
            let j = choose|j: int| 0 <= j < b.len() && b[j] == p;
            assert(s[i] == p && s[j + a.len()] == p);
        }
    }
}

proof fn lemma_together(a: Seq<PaneId>, b: Seq<PaneId>)
    requires
        a.no_duplicates(),
        b.no_duplicates(),
        forall|p: PaneId| !(#[trigger] a.contains(p) && b.contains(p)),
    ensures
        (a + b).no_duplicates(),
{
    let s = a + b;
    assert forall|i: int, j: int| 0 <= i < s.len() && 0 <= j < s.len() && i != j implies s[i]
        != s[j] by {
        if i < a.len() && j >= a.len() {
            assert(a.contains(a[i]));
            assert(b.contains(b[j - a.len()]));
        } else if j < a.len() && i >= a.len() {
            assert(a.contains(a[j]));
            assert(b.contains(b[i - a.len()]));
        }
    }
}

/// The area of a pane.
pub fn rect_of(rects: &Vec<(PaneId, Rect)>, p: PaneId) -> (r: Option<Rect>)
    ensures
        r == tile_of(rects@, p, 0),
{
    let mut i: usize = 0;
    while i < rects.len()
        invariant
            i <= rects.len(),
            tile_of(rects@, p, 0) == tile_of(rects@, p, i as int),
        decreases rects.len() - i,
    {
        if rects[i].0 == p {
            return Some(rects[i].1);
        }
        i += 1;
    }
    None
}

} // verus!
