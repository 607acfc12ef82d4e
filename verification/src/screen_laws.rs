//! What stands on the screen when it is painted.

use vstd::prelude::*;
use vstd::utf8::*;

use crate::layout::{inside, law_panes_tile_the_area, leaves, tiles, PaneId, Rect};
use crate::lines::lines_of;
use crate::mux::{area, too_small, Mode, MuxV, PaneV};
use crate::screen::{
    bar_text, bottom_line, border_of, cut_to, cuts_at, first_chars, glyph_at, glyph_row, grid_of,
    grid_paints, lesser, line_paints, pane_paints, panes_paints, screen_paints, side_line,
    side_paints, status_bar, title, top_line, GlyphV, Grid, PaintV,
};

verus! {

// ---------- Dots ------------------------------------------------------------

/// What stands at a point of the screen.
pub enum DotV {
    Blank,
    Char(char),
    Glyph(GlyphV),
    /// A character in reverse.
    Bar(char),
}

/// What a step of painting puts at a point, if it puts something there.
pub open spec fn dot(p: PaintV, x: int, y: int) -> Option<DotV> {
    match p {
        PaintV::Clear => Some(DotV::Blank),
        PaintV::Text { x: x0, y: y0, text } => if y == y0 && x0 <= x < x0 + text.len() {
            Some(DotV::Char(text[x - x0]))
        } else {
            None
        },
        PaintV::Glyphs { x: x0, y: y0, glyphs } => if y == y0 && x0 <= x < x0 + glyphs.len() {
            Some(DotV::Glyph(glyphs[x - x0]))
        } else {
            None
        },
        PaintV::Bar { y: y0, text } => if y == y0 && 0 <= x < text.len() {
            Some(DotV::Bar(text[x]))
        } else {
            None
        },
    }
}

/// What stands at a point when steps were taken: what the last step there put.
pub open spec fn shows(ps: Seq<PaintV>, x: int, y: int) -> Option<DotV>
    decreases ps.len(),
{
    if ps.len() == 0 {
        None
    } else {
        match dot(ps.last(), x, y) {
            Some(d) => Some(d),
            None => shows(ps.drop_last(), x, y),
        }
    }
}

proof fn lemma_shows_both(a: Seq<PaintV>, b: Seq<PaintV>, x: int, y: int)
    ensures
        shows(a + b, x, y) == match shows(b, x, y) {
            Some(d) => Some(d),
            None => shows(a, x, y),
        },
    decreases b.len(),
{
    if b.len() == 0 {
        assert(a + b =~= a);
    } else {
        assert((a + b).last() == b.last());
        assert((a + b).drop_last() =~= a + b.drop_last());
        lemma_shows_both(a, b.drop_last(), x, y);
    }
}

proof fn lemma_shows_one(p: PaintV, x: int, y: int)
    ensures
        shows(seq![p], x, y) == dot(p, x, y),
{
    assert(seq![p].drop_last() =~= Seq::<PaintV>::empty());
    assert(seq![p].last() == p);
    assert(shows(Seq::<PaintV>::empty(), x, y) is None);
}

proof fn lemma_shows_none(ps: Seq<PaintV>, x: int, y: int)
    requires
        forall|i: int| 0 <= i < ps.len() ==> dot(#[trigger] ps[i], x, y) is None,
    ensures
        shows(ps, x, y) is None,
    decreases ps.len(),
{
    if ps.len() > 0 {
        let rest = ps.drop_last();
        assert forall|i: int| 0 <= i < rest.len() implies dot(#[trigger] rest[i], x, y) is None by {
            assert(rest[i] == ps[i]);
        }
        assert(dot(ps[ps.len() - 1], x, y) is None);
        lemma_shows_none(rest, x, y);
    }
}

proof fn lemma_shows_only(ps: Seq<PaintV>, k: int, x: int, y: int)
    requires
        0 <= k < ps.len(),
        forall|i: int| 0 <= i < ps.len() && i != k ==> dot(#[trigger] ps[i], x, y) is None,
    ensures
        shows(ps, x, y) == dot(ps[k], x, y),
{
    let (a, b) = (ps.take(k), ps.skip(k + 1));
    assert(ps =~= a + seq![ps[k]] + b);
    assert forall|i: int| 0 <= i < a.len() implies dot(#[trigger] a[i], x, y) is None by {
        assert(a[i] == ps[i]);
    }
    assert forall|i: int| 0 <= i < b.len() implies dot(#[trigger] b[i], x, y) is None by {
        assert(b[i] == ps[k + 1 + i]);
    }
    lemma_shows_none(a, x, y);
    lemma_shows_none(b, x, y);
    lemma_shows_one(ps[k], x, y);
    lemma_shows_both(a, seq![ps[k]], x, y);
    lemma_shows_both(a + seq![ps[k]], b, x, y);
}

// ---------- Panes -----------------------------------------------------------

/// The steps inside a pane's border.
spec fn inner_paints(pane: PaneV, grid: Option<Grid>, r: Rect) -> Seq<PaintV> {
    if pane.active is LiveTty {
        match grid {
            Some(g) => grid_paints(g, r),
            None => Seq::empty(),
        }
    } else {
        line_paints(lines_of(pane), r)
    }
}

proof fn lemma_inner_none(pane: PaneV, grid: Option<Grid>, r: Rect, x: int, y: int)
    requires
        r.w >= 2,
        r.h >= 2,
        !(r.x < x < r.x + r.w - 1 && r.y < y < r.y + r.h - 1),
    ensures
        shows(inner_paints(pane, grid, r), x, y) is None,
{
    let ps = inner_paints(pane, grid, r);
    assert forall|i: int| 0 <= i < ps.len() implies dot(#[trigger] ps[i], x, y) is None by {
        if pane.active is LiveTty {
            let g = grid->Some_0;
            assert(ps[i] == PaintV::Glyphs {
                x: r.x + 1,
                y: r.y + 1 + i,
                glyphs: glyph_row(g, i, lesser(r.w - 2, g.cols as int)),
            });
        } else {
            assert(ps[i] is Text);
            assert(ps[i]->Text_text.len() <= r.w - 2);
        }
    }
    lemma_shows_none(ps, x, y);
}

proof fn lemma_sides(focused: bool, r: Rect, x: int, y: int)
    requires
        r.w >= 2,
        r.h >= 2,
    ensures
        shows(side_paints(border_of(focused), r), x, y) == if inside(r, x, y) && r.y < y < r.y + r.h
            - 1 {
            Some(DotV::Char(side_line(border_of(focused), r.w - 2)[x - r.x]))
        } else {
            None
        },
{
    let b = border_of(focused);
    let ps = side_paints(b, r);
    let line = side_line(b, r.w - 2);
    assert(line.len() == r.w);
    let k = y - r.y - 1;
    assert forall|i: int| 0 <= i < ps.len() && i != k implies dot(
        #[trigger] ps[i],
        x,
        y,
    ) is None by {
        assert(ps[i] == PaintV::Text { x: r.x as int, y: r.y + 1 + i, text: line });
    }
    if 0 <= k < ps.len() {
        assert(ps[k] == PaintV::Text { x: r.x as int, y: r.y + 1 + k, text: line });
        lemma_shows_only(ps, k, x, y);
    } else {
        lemma_shows_none(ps, x, y);
    }
}

proof fn lemma_title(branch: Seq<char>, width: int)
    requires
        width >= 0,
    ensures
        title(branch, width).len() == if branch.len() + 2 <= width {
            (branch.len() + 2) as int
        } else {
            width
        },
{
    reveal_strlit(" ");
}

proof fn lemma_pane_shows(pane: PaneV, grid: Option<Grid>, r: Rect, focused: bool, x: int, y: int)
    requires
        r.w >= 2,
        r.h >= 2,
    ensures
        shows(pane_paints(pane, grid, r, focused), x, y) == if !inside(r, x, y) {
            None
        } else if y == r.y + r.h - 1 {
            Some(DotV::Char(bottom_line(border_of(focused), r.w - 2)[x - r.x]))
        } else if y == r.y {
            Some(DotV::Char(top_line(border_of(focused), pane.branch, r.w - 2)[x - r.x]))
        } else {
            match shows(inner_paints(pane, grid, r), x, y) {
                Some(d) => Some(d),
                None => Some(DotV::Char(side_line(border_of(focused), r.w - 2)[x - r.x])),
            }
        },
{
    let b = border_of(focused);
    let top = PaintV::Text {
        x: r.x as int,
        y: r.y as int,
        text: top_line(b, pane.branch, r.w - 2),
    };
    let bottom = PaintV::Text {
        x: r.x as int,
        y: r.y + r.h - 1,
        text: bottom_line(b, r.w - 2),
    };
    let sides = side_paints(b, r);
    let inner = inner_paints(pane, grid, r);
    lemma_title(pane.branch, r.w - 2);
    assert(top_line(b, pane.branch, r.w - 2).len() == r.w);
    assert(bottom_line(b, r.w - 2).len() == r.w);
    lemma_shows_one(top, x, y);
    lemma_shows_one(bottom, x, y);
    lemma_sides(focused, r, x, y);
    if !(r.x < x < r.x + r.w - 1 && r.y < y < r.y + r.h - 1) {
        lemma_inner_none(pane, grid, r, x, y);
    }
    lemma_shows_both(seq![top], sides, x, y);
    lemma_shows_both(seq![top] + sides, inner, x, y);
    lemma_shows_both(seq![top] + sides + inner, seq![bottom], x, y);
}

/// The row `row` inside a pane's border shows the line `line`, cut to the width and blank behind
/// its end.
pub open spec fn row_shows(ps: Seq<PaintV>, r: Rect, row: int, line: Seq<char>) -> bool {
    forall|i: int|
        0 <= i < r.w - 2 ==> #[trigger] shows(ps, r.x + 1 + i, r.y + 1 + row) == Some(
            DotV::Char(
                if i < line.len() {
                    line[i]
                } else {
                    ' '
                },
            ),
        )
}

proof fn lemma_line_row(pane: PaneV, grid: Option<Grid>, r: Rect, focused: bool, row: int)
    requires
        r.w >= 2,
        r.h >= 2,
        !(pane.active is LiveTty),
        0 <= row < r.h - 2,
    ensures
        ({
            let lines = lines_of(pane);
            let over = lines.len() - (r.h - 2);
            let k = if over > 0 {
                over + row
            } else {
                row
            };
            row_shows(
                pane_paints(pane, grid, r, focused),
                r,
                row,
                if k < lines.len() {
                    lines[k]
                } else {
                    Seq::empty()
                },
            )
        }),
{
    let lines = lines_of(pane);
    let over = lines.len() - (r.h - 2);
    let k = if over > 0 {
        over + row
    } else {
        row
    };
    let line = if k < lines.len() {
        lines[k]
    } else {
        Seq::<char>::empty()
    };
    let ps = pane_paints(pane, grid, r, focused);
    let inner = line_paints(lines, r);
    assert(inner_paints(pane, grid, r) == inner);
    assert forall|i: int| 0 <= i < r.w - 2 implies #[trigger] shows(
        ps,
        r.x + 1 + i,
        r.y + 1 + row,
    ) == Some(
        DotV::Char(
            if i < line.len() {
                line[i]
            } else {
                ' '
            },
        ),
    ) by {
        let (x, y) = (r.x + 1 + i, r.y + 1 + row);
        lemma_pane_shows(pane, grid, r, focused, x, y);
        assert forall|j: int| 0 <= j < inner.len() && j != row implies dot(
            #[trigger] inner[j],
            x,
            y,
        ) is None by {
            assert(inner[j] is Text && inner[j]->Text_y == r.y + 1 + j);
        }
        lemma_shows_only(inner, row, x, y);
        assert(inner[row] == PaintV::Text {
            x: r.x + 1,
            y: r.y + 1 + row,
            text: first_chars(line, r.w - 2),
        });
        assert(side_line(border_of(focused), r.w - 2)[x - r.x] == ' ');
    }
}

/// A pane with at least as many lines as rows shows the last of them: the last line in the bottom
/// row, and in each row above it the line before. With fewer lines it shows them from the top, and
/// the rows below are blank.
pub proof fn law_panes_show_their_last_lines(
    pane: PaneV,
    grid: Option<Grid>,
    r: Rect,
    focused: bool,
    up: int,
)
    requires
        r.w >= 2,
        r.h >= 2,
        !(pane.active is LiveTty),
        0 <= up < r.h - 2,
    ensures
        ({
            let ps = pane_paints(pane, grid, r, focused);
            let lines = lines_of(pane);
            let rows = r.h - 2;
            &&& lines.len() >= rows ==> row_shows(ps, r, rows - 1 - up, lines[lines.len() - 1 - up])
            &&& lines.len() < rows && up < lines.len() ==> row_shows(ps, r, up, lines[up])
            &&& lines.len() < rows && up >= lines.len() ==> row_shows(ps, r, up, Seq::empty())
        }),
{
    lemma_line_row(pane, grid, r, focused, r.h - 3 - up);
    lemma_line_row(pane, grid, r, focused, up);
}

/// The prompt of a pane is on the screen, as long as the pane has a row: it stands below what the
/// pane shows, with a block where the next character will stand.
pub proof fn law_the_prompt_is_shown(pane: PaneV, grid: Option<Grid>, r: Rect, focused: bool)
    requires
        r.w >= 2,
        r.h >= 3,
        pane.active is Cooked,
    ensures
        ({
            let ps = pane_paints(pane, grid, r, focused);
            let rows = r.h - 2;
            let n = lines_of(pane).len() as int;
            let at = if n < rows {
                n - 1
            } else {
                rows - 1
            };
            row_shows(ps, r, at, "❯ "@ + pane.active->Cooked_input + "█"@)
        }),
{
    let lines = lines_of(pane);
    assert(lines.last() == "❯ "@ + pane.active->Cooked_input + "█"@);
    let rows = r.h - 2;
    let n = lines.len() as int;
    let at = if n < rows {
        n - 1
    } else {
        rows - 1
    };
    lemma_line_row(pane, grid, r, focused, at);
}

/// A pane has a border, heavy where it is focused and light where it is not, with the name of its
/// branch at the top.
pub proof fn law_panes_have_borders(
    pane: PaneV,
    grid: Option<Grid>,
    r: Rect,
    focused: bool,
    i: int,
)
    requires
        r.w >= 2,
        r.h >= 2,
    ensures
        ({
            let ps = pane_paints(pane, grid, r, focused);
            let (right, low) = (r.x + r.w - 1, r.y + r.h - 1);
            let across = Some(
                DotV::Char(
                    if focused {
                        '━'
                    } else {
                        '─'
                    },
                ),
            );
            let down = Some(
                DotV::Char(
                    if focused {
                        '┃'
                    } else {
                        '│'
                    },
                ),
            );
            &&& shows(ps, r.x as int, r.y as int) == Some(
                DotV::Char(
                    if focused {
                        '┏'
                    } else {
                        '┌'
                    },
                ),
            )
            &&& shows(ps, right, r.y as int) == Some(
                DotV::Char(
                    if focused {
                        '┓'
                    } else {
                        '┐'
                    },
                ),
            )
            &&& shows(ps, r.x as int, low) == Some(
                DotV::Char(
                    if focused {
                        '┗'
                    } else {
                        '└'
                    },
                ),
            )
            &&& shows(ps, right, low) == Some(
                DotV::Char(
                    if focused {
                        '┛'
                    } else {
                        '┘'
                    },
                ),
            )
            &&& r.x < i < right ==> shows(ps, i, low) == across
            &&& r.y < i < low ==> shows(ps, r.x as int, i) == down && shows(ps, right, i) == down
            &&& r.x < i < right ==> shows(ps, i, r.y as int) == {
                let k = i - r.x - 1;
                if k == 0 || k == pane.branch.len() + 1 {
                    Some(DotV::Char(' '))
                } else if k <= pane.branch.len() {
                    Some(DotV::Char(pane.branch[k - 1]))
                } else {
                    across
                }
            }
        }),
{
    let (right, low) = (r.x + r.w - 1, r.y + r.h - 1);
    reveal_strlit(" ");
    lemma_title(pane.branch, r.w - 2);
    lemma_pane_shows(pane, grid, r, focused, r.x as int, r.y as int);
    lemma_pane_shows(pane, grid, r, focused, right, r.y as int);
    lemma_pane_shows(pane, grid, r, focused, r.x as int, low);
    lemma_pane_shows(pane, grid, r, focused, right, low);
    lemma_pane_shows(pane, grid, r, focused, i, low);
    lemma_pane_shows(pane, grid, r, focused, i, r.y as int);
    lemma_pane_shows(pane, grid, r, focused, r.x as int, i);
    lemma_pane_shows(pane, grid, r, focused, right, i);
    if r.y < i < low {
        lemma_inner_none(pane, grid, r, r.x as int, i);
        lemma_inner_none(pane, grid, r, right, i);
    }
}

/// A pane with a terminal shows the terminal's cells from its corner on, as far as there is room:
/// each with its text, or a space where it has none, its colours and its weight, and turned round
/// where the cursor stands.
pub proof fn law_terminals_are_shown(
    pane: PaneV,
    g: Grid,
    r: Rect,
    focused: bool,
    row: int,
    col: int,
)
    requires
        r.w >= 2,
        r.h >= 2,
        pane.active is LiveTty,
        0 <= row < r.h - 2,
        0 <= col < r.w - 2,
    ensures
        ({
            let ps = pane_paints(pane, Some(g), r, focused);
            let d = shows(ps, r.x + 1 + col, r.y + 1 + row);
            let cursor = !g.hide_cursor && g.cursor.0 == row && g.cursor.1 == col;
            &&& row < g.rows && col < g.cols && row < g.cells@.len() && col < g.cells@[row]@.len()
                && g.cells@[row]@[col] is Some ==> {
                let c = g.cells@[row]@[col]->Some_0;
                &&& d matches Some(DotV::Glyph(v))
                &&& v.text == if c.contents@.len() == 0 {
                    " "@
                } else {
                    c.contents@
                }
                &&& v.fg == c.fg && v.bg == c.bg && v.bold == c.bold
                &&& v.inverse == if cursor {
                    !c.inverse
                } else {
                    c.inverse
                }
            }
            &&& row < g.rows && col < g.cols && (row >= g.cells@.len() || col
                >= g.cells@[row]@.len() || g.cells@[row]@[col] is None) ==> {
                &&& d matches Some(DotV::Glyph(v))
                &&& v.text == " "@ && v.fg is Default && v.bg is Default && !v.bold
                &&& v.inverse == cursor
            }
            &&& row >= g.rows || col >= g.cols ==> d == Some(DotV::Char(' '))
        }),
{
    let (x, y) = (r.x + 1 + col, r.y + 1 + row);
    let inner = grid_paints(g, r);
    assert(inner_paints(pane, Some(g), r) == inner);
    lemma_pane_shows(pane, Some(g), r, focused, x, y);
    let width = lesser(r.w - 2, g.cols as int);
    assert forall|j: int| 0 <= j < inner.len() && j != row implies dot(#[trigger] inner[j], x, y)
        is None by {
        assert(inner[j] is Glyphs && inner[j]->Glyphs_y == r.y + 1 + j);
    }
    if row < inner.len() {
        assert(inner[row] == PaintV::Glyphs {
            x: r.x + 1,
            y: r.y + 1 + row,
            glyphs: glyph_row(g, row, width),
        });
        lemma_shows_only(inner, row, x, y);
        if col < width {
            assert(glyph_row(g, row, width)[col] == glyph_at(g, row, col));
        }
    } else {
        lemma_shows_none(inner, x, y);
    }
    assert(side_line(border_of(focused), r.w - 2)[x - r.x] == ' ');
}

// ---------- The screen ------------------------------------------------------

proof fn lemma_panes_show(
    m: MuxV,
    grids: Seq<(PaneId, Grid)>,
    t: Seq<(PaneId, Rect)>,
    k: int,
    x: int,
    y: int,
)
    requires
        0 <= k < t.len(),
        inside(t[k].1, x, y),
        t[k].1.w >= 2,
        t[k].1.h >= 2,
        forall|i: int| 0 <= i < t.len() && i != k ==> !inside((#[trigger] t[i]).1, x, y),
    ensures
        shows(panes_paints(m, grids, t), x, y) == shows(
            pane_paints(m.panes[t[k].0], grid_of(grids, t[k].0, 0), t[k].1, t[k].0 == m.focus),
            x,
            y,
        ),
        shows(panes_paints(m, grids, t), x, y) is Some,
    decreases t.len(),
{
    let (p, r) = t.last();
    let rest = t.drop_last();
    let last = pane_paints(m.panes[p], grid_of(grids, p, 0), r, p == m.focus);
    lemma_shows_both(panes_paints(m, grids, rest), last, x, y);
    assert(t[t.len() - 1] == (p, r));
    if k == t.len() - 1 {
        lemma_pane_shows(m.panes[p], grid_of(grids, p, 0), r, p == m.focus, x, y);
    } else {
        if r.w >= 2 && r.h >= 2 {
            lemma_pane_shows(m.panes[p], grid_of(grids, p, 0), r, p == m.focus, x, y);
        } else {
            assert(shows(last, x, y) is None);
        }
        assert forall|i: int| 0 <= i < rest.len() && i != k implies !inside(
            (#[trigger] rest[i]).1,
            x,
            y,
        ) by {
            assert(rest[i] == t[i]);
        }
        assert(rest[k] == t[k]);
        lemma_panes_show(m, grids, rest, k, x, y);
    }
}

/// Every pane stands in its own part of the screen, with its own terminal, and only the focused one
/// is painted as such; the last row is the status bar.
pub proof fn law_panes_stand_in_their_places(
    m: MuxV,
    grids: Seq<(PaneId, Grid)>,
    k: int,
    x: int,
    y: int,
)
    requires
        !too_small(m.size),
        0 <= k < leaves(m.layout).len(),
    ensures
        ({
            let ps = screen_paints(m, grids);
            let (p, r) = tiles(m.layout, area(m.size))[k];
            &&& r.w >= 2 && r.h >= 2 && inside(r, x, y) ==> shows(ps, x, y) == shows(
                pane_paints(m.panes[p], grid_of(grids, p, 0), r, p == m.focus),
                x,
                y,
            )
            &&& p == leaves(m.layout)[k]
            &&& 0 <= x < status_bar(m).len() ==> shows(ps, x, m.size.1 - 1) == Some(
                DotV::Bar(status_bar(m)[x]),
            )
        }),
{
    let t = tiles(m.layout, area(m.size));
    let (p, r) = t[k];
    law_panes_tile_the_area(m.layout, area(m.size));
    let all = panes_paints(m, grids, t);
    let bar = PaintV::Bar { y: m.size.1 - 1, text: status_bar(m) };
    lemma_shows_one(bar, x, y);
    lemma_shows_one(bar, x, m.size.1 - 1);
    lemma_shows_both(seq![PaintV::Clear], all, x, y);
    lemma_shows_both(seq![PaintV::Clear] + all, seq![bar], x, y);
    lemma_shows_both(seq![PaintV::Clear] + all, seq![bar], x, m.size.1 - 1);
    if r.w >= 2 && r.h >= 2 && inside(r, x, y) {
        assert(inside(t[k].1, x, y));
        assert forall|i: int| 0 <= i < t.len() && i != k implies !inside(
            (#[trigger] t[i]).1,
            x,
            y,
        ) by {
            if inside(t[i].1, x, y) {
                assert(i == k);
            }
        }
        lemma_panes_show(m, grids, t, k, x, y);
        assert(inside(area(m.size), x, y));
    }
}

/// The terminal that a pane shows is the one that goes by its name.
pub proof fn law_panes_show_their_own_terminals(grids: Seq<(PaneId, Grid)>, k: int)
    requires
        0 <= k < grids.len(),
        forall|i: int| 0 <= i < k ==> (#[trigger] grids[i]).0 != grids[k].0,
    ensures
        grid_of(grids, grids[k].0, 0) == Some(grids[k].1),
{
    lemma_grid_of(grids, k, 0);
}

proof fn lemma_grid_of(grids: Seq<(PaneId, Grid)>, k: int, i: int)
    requires
        0 <= i <= k < grids.len(),
        forall|j: int| 0 <= j < k ==> (#[trigger] grids[j]).0 != grids[k].0,
    ensures
        grid_of(grids, grids[k].0, i) == Some(grids[k].1),
    decreases k - i,
{
    if i < k {
        assert(grids[i].0 != grids[k].0);
        lemma_grid_of(grids, k, i + 1);
    }
}

/// The status bar tells the mode and the status, from the left on, and is blank behind them; it is
/// cut where the row ends.
pub proof fn law_the_status_bar_tells_mode_and_status(m: MuxV)
    ensures
        bar_text(m) == (match m.mode {
            Mode::Pane => " [PANE] "@,
            Mode::Prefix => " [PREFIX] "@,
        }) + m.status,
        encode_utf8(bar_text(m)).len() <= m.size.0 ==> {
            &&& status_bar(m).len() >= bar_text(m).len()
            &&& status_bar(m).take(bar_text(m).len() as int) == bar_text(m)
            &&& forall|i: int|
                bar_text(m).len() <= i < status_bar(m).len() ==> #[trigger] status_bar(m)[i] == ' '
        },
        encode_utf8(bar_text(m)).len() > m.size.0 && cuts_at(bar_text(m), m.size.0 as int)
            ==> encode_utf8(cut_to(bar_text(m), m.size.0 as int)) == encode_utf8(bar_text(m)).take(
            m.size.0 as int,
        ),
{
    reveal_strlit(" [");
    reveal_strlit("PANE");
    reveal_strlit("PREFIX");
    reveal_strlit("] ");
    reveal_strlit(" [PANE] ");
    reveal_strlit(" [PREFIX] ");
    assert(" ["@ + "PANE"@ + "] "@ =~= " [PANE] "@);
    assert(" ["@ + "PREFIX"@ + "] "@ =~= " [PREFIX] "@);
    let b = bar_text(m);
    if encode_utf8(b).len() <= m.size.0 {
        assert(status_bar(m).take(b.len() as int) =~= b);
    } else if cuts_at(b, m.size.0 as int) {
        decode_utf8_encode_utf8(encode_utf8(b).take(m.size.0 as int));
    }
}

/// Nothing is painted on a screen of less than four rows or columns, nor of a pane that has no room
/// for its border.
pub proof fn law_small_screens_stay_blank(
    m: MuxV,
    grids: Seq<(PaneId, Grid)>,
    pane: PaneV,
    grid: Option<Grid>,
    r: Rect,
    focused: bool,
)
    ensures
        screen_paints(m, grids).len() == 0 <==> m.size.0 < 4 || m.size.1 < 4,
        pane_paints(pane, grid, r, focused).len() == 0 <==> r.w < 2 || r.h < 2,
{
}

} // verus!
