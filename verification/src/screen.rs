//! What the multiplexer paints: borders, lines, terminals and the status bar.

use vstd::prelude::*;
use vstd::utf8::*;

use crate::layout::{law_panes_tile_the_area, leaves, on_screen, tiles, PaneId, Rect};
use crate::lines::{lines_of, pane_lines};
use crate::mux::{area, in_order, too_small, Active, Mode, Mux, MuxV, Pane, PaneV};
use crate::text::{chars_of, strict_text, string_of};
use crate::tree::strings;

verus! {

// ---------- Terminals -------------------------------------------------------

/// A colour.
#[derive(Debug, Clone, Copy, PartialEq, Eq, Structural)]
pub enum Color {
    Default,
    Indexed(u8),
    Rgb(u8, u8, u8),
}

/// A cell of a terminal's grid.
#[derive(Debug)]
pub struct GridCell {
    pub contents: String,
    pub fg: Color,
    pub bg: Color,
    pub bold: bool,
    pub inverse: bool,
}

/// A terminal's screen: its rows and columns, its cells row by row, and its cursor.
#[derive(Debug)]
pub struct Grid {
    pub rows: u16,
    pub cols: u16,
    pub cells: Vec<Vec<Option<GridCell>>>,
    pub cursor: (u16, u16),
    pub hide_cursor: bool,
}

/// A cell as it is painted.
#[derive(Debug)]
pub struct Glyph {
    pub text: String,
    pub fg: Color,
    pub bg: Color,
    pub bold: bool,
    pub inverse: bool,
}

/// A cell as it is painted.
pub struct GlyphV {
    pub text: Seq<char>,
    pub fg: Color,
    pub bg: Color,
    pub bold: bool,
    pub inverse: bool,
}

impl View for Glyph {
    type V = GlyphV;

    open spec fn view(&self) -> GlyphV {
        GlyphV {
            text: self.text@,
            fg: self.fg,
            bg: self.bg,
            bold: self.bold,
            inverse: self.inverse,
        }
    }
}

/// The cells of a vector.
pub open spec fn glyphs(v: Seq<Glyph>) -> Seq<GlyphV> {
    v.map_values(|g: Glyph| g@)
}

/// The cell of a grid at a row and a column, if it has one.
pub open spec fn cell_at(g: Grid, row: int, col: int) -> Option<GridCell> {
    if 0 <= row < g.cells@.len() && 0 <= col < g.cells@[row]@.len() {
        g.cells@[row]@[col]
    } else {
        None
    }
}

/// A cell as it is painted. The cursor turns its cell round, and an empty cell is a space.
pub open spec fn glyph_at(g: Grid, row: int, col: int) -> GlyphV {
    let at_cursor = !g.hide_cursor && row == g.cursor.0 && col == g.cursor.1;
    match cell_at(g, row, col) {
        Some(c) => GlyphV {
            text: if c.contents@.len() == 0 {
                " "@
            } else {
                c.contents@
            },
            fg: c.fg,
            bg: c.bg,
            bold: c.bold,
            inverse: c.inverse != at_cursor,
        },
        None => GlyphV {
            text: " "@,
            fg: Color::Default,
            bg: Color::Default,
            bold: false,
            inverse: at_cursor,
        },
    }
}

// ---------- Painting --------------------------------------------------------

/// A step of painting.
#[derive(Debug)]
pub enum Paint {
    Clear,
    Text { x: u16, y: u16, text: String },
    Glyphs { x: u16, y: u16, glyphs: Vec<Glyph> },
    /// A row in reverse.
    Bar { y: u16, text: String },
}

/// A step of painting.
pub enum PaintV {
    Clear,
    Text { x: int, y: int, text: Seq<char> },
    Glyphs { x: int, y: int, glyphs: Seq<GlyphV> },
    Bar { y: int, text: Seq<char> },
}

impl View for Paint {
    type V = PaintV;

    open spec fn view(&self) -> PaintV {
        match self {
            Paint::Clear => PaintV::Clear,
            Paint::Text { x, y, text } => PaintV::Text { x: *x as int, y: *y as int, text: text@ },
            Paint::Glyphs { x, y, glyphs: g } => PaintV::Glyphs {
                x: *x as int,
                y: *y as int,
                glyphs: glyphs(g@),
            },
            Paint::Bar { y, text } => PaintV::Bar { y: *y as int, text: text@ },
        }
    }
}

/// The steps of a vector.
pub open spec fn paints(v: Seq<Paint>) -> Seq<PaintV> {
    v.map_values(|p: Paint| p@)
}

fn push_paint(out: &mut Vec<Paint>, p: Paint)
    ensures
        paints(final(out)@) == paints(old(out)@) + seq![p@],
{
    out.push(p);
    assert(paints(out@) =~= paints(old(out)@) + seq![p@]);
}

/// The first characters of a text, `n` at most.
pub open spec fn first_chars(s: Seq<char>, n: int) -> Seq<char> {
    if s.len() <= n {
        s
    } else {
        s.take(n)
    }
}

fn take_chars(s: &str, n: usize) -> (r: String)
    ensures
        r@ == first_chars(s@, n as int),
{
    let v = chars_of(s);
    let to: usize = if v.len() <= n {
        v.len()
    } else {
        n
    };
    let r = string_of(&v, 0, to);
    assert(r@ =~= first_chars(s@, n as int));
    r
}

/// A character `n` times.
pub open spec fn repeated(c: char, n: int) -> Seq<char> {
    Seq::new(
        if n > 0 {
            n as nat
        } else {
            0
        },
        |i: int| c,
    )
}

fn push_repeated(s: &mut String, c: char, n: usize)
    ensures
        final(s)@ == old(s)@ + repeated(c, n as int),
{
    let ghost had = s@;
    let mut i: usize = 0;
    assert(had + repeated(c, 0) =~= had);
    while i < n
        invariant
            i <= n,
            s@ == had + repeated(c, i as int),
        decreases n - i,
    {
        s.push(c);
        assert(s@ =~= had + repeated(c, i + 1));
        i += 1;
    }
}

fn char_text(c: char) -> (r: String)
    ensures
        r@ == seq![c],
{
    let mut s = String::new();
    s.push(c);
    assert(s@ =~= seq![c]);
    s
}

/// The characters of a border.
pub struct Border {
    pub top_left: char,
    pub top_right: char,
    pub bottom_left: char,
    pub bottom_right: char,
    pub across: char,
    pub down: char,
}

/// A heavy border for the focused pane, a light one for the others.
pub open spec fn border_of(focused: bool) -> Border {
    if focused {
        Border {
            top_left: '┏',
            top_right: '┓',
            bottom_left: '┗',
            bottom_right: '┛',
            across: '━',
            down: '┃',
        }
    } else {
        Border {
            top_left: '┌',
            top_right: '┐',
            bottom_left: '└',
            bottom_right: '┘',
            across: '─',
            down: '│',
        }
    }
}

fn border(focused: bool) -> (r: Border)
    ensures
        r == border_of(focused),
{
    if focused {
        Border {
            top_left: '┏',
            top_right: '┓',
            bottom_left: '┗',
            bottom_right: '┛',
            across: '━',
            down: '┃',
        }
    } else {
        Border {
            top_left: '┌',
            top_right: '┐',
            bottom_left: '└',
            bottom_right: '┘',
            across: '─',
            down: '│',
        }
    }
}

/// The title of a pane: the name of its branch, cut to the pane's width.
pub open spec fn title(branch: Seq<char>, width: int) -> Seq<char> {
    first_chars(" "@ + branch + " "@, width)
}

/// The top of a pane's border, which carries the title.
pub open spec fn top_line(b: Border, branch: Seq<char>, width: int) -> Seq<char> {
    seq![b.top_left] + title(branch, width) + repeated(
        b.across,
        width - title(branch, width).len(),
    ) + seq![b.top_right]
}

/// A row between the sides of a pane's border.
pub open spec fn side_line(b: Border, width: int) -> Seq<char> {
    seq![b.down] + repeated(' ', width) + seq![b.down]
}

/// The bottom of a pane's border.
pub open spec fn bottom_line(b: Border, width: int) -> Seq<char> {
    seq![b.bottom_left] + repeated(b.across, width) + seq![b.bottom_right]
}

/// The sides of a pane's border, with nothing between them.
pub open spec fn side_paints(b: Border, r: Rect) -> Seq<PaintV> {
    Seq::new(
        (r.h - 2) as nat,
        |i: int| PaintV::Text { x: r.x as int, y: r.y + 1 + i, text: side_line(b, r.w - 2) },
    )
}

/// The end of the lines inside a border.
pub open spec fn line_paints(lines: Seq<Seq<char>>, r: Rect) -> Seq<PaintV> {
    let rows = r.h - 2;
    let start = if lines.len() > rows {
        lines.len() - rows
    } else {
        0
    };
    Seq::new(
        rows as nat,
        |i: int|
            PaintV::Text {
                x: r.x + 1,
                y: r.y + 1 + i,
                text: if start + i < lines.len() {
                    first_chars(lines[start + i], r.w - 2)
                } else {
                    Seq::empty()
                },
            },
    )
}

/// The lesser of two numbers.
pub open spec fn lesser(a: int, b: int) -> int {
    if a < b {
        a
    } else {
        b
    }
}

/// A row of a terminal, as much of it as there is room for.
pub open spec fn glyph_row(g: Grid, row: int, width: int) -> Seq<GlyphV> {
    Seq::new(
        if width > 0 {
            width as nat
        } else {
            0
        },
        |col: int| glyph_at(g, row, col),
    )
}

/// A terminal inside a border.
pub open spec fn grid_paints(g: Grid, r: Rect) -> Seq<PaintV> {
    Seq::new(
        lesser(r.h - 2, g.rows as int) as nat,
        |row: int|
            PaintV::Glyphs {
                x: r.x + 1,
                y: r.y + 1 + row,
                glyphs: glyph_row(g, row, lesser(r.w - 2, g.cols as int)),
            },
    )
}

/// The screen of a pane's terminal, where there is one, from the `i`th on.
pub open spec fn grid_of(grids: Seq<(PaneId, Grid)>, p: PaneId, i: int) -> Option<Grid>
    decreases grids.len() - i,
{
    if i < 0 || i >= grids.len() {
        None
    } else if grids[i].0 == p {
        Some(grids[i].1)
    } else {
        grid_of(grids, p, i + 1)
    }
}

/// A pane, with its terminal where it drives one. One without room for a border is not painted.
pub open spec fn pane_paints(
    pane: PaneV,
    grid: Option<Grid>,
    r: Rect,
    focused: bool,
) -> Seq<PaintV> {
    if r.w < 2 || r.h < 2 {
        Seq::empty()
    } else {
        let b = border_of(focused);
        let top = PaintV::Text {
            x: r.x as int,
            y: r.y as int,
            text: top_line(b, pane.branch, r.w - 2),
        };
        let inside = if pane.active is LiveTty {
            match grid {
                Some(g) => grid_paints(g, r),
                None => Seq::empty(),
            }
        } else {
            line_paints(lines_of(pane), r)
        };
        let bottom = PaintV::Text {
            x: r.x as int,
            y: r.y + r.h - 1,
            text: bottom_line(b, r.w - 2),
        };
        seq![top] + side_paints(b, r) + inside + seq![bottom]
    }
}

fn find_grid<'a>(grids: &'a Vec<(PaneId, Grid)>, p: PaneId) -> (r: Option<&'a Grid>)
    ensures
        match r {
            Some(g) => grid_of(grids@, p, 0) == Some(*g),
            None => grid_of(grids@, p, 0) is None,
        },
{
    let mut i: usize = 0;
    while i < grids.len()
        invariant
            i <= grids.len(),
            grid_of(grids@, p, 0) == grid_of(grids@, p, i as int),
        decreases grids.len() - i,
    {
        if grids[i].0 == p {
            return Some(&grids[i].1);
        }
        i += 1;
    }
    None
}

fn glyph(g: &Grid, row: u16, col: u16) -> (r: Glyph)
    ensures
        r@ == glyph_at(*g, row as int, col as int),
{
    let at_cursor: bool = !g.hide_cursor && row == g.cursor.0 && col == g.cursor.1;
    if (row as usize) < g.cells.len() {
        let line = &g.cells[row as usize];
        if (col as usize) < line.len() {
            match &line[col as usize] {
                Some(c) => {
                    let text = if c.contents.as_str().is_empty() {
                        " ".to_owned()
                    } else {
                        c.contents.clone()
                    };
                    return Glyph {
                        text,
                        fg: c.fg,
                        bg: c.bg,
                        bold: c.bold,
                        inverse: c.inverse != at_cursor,
                    };
                },
                None => {},
            }
        }
    }
    Glyph {
        text: " ".to_owned(),
        fg: Color::Default,
        bg: Color::Default,
        bold: false,
        inverse: at_cursor,
    }
}

fn draw_row(g: &Grid, row: u16, width: u16) -> (r: Vec<Glyph>)
    ensures
        glyphs(r@) == glyph_row(*g, row as int, width as int),
{
    let mut out: Vec<Glyph> = Vec::new();
    let mut col: u16 = 0;
    while col < width
        invariant
            col <= width,
            out@.len() == col,
            forall|i: int| 0 <= i < col ==> (#[trigger] out@[i])@ == glyph_at(*g, row as int, i),
        decreases width - col,
    {
        out.push(glyph(g, row, col));
        col += 1;
    }
    assert(glyphs(out@) =~= glyph_row(*g, row as int, width as int));
    out
}

/// Paints a terminal's screen inside a pane, cell by cell.
fn draw_grid(out: &mut Vec<Paint>, g: &Grid, r: Rect)
    requires
        on_screen(r),
        r.w >= 2,
        r.h >= 2,
    ensures
        paints(final(out)@) == paints(old(out)@) + grid_paints(*g, r),
{
    let ghost had = paints(out@);
    let width: u16 = if r.w - 2 < g.cols {
        r.w - 2
    } else {
        g.cols
    };
    let height: u16 = if r.h - 2 < g.rows {
        r.h - 2
    } else {
        g.rows
    };
    let ghost all = grid_paints(*g, r);
    let mut row: u16 = 0;
    assert(had + all.take(0) =~= had);
    while row < height
        invariant
            on_screen(r),
            r.w >= 2,
            r.h >= 2,
            row <= height,
            height == lesser(r.h - 2, g.rows as int),
            width == lesser(r.w - 2, g.cols as int),
            all == grid_paints(*g, r),
            paints(out@) == had + all.take(row as int),
        decreases height - row,
    {
        push_paint(
            out,
            Paint::Glyphs { x: r.x + 1, y: r.y + 1 + row, glyphs: draw_row(g, row, width) },
        );
        assert(had + all.take(row + 1) =~= had + all.take(row as int) + seq![all[row as int]]);
        row += 1;
    }
    assert(all.take(row as int) =~= all);
}

/// Fills a pane's interior with the tail of its lines.
fn draw_lines(out: &mut Vec<Paint>, lines: &Vec<String>, r: Rect)
    requires
        on_screen(r),
        r.w >= 2,
        r.h >= 2,
    ensures
        paints(final(out)@) == paints(old(out)@) + line_paints(strings(lines@), r),
{
    let ghost had = paints(out@);
    let width: usize = (r.w - 2) as usize;
    let height: u16 = r.h - 2;
    let start: usize = if lines.len() > height as usize {
        lines.len() - height as usize
    } else {
        0
    };
    let ghost all = line_paints(strings(lines@), r);
    let mut i: u16 = 0;
    assert(had + all.take(0) =~= had);
    while i < height
        invariant
            on_screen(r),
            r.w >= 2,
            r.h >= 2,
            i <= height,
            height == r.h - 2,
            width == r.w - 2,
            start == if lines@.len() > height {
                lines@.len() - height
            } else {
                0
            },
            all == line_paints(strings(lines@), r),
            paints(out@) == had + all.take(i as int),
        decreases height - i,
    {
        let text = if lines.len() > i as usize && start < lines.len() - i as usize {
            take_chars(lines[start + i as usize].as_str(), width)
        } else {
            String::new()
        };
        assert(text@ =~= all[i as int]->Text_text);
        push_paint(out, Paint::Text { x: r.x + 1, y: r.y + 1 + i, text });
        assert(had + all.take(i + 1) =~= had + all.take(i as int) + seq![all[i as int]]);
        i += 1;
    }
    assert(all.take(i as int) =~= all);
}

fn draw_sides(out: &mut Vec<Paint>, b: &Border, r: Rect)
    requires
        on_screen(r),
        r.w >= 2,
        r.h >= 2,
    ensures
        paints(final(out)@) == paints(old(out)@) + side_paints(*b, r),
{
    let ghost had = paints(out@);
    let ghost all = side_paints(*b, r);
    let height: u16 = r.h - 2;
    let mut i: u16 = 0;
    assert(had + all.take(0) =~= had);
    while i < height
        invariant
            on_screen(r),
            r.w >= 2,
            r.h >= 2,
            i <= height,
            height == r.h - 2,
            all == side_paints(*b, r),
            paints(out@) == had + all.take(i as int),
        decreases height - i,
    {
        let mut text = char_text(b.down);
        push_repeated(&mut text, ' ', (r.w - 2) as usize);
        text.push(b.down);
        assert(text@ =~= side_line(*b, r.w - 2));
        push_paint(out, Paint::Text { x: r.x, y: r.y + 1 + i, text });
        assert(had + all.take(i + 1) =~= had + all.take(i as int) + seq![all[i as int]]);
        i += 1;
    }
    assert(all.take(i as int) =~= all);
}

fn draw_top(b: &Border, branch: &str, width: usize) -> (r: String)
    ensures
        r@ == top_line(*b, branch@, width as int),
{
    let mut named = " ".to_owned();
    named.append(branch);
    named.append(" ");
    let name = take_chars(named.as_str(), width);
    let n: usize = chars_of(name.as_str()).len();
    let mut top = char_text(b.top_left);
    top.append(name.as_str());
    push_repeated(&mut top, b.across, width - n);
    top.push(b.top_right);
    assert(top@ =~= top_line(*b, branch@, width as int));
    top
}

fn draw_bottom(b: &Border, width: usize) -> (r: String)
    ensures
        r@ == bottom_line(*b, width as int),
{
    let mut bottom = char_text(b.bottom_left);
    push_repeated(&mut bottom, b.across, width);
    bottom.push(b.bottom_right);
    assert(bottom@ =~= bottom_line(*b, width as int));
    bottom
}

/// Paints a pane, with its terminal where it drives one.
pub fn draw_pane(out: &mut Vec<Paint>, pane: &Pane, grid: Option<&Grid>, r: Rect, focused: bool)
    requires
        on_screen(r),
    ensures
        paints(final(out)@) == paints(old(out)@) + pane_paints(
            pane@,
            match grid {
                Some(g) => Some(*g),
                None => None,
            },
            r,
            focused,
        ),
{
    let ghost had = paints(out@);
    if r.w < 2 || r.h < 2 {
        assert(had + Seq::<PaintV>::empty() =~= had);
        return;
    }
    let b = border(focused);
    let width: usize = (r.w - 2) as usize;
    let top = draw_top(&b, pane.branch.as_str(), width);
    push_paint(out, Paint::Text { x: r.x, y: r.y, text: top });
    draw_sides(out, &b, r);
    let ghost framed = paints(out@);
    match &pane.active {
        Active::LiveTty { .. } => match grid {
            Some(g) => {
                draw_grid(out, g, r);
            },
            None => {
                assert(framed + Seq::<PaintV>::empty() =~= framed);
            },
        },
        _ => {
            draw_lines(out, &pane_lines(pane), r);
        },
    }
    push_paint(out, Paint::Text { x: r.x, y: r.y + (r.h - 1), text: draw_bottom(&b, width) });
    assert(paints(out@) =~= had + pane_paints(
        pane@,
        match grid {
            Some(g) => Some(*g),
            None => None,
        },
        r,
        focused,
    ));
}

// ---------- The whole screen ------------------------------------------------

/// What the status bar says: the mode and the status.
pub open spec fn bar_text(m: MuxV) -> Seq<char> {
    " ["@ + (match m.mode {
        Mode::Pane => "PANE"@,
        Mode::Prefix => "PREFIX"@,
    }) + "] "@ + m.status
}

/// A text can be cut to `n` bytes: the cut does not fall inside a character.
pub open spec fn cuts_at(s: Seq<char>, n: int) -> bool {
    n < encode_utf8(s).len() ==> valid_utf8(encode_utf8(s).take(n))
}

/// A text cut to `n` bytes.
pub open spec fn cut_to(s: Seq<char>, n: int) -> Seq<char> {
    if n < encode_utf8(s).len() {
        decode_utf8(encode_utf8(s).take(n))
    } else {
        s
    }
}

/// The status bar: cut to the screen's width in bytes, and filled up to it with spaces.
pub open spec fn status_bar(m: MuxV) -> Seq<char> {
    let text = cut_to(bar_text(m), m.size.0 as int);
    text + repeated(' ', m.size.0 - text.len())
}

/// The panes of the given areas.
pub open spec fn panes_paints(
    m: MuxV,
    grids: Seq<(PaneId, Grid)>,
    t: Seq<(PaneId, Rect)>,
) -> Seq<PaintV>
    decreases t.len(),
{
    if t.len() == 0 {
        Seq::empty()
    } else {
        let (p, r) = t.last();
        panes_paints(m, grids, t.drop_last()) + pane_paints(
            m.panes[p],
            grid_of(grids, p, 0),
            r,
            p == m.focus,
        )
    }
}

/// The whole screen: its panes in order, then the status bar in the last row. Nothing is painted
/// on a screen that is too small.
pub open spec fn screen_paints(m: MuxV, grids: Seq<(PaneId, Grid)>) -> Seq<PaintV> {
    if too_small(m.size) {
        Seq::empty()
    } else {
        seq![PaintV::Clear] + panes_paints(m, grids, tiles(m.layout, area(m.size))) + seq![
            PaintV::Bar { y: m.size.1 - 1, text: status_bar(m) },
        ]
    }
}

/// The status bar fills its row where every character of it is one byte.
pub proof fn law_the_status_bar_fills_its_row(m: MuxV)
    requires
        cuts_at(bar_text(m), m.size.0 as int),
        encode_utf8(bar_text(m)).len() <= m.size.0 || is_ascii_chars(bar_text(m)),
    ensures
        status_bar(m).len() == m.size.0,
{
    let s = bar_text(m);
    let n = m.size.0 as int;
    if n < encode_utf8(s).len() {
        is_ascii_chars_encode_utf8(s);
        let b = encode_utf8(s).take(n);
        assert(b =~= encode_utf8(s.take(n))) by {
            is_ascii_chars_encode_utf8(s.take(n));
        }
        encode_utf8_decode_utf8(s.take(n));
    } else {
        lemma_no_longer_than_bytes(s);
    }
}

proof fn lemma_no_longer_than_bytes(s: Seq<char>)
    ensures
        s.len() <= encode_utf8(s).len(),
    decreases s.len(),
{
    if s.len() > 0 {
        lemma_no_longer_than_bytes(s.drop_first());
    }
}

fn whole_bar(m: &Mux) -> (r: String)
    ensures
        r@ == bar_text(m@),
{
    let mut s = " [".to_owned();
    match m.mode() {
        Mode::Pane => {
            s.append("PANE");
        },
        Mode::Prefix => {
            s.append("PREFIX");
        },
    }
    s.append("] ");
    s.append(m.status());
    s
}

/// Whether the status bar can be cut to the screen's width.
pub fn bar_fits(m: &Mux) -> (r: bool)
    ensures
        r == cuts_at(bar_text(m@), m@.size.0 as int),
{
    let s = whole_bar(m);
    let (cols, _rows) = m.size();
    let b = s.as_str().as_bytes();
    if b.len() <= cols as usize {
        return true;
    }
    assert(b@.subrange(0, cols as int) =~= b@.take(cols as int));
    strict_text(vstd::slice::slice_subrange(b, 0, cols as usize)).is_some()
}

fn draw_bar(m: &Mux) -> (r: String)
    requires
        cuts_at(bar_text(m@), m@.size.0 as int),
    ensures
        r@ == status_bar(m@),
{
    let whole = whole_bar(m);
    let (cols, _rows) = m.size();
    let b = whole.as_str().as_bytes();
    let mut bar = if b.len() <= cols as usize {
        whole.clone()
    } else {
        assert(b@.subrange(0, cols as int) =~= b@.take(cols as int));
        match strict_text(vstd::slice::slice_subrange(b, 0, cols as usize)) {
            Some(s) => s,
            None => String::new(),
        }
    };
    assert(bar@ == cut_to(bar_text(m@), cols as int));
    let n: usize = chars_of(bar.as_str()).len();
    let pad: usize = if n < cols as usize {
        cols as usize - n
    } else {
        0
    };
    push_repeated(&mut bar, ' ', pad);
    assert(bar@ =~= status_bar(m@));
    bar
}

/// Paints the whole screen. The terminals' screens are given with their panes.
pub fn render(m: &Mux, grids: &Vec<(PaneId, Grid)>) -> (r: Vec<Paint>)
    requires
        in_order(m@),
        cuts_at(bar_text(m@), m@.size.0 as int),
    ensures
        paints(r@) == screen_paints(m@, grids@),
{
    let mut out: Vec<Paint> = Vec::new();
    assert(paints(out@) =~= Seq::<PaintV>::empty());
    let (cols, rows) = m.size();
    if cols < 4 || rows < 4 {
        return out;
    }
    push_paint(&mut out, Paint::Clear);
    let rects = m.rects();
    let ghost t = tiles(m@.layout, area(m@.size));
    let ghost had = paints(out@);
    let focus: PaneId = m.focus();
    let mut i: usize = 0;
    proof {
        law_panes_tile_the_area(m@.layout, area(m@.size));
        assert(t.take(0) =~= Seq::<(PaneId, Rect)>::empty());
        assert(had + Seq::<PaintV>::empty() =~= had);
    }
    while i < rects.len()
        invariant
            i <= rects.len(),
            t == rects@,
            in_order(m@),
            focus == m@.focus,
            t.len() == leaves(m@.layout).len(),
            forall|k: int|
                0 <= k < leaves(m@.layout).len() ==> (#[trigger] t[k]).0 == leaves(m@.layout)[k]
                    && on_screen(t[k].1),
            paints(out@) == had + panes_paints(m@, grids@, t.take(i as int)),
        decreases rects.len() - i,
    {
        let p: PaneId = rects[i].0;
        let area_of_pane: Rect = rects[i].1;
        proof {
            assert(t.take(i + 1).drop_last() =~= t.take(i as int));
            assert(t.take(i + 1).last() == t[i as int]);
            assert(leaves(m@.layout).contains(leaves(m@.layout)[i as int]));
            assert(m@.order.contains(p));
        }
        let ghost before = paints(out@);
        match m.pane(p) {
            Some(pane) => {
                draw_pane(&mut out, pane, find_grid(grids, p), area_of_pane, p == focus);
            },
            None => {
                assert(false);
            },
        }
        assert(paints(out@) =~= had + panes_paints(m@, grids@, t.take(i + 1)));
        i += 1;
    }
    assert(t.take(i as int) =~= t);
    push_paint(&mut out, Paint::Bar { y: rows - 1, text: draw_bar(m) });
    assert(paints(out@) =~= screen_paints(m@, grids@));
    out
}

} // verus!
