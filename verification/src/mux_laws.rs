//! What holds of the multiplexer: its panes, its keys, and what its messages do.

use vstd::prelude::*;
use vstd::utf8::*;

use crate::keys::{key_bytes, Key};
use crate::layout::{
    first_half, law_panes_tile_the_area, leaves, replaced, second_half, tile_of, tiles, Dir, Layout,
    PaneId, Rect,
};
use crate::mux::{
    after_event, after_input, after_msg, after_split, after_tty, all_reconciled, area, cell_view,
    event_cell, fork_name, hydrated, in_order, inner_size, interior, lemma_decimal_injective, misfit,
    pane_on_branch, reconciled, too_small, tty_command, with_cell, ActV, ActiveV, Input, MsgV, MuxV, PaneV,
    TerminalV,
};
use crate::text::{decimal, trimmed};
use crate::text_laws::lemma_decimal_digits;
use crate::tree::CellId;
use crate::wire::{CellEventV, CellSnapshotV};

verus! {

// ---------- Keys ------------------------------------------------------------

/// The key `code`, pressed.
pub open spec fn press(code: Key, ctrl: bool) -> Input {
    Input::Key { code, ctrl, release: false }
}

/// The pane that the keys go to, as long as they go to a pane.
pub open spec fn focused(m: MuxV) -> PaneV {
    m.panes[m.focus]
}

/// All that two states of the multiplexer differ in is what the focused pane does.
pub open spec fn same_but_focused(m: MuxV, n: MuxV) -> bool {
    &&& n.panes.dom() =~= m.panes.dom()
    &&& forall|p: PaneId| p != m.focus ==> #[trigger] n.panes[p] == m.panes[p]
    &&& focused(n).branch == focused(m).branch && focused(n).scrollback == focused(m).scrollback
    &&& n == MuxV { panes: n.panes, ..m }
}

/// Keys go to the focused pane and to no other.
pub proof fn law_keys_go_to_the_focused_pane(m: MuxV, code: Key, ctrl: bool, who: Seq<char>)
    requires
        m.panes.contains_key(m.focus),
        m.mode is Pane,
        !(ctrl && code == Key::Char('a')),
    ensures
        same_but_focused(m, after_input(m, press(code, ctrl), who).0),
        match after_input(m, press(code, ctrl), who).1 {
            ActV::Submit { pane, branch, .. } => pane == m.focus && branch == focused(m).branch,
            ActV::Send { pane, .. } => pane == m.focus && focused(m).active is LiveTty,
            a => a is Nothing,
        },
{
    assert(m.panes.insert(m.focus, focused(after_input(m, press(code, ctrl), who).0)).dom()
        =~= m.panes.dom());
}

/// What is typed at a pane's prompt stands there behind what was typed before, and a backspace
/// takes it back; other keys change nothing.
pub proof fn law_typing_edits_the_prompt(m: MuxV, c: char, other: Key, who: Seq<char>)
    requires
        m.panes.contains_key(m.focus),
        m.mode is Pane,
        focused(m).active is Cooked,
        !(other is Char) && !(other is Backspace) && !(other is Enter),
    ensures
        ({
            let n = after_input(m, press(Key::Char(c), false), who).0;
            let back = after_input(n, press(Key::Backspace, false), who).0;
            &&& focused(n).active == ActiveV::Cooked {
                input: focused(m).active->Cooked_input + seq![c],
            }
            &&& back == m
            &&& after_input(m, press(other, false), who) == (m, ActV::Nothing)
            &&& focused(m).active->Cooked_input.len() == 0 ==> after_input(
                m,
                press(Key::Backspace, false),
                who,
            ) == (m, ActV::Nothing)
            &&& c != 'a' ==> after_input(m, press(Key::Char(c), true), who) == (m, ActV::Nothing)
        }),
{
    let input = focused(m).active->Cooked_input;
    let n = after_input(m, press(Key::Char(c), false), who).0;
    let back = after_input(n, press(Key::Backspace, false), who).0;
    assert(input.push(c) =~= input + seq![c]);
    assert(input.push(c).drop_last() =~= input);
    assert(back.panes =~= m.panes);
    assert(m.panes.insert(m.focus, focused(m)) =~= m.panes);
}

/// Enter submits what was typed, without the white space around it, on the branch of the pane, and
/// the pane shows it as running from then on. A blank line is not submitted.
pub proof fn law_enter_submits_what_was_typed(m: MuxV, who: Seq<char>)
    requires
        m.panes.contains_key(m.focus),
        m.mode is Pane,
        focused(m).active is Cooked,
    ensures
        ({
            let (n, act) = after_input(m, press(Key::Enter, false), who);
            let source = trimmed(focused(m).active->Cooked_input);
            if source.len() > 0 {
                &&& act == ActV::Submit { pane: m.focus, branch: focused(m).branch, source }
                &&& focused(n).active matches ActiveV::Running {
                    id,
                    source: s,
                    who: w,
                    body,
                    resume,
                }
                &&& id is None && s == source && w == who && body.len() == 0 && resume.len() == 0
            } else {
                &&& act is Nothing
                &&& focused(n).active matches ActiveV::Cooked { input }
                &&& input.len() == 0
            }
        }),
{
}

/// In a terminal the keys go to the program that runs there; while a line runs they go nowhere.
pub proof fn law_keys_reach_terminals(m: MuxV, code: Key, ctrl: bool, who: Seq<char>)
    requires
        m.panes.contains_key(m.focus),
        m.mode is Pane,
        !(ctrl && code == Key::Char('a')),
    ensures
        focused(m).active is LiveTty ==> {
            let (n, act) = after_input(m, press(code, ctrl), who);
            &&& n == m
            &&& key_bytes(code, ctrl) matches Some(bytes) ==> act == ActV::Send {
                pane: m.focus,
                bytes,
            }
            &&& key_bytes(code, ctrl) is None ==> act is Nothing
        },
        focused(m).active is Running ==> after_input(m, press(code, ctrl), who) == (
            m,
            ActV::Nothing,
        ),
{
}

/// A character is sent as its own bytes. With Ctrl held a letter is sent as its number in the
/// alphabet, upper case or lower, and anything else as it is. Only a key that means nothing sends
/// nothing.
pub proof fn law_keys_are_sent_as_their_bytes(c: char, k: int, code: Key, ctrl: bool)
    requires
        0 <= k < 26,
    ensures
        key_bytes(Key::Char(c), false) == Some(encode_utf8(seq![c])),
        key_bytes(Key::Char("abcdefghijklmnopqrstuvwxyz"@[k]), true) == Some(seq![(k + 1) as u8]),
        key_bytes(Key::Char("ABCDEFGHIJKLMNOPQRSTUVWXYZ"@[k]), true) == Some(seq![(k + 1) as u8]),
        !("abcdefghijklmnopqrstuvwxyz"@.contains(c)) && !("ABCDEFGHIJKLMNOPQRSTUVWXYZ"@.contains(c))
            ==> key_bytes(Key::Char(c), true) == Some(encode_utf8(seq![c])),
        key_bytes(code, ctrl) is None <==> code is Other,
        !(code is Char) ==> key_bytes(code, ctrl) == key_bytes(code, !ctrl),
{
    reveal_strlit("abcdefghijklmnopqrstuvwxyz");
    reveal_strlit("ABCDEFGHIJKLMNOPQRSTUVWXYZ");
    let (low, high) = ("abcdefghijklmnopqrstuvwxyz"@, "ABCDEFGHIJKLMNOPQRSTUVWXYZ"@);
    assert(low[k] as int == 'a' as int + k);
    assert(high[k] as int == 'A' as int + k);
    if 'a' <= c <= 'z' {
        let i = c as int - 'a' as int;
        assert(low[i] as int == 'a' as int + i);
        assert(low[i] == c);
    }
    if 'A' <= c <= 'Z' {
        let i = c as int - 'A' as int;
        assert(high[i] as int == 'A' as int + i);
        assert(high[i] == c);
    }
}

/// The leader key makes the next key a command to the multiplexer, and that key alone; it goes to
/// no pane. What can be done is told first, and where the focus is afterwards.
pub proof fn law_the_leader_starts_one_command(m: MuxV, code: Key, ctrl: bool, who: Seq<char>)
    requires
        m.mode is Pane,
    ensures
        ({
            let (n, act) = after_input(m, press(Key::Char('a'), true), who);
            let (after, second) = after_input(n, press(code, ctrl), who);
            &&& act is Nothing && n.mode is Prefix
            &&& n == MuxV { mode: n.mode, status: n.status, ..m }
            &&& n.status == "PREFIX — %/\" split · o focus · q quit"@
            &&& second is Nothing ==> after.status == "focus: "@ + m.panes[after.focus].branch
            &&& !(second is Nothing) ==> after.status == n.status
            &&& after.mode is Pane && after.panes == m.panes && after.layout == m.layout
                && after.order == m.order && after.size == m.size && after.routes == m.routes
                && after.tty_cells == m.tty_cells && after.next_id == m.next_id
            &&& second is Quit <==> code == Key::Char('q') || code == Key::Char('d')
            &&& second == ActV::Split(Dir::Horizontal) <==> code == Key::Char('%')
            &&& second == ActV::Split(Dir::Vertical) <==> code == Key::Char('"')
            &&& second is Tty <==> code == Key::Char('e')
            &&& !(second is Submit) && !(second is Send)
            &&& !(code == Key::Char('o') || code is Tab || code is Right || code is Down)
                ==> after.focus == m.focus
        }),
{
}

/// The command that moves the focus moves it to the pane that was opened next, and from the last
/// to the first, and says where it is.
pub proof fn law_the_focus_moves_on(m: MuxV, i: int, code: Key, ctrl: bool, who: Seq<char>)
    requires
        m.order.no_duplicates(),
        0 <= i < m.order.len(),
        m.order[i] == m.focus,
        m.mode is Prefix,
        code == Key::Char('o') || code is Tab || code is Right || code is Down,
    ensures
        ({
            let (n, act) = after_input(m, press(code, ctrl), who);
            &&& act is Nothing
            &&& n.focus == m.order[if i + 1 < m.order.len() {
                i + 1
            } else {
                0
            }]
            &&& n.status == "focus: "@ + m.panes[n.focus].branch
        }),
{
    let j = m.order.index_of(m.focus);
    assert(m.order.contains(m.focus));
    assert(m.order[j] == m.focus);
    assert(i == j);
    if i + 1 == m.order.len() {
        assert((i + 1) % (m.order.len() as int) == 0);
    } else {
        assert((i + 1) % (m.order.len() as int) == i + 1) by (nonlinear_arith)
            requires
                0 <= i + 1 < m.order.len() as int,
        ;
    }
}

/// A key that is let go does nothing, nor does what is no key; a new size is taken over and
/// nothing else.
pub proof fn law_other_inputs(
    m: MuxV,
    code: Key,
    ctrl: bool,
    cols: u16,
    rows: u16,
    who: Seq<char>,
)
    ensures
        after_input(m, Input::Key { code, ctrl, release: true }, who) == (m, ActV::Nothing),
        after_input(m, Input::Other, who) == (m, ActV::Nothing),
        after_input(m, Input::Resize { cols, rows }, who) == (
            MuxV { size: (cols, rows), ..m },
            ActV::Nothing,
        ),
{
}

// ---------- Panes -----------------------------------------------------------

/// An area is split in two that are alike, but for one column or row that the second may have more;
/// side by side or one above the other, as the direction says.
pub proof fn law_areas_are_halved(r: Rect, dir: Dir)
    requires
        r.x + r.w <= u16::MAX,
        r.y + r.h <= u16::MAX,
    ensures
        ({
            let (a, b) = (first_half(dir, r), second_half(dir, r));
            match dir {
                Dir::Horizontal => {
                    &&& a.h == r.h && b.h == r.h && a.y == r.y && b.y == r.y
                    &&& a.x == r.x && b.x == a.x + a.w
                    &&& a.w + b.w == r.w && a.w <= b.w <= a.w + 1
                },
                Dir::Vertical => {
                    &&& a.w == r.w && b.w == r.w && a.x == r.x && b.x == r.x
                    &&& a.y == r.y && b.y == a.y + a.h
                    &&& a.h + b.h == r.h && a.h <= b.h <= a.h + 1
                },
            }
        }),
{
}

proof fn lemma_either<T>(a: Seq<T>, b: Seq<T>, x: T)
    ensures
        (a + b).contains(x) <==> a.contains(x) || b.contains(x),
{
    let s = a + b;
    if a.contains(x) {
        let i = choose|i: int| 0 <= i < a.len() && a[i] == x;
        assert(s[i] == x);
    }
    if b.contains(x) {
        let i = choose|i: int| 0 <= i < b.len() && b[i] == x;
        assert(s[i + a.len()] == x);
    }
    if s.contains(x) {
        let i = choose|i: int| 0 <= i < s.len() && s[i] == x;
        if i < a.len() {
            assert(a[i] == x);
        } else {
            assert(b[i - a.len()] == x);
        }
    }
}

proof fn lemma_only_leaves(l: Layout, area: Rect, p: PaneId, r: Rect)
    ensures
        tiles(l, area).contains((p, r)) ==> leaves(l).contains(p),
    decreases l,
{
    match l {
        Layout::Leaf(q) => {
            assert(leaves(l)[0] == q);
        },
        Layout::Split { dir, a, b } => {
            let (ra, rb) = (first_half(dir, area), second_half(dir, area));
            lemma_either(tiles(*a, ra), tiles(*b, rb), (p, r));
            lemma_either(leaves(*a), leaves(*b), p);
            lemma_only_leaves(*a, first_half(dir, area), p, r);
            lemma_only_leaves(*b, second_half(dir, area), p, r);
        },
    }
}

/// Splitting a pane gives its area to it and to the new pane, half each; every other pane keeps
/// the area that it had.
pub proof fn law_splits_halve_the_pane(
    l: Layout,
    target: PaneId,
    dir: Dir,
    new: PaneId,
    area: Rect,
    p: PaneId,
    r: Rect,
)
    requires
        leaves(l).no_duplicates(),
        leaves(l).contains(target),
        !leaves(l).contains(new),
    ensures
        ({
            let s = Layout::Split {
                dir,
                a: Box::new(Layout::Leaf(target)),
                b: Box::new(Layout::Leaf(new)),
            };
            let t = tiles(replaced(l, target, s), area);
            &&& p != target && p != new ==> (t.contains((p, r)) <==> tiles(l, area).contains(
                (p, r),
            ))
            &&& tiles(l, area).contains((target, r)) ==> t.contains((target, first_half(dir, r)))
                && t.contains((new, second_half(dir, r)))
        }),
    decreases l,
{
    let s = Layout::Split {
        dir,
        a: Box::new(Layout::Leaf(target)),
        b: Box::new(Layout::Leaf(new)),
    };
    let t = tiles(replaced(l, target, s), area);
    match l {
        Layout::Leaf(q) => {
            assert(leaves(l)[0] == q);
            assert(q == target);
            assert(tiles(Layout::Leaf(target), first_half(dir, area)) == seq![
                (target, first_half(dir, area)),
            ]);
            assert(tiles(Layout::Leaf(new), second_half(dir, area)) == seq![
                (new, second_half(dir, area)),
            ]);
            assert(t =~= seq![(target, first_half(dir, area)), (new, second_half(dir, area))]);
            assert(t[0] == (target, first_half(dir, area)));
            assert(t[1] == (new, second_half(dir, area)));
            assert(tiles(l, area) =~= seq![(target, area)]);
        },
        Layout::Split { dir: d, a, b } => {
            let (ra, rb) = (first_half(d, area), second_half(d, area));
            let (la, lb) = (leaves(*a), leaves(*b));
            lemma_either(la, lb, target);
            lemma_either(la, lb, new);
            lemma_either(tiles(*a, ra), tiles(*b, rb), (p, r));
            lemma_either(tiles(*a, ra), tiles(*b, rb), (target, r));
            lemma_parts_distinct(la, lb);
            if la.contains(target) {
                law_splits_halve_the_pane(*a, target, dir, new, ra, p, r);
                let ta = tiles(replaced(*a, target, s), ra);
                assert(t == ta + tiles(*b, rb));
                lemma_either(ta, tiles(*b, rb), (p, r));
                lemma_either(ta, tiles(*b, rb), (target, first_half(dir, r)));
                lemma_either(ta, tiles(*b, rb), (new, second_half(dir, r)));
                lemma_only_leaves(*b, rb, target, r);
            } else {
                law_splits_halve_the_pane(*b, target, dir, new, rb, p, r);
                let tb = tiles(replaced(*b, target, s), rb);
                assert(t == tiles(*a, ra) + tb);
                lemma_either(tiles(*a, ra), tb, (p, r));
                lemma_either(tiles(*a, ra), tb, (target, first_half(dir, r)));
                lemma_either(tiles(*a, ra), tb, (new, second_half(dir, r)));
                lemma_only_leaves(*a, ra, target, r);
            }
        },
    }
}

proof fn lemma_parts_distinct(a: Seq<PaneId>, b: Seq<PaneId>)
    requires
        (a + b).no_duplicates(),
    ensures
        a.no_duplicates(),
        b.no_duplicates(),
        forall|p: PaneId| a.contains(p) ==> !#[trigger] b.contains(p),
{
    let s = a + b;
    assert forall|i: int, j: int| 0 <= i < a.len() && 0 <= j < a.len() && i != j implies a[i]
        != a[j] by {
        assert(s[i] == a[i] && s[j] == a[j]);
    }
    assert forall|i: int, j: int| 0 <= i < b.len() && 0 <= j < b.len() && i != j implies b[i]
        != b[j] by {
        assert(s[i + a.len()] == b[i] && s[j + a.len()] == b[j]);
    }
    assert forall|p: PaneId| a.contains(p) implies !#[trigger] b.contains(p) by {
        if b.contains(p) {
            let i = choose|i: int| 0 <= i < a.len() && a[i] == p;
            let j = choose|j: int| 0 <= j < b.len() && b[j] == p;
            assert(s[i] == s[j + a.len()]);
        }
    }
}

/// A split opens a pane on the new branch, with an empty prompt and nothing above it, and gives it
/// the focus; what the other panes show stays.
pub proof fn law_splits_open_an_empty_pane(
    m: MuxV,
    id: PaneId,
    branch: Seq<char>,
    dir: Dir,
    p: PaneId,
)
    ensures
        ({
            let n = after_split(m, id, branch, dir);
            &&& n.focus == id && n.panes.contains_key(id)
            &&& n.panes[id].branch == branch && n.panes[id].scrollback.len() == 0
            &&& n.panes[id].active matches ActiveV::Cooked { input } && input.len() == 0
            &&& p != id ==> (n.panes.contains_key(p) <==> m.panes.contains_key(p)) && n.panes[p]
                == m.panes[p]
            &&& n.order == m.order + seq![id]
            &&& n.routes == m.routes && n.tty_cells == m.tty_cells && n.size == m.size && n.mode
                == m.mode && n.status == m.status && n.next_id == m.next_id
        }),
{
    assert(m.order.push(id) =~= m.order + seq![id]);
}

/// The inside of a pane is its area without the border, rows first.
pub proof fn law_borders_take_two_rows_and_columns(r: Rect)
    ensures
        r.h >= 2 ==> interior(r).0 == r.h - 2,
        r.w >= 2 ==> interior(r).1 == r.w - 2,
        r.h < 2 ==> interior(r).0 == 0,
        r.w < 2 ==> interior(r).1 == 0,
{
}

/// The panes have the whole screen but for its last row.
pub proof fn law_panes_have_all_but_one_row(size: (u16, u16))
    requires
        size.1 > 0,
    ensures
        area(size).x == 0 && area(size).y == 0,
        area(size).w == size.0,
        area(size).h + 1 == size.1,
{
}

// ---------- History ---------------------------------------------------------

/// A pane opens with the history of its branch: each cell but the root, from the oldest on, with
/// its line, who ran it, its output, its exit code and its time.
pub proof fn law_panes_open_with_their_history(
    m: MuxV,
    p: PaneId,
    tip: CellId,
    chain: Seq<CellSnapshotV>,
)
    requires
        m.panes.contains_key(p),
        forall|i: int|
            0 <= i < chain.len() ==> (#[trigger] chain[i]).parent is Some
                && chain[i].exit_code is Some,
    ensures
        ({
            let n = hydrated(m, p, tip, chain);
            let (old, new) = (m.panes[p].scrollback, n.panes[p].scrollback);
            &&& new.len() == old.len() + chain.len()
            &&& forall|i: int| 0 <= i < old.len() ==> #[trigger] new[i] == old[i]
            &&& forall|i: int|
                old.len() <= i < new.len() ==> {
                    let c = chain[i - old.len()];
                    let v = #[trigger] new[i];
                    &&& v.source == c.source && v.who == c.submitter && v.exit == c.exit_code
                    &&& v.duration_ms == c.duration_ms && v.body == c.stdout + c.stderr
                }
            &&& n.panes[p].active == m.panes[p].active && n.panes[p].branch == m.panes[p].branch
            &&& n.routes == m.routes && n.panes.contains_key(p)
            &&& n == MuxV { panes: m.panes.insert(p, n.panes[p]), ..m }
        }),
    decreases chain.len(),
{
    let n = hydrated(m, p, tip, chain);
    if chain.len() > 0 {
        let rest = chain.drop_last();
        assert forall|i: int| 0 <= i < rest.len() implies (#[trigger] rest[i]).parent is Some
            && rest[i].exit_code is Some by {
            assert(rest[i] == chain[i]);
        }
        law_panes_open_with_their_history(m, p, tip, rest);
        let c = chain.last();
        assert(chain[chain.len() - 1] == c);
        let before = hydrated(m, p, tip, rest);
        let (old, mid, new) = (
            m.panes[p].scrollback,
            before.panes[p].scrollback,
            n.panes[p].scrollback,
        );
        assert(new == mid.push(cell_view(c)));
        assert(n.panes =~= m.panes.insert(p, n.panes[p]));
        assert forall|i: int| old.len() <= i < new.len() implies {
            let c = chain[i - old.len()];
            let v = #[trigger] new[i];
            &&& v.source == c.source && v.who == c.submitter && v.exit == c.exit_code
            &&& v.duration_ms == c.duration_ms && v.body == c.stdout + c.stderr
        } by {
            if i < mid.len() {
                assert(new[i] == mid[i]);
                assert(rest[i - old.len()] == chain[i - old.len()]);
            }
        }
        assert forall|i: int| 0 <= i < old.len() implies #[trigger] new[i] == old[i] by {
            assert(new[i] == mid[i]);
        }
    } else {
        assert(m.panes.insert(p, m.panes[p]) =~= m.panes);
    }
}

/// A root has no place in a pane's history. The tip, where it is still running, stands below it,
/// with what it has put out so far, and what it puts out next goes there; any other cell is part of
/// the history.
pub proof fn law_running_tips_stand_below_the_history(
    m: MuxV,
    p: PaneId,
    c: CellSnapshotV,
    tip: CellId,
    q: PaneId,
)
    requires
        m.panes.contains_key(p),
    ensures
        c.parent is None ==> with_cell(m, p, tip, c) == m,
        c.parent is Some && (c.id != tip || c.exit_code is Some) ==> {
            let n = with_cell(m, p, tip, c);
            let (old, new) = (m.panes[p], n.panes[p]);
            &&& new.scrollback.len() == old.scrollback.len() + 1 && new.scrollback.drop_last()
                == old.scrollback
            &&& new.scrollback.last().source == c.source && new.scrollback.last().exit
                == c.exit_code
            &&& new.active == old.active && n.routes == m.routes
            &&& q != p ==> n.panes[q] == m.panes[q]
        },
        c.parent is Some && c.exit_code is None ==> {
            let n = with_cell(m, p, c.id, c);
            &&& n.panes[p].active matches ActiveV::Running { id, source, who, body, resume }
            &&& id == Some(c.id) && source == c.source && who == c.submitter && body == c.stdout
                + c.stderr && resume.len() == 0
            &&& n.panes[p].scrollback == m.panes[p].scrollback
            &&& n.routes.contains_key(c.id) && n.routes[c.id] == p
            &&& q != p ==> n.panes[q] == m.panes[q]
        },
{
    if c.parent is Some && (c.id != tip || c.exit_code is Some) {
        let n = with_cell(m, p, tip, c);
        assert(n.panes[p].scrollback.drop_last() =~= m.panes[p].scrollback);
    }
}

// ---------- Events ----------------------------------------------------------

proof fn lemma_on_branch(m: MuxV, branch: Seq<char>, i: int)
    requires
        0 <= i,
    ensures
        match pane_on_branch(m, branch, i) {
            Some(p) => m.panes[p].branch == branch && exists|k: int|
                i <= k < m.order.len() && #[trigger] m.order[k] == p && forall|j: int|
                    i <= j < k ==> m.panes[#[trigger] m.order[j]].branch != branch,
            None => forall|j: int|
                i <= j < m.order.len() ==> m.panes[#[trigger] m.order[j]].branch != branch,
        },
    decreases m.order.len() - i,
{
    if i < m.order.len() {
        if m.panes[m.order[i]].branch == branch {
            assert(m.order[i] == m.order[i]);
        } else {
            lemma_on_branch(m, branch, i + 1);
            if let Some(p) = pane_on_branch(m, branch, i + 1) {
                let k = choose|k: int|
                    i + 1 <= k < m.order.len() && #[trigger] m.order[k] == p && forall|j: int|
                        i + 1 <= j < k ==> m.panes[#[trigger] m.order[j]].branch != branch;
                assert(m.order[k] == p);
            }
        }
    }
}

/// A branch is shown in the pane that was opened first on it, and in none where no pane is on it.
pub proof fn law_panes_are_found_by_branch(m: MuxV, branch: Seq<char>, k: int)
    ensures
        0 <= k < m.order.len() && m.panes[m.order[k]].branch == branch && (forall|j: int|
            0 <= j < k ==> m.panes[#[trigger] m.order[j]].branch != branch) ==> pane_on_branch(
            m,
            branch,
            0,
        ) == Some(m.order[k]),
        (forall|j: int| 0 <= j < m.order.len() ==> m.panes[#[trigger] m.order[j]].branch != branch)
            ==> pane_on_branch(m, branch, 0) is None,
{
    lemma_on_branch(m, branch, 0);
    if 0 <= k < m.order.len() && m.panes[m.order[k]].branch == branch && (forall|j: int|
        0 <= j < k ==> m.panes[#[trigger] m.order[j]].branch != branch) {
        let p = pane_on_branch(m, branch, 0)->Some_0;
        let i = choose|i: int|
            0 <= i < m.order.len() && #[trigger] m.order[i] == p && forall|j: int|
                0 <= j < i ==> m.panes[#[trigger] m.order[j]].branch != branch;
        if i < k {
            assert(m.panes[m.order[i]].branch != branch);
        } else if k < i {
            assert(m.panes[m.order[k]].branch != branch);
        }
    }
}

/// An event changes one pane at most, the one that shows its cell, and never where the focus is or
/// how the panes lie. An event of a cell that a terminal of the multiplexer shows changes nothing.
pub proof fn law_events_change_one_pane(m: MuxV, e: CellEventV, p: PaneId)
    ensures
        ({
            let n = after_event(m, e);
            let own = match e {
                CellEventV::Started { branch, .. } => pane_on_branch(m, branch, 0),
                CellEventV::OutputChunk { id, .. } => if m.routes.contains_key(id) {
                    Some(m.routes[id])
                } else {
                    None
                },
                CellEventV::Completed { id, .. } => if m.routes.contains_key(id) {
                    Some(m.routes[id])
                } else {
                    None
                },
            };
            &&& own != Some(p) ==> n.panes[p] == m.panes[p] && (n.panes.contains_key(p)
                <==> m.panes.contains_key(p))
            &&& n == MuxV { panes: n.panes, routes: n.routes, ..m }
            &&& n.panes[p].branch == m.panes[p].branch
            &&& m.tty_cells.contains(event_cell(e)) ==> n == m
            &&& e is Completed ==> !n.routes.contains_key(event_cell(e)) || m.tty_cells.contains(
                event_cell(e),
            )
            &&& forall|k: CellId|
                k != event_cell(e) ==> (#[trigger] n.routes.contains_key(k)
                    <==> m.routes.contains_key(k)) && n.routes[k] == m.routes[k]
        }),
{
}

// ---------- Messages --------------------------------------------------------

/// A line that could not be submitted is shown as a cell that failed, with why, and the prompt
/// comes back empty; no other pane is touched.
pub proof fn law_failed_submits_are_shown(m: MuxV, p: PaneId, err: Seq<char>, q: PaneId)
    requires
        m.panes.contains_key(p),
    ensures
        ({
            let (n, t) = after_msg(m, MsgV::SubmitFailed { pane: p, err });
            let (old, new) = (m.panes[p], n.panes[p]);
            &&& t is Nothing
            &&& new.scrollback.len() == old.scrollback.len() + 1
            &&& new.scrollback.drop_last() == old.scrollback
            &&& new.scrollback.last().body == err && new.scrollback.last().exit == Some(-1i32)
            &&& new.scrollback.last().source == "(submit failed)"@ && new.scrollback.last().who
                == "fern"@
            &&& new.active matches ActiveV::Cooked { input }
            &&& input.len() == 0 && new.branch == old.branch
            &&& q != p ==> n.panes[q] == m.panes[q]
            &&& n == MuxV { panes: n.panes, ..m }
        }),
{
    let n = after_msg(m, MsgV::SubmitFailed { pane: p, err }).0;
    assert(n.panes[p].scrollback.drop_last() =~= m.panes[p].scrollback);
}

/// What a terminal's program puts out goes to that terminal, as long as it is live. When its
/// connection ends, the terminal goes, the prompt comes back as it was, and the pane hears of its
/// branch again.
pub proof fn law_terminals_are_fed_and_dropped(m: MuxV, p: PaneId, data: Seq<u8>, q: PaneId)
    ensures
        ({
            let live = m.panes.contains_key(p) && m.panes[p].active is LiveTty;
            let (n, t) = after_msg(m, MsgV::TtyOutput { pane: p, data });
            let (u, d) = after_msg(m, MsgV::TtyClosed { pane: p });
            &&& n == m
            &&& t == if live {
                TerminalV::Feed { pane: p, data }
            } else {
                TerminalV::Nothing
            }
            &&& !live ==> u == m && d is Nothing
            &&& live ==> {
                &&& d == TerminalV::Drop { pane: p }
                &&& u.panes[p].active == ActiveV::Cooked {
                    input: m.panes[p].active->LiveTty_resume,
                }
                &&& u.panes[p].scrollback == m.panes[p].scrollback && u.panes[p].branch
                    == m.panes[p].branch
                &&& !u.tty_cells.contains(m.panes[p].active->LiveTty_id)
                &&& q != p ==> u.panes[q] == m.panes[q]
                &&& u.focus == m.focus && u.layout == m.layout && u.order == m.order && u.routes
                    == m.routes
            }
        }),
{
}

/// A terminal runs what was typed, or where nothing was the user's shell, or `bash`.
pub proof fn law_terminals_run_what_was_typed(active: ActiveV, shell: Option<Seq<char>>)
    ensures
        active is Cooked && trimmed(active->Cooked_input).len() > 0 ==> tty_command(active, shell)
            == trimmed(active->Cooked_input),
        !(active is Cooked) || trimmed(active->Cooked_input).len() == 0 ==> tty_command(
            active,
            shell,
        ) == match shell {
            Some(s) => s,
            None => "bash"@,
        },
{
}

/// A terminal opens in the focused pane, with the size of that pane, and is the only one that then
/// shows its cell.
pub proof fn law_terminals_open_in_the_focused_pane(m: MuxV, id: CellId, q: PaneId)
    requires
        m.panes.contains_key(m.focus),
    ensures
        ({
            let n = after_tty(m, id);
            &&& focused(n).active matches ActiveV::LiveTty { id: i, resume, size }
            &&& i == id && resume.len() == 0
            &&& inner_size(m, m.focus) matches Some(s) ==> size == s
            &&& inner_size(m, m.focus) is None ==> size == (24u16, 80u16)
            &&& n.tty_cells.contains(id)
            &&& q != m.focus ==> n.panes[q] == m.panes[q]
            &&& n == MuxV { panes: n.panes, tty_cells: m.tty_cells.insert(id), ..m }
        }),
{
}

// ---------- Sizes -----------------------------------------------------------

/// The panes of areas are all different.
spec fn distinct(t: Seq<(PaneId, Rect)>) -> bool {
    forall|i: int, j: int|
        0 <= i < t.len() && 0 <= j < t.len() && i != j ==> (#[trigger] t[i]).0 != (
        #[trigger] t[j]).0
}

proof fn lemma_refit(m: MuxV, t: Seq<(PaneId, Rect)>, p: PaneId)
    requires
        distinct(t),
        m.panes.contains_key(p),
    ensures
        ({
            let n = reconciled(m, t).0;
            &&& n.panes.contains_key(p)
            &&& n.panes.dom() == m.panes.dom()
            &&& (forall|i: int| 0 <= i < t.len() ==> (#[trigger] t[i]).0 != p) ==> n.panes[p]
                == m.panes[p]
            &&& forall|i: int|
                0 <= i < t.len() && (#[trigger] t[i]).0 == p ==> {
                    let (rows, cols) = interior(t[i].1);
                    match m.panes[p].active {
                        ActiveV::LiveTty { id, resume, size } => n.panes[p] == PaneV {
                            active: ActiveV::LiveTty {
                                id,
                                resume,
                                size: if rows > 0 && cols > 0 {
                                    (rows, cols)
                                } else {
                                    size
                                },
                            },
                            ..m.panes[p]
                        },
                        _ => n.panes[p] == m.panes[p],
                    }
                }
        }),
    decreases t.len(),
{
    if t.len() > 0 {
        let rest = t.drop_last();
        let last = t.last();
        assert(t[t.len() - 1] == last);
        assert(distinct(rest)) by {
            assert forall|i: int, j: int|
                0 <= i < rest.len() && 0 <= j < rest.len() && i != j implies (#[trigger] rest[i]).0
                != (#[trigger] rest[j]).0 by {
                assert(rest[i] == t[i] && rest[j] == t[j]);
            }
        }
        lemma_refit(m, rest, p);
        let mid = reconciled(m, rest).0;
        let n = reconciled(m, t).0;
        assert(n.panes.dom() =~= m.panes.dom());
        if last.0 == p {
            assert forall|i: int| 0 <= i < rest.len() implies (#[trigger] rest[i]).0 != p by {
                assert(rest[i] == t[i]);
                assert(t[i].0 != t[t.len() - 1].0);
            }
            assert(mid.panes[p] == m.panes[p]);
            assert forall|i: int| 0 <= i < t.len() && (#[trigger] t[i]).0 == p implies i == t.len()
                - 1 by {
                if i < t.len() - 1 {
                    assert(t[i].0 != t[t.len() - 1].0);
                }
            }
        } else {
            assert(n.panes[p] == mid.panes[p]);
            assert forall|i: int| 0 <= i < t.len() && (#[trigger] t[i]).0 == p implies i
                < rest.len() && rest[i] == t[i] by {}
            if forall|i: int| 0 <= i < t.len() ==> (#[trigger] t[i]).0 != p {
                assert forall|i: int| 0 <= i < rest.len() implies (#[trigger] rest[i]).0 != p by {
                    assert(rest[i] == t[i]);
                }
            }
        }
    }
}

/// Every terminal is given the size of the inside of its pane, as long as that has a row and a
/// column; nothing else of any pane changes.
pub proof fn law_terminals_fill_their_panes(m: MuxV, k: int)
    requires
        in_order(m),
        !too_small(m.size),
        0 <= k < leaves(m.layout).len(),
    ensures
        ({
            let n = all_reconciled(m).0;
            let (p, r) = tiles(m.layout, area(m.size))[k];
            match m.panes[p].active {
                ActiveV::LiveTty { id, resume, size } => n.panes[p] == PaneV {
                    active: ActiveV::LiveTty {
                        id,
                        resume,
                        size: if r.h > 2 && r.w > 2 {
                            ((r.h - 2) as u16, (r.w - 2) as u16)
                        } else {
                            size
                        },
                    },
                    ..m.panes[p]
                },
                _ => n.panes[p] == m.panes[p],
            }
        }),
{
    let t = tiles(m.layout, area(m.size));
    law_panes_tile_the_area(m.layout, area(m.size));
    assert(distinct(t)) by {
        assert forall|i: int, j: int|
            0 <= i < t.len() && 0 <= j < t.len() && i != j implies (#[trigger] t[i]).0 != (
        #[trigger] t[j]).0 by {
            assert(leaves(m.layout)[i] != leaves(m.layout)[j]);
        }
    }
    let (p, r) = t[k];
    assert(leaves(m.layout)[k] == p);
    assert(leaves(m.layout).contains(p));
    assert(m.order.contains(p));
    assert(m.panes.contains_key(p));
    lemma_refit(m, t, p);
    assert(t[k].0 == p);
}

proof fn lemma_resizes(m: MuxV, t: Seq<(PaneId, Rect)>)
    requires
        distinct(t),
    ensures
        forall|i: int|
            0 <= i < reconciled(m, t).1.len() ==> {
                let r = #[trigger] reconciled(m, t).1[i];
                &&& t.contains((r.pane, resized_tile(t, r.pane)))
                &&& m.panes.contains_key(r.pane)
                &&& m.panes[r.pane].active matches ActiveV::LiveTty { id, size, .. }
                &&& id == r.id
                &&& size != (r.rows, r.cols)
                &&& (r.rows, r.cols) == interior(resized_tile(t, r.pane))
            },
    decreases t.len(),
{
    if t.len() > 0 {
        let rest = t.drop_last();
        let last = t.last();
        assert(t[t.len() - 1] == last);
        assert(distinct(rest)) by {
            assert forall|i: int, j: int|
                0 <= i < rest.len() && 0 <= j < rest.len() && i != j implies (#[trigger] rest[i]).0
                != (#[trigger] rest[j]).0 by {
                assert(rest[i] == t[i] && rest[j] == t[j]);
            }
        }
        lemma_resizes(m, rest);
        let (mid, before) = reconciled(m, rest);
        let all = reconciled(m, t).1;
        assert forall|i: int| 0 <= i < all.len() implies {
            let r = #[trigger] all[i];
            &&& t.contains((r.pane, resized_tile(t, r.pane)))
            &&& m.panes.contains_key(r.pane)
            &&& m.panes[r.pane].active matches ActiveV::LiveTty { id, size, .. }
            &&& id == r.id
            &&& size != (r.rows, r.cols)
            &&& (r.rows, r.cols) == interior(resized_tile(t, r.pane))
        } by {
            let r = all[i];
            if i < before.len() {
                assert(before[i] == r);
                let j = choose|j: int|
                    0 <= j < rest.len() && rest[j] == (r.pane, resized_tile(rest, r.pane));
                assert(t[j] == rest[j]);
                lemma_resized_tile(t, j);
            } else {
                assert(misfit(mid, last) == Some(r));
                lemma_resized_tile(t, t.len() - 1);
                lemma_same_panes(m, rest);
                assert(m.panes.contains_key(r.pane));
                lemma_refit(m, rest, r.pane);
                assert forall|i: int| 0 <= i < rest.len() implies (#[trigger] rest[i]).0
                    != r.pane by {
                    assert(rest[i] == t[i]);
                    assert(t[i].0 != t[t.len() - 1].0);
                }
            }
        }
    }
}

/// The area of a pane among areas.
pub open spec fn resized_tile(t: Seq<(PaneId, Rect)>, p: PaneId) -> Rect {
    t[choose|i: int| 0 <= i < t.len() && (#[trigger] t[i]).0 == p].1
}

proof fn lemma_resized_tile(t: Seq<(PaneId, Rect)>, j: int)
    requires
        distinct(t),
        0 <= j < t.len(),
    ensures
        resized_tile(t, t[j].0) == t[j].1,
        t.contains((t[j].0, resized_tile(t, t[j].0))),
{
    let i = choose|i: int| 0 <= i < t.len() && (#[trigger] t[i]).0 == t[j].0;
    assert(t[j].0 == t[j].0);
    assert(i == j);
    assert(t[j] == (t[j].0, t[j].1));
}

proof fn lemma_same_panes(m: MuxV, t: Seq<(PaneId, Rect)>)
    ensures
        reconciled(m, t).0.panes.dom() == m.panes.dom(),
    decreases t.len(),
{
    if t.len() > 0 {
        lemma_same_panes(m, t.drop_last());
        assert(reconciled(m, t).0.panes.dom() =~= m.panes.dom());
    }
}

/// Whoever is told of a new size is the cell whose terminal had another one, and the size is that
/// of the inside of its pane.
pub proof fn law_resizes_are_told_to_the_right_cell(m: MuxV, i: int)
    requires
        in_order(m),
        0 <= i < all_reconciled(m).1.len(),
    ensures
        ({
            let r = all_reconciled(m).1[i];
            let tile = resized_tile(tiles(m.layout, area(m.size)), r.pane);
            &&& tiles(m.layout, area(m.size)).contains((r.pane, tile))
            &&& m.panes[r.pane].active matches ActiveV::LiveTty { id, size, .. }
            &&& id == r.id && size != (r.rows, r.cols)
            &&& r.rows + 2 == tile.h && r.cols + 2 == tile.w
        }),
{
    let t = tiles(m.layout, area(m.size));
    law_panes_tile_the_area(m.layout, area(m.size));
    assert(distinct(t)) by {
        assert forall|i: int, j: int|
            0 <= i < t.len() && 0 <= j < t.len() && i != j implies (#[trigger] t[i]).0 != (
        #[trigger] t[j]).0 by {
            assert(leaves(m.layout)[i] != leaves(m.layout)[j]);
        }
    }
    lemma_resizes(m, t);
    let r = reconciled(m, t).1[i];
    lemma_some_room(m, t, i);
}

proof fn lemma_some_room(m: MuxV, t: Seq<(PaneId, Rect)>, i: int)
    requires
        0 <= i < reconciled(m, t).1.len(),
    ensures
        reconciled(m, t).1[i].rows > 0,
        reconciled(m, t).1[i].cols > 0,
    decreases t.len(),
{
    if t.len() > 0 {
        let before = reconciled(m, t.drop_last()).1;
        if i < before.len() {
            lemma_some_room(m, t.drop_last(), i);
            assert(reconciled(m, t).1[i] == before[i]);
        }
    }
}

/// The size of the inside of a pane is that of its own area.
pub proof fn law_panes_have_the_size_of_their_area(m: MuxV, k: int)
    requires
        leaves(m.layout).no_duplicates(),
        !too_small(m.size),
        0 <= k < leaves(m.layout).len(),
    ensures
        ({
            let (p, r) = tiles(m.layout, area(m.size))[k];
            inner_size(m, p) == Some(interior(r))
        }),
{
    let t = tiles(m.layout, area(m.size));
    law_panes_tile_the_area(m.layout, area(m.size));
    assert forall|i: int| 0 <= i < k implies (#[trigger] t[i]).0 != t[k].0 by {
        assert(leaves(m.layout)[i] != leaves(m.layout)[k]);
    }
    lemma_tile_of(t, k, 0);
}

proof fn lemma_tile_of(t: Seq<(PaneId, Rect)>, k: int, i: int)
    requires
        0 <= i <= k < t.len(),
        forall|j: int| 0 <= j < k ==> (#[trigger] t[j]).0 != t[k].0,
    ensures
        tile_of(t, t[k].0, i) == Some(t[k].1),
    decreases k - i,
{
    if i < k {
        assert(t[i].0 != t[k].0);
        lemma_tile_of(t, k, i + 1);
    }
}

/// The branches that panes are forked onto have names of their own.
pub proof fn law_forked_branches_have_their_own_names(p: PaneId, q: PaneId)
    ensures
        p != q ==> fork_name(p) != fork_name(q),
        fork_name(p).len() > 4 && fork_name(p).take(4) == seq!['m', 'u', 'x', '-'],
        fork_name(p).skip(4) == decimal(p as nat),
{
    reveal_strlit("mux-");
    lemma_decimal_digits(p as nat);
    assert(fork_name(p).take(4) =~= seq!['m', 'u', 'x', '-']);
    assert(fork_name(p).skip(4) =~= decimal(p as nat));
    assert(fork_name(q).skip(4) =~= decimal(q as nat));
    if fork_name(p) == fork_name(q) {
        lemma_decimal_injective(p as nat, q as nat);
    }
}

/// The keys that are no characters are sent as terminals send them: the arrows as `A` to `D` behind
/// an escape and a bracket, the other keys likewise, and no two of them alike.
pub proof fn law_special_keys_are_sent_as_terminals_send_them(a: Key, b: Key, ctrl: bool)
    requires
        !(a is Char) && !(a is Other),
        !(b is Char) && !(b is Other),
    ensures
        a != b ==> key_bytes(a, ctrl) != key_bytes(b, ctrl),
        key_bytes(Key::Up, ctrl) == Some(seq![27u8, 91, 65]),
        key_bytes(Key::Down, ctrl) == Some(seq![27u8, 91, 66]),
        key_bytes(Key::Right, ctrl) == Some(seq![27u8, 91, 67]),
        key_bytes(Key::Left, ctrl) == Some(seq![27u8, 91, 68]),
        key_bytes(a, ctrl) matches Some(s) && (s.len() == 1 <==> a is Enter || a is Backspace
            || a is Tab || a is Esc) && (s.len() > 1 ==> s[0] == 27 && s[1] == 91),
{
    let (x, y) = (key_bytes(a, ctrl)->Some_0, key_bytes(b, ctrl)->Some_0);
    if x == y {
        assert(x.len() == y.len());
        assert(x[0] == y[0]);
        if x.len() > 2 {
            assert(x[2] == y[2]);
        }
    }
    assert(key_bytes(Key::Up, ctrl)->Some_0 =~= seq![27u8, 91, 65]);
    assert(key_bytes(Key::Down, ctrl)->Some_0 =~= seq![27u8, 91, 66]);
    assert(key_bytes(Key::Right, ctrl)->Some_0 =~= seq![27u8, 91, 67]);
    assert(key_bytes(Key::Left, ctrl)->Some_0 =~= seq![27u8, 91, 68]);
}

} // verus!
