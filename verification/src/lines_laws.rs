//! What the lines of a pane show.

use vstd::prelude::*;

use crate::lines::{
    active_lines, after_sequence, cell_lines, footer, lines_of, overwritten, sanitized,
    scrollback_lines, shown_lines, split_lines,
};
use crate::mux::{ActiveV, CellViewV, PaneV};
use crate::render_laws::{ends_in, lemma_ends, lemma_same_around, starts_with};
use crate::text::{decimal, signed_decimal};
use crate::text_laws::law_numbers_differ;

verus! {

// ---------- Output ----------------------------------------------------------

proof fn lemma_sequence(params: Seq<char>, f: char, rest: Seq<char>)
    requires
        forall|i: int| 0 <= i < params.len() ==> !('@' <= #[trigger] params[i] <= '~'),
        '@' <= f <= '~',
    ensures
        after_sequence(params + seq![f] + rest) == rest,
    decreases params.len(),
{
    let s = params + seq![f] + rest;
    if params.len() == 0 {
        assert(s[0] == f);
        assert(s.skip(1) =~= rest);
    } else {
        let p = params.skip(1);
        assert(s[0] == params[0]);
        assert(s.skip(1) =~= p + seq![f] + rest);
        assert forall|i: int| 0 <= i < p.len() implies !('@' <= #[trigger] p[i] <= '~') by {
            assert(p[i] == params[i + 1]);
        }
        lemma_sequence(p, f, rest);
    }
}

/// A control sequence, from the escape character and a bracket up to the character that ends it, is
/// left out of a line, and what follows it is shown.
pub proof fn law_control_sequences_are_left_out(params: Seq<char>, f: char, rest: Seq<char>)
    requires
        forall|i: int| 0 <= i < params.len() ==> !('@' <= #[trigger] params[i] <= '~'),
        '@' <= f <= '~',
    ensures
        sanitized(seq!['\x1b', '['] + params + seq![f] + rest) == sanitized(rest),
{
    let s = seq!['\x1b', '['] + params + seq![f] + rest;
    assert(s[0] == '\x1b');
    assert(s.skip(1)[0] == '[');
    assert(s.skip(1).skip(1) =~= params + seq![f] + rest);
    lemma_sequence(params, f, rest);
}

/// A character that is no control is shown as it is, a tab as four spaces, and any other control,
/// an escape that starts no sequence among them, not at all.
pub proof fn law_characters_are_shown_or_left_out(c: char, rest: Seq<char>)
    ensures
        c >= ' ' ==> sanitized(seq![c] + rest) == seq![c] + sanitized(rest),
        c == '\t' ==> sanitized(seq![c] + rest) == seq![' ', ' ', ' ', ' '] + sanitized(rest),
        c < ' ' && c != '\t' && !(c == '\x1b' && rest.len() > 0 && rest[0] == '[') ==> sanitized(
            seq![c] + rest,
        ) == sanitized(rest),
        sanitized(Seq::empty()).len() == 0,
{
    let s = seq![c] + rest;
    assert(s[0] == c);
    assert(s.skip(1) =~= rest);
    reveal_strlit("    ");
    assert("    "@ =~= seq![' ', ' ', ' ', ' ']);
}

/// Lines put together again, with a line feed between each two.
pub open spec fn unsplit(ls: Seq<Seq<char>>) -> Seq<char>
    decreases ls.len(),
{
    if ls.len() == 0 {
        Seq::empty()
    } else if ls.len() == 1 {
        ls[0]
    } else {
        unsplit(ls.drop_last()) + seq!['\n'] + ls.last()
    }
}

/// The lines of an output are what stands between its line feeds: there is none in any of them, and
/// put together again they are the output.
pub proof fn law_lines_stand_between_line_feeds(s: Seq<char>)
    ensures
        split_lines(s).len() > 0,
        unsplit(split_lines(s)) == s,
        forall|i: int|
            0 <= i < split_lines(s).len() ==> !(#[trigger] split_lines(s)[i]).contains('\n'),
    decreases s.len(),
{
    let ls = split_lines(s);
    if s.len() > 0 {
        let t = s.drop_last();
        let c = s.last();
        law_lines_stand_between_line_feeds(t);
        let before = split_lines(t);
        assert(s =~= t + seq![c]);
        if c == '\n' {
            assert(ls.drop_last() =~= before);
            assert(unsplit(ls) =~= s);
        } else {
            let last = before.last();
            assert(ls.drop_last() =~= before.drop_last());
            assert(ls.last() == last.push(c));
            if before.len() == 1 {
                assert(unsplit(ls) =~= s);
            } else {
                assert(unsplit(ls) =~= s);
            }
            assert(before[before.len() - 1] == last);
            assert forall|i: int| 0 <= i < ls.len() implies !(#[trigger] ls[i]).contains('\n') by {
                if i < before.len() - 1 {
                    assert(ls[i] == before[i]);
                } else {
                    assert(ls[i] == last.push(c));
                    if ls[i].contains('\n') {
                        let k = choose|k: int| 0 <= k < ls[i].len() && ls[i][k] == '\n';
                        assert(k < last.len());
                        assert(last[k] == '\n');
                    }
                }
            }
        }
    }
}

/// A carriage return lets what follows it stand in the place of what came before: of a line, what
/// is behind the last one is shown.
pub proof fn law_carriage_returns_overwrite(before: Seq<char>, l: Seq<char>)
    requires
        !l.contains('\r'),
    ensures
        overwritten(l) == l,
        overwritten(before + seq!['\r'] + l) == l,
    decreases l.len(),
{
    let s = before + seq!['\r'] + l;
    if l.len() == 0 {
        assert(s.last() == '\r');
        assert(l =~= Seq::<char>::empty());
    } else {
        let t = l.drop_last();
        assert(l[l.len() - 1] == l.last());
        assert(l.last() != '\r');
        if t.contains('\r') {
            let k = choose|k: int| 0 <= k < t.len() && t[k] == '\r';
            assert(l[k] == '\r');
        }
        law_carriage_returns_overwrite(before, t);
        assert(s.drop_last() =~= before + seq!['\r'] + t);
        assert(s.last() == l.last());
        assert(t.push(l.last()) =~= l);
    }
}

/// Each line of an output is shown where it stands, as what is left of it.
pub proof fn law_output_is_shown_line_by_line(body: Seq<char>, i: int)
    requires
        0 <= i < split_lines(body).len(),
    ensures
        shown_lines(body).len() == split_lines(body).len(),
        shown_lines(body)[i] == sanitized(overwritten(split_lines(body)[i])),
{
}

// ---------- Cells -----------------------------------------------------------

/// A finished cell shows its line, what it put out, how it ended, and a blank line.
pub proof fn law_finished_cells_show_how_they_ended(c: CellViewV)
    requires
        c.exit is Some,
    ensures
        ({
            let ls = cell_lines(c);
            let n = shown_lines(c.body).len();
            &&& ls.len() == n + 3
            &&& ls[0] == "❯ "@ + c.source
            &&& ls.subrange(1, 1 + n as int) == shown_lines(c.body)
            &&& ls[n as int + 1] == footer(c.who, c.exit->Some_0, c.duration_ms)
            &&& ls[n as int + 2].len() == 0
        }),
{
    let n = shown_lines(c.body).len();
    assert(cell_lines(c).subrange(1, 1 + n as int) =~= shown_lines(c.body));
}

/// A cell that has not ended shows its line, what it put out, and a blank line.
pub proof fn law_cells_that_have_not_ended_show_no_end(c: CellViewV)
    requires
        c.exit is None,
    ensures
        ({
            let ls = cell_lines(c);
            let n = shown_lines(c.body).len();
            &&& ls.len() == n + 2
            &&& ls[0] == "❯ "@ + c.source
            &&& ls.subrange(1, 1 + n as int) == shown_lines(c.body)
            &&& ls[n as int + 1].len() == 0
        }),
{
    let n = shown_lines(c.body).len();
    assert(cell_lines(c).subrange(1, 1 + n as int) =~= shown_lines(c.body));
}

/// How a cell ended is told by who ran it, its exit code and its time in milliseconds; cells that
/// ended with different exit codes are told apart.
pub proof fn law_footers_tell_the_exit_code(who: Seq<char>, code: i32, ms: u64, other: i32)
    ensures
        starts_with(
            footer(who, code, ms),
            "  └ "@ + who + " · exit "@ + signed_decimal(code as int),
        ),
        ends_in(
            footer(who, code, ms),
            " · exit "@ + signed_decimal(code as int) + " · "@ + decimal(ms as nat) + "ms"@,
        ),
        code != other ==> footer(who, code, ms) != footer(who, other, ms),
{
    let d = signed_decimal(code as int);
    let head = "  └ "@ + who;
    let tail = " · "@ + decimal(ms as nat) + "ms"@;
    let f = footer(who, code, ms);
    assert(f =~= (head + " · exit "@ + d) + tail);
    lemma_ends(head + " · exit "@ + d, tail);
    let all = " · exit "@ + d + " · "@ + decimal(ms as nat) + "ms"@;
    assert(f =~= head + all);
    lemma_ends(head, all);
    if f == footer(who, other, ms) {
        let e = signed_decimal(other as int);
        assert(footer(who, other, ms) =~= (head + " · exit "@) + e + tail);
        assert(f =~= (head + " · exit "@) + d + tail);
        lemma_same_around(head + " · exit "@, d, e, tail);
        law_numbers_differ(code as int, other as int);
    }
}

/// The cells of a pane are shown from the oldest to the newest, and what the pane does now stands
/// below them.
pub proof fn law_cells_are_shown_from_the_oldest_on(
    p: PaneV,
    a: Seq<CellViewV>,
    b: Seq<CellViewV>,
    c: CellViewV,
)
    ensures
        scrollback_lines(a + b) == scrollback_lines(a) + scrollback_lines(b),
        scrollback_lines(seq![c]) == cell_lines(c),
        ({
            let n = scrollback_lines(p.scrollback).len() as int;
            &&& lines_of(p).take(n) == scrollback_lines(p.scrollback)
            &&& lines_of(p).skip(n) == active_lines(p.active)
        }),
    decreases b.len(),
{
    let none = Seq::<CellViewV>::empty();
    assert(seq![c].drop_last() =~= none);
    assert(scrollback_lines(none) + cell_lines(c) =~= cell_lines(c));
    let n = scrollback_lines(p.scrollback).len() as int;
    assert(lines_of(p).take(n) =~= scrollback_lines(p.scrollback));
    assert(lines_of(p).skip(n) =~= active_lines(p.active));
    if b.len() == 0 {
        assert(a + b =~= a);
        assert(scrollback_lines(a) + scrollback_lines(b) =~= scrollback_lines(a));
    } else {
        assert((a + b).drop_last() =~= a + b.drop_last());
        assert((a + b).last() == b.last());
        law_cells_are_shown_from_the_oldest_on(p, a, b.drop_last(), c);
        assert(scrollback_lines(a) + scrollback_lines(b.drop_last()) + cell_lines(b.last())
            =~= scrollback_lines(a) + scrollback_lines(b));
    }
}

/// A running line shows itself, what it has put out so far, and who runs it; a terminal shows
/// itself and has no lines.
pub proof fn law_running_lines_show_who_runs_them(a: ActiveV)
    ensures
        a matches ActiveV::Running { source, who, body, .. } ==> {
            let ls = active_lines(a);
            let n = shown_lines(body).len();
            &&& ls.len() == n + 2
            &&& ls[0] == "❯ "@ + source
            &&& ls.subrange(1, 1 + n as int) == shown_lines(body)
            &&& starts_with(ls.last(), "  … "@ + who)
            &&& ends_in(ls.last(), who + " running"@)
        },
        a is LiveTty ==> active_lines(a).len() == 0,
{
    if let ActiveV::Running { source, who, body, .. } = a {
        let n = shown_lines(body).len();
        assert(active_lines(a).subrange(1, 1 + n as int) =~= shown_lines(body));
        let last = active_lines(a).last();
        assert(last =~= ("  … "@ + who) + " running"@);
        lemma_ends("  … "@ + who, " running"@);
        assert(last =~= "  … "@ + (who + " running"@));
        lemma_ends("  … "@, who + " running"@);
    }
}

} // verus!
