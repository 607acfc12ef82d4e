//! A pane as lines of text: its scrollback, then its live region.

use vstd::prelude::*;

use crate::mux::{Active, ActiveV, CellView, CellViewV, Pane, PaneV};
use crate::text::{chars_of, decimal, push_decimal, push_signed, signed_decimal};
use crate::tree::strings;

verus! {

/// What follows the final byte of a control sequence.
pub open spec fn after_sequence(s: Seq<char>) -> Seq<char>
    decreases s.len(),
{
    if s.len() == 0 {
        s
    } else if '@' <= s[0] <= '~' {
        s.skip(1)
    } else {
        after_sequence(s.skip(1))
    }
}

pub proof fn lemma_after_sequence(s: Seq<char>)
    ensures
        after_sequence(s).len() <= s.len(),
    decreases s.len(),
{
    if s.len() > 0 && !('@' <= s[0] <= '~') {
        lemma_after_sequence(s.skip(1));
    }
}

/// A line that can be shown: control sequences (`ESC [` up to a byte from `@` to `~`) and control
/// characters are left out, and a tab is four spaces.
pub open spec fn sanitized(s: Seq<char>) -> Seq<char>
    decreases s.len(),
{
    if s.len() == 0 {
        s
    } else {
        let rest = s.skip(1);
        if s[0] == '\x1b' {
            if rest.len() > 0 && rest[0] == '[' {
                proof {
                    lemma_after_sequence(rest.skip(1));
                }
                sanitized(after_sequence(rest.skip(1)))
            } else {
                sanitized(rest)
            }
        } else if s[0] == '\t' {
            "    "@ + sanitized(rest)
        } else if s[0] as int <= 0x1f {
            sanitized(rest)
        } else {
            seq![s[0]] + sanitized(rest)
        }
    }
}

/// The parts of a text between line feeds.
pub open spec fn split_lines(s: Seq<char>) -> Seq<Seq<char>>
    decreases s.len(),
{
    if s.len() == 0 {
        seq![s]
    } else {
        let before = split_lines(s.drop_last());
        if s.last() == '\n' {
            before.push(Seq::empty())
        } else {
            before.drop_last().push(before.last().push(s.last()))
        }
    }
}

/// What follows the last carriage return of a line.
pub open spec fn overwritten(s: Seq<char>) -> Seq<char>
    decreases s.len(),
{
    if s.len() == 0 || s.last() == '\r' {
        Seq::empty()
    } else {
        overwritten(s.drop_last()).push(s.last())
    }
}

/// The lines of an output. A carriage return overwrites what the line held before it.
pub open spec fn shown_lines(body: Seq<char>) -> Seq<Seq<char>> {
    split_lines(body).map_values(|l: Seq<char>| sanitized(overwritten(l)))
}

fn skip_sequence(v: &Vec<char>, from: usize) -> (r: usize)
    requires
        from <= v.len(),
    ensures
        from <= r <= v.len(),
        after_sequence(v@.skip(from as int)) == v@.skip(r as int),
{
    let mut i: usize = from;
    while i < v.len()
        invariant
            from <= i <= v.len(),
            after_sequence(v@.skip(from as int)) == after_sequence(v@.skip(i as int)),
        decreases v.len() - i,
    {
        assert(v@.skip(i as int)[0] == v@[i as int]);
        assert(v@.skip(i as int).skip(1) =~= v@.skip(i + 1));
        if '@' <= v[i] && v[i] <= '~' {
            return i + 1;
        }
        i += 1;
    }
    i
}

fn sanitize_chars(v: &Vec<char>) -> (r: String)
    ensures
        r@ == sanitized(v@),
{
    let mut out = String::new();
    let mut i: usize = 0;
    proof {
        assert(v@.skip(0) =~= v@);
        assert(out@ + sanitized(v@) =~= sanitized(v@));
    }
    while i < v.len()
        invariant
            i <= v.len(),
            out@ + sanitized(v@.skip(i as int)) == sanitized(v@),
        decreases v.len() - i,
    {
        let ghost s = v@.skip(i as int);
        let ghost had = out@;
        let c: char = v[i];
        assert(s[0] == c);
        assert(s.skip(1) =~= v@.skip(i + 1));
        i += 1;
        if c == '\x1b' {
            if i < v.len() && v[i] == '[' {
                assert(s.skip(1)[0] == '[');
                assert(s.skip(1).skip(1) =~= v@.skip(i + 1));
                i = skip_sequence(v, i + 1);
            } else {
                assert(s.skip(1).len() > 0 ==> s.skip(1)[0] == v@[i as int]);
            }
        } else if c == '\t' {
            out.append("    ");
            assert(out@ + sanitized(s.skip(1)) =~= had + ("    "@ + sanitized(s.skip(1))));
        } else if c >= '\x20' {
            out.push(c);
            assert(out@ + sanitized(s.skip(1)) =~= had + (seq![c] + sanitized(s.skip(1))));
        }
    }
    proof {
        assert(v@.skip(i as int).len() == 0);
        assert(out@ + sanitized(v@.skip(i as int)) =~= out@);
    }
    out
}

/// Makes a line that can be shown.
pub fn sanitize(s: &str) -> (r: String)
    ensures
        r@ == sanitized(s@),
{
    sanitize_chars(&chars_of(s))
}

proof fn lemma_same_to_the_last(a: Seq<Seq<char>>, b: Seq<Seq<char>>)
    requires
        a.len() > 0,
        b.len() > 0,
        a.drop_last() == b.drop_last(),
        a.last() == b.last(),
    ensures
        a == b,
{
    assert(a =~= a.drop_last().push(a.last()));
    assert(b =~= b.drop_last().push(b.last()));
}

/// Splits an output into lines that can be shown.
pub fn body_lines(body: &str) -> (r: Vec<String>)
    ensures
        strings(r@) == shown_lines(body@),
{
    let v = chars_of(body);
    let mut lines: Vec<String> = Vec::new();
    let mut last: Vec<char> = Vec::new();
    let ghost show = |l: Seq<char>| sanitized(overwritten(l));
    let ghost mut raw = Seq::<char>::empty();
    let mut i: usize = 0;
    proof {
        let none = v@.take(0);
        assert(none.len() == 0);
        assert(split_lines(none) =~= seq![none]);
        assert(strings(lines@) =~= split_lines(none).drop_last().map_values(show));
        assert(raw =~= split_lines(none).last());
        assert(last@ =~= overwritten(raw));
    }
    while i < v.len()
        invariant
            i <= v.len(),
            show == (|l: Seq<char>| sanitized(overwritten(l))),
            split_lines(v@.take(i as int)).len() > 0,
            strings(lines@) == split_lines(v@.take(i as int)).drop_last().map_values(show),
            raw == split_lines(v@.take(i as int)).last(),
            last@ == overwritten(raw),
        decreases v.len() - i,
    {
        let ghost was = split_lines(v@.take(i as int));
        let ghost now = split_lines(v@.take(i + 1));
        let ghost had = lines@;
        let c: char = v[i];
        proof {
            assert(v@.take(i + 1).drop_last() =~= v@.take(i as int));
            assert(v@.take(i + 1).last() == c);
        }
        if c == '\n' {
            lines.push(sanitize_chars(&last));
            last = Vec::new();
            proof {
                raw = Seq::empty();
                assert(now.drop_last() =~= was);
                assert(strings(lines@) =~= was.map_values(show)) by {
                    assert(strings(lines@).drop_last() =~= strings(had));
                    assert(was.map_values(show).drop_last() =~= was.drop_last().map_values(show));
                    assert(was.map_values(show).last() == show(was.last()));
                    lemma_same_to_the_last(strings(lines@), was.map_values(show));
                }
            }
        } else {
            if c == '\r' {
                last = Vec::new();
            } else {
                last.push(c);
            }
            proof {
                let before = raw;
                raw = raw.push(c);
                assert(raw.drop_last() =~= before);
                assert(now.drop_last() =~= was.drop_last());
                assert(last@ =~= overwritten(raw));
            }
        }
        i += 1;
    }
    let ghost had = lines@;
    lines.push(sanitize_chars(&last));
    proof {
        assert(v@.take(i as int) =~= v@);
        let all = split_lines(v@);
        assert(strings(lines@).drop_last() =~= strings(had));
        assert(all.map_values(show).drop_last() =~= all.drop_last().map_values(show));
        assert(all.map_values(show).last() == show(all.last()));
        lemma_same_to_the_last(strings(lines@), all.map_values(show));
    }
    lines
}

/// The line that ends a finished cell.
pub open spec fn footer(who: Seq<char>, code: i32, duration_ms: u64) -> Seq<char> {
    "  └ "@ + who + " · exit "@ + signed_decimal(code as int) + " · "@ + decimal(
        duration_ms as nat,
    ) + "ms"@
}

/// The lines of a finished cell.
pub open spec fn cell_lines(c: CellViewV) -> Seq<Seq<char>> {
    seq!["❯ "@ + c.source] + shown_lines(c.body) + (match c.exit {
        Some(code) => seq![footer(c.who, code, c.duration_ms)],
        None => Seq::empty(),
    }) + seq![Seq::<char>::empty()]
}

/// The lines of finished cells.
pub open spec fn scrollback_lines(v: Seq<CellViewV>) -> Seq<Seq<char>>
    decreases v.len(),
{
    if v.len() == 0 {
        Seq::empty()
    } else {
        scrollback_lines(v.drop_last()) + cell_lines(v.last())
    }
}

/// The lines of the live region. A terminal shows itself.
pub open spec fn active_lines(a: ActiveV) -> Seq<Seq<char>> {
    match a {
        ActiveV::Running { source, who, body, .. } => seq!["❯ "@ + source] + shown_lines(body)
            + seq!["  … "@ + who + " running"@],
        ActiveV::Cooked { input } => seq!["❯ "@ + input + "█"@],
        ActiveV::LiveTty { .. } => Seq::empty(),
    }
}

/// The lines of a pane.
pub open spec fn lines_of(p: PaneV) -> Seq<Seq<char>> {
    scrollback_lines(p.scrollback) + active_lines(p.active)
}

fn joined_text(a: &str, b: &str) -> (r: String)
    ensures
        r@ == a@ + b@,
{
    let mut s = a.to_owned();
    s.append(b);
    s
}

fn push_line(lines: &mut Vec<String>, line: String)
    ensures
        strings(final(lines)@) == strings(old(lines)@) + seq![line@],
{
    lines.push(line);
    assert(strings(lines@) =~= strings(old(lines)@) + seq![line@]);
}

fn push_body(lines: &mut Vec<String>, body: &str)
    ensures
        strings(final(lines)@) == strings(old(lines)@) + shown_lines(body@),
{
    let mut more = body_lines(body);
    let ghost had = lines@;
    let ghost add = more@;
    lines.append(&mut more);
    assert(strings(lines@) =~= strings(had) + strings(add));
}

fn push_cell(lines: &mut Vec<String>, c: &CellView)
    ensures
        strings(final(lines)@) == strings(old(lines)@) + cell_lines(c@),
{
    let ghost had = strings(lines@);
    push_line(lines, joined_text("❯ ", c.source.as_str()));
    push_body(lines, c.body.as_str());
    match c.exit {
        Some(code) => {
            let mut s = joined_text("  └ ", c.who.as_str());
            s.append(" · exit ");
            push_signed(&mut s, code);
            s.append(" · ");
            push_decimal(&mut s, c.duration_ms);
            s.append("ms");
            push_line(lines, s);
        },
        None => {
            assert(strings(lines@) + Seq::<Seq<char>>::empty() =~= strings(lines@));
        },
    }
    let blank = String::new();
    assert(blank@ =~= Seq::<char>::empty());
    push_line(lines, blank);
    assert(strings(lines@) =~= had + cell_lines(c@));
}

/// Flattens a pane into lines: the finished cells, then the live region.
pub fn pane_lines(pane: &Pane) -> (r: Vec<String>)
    ensures
        strings(r@) == lines_of(pane@),
{
    let mut lines: Vec<String> = Vec::new();
    let ghost v = pane@.scrollback;
    let mut i: usize = 0;
    proof {
        assert(v.take(0) =~= Seq::<CellViewV>::empty());
        assert(strings(lines@) =~= Seq::<Seq<char>>::empty());
    }
    while i < pane.scrollback.len()
        invariant
            i <= pane.scrollback.len(),
            v == pane@.scrollback,
            strings(lines@) == scrollback_lines(v.take(i as int)),
        decreases pane.scrollback.len() - i,
    {
        proof {
            assert(v.take(i + 1).drop_last() =~= v.take(i as int));
            assert(v.take(i + 1).last() == pane.scrollback@[i as int]@);
        }
        push_cell(&mut lines, &pane.scrollback[i]);
        i += 1;
    }
    let ghost had = strings(lines@);
    proof {
        assert(v.take(i as int) =~= v);
    }
    match &pane.active {
        Active::Running { source, who, body, .. } => {
            push_line(&mut lines, joined_text("❯ ", source.as_str()));
            push_body(&mut lines, body.as_str());
            let mut s = joined_text("  … ", who.as_str());
            s.append(" running");
            push_line(&mut lines, s);
        },
        Active::Cooked { input } => {
            let mut s = joined_text("❯ ", input.as_str());
            s.append("█");
            push_line(&mut lines, s);
        },
        Active::LiveTty { .. } => {},
    }
    assert(strings(lines@) =~= had + active_lines(pane.active@));
    lines
}

/// A line that is shown holds no control characters, so it cannot corrupt the screen.
pub proof fn law_shown_lines_hold_no_controls(s: Seq<char>)
    ensures
        forall|i: int| 0 <= i < sanitized(s).len() ==> #[trigger] sanitized(s)[i] >= '\x20',
    decreases s.len(),
{
    if s.len() > 0 {
        let rest = s.skip(1);
        law_shown_lines_hold_no_controls(rest);
        if rest.len() > 0 {
            lemma_after_sequence(rest.skip(1));
            law_shown_lines_hold_no_controls(after_sequence(rest.skip(1)));
        }
        reveal_strlit("    ");
        assert forall|i: int| 0 <= i < sanitized(s).len() implies #[trigger] sanitized(s)[i]
            >= '\x20' by {
            if s[0] == '\x1b' {
                if rest.len() > 0 && rest[0] == '[' {
                    assert(sanitized(s) == sanitized(after_sequence(rest.skip(1))));
                } else {
                    assert(sanitized(s) == sanitized(rest));
                }
            } else if s[0] == '\t' {
                assert(sanitized(s) == "    "@ + sanitized(rest));
                if i >= 4 {
                    assert(sanitized(s)[i] == sanitized(rest)[i - 4]);
                } else {
                    assert(sanitized(s)[i] == "    "@[i]);
                }
            } else if s[0] as int <= 0x1f {
                assert(sanitized(s) == sanitized(rest));
            } else {
                assert(sanitized(s) == seq![s[0]] + sanitized(rest));
                if i > 0 {
                    assert(sanitized(s)[i] == sanitized(rest)[i - 1]);
                } else {
                    assert(sanitized(s)[i] == s[0]);
                }
            }
        }
    }
}

/// A line without control characters is shown as it is.
pub proof fn law_plain_lines_are_shown_as_they_are(s: Seq<char>)
    requires
        forall|i: int| 0 <= i < s.len() ==> #[trigger] s[i] >= '\x20',
    ensures
        sanitized(s) == s,
    decreases s.len(),
{
    if s.len() > 0 {
        law_plain_lines_are_shown_as_they_are(s.skip(1));
        assert(seq![s[0]] + s.skip(1) =~= s);
    }
}

} // verus!
