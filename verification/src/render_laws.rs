//! What can be told from what is printed.

use vstd::prelude::*;
use vstd::utf8::*;

use crate::client::{
    current_branch, find_branch, fork_prints, gone_text, is_refusal, leaves, progress, spaced,
    stream_step, target_cell, terminal_step, ProgressV, Refusal, SubmissionV,
};
use crate::cockpit_laws::law_branches_are_found_by_name;
use crate::eval::{op_name, EvalErrorV};
use crate::mux::lemma_decimal_injective;
use crate::parse::{ParseError, RedirOp};
use crate::render::{
    branch_line, branch_lines, cell_line, exit_line, hash_tag, padded, short, shown, stops_mid_line,
    PrintV,
};
use crate::text::{decimal, is_white, signed_decimal};
use crate::text_laws::{
    is_blank_text, law_numbers_are_read_back, law_numbers_differ, lemma_decimal_digits,
    lemma_trimmed,
};
use crate::tree::{CellId, DEFAULT_BRANCH};
use crate::wire::{BranchSnapshotV, CellEventV, CellSnapshotV, Response, ResponseV, Stream};

verus! {

/// `s` ends in `t`.
pub open spec fn ends_in(s: Seq<char>, t: Seq<char>) -> bool {
    t.len() <= s.len() && s.skip(s.len() - t.len()) == t
}

/// `s` starts with `t`.
pub open spec fn starts_with(s: Seq<char>, t: Seq<char>) -> bool {
    t.len() <= s.len() && s.take(t.len() as int) == t
}

/// What is put together starts with the one and ends in the other.
pub proof fn lemma_ends(a: Seq<char>, b: Seq<char>)
    ensures
        ends_in(a + b, b),
        starts_with(a + b, a),
{
    assert((a + b).skip(a.len() as int) =~= b);
    assert((a + b).take(a.len() as int) =~= a);
}

/// What stands between the same texts in the same text is the same.
pub proof fn lemma_same_around(p: Seq<char>, a: Seq<char>, b: Seq<char>, q: Seq<char>)
    requires
        p + a + q == p + b + q,
    ensures
        a == b,
{
    let (x, y) = (p + a + q, p + b + q);
    assert(x.len() == y.len());
    let (i, j) = (p.len() as int, (p.len() + a.len()) as int);
    assert(x.subrange(i, j) =~= a);
    assert(y.subrange(i, j) =~= b);
}

proof fn lemma_number_ends(a: nat, x: Seq<char>, b: nat, y: Seq<char>)
    requires
        decimal(a) + x == decimal(b) + y,
        x.len() > 0,
        y.len() > 0,
        !('0' <= x[0] <= '9'),
        !('0' <= y[0] <= '9'),
    ensures
        a == b,
{
    let (s, t) = (decimal(a) + x, decimal(b) + y);
    let (m, n) = (decimal(a).len() as int, decimal(b).len() as int);
    lemma_decimal_digits(a);
    lemma_decimal_digits(b);
    assert(s[m] == x[0]);
    assert(t[n] == y[0]);
    if m < n {
        assert(t[m] == decimal(b)[m]);
    } else if n < m {
        assert(s[n] == decimal(a)[n]);
    }
    assert(s.take(m) =~= decimal(a));
    assert(t.take(m) =~= decimal(b));
    lemma_decimal_injective(a, b);
}

// ---------- Cells -----------------------------------------------------------

/// The line of a finished cell ends in its exit code in decimal, and that of a running one says so.
pub proof fn law_cell_lines_end_in_the_exit_code(c: CellSnapshotV, indent: Seq<char>)
    ensures
        c.exit_code matches Some(code) ==> ends_in(
            cell_line(c, indent),
            "exit "@ + signed_decimal(code as int) + "\n"@,
        ),
        c.exit_code is None ==> ends_in(cell_line(c, indent), "running\n"@),
        starts_with(
            cell_line(c, indent),
            indent + "#"@ + decimal(c.id as nat) + hash_tag(c.hash) + " "@,
        ),
        c.source.len() > 0 ==> ends_in(
            cell_line(c, indent),
            " "@ + c.source + " ["@ + c.submitter + "] "@ + (match c.exit_code {
                Some(code) => "exit "@ + signed_decimal(code as int),
                None => "running"@,
            }) + "\n"@,
        ),
{
    let src = if c.source.len() == 0 {
        "(root)"@
    } else {
        c.source
    };
    let status = match c.exit_code {
        Some(code) => "exit "@ + signed_decimal(code as int),
        None => "running"@,
    };
    let head = indent + "#"@ + decimal(c.id as nat) + hash_tag(c.hash);
    let front = head + " "@ + src + " ["@ + c.submitter + "] "@;
    let line = cell_line(c, indent);
    assert(line =~= front + (status + "\n"@));
    lemma_ends(front, status + "\n"@);
    if c.exit_code is None {
        reveal_strlit("running");
        reveal_strlit("running\n");
        reveal_strlit("\n");
        assert("running"@ + "\n"@ =~= "running\n"@);
    }
    let tail = src + " ["@ + c.submitter + "] "@ + status + "\n"@;
    assert(line =~= (head + " "@) + tail);
    lemma_ends(head + " "@, tail);
    let more = " "@ + src + " ["@ + c.submitter + "] "@ + status + "\n"@;
    assert(line =~= head + more);
    lemma_ends(head, more);
}

/// Cells that differ only in their exit codes have different lines; so a cell that failed never
/// looks like one that did not, nor a finished one like one that is running.
pub proof fn law_exit_codes_can_be_told_apart(
    c: CellSnapshotV,
    d: CellSnapshotV,
    indent: Seq<char>,
)
    requires
        d == (CellSnapshotV { exit_code: d.exit_code, ..c }),
        c.exit_code != d.exit_code,
    ensures
        cell_line(c, indent) != cell_line(d, indent),
{
    let src = if c.source.len() == 0 {
        "(root)"@
    } else {
        c.source
    };
    let head = indent + "#"@ + decimal(c.id as nat) + hash_tag(c.hash);
    let front = head + " "@ + src + " ["@ + c.submitter + "] "@;
    let (s, t) = (lemma_status(c), lemma_status(d));
    assert(cell_line(c, indent) == front + s + "\n"@);
    assert(cell_line(d, indent) == front + t + "\n"@);
    if cell_line(c, indent) == cell_line(d, indent) {
        lemma_same_around(front, s, t, "\n"@);
        reveal_strlit("exit ");
        reveal_strlit("running");
        assert("exit "@[0] != "running"@[0]);
        match (c.exit_code, d.exit_code) {
            (Some(a), Some(b)) => {
                law_numbers_differ(a as int, b as int);
                let e = Seq::<char>::empty();
                assert("exit "@ + signed_decimal(a as int) + e =~= s);
                assert("exit "@ + signed_decimal(b as int) + e =~= t);
                lemma_same_around("exit "@, signed_decimal(a as int), signed_decimal(b as int), e);
            },
            (Some(_), None) => {
                assert(s[0] == 'e');
                assert(t[0] == 'r');
            },
            (None, Some(_)) => {
                assert(t[0] == 'e');
                assert(s[0] == 'r');
            },
            (None, None) => {},
        }
    }
}

proof fn lemma_status(c: CellSnapshotV) -> (s: Seq<char>)
    ensures
        s == match c.exit_code {
            Some(code) => "exit "@ + signed_decimal(code as int),
            None => "running"@,
        },
{
    match c.exit_code {
        Some(code) => "exit "@ + signed_decimal(code as int),
        None => "running"@,
    }
}

/// Cells of different numbers have different lines.
pub proof fn law_cells_can_be_told_apart(c: CellSnapshotV, d: CellSnapshotV, indent: Seq<char>)
    requires
        c.id != d.id,
    ensures
        cell_line(c, indent) != cell_line(d, indent),
{
    let front = indent + "#"@;
    reveal_strlit(" ");
    let x = lemma_behind_number(c, indent);
    let y = lemma_behind_number(d, indent);
    if cell_line(c, indent) == cell_line(d, indent) {
        let (s, t) = (decimal(c.id as nat) + x, decimal(d.id as nat) + y);
        let e = Seq::<char>::empty();
        assert(front + s + e =~= front + s);
        assert(front + t + e =~= front + t);
        lemma_same_around(front, s, t, e);
        lemma_number_ends(c.id as nat, x, d.id as nat, y);
    }
}

proof fn lemma_behind_number(c: CellSnapshotV, indent: Seq<char>) -> (x: Seq<char>)
    ensures
        cell_line(c, indent) == (indent + "#"@) + (decimal(c.id as nat) + x),
        x.len() > 0,
        x[0] == ' ',
{
    reveal_strlit(" ");
    let src = if c.source.len() == 0 {
        "(root)"@
    } else {
        c.source
    };
    let status = lemma_status(c);
    let x = hash_tag(c.hash) + " "@ + src + " ["@ + c.submitter + "] "@ + status + "\n"@;
    assert(cell_line(c, indent) =~= (indent + "#"@) + (decimal(c.id as nat) + x));
    x
}

/// The line that ends a cell tells its number, its exit code and how long it ran: those of two
/// cells are alike only where all three are.
pub proof fn law_exit_lines_tell_how_a_cell_ended(
    id: CellId,
    code: i32,
    ms: u64,
    id2: CellId,
    code2: i32,
    ms2: u64,
)
    ensures
        exit_line(id, code, ms) == exit_line(id2, code2, ms2) ==> id == id2 && code == code2 && ms
            == ms2,
        starts_with(exit_line(id, code, ms), "[#"@ + decimal(id as nat) + " exit "@),
        ends_in(
            exit_line(id, code, ms),
            " exit "@ + signed_decimal(code as int) + " "@ + decimal(ms as nat) + "ms]\n"@,
        ),
{
    reveal_strlit("[#");
    reveal_strlit(" exit ");
    reveal_strlit(" ");
    reveal_strlit("ms]\n");
    lemma_exit_line(id, code, ms);
    lemma_exit_line(id2, code2, ms2);
    let a = signed_decimal(code as int) + (" "@ + decimal(ms as nat) + "ms]\n"@);
    let b = signed_decimal(code2 as int) + (" "@ + decimal(ms2 as nat) + "ms]\n"@);
    let (x, y) = (" exit "@ + a, " exit "@ + b);
    let l = exit_line(id, code, ms);
    lemma_ends("[#"@ + decimal(id as nat) + " exit "@, a);
    assert(l =~= ("[#"@ + decimal(id as nat) + " exit "@) + a);
    lemma_ends("[#"@ + decimal(id as nat), x);
    assert(l =~= ("[#"@ + decimal(id as nat)) + x);
    assert(x =~= " exit "@ + signed_decimal(code as int) + " "@ + decimal(ms as nat) + "ms]\n"@);
    if l == exit_line(id2, code2, ms2) {
        let e = Seq::<char>::empty();
        let (s, t) = (decimal(id as nat) + x, decimal(id2 as nat) + y);
        assert("[#"@ + s + e =~= l);
        assert("[#"@ + t + e =~= l);
        lemma_same_around("[#"@, s, t, e);
        assert(x[0] == ' ' && y[0] == ' ');
        lemma_number_ends(id as nat, x, id2 as nat, y);
        assert(decimal(id as nat) + x + e =~= s);
        assert(decimal(id as nat) + y + e =~= t);
        lemma_same_around(decimal(id as nat), x, y, e);
        assert(" exit "@ + a + e =~= x);
        assert(" exit "@ + b + e =~= y);
        lemma_same_around(" exit "@, a, b, e);
        lemma_signed_ends(
            code as int,
            " "@ + decimal(ms as nat) + "ms]\n"@,
            code2 as int,
            " "@ + decimal(ms2 as nat) + "ms]\n"@,
        );
        lemma_same_around(" "@, decimal(ms as nat), decimal(ms2 as nat), "ms]\n"@);
        lemma_decimal_injective(ms as nat, ms2 as nat);
    }
}

proof fn lemma_exit_line(id: CellId, code: i32, ms: u64)
    ensures
        exit_line(id, code, ms) == "[#"@ + (decimal(id as nat) + (" exit "@ + (signed_decimal(
            code as int,
        ) + (" "@ + decimal(ms as nat) + "ms]\n"@)))),
{
    assert(exit_line(id, code, ms) =~= "[#"@ + (decimal(id as nat) + (" exit "@ + (signed_decimal(
        code as int,
    ) + (" "@ + decimal(ms as nat) + "ms]\n"@)))));
}

proof fn lemma_signed_ends(a: int, x: Seq<char>, b: int, y: Seq<char>)
    requires
        signed_decimal(a) + x == signed_decimal(b) + y,
        x.len() > 0,
        y.len() > 0,
        x[0] == ' ',
        y[0] == ' ',
    ensures
        a == b,
        x == y,
{
    let (s, t) = (signed_decimal(a) + x, signed_decimal(b) + y);
    let (m, n) = (signed_decimal(a).len() as int, signed_decimal(b).len() as int);
    lemma_no_space(a);
    lemma_no_space(b);
    assert(s[m] == ' ');
    assert(t[n] == ' ');
    if m < n {
        assert(t[m] == signed_decimal(b)[m]);
    } else if n < m {
        assert(s[n] == signed_decimal(a)[n]);
    }
    assert(s.take(m) =~= signed_decimal(a));
    assert(t.take(m) =~= signed_decimal(b));
    assert(s.skip(m) =~= x);
    assert(t.skip(m) =~= y);
    law_numbers_differ(a, b);
}

proof fn lemma_no_space(a: int)
    ensures
        forall|i: int| 0 <= i < signed_decimal(a).len() ==> #[trigger] signed_decimal(a)[i] != ' ',
{
    if a < 0 {
        let d = decimal((-a) as nat);
        lemma_decimal_digits((-a) as nat);
        assert forall|i: int| 0 <= i < signed_decimal(a).len() implies #[trigger] signed_decimal(
            a,
        )[i] != ' ' by {
            if i > 0 {
                assert(signed_decimal(a)[i] == d[i - 1]);
            }
        }
    } else {
        lemma_decimal_digits(a as nat);
    }
}

/// A watcher sees of each event what it is about: of a cell that starts who runs it, where it comes
/// from, on what branch and its line; of output the output, on its own stream; of a cell that ends
/// its number, its hash, its exit code and how long it ran.
pub proof fn law_watchers_see_what_happens(e: CellEventV)
    ensures
        e matches CellEventV::Started { id, parent, source, who, branch } ==> (shown(
            e,
        ) matches PrintV::Stdout(s) && starts_with(
            s,
            "\n[#"@ + decimal(id as nat) + " "@ + who + " "@,
        ) && ends_in(s, " on "@ + branch + "] $ "@ + source + "\n"@) && (parent matches Some(p)
            ==> ends_in(
            s,
            " from #"@ + decimal(p as nat) + " on "@ + branch + "] $ "@ + source + "\n"@,
        )) && (parent is None ==> ends_in(
            s,
            " root on "@ + branch + "] $ "@ + source + "\n"@,
        ))),
        e matches CellEventV::OutputChunk { stream, data, .. } ==> shown(e) == match stream {
            Stream::Stdout => PrintV::Stdout(data),
            Stream::Stderr => PrintV::Stderr(data),
        },
        e matches CellEventV::Completed { id, exit_code, duration_ms, hash } ==> (shown(
            e,
        ) matches PrintV::Stdout(s) && starts_with(
            s,
            "[#"@ + decimal(id as nat) + hash_tag(hash) + "]"@,
        ) && ends_in(
            s,
            " exit "@ + signed_decimal(exit_code as int) + " ("@ + decimal(duration_ms as nat)
                + "ms)\n"@,
        )),
{
    match e {
        CellEventV::Started { id, parent, source, who, branch } => {
            reveal_strlit(" from #");
            reveal_strlit("from #");
            reveal_strlit(" root on ");
            reveal_strlit("root");
            reveal_strlit(" on ");
            reveal_strlit(" ");
            let s = shown(e)->Stdout_0;
            let head = "\n[#"@ + decimal(id as nat) + " "@ + who;
            let from = match parent {
                Some(p) => "from #"@ + decimal(p as nat),
                None => "root"@,
            };
            let tail = " on "@ + branch + "] $ "@ + source + "\n"@;
            assert(s =~= (head + " "@) + (from + tail));
            lemma_ends(head + " "@, from + tail);
            assert(s =~= (head + " "@ + from) + tail);
            lemma_ends(head + " "@ + from, tail);
            let all = " "@ + from + tail;
            assert(s =~= head + all);
            lemma_ends(head, all);
            if let Some(p) = parent {
                assert(all =~= " from #"@ + decimal(p as nat) + " on "@ + branch + "] $ "@ + source
                    + "\n"@);
            } else {
                assert(all =~= " root on "@ + branch + "] $ "@ + source + "\n"@);
            }
        },
        CellEventV::OutputChunk { .. } => {},
        CellEventV::Completed { id, exit_code, duration_ms, hash } => {
            reveal_strlit("] exit ");
            reveal_strlit("]");
            reveal_strlit(" exit ");
            let s = shown(e)->Stdout_0;
            let head = "[#"@ + decimal(id as nat) + hash_tag(hash) + "]"@;
            let tail = " exit "@ + signed_decimal(exit_code as int) + " ("@ + decimal(
                duration_ms as nat,
            ) + "ms)\n"@;
            assert("] exit "@ =~= "]"@ + " exit "@);
            assert(s =~= head + tail);
            lemma_ends(head, tail);
        },
    }
}

/// What a hash adds to a line is a space and its short form, and nothing where there is no hash.
pub proof fn law_hashes_are_shown_behind_a_space(h: Seq<char>)
    ensures
        hash_tag(Some(h)).len() == 1 + short(h).len(),
        hash_tag(Some(h))[0] == ' ',
        hash_tag(Some(h)).skip(1) == short(h),
        hash_tag(None).len() == 0,
{
    assert(hash_tag(Some(h)).skip(1) =~= short(h));
}

/// The cursor is left in the middle of a line exactly where the output that was shown last does not
/// end one; stderr counts as shown last where there is any.
pub proof fn law_open_lines_are_noticed(stdout: Seq<char>, stderr: Seq<char>)
    ensures
        stderr.len() > 0 ==> (stops_mid_line(stdout, stderr) <==> stderr.last() != '\n'),
        stderr.len() == 0 && stdout.len() > 0 ==> (stops_mid_line(stdout, stderr) <==> stdout.last()
            != '\n'),
        stderr.len() == 0 && stdout.len() == 0 ==> !stops_mid_line(stdout, stderr),
{
}

// ---------- Branches --------------------------------------------------------

proof fn lemma_padded(s: Seq<char>, width: int)
    ensures
        starts_with(padded(s, width), s),
        padded(s, width).len() == if s.len() < width {
            width
        } else {
            s.len() as int
        },
        forall|i: int| s.len() <= i < padded(s, width).len() ==> #[trigger] padded(s, width)[i]
            == ' ',
{
    assert(padded(s, width).take(s.len() as int) =~= s);
}

/// The line of a branch ends in what its tip is: running, or its hash. A branch in terminal mode
/// says so behind it.
pub proof fn law_branch_lines_end_in_the_state_of_the_tip(b: BranchSnapshotV, current: Seq<char>)
    ensures
        ({
            let l = branch_line(b, current);
            &&& b.running && !b.tty ==> ends_in(l, " running\n"@)
            &&& !b.running && !b.tty && b.tip_hash is Some ==> ends_in(
                l,
                " "@ + short(b.tip_hash->Some_0) + "\n"@,
            )
            &&& !b.running && !b.tty && b.tip_hash is None ==> ends_in(l, " -\n"@)
            &&& b.tty ==> l == branch_line(
                BranchSnapshotV { tty: false, ..b },
                current,
            ).drop_last() + " (tty)\n"@
        }),
{
    let l = branch_line(b, current);
    let plain = branch_line(BranchSnapshotV { tty: false, ..b }, current);
    let marker = if b.name == current {
        "*"@
    } else {
        " "@
    };
    let state = if b.running {
        "running"@
    } else {
        match b.tip_hash {
            Some(h) => short(h),
            None => "-"@,
        }
    };
    let head = marker + " "@ + padded(b.name, 24) + " #"@ + padded(decimal(b.tip as nat), 4);
    let body = head + " "@ + state;
    reveal_strlit("\n");
    assert(plain =~= body + "\n"@);
    assert(plain.drop_last() =~= body);
    if b.tty {
        reveal_strlit(" (tty)");
        reveal_strlit(" (tty)\n");
        assert(" (tty)"@ + "\n"@ =~= " (tty)\n"@);
        assert(l =~= body + (" (tty)"@ + "\n"@));
    } else {
        assert(l =~= head + (" "@ + state + "\n"@));
        lemma_ends(head, " "@ + state + "\n"@);
        reveal_strlit(" ");
        if b.running {
            reveal_strlit("running");
            reveal_strlit(" running\n");
            assert(" "@ + state + "\n"@ =~= " running\n"@);
        } else if b.tip_hash is None {
            reveal_strlit("-");
            reveal_strlit(" -\n");
            assert(" "@ + state + "\n"@ =~= " -\n"@);
        }
    }
}

/// The line of a branch has a star before the current branch and no other, then the name, and the
/// number of its tip in a column of its own.
pub proof fn law_branch_lines_tell_name_and_tip(b: BranchSnapshotV, current: Seq<char>)
    ensures
        ({
            let l = branch_line(b, current);
            let col = if b.name.len() < 24 {
                26int
            } else {
                (b.name.len() + 2) as int
            };
            &&& starts_with(
                l,
                if b.name == current {
                    seq!['*', ' ']
                } else {
                    seq![' ', ' ']
                },
            )
            &&& starts_with(l.skip(2), b.name)
            &&& forall|i: int| 2 + b.name.len() <= i < col ==> #[trigger] l[i] == ' '
            &&& starts_with(l.skip(col), " #"@ + decimal(b.tip as nat) + " "@)
            &&& l.len() > col
        }),
{
    let l = branch_line(b, current);
    reveal_strlit(" ");
    reveal_strlit(" #");
    let (name, tip, d) = (padded(b.name, 24), padded(decimal(b.tip as nat), 4), decimal(
        b.tip as nat,
    ));
    lemma_padded(b.name, 24);
    lemma_padded(d, 4);
    let (front, rest) = lemma_branch_line(b, current);
    let col = 2 + name.len() as int;
    assert(l.skip(col) =~= rest);
    assert(l.skip(2) =~= name + rest);
    assert((name + rest).take(b.name.len() as int) =~= name.take(b.name.len() as int));
    assert(l.take(2) =~= front);
    assert forall|i: int| 2 + b.name.len() <= i < col implies #[trigger] l[i] == ' ' by {
        assert(l[i] == name[i - 2]);
    }
    lemma_column(d, tip, rest);
}

proof fn lemma_column(d: Seq<char>, tip: Seq<char>, rest: Seq<char>)
    requires
        starts_with(tip, d),
        forall|i: int| d.len() <= i < tip.len() ==> #[trigger] tip[i] == ' ',
        starts_with(rest, " #"@ + tip + " "@),
    ensures
        starts_with(rest, " #"@ + d + " "@),
{
    reveal_strlit(" ");
    reveal_strlit(" #");
    let all = " #"@ + tip + " "@;
    let want = " #"@ + d + " "@;
    assert forall|i: int| 0 <= i < want.len() implies rest[i] == want[i] by {
        assert(rest[i] == rest.take(all.len() as int)[i]);
        if 2 <= i < 2 + d.len() {
            assert(tip.take(d.len() as int)[i - 2] == d[i - 2]);
        }
    }
    assert(rest.take(want.len() as int) =~= want);
}

proof fn lemma_branch_line(b: BranchSnapshotV, current: Seq<char>) -> (r: (Seq<char>, Seq<char>))
    ensures
        branch_line(b, current) == r.0 + padded(b.name, 24) + r.1,
        r.0 == if b.name == current {
            seq!['*', ' ']
        } else {
            seq![' ', ' ']
        },
        starts_with(r.1, " #"@ + padded(decimal(b.tip as nat), 4) + " "@),
{
    let marker = if b.name == current {
        "*"@
    } else {
        " "@
    };
    let state = if b.running {
        "running"@
    } else {
        match b.tip_hash {
            Some(h) => short(h),
            None => "-"@,
        }
    };
    let mode = if b.tty {
        " (tty)"@
    } else {
        Seq::<char>::empty()
    };
    let name = padded(b.name, 24);
    let col = " #"@ + padded(decimal(b.tip as nat), 4) + " "@;
    let tail = state + mode + "\n"@;
    assert(branch_line(b, current) =~= (marker + " "@) + name + (col + tail));
    lemma_ends(col, tail);
    reveal_strlit("*");
    reveal_strlit(" ");
    assert("*"@ + " "@ =~= seq!['*', ' ']);
    assert(" "@ + " "@ =~= seq![' ', ' ']);
    (marker + " "@, col + tail)
}

/// Branches are listed one after the other, each on its line.
pub proof fn law_branches_are_listed_in_order(
    a: Seq<BranchSnapshotV>,
    b: Seq<BranchSnapshotV>,
    x: BranchSnapshotV,
    current: Seq<char>,
)
    ensures
        branch_lines(a + b, current) == branch_lines(a, current) + branch_lines(b, current),
        branch_lines(seq![x], current) == branch_line(x, current),
    decreases b.len(),
{
    let none = Seq::<BranchSnapshotV>::empty();
    assert(seq![x].drop_last() =~= none);
    assert(branch_lines(none, current) + branch_line(x, current) =~= branch_line(x, current));
    if b.len() == 0 {
        assert(a + b =~= a);
        assert(branch_lines(a, current) + branch_lines(b, current) =~= branch_lines(a, current));
    } else {
        assert((a + b).drop_last() =~= a + b.drop_last());
        assert((a + b).last() == b.last());
        law_branches_are_listed_in_order(a, b.drop_last(), x, current);
        assert(branch_lines(a, current) + branch_lines(b.drop_last(), current) + branch_line(
            b.last(),
            current,
        ) =~= branch_lines(a, current) + branch_lines(b, current));
    }
}

// ---------- Requests --------------------------------------------------------

/// A command line is its words with one space between each two.
pub proof fn law_words_are_put_together_with_spaces(
    a: Seq<Seq<char>>,
    b: Seq<Seq<char>>,
    w: Seq<char>,
)
    ensures
        spaced(Seq::empty()).len() == 0,
        spaced(seq![w]) == w,
        a.len() > 0 && b.len() > 0 ==> spaced(a + b) == spaced(a) + seq![' '] + spaced(b),
    decreases b.len(),
{
    reveal_strlit(" ");
    assert(" "@ =~= seq![' ']);
    if a.len() > 0 && b.len() > 0 {
        let c = b.drop_last();
        assert((a + b).drop_last() =~= a + c);
        assert((a + b).last() == b.last());
        if b.len() == 1 {
            assert(a + c =~= a);
            assert(spaced(b) == b[0]);
        } else {
            law_words_are_put_together_with_spaces(a, c, w);
            assert(spaced(a + b) =~= spaced(a) + seq![' '] + spaced(b));
        }
    }
}

/// The current branch is the name that its file holds, whatever white space stands around it; it
/// is the default branch where the file is blank or gone.
pub proof fn law_the_current_branch_is_what_was_kept(
    pre: Seq<char>,
    name: Seq<char>,
    post: Seq<char>,
)
    requires
        is_blank_text(pre),
        is_blank_text(post),
        name.len() > 0,
        !is_white(name[0]),
        !is_white(name.last()),
    ensures
        current_branch(Some(pre + name + post)) == name,
        current_branch(Some(pre)) == DEFAULT_BRANCH@,
        current_branch(None) == DEFAULT_BRANCH@,
{
    lemma_trimmed(pre, name, post);
    crate::text_laws::law_trimming_takes_only_white_space(pre);
}

/// A target is the tip of the branch of that name, or else the cell of that number.
pub proof fn law_targets_are_tips_or_cells(bs: Seq<BranchSnapshotV>, target: Seq<char>, n: u64)
    ensures
        forall|k: int|
            0 <= k < bs.len() && (#[trigger] bs[k]).name == target && (forall|j: int|
                0 <= j < k ==> (#[trigger] bs[j]).name != target) ==> target_cell(bs, target)
                == Some(bs[k].tip),
        (forall|k: int| 0 <= k < bs.len() ==> (#[trigger] bs[k]).name != decimal(n as nat))
            ==> target_cell(bs, decimal(n as nat)) == Some(n),
{
    law_branches_are_found_by_name(bs, target);
    law_branches_are_found_by_name(bs, decimal(n as nat));
    law_numbers_are_read_back(n);
    if let Some(b) = find_branch(bs, decimal(n as nat)) {
        let i = choose|i: int| 0 <= i < bs.len() && bs[i] == b;
        assert(bs[i].name == decimal(n as nat));
    }
}

/// Of a line that was submitted the client keeps where it came from and what it put out, prints the
/// output as it comes, and says where it landed on another branch. In the end it has the cell: the
/// line and who sent it, its number, its parent, its exit code, time and hash, and its output.
pub proof fn law_submissions_are_followed_to_their_end(s: SubmissionV, resp: ResponseV)
    ensures
        ({
            let (t, p) = progress(s, resp);
            &&& t.branch == s.branch && t.who == s.who && t.source == s.source
            &&& resp matches ResponseV::Event(
                CellEventV::Started { parent, branch, .. },
            ) ==> t.parent == parent && t.transcript == s.transcript && (p matches ProgressV::More(
                prints,
            ) && (prints.len() == 0 <==> branch == s.branch))
            &&& resp matches ResponseV::Event(
                CellEventV::OutputChunk { stream, data, .. },
            ) ==> t.parent == s.parent && p == ProgressV::More(
                seq![
                    match stream {
                        Stream::Stdout => PrintV::Stdout(data),
                        Stream::Stderr => PrintV::Stderr(data),
                    },
                ],
            )
            &&& resp matches ResponseV::Event(
                CellEventV::Completed { id, exit_code, duration_ms, hash },
            ) ==> (p matches ProgressV::Done(c) && c.id == id && c.parent == s.parent && c.submitter
                == s.who && c.source == s.source && c.exit_code == Some(exit_code) && c.duration_ms
                == duration_ms && c.hash == hash && c.stdout == s.transcript.stdout && c.stderr
                == s.transcript.stderr)
            &&& resp matches ResponseV::Error { message } ==> p == ProgressV::Failed(message)
            &&& !(resp is Event) && !(resp is Error) ==> t == s && p == ProgressV::More(
                Seq::empty(),
            )
        }),
{
}

/// Where a line landed on another branch than it was sent to, both are named.
pub proof fn law_forks_name_both_branches(requested: Seq<char>, landed: Seq<char>)
    ensures
        requested == landed <==> fork_prints(requested, landed).len() == 0,
        requested != landed ==> (fork_prints(requested, landed)[0] matches PrintV::Stderr(t)
            && ends_in(t, "'"@ + landed + "'\n"@) && starts_with(
            t,
            "[fern] forked off '"@ + requested + "'"@,
        )),
{
    if requested != landed {
        reveal_strlit("' → new branch '");
        reveal_strlit("'");
        let t = fork_prints(requested, landed)[0]->Stderr_0;
        let mid = "' → new branch '"@;
        let a = mid.drop_last();
        assert(mid =~= a + "'"@);
        let head = "[fern] forked off '"@ + requested;
        assert(t =~= (head + a) + ("'"@ + landed + "'\n"@));
        lemma_ends(head + a, "'"@ + landed + "'\n"@);
        let b = mid.skip(1);
        assert(mid =~= "'"@ + b);
        assert(t =~= (head + "'"@) + (b + landed + "'\n"@));
        lemma_ends(head + "'"@, b + landed + "'\n"@);
    }
}

/// In a cell's terminal its output is shown as it is, whichever stream it is from, until the cell
/// is over or fails; then its exit code or the failure is told.
pub proof fn law_terminals_show_until_the_cell_is_over(resp: ResponseV)
    ensures
        ({
            let (prints, last) = terminal_step(resp);
            &&& last <==> resp is Error || (resp matches ResponseV::Event(e) && e is Completed)
            &&& resp matches ResponseV::Event(CellEventV::OutputChunk { data, .. }) ==> prints
                == seq![PrintV::Stdout(data)]
            &&& resp matches ResponseV::Event(CellEventV::Completed { exit_code, .. }) ==> (
            prints.len() == 1 && (prints[0] matches PrintV::Stderr(t) && ends_in(
                t,
                "code "@ + signed_decimal(exit_code as int) + "\r\n"@,
            )))
            &&& resp matches ResponseV::Error { message } ==> (prints.len() == 1 && (
            prints[0] matches PrintV::Stderr(t) && ends_in(t, "error: "@ + message + "\r\n"@)))
        }),
{
    match resp {
        ResponseV::Event(CellEventV::Completed { exit_code, .. }) => {
            reveal_strlit("\r\n[fern] cell exited with code ");
            reveal_strlit("code ");
            let head = "\r\n[fern] cell exited with code "@;
            let a = head.take(head.len() - 5);
            assert(head =~= a + "code "@);
            let d = signed_decimal(exit_code as int);
            assert(head + d + "\r\n"@ =~= a + ("code "@ + d + "\r\n"@));
            lemma_ends(a, "code "@ + d + "\r\n"@);
        },
        ResponseV::Error { message } => {
            reveal_strlit("\r\n[fern] error: ");
            reveal_strlit("error: ");
            let head = "\r\n[fern] error: "@;
            let a = head.take(head.len() - 7);
            assert(head =~= a + "error: "@);
            assert(head + message + "\r\n"@ =~= a + ("error: "@ + message + "\r\n"@));
            lemma_ends(a, "error: "@ + message + "\r\n"@);
        },
        _ => {},
    }
}

/// Of all that is heard, a client that follows a cell shows that cell alone, on the streams that it
/// writes to, and is done when that cell is.
pub proof fn law_followers_show_one_cell(id: CellId, resp: ResponseV)
    ensures
        ({
            let (prints, last) = stream_step(id, resp);
            &&& last <==> (resp matches ResponseV::Event(
                CellEventV::Completed { id: i, .. },
            ) && i == id)
            &&& resp matches ResponseV::Event(
                CellEventV::OutputChunk { id: i, stream, data },
            ) ==> if i == id {
                prints == seq![
                    match stream {
                        Stream::Stdout => PrintV::Stdout(data),
                        Stream::Stderr => PrintV::Stderr(data),
                    },
                ]
            } else {
                prints.len() == 0
            }
            &&& resp matches ResponseV::Event(
                CellEventV::Completed { id: i, exit_code, duration_ms, .. },
            ) ==> if i == id {
                prints == seq![PrintV::Stdout(exit_line(i, exit_code, duration_ms))]
            } else {
                prints.len() == 0
            }
            &&& !(resp is Event) ==> prints.len() == 0
        }),
{
}

/// A user leaves a terminal by typing Ctrl+], and by nothing else.
pub proof fn law_only_the_leave_key_leaves(a: Seq<u8>, b: u8, c: Seq<u8>)
    ensures
        b == 29 ==> leaves(a + seq![b] + c),
        !leaves(a) && !leaves(c) && b != 29 ==> !leaves(a + seq![b] + c),
        !leaves(Seq::<u8>::empty()),
{
    let s = a + seq![b] + c;
    assert(s[a.len() as int] == b);
    if !leaves(a) && !leaves(c) && b != 29 && leaves(s) {
        let i = choose|i: int| 0 <= i < s.len() && #[trigger] s[i] == 0x1d;
        if i < a.len() {
            assert(a[i] == 0x1d);
        } else if i > a.len() {
            assert(c[i - a.len() - 1] == 0x1d);
        }
    }
}

/// Of a hash of ASCII characters the first seven are shown, or all where it has fewer.
pub proof fn law_hashes_are_cut_to_seven(h: Seq<char>)
    requires
        is_ascii_chars(h),
    ensures
        short(h) == if h.len() <= 7 {
            h
        } else {
            h.take(7)
        },
{
    let n = if h.len() <= 7 {
        h.len() as int
    } else {
        7
    };
    is_ascii_chars_encode_utf8(h);
    let t = h.take(n);
    is_ascii_chars_encode_utf8(t);
    let b = encode_utf8(h).take(n);
    assert(b =~= encode_utf8(t)) by {
        assert forall|i: int| 0 <= i < n implies b[i] == encode_utf8(t)[i] by {
            assert(h[i] as u8 == encode_utf8(h)[i]);
            assert(t[i] as u8 == encode_utf8(t)[i]);
        }
    }
    encode_utf8_decode_utf8(t);
    if h.len() <= 7 {
        assert(t =~= h);
    }
}

/// A cell without a line is shown as the root.
pub proof fn law_roots_are_shown_as_such(c: CellSnapshotV, indent: Seq<char>)
    requires
        c.source.len() == 0,
    ensures
        starts_with(
            cell_line(c, indent),
            indent + "#"@ + decimal(c.id as nat) + hash_tag(c.hash) + " (root) ["@ + c.submitter
                + "] "@,
        ),
{
    reveal_strlit(" ");
    reveal_strlit("(root)");
    reveal_strlit(" [");
    reveal_strlit(" (root) [");
    let status = lemma_status(c);
    let head = indent + "#"@ + decimal(c.id as nat) + hash_tag(c.hash) + " (root) ["@ + c.submitter
        + "] "@;
    assert(" (root) ["@ =~= " "@ + "(root)"@ + " ["@);
    assert(cell_line(c, indent) =~= head + (status + "\n"@));
    lemma_ends(head, status + "\n"@);
}

/// A refusal says what the daemon said, or is the answer that was not expected.
pub proof fn law_refusals_are_what_was_answered(m: String, other: Response, resp: ResponseV)
    ensures
        is_refusal(Refusal::Said(m), resp) <==> resp == (ResponseV::Error { message: m@ }),
        is_refusal(Refusal::Unexpected(other), resp) <==> other@ == resp && !(resp is Error),
{
}

/// Where the current branch is gone, both it and the default branch are named.
pub proof fn law_a_branch_that_is_gone_is_named(name: Seq<char>)
    ensures
        starts_with(gone_text(name), "[fern] current branch '"@ + name + "'"@),
        ends_in(gone_text(name), "'"@ + DEFAULT_BRANCH@ + "'\n"@),
{
    let mid = "' no longer exists (daemon restarted?) — falling back to '"@;
    reveal_strlit("' no longer exists (daemon restarted?) — falling back to '");
    reveal_strlit("'");
    let a = mid.drop_last();
    let b = mid.skip(1);
    assert(mid =~= a + "'"@);
    assert(mid =~= "'"@ + b);
    let head = "[fern] current branch '"@ + name;
    let tail = DEFAULT_BRANCH@ + "'\n"@;
    assert(gone_text(name) =~= (head + "'"@) + (b + tail));
    lemma_ends(head + "'"@, b + tail);
    assert(gone_text(name) =~= (head + a) + ("'"@ + DEFAULT_BRANCH@ + "'\n"@));
    lemma_ends(head + a, "'"@ + DEFAULT_BRANCH@ + "'\n"@);
}

// ---------- Failures --------------------------------------------------------

/// What fails says what it is: `cd` where to and why, a redirection its descriptor and direction,
/// and what failed outside is told as it was.
pub proof fn law_failures_say_what_they_are(
    target: Seq<char>,
    reason: Seq<char>,
    fd: i32,
    op: RedirOp,
    other: i32,
    e: ParseError,
)
    ensures
        (EvalErrorV::Cd { target, reason }).text() == "cd "@ + target + ": "@ + reason,
        EvalErrorV::Outside(reason).text() == reason,
        EvalErrorV::Parse(e).text() == e.text(),
        starts_with(
            (EvalErrorV::Unsupported { fd, op }).text(),
            "unsupported redirect: fd="@ + signed_decimal(fd as int) + ", op="@,
        ),
        ends_in(
            (EvalErrorV::Unsupported { fd, op }).text(),
            ", op="@ + (match op {
                RedirOp::In => "In"@,
                RedirOp::Out => "Out"@,
                RedirOp::Append => "Append"@,
            }),
        ),
        fd != other ==> (EvalErrorV::Unsupported { fd, op }).text() != (EvalErrorV::Unsupported {
            fd: other,
            op,
        }).text(),
{
    let name = op_name(op);
    let head = "unsupported redirect: fd="@;
    let (a, b) = (signed_decimal(fd as int), signed_decimal(other as int));
    let t = (EvalErrorV::Unsupported { fd, op }).text();
    assert(t =~= (head + a + ", op="@) + name);
    lemma_ends(head + a + ", op="@, name);
    assert(t =~= (head + a) + (", op="@ + name));
    lemma_ends(head + a, ", op="@ + name);
    let u = (EvalErrorV::Unsupported { fd: other, op }).text();
    if t == u {
        assert(t =~= head + a + (", op="@ + name));
        assert(u =~= head + b + (", op="@ + name));
        lemma_same_around(head, a, b, ", op="@ + name);
        law_numbers_differ(fd as int, other as int);
    }
}

} // verus!
