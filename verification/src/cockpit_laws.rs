//! What holds of every session at the prompt.

use vstd::prelude::*;

use crate::client::find_branch;
use crate::cockpit::{
    error_text, feed_step, finish_prints, greeting, help_text, line_kind, meta, next_word, word_end,
    word_start, FeedV, LineV, MetaV,
};
use crate::eval::is_pure_line;
use crate::helm::{entered, turn, CockpitV, NeedV, NewsV, PhaseV, TurnV};
use crate::render::{branch_lines, exit_line, tree_text, PrintV};
use crate::render_laws::{lemma_ends, starts_with};
use crate::text::{decimal, is_white, number, trimmed};
use crate::text_laws::{is_blank_text, law_trimming_takes_only_white_space, lemma_trimmed};
use crate::tree::{CellId, DEFAULT_BRANCH};
use crate::wire::{BranchSnapshotV, CellEventV, CellSnapshotV, Stream};

verus! {

// ---------- Branches --------------------------------------------------------

/// A branch is found by its name, and none is found where no branch has it.
pub proof fn law_branches_are_found_by_name(bs: Seq<BranchSnapshotV>, name: Seq<char>)
    ensures
        match find_branch(bs, name) {
            Some(b) => b.name == name && bs.contains(b),
            None => forall|i: int| 0 <= i < bs.len() ==> (#[trigger] bs[i]).name != name,
        },
        forall|k: int|
            0 <= k < bs.len() && (#[trigger] bs[k]).name == name && (forall|j: int|
                0 <= j < k ==> (#[trigger] bs[j]).name != name) ==> find_branch(bs, name) == Some(
                bs[k],
            ),
    decreases bs.len(),
{
    if bs.len() > 0 {
        let rest = bs.drop_first();
        law_branches_are_found_by_name(rest, name);
        if bs[0].name == name {
            assert(bs.contains(bs[0]));
        } else {
            if let Some(b) = find_branch(rest, name) {
                let i = choose|i: int| 0 <= i < rest.len() && rest[i] == b;
                assert(bs[i + 1] == b);
            } else {
                assert forall|i: int| 0 <= i < bs.len() implies (#[trigger] bs[i]).name != name by {
                    if i > 0 {
                        assert(bs[i] == rest[i - 1]);
                    }
                }
            }
            assert forall|k: int|
                0 <= k < bs.len() && (#[trigger] bs[k]).name == name && (forall|j: int|
                    0 <= j < k ==> (#[trigger] bs[j]).name != name) implies find_branch(bs, name)
                == Some(bs[k]) by {
                assert(rest[k - 1] == bs[k]);
                assert forall|j: int| 0 <= j < k - 1 implies (#[trigger] rest[j]).name != name by {
                    assert(rest[j] == bs[j + 1]);
                }
            }
        }
    }
}

// ---------- Commands --------------------------------------------------------

/// A session runs a command, on a branch and from a line.
pub open spec fn runs(need: NeedV, branch: Seq<char>, source: Seq<char>) -> bool {
    need == NeedV::Stream { branch, source } || need == NeedV::Launch { branch, source }
}

/// What a session runs, it runs on the branch that it is on, and it is the line that was typed
/// last; nothing but a line typed at the prompt is ever run.
pub proof fn law_commands_run_on_the_branch(c: CockpitV, news: NewsV)
    ensures
        forall|b: Seq<char>, s: Seq<char>| #[trigger]
            runs(turn(c, news).1.need, b, s) ==> b == c.branch && b == turn(c, news).0.branch
                && c.phase == PhaseV::Asking(s) && turn(c, news).1.cursor is None,
        turn(c, news).0.phase matches PhaseV::Asking(s) ==> c.phase is AtPrompt && (
        news matches NewsV::Line(Some(l)) && s == trimmed(l)),
{
}

/// The line typed at the prompt is run without the white space around it, on the branch that the
/// session is on: unattended where that branch is in terminal mode and the line starts a process,
/// else with its output shown. A blank line runs nothing, nor does one behind a colon.
pub proof fn law_what_is_typed_is_run(c: CockpitV, line: Seq<char>, bs: Seq<BranchSnapshotV>)
    requires
        c.phase is AtPrompt,
    ensures
        ({
            let (d, t) = turn(c, NewsV::Line(Some(line)));
            let (e, u) = turn(d, NewsV::Branches(bs));
            let s = trimmed(line);
            if s.len() == 0 {
                d.phase is Looking && t.need is Branches && t.prints.len() == 0
            } else if s[0] == ':' {
                !(d.phase is Asking)
            } else {
                let tty = exists|k: int|
                    0 <= k < bs.len() && (#[trigger] bs[k]).name == c.branch && bs[k].tty && (
                    forall|j: int| 0 <= j < k ==> (#[trigger] bs[j]).name != c.branch);
                &&& t.need is Branches && t.prints.len() == 0
                &&& u.prints.len() == 0
                &&& u.need is Launch <==> e.phase is Launching
                &&& u.need is Stream <==> e.phase is Streaming
                &&& u.need == if tty && !is_pure_line(s) {
                    NeedV::Launch { branch: c.branch, source: s }
                } else {
                    NeedV::Stream { branch: c.branch, source: s }
                }
            }
        }),
{
    law_branches_are_found_by_name(bs, c.branch);
    if let Some(b) = find_branch(bs, c.branch) {
        let k = lemma_first(bs, c.branch, 0);
        assert(find_branch(bs, c.branch) == Some(bs[k]));
    }
}

proof fn lemma_first(bs: Seq<BranchSnapshotV>, name: Seq<char>, i: int) -> (k: int)
    requires
        0 <= i,
        exists|j: int| i <= j < bs.len() && (#[trigger] bs[j]).name == name,
        forall|j: int| 0 <= j < i ==> (#[trigger] bs[j]).name != name,
    ensures
        0 <= k < bs.len(),
        bs[k].name == name,
        forall|j: int| 0 <= j < k ==> (#[trigger] bs[j]).name != name,
    decreases bs.len() - i,
{
    if bs[i].name == name {
        i
    } else {
        lemma_first(bs, name, i + 1)
    }
}

/// The session after news.
pub open spec fn session(c: CockpitV, news: Seq<NewsV>) -> CockpitV
    decreases news.len(),
{
    if news.len() == 0 {
        c
    } else {
        turn(session(c, news.drop_last()), news.last()).0
    }
}

/// The branch that was named last as the current one, at first in `t` and then at news.
pub open spec fn last_cursor(c: CockpitV, t: TurnV, news: Seq<NewsV>) -> Option<Seq<char>>
    decreases news.len(),
{
    if news.len() == 0 {
        t.cursor
    } else {
        match turn(session(c, news.drop_last()), news.last()).1.cursor {
            Some(n) => Some(n),
            None => last_cursor(c, t, news.drop_last()),
        }
    }
}

proof fn lemma_session(target: Option<Seq<char>>, current: Seq<char>, news: Seq<NewsV>)
    ensures
        ({
            let (c, t) = entered(target, current);
            let d = session(c, news);
            d.phase is Entering || d.phase is Reaching || d.phase is FollowingCell
                || d.phase is Over || last_cursor(c, t, news) == Some(d.branch)
        }),
    decreases news.len(),
{
    if news.len() > 0 {
        lemma_session(target, current, news.drop_last());
    }
}

/// Whatever happens in a session, each command that it runs, it runs on the branch that it named
/// last as the current one.
pub proof fn law_commands_run_on_the_branch_named_last(
    target: Option<Seq<char>>,
    current: Seq<char>,
    before: Seq<NewsV>,
    news: NewsV,
    branch: Seq<char>,
    source: Seq<char>,
)
    requires
        runs(turn(session(entered(target, current).0, before), news).1.need, branch, source),
    ensures
        last_cursor(entered(target, current).0, entered(target, current).1, before) == Some(branch),
{
    lemma_session(target, current, before);
}

/// A session changes branches only to one that there is: where it starts, that is the one asked
/// for, or the current one, or the default one in its place; later it is the one that a line
/// names.
pub proof fn law_sessions_move_where_they_are_told(
    c: CockpitV,
    bs: Seq<BranchSnapshotV>,
    name: Seq<char>,
)
    ensures
        c.phase == PhaseV::Switching(name) ==> {
            let (d, t) = turn(c, NewsV::Branches(bs));
            &&& (exists|i: int| 0 <= i < bs.len() && (#[trigger] bs[i]).name == name) ==> d.branch
                == name && t.cursor == Some(name)
            &&& (forall|i: int| 0 <= i < bs.len() ==> (#[trigger] bs[i]).name != name) ==> d.branch
                == c.branch && t.cursor is None
            &&& d.phase is Looking && t.need is Branches
        },
        c.phase == PhaseV::Entering(Some(name)) && (exists|i: int|
            0 <= i < bs.len() && (#[trigger] bs[i]).name == name) ==> turn(
            c,
            NewsV::Branches(bs),
        ).0.branch == name,
        c.phase == PhaseV::Entering(None) ==> {
            let d = turn(c, NewsV::Branches(bs)).0;
            let there = exists|i: int| 0 <= i < bs.len() && (#[trigger] bs[i]).name == c.branch;
            &&& there ==> d.branch == c.branch
            &&& !there ==> d.branch == DEFAULT_BRANCH@
        },
{
    law_branches_are_found_by_name(bs, name);
    law_branches_are_found_by_name(bs, c.branch);
    if let Some(b) = find_branch(bs, name) {
        let i = choose|i: int| 0 <= i < bs.len() && bs[i] == b;
        assert(bs[i].name == name);
    }
    if let Some(b) = find_branch(bs, c.branch) {
        let i = choose|i: int| 0 <= i < bs.len() && bs[i] == b;
        assert(bs[i].name == c.branch);
    }
}

/// Before it shows a prompt a session looks at the tip of its branch, and follows that where it is
/// running. The prompt names the branch.
pub proof fn law_a_running_tip_is_followed_first(c: CockpitV, bs: Seq<BranchSnapshotV>, k: int)
    requires
        c.phase is Looking,
        0 <= k < bs.len(),
        bs[k].name == c.branch,
        forall|j: int| 0 <= j < k ==> (#[trigger] bs[j]).name != c.branch,
    ensures
        ({
            let (d, t) = turn(c, NewsV::Branches(bs));
            if bs[k].running {
                t.need == NeedV::Follow(bs[k].tip) && t.prints.len() == 0 && d.phase is FollowingTip
            } else {
                &&& d.phase is AtPrompt && d.at_prompt && t.need is Input
                &&& t.prints.len() == 1
                &&& t.prints[0] matches PrintV::Stdout(p) && p == "(on "@ + c.branch + ") > "@
            }
        }),
{
    law_branches_are_found_by_name(bs, c.branch);
}

/// A cell that a session launched is followed, and it is the session's own from then on, as is one
/// that was streamed; no other cell becomes the session's own.
pub proof fn law_own_cells_are_remembered(c: CockpitV, news: NewsV)
    ensures
        ({
            let (d, t) = turn(c, news);
            match news {
                NewsV::Launched(id) => c.phase is Launching ==> t.need == NeedV::Follow(id)
                    && d.phase is FollowingOwn && d.feed.mine == c.feed.mine.insert(id),
                NewsV::Streamed(s) => c.phase is Streaming ==> d.feed.mine == c.feed.mine.insert(
                    s.id,
                ),
                _ => d.feed.mine == c.feed.mine,
            }
        }),
{
}

/// At the end of its input a session is over, as when the user leaves what it follows; when the
/// followed cell ends of itself the session goes on.
pub proof fn law_sessions_end_when_told(c: CockpitV, detached: bool)
    ensures
        c.phase is AtPrompt ==> turn(c, NewsV::Line(None)).1.need == NeedV::Stop(None),
        c.phase is FollowingTip || c.phase is FollowingOwn ==> {
            let (d, t) = turn(c, NewsV::Followed { detached });
            if detached {
                t.need == NeedV::Stop(None)
            } else {
                d.phase is Looking && t.need is Branches && d.branch == c.branch
            }
        },
{
}

// ---------- The feed --------------------------------------------------------

/// The cells of others on the branch are shown from their start to their end; those of other
/// branches, and the session's own, are not. What is shown of a cell is its number, who runs it,
/// and its line.
pub proof fn law_cells_of_others_are_shown(
    f: FeedV,
    branch: Seq<char>,
    id: CellId,
    parent: Option<CellId>,
    source: Seq<char>,
    who: Seq<char>,
    b: Seq<char>,
    at: bool,
)
    ensures
        ({
            let e = CellEventV::Started { id, parent, source, who, branch: b };
            let (g, prints) = feed_step(f, branch, e, at);
            &&& g.foreign.contains(id) <==> f.foreign.contains(id) || (b == branch
                && !f.mine.contains(id))
            &&& b == branch && !f.mine.contains(id) <==> prints.len() > 0
            &&& g.mine == f.mine
            &&& forall|other: CellId|
                other != id ==> (#[trigger] g.foreign.contains(other) <==> f.foreign.contains(
                    other,
                ))
            &&& prints.len() > 0 ==> {
                &&& prints.last() matches PrintV::Stdout(line)
                &&& line.len() > source.len() && line.last() == '\n'
                &&& line.subrange(line.len() - 1 - source.len(), line.len() - 1) == source
                &&& starts_with(
                    line,
                    "[#"@ + decimal(id as nat) + " "@ + who + " on "@ + b + "] $ "@,
                )
                &&& g.at_line_start
                &&& prints.len() == if at {
                    2
                } else {
                    1int
                }
            }
        }),
{
    reveal_strlit("\n");
    let line = "[#"@ + decimal(id as nat) + " "@ + who + " on "@ + b + "] $ "@ + source
        + "\n"@;
    assert(line.subrange(line.len() - 1 - source.len(), line.len() - 1) =~= source);
    let head = "[#"@ + decimal(id as nat) + " "@ + who + " on "@ + b + "] $ "@;
    assert(line =~= head + (source + "\n"@));
    lemma_ends(head, source + "\n"@);
}

/// What a cell of others writes is shown on the stream that it wrote to, with the prompt taken off
/// the screen before, and nothing is shown of cells that are not being shown.
pub proof fn law_output_of_others_is_shown_on_its_stream(
    f: FeedV,
    branch: Seq<char>,
    id: CellId,
    stream: Stream,
    data: Seq<char>,
    at: bool,
)
    ensures
        ({
            let e = CellEventV::OutputChunk { id, stream, data };
            let (g, prints) = feed_step(f, branch, e, at);
            &&& g.mine == f.mine && g.foreign == f.foreign
            &&& !f.foreign.contains(id) ==> prints.len() == 0 && g == f
            &&& f.foreign.contains(id) ==> {
                &&& prints.last() == match stream {
                    Stream::Stdout => PrintV::Stdout(data),
                    Stream::Stderr => PrintV::Stderr(data),
                }
                &&& data.len() > 0 ==> (g.at_line_start <==> data.last() == '\n')
                &&& data.len() == 0 ==> g.at_line_start == f.at_line_start
                &&& prints.len() == if at {
                    2
                } else {
                    1int
                }
                &&& at ==> prints[0] == PrintV::Stdout("\r\u{1b}[K"@)
            }
        }),
{
}

/// When a cell of others ends it is shown no more, and a line that it left open is closed first.
pub proof fn law_cells_of_others_end_on_a_line_of_their_own(
    f: FeedV,
    branch: Seq<char>,
    id: CellId,
    exit_code: i32,
    duration_ms: u64,
    hash: Option<Seq<char>>,
    at: bool,
)
    ensures
        ({
            let e = CellEventV::Completed { id, exit_code, duration_ms, hash };
            let (g, prints) = feed_step(f, branch, e, at);
            &&& !g.foreign.contains(id)
            &&& forall|other: CellId|
                other != id ==> (#[trigger] g.foreign.contains(other) <==> f.foreign.contains(
                    other,
                ))
            &&& g.mine == f.mine
            &&& f.foreign.contains(id) ==> {
                let n = prints.len();
                &&& g.at_line_start
                &&& prints.last() == PrintV::Stdout(exit_line(id, exit_code, duration_ms))
                &&& n == (if at {
                    1int
                } else {
                    0
                }) + (if f.at_line_start {
                    1int
                } else {
                    2
                })
                &&& !f.at_line_start ==> prints[n - 2] == PrintV::Stdout("\n"@)
            }
            &&& !f.foreign.contains(id) ==> prints.len() == 0 && g == f
        }),
{
}

// ---------- Metas -----------------------------------------------------------

proof fn lemma_word_runs(pre: Seq<char>, w: Seq<char>, rest: Seq<char>, i: int)
    requires
        0 <= i <= w.len(),
        forall|k: int| 0 <= k < w.len() ==> !is_white(#[trigger] w[k]),
        rest.len() > 0 ==> is_white(rest[0]),
    ensures
        word_end(pre + w + rest, pre.len() + i) == pre.len() + w.len(),
    decreases w.len() - i,
{
    let s = pre + w + rest;
    if i < w.len() {
        assert(s[pre.len() + i] == w[i]);
        lemma_word_runs(pre, w, rest, i + 1);
    } else if rest.len() > 0 {
        assert(s[pre.len() + i] == rest[0]);
    }
}

/// A word: some characters, none of them white space.
pub open spec fn is_word(w: Seq<char>) -> bool {
    &&& w.len() > 0
    &&& forall|k: int| 0 <= k < w.len() ==> !is_white(#[trigger] w[k])
}

proof fn lemma_next_word(front: Seq<char>, pre: Seq<char>, w: Seq<char>, rest: Seq<char>)
    requires
        is_blank_text(pre),
        is_word(w),
        rest.len() > 0 ==> is_white(rest[0]),
    ensures
        next_word(front + pre + w + rest, front.len() as int) == Some(
            (w, (front.len() + pre.len() + w.len()) as int),
        ),
{
    let s = front + pre + w + rest;
    lemma_start_behind(front, pre, w + rest, 0);
    assert(front + pre + (w + rest) =~= s);
    assert((w + rest)[0] == w[0]);
    lemma_word_runs(front + pre, w, rest, 0);
    let b = (front.len() + pre.len()) as int;
    assert(s.subrange(b, b + w.len()) =~= w);
}

proof fn lemma_start_behind(front: Seq<char>, pre: Seq<char>, rest: Seq<char>, i: int)
    requires
        0 <= i <= pre.len(),
        is_blank_text(pre),
        rest.len() > 0,
        !is_white(rest[0]),
    ensures
        word_start(front + pre + rest, front.len() + i) == front.len() + pre.len(),
    decreases pre.len() - i,
{
    let s = front + pre + rest;
    if i < pre.len() {
        assert(s[front.len() + i] == pre[i]);
        lemma_start_behind(front, pre, rest, i + 1);
    } else {
        assert(s[front.len() + i] == rest[0]);
    }
}

/// What follows the colon is a word and what it is about, and white space around them does not
/// matter: each of the words has its meaning, and any other is not known.
pub proof fn law_metas_are_words(pre: Seq<char>, w: Seq<char>, mid: Seq<char>, n: Seq<char>)
    requires
        is_blank_text(pre),
        is_word(w),
        is_blank_text(mid),
        mid.len() > 0,
        n.len() > 0 ==> is_word(n),
    ensures
        ({
            let m = meta(pre + w + mid + n);
            &&& m is Quit <==> w == "quit"@ || w == "q"@ || w == "exit"@
            &&& m is Help <==> w == "help"@ || w == "h"@
            &&& m is At <==> w == "at"@
            &&& m is Branches <==> w == "branches"@
            &&& m is Tree <==> w == "tree"@
            &&& m is Switch <==> w == "switch"@
            &&& m is Switch ==> m == MetaV::Switch(
                if n.len() > 0 {
                    Some(n)
                } else {
                    None
                },
            )
            &&& m is Unknown ==> m == MetaV::Unknown(w)
        }),
{
    let s = pre + w + mid + n;
    let none = Seq::<char>::empty();
    assert(none + pre + w + (mid + n) =~= s);
    assert((mid + n)[0] == mid[0]);
    assert(is_white(mid[0]));
    lemma_next_word(none, pre, w, mid + n);
    let e = (pre.len() + w.len()) as int;
    if n.len() > 0 {
        assert((pre + w) + mid + n + none =~= s);
        lemma_next_word(pre + w, mid, n, none);
    } else {
        assert(n =~= none);
        lemma_all_white(pre + w, mid, 0);
        assert(s =~= (pre + w) + mid);
    }
    reveal_strlit("quit");
    reveal_strlit("q");
    reveal_strlit("exit");
    reveal_strlit("help");
    reveal_strlit("h");
    reveal_strlit("at");
    reveal_strlit("branches");
    reveal_strlit("tree");
    reveal_strlit("switch");
    assert("quit"@[0] == 'q' && "q"@[0] == 'q' && "exit"@[0] == 'e' && "help"@[0] == 'h' && "h"@[0]
        == 'h' && "at"@[0] == 'a' && "branches"@[0] == 'b' && "tree"@[0] == 't' && "switch"@[0]
        == 's');
}

proof fn lemma_all_white(front: Seq<char>, mid: Seq<char>, i: int)
    requires
        0 <= i <= mid.len(),
        is_blank_text(mid),
    ensures
        word_start(front + mid, front.len() + i) == front.len() + mid.len(),
    decreases mid.len() - i,
{
    if i < mid.len() {
        assert((front + mid)[front.len() + i] == mid[i]);
        lemma_all_white(front, mid, i + 1);
    }
}

/// What each command to the session does: it leaves, or asks for what it shows, and stays on its
/// branch.
pub proof fn law_metas_do_what_they_say(c: CockpitV, line: Seq<char>, m: MetaV)
    requires
        c.phase is AtPrompt,
        line_kind(line) == LineV::Meta(m),
    ensures
        ({
            let (d, t) = turn(c, NewsV::Line(Some(line)));
            &&& d.branch == c.branch && t.cursor is None
            &&& m is Quit <==> t.need is Stop
            &&& m is Quit ==> t.need == NeedV::Stop(None)
            &&& m is Tree <==> t.need is Tree
            &&& m is Branches <==> d.phase is Listing
            &&& m matches MetaV::Switch(Some(n)) ==> d.phase == PhaseV::Switching(n)
            &&& d.phase matches PhaseV::Switching(n) ==> m == MetaV::Switch(Some(n))
            &&& m is At ==> t.prints == seq![PrintV::Stdout("on branch '"@ + c.branch + "'\n"@)]
            &&& trimmed(line)[0] == ':'
        }),
{
}

// ---------- What is said ----------------------------------------------------

/// Below the output of a line that was streamed stands how its cell ended, on a line of its own.
pub proof fn law_streamed_lines_end_with_their_exit_code(c: CellSnapshotV)
    ensures
        ({
            let ps = finish_prints(c);
            let shown = if c.stderr.len() > 0 {
                c.stderr
            } else {
                c.stdout
            };
            let open = shown.len() > 0 && shown.last() != '\n';
            &&& ps.last() == PrintV::Stdout(
                exit_line(
                    c.id,
                    if c.exit_code is Some {
                        c.exit_code->Some_0
                    } else {
                        -1i32
                    },
                    c.duration_ms,
                ),
            )
            &&& open ==> ps.len() == 2 && ps[0] == PrintV::Stdout(seq!['\n'])
            &&& !open ==> ps.len() == 1
        }),
{
}

/// A greeting names the branch, and an error says what it is.
pub proof fn law_greetings_and_errors_say_what_they_are(branch: Seq<char>, m: Seq<char>)
    ensures
        starts_with(greeting(branch), "fern — attached to '"@ + branch + "'"@),
        greeting(branch).len() > 0,
        error_text(m) == "error: "@ + m + seq!['\n'],
{
    let tail = "'. :help for commands, :quit to leave.\n"@;
    reveal_strlit("'. :help for commands, :quit to leave.\n");
    reveal_strlit("'");
    reveal_strlit("\n");
    assert(tail =~= "'"@ + tail.skip(1));
    let head = "fern — attached to '"@ + branch;
    assert(greeting(branch) =~= (head + "'"@) + tail.skip(1));
    lemma_ends(head + "'"@, tail.skip(1));
    assert("\n"@ =~= seq!['\n']);
}

/// What concerns one command is shown as an error, and the session goes on, on its branch; any
/// other failure ends it, and says why.
pub proof fn law_failures_of_commands_are_shown(c: CockpitV, m: Seq<char>)
    ensures
        ({
            let (d, t) = turn(c, NewsV::Failed(m));
            let of_command = c.phase is Launching || c.phase is FollowingOwn || c.phase is Streaming
                || c.phase is Listing || c.phase is ShowingTree || c.phase is Switching;
            &&& d.branch == c.branch && d.feed == c.feed && t.cursor is None
            &&& of_command ==> t.prints == seq![PrintV::Stdout(error_text(m))] && t.need is Branches
                && d.phase is Looking
            &&& !of_command ==> t.need == NeedV::Stop(Some(m)) && d.phase is Over
                && t.prints.len() == 0
        }),
{
}

/// While the user is at the prompt the cells of others are shown, and when the last of them is over
/// the prompt comes back, with the name of the branch; as long as any is shown it does not. The
/// session goes on waiting for the user either way.
pub proof fn law_the_prompt_comes_back(c: CockpitV, e: CellEventV)
    requires
        c.phase is AtPrompt,
    ensures
        ({
            let (d, t) = turn(c, NewsV::Event(e));
            let (feed, prints) = feed_step(c.feed, c.branch, e, c.at_prompt);
            let prompt = PrintV::Stdout("(on "@ + c.branch + ") > "@);
            &&& d.phase is AtPrompt && t.need is Input && d.branch == c.branch && d.feed == feed
                && t.cursor is None
            &&& prints.len() == 0 && c.at_prompt ==> t.prints.len() == 0 && d.at_prompt
            &&& (prints.len() > 0 || !c.at_prompt) && feed.foreign.len() == 0 ==> t.prints
                == prints + seq![prompt] && d.at_prompt
            &&& (prints.len() > 0 || !c.at_prompt) && feed.foreign.len() > 0 ==> t.prints == prints
                && !d.at_prompt
        }),
{
    let (feed, prints) = feed_step(c.feed, c.branch, e, c.at_prompt);
    let prompt = PrintV::Stdout("(on "@ + c.branch + ") > "@);
    assert(prints.push(prompt) =~= prints + seq![prompt]);
}

/// `w` stands in `s`, at the start of a line.
pub open spec fn starts_a_line(s: Seq<char>, w: Seq<char>, i: int) -> bool {
    &&& 0 <= i && i + w.len() <= s.len()
    &&& i > 0 ==> s[i - 1] == '\n'
    &&& s.subrange(i, i + w.len()) == w
}

/// The help names every command of the session, each on a line of its own.
pub proof fn law_help_names_every_command() -> (at: Seq<int>)
    ensures
        at.len() == 5,
        starts_a_line(help_text(), ":branches "@, at[0]),
        starts_a_line(help_text(), ":switch <name> "@, at[1]),
        starts_a_line(help_text(), ":tree "@, at[2]),
        starts_a_line(help_text(), ":at "@, at[3]),
        starts_a_line(help_text(), ":quit / :q "@, at[4]),
        help_text().last() == '\n',
{
    reveal_strlit(
        ":branches          list branches\n:switch <name>     switch the current branch\n:tree              show the cell tree\n:at                show the current branch\n:quit / :q         leave the cockpit\n",
    );
    reveal_strlit(":branches ");
    reveal_strlit(":switch <name> ");
    reveal_strlit(":tree ");
    reveal_strlit(":at ");
    reveal_strlit(":quit / :q ");
    let h = help_text();
    assert(h.subrange(0, 10) =~= ":branches "@);
    assert(h.subrange(33, 48) =~= ":switch <name> "@);
    assert(h.subrange(78, 84) =~= ":tree "@);
    assert(h.subrange(116, 120) =~= ":at "@);
    assert(h.subrange(159, 170) =~= ":quit / :q "@);
    seq![0, 33, 78, 116, 159]
}

/// What was asked for is what is shown: the branches with the current one marked, the tree, or how
/// a line that was streamed ended. Then the session goes on, where it is.
pub proof fn law_what_was_asked_for_is_shown(
    c: CockpitV,
    bs: Seq<BranchSnapshotV>,
    cells: Seq<CellSnapshotV>,
    cell: CellSnapshotV,
)
    ensures
        c.phase is Listing ==> {
            let (d, t) = turn(c, NewsV::Branches(bs));
            &&& t.prints == seq![PrintV::Stdout(branch_lines(bs, c.branch))]
            &&& d.phase is Looking && t.need is Branches && d.branch == c.branch
        },
        c.phase is ShowingTree ==> {
            let (d, t) = turn(c, NewsV::Tree(cells));
            &&& t.prints == seq![PrintV::Stdout(tree_text(cells))]
            &&& d.phase is Looking && t.need is Branches && d.branch == c.branch
        },
        c.phase is Streaming ==> {
            let (d, t) = turn(c, NewsV::Streamed(cell));
            &&& t.prints == finish_prints(cell)
            &&& d.phase is Looking && t.need is Branches && d.branch == c.branch
        },
{
}

/// A session says where it starts, and that it moved; it says so too where it could not, or where a
/// command is not known or lacks its name.
pub proof fn law_sessions_say_where_they_are(
    c: CockpitV,
    bs: Seq<BranchSnapshotV>,
    name: Seq<char>,
    line: Seq<char>,
)
    ensures
        ({
            let (d, t) = turn(c, NewsV::Branches(bs));
            let there = exists|i: int| 0 <= i < bs.len() && (#[trigger] bs[i]).name == name;
            &&& c.phase == PhaseV::Entering(Some(name)) && there ==> t.prints == seq![
                PrintV::Stdout(greeting(name)),
            ] && t.need is Events && t.cursor == Some(name)
            &&& c.phase == PhaseV::Switching(name) && there ==> t.prints == seq![
                PrintV::Stdout("switched to '"@ + name + "'\n"@),
            ]
            &&& c.phase == PhaseV::Entering(Some(name)) && !there && number(name) is None ==> (
            t.need matches NeedV::Stop(Some(m)) && starts_with(
                m,
                "no such branch '"@ + name + "'"@,
            ))
            &&& c.phase == PhaseV::Switching(name) && !there ==> t.prints == seq![
                PrintV::Stdout(error_text("no such branch '"@ + name + "'"@)),
            ]
        }),
        c.phase is AtPrompt && line_kind(line) == LineV::Meta(MetaV::Unknown(name)) ==> turn(
            c,
            NewsV::Line(Some(line)),
        ).1.prints == seq![
            PrintV::Stdout(error_text("unknown command :"@ + name + " (try :help)"@)),
        ],
        c.phase is AtPrompt && line_kind(line) == LineV::Meta(MetaV::Help) ==> turn(
            c,
            NewsV::Line(Some(line)),
        ).1.prints == seq![PrintV::Stdout(help_text())],
{
    law_branches_are_found_by_name(bs, name);
    if let Some(b) = find_branch(bs, name) {
        let i = choose|i: int| 0 <= i < bs.len() && bs[i] == b;
        assert(bs[i].name == name);
    }
    let none = Seq::<PrintV>::empty();
    assert(none.push(PrintV::Stdout(greeting(name))) =~= seq![PrintV::Stdout(greeting(name))]);
    let mid = "' (create it with `fern branch new "@;
    reveal_strlit("' (create it with `fern branch new ");
    reveal_strlit("'");
    let tail = mid.skip(1);
    assert(mid =~= "'"@ + tail);
    let head = "no such branch '"@ + name;
    let whole = head + mid + name + "`)"@;
    assert(whole =~= (head + "'"@) + (tail + name + "`)"@));
    lemma_ends(head + "'"@, tail + name + "`)"@);
}

/// A line is a command to the session behind a colon, and else a command line, both without the
/// white space around them; a line with nothing in it is none, and a colon alone asks for help.
pub proof fn law_lines_are_commands_or_metas(pre: Seq<char>, s: Seq<char>, post: Seq<char>)
    requires
        is_blank_text(pre),
        is_blank_text(post),
        s.len() > 0,
        !is_white(s[0]),
        !is_white(s.last()),
    ensures
        line_kind(pre + s + post) == if s[0] == ':' {
            LineV::Meta(meta(s.skip(1)))
        } else {
            LineV::Command(s)
        },
        line_kind(pre) is Blank,
        meta(pre) is Help,
{
    lemma_trimmed(pre, s, post);
    law_trimming_takes_only_white_space(pre);
    let none = Seq::<char>::empty();
    assert(none + pre =~= pre);
    lemma_all_white(none, pre, 0);
}

/// A session that is told nothing, on the default branch, starts there at once; any other looks at
/// the branches first.
pub proof fn law_sessions_start_where_they_can(target: Option<Seq<char>>, current: Seq<char>)
    ensures
        ({
            let (c, t) = entered(target, current);
            let at_once = target is None && current == DEFAULT_BRANCH@;
            &&& c.branch == current
            &&& at_once ==> t.need is Events && t.cursor == Some(current) && t.prints == seq![
                PrintV::Stdout(greeting(current)),
            ]
            &&& !at_once ==> t.need is Branches && t.cursor is None && t.prints.len() == 0
            &&& c.feed.mine.len() == 0 && c.feed.foreign.len() == 0 && !c.at_prompt
            &&& at_once ==> {
                let (d, u) = turn(c, NewsV::Subscribed);
                d.phase is Looking && u.need is Branches && u.prints.len() == 0 && d.branch
                    == current
            }
        }),
{
    let none = Seq::<PrintV>::empty();
    let hello = PrintV::Stdout(greeting(current));
    assert(none.push(hello) =~= seq![hello]);
}

/// The cells of others that are being shown are those of the branch that the session is on: where
/// it moves to another they are shown no more, and where it stays, only events change what is
/// shown.
pub proof fn law_moving_leaves_the_cells_of_others(c: CockpitV, news: NewsV)
    ensures
        ({
            let d = turn(c, news).0;
            &&& c.phase is Switching && d.branch != c.branch ==> d.feed.foreign.len() == 0
            &&& d.branch == c.branch && !(news is Event) ==> d.feed.foreign == c.feed.foreign
            &&& !(news is Event) ==> d.feed.at_line_start == c.feed.at_line_start
        }),
{
}

} // verus!
