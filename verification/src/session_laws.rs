//! What holds of a shared session as a whole.

use vstd::prelude::*;

use crate::cockpit::newline_at;
use crate::daemon::{answered, landing, submit_verdict, submitted, SubmitV};
use crate::eval::{
    command_plan, first_unsupported, in_tty_mode, is_builtin, leaf_plan, leaf_words,
    lemma_stages_ask, opens, process, stage_of, stages_plan, supported, ActionV, OpenV, PlanV,
    StageV,
};
use crate::forest::{placed, sound};
use crate::parse::CommandV;
use crate::store::{replay_all, replayed, RecordV};
use crate::tree::{root_cell, CellId, ResultV, StateV, TreeV, DEFAULT_BRANCH};
use crate::wire::RequestV;

verus! {

// ---------- Branches --------------------------------------------------------

/// A tree has its default branch from the start, and nothing takes it away: no request, no line
/// that is submitted and no cell that finishes.
pub proof fn law_the_default_branch_stays(t: TreeV, req: RequestV)
    requires
        t.branches.contains_key(DEFAULT_BRANCH@),
    ensures
        forall|s, i| #[trigger] TreeV::planted(s, i).branches.contains_key(DEFAULT_BRANCH@),
        answered(t, req) matches Some((n, _, _)) ==> n.branches.contains_key(DEFAULT_BRANCH@),
        forall|v, source, who| #[trigger]
            submitted(t, v, source, who).branches.contains_key(DEFAULT_BRANCH@),
        forall|id, r| #[trigger] t.finished(id, r).branches.contains_key(DEFAULT_BRANCH@),
{
}

/// A submitted line moves the branch whose tip it lands on; elsewhere it starts a new branch.
/// Either way one branch points at the new cell while it runs, and all others stay.
pub proof fn law_submits_fast_forward_or_fork(
    t: TreeV,
    branch: Seq<char>,
    parent: Option<CellId>,
    fork: Seq<char>,
    source: Seq<char>,
    who: Seq<char>,
)
    requires
        submit_verdict(t, branch, parent, fork) is Accepted,
    ensures
        ({
            let v = submit_verdict(t, branch, parent, fork);
            let n = submitted(t, v, source, who);
            let p = landing(t, branch, parent)->0;
            let landed = if t.tip(branch) == Some(p) {
                branch
            } else {
                fork
            };
            &&& n.tip(landed) == Some(t.next_id)
            &&& forall|b: Seq<char>| b != landed ==> #[trigger] n.tip(b) == t.tip(b)
            &&& n.cells[t.next_id].result is None
            &&& n.cells[t.next_id].hash is None
            &&& n.cells[t.next_id].parent == Some(p)
            &&& forall|k: CellId|
                k != t.next_id ==> (n.cells.contains_key(k) <==> t.cells.contains_key(k))
                    && #[trigger] n.cells[k] == t.cells[k]
        }),
{
}

/// A line starts where its parent ended: in the state and with the exit code that it left.
pub proof fn law_cells_start_where_their_parent_ended(
    t: TreeV,
    branch: Seq<char>,
    parent: Option<CellId>,
    fork: Seq<char>,
)
    ensures
        submit_verdict(t, branch, parent, fork) matches SubmitV::Accepted {
            parent: p,
            start,
            status,
            ..
        } ==> {
            &&& t.cells.contains_key(p)
            &&& t.cells[p].result matches Some(r)
            &&& start == r.end_state
            &&& status == r.exit_code
        },
{
}

/// What a cell does concerns it alone: when it finishes, every other cell, every branch and the
/// shape of the tree stay as they were.
pub proof fn law_siblings_are_independent(t: TreeV, id: CellId, result: ResultV, other: CellId)
    requires
        other != id,
    ensures
        t.finished(id, result).cells.contains_key(other) <==> t.cells.contains_key(other),
        t.finished(id, result).cells[other] == t.cells[other],
        t.finished(id, result).branches == t.branches,
        t.finished(id, result).children == t.children,
        t.finished(id, result).next_id == t.next_id,
{
}

/// A cell has a hash when it has a result, and only then.
pub proof fn law_hashes_come_with_results(t: TreeV, k: CellId)
    requires
        sound(t),
        t.cells.contains_key(k),
    ensures
        t.cells[k].hash is Some <==> t.cells[k].result is Some,
{
    assert(placed(t, k));
}

// ---------- Terminals and pipes ---------------------------------------------

/// The I/O mode of an external command is inherited environment: in terminal mode it runs in a
/// terminal, otherwise under pipes. A command whose output is captured runs under pipes.
pub proof fn law_the_io_mode_is_inherited(
    c: CommandV,
    texts: Seq<Seq<char>>,
    st: StateV,
    capture: bool,
    attach: bool,
)
    requires
        0 < c.words.len() <= texts.len(),
        c.redirects.len() == 0,
        !is_builtin(texts[0]),
    ensures
        command_plan(c, texts, st, capture, attach) == PlanV::Ask(
            if in_tty_mode(st) && !capture {
                ActionV::Pty { process: process(texts.take(c.words.len() as int), st), attach }
            } else {
                ActionV::Spawn {
                    process: process(texts.take(c.words.len() as int), st),
                    opens: Seq::<OpenV>::empty(),
                }
            },
        ),
{
    let argv = texts.take(c.words.len() as int);
    assert(argv[0] == texts[0]);
    let none = opens(c.redirects, texts.skip(c.words.len() as int), 0);
    assert(none =~= Seq::<OpenV>::empty());
}

/// A pipeline of several stages never runs in a terminal.
pub proof fn law_pipelines_run_under_pipes(
    cs: Seq<CommandV>,
    piped: bool,
    texts: Seq<Seq<char>>,
    st: StateV,
    capture: bool,
)
    requires
        cs.len() > 1,
    ensures
        leaf_plan(cs, piped, texts, st, capture) matches PlanV::Ask(a) && (a is Pipeline
            || a is Start || a is Open),
{
    lemma_stages_ask(cs, texts, st, 0, 0, Seq::empty());
}

/// Every redirection of the command can be made.
pub open spec fn can_all(c: CommandV) -> bool {
    forall|j: int|
        0 <= j < c.redirects.len() ==> supported(
            (#[trigger] c.redirects[j]).fd,
            c.redirects[j].op,
        )
}

/// The redirections of a command in a pipeline are those of its own process: each stage opens the
/// files that its command names, in their order, and no others.
pub proof fn law_redirects_apply_to_their_stage(
    cs: Seq<CommandV>,
    piped: bool,
    texts: Seq<Seq<char>>,
    st: StateV,
    capture: bool,
)
    requires
        cs.len() > 1,
        forall|i: int| 0 <= i < cs.len() ==> (#[trigger] cs[i]).words.len() > 0,
        forall|i: int| 0 <= i < cs.len() ==> can_all(#[trigger] cs[i]),
    ensures
        leaf_plan(cs, piped, texts, st, capture) matches PlanV::Ask(ActionV::Pipeline { stages })
            && stages.len() == cs.len() && forall|i: int|
            0 <= i < cs.len() ==> {
                let c = cs[i];
                let at = leaf_words(cs.take(i)).len() as int;
                let words_end = at + c.words.len();
                let end = words_end + c.redirects.len();
                &&& (#[trigger] stages[i]).process == process(texts.subrange(at, words_end), st)
                &&& stages[i].opens == opens(
                    c.redirects,
                    texts.subrange(words_end, end),
                    c.redirects.len() as int,
                )
            },
{
    let none = Seq::<StageV>::empty();
    assert(cs.take(0) =~= Seq::<CommandV>::empty());
    lemma_redirected_stages(cs, texts, st, 0, none);
    assert forall|i: int| 0 <= i < cs.len() implies first_unsupported(cs[i].redirects, 0)
        == cs[i].redirects.len() by {
        assert(can_all(cs[i]));
        lemma_all_supported(cs[i], 0);
    }
}

proof fn lemma_all_supported(c: CommandV, i: int)
    requires
        can_all(c),
        0 <= i <= c.redirects.len(),
    ensures
        first_unsupported(c.redirects, i) == c.redirects.len(),
    decreases c.redirects.len() - i,
{
    if i < c.redirects.len() {
        assert(supported(c.redirects[i].fd, c.redirects[i].op));
        lemma_all_supported(c, i + 1);
    }
}

proof fn lemma_redirected_stages(
    cs: Seq<CommandV>,
    texts: Seq<Seq<char>>,
    st: StateV,
    i: int,
    stages: Seq<StageV>,
)
    requires
        0 <= i <= cs.len(),
        stages.len() == i,
        forall|k: int|
            0 <= k < i ==> #[trigger] stages[k] == stage_of(
                cs[k],
                texts,
                leaf_words(cs.take(k)).len() as int,
                st,
            ),
        forall|k: int| 0 <= k < cs.len() ==> (#[trigger] cs[k]).words.len() > 0,
        forall|k: int| 0 <= k < cs.len() ==> can_all(#[trigger] cs[k]),
    ensures
        stages_plan(
            cs,
            texts,
            st,
            i,
            leaf_words(cs.take(i)).len() as int,
            stages,
        ) matches PlanV::Ask(ActionV::Pipeline { stages: all }) && all.len() == cs.len()
            && forall|k: int|
            0 <= k < cs.len() ==> #[trigger] all[k] == stage_of(
                cs[k],
                texts,
                leaf_words(cs.take(k)).len() as int,
                st,
            ),
    decreases cs.len() - i,
{
    if i < cs.len() {
        let c = cs[i];
        assert(can_all(c));
        lemma_all_supported(c, 0);
        let at = leaf_words(cs.take(i)).len() as int;
        assert(cs.take(i + 1).drop_last() =~= cs.take(i));
        let more = stages.push(stage_of(c, texts, at, st));
        lemma_redirected_stages(cs, texts, st, i + 1, more);
    }
}

// ---------- The log ---------------------------------------------------------

/// Replaying records never changes a cell that is there.
pub proof fn law_replay_keeps_cells(t: TreeV, rs: Seq<RecordV>, k: CellId)
    requires
        t.cells.contains_key(k),
    ensures
        replay_all(t, rs).cells.contains_key(k),
        replay_all(t, rs).cells[k] == t.cells[k],
    decreases rs.len(),
{
    if rs.len() > 0 {
        law_replay_keeps_cells(t, rs.drop_last(), k);
    }
}

/// Every log that starts with a root opens, whatever follows, and its root is the one that was
/// logged.
pub proof fn law_a_log_with_a_root_opens(rs: Seq<RecordV>)
    ensures
        replayed(rs) is Some <==> rs.len() > 0 && rs[0] is Root,
        replayed(rs) matches Some(t) ==> t.cells.contains_key(0) && t.cells[0] == root_cell(
            rs[0]->Root_state,
            rs[0]->Root_sysinfo,
        ),
{
    if rs.len() > 0 && rs[0] is Root {
        let t = TreeV::planted(rs[0]->Root_state, rs[0]->Root_sysinfo);
        law_replay_keeps_cells(t, rs.drop_first(), 0);
    }
}

// ---------- Input -----------------------------------------------------------

/// No byte of the input is lost: a line, its newline and what is left over are what was there,
/// and there is no newline within the line.
pub proof fn law_no_input_is_lost(b: Seq<u8>)
    requires
        newline_at(b, 0) < b.len(),
    ensures
        ({
            let n = newline_at(b, 0);
            &&& b == b.take(n) + seq![10u8] + b.skip(n + 1)
            &&& forall|i: int| 0 <= i < n ==> #[trigger] b.take(n)[i] != 10
        }),
{
    lemma_newline_at(b, 0);
    let n = newline_at(b, 0);
    assert(b =~= b.take(n) + seq![10u8] + b.skip(n + 1));
}

proof fn lemma_newline_at(b: Seq<u8>, i: int)
    requires
        0 <= i <= b.len(),
    ensures
        i <= newline_at(b, i) <= b.len(),
        newline_at(b, i) < b.len() ==> b[newline_at(b, i)] == 10,
        forall|k: int| i <= k < newline_at(b, i) ==> #[trigger] b[k] != 10,
    decreases b.len() - i,
{
    if i < b.len() && b[i] != 10 {
        lemma_newline_at(b, i + 1);
    }
}

} // verus!
