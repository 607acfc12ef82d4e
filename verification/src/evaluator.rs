//! The evaluator at work: a line, step by step.
//!
//! An evaluator holds what is left of a line. It asks for one action at a time, and its outcome
//! on the replies to come is, at every step, the outcome of the whole line.

use vstd::prelude::*;

use crate::eval::{
    conclude, eval, eval_line, expand_all, expand_words, leaf_plan, leaf_run, leaf_words, moved,
    lemma_stages_ask, plan_leaf, sources, subs, words_of, Action, ActionV, EvalError,
    EvalErrorV, OutcomeV, Plan, PlanV, Reply, ReplyV,
};
use crate::parse::{commands_view, parse, Command, CommandV, Stmt, StmtV, WordV};
use crate::tree::{strings, State, StateV};

verus! {

/// What follows a statement.
enum Frame {
    Always(Stmt),
    IfOk(Stmt),
    IfFailed(Stmt),
}

/// What follows a statement.
pub enum FrameV {
    Always(StmtV),
    IfOk(StmtV),
    IfFailed(StmtV),
}

impl Frame {
    spec fn view(&self) -> FrameV {
        match self {
            Frame::Always(s) => FrameV::Always(s@),
            Frame::IfOk(s) => FrameV::IfOk(s@),
            Frame::IfFailed(s) => FrameV::IfFailed(s@),
        }
    }
}

spec fn frames_view(v: Seq<Frame>) -> Seq<FrameV> {
    v.map_values(|f: Frame| f@)
}

/// What comes of an outcome once what follows it has run, the last frame first.
spec fn unwind(frames: Seq<FrameV>, out: OutcomeV, capture: bool) -> OutcomeV
    decreases frames.len(),
{
    if frames.len() == 0 {
        out
    } else {
        match out {
            OutcomeV::Done(s, e, rest) => {
                let next = match frames.last() {
                    FrameV::Always(r) => eval(r, s, e, capture, rest),
                    FrameV::IfOk(r) => if e == 0 {
                        eval(r, s, e, capture, rest)
                    } else {
                        out
                    },
                    FrameV::IfFailed(r) => if e != 0 {
                        eval(r, s, e, capture, rest)
                    } else {
                        out
                    },
                };
                unwind(frames.drop_last(), next, capture)
            },
            _ => out,
        }
    }
}

/// How many commands and pipelines a statement has.
spec fn leaves(s: StmtV) -> nat
    decreases s,
{
    match s {
        StmtV::AndIf(l, r) => leaves(*l) + leaves(*r),
        StmtV::OrIf(l, r) => leaves(*l) + leaves(*r),
        StmtV::Sequence(l, r) => leaves(*l) + leaves(*r),
        _ => 1,
    }
}

spec fn frames_leaves(f: Seq<FrameV>) -> nat
    decreases f.len(),
{
    if f.len() == 0 {
        0
    } else {
        frames_leaves(f.drop_last()) + match f.last() {
            FrameV::Always(s) => leaves(s),
            FrameV::IfOk(s) => leaves(s),
            FrameV::IfFailed(s) => leaves(s),
        }
    }
}

/// Where an evaluator stands.
enum Focus {
    /// At a command or a pipeline, with the outputs of its first substitutions.
    Leaf { cmds: Vec<Command>, piped: bool, caps: Vec<String> },
    /// At the end.
    Done,
    /// At an error.
    Failed(EvalError),
}

/// Evaluates one line, one action at a time.
pub struct Evaluator {
    state: State,
    status: i32,
    capture: bool,
    frames: Vec<Frame>,
    focus: Focus,
}

/// What an evaluator wants next.
#[derive(Debug)]
pub enum Step {
    /// An action, and the reply to it.
    Ask(Action),
    /// Nothing: the line is over, with this state and exit code.
    Done(State, i32),
    /// Nothing: the line could not be evaluated.
    Failed(EvalError),
}

proof fn lemma_expand_all_len(
    ws: Seq<WordV>,
    env: Map<Seq<char>, Seq<char>>,
    status: i32,
    caps: Seq<Seq<char>>,
)
    ensures
        expand_all(ws, env, status, caps).len() == ws.len(),
    decreases ws.len(),
{
    if ws.len() > 0 {
        lemma_expand_all_len(ws.drop_last(), env, status, caps);
    }
}

impl Evaluator {
    /// How far the evaluation comes on given replies.
    pub closed spec fn outcome(&self, replies: Seq<ReplyV>) -> OutcomeV {
        match self.focus {
            Focus::Leaf { cmds, piped, caps } => unwind(
                frames_view(self.frames@),
                leaf_run(
                    commands_view(cmds@),
                    piped,
                    strings(caps@),
                    self.state@,
                    self.status,
                    self.capture,
                    replies,
                ),
                self.capture,
            ),
            Focus::Done => OutcomeV::Done(self.state@, self.status, replies),
            Focus::Failed(e) => OutcomeV::Fail(e@),
        }
    }

    /// The evaluator is in order.
    pub closed spec fn wf(&self) -> bool {
        match self.focus {
            Focus::Leaf { cmds, caps, .. } => caps.len() <= subs(
                leaf_words(commands_view(cmds@)),
            ).len(),
            _ => true,
        }
    }

    spec fn load(&self) -> nat {
        match self.focus {
            Focus::Leaf { .. } => frames_leaves(frames_view(self.frames@)) + 1,
            _ => 0,
        }
    }

    fn descend(&mut self, stmt: Stmt)
        ensures
            final(self).wf(),
            final(self).state == old(self).state,
            final(self).status == old(self).status,
            final(self).capture == old(self).capture,
            final(self).load() == frames_leaves(frames_view(old(self).frames@)) + leaves(stmt@),
            forall|replies: Seq<ReplyV>| #[trigger]
                final(self).outcome(replies) == unwind(
                    frames_view(old(self).frames@),
                    eval(stmt@, old(self).state@, old(self).status, old(self).capture, replies),
                    old(self).capture,
                ),
        decreases stmt,
    {
        let ghost start = *self;
        let ghost fv = frames_view(self.frames@);
        match stmt {
            Stmt::Cmd(c) => {
                let mut cmds: Vec<Command> = Vec::new();
                cmds.push(c);
                let caps: Vec<String> = Vec::new();
                assert(commands_view(cmds@) =~= seq![c@]);
                assert(strings(caps@) =~= Seq::<Seq<char>>::empty());
                self.focus = Focus::Leaf { cmds, piped: false, caps };
            },
            Stmt::Pipe(cmds) => {
                let caps: Vec<String> = Vec::new();
                assert(strings(caps@) =~= Seq::<Seq<char>>::empty());
                self.focus = Focus::Leaf { cmds, piped: true, caps };
            },
            Stmt::Sequence(l, r) => {
                let f = Frame::Always(*r);
                self.frames.push(f);
                assert(frames_view(self.frames@) =~= fv.push(f@));
                assert(fv.push(f@).drop_last() =~= fv);
                self.descend(*l);
                proof {
                    lemma_frame(fv, f@, start.state@, start.status, start.capture, l@);
                }
            },
            Stmt::AndIf(l, r) => {
                let f = Frame::IfOk(*r);
                self.frames.push(f);
                assert(frames_view(self.frames@) =~= fv.push(f@));
                assert(fv.push(f@).drop_last() =~= fv);
                self.descend(*l);
                proof {
                    lemma_frame(fv, f@, start.state@, start.status, start.capture, l@);
                }
            },
            Stmt::OrIf(l, r) => {
                let f = Frame::IfFailed(*r);
                self.frames.push(f);
                assert(frames_view(self.frames@) =~= fv.push(f@));
                assert(fv.push(f@).drop_last() =~= fv);
                self.descend(*l);
                proof {
                    lemma_frame(fv, f@, start.state@, start.status, start.capture, l@);
                }
            },
        }
    }

    /// Goes on with what follows, once a statement is over.
    fn resume(&mut self)
        requires
            old(self).focus is Done,
        ensures
            final(self).wf(),
            final(self).capture == old(self).capture,
            final(self).load() <= frames_leaves(frames_view(old(self).frames@)),
            forall|replies: Seq<ReplyV>| #[trigger]
                final(self).outcome(replies) == unwind(
                    frames_view(old(self).frames@),
                    OutcomeV::Done(old(self).state@, old(self).status, replies),
                    old(self).capture,
                ),
        decreases old(self).frames.len(),
    {
        let ghost fv = frames_view(self.frames@);
        match self.frames.pop() {
            None => {},
            Some(f) => {
                assert(fv.last() == f@);
                assert(frames_view(self.frames@) =~= fv.drop_last());
                match f {
                    Frame::Always(s) => {
                        self.descend(s);
                    },
                    Frame::IfOk(s) => {
                        if self.status == 0 {
                            self.descend(s);
                        } else {
                            self.resume();
                        }
                    },
                    Frame::IfFailed(s) => {
                        if self.status != 0 {
                            self.descend(s);
                        } else {
                            self.resume();
                        }
                    },
                }
            },
        }
    }

    fn settle(&mut self, state: State, code: i32)
        ensures
            final(self).wf(),
            final(self).capture == old(self).capture,
            final(self).load() <= frames_leaves(frames_view(old(self).frames@)),
            forall|replies: Seq<ReplyV>| #[trigger]
                final(self).outcome(replies) == unwind(
                    frames_view(old(self).frames@),
                    OutcomeV::Done(state@, code, replies),
                    old(self).capture,
                ),
    {
        self.state = state;
        self.status = code;
        self.focus = Focus::Done;
        self.resume();
    }

    /// Starts a line in `state`, after exit code `status`. With `capture`, no command runs in a
    /// terminal.
    pub fn new(state: State, status: i32, line: &str, capture: bool) -> (r: Evaluator)
        ensures
            r.wf(),
            forall|replies: Seq<ReplyV>| #[trigger]
                r.outcome(replies) == eval_line(line@, state@, status, capture, replies),
    {
        let frames: Vec<Frame> = Vec::new();
        assert(frames_view(frames@) =~= Seq::<FrameV>::empty());
        match parse(line) {
            Err(e) => Evaluator {
                state,
                status,
                capture,
                frames,
                focus: Focus::Failed(EvalError::Parse(e)),
            },
            Ok(None) => Evaluator { state, status: 0, capture, frames, focus: Focus::Done },
            Ok(Some(stmt)) => {
                let mut r = Evaluator { state, status, capture, frames, focus: Focus::Done };
                r.descend(stmt);
                r
            },
        }
    }

    fn advance(&mut self) -> (r: Option<Action>)
        requires
            old(self).wf(),
        ensures
            final(self).wf(),
            forall|replies: Seq<ReplyV>| #[trigger]
                final(self).outcome(replies) == old(self).outcome(replies),
            match r {
                Some(a) => final(self).asks(a@),
                None => !(final(self).focus is Leaf),
            },
    {
        loop
            invariant
                self.wf(),
                forall|replies: Seq<ReplyV>| #[trigger]
                    self.outcome(replies) == old(self).outcome(replies),
            decreases self.load(),
        {
            let ghost start = *self;
            let plan = match &self.focus {
                Focus::Leaf { cmds, piped, caps } => {
                    let words = words_of(cmds);
                    let srcs = sources(&words);
                    let ghost cv = commands_view(cmds@);
                    assert(strings(srcs@).len() == srcs.len());
                    if caps.len() < srcs.len() {
                        assert(strings(srcs@)[caps.len() as int] == srcs@[caps.len() as int]@);
                        assert(strings(caps@).len() == caps.len());
                        return Some(
                            Action::Substitute {
                                source: srcs[caps.len()].clone(),
                                state: self.state.clone(),
                                status: self.status,
                            },
                        );
                    }
                    let texts = expand_words(&words, &self.state, self.status, caps);
                    proof {
                        lemma_expand_all_len(
                            leaf_words(cv),
                            self.state@.env,
                            self.status,
                            strings(caps@),
                        );
                        assert(strings(texts@).len() == texts.len());
                    }
                    plan_leaf(cmds, *piped, &texts, &self.state, self.capture)
                },
                _ => {
                    return None;
                },
            };
            match plan {
                Plan::Finish(state, code) => {
                    self.settle(state, code);
                    assert forall|replies: Seq<ReplyV>| #[trigger]
                        self.outcome(replies) == start.outcome(replies) by {}
                },
                Plan::Refuse(e) => {
                    self.focus = Focus::Failed(e);
                    assert forall|replies: Seq<ReplyV>| #[trigger]
                        self.outcome(replies) == start.outcome(replies) by {
                        lemma_unwind_stops(frames_view(start.frames@), start.capture);
                    }
                    return None;
                },
                Plan::Ask(a) => {
                    return Some(a);
                },
            }
        }
    }

    /// The command or pipeline at hand needs the action `a`.
    spec fn asks(&self, a: ActionV) -> bool {
        match self.focus {
            Focus::Leaf { cmds, piped, caps } => {
                let cv = commands_view(cmds@);
                let srcs = subs(leaf_words(cv));
                if caps.len() < srcs.len() {
                    a == (ActionV::Substitute {
                        source: srcs[caps.len() as int],
                        state: self.state@,
                        status: self.status,
                    })
                } else {
                    let texts = expand_all(
                        leaf_words(cv),
                        self.state@.env,
                        self.status,
                        strings(caps@),
                    );
                    leaf_plan(cv, piped, texts, self.state@, self.capture) == PlanV::Ask(a)
                }
            },
            _ => false,
        }
    }

    proof fn lemma_asks(&self, a: ActionV)
        requires
            self.asks(a),
        ensures
            self.outcome(Seq::empty()) == OutcomeV::Stuck(a),
    {
        lemma_unwind_stops(frames_view(self.frames@), self.capture);
    }

    /// What the evaluator wants next. Asking again changes nothing.
    pub fn next(&mut self) -> (r: Step)
        requires
            old(self).wf(),
        ensures
            final(self).wf(),
            forall|replies: Seq<ReplyV>| #[trigger]
                final(self).outcome(replies) == old(self).outcome(replies),
            match r {
                Step::Ask(a) => old(self).outcome(Seq::empty()) == OutcomeV::Stuck(a@),
                Step::Done(s, code) => forall|replies: Seq<ReplyV>| #[trigger]
                    old(self).outcome(replies) == OutcomeV::Done(s@, code, replies),
                Step::Failed(e) => forall|replies: Seq<ReplyV>| #[trigger]
                    old(self).outcome(replies) == OutcomeV::Fail(e@),
            },
    {
        match self.advance() {
            Some(a) => {
                proof {
                    self.lemma_asks(a@);
                    assert(self.outcome(Seq::empty()) == old(self).outcome(Seq::empty()));
                }
                Step::Ask(a)
            },
            None => match &self.focus {
                Focus::Failed(e) => {
                    let e = e.clone();
                    assert forall|replies: Seq<ReplyV>| #[trigger]
                        old(self).outcome(replies) == OutcomeV::Fail(e@) by {
                        assert(self.outcome(replies) == old(self).outcome(replies));
                    }
                    Step::Failed(e)
                },
                _ => {
                    let s = self.state.clone();
                    assert forall|replies: Seq<ReplyV>| #[trigger]
                        old(self).outcome(replies) == OutcomeV::Done(
                            s@,
                            self.status,
                            replies,
                        ) by {
                        assert(self.outcome(replies) == old(self).outcome(replies));
                    }
                    Step::Done(s, self.status)
                },
            },
        }
    }

    fn fail(&mut self, e: EvalError)
        ensures
            final(self).wf(),
            forall|replies: Seq<ReplyV>| #[trigger]
                final(self).outcome(replies) == OutcomeV::Fail(e@),
    {
        self.focus = Focus::Failed(e);
    }

    /// Goes on with the reply to the action that the evaluator asked for.
    pub fn reply(&mut self, reply: Reply)
        requires
            old(self).wf(),
            old(self).outcome(Seq::empty()) is Stuck,
        ensures
            final(self).wf(),
            forall|replies: Seq<ReplyV>| #[trigger]
                final(self).outcome(replies) == old(self).outcome(seq![reply@] + replies),
    {
        let asked = self.advance();
        let ghost at = *self;
        let ghost rv = reply@;
        let ghost fv = frames_view(self.frames@);
        assert(self.outcome(Seq::empty()) == old(self).outcome(Seq::empty()));
        let a = match asked {
            Some(a) => a,
            None => {
                assert(false);
                return;
            },
        };
        let ghost av = a@;
        assert forall|replies: Seq<ReplyV>| #[trigger]
            old(self).outcome(seq![rv] + replies) == at.after(av, rv, replies) by {
            assert(at.outcome(seq![rv] + replies) == old(self).outcome(seq![rv] + replies));
            at.lemma_after(av, rv, replies);
        }
        proof {
            lemma_unwind_stops(fv, self.capture);
            at.lemma_after(av, rv, Seq::empty());
        }
        if let Reply::Captured(t) = reply {
            if let Action::Substitute { .. } = a {
                self.take_capture(t);
            } else {
                self.fail(EvalError::Mismatch);
            }
        } else {
            match conclusion(a, reply, &self.state) {
                Conclusion::Done(s, n) => {
                    self.settle(s, n);
                },
                Conclusion::Fail(e) => {
                    self.fail(e);
                },
            }
        }
    }

    fn take_capture(&mut self, t: String)
        requires
            old(self).asks_substitute(),
        ensures
            final(self).wf(),
            forall|replies: Seq<ReplyV>| #[trigger]
                final(self).outcome(replies) == old(self).after_capture(t@, replies),
    {
        match &mut self.focus {
            Focus::Leaf { cmds, piped, caps } => {
                let ghost before = strings(caps@);
                caps.push(t);
                assert(strings(caps@) =~= before.push(t@));
            },
            _ => {},
        }
    }

    spec fn asks_substitute(&self) -> bool {
        match self.focus {
            Focus::Leaf { cmds, piped, caps } => caps.len() < subs(
                leaf_words(commands_view(cmds@)),
            ).len(),
            _ => false,
        }
    }

    spec fn after_capture(&self, t: Seq<char>, replies: Seq<ReplyV>) -> OutcomeV {
        match self.focus {
            Focus::Leaf { cmds, piped, caps } => unwind(
                frames_view(self.frames@),
                leaf_run(
                    commands_view(cmds@),
                    piped,
                    strings(caps@).push(t),
                    self.state@,
                    self.status,
                    self.capture,
                    replies,
                ),
                self.capture,
            ),
            _ => self.outcome(replies),
        }
    }

    /// What comes of the reply `r` to the action `a`.
    spec fn after(&self, a: ActionV, r: ReplyV, replies: Seq<ReplyV>) -> OutcomeV {
        match (a, r) {
            (ActionV::Substitute { .. }, ReplyV::Captured(t)) => self.after_capture(t, replies),
            _ => unwind(
                frames_view(self.frames@),
                conclude(a, self.state@, r, replies),
                self.capture,
            ),
        }
    }

    proof fn lemma_after(&self, a: ActionV, r: ReplyV, replies: Seq<ReplyV>)
        requires
            self.asks(a),
        ensures
            self.outcome(seq![r] + replies) == self.after(a, r, replies),
            a is Substitute ==> self.asks_substitute(),
    {
        let rs = seq![r] + replies;
        assert(rs[0] == r);
        assert(rs.drop_first() =~= replies);
        match self.focus {
            Focus::Leaf { cmds, piped, caps } => {
                let cv = commands_view(cmds@);
                let srcs = subs(leaf_words(cv));
                assert(strings(caps@).len() == caps.len());
                if caps.len() >= srcs.len() {
                    lemma_plan_is_no_substitution(
                        cv,
                        piped,
                        expand_all(leaf_words(cv), self.state@.env, self.status, strings(caps@)),
                        self.state@,
                        self.capture,
                    );
                }
            },
            _ => {},
        }
    }
}

enum Conclusion {
    Done(State, i32),
    Fail(EvalError),
}

/// What an action comes to on a reply that is no captured output.
fn conclusion(a: Action, reply: Reply, st: &State) -> (r: Conclusion)
    requires
        !(reply is Captured),
    ensures
        forall|rest: Seq<ReplyV>| #[trigger]
            conclude(a@, st@, reply@, rest) == match r {
                Conclusion::Done(s, n) => OutcomeV::Done(s@, n, rest),
                Conclusion::Fail(e) => OutcomeV::Fail(e@),
            },
{
    match reply {
        Reply::Failed(m) => match a {
            Action::Canonicalize { target } => Conclusion::Fail(
                EvalError::Cd { target, reason: m },
            ),
            _ => Conclusion::Fail(EvalError::Outside(m)),
        },
        Reply::Captured(_) => Conclusion::Fail(EvalError::Mismatch),
        Reply::Resolved(dir) => match a {
            Action::Canonicalize { .. } => {
                let mut s = st.clone();
                s.set_var("PWD", dir.clone());
                s.cwd = dir;
                assert(s@ =~= moved(st@, dir@));
                Conclusion::Done(s, 0)
            },
            _ => Conclusion::Fail(EvalError::Mismatch),
        },
        Reply::Exited(n) => match a {
            Action::Spawn { .. } => Conclusion::Done(st.clone(), n),
            Action::Pty { .. } => Conclusion::Done(st.clone(), n),
            Action::Pipeline { .. } => Conclusion::Done(st.clone(), n),
            _ => Conclusion::Fail(EvalError::Mismatch),
        },
        Reply::Ready => match a {
            Action::Open { fd, op, .. } => Conclusion::Fail(EvalError::Unsupported { fd, op }),
            Action::Start { .. } => Conclusion::Fail(EvalError::EmptyStage),
            _ => Conclusion::Fail(EvalError::Mismatch),
        },
    }
}

proof fn lemma_plan_is_no_substitution(
    cs: Seq<CommandV>,
    piped: bool,
    texts: Seq<Seq<char>>,
    st: StateV,
    capture: bool,
)
    ensures
        leaf_plan(cs, piped, texts, st, capture) matches PlanV::Ask(a) ==> !(a is Substitute),
{
    lemma_stages_ask(cs, texts, st, 0, 0, Seq::empty());
}

proof fn lemma_unwind_stops(frames: Seq<FrameV>, capture: bool)
    ensures
        forall|a: ActionV| #[trigger]
            unwind(frames, OutcomeV::Stuck(a), capture) == OutcomeV::Stuck(a),
        forall|e: EvalErrorV| #[trigger]
            unwind(frames, OutcomeV::Fail(e), capture) == OutcomeV::Fail(e),
{
}

/// A frame pushed for the second half of a statement is that statement.
proof fn lemma_frame(
    frames: Seq<FrameV>,
    f: FrameV,
    st: StateV,
    status: i32,
    capture: bool,
    l: StmtV,
)
    ensures
        forall|replies: Seq<ReplyV>|
            unwind(
                frames.push(f),
                #[trigger] eval(l, st, status, capture, replies),
                capture,
            ) == unwind(
                frames,
                eval(
                    match f {
                        FrameV::Always(r) => StmtV::Sequence(Box::new(l), Box::new(r)),
                        FrameV::IfOk(r) => StmtV::AndIf(Box::new(l), Box::new(r)),
                        FrameV::IfFailed(r) => StmtV::OrIf(Box::new(l), Box::new(r)),
                    },
                    st,
                    status,
                    capture,
                    replies,
                ),
                capture,
            ),
{
    assert(frames.push(f).drop_last() =~= frames);
    assert(frames.push(f).last() == f);
    lemma_unwind_stops(frames, capture);
    lemma_unwind_stops(frames.push(f), capture);
}

} // verus!
