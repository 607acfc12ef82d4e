//! The course of a cockpit session: what it needs next, by what came of what it needed last.

use vstd::prelude::*;

use crate::client::{
    branch_is_tty, branch_tip_state, find_branch, gone_text, lookup, needs_no_check,
    resolve_current_branch, Cursor,
};
use crate::cockpit::{
    classify, error_text, feed_step, finish, finish_prints, greeting, help_text, line_kind, prompt,
    prompt_text, push_print, runs_detached, say_error, Feed, FeedV, Line, LineV, Meta, MetaV,
};
use crate::eval::is_pure_builtin_line;
use crate::render::{
    branch_lines, branches_can_show, can_list, can_show_tree, prints_view, render_branches,
    render_tree, tree_can_show, tree_text, Print, PrintV,
};
use crate::text::{number, opt_text, read_u64, str_eq};
use crate::tree::{CellId, DEFAULT_BRANCH};
use crate::wire::{
    branches_view, BranchSnapshot, BranchSnapshotV, CellEvent, CellEventV, CellSnapshot,
    CellSnapshotV, TreeSnapshot,
};

verus! {

/// What a session is in the middle of.
#[derive(Debug)]
pub enum Phase {
    /// Finding where to start: on the branch or at the cell named, or on the current branch.
    Entering(Option<String>),
    /// Looking up the cell that was named in the place of a branch.
    Reaching(CellId),
    /// Following the cell that was named; then it is over.
    FollowingCell,
    /// Subscribing to events.
    Opening,
    /// Looking whether the tip is running.
    Looking,
    /// Following a tip that is running.
    FollowingTip,
    /// Waiting for a line at the prompt.
    AtPrompt,
    /// Looking how to run a command.
    Asking(String),
    /// Starting a command in the background.
    Launching,
    /// Following a command that was started here.
    FollowingOwn,
    /// Running a command inline.
    Streaming,
    /// Listing the branches.
    Listing,
    /// Showing the tree.
    ShowingTree,
    /// Switching to a branch.
    Switching(String),
    /// Nothing: it is over.
    Over,
}

/// What a session is in the middle of.
pub enum PhaseV {
    Entering(Option<Seq<char>>),
    Reaching(CellId),
    FollowingCell,
    Opening,
    Looking,
    FollowingTip,
    AtPrompt,
    Asking(Seq<char>),
    Launching,
    FollowingOwn,
    Streaming,
    Listing,
    ShowingTree,
    Switching(Seq<char>),
    Over,
}

impl View for Phase {
    type V = PhaseV;

    open spec fn view(&self) -> PhaseV {
        match self {
            Phase::Entering(t) => PhaseV::Entering(opt_text(*t)),
            Phase::Reaching(id) => PhaseV::Reaching(*id),
            Phase::FollowingCell => PhaseV::FollowingCell,
            Phase::Opening => PhaseV::Opening,
            Phase::Looking => PhaseV::Looking,
            Phase::FollowingTip => PhaseV::FollowingTip,
            Phase::AtPrompt => PhaseV::AtPrompt,
            Phase::Asking(s) => PhaseV::Asking(s@),
            Phase::Launching => PhaseV::Launching,
            Phase::FollowingOwn => PhaseV::FollowingOwn,
            Phase::Streaming => PhaseV::Streaming,
            Phase::Listing => PhaseV::Listing,
            Phase::ShowingTree => PhaseV::ShowingTree,
            Phase::Switching(n) => PhaseV::Switching(n@),
            Phase::Over => PhaseV::Over,
        }
    }
}

/// A cockpit session.
#[derive(Debug)]
pub struct Cockpit {
    branch: String,
    feed: Feed,
    at_prompt: bool,
    phase: Phase,
}

/// A cockpit session.
pub struct CockpitV {
    pub branch: Seq<char>,
    pub feed: FeedV,
    pub at_prompt: bool,
    pub phase: PhaseV,
}

impl View for Cockpit {
    type V = CockpitV;

    closed spec fn view(&self) -> CockpitV {
        CockpitV {
            branch: self.branch@,
            feed: self.feed@,
            at_prompt: self.at_prompt,
            phase: self.phase@,
        }
    }
}

/// What a session needs.
#[derive(Debug)]
pub enum Need {
    /// The branches.
    Branches,
    /// A cell.
    Cell(CellId),
    /// A subscription to the events.
    Events,
    /// The cell to be followed until it ends or the user leaves.
    Follow(CellId),
    /// A line of input, or an event.
    Input,
    /// The command to be started in the background on the branch.
    Launch { branch: String, source: String },
    /// The command to be run on the branch.
    Stream { branch: String, source: String },
    /// The tree.
    Tree,
    /// Nothing: it is over, with this error if there is one.
    Stop(Option<String>),
}

/// What a session needs.
pub enum NeedV {
    Branches,
    Cell(CellId),
    Events,
    Follow(CellId),
    Input,
    Launch { branch: Seq<char>, source: Seq<char> },
    Stream { branch: Seq<char>, source: Seq<char> },
    Tree,
    Stop(Option<Seq<char>>),
}

impl View for Need {
    type V = NeedV;

    open spec fn view(&self) -> NeedV {
        match self {
            Need::Branches => NeedV::Branches,
            Need::Cell(id) => NeedV::Cell(*id),
            Need::Events => NeedV::Events,
            Need::Follow(id) => NeedV::Follow(*id),
            Need::Input => NeedV::Input,
            Need::Launch { branch, source } => NeedV::Launch { branch: branch@, source: source@ },
            Need::Stream { branch, source } => NeedV::Stream { branch: branch@, source: source@ },
            Need::Tree => NeedV::Tree,
            Need::Stop(m) => NeedV::Stop(opt_text(*m)),
        }
    }
}

/// What a session does next: it prints, it may name the current branch anew, and it needs
/// something.
#[derive(Debug)]
pub struct Turn {
    pub prints: Vec<Print>,
    pub cursor: Option<String>,
    pub need: Need,
}

/// What a session does next.
pub struct TurnV {
    pub prints: Seq<PrintV>,
    pub cursor: Option<Seq<char>>,
    pub need: NeedV,
}

impl View for Turn {
    type V = TurnV;

    open spec fn view(&self) -> TurnV {
        TurnV {
            prints: prints_view(self.prints@),
            cursor: opt_text(self.cursor),
            need: self.need@,
        }
    }
}

/// What came of what a session needed.
#[derive(Debug)]
pub enum News {
    Branches(Vec<BranchSnapshot>),
    Cell(CellSnapshot),
    Tree(TreeSnapshot),
    /// The subscription stands.
    Subscribed,
    /// Following a cell is over; `detached` if the user left it.
    Followed { detached: bool },
    /// A line of input; none if the input has closed.
    Line(Option<String>),
    Event(CellEvent),
    /// The command runs in the background as this cell.
    Launched(CellId),
    /// The command has run.
    Streamed(CellSnapshot),
    /// It failed, and this is why.
    Failed(String),
}

/// What came of what a session needed.
pub enum NewsV {
    Branches(Seq<BranchSnapshotV>),
    Cell(CellSnapshotV),
    Tree(Seq<CellSnapshotV>),
    Subscribed,
    Followed { detached: bool },
    Line(Option<Seq<char>>),
    Event(CellEventV),
    Launched(CellId),
    Streamed(CellSnapshotV),
    Failed(Seq<char>),
}

impl View for News {
    type V = NewsV;

    open spec fn view(&self) -> NewsV {
        match self {
            News::Branches(b) => NewsV::Branches(branches_view(b@)),
            News::Cell(c) => NewsV::Cell(c@),
            News::Tree(t) => NewsV::Tree(t@),
            News::Subscribed => NewsV::Subscribed,
            News::Followed { detached } => NewsV::Followed { detached: *detached },
            News::Line(l) => NewsV::Line(opt_text(*l)),
            News::Event(e) => NewsV::Event(e@),
            News::Launched(id) => NewsV::Launched(*id),
            News::Streamed(c) => NewsV::Streamed(c@),
            News::Failed(m) => NewsV::Failed(m@),
        }
    }
}

// ---------- The rules -------------------------------------------------------

/// No prints.
pub open spec fn quiet() -> Seq<PrintV> {
    Seq::empty()
}

/// One text to stdout.
pub open spec fn out(s: Seq<char>) -> Seq<PrintV> {
    seq![PrintV::Stdout(s)]
}

/// It is over.
pub open spec fn stopping(c: CockpitV, error: Option<Seq<char>>) -> (CockpitV, TurnV) {
    (
        CockpitV { phase: PhaseV::Over, ..c },
        TurnV { prints: quiet(), cursor: None, need: NeedV::Stop(error) },
    )
}

/// It prints, and looks whether the tip is running.
pub open spec fn looking(c: CockpitV, prints: Seq<PrintV>) -> (CockpitV, TurnV) {
    (
        CockpitV { phase: PhaseV::Looking, ..c },
        TurnV { prints, cursor: None, need: NeedV::Branches },
    )
}

/// It needs something, and prints nothing.
pub open spec fn needing(c: CockpitV, phase: PhaseV, need: NeedV) -> (CockpitV, TurnV) {
    (CockpitV { phase, ..c }, TurnV { prints: quiet(), cursor: None, need })
}

/// It starts on `branch`, which is the current one from now on.
pub open spec fn starting(c: CockpitV, branch: Seq<char>, before: Seq<PrintV>) -> (
    CockpitV,
    TurnV,
) {
    (
        CockpitV { branch, phase: PhaseV::Opening, ..c },
        TurnV {
            prints: before.push(PrintV::Stdout(greeting(branch))),
            cursor: Some(branch),
            need: NeedV::Events,
        },
    )
}

/// How a session starts: on the branch named, or at the cell of that number, which must exist; or
/// on the current branch, which the default branch stands in for where it is gone.
pub open spec fn entered(target: Option<Seq<char>>, current: Seq<char>) -> (CockpitV, TurnV) {
    let c = CockpitV {
        branch: current,
        feed: (FeedV { mine: Set::empty(), foreign: Set::empty(), at_line_start: true }),
        at_prompt: false,
        phase: PhaseV::Entering(target),
    };
    if target is None && current == DEFAULT_BRANCH@ {
        starting(c, current, quiet())
    } else {
        (c, TurnV { prints: quiet(), cursor: None, need: NeedV::Branches })
    }
}

/// What a line typed at the prompt comes to.
pub open spec fn on_line(c: CockpitV, line: LineV) -> (CockpitV, TurnV) {
    match line {
        LineV::Blank => looking(c, quiet()),
        LineV::Command(t) => needing(c, PhaseV::Asking(t), NeedV::Branches),
        LineV::Meta(MetaV::Quit) => stopping(c, None),
        LineV::Meta(MetaV::Help) => looking(c, out(help_text())),
        LineV::Meta(MetaV::At) => looking(c, out("on branch '"@ + c.branch + "'\n"@)),
        LineV::Meta(MetaV::Branches) => needing(c, PhaseV::Listing, NeedV::Branches),
        LineV::Meta(MetaV::Tree) => needing(c, PhaseV::ShowingTree, NeedV::Tree),
        LineV::Meta(MetaV::Switch(None)) => looking(
            c,
            out(error_text(":switch needs a branch name"@)),
        ),
        LineV::Meta(MetaV::Switch(Some(n))) => needing(
            c,
            PhaseV::Switching(n),
            NeedV::Branches,
        ),
        LineV::Meta(MetaV::Unknown(w)) => looking(
            c,
            out(error_text("unknown command :"@ + w + " (try :help)"@)),
        ),
    }
}

/// What an event comes to at the prompt: once the cells of others are done, the prompt comes
/// back.
pub open spec fn on_event(c: CockpitV, e: CellEventV) -> (CockpitV, TurnV) {
    let (feed, prints) = feed_step(c.feed, c.branch, e, c.at_prompt);
    let there = c.at_prompt && prints.len() == 0;
    if !there && feed.foreign.len() == 0 {
        (
            CockpitV { feed, at_prompt: true, ..c },
            TurnV {
                prints: prints.push(PrintV::Stdout(prompt_text(c.branch))),
                cursor: None,
                need: NeedV::Input,
            },
        )
    } else {
        (
            CockpitV { feed, at_prompt: there, ..c },
            TurnV { prints, cursor: None, need: NeedV::Input },
        )
    }
}

/// What the branches come to.
pub open spec fn on_branches(c: CockpitV, bs: Seq<BranchSnapshotV>) -> (CockpitV, TurnV) {
    match c.phase {
        PhaseV::Entering(Some(t)) => match find_branch(bs, t) {
            Some(_) => starting(c, t, quiet()),
            None => match number(t) {
                Some(id) => needing(c, PhaseV::Reaching(id), NeedV::Cell(id)),
                None => stopping(
                    c,
                    Some(
                        "no such branch '"@ + t + "' (create it with `fern branch new "@ + t + "`)"@,
                    ),
                ),
            },
        },
        PhaseV::Entering(None) => if c.branch == DEFAULT_BRANCH@ || find_branch(
            bs,
            c.branch,
        ) is Some {
            starting(c, c.branch, quiet())
        } else {
            starting(c, DEFAULT_BRANCH@, seq![PrintV::Stderr(gone_text(c.branch))])
        },
        PhaseV::Looking => match find_branch(bs, c.branch) {
            Some(b) if b.running => needing(c, PhaseV::FollowingTip, NeedV::Follow(b.tip)),
            _ => (
                CockpitV { phase: PhaseV::AtPrompt, at_prompt: true, ..c },
                TurnV {
                    prints: out(prompt_text(c.branch)),
                    cursor: None,
                    need: NeedV::Input,
                },
            ),
        },
        PhaseV::Asking(t) => if runs_detached(
            find_branch(bs, c.branch) matches Some(b) && b.tty,
            t,
        ) {
            needing(c, PhaseV::Launching, NeedV::Launch { branch: c.branch, source: t })
        } else {
            needing(c, PhaseV::Streaming, NeedV::Stream { branch: c.branch, source: t })
        },
        PhaseV::Listing => looking(c, out(branch_lines(bs, c.branch))),
        PhaseV::Switching(n) => match find_branch(bs, n) {
            None => looking(c, out(error_text("no such branch '"@ + n + "'"@))),
            Some(_) => (
                CockpitV {
                    branch: n,
                    feed: if n == c.branch {
                        c.feed
                    } else {
                        FeedV { foreign: Set::empty(), ..c.feed }
                    },
                    phase: PhaseV::Looking,
                    ..c
                },
                TurnV {
                    prints: out("switched to '"@ + n + "'\n"@),
                    cursor: Some(n),
                    need: NeedV::Branches,
                },
            ),
        },
        _ => stopping(c, Some("unexpected reply"@)),
    }
}

/// What a failure comes to: what concerns one command is shown, all else ends the session.
pub open spec fn on_failure(c: CockpitV, m: Seq<char>) -> (CockpitV, TurnV) {
    match c.phase {
        PhaseV::Launching | PhaseV::FollowingOwn | PhaseV::Streaming | PhaseV::Listing
        | PhaseV::ShowingTree | PhaseV::Switching(_) => looking(c, out(error_text(m))),
        _ => stopping(c, Some(m)),
    }
}

/// What a session does next.
pub open spec fn turn(c: CockpitV, news: NewsV) -> (CockpitV, TurnV) {
    match (c.phase, news) {
        (_, NewsV::Failed(m)) => on_failure(c, m),
        (_, NewsV::Branches(bs)) => on_branches(c, bs),
        (PhaseV::Reaching(id), NewsV::Cell(_)) => needing(
            c,
            PhaseV::FollowingCell,
            NeedV::Follow(id),
        ),
        (PhaseV::FollowingCell, NewsV::Followed { .. }) => stopping(c, None),
        (PhaseV::Opening, NewsV::Subscribed) => looking(c, quiet()),
        (PhaseV::FollowingTip, NewsV::Followed { detached }) => if detached {
            stopping(c, None)
        } else {
            looking(c, quiet())
        },
        (PhaseV::FollowingOwn, NewsV::Followed { detached }) => if detached {
            stopping(c, None)
        } else {
            looking(c, quiet())
        },
        (PhaseV::AtPrompt, NewsV::Event(e)) => on_event(c, e),
        (PhaseV::AtPrompt, NewsV::Line(None)) => stopping(c, None),
        (PhaseV::AtPrompt, NewsV::Line(Some(l))) => on_line(c, line_kind(l)),
        (PhaseV::Launching, NewsV::Launched(id)) => needing(
            CockpitV { feed: FeedV { mine: c.feed.mine.insert(id), ..c.feed }, ..c },
            PhaseV::FollowingOwn,
            NeedV::Follow(id),
        ),
        (PhaseV::Streaming, NewsV::Streamed(s)) => looking(
            CockpitV { feed: FeedV { mine: c.feed.mine.insert(s.id), ..c.feed }, ..c },
            finish_prints(s),
        ),
        (PhaseV::ShowingTree, NewsV::Tree(t)) => looking(c, out(tree_text(t))),
        _ => stopping(c, Some("unexpected reply"@)),
    }
}

/// The news can be shown where the session shows it: the branches where they are listed, the tree
/// where it is asked for. Elsewhere nothing is shown of them.
pub open spec fn news_can_show(c: CockpitV, news: NewsV) -> bool {
    match (c.phase, news) {
        (PhaseV::Listing, NewsV::Branches(bs)) => branches_can_show(bs),
        (PhaseV::ShowingTree, NewsV::Tree(t)) => tree_can_show(t),
        _ => true,
    }
}

// ---------- At work ---------------------------------------------------------

fn no_prints() -> (r: Vec<Print>)
    ensures
        prints_view(r@) == quiet(),
{
    let v: Vec<Print> = Vec::new();
    assert(prints_view(v@) =~= quiet());
    v
}

fn print_out(s: String) -> (r: Vec<Print>)
    ensures
        prints_view(r@) == out(s@),
{
    let mut v = no_prints();
    push_print(&mut v, Print::Stdout(s));
    assert(prints_view(v@) =~= out(s@));
    v
}

fn print_error(m: &str) -> (r: Vec<Print>)
    ensures
        prints_view(r@) == out(error_text(m@)),
{
    let mut v = no_prints();
    push_print(&mut v, say_error(m));
    assert(prints_view(v@) =~= out(error_text(m@)));
    v
}

fn say(a: &str, b: &str, c: &str) -> (r: String)
    ensures
        r@ == a@ + b@ + c@,
{
    let mut s = a.to_owned();
    s.append(b);
    s.append(c);
    s
}

impl Cockpit {
    fn stop(&mut self, error: Option<String>) -> (r: Turn)
        ensures
            (final(self)@, r@) == stopping(old(self)@, opt_text(error)),
    {
        self.phase = Phase::Over;
        Turn { prints: no_prints(), cursor: None, need: Need::Stop(error) }
    }

    fn look(&mut self, prints: Vec<Print>) -> (r: Turn)
        ensures
            (final(self)@, r@) == looking(old(self)@, prints_view(prints@)),
    {
        self.phase = Phase::Looking;
        Turn { prints, cursor: None, need: Need::Branches }
    }

    fn go_on(&mut self, phase: Phase, need: Need) -> (r: Turn)
        ensures
            (final(self)@, r@) == needing(old(self)@, phase@, need@),
    {
        self.phase = phase;
        Turn { prints: no_prints(), cursor: None, need }
    }

    fn start(&mut self, branch: String, before: Vec<Print>) -> (r: Turn)
        ensures
            (final(self)@, r@) == starting(old(self)@, branch@, prints_view(before@)),
    {
        let mut prints = before;
        push_print(
            &mut prints,
            Print::Stdout(
                say(
                    "fern — attached to '",
                    branch.as_str(),
                    "'. :help for commands, :quit to leave.\n",
                ),
            ),
        );
        let cursor = branch.clone();
        self.branch = branch;
        self.phase = Phase::Opening;
        Turn { prints, cursor: Some(cursor), need: Need::Events }
    }

    /// Starts a session: on the branch or at the cell named, or on the current branch.
    pub fn enter(target: Option<String>, current: String) -> (r: (Cockpit, Turn))
        ensures
            (r.0@, r.1@) == entered(opt_text(target), current@),
    {
        let ghost t = opt_text(target);
        let known = target.is_none() && needs_no_check(current.as_str());
        let branch = current.clone();
        let mut c = Cockpit {
            branch: current,
            feed: Feed::new(),
            at_prompt: false,
            phase: Phase::Entering(target),
        };
        if known {
            let turn = c.start(branch, no_prints());
            (c, turn)
        } else {
            let turn = Turn { prints: no_prints(), cursor: None, need: Need::Branches };
            (c, turn)
        }
    }

    fn take_line(&mut self, line: Line) -> (r: Turn)
        ensures
            (final(self)@, r@) == on_line(old(self)@, line@),
    {
        match line {
            Line::Blank => self.look(no_prints()),
            Line::Command(t) => self.go_on(Phase::Asking(t), Need::Branches),
            Line::Meta(m) => match m {
                Meta::Quit => self.stop(None),
                Meta::Help => self.look(
                    print_out(
                        ":branches          list branches\n:switch <name>     switch the current branch\n:tree              show the cell tree\n:at                show the current branch\n:quit / :q         leave the cockpit\n".to_owned(),
                    ),
                ),
                Meta::At => {
                    let s = say("on branch '", self.branch.as_str(), "'\n");
                    self.look(print_out(s))
                },
                Meta::Branches => self.go_on(Phase::Listing, Need::Branches),
                Meta::Tree => self.go_on(Phase::ShowingTree, Need::Tree),
                Meta::Switch(None) => self.look(print_error(":switch needs a branch name")),
                Meta::Switch(Some(n)) => self.go_on(Phase::Switching(n), Need::Branches),
                Meta::Unknown(w) => {
                    let s = say("unknown command :", w.as_str(), " (try :help)");
                    self.look(print_error(s.as_str()))
                },
            },
        }
    }

    fn take_event(&mut self, e: CellEvent) -> (r: Turn)
        ensures
            (final(self)@, r@) == on_event(old(self)@, e@),
    {
        let mut prints = self.feed.render(self.branch.as_str(), e, self.at_prompt);
        assert(prints_view(prints@).len() == prints.len());
        let there = self.at_prompt && prints.len() == 0;
        if !there && self.feed.is_quiet() {
            push_print(&mut prints, prompt(self.branch.as_str()));
            self.at_prompt = true;
        } else {
            self.at_prompt = there;
        }
        Turn { prints, cursor: None, need: Need::Input }
    }

    fn take_branches(&mut self, bs: Vec<BranchSnapshot>) -> (r: Turn)
        requires
            old(self)@.phase is Listing ==> branches_can_show(branches_view(bs@)),
        ensures
            (final(self)@, r@) == on_branches(old(self)@, branches_view(bs@)),
    {
        let mut phase = Phase::Over;
        core::mem::swap(&mut phase, &mut self.phase);
        match phase {
            Phase::Entering(Some(t)) => {
                if lookup(&bs, t.as_str()).is_some() {
                    self.start(t, no_prints())
                } else if let Some(id) = read_u64(t.as_str()) {
                    self.go_on(Phase::Reaching(id), Need::Cell(id))
                } else {
                    let mut s = say("no such branch '", t.as_str(), "' (create it with `fern branch new ");
                    s.append(t.as_str());
                    s.append("`)");
                    self.stop(Some(s))
                }
            },
            Phase::Entering(None) => match resolve_current_branch(self.branch.as_str(), &bs) {
                Cursor::On(n) => self.start(n, no_prints()),
                Cursor::Healed(m) => {
                    let mut prints = no_prints();
                    push_print(&mut prints, Print::Stderr(m));
                    assert(prints_view(prints@) =~= seq![PrintV::Stderr(m@)]);
                    self.start(DEFAULT_BRANCH.to_owned(), prints)
                },
            },
            Phase::Looking => match branch_tip_state(&bs, self.branch.as_str()) {
                Some((tip, true)) => self.go_on(Phase::FollowingTip, Need::Follow(tip)),
                _ => {
                    self.phase = Phase::AtPrompt;
                    self.at_prompt = true;
                    let mut prints = no_prints();
                    push_print(&mut prints, prompt(self.branch.as_str()));
                    assert(prints_view(prints@) =~= out(prompt_text(self.branch@)));
                    Turn { prints, cursor: None, need: Need::Input }
                },
            },
            Phase::Asking(t) => {
                let branch = self.branch.clone();
                if branch_is_tty(&bs, branch.as_str()) && !is_pure_builtin_line(t.as_str()) {
                    self.go_on(Phase::Launching, Need::Launch { branch, source: t })
                } else {
                    self.go_on(Phase::Streaming, Need::Stream { branch, source: t })
                }
            },
            Phase::Listing => {
                let s = render_branches(&bs, self.branch.as_str());
                self.look(print_out(s))
            },
            Phase::Switching(n) => {
                if lookup(&bs, n.as_str()).is_none() {
                    let s = say("no such branch '", n.as_str(), "'");
                    self.look(print_error(s.as_str()))
                } else {
                    if !str_eq(n.as_str(), self.branch.as_str()) {
                        self.feed.forget();
                    }
                    let s = say("switched to '", n.as_str(), "'\n");
                    self.branch = n.clone();
                    self.phase = Phase::Looking;
                    Turn { prints: print_out(s), cursor: Some(n), need: Need::Branches }
                }
            },
            _ => self.stop(Some("unexpected reply".to_owned())),
        }
    }

    fn take_failure(&mut self, m: String) -> (r: Turn)
        ensures
            (final(self)@, r@) == on_failure(old(self)@, m@),
    {
        let shown = match self.phase {
            Phase::Launching => true,
            Phase::FollowingOwn => true,
            Phase::Streaming => true,
            Phase::Listing => true,
            Phase::ShowingTree => true,
            Phase::Switching(_) => true,
            _ => false,
        };
        if shown {
            self.look(print_error(m.as_str()))
        } else {
            self.stop(Some(m))
        }
    }

    fn take_followed(&mut self, detached: bool) -> (r: Turn)
        ensures
            (final(self)@, r@) == turn(old(self)@, NewsV::Followed { detached }),
    {
        match self.phase {
            Phase::FollowingCell => self.stop(None),
            Phase::FollowingTip | Phase::FollowingOwn => if detached {
                self.stop(None)
            } else {
                self.look(no_prints())
            },
            _ => self.stop(Some("unexpected reply".to_owned())),
        }
    }

    /// Whether the news can be shown, where the session is to show it.
    pub fn can_take(&self, news: &News) -> (r: bool)
        ensures
            r == news_can_show(self@, news@),
    {
        match (&self.phase, news) {
            (Phase::Listing, News::Branches(bs)) => can_list(bs),
            (Phase::ShowingTree, News::Tree(t)) => can_show_tree(t),
            _ => true,
        }
    }

    /// Takes in what came of what the session needed, and goes on.
    pub fn take(&mut self, news: News) -> (r: Turn)
        requires
            news_can_show(old(self)@, news@),
        ensures
            (final(self)@, r@) == turn(old(self)@, news@),
    {
        match news {
            News::Failed(m) => self.take_failure(m),
            News::Branches(bs) => self.take_branches(bs),
            News::Followed { detached } => self.take_followed(detached),
            News::Cell(_) => match self.phase {
                Phase::Reaching(id) => self.go_on(Phase::FollowingCell, Need::Follow(id)),
                _ => self.stop(Some("unexpected reply".to_owned())),
            },
            News::Subscribed => match self.phase {
                Phase::Opening => self.look(no_prints()),
                _ => self.stop(Some("unexpected reply".to_owned())),
            },
            News::Event(e) => match self.phase {
                Phase::AtPrompt => self.take_event(e),
                _ => self.stop(Some("unexpected reply".to_owned())),
            },
            News::Line(l) => match self.phase {
                Phase::AtPrompt => match l {
                    None => self.stop(None),
                    Some(l) => self.take_line(classify(l.as_str())),
                },
                _ => self.stop(Some("unexpected reply".to_owned())),
            },
            News::Launched(id) => match self.phase {
                Phase::Launching => {
                    self.feed.submitted(id);
                    self.go_on(Phase::FollowingOwn, Need::Follow(id))
                },
                _ => self.stop(Some("unexpected reply".to_owned())),
            },
            News::Streamed(s) => match self.phase {
                Phase::Streaming => {
                    self.feed.submitted(s.id);
                    let prints = finish(&s);
                    self.look(prints)
                },
                _ => self.stop(Some("unexpected reply".to_owned())),
            },
            News::Tree(t) => match self.phase {
                Phase::ShowingTree => {
                    let s = render_tree(&t);
                    self.look(print_out(s))
                },
                _ => self.stop(Some("unexpected reply".to_owned())),
            },
        }
    }
}

// ---------- What holds of every session -------------------------------------

/// A session never shows again what was submitted in it: no event of a cell that it submitted
/// prints anything, unless others had shown it before.
pub proof fn law_own_cells_are_not_echoed(f: FeedV, branch: Seq<char>, e: CellEventV, at: bool)
    requires
        match e {
            CellEventV::Started { id, .. } => f.mine.contains(id),
            CellEventV::OutputChunk { id, .. } => !f.foreign.contains(id),
            CellEventV::Completed { id, .. } => !f.foreign.contains(id),
        },
    ensures
        feed_step(f, branch, e, at) == (f, Seq::<PrintV>::empty()),
{
}

/// A target is a branch name or a cell id: a branch of that name is where the session starts, and
/// where there is none, a number is the cell that it follows, until that ends or the user leaves.
pub proof fn law_a_target_is_a_branch_or_a_cell(
    target: Seq<char>,
    current: Seq<char>,
    bs: Seq<BranchSnapshotV>,
    cell: CellSnapshotV,
    detached: bool,
)
    ensures
        entered(Some(target), current).1.need is Branches,
        ({
            let (c, t) = turn(entered(Some(target), current).0, NewsV::Branches(bs));
            match (find_branch(bs, target), number(target)) {
                (Some(_), _) => c.branch == target && t.need is Events,
                (None, Some(id)) => {
                    let (d, u) = turn(c, NewsV::Cell(cell));
                    &&& t.need == NeedV::Cell(id)
                    &&& u.need == NeedV::Follow(id)
                    &&& turn(d, NewsV::Followed { detached }).1.need == NeedV::Stop(None)
                    &&& u.cursor is None && t.cursor is None
                },
                (None, None) => t.need matches NeedV::Stop(Some(_)),
            }
        }),
{
}

/// A session that is over stays over.
pub proof fn law_over_is_over(c: CockpitV, news: NewsV)
    requires
        c.phase is Over,
    ensures
        turn(c, news).0.phase is Over,
        turn(c, news).1.need is Stop,
{
}

/// A session only ever names as the current branch the one that it is on.
pub proof fn law_the_cursor_is_the_branch(c: CockpitV, news: NewsV)
    ensures
        turn(c, news).1.cursor matches Some(n) ==> n == turn(c, news).0.branch,
        turn(c, news).0.branch != c.branch ==> turn(c, news).1.cursor is Some,
{
}

} // verus!
