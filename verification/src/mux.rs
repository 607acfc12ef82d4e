//! Mux: the model of a client-local terminal multiplexer.
//!
//! A **pane is a viewport onto a branch** (a chain of cells), not a single cell. A pane's bottom
//! edge follows the tip: a cooked prompt (typing a line submits a cell), a streaming pipe cell, or
//! a live terminal program driven raw. Splitting a pane **forks the branch**, so two side-by-side
//! panes are two independent lineages in the one shared tree.

use std::collections::{HashMap, HashSet};
use vstd::prelude::*;
use vstd::utf8::*;

use crate::client::{find_branch, lookup};
use crate::history::{lineage, lineage_ends, lineage_of, referred};
use crate::keys::{encode_key, key_bytes, Key};
use crate::layout::{
    law_panes_tile_the_area, law_splitting_adds_one_pane, layout_rects, leaves, rect_of,
    replace_leaf, replaced, tile_of, tiles, Dir, Layout, PaneId, Rect,
};
use crate::text::{
    as_text, bytes_of, chars_of, decimal, digit, opt_text, push_decimal, str_eq, string_of,
    text_of_bytes, trim, trimmed,
};
use crate::tree::CellId;
use crate::wire::{
    branches_view, BranchSnapshot, CellEvent, CellEventV, CellSnapshot, CellSnapshotV, Request,
    RequestV, Response, ResponseV, TreeSnapshot,
};

verus! {

// ---------- Model -----------------------------------------------------------

/// A finished cell as the pane shows it.
#[derive(Debug)]
pub struct CellView {
    pub source: String,
    pub who: String,
    pub body: String,
    pub exit: Option<i32>,
    pub duration_ms: u64,
}

/// A finished cell as the pane shows it.
pub struct CellViewV {
    pub source: Seq<char>,
    pub who: Seq<char>,
    pub body: Seq<char>,
    pub exit: Option<i32>,
    pub duration_ms: u64,
}

impl View for CellView {
    type V = CellViewV;

    open spec fn view(&self) -> CellViewV {
        CellViewV {
            source: self.source@,
            who: self.who@,
            body: self.body@,
            exit: self.exit,
            duration_ms: self.duration_ms,
        }
    }
}

/// A cell of a snapshot as the pane shows it.
pub open spec fn cell_view(c: CellSnapshotV) -> CellViewV {
    CellViewV {
        source: c.source,
        who: c.submitter,
        body: c.stdout + c.stderr,
        exit: c.exit_code,
        duration_ms: c.duration_ms,
    }
}

impl CellView {
    /// A cell of a snapshot as the pane shows it.
    pub fn from_snap(s: &CellSnapshot) -> (r: CellView)
        ensures
            r@ == cell_view(s@),
    {
        let mut body = s.stdout.clone();
        body.append(s.stderr.as_str());
        CellView {
            source: s.source.clone(),
            who: s.submitter.clone(),
            body,
            exit: s.exit_code,
            duration_ms: s.duration_ms,
        }
    }
}

/// The live bottom edge of a pane.
#[derive(Debug)]
#[allow(inconsistent_fields)]
pub enum Active {
    /// The tip has finished: a prompt; Enter submits a new cell on the branch.
    Cooked { input: String },
    /// A cell is streaming on this branch. It has no `id` between Enter and its confirmation;
    /// `resume` is the prompt text to bring back once it finishes.
    Running { id: Option<CellId>, source: String, who: String, body: String, resume: String },
    /// A live terminal program. `size` is the last (rows, columns) that it was given.
    LiveTty { id: CellId, resume: String, size: (u16, u16) },
}

/// The live bottom edge of a pane.
#[allow(inconsistent_fields)]
pub enum ActiveV {
    Cooked { input: Seq<char> },
    Running {
        id: Option<CellId>,
        source: Seq<char>,
        who: Seq<char>,
        body: Seq<char>,
        resume: Seq<char>,
    },
    LiveTty { id: CellId, resume: Seq<char>, size: (u16, u16) },
}

impl View for Active {
    type V = ActiveV;

    open spec fn view(&self) -> ActiveV {
        match self {
            Active::Cooked { input } => ActiveV::Cooked { input: input@ },
            Active::Running { id, source, who, body, resume } => ActiveV::Running {
                id: *id,
                source: source@,
                who: who@,
                body: body@,
                resume: resume@,
            },
            Active::LiveTty { id, resume, size } => ActiveV::LiveTty {
                id: *id,
                resume: resume@,
                size: *size,
            },
        }
    }
}

/// A pane follows one branch. The tip's kind decides the bottom edge.
#[derive(Debug)]
pub struct Pane {
    pub branch: String,
    pub scrollback: Vec<CellView>,
    pub active: Active,
}

/// A pane.
pub struct PaneV {
    pub branch: Seq<char>,
    pub scrollback: Seq<CellViewV>,
    pub active: ActiveV,
}

/// The cells of a vector.
pub open spec fn views(v: Seq<CellView>) -> Seq<CellViewV> {
    v.map_values(|c: CellView| c@)
}

impl View for Pane {
    type V = PaneV;

    open spec fn view(&self) -> PaneV {
        PaneV { branch: self.branch@, scrollback: views(self.scrollback@), active: self.active@ }
    }
}

/// A pane that shows nothing yet, with an empty prompt.
pub open spec fn blank_pane(branch: Seq<char>) -> PaneV {
    PaneV {
        branch,
        scrollback: Seq::empty(),
        active: ActiveV::Cooked { input: Seq::empty() },
    }
}

impl Pane {
    /// A pane that shows nothing yet, with an empty prompt.
    pub fn new(branch: String) -> (r: Pane)
        ensures
            r@ == blank_pane(branch@),
    {
        let r = Pane {
            branch,
            scrollback: Vec::new(),
            active: Active::Cooked { input: String::new() },
        };
        assert(r@.scrollback =~= Seq::<CellViewV>::empty());
        assert(r@.active->Cooked_input =~= Seq::<char>::empty());
        r
    }

    fn show(&mut self, c: CellView)
        ensures
            final(self)@ == (PaneV { scrollback: old(self)@.scrollback.push(c@), ..old(self)@ }),
    {
        self.scrollback.push(c);
        assert(self@.scrollback =~= old(self)@.scrollback.push(c@));
    }
}

/// Where keys go.
#[derive(Debug, Clone, Copy, PartialEq, Eq, Structural)]
pub enum Mode {
    /// To the focused pane.
    Pane,
    /// To the mux: the leader key was pressed.
    Prefix,
}

/// A multiplexer.
#[derive(Debug)]
pub struct Mux {
    panes: HashMap<PaneId, Pane>,
    order: Vec<PaneId>,
    layout: Layout,
    focus: PaneId,
    mode: Mode,
    next_id: PaneId,
    size: (u16, u16),
    status: String,
    routes: HashMap<CellId, PaneId>,
    tty_cells: HashSet<CellId>,
}

/// A multiplexer.
#[verifier::ext_equal]
pub struct MuxV {
    pub panes: Map<PaneId, PaneV>,
    /// The panes in the order they were opened.
    pub order: Seq<PaneId>,
    pub layout: Layout,
    pub focus: PaneId,
    pub mode: Mode,
    pub next_id: PaneId,
    /// Columns and rows.
    pub size: (u16, u16),
    pub status: Seq<char>,
    /// The pane that shows a cell, learned when the cell starts.
    pub routes: Map<CellId, PaneId>,
    /// The cells that a live terminal pane drives over a connection of its own.
    pub tty_cells: Set<CellId>,
}

/// The panes of a map.
pub open spec fn panes_view(m: Map<PaneId, Pane>) -> Map<PaneId, PaneV> {
    Map::new(|k: PaneId| m.contains_key(k), |k: PaneId| m[k]@)
}

impl View for Mux {
    type V = MuxV;

    closed spec fn view(&self) -> MuxV {
        MuxV {
            panes: panes_view(self.panes@),
            order: self.order@,
            layout: self.layout,
            focus: self.focus,
            mode: self.mode,
            next_id: self.next_id,
            size: self.size,
            status: self.status@,
            routes: self.routes@,
            tty_cells: self.tty_cells@,
        }
    }
}

/// A multiplexer is in order: its panes are those of its order and of its layout, each once, the
/// focused one among them, and no number is free below theirs.
pub open spec fn in_order(m: MuxV) -> bool {
    &&& m.order.no_duplicates()
    &&& m.order.contains(m.focus)
    &&& forall|p: PaneId| #[trigger] m.panes.contains_key(p) <==> m.order.contains(p)
    &&& leaves(m.layout).no_duplicates()
    &&& forall|p: PaneId| #[trigger] leaves(m.layout).contains(p) <==> m.order.contains(p)
    &&& forall|p: PaneId| #[trigger] m.order.contains(p) ==> p < m.next_id
}

// ---------- Events ----------------------------------------------------------

/// The cell that an event speaks of.
pub open spec fn event_cell(e: CellEventV) -> CellId {
    match e {
        CellEventV::Started { id, .. } => id,
        CellEventV::OutputChunk { id, .. } => id,
        CellEventV::Completed { id, .. } => id,
    }
}

/// The first pane from the `i`th on that shows `branch`.
pub open spec fn pane_on_branch(m: MuxV, branch: Seq<char>, i: int) -> Option<PaneId>
    decreases m.order.len() - i,
{
    if i < 0 || i >= m.order.len() {
        None
    } else if m.panes[m.order[i]].branch == branch {
        Some(m.order[i])
    } else {
        pane_on_branch(m, branch, i + 1)
    }
}

/// The multiplexer with another pane in the place of `p`.
pub open spec fn with_pane(m: MuxV, p: PaneId, pane: PaneV) -> MuxV {
    MuxV { panes: m.panes.insert(p, pane), ..m }
}

/// A pane on whose branch a cell starts. A line submitted here is confirmed; any other cell takes
/// the place of the prompt, which comes back with what was typed there.
pub open spec fn pane_started(
    pane: PaneV,
    id: CellId,
    source: Seq<char>,
    who: Seq<char>,
) -> PaneV {
    PaneV {
        active: match pane.active {
            ActiveV::Running { id: None, source, who, body, resume } => ActiveV::Running {
                id: Some(id),
                source,
                who,
                body,
                resume,
            },
            ActiveV::Cooked { input } => ActiveV::Running {
                id: Some(id),
                source,
                who,
                body: Seq::empty(),
                resume: input,
            },
            _ => ActiveV::Running {
                id: Some(id),
                source,
                who,
                body: Seq::empty(),
                resume: Seq::empty(),
            },
        },
        ..pane
    }
}

/// A pane whose cell wrote something.
pub open spec fn pane_wrote(pane: PaneV, data: Seq<char>) -> PaneV {
    match pane.active {
        ActiveV::Running { id, source, who, body, resume } => PaneV {
            active: ActiveV::Running { id, source, who, body: body + data, resume },
            ..pane
        },
        _ => pane,
    }
}

/// A pane whose cell has finished: the cell goes to the scrollback, and the prompt comes back.
pub open spec fn pane_finished(pane: PaneV, exit_code: i32, duration_ms: u64) -> PaneV {
    match pane.active {
        ActiveV::Running { source, who, body, resume, .. } => PaneV {
            scrollback: pane.scrollback.push(
                CellViewV { source, who, body, exit: Some(exit_code), duration_ms },
            ),
            active: ActiveV::Cooked { input: resume },
            ..pane
        },
        _ => pane,
    }
}

/// The multiplexer after an event. A cell is shown by the pane on whose branch it starts, unless
/// that pane drives a terminal program; what follows goes to that pane. The cells of terminal
/// panes are left alone: their events come over connections of their own.
pub open spec fn after_event(m: MuxV, e: CellEventV) -> MuxV {
    if m.tty_cells.contains(event_cell(e)) {
        m
    } else {
        match e {
            CellEventV::Started { id, source, who, branch, .. } => match pane_on_branch(
                m,
                branch,
                0,
            ) {
                None => m,
                Some(p) => if m.panes[p].active is LiveTty {
                    m
                } else {
                    MuxV {
                        routes: m.routes.insert(id, p),
                        ..with_pane(m, p, pane_started(m.panes[p], id, source, who))
                    }
                },
            },
            CellEventV::OutputChunk { id, data, .. } => if m.routes.contains_key(id)
                && m.panes.contains_key(m.routes[id]) {
                let p = m.routes[id];
                with_pane(m, p, pane_wrote(m.panes[p], data))
            } else {
                m
            },
            CellEventV::Completed { id, exit_code, duration_ms, .. } => if m.routes.contains_key(
                id,
            ) {
                let p = m.routes[id];
                let n = MuxV { routes: m.routes.remove(id), ..m };
                if m.panes.contains_key(p) {
                    with_pane(n, p, pane_finished(m.panes[p], exit_code, duration_ms))
                } else {
                    n
                }
            } else {
                m
            },
        }
    }
}

/// An event keeps a multiplexer in order.
pub proof fn law_events_keep_order(m: MuxV, e: CellEventV)
    requires
        in_order(m),
    ensures
        in_order(after_event(m, e)),
{
    lemma_pane_on_branch(m, match e {
        CellEventV::Started { branch, .. } => branch,
        _ => Seq::empty(),
    }, 0);
}

proof fn lemma_pane_on_branch(m: MuxV, branch: Seq<char>, i: int)
    requires
        in_order(m),
        0 <= i,
    ensures
        pane_on_branch(m, branch, i) matches Some(p) ==> m.order.contains(p)
            && m.panes.contains_key(p) && m.panes[p].branch == branch,
    decreases m.order.len() - i,
{
    if i < m.order.len() {
        assert(m.order.contains(m.order[i]));
        if m.panes[m.order[i]].branch != branch {
            lemma_pane_on_branch(m, branch, i + 1);
        }
    }
}

impl Pane {
    fn started(&mut self, id: CellId, source: String, who: String)
        ensures
            final(self)@ == pane_started(old(self)@, id, source@, who@),
    {
        let mut was = Active::Cooked { input: String::new() };
        core::mem::swap(&mut was, &mut self.active);
        let nothing = String::new();
        let body = String::new();
        assert(nothing@ =~= Seq::<char>::empty());
        assert(body@ =~= Seq::<char>::empty());
        self.active = match was {
            Active::Running { id: None, source: s, who: w, body: b, resume } => Active::Running {
                id: Some(id),
                source: s,
                who: w,
                body: b,
                resume,
            },
            Active::Cooked { input } => Active::Running {
                id: Some(id),
                source,
                who,
                body,
                resume: input,
            },
            _ => Active::Running { id: Some(id), source, who, body, resume: nothing },
        };
    }

    fn wrote(&mut self, data: &str)
        ensures
            final(self)@ == pane_wrote(old(self)@, data@),
    {
        match &mut self.active {
            Active::Running { body, .. } => {
                body.append(data);
            },
            _ => {},
        }
    }

    fn finished(&mut self, exit_code: i32, duration_ms: u64)
        ensures
            final(self)@ == pane_finished(old(self)@, exit_code, duration_ms),
    {
        let mut was = Active::Cooked { input: String::new() };
        core::mem::swap(&mut was, &mut self.active);
        match was {
            Active::Running { source, who, body, resume, .. } => {
                self.active = Active::Cooked { input: resume };
                self.show(CellView { source, who, body, exit: Some(exit_code), duration_ms });
            },
            other => {
                self.active = other;
            },
        }
    }
}

impl Mux {
    fn take_pane(&mut self, p: PaneId) -> (r: Option<Pane>)
        ensures
            match r {
                Some(pane) => old(self)@.panes.contains_key(p) && pane@ == old(self)@.panes[p]
                    && final(self)@ == (MuxV { panes: old(self)@.panes.remove(p), ..old(self)@ }),
                None => !old(self)@.panes.contains_key(p) && final(self)@ == old(self)@,
            },
    {
        broadcast use vstd::std_specs::hash::group_hash_axioms;

        let r = self.panes.remove(&p);
        if r.is_some() {
            assert(self@.panes =~= old(self)@.panes.remove(p));
        } else {
            assert(self@.panes =~= old(self)@.panes);
        }
        r
    }

    fn put_pane(&mut self, p: PaneId, pane: Pane)
        ensures
            final(self)@ == with_pane(old(self)@, p, pane@),
    {
        broadcast use vstd::std_specs::hash::group_hash_axioms;

        self.panes.insert(p, pane);
        assert(self@.panes =~= old(self)@.panes.insert(p, pane@));
    }

    /// A pane.
    pub fn pane(&self, p: PaneId) -> (r: Option<&Pane>)
        ensures
            match r {
                Some(pane) => self@.panes.contains_key(p) && pane@ == self@.panes[p],
                None => !self@.panes.contains_key(p),
            },
    {
        broadcast use vstd::std_specs::hash::group_hash_axioms;

        self.panes.get(&p)
    }

    fn find_pane(&self, branch: &str) -> (r: Option<PaneId>)
        requires
            in_order(self@),
        ensures
            r == pane_on_branch(self@, branch@, 0),
    {
        let mut i: usize = 0;
        while i < self.order.len()
            invariant
                i <= self.order.len(),
                in_order(self@),
                self.order@ == self@.order,
                pane_on_branch(self@, branch@, 0) == pane_on_branch(self@, branch@, i as int),
            decreases self.order.len() - i,
        {
            let p: PaneId = self.order[i];
            assert(self@.order.contains(self@.order[i as int]));
            match self.pane(p) {
                Some(pane) => {
                    if str_eq(pane.branch.as_str(), branch) {
                        return Some(p);
                    }
                },
                None => {},
            }
            i += 1;
        }
        None
    }

    fn route(&mut self, id: CellId, p: PaneId)
        ensures
            final(self)@ == (MuxV { routes: old(self)@.routes.insert(id, p), ..old(self)@ }),
    {
        broadcast use vstd::std_specs::hash::group_hash_axioms;

        self.routes.insert(id, p);
    }

    fn route_of(&self, id: CellId) -> (r: Option<PaneId>)
        ensures
            r == if self@.routes.contains_key(id) {
                Some(self@.routes[id])
            } else {
                None
            },
    {
        broadcast use vstd::std_specs::hash::group_hash_axioms;

        match self.routes.get(&id) {
            Some(p) => Some(*p),
            None => None,
        }
    }

    fn unroute(&mut self, id: CellId)
        ensures
            final(self)@ == (MuxV { routes: old(self)@.routes.remove(id), ..old(self)@ }),
    {
        broadcast use vstd::std_specs::hash::group_hash_axioms;

        self.routes.remove(&id);
        assert(self@.routes =~= old(self)@.routes.remove(id));
    }

    fn drives(&self, id: CellId) -> (r: bool)
        ensures
            r == self@.tty_cells.contains(id),
    {
        broadcast use vstd::std_specs::hash::group_hash_axioms;

        self.tty_cells.contains(&id)
    }

    /// Takes in an event of any cell.
    pub fn apply_event(&mut self, e: CellEvent)
        requires
            in_order(old(self)@),
        ensures
            in_order(final(self)@),
            final(self)@ == after_event(old(self)@, e@),
    {
        let ghost m = self@;
        proof {
            law_events_keep_order(m, e@);
        }
        match e {
            CellEvent::Started { id, source, who, branch, .. } => {
                if self.drives(id) {
                    return;
                }
                let p: PaneId = match self.find_pane(branch.as_str()) {
                    Some(p) => p,
                    None => {
                        return;
                    },
                };
                proof {
                    lemma_pane_on_branch(m, branch@, 0);
                }
                match self.pane(p) {
                    Some(pane) => {
                        if matches!(pane.active, Active::LiveTty { .. }) {
                            return;
                        }
                    },
                    None => {},
                }
                self.route(id, p);
                match self.take_pane(p) {
                    Some(pane) => {
                        let mut pane = pane;
                        pane.started(id, source, who);
                        self.put_pane(p, pane);
                    },
                    None => {},
                }
                assert(self@ =~= after_event(m, e@));
            },
            CellEvent::OutputChunk { id, data, .. } => {
                if self.drives(id) {
                    return;
                }
                match self.route_of(id) {
                    Some(p) => match self.take_pane(p) {
                        Some(pane) => {
                            let mut pane = pane;
                            pane.wrote(data.as_str());
                            self.put_pane(p, pane);
                        },
                        None => {},
                    },
                    None => {},
                }
                assert(self@ =~= after_event(m, e@));
            },
            CellEvent::Completed { id, exit_code, duration_ms, .. } => {
                if self.drives(id) {
                    return;
                }
                match self.route_of(id) {
                    Some(p) => {
                        self.unroute(id);
                        match self.take_pane(p) {
                            Some(pane) => {
                                let mut pane = pane;
                                pane.finished(exit_code, duration_ms);
                                self.put_pane(p, pane);
                            },
                            None => {},
                        }
                    },
                    None => {},
                }
                assert(self@ =~= after_event(m, e@));
            },
        }
    }

    /// The multiplexer's first pane, on the current branch, on a screen of the given size.
    pub fn new(branch: String, cols: u16, rows: u16) -> (r: Mux)
        ensures
            in_order(r@),
            r@.panes == map![0u32 => blank_pane(branch@)],
            r@.order == seq![0u32],
            r@.layout == Layout::Leaf(0),
            r@.focus == 0,
            r@.mode == Mode::Pane,
            r@.next_id == 1,
            r@.size == (cols, rows),
            r@.status == "C-a then: e tty · %/\" split · o focus · q quit"@,
            r@.routes == Map::<CellId, PaneId>::empty(),
            r@.tty_cells == Set::<CellId>::empty(),
    {
        broadcast use vstd::std_specs::hash::group_hash_axioms;

        let mut panes: HashMap<PaneId, Pane> = HashMap::new();
        let ghost b = branch@;
        panes.insert(0, Pane::new(branch));
        let mut order: Vec<PaneId> = Vec::new();
        order.push(0);
        let r = Mux {
            panes,
            order,
            layout: Layout::Leaf(0),
            focus: 0,
            mode: Mode::Pane,
            next_id: 1,
            size: (cols, rows),
            status: "C-a then: e tty · %/\" split · o focus · q quit".to_owned(),
            routes: HashMap::new(),
            tty_cells: HashSet::new(),
        };
        proof {
            assert(r@.panes =~= map![0u32 => blank_pane(b)]);
            assert(r@.order =~= seq![0u32]);
            assert(r@.order[0] == 0);
            assert(leaves(r@.layout)[0] == 0);
            assert forall|p: PaneId| #[trigger] r@.order.contains(p) <==> p == 0 by {}
            assert forall|p: PaneId| #[trigger] leaves(r@.layout).contains(p) <==> p == 0 by {}
        }
        r
    }
}


// ---------- History ---------------------------------------------------------

/// A pane that took in a cell of its branch's history. A running tip becomes the live region.
pub open spec fn with_cell(m: MuxV, p: PaneId, tip: CellId, c: CellSnapshotV) -> MuxV {
    if c.parent is None {
        m
    } else if c.id == tip && c.exit_code is None {
        MuxV {
            routes: m.routes.insert(c.id, p),
            ..with_pane(
                m,
                p,
                PaneV {
                    active: ActiveV::Running {
                        id: Some(c.id),
                        source: c.source,
                        who: c.submitter,
                        body: c.stdout + c.stderr,
                        resume: Seq::empty(),
                    },
                    ..m.panes[p]
                },
            )
        }
    } else {
        with_pane(
            m,
            p,
            PaneV { scrollback: m.panes[p].scrollback.push(cell_view(c)), ..m.panes[p] },
        )
    }
}

/// A pane that took in the history of its branch. The root is not shown.
pub open spec fn hydrated(m: MuxV, p: PaneId, tip: CellId, chain: Seq<CellSnapshotV>) -> MuxV
    decreases chain.len(),
{
    if chain.len() == 0 {
        m
    } else {
        with_cell(hydrated(m, p, tip, chain.drop_last()), p, tip, chain.last())
    }
}

proof fn lemma_hydrated(m: MuxV, p: PaneId, tip: CellId, chain: Seq<CellSnapshotV>)
    requires
        in_order(m),
        m.panes.contains_key(p),
    ensures
        in_order(hydrated(m, p, tip, chain)),
        hydrated(m, p, tip, chain).panes.contains_key(p),
    decreases chain.len(),
{
    if chain.len() > 0 {
        lemma_hydrated(m, p, tip, chain.drop_last());
    }
}

impl Mux {
    /// The tip whose history a pane is to show, if its branch is there.
    pub fn tip(&self, p: PaneId, branches: &Vec<BranchSnapshot>) -> (r: Option<CellId>)
        requires
            self@.panes.contains_key(p),
        ensures
            r == match find_branch(branches_view(branches@), self@.panes[p].branch) {
                Some(b) => Some(b.tip),
                None => None,
            },
    {
        match self.pane(p) {
            Some(pane) => match lookup(branches, pane.branch.as_str()) {
                Some(b) => Some(b.tip),
                None => None,
            },
            None => None,
        }
    }

    fn take_cell(&mut self, p: PaneId, tip: CellId, c: &CellSnapshot)
        requires
            old(self)@.panes.contains_key(p),
        ensures
            final(self)@ == with_cell(old(self)@, p, tip, c@),
    {
        let ghost m = self@;
        if c.parent.is_none() {
            return;
        }
        if let Some(pane) = self.take_pane(p) {
            let mut pane = pane;
            if c.id == tip && c.exit_code.is_none() {
                let view = CellView::from_snap(c);
                let resume = String::new();
                assert(resume@ =~= Seq::<char>::empty());
                pane.active = Active::Running {
                    id: Some(c.id),
                    source: view.source,
                    who: view.who,
                    body: view.body,
                    resume,
                };
                self.put_pane(p, pane);
                self.route(c.id, p);
            } else {
                pane.show(CellView::from_snap(c));
                self.put_pane(p, pane);
            }
        }
        assert(self@ =~= with_cell(m, p, tip, c@));
    }

    /// Fills a pane from a snapshot of the tree, so that it opens with its branch's history. A
    /// tip that is still running becomes the live region.
    pub fn backfill(&mut self, p: PaneId, tip: CellId, tree: &TreeSnapshot)
        requires
            in_order(old(self)@),
            old(self)@.panes.contains_key(p),
            lineage_ends(tree@, tip),
        ensures
            in_order(final(self)@),
            final(self)@ == hydrated(old(self)@, p, tip, lineage_of(tree@, tip)),
    {
        let ghost m = self@;
        let chain = lineage(tree, tip);
        let ghost v = referred(chain@);
        let mut i: usize = 0;
        assert(v.take(0) =~= Seq::<CellSnapshotV>::empty());
        while i < chain.len()
            invariant
                i <= chain.len(),
                v == referred(chain@),
                in_order(m),
                m.panes.contains_key(p),
                self@ == hydrated(m, p, tip, v.take(i as int)),
            decreases chain.len() - i,
        {
            proof {
                lemma_hydrated(m, p, tip, v.take(i as int));
                assert(v.take(i + 1).drop_last() =~= v.take(i as int));
                assert(v.take(i + 1).last() == chain@[i as int]@);
            }
            self.take_cell(p, tip, chain[i]);
            i += 1;
        }
        proof {
            assert(v.take(i as int) =~= v);
            lemma_hydrated(m, p, tip, v);
        }
    }

    /// Says that a pane's history could not be had.
    pub fn backfill_failed(&mut self, e: &str)
        ensures
            final(self)@ == (MuxV { status: "backfill failed: "@ + e@, ..old(self)@ }),
    {
        let mut s = "backfill failed: ".to_owned();
        s.append(e);
        self.status = s;
    }
}


// ---------- Input -----------------------------------------------------------

/// What comes from the terminal.
#[derive(Debug)]
pub enum Input {
    Resize { cols: u16, rows: u16 },
    Key { code: Key, ctrl: bool, release: bool },
    Other,
}

/// What a key asks for.
#[derive(Debug)]
pub enum Act {
    Nothing,
    Quit,
    /// Submit `source` on `branch`; what comes of it arrives as events.
    Submit { pane: PaneId, branch: String, source: String },
    /// Send bytes to the terminal program of a pane.
    Send { pane: PaneId, bytes: Vec<u8> },
    /// Split the focused pane.
    Split(Dir),
    /// Run a terminal program in the focused pane.
    Tty,
}

/// What a key asks for.
pub enum ActV {
    Nothing,
    Quit,
    Submit { pane: PaneId, branch: Seq<char>, source: Seq<char> },
    Send { pane: PaneId, bytes: Seq<u8> },
    Split(Dir),
    Tty,
}

impl View for Act {
    type V = ActV;

    open spec fn view(&self) -> ActV {
        match self {
            Act::Nothing => ActV::Nothing,
            Act::Quit => ActV::Quit,
            Act::Submit { pane, branch, source } => ActV::Submit {
                pane: *pane,
                branch: branch@,
                source: source@,
            },
            Act::Send { pane, bytes } => ActV::Send { pane: *pane, bytes: bytes@ },
            Act::Split(dir) => ActV::Split(*dir),
            Act::Tty => ActV::Tty,
        }
    }
}

/// A prompt after a key.
pub open spec fn edited(input: Seq<char>, code: Key, ctrl: bool) -> Seq<char> {
    match code {
        Key::Char(c) => if ctrl {
            input
        } else {
            input.push(c)
        },
        Key::Backspace => if input.len() > 0 {
            input.drop_last()
        } else {
            input
        },
        Key::Enter => Seq::empty(),
        _ => input,
    }
}

/// A key goes to the focused pane: it edits the prompt, or reaches the terminal program. Enter
/// submits what was typed and locks the prompt until the cell has finished.
pub open spec fn after_pane_key(m: MuxV, code: Key, ctrl: bool, who: Seq<char>) -> (MuxV, ActV) {
    let p = m.focus;
    let pane = m.panes[p];
    match pane.active {
        ActiveV::Cooked { input } => {
            let source = trimmed(input);
            if code is Enter && source.len() > 0 {
                (
                    with_pane(
                        m,
                        p,
                        PaneV {
                            active: ActiveV::Running {
                                id: None,
                                source,
                                who,
                                body: Seq::empty(),
                                resume: Seq::empty(),
                            },
                            ..pane
                        },
                    ),
                    ActV::Submit { pane: p, branch: pane.branch, source },
                )
            } else {
                (
                    with_pane(
                        m,
                        p,
                        PaneV {
                            active: ActiveV::Cooked { input: edited(input, code, ctrl) },
                            ..pane
                        },
                    ),
                    ActV::Nothing,
                )
            }
        },
        ActiveV::LiveTty { .. } => (
            m,
            match key_bytes(code, ctrl) {
                Some(bytes) => ActV::Send { pane: p, bytes },
                None => ActV::Nothing,
            },
        ),
        ActiveV::Running { .. } => (m, ActV::Nothing),
    }
}

/// The pane opened after `p`, or the first where it is the last.
pub open spec fn next_pane(order: Seq<PaneId>, p: PaneId) -> PaneId {
    order[(order.index_of(p) + 1) % (order.len() as int)]
}

/// The multiplexer says which branch has the focus.
pub open spec fn told_focus(m: MuxV) -> MuxV {
    MuxV { status: "focus: "@ + m.panes[m.focus].branch, ..m }
}

/// The key after the leader is a command.
pub open spec fn after_command(m: MuxV, code: Key) -> (MuxV, ActV) {
    match code {
        Key::Char('q') | Key::Char('d') => (m, ActV::Quit),
        Key::Char('o') | Key::Tab | Key::Right | Key::Down => (
            told_focus(MuxV { focus: next_pane(m.order, m.focus), ..m }),
            ActV::Nothing,
        ),
        Key::Char('%') => (m, ActV::Split(Dir::Horizontal)),
        Key::Char('"') => (m, ActV::Split(Dir::Vertical)),
        Key::Char('e') => (m, ActV::Tty),
        _ => (told_focus(m), ActV::Nothing),
    }
}

/// The multiplexer after what came from the terminal. Control with `a` is the leader: the key
/// after it is a command.
pub open spec fn after_input(m: MuxV, i: Input, who: Seq<char>) -> (MuxV, ActV) {
    match i {
        Input::Resize { cols, rows } => (MuxV { size: (cols, rows), ..m }, ActV::Nothing),
        Input::Key { code, ctrl, release } => if release {
            (m, ActV::Nothing)
        } else if m.mode is Prefix {
            after_command(MuxV { mode: Mode::Pane, ..m }, code)
        } else if ctrl && code == Key::Char('a') {
            (
                MuxV {
                    mode: Mode::Prefix,
                    status: "PREFIX — %/\" split · o focus · q quit"@,
                    ..m
                },
                ActV::Nothing,
            )
        } else {
            after_pane_key(m, code, ctrl, who)
        },
        Input::Other => (m, ActV::Nothing),
    }
}

proof fn lemma_next_pane(order: Seq<PaneId>, p: PaneId)
    requires
        order.contains(p),
    ensures
        order.contains(next_pane(order, p)),
{
    let i = order.index_of(p);
    assert(0 <= (i + 1) % (order.len() as int) < order.len());
}

/// What comes from the terminal keeps a multiplexer in order.
pub proof fn law_inputs_keep_order(m: MuxV, i: Input, who: Seq<char>)
    requires
        in_order(m),
    ensures
        in_order(after_input(m, i, who).0),
{
    lemma_next_pane(m.order, m.focus);
    assert(m.order.contains(m.focus));
}

/// The focus after moving on `n` times.
pub open spec fn moved_on(order: Seq<PaneId>, p: PaneId, n: nat) -> PaneId
    decreases n,
{
    if n == 0 {
        p
    } else {
        next_pane(order, moved_on(order, p, (n - 1) as nat))
    }
}

/// Moving the focus on reaches every pane, and comes back to the first after as many times as
/// there are panes.
pub proof fn law_the_focus_comes_round(m: MuxV, q: PaneId)
    requires
        in_order(m),
        m.panes.contains_key(q),
    ensures
        moved_on(m.order, m.focus, m.order.len()) == m.focus,
        exists|n: nat| n < m.order.len() && #[trigger] moved_on(m.order, m.focus, n) == q,
{
    let len = m.order.len() as int;
    let i = m.order.index_of(m.focus);
    let j = m.order.index_of(q);
    assert(m.order.contains(q));
    lemma_moved_on(m.order, i, m.order.len());
    assert((i + len) % len == i) by (nonlinear_arith)
        requires
            0 <= i < len,
    ;
    let n = if i <= j {
        (j - i) as nat
    } else {
        (j - i + len) as nat
    };
    lemma_moved_on(m.order, i, n);
    assert((i + n) % len == j) by (nonlinear_arith)
        requires
            0 <= i < len,
            0 <= j < len,
            n == j - i || n == j - i + len,
            0 <= n,
    ;
    assert(moved_on(m.order, m.focus, n) == q);
}

proof fn lemma_moved_on(order: Seq<PaneId>, i: int, n: nat)
    requires
        order.no_duplicates(),
        0 <= i < order.len(),
    ensures
        moved_on(order, order[i], n) == order[(i + n) % (order.len() as int)],
        0 <= (i + n) % (order.len() as int) < order.len(),
    decreases n,
{
    let len = order.len() as int;
    assert(0 <= (i + n) % len < len) by (nonlinear_arith)
        requires
            0 < len,
    ;
    if n == 0 {
        assert(i % len == i) by (nonlinear_arith)
            requires
                0 <= i < len,
        ;
    } else {
        lemma_moved_on(order, i, (n - 1) as nat);
        let k = (i + n - 1) % len;
        assert(order.contains(order[k]));
        assert(order.index_of(order[k]) == k);
        vstd::arithmetic::div_mod::lemma_add_mod_noop(i + n - 1, 1, len);
        if len > 1 {
            assert(1int % len == 1) by (nonlinear_arith)
                requires
                    len > 1,
            ;
        } else {
            assert(len == 1);
        }
    }
}

impl Mux {
    /// Moves the focus to the pane opened after.
    pub fn cycle_focus(&mut self)
        requires
            in_order(old(self)@),
        ensures
            in_order(final(self)@),
            final(self)@ == (MuxV {
                focus: next_pane(old(self)@.order, old(self)@.focus),
                ..old(self)@
            }),
    {
        proof {
            lemma_next_pane(self@.order, self@.focus);
        }
        let n: usize = self.order.len();
        let mut i: usize = 0;
        while self.order[i] != self.focus
            invariant
                i < n,
                n == self.order@.len(),
                self.order@.contains(self.focus),
                forall|j: int| 0 <= j < i ==> self.order@[j] != self.focus,
            decreases self.order@.len() - i,
        {
            i += 1;
        }
        assert(self.order@.index_of(self.focus) == i);
        let next: usize = if i + 1 == n {
            0
        } else {
            i + 1
        };
        proof {
            let len = self.order@.len() as int;
            if i + 1 == len {
                assert((i + 1) % len == 0) by (nonlinear_arith)
                    requires
                        i + 1 == len,
                        len > 0,
                ;
            } else {
                assert((i + 1) % len == i + 1) by (nonlinear_arith)
                    requires
                        0 <= i + 1 < len,
                ;
            }
        }
        self.focus = self.order[next];
    }

    fn tell_focus(&mut self)
        requires
            in_order(old(self)@),
        ensures
            in_order(final(self)@),
            final(self)@ == told_focus(old(self)@),
    {
        assert(self@.order.contains(self@.focus));
        let mut s = "focus: ".to_owned();
        match self.pane(self.focus) {
            Some(pane) => {
                s.append(pane.branch.as_str());
            },
            None => {},
        }
        self.status = s;
    }

    fn pane_key(&mut self, code: Key, ctrl: bool, who: String) -> (r: Act)
        requires
            in_order(old(self)@),
        ensures
            (final(self)@, r@) == after_pane_key(old(self)@, code, ctrl, who@),
    {
        let ghost m = self@;
        let p: PaneId = self.focus;
        assert(m.order.contains(p));
        let pane = match self.take_pane(p) {
            Some(pane) => pane,
            None => {
                return Act::Nothing;
            },
        };
        let branch = pane.branch;
        let scrollback = pane.scrollback;
        let (active, act) = match pane.active {
            Active::Cooked { input } => key_at_prompt(input, code, ctrl, who, p, &branch),
            Active::LiveTty { id, resume, size } => {
                let act = match encode_key(code, ctrl) {
                    Some(bytes) => Act::Send { pane: p, bytes },
                    None => Act::Nothing,
                };
                (Active::LiveTty { id, resume, size }, act)
            },
            running => (running, Act::Nothing),
        };
        self.put_pane(p, Pane { branch, scrollback, active });
        assert(self@ =~= after_pane_key(m, code, ctrl, who@).0) by {
            assert(self@.panes =~= after_pane_key(m, code, ctrl, who@).0.panes);
        }
        act
    }

    fn command(&mut self, code: Key) -> (r: Act)
        requires
            in_order(old(self)@),
        ensures
            (final(self)@, r@) == after_command(old(self)@, code),
    {
        match code {
            Key::Char('q') | Key::Char('d') => {
                return Act::Quit;
            },
            Key::Char('o') | Key::Tab | Key::Right | Key::Down => {
                self.cycle_focus();
            },
            Key::Char('%') => {
                return Act::Split(Dir::Horizontal);
            },
            Key::Char('"') => {
                return Act::Split(Dir::Vertical);
            },
            Key::Char('e') => {
                return Act::Tty;
            },
            _ => {},
        }
        self.tell_focus();
        Act::Nothing
    }

    /// Takes in what came from the terminal, and says what it asks for. `who` submits.
    pub fn handle_event(&mut self, i: Input, who: String) -> (r: Act)
        requires
            in_order(old(self)@),
        ensures
            in_order(final(self)@),
            (final(self)@, r@) == after_input(old(self)@, i, who@),
    {
        let ghost m = self@;
        proof {
            law_inputs_keep_order(m, i, who@);
        }
        match i {
            Input::Resize { cols, rows } => {
                self.size = (cols, rows);
                Act::Nothing
            },
            Input::Key { code, ctrl, release } => {
                if release {
                    return Act::Nothing;
                }
                match self.mode {
                    Mode::Prefix => {
                        self.mode = Mode::Pane;
                        self.command(code)
                    },
                    Mode::Pane => {
                        if ctrl && code == Key::Char('a') {
                            self.mode = Mode::Prefix;
                            self.status = "PREFIX — %/\" split · o focus · q quit".to_owned();
                            Act::Nothing
                        } else {
                            self.pane_key(code, ctrl, who)
                        }
                    },
                }
            },
            Input::Other => Act::Nothing,
        }
    }
}

fn key_at_prompt(
    input: String,
    code: Key,
    ctrl: bool,
    who: String,
    pane: PaneId,
    branch: &String,
) -> (r: (Active, Act))
    ensures
        ({
            let source = trimmed(input@);
            if code is Enter && source.len() > 0 {
                r.0@ == (ActiveV::Running {
                    id: None,
                    source,
                    who: who@,
                    body: Seq::empty(),
                    resume: Seq::empty(),
                }) && r.1@ == (ActV::Submit { pane, branch: branch@, source })
            } else {
                r.0@ == (ActiveV::Cooked { input: edited(input@, code, ctrl) })
                    && r.1@ == ActV::Nothing
            }
        }),
{
    let nothing = String::new();
    assert(nothing@ =~= Seq::<char>::empty());
    match code {
        Key::Char(c) => {
            let mut input = input;
            if !ctrl {
                input.push(c);
            }
            (Active::Cooked { input }, Act::Nothing)
        },
        Key::Backspace => {
            let v = chars_of(input.as_str());
            if v.len() > 0 {
                let input = string_of(&v, 0, v.len() - 1);
                assert(input@ =~= v@.drop_last());
                (Active::Cooked { input }, Act::Nothing)
            } else {
                (Active::Cooked { input }, Act::Nothing)
            }
        },
        Key::Enter => {
            let source = trim(input.as_str());
            if source.as_str().is_empty() {
                (Active::Cooked { input: nothing }, Act::Nothing)
            } else {
                let body = String::new();
                assert(body@ =~= Seq::<char>::empty());
                let act = Act::Submit { pane, branch: branch.clone(), source: source.clone() };
                (Active::Running { id: None, source, who, body, resume: nothing }, act)
            }
        },
        _ => (Active::Cooked { input }, Act::Nothing),
    }
}


// ---------- Splitting -------------------------------------------------------

/// The branch that the pane `id` opens.
pub open spec fn fork_name(id: PaneId) -> Seq<char> {
    "mux-"@ + decimal(id as nat)
}

/// A branch to be made for a new pane: its name and the cell it starts at.
#[derive(Debug)]
pub struct Fork {
    pub id: PaneId,
    pub name: String,
    pub at: CellId,
}

/// The multiplexer with the focused pane split and the focus on the new pane.
pub open spec fn after_split(m: MuxV, id: PaneId, branch: Seq<char>, dir: Dir) -> MuxV {
    MuxV {
        panes: m.panes.insert(id, blank_pane(branch)),
        order: m.order.push(id),
        layout: replaced(
            m.layout,
            m.focus,
            Layout::Split {
                dir,
                a: Box::new(Layout::Leaf(m.focus)),
                b: Box::new(Layout::Leaf(id)),
            },
        ),
        focus: id,
        ..m
    }
}

/// A split keeps a multiplexer in order.
pub proof fn law_splits_keep_order(m: MuxV, id: PaneId, branch: Seq<char>, dir: Dir)
    requires
        in_order(m),
        id < m.next_id,
        !m.panes.contains_key(id),
    ensures
        in_order(after_split(m, id, branch, dir)),
{
    let n = after_split(m, id, branch, dir);
    assert(!m.order.contains(id));
    assert(leaves(m.layout).contains(m.focus)) by {
        assert(m.order.contains(m.focus));
    }
    assert(!leaves(m.layout).contains(id));
    law_splitting_adds_one_pane(m.layout, m.focus, dir, id);
    assert forall|p: PaneId| #[trigger] n.order.contains(p) <==> m.order.contains(p) || p == id by {
        if m.order.contains(p) {
            let i = choose|i: int| 0 <= i < m.order.len() && m.order[i] == p;
            assert(n.order[i] == p);
        }
        if p == id {
            assert(n.order[m.order.len() as int] == p);
        }
    }
    assert forall|i: int, j: int|
        0 <= i < n.order.len() && 0 <= j < n.order.len() && i != j implies n.order[i]
        != n.order[j] by {
        if i < m.order.len() {
            assert(m.order.contains(m.order[i]));
        }
        if j < m.order.len() {
            assert(m.order.contains(m.order[j]));
        }
    }
}

/// Every pane but the first shows the branch that was made for it.
pub open spec fn own_branches(m: MuxV) -> bool {
    forall|p: PaneId| #[trigger]
        m.panes.contains_key(p) && p != 0 ==> m.panes[p].branch == fork_name(p)
}

proof fn lemma_digit(a: nat, b: nat)
    requires
        a < 10,
        b < 10,
        digit(a) == digit(b),
    ensures
        a == b,
{
    assert(digit(a) as int == 48 + a);
    assert(digit(b) as int == 48 + b);
}

/// Numbers that are written alike are equal.
pub proof fn lemma_decimal_injective(a: nat, b: nat)
    requires
        decimal(a) == decimal(b),
    ensures
        a == b,
    decreases a,
{
    if a < 10 && b < 10 {
        assert(decimal(a)[0] == digit(a));
        assert(decimal(b)[0] == digit(b));
        lemma_digit(a, b);
    } else if a >= 10 && b >= 10 {
        assert(decimal(a).last() == digit(a % 10));
        assert(decimal(b).last() == digit(b % 10));
        lemma_digit(a % 10, b % 10);
        assert(decimal(a).drop_last() =~= decimal(a / 10));
        assert(decimal(b).drop_last() =~= decimal(b / 10));
        lemma_decimal_injective(a / 10, b / 10);
        assert(a == a / 10 * 10 + a % 10);
        assert(b == b / 10 * 10 + b % 10);
    } else if a >= 10 {
        lemma_decimal_len(a / 10);
        assert(decimal(a).len() == decimal(a / 10).len() + 1);
        assert(decimal(b).len() == 1);
    } else {
        lemma_decimal_len(b / 10);
        assert(decimal(b).len() == decimal(b / 10).len() + 1);
        assert(decimal(a).len() == 1);
    }
}

proof fn lemma_decimal_len(n: nat)
    ensures
        decimal(n).len() > 0,
    decreases n,
{
    if n >= 10 {
        lemma_decimal_len(n / 10);
    }
}

/// No two panes show one branch, as long as every pane shows the branch that was made for it and
/// the first shows none of those.
pub proof fn law_panes_show_distinct_branches(m: MuxV, p: PaneId, q: PaneId)
    requires
        own_branches(m),
        forall|k: PaneId| m.panes[0].branch != #[trigger] fork_name(k),
        m.panes.contains_key(p),
        m.panes.contains_key(q),
        m.panes[p].branch == m.panes[q].branch,
    ensures
        p == q,
{
    if p != 0 && q != 0 {
        let n = "mux-"@.len() as int;
        assert(fork_name(p).skip(n) =~= decimal(p as nat));
        assert(fork_name(q).skip(n) =~= decimal(q as nat));
        lemma_decimal_injective(p as nat, q as nat);
    }
}

impl Mux {
    /// Plans the split of the focused pane: a fresh branch at the tip of its branch.
    pub fn plan_split(&mut self, branches: &Vec<BranchSnapshot>) -> (r: Result<Fork, String>)
        requires
            in_order(old(self)@),
            old(self)@.next_id < u32::MAX,
        ensures
            in_order(final(self)@),
            ({
                let m = old(self)@;
                let branch = m.panes[m.focus].branch;
                match find_branch(branches_view(branches@), branch) {
                    Some(b) => r matches Ok(f) && f.id == m.next_id && f.name@ == fork_name(f.id)
                        && f.at == b.tip && final(self)@ == (MuxV {
                        next_id: (m.next_id + 1) as u32,
                        ..m
                    }),
                    None => r matches Err(e) && e@ == "branch '"@ + branch + "' vanished"@
                        && final(self)@ == m,
                }
            }),
            r matches Ok(f) ==> f.id < final(self)@.next_id && !final(self)@.panes.contains_key(f.id),
    {
        let ghost m = self@;
        assert(m.order.contains(m.focus));
        match self.tip(self.focus, branches) {
            Some(at) => {
                let id: PaneId = self.next_id;
                self.next_id = id + 1;
                let mut name = "mux-".to_owned();
                push_decimal(&mut name, id as u64);
                assert(!m.order.contains(id));
                Ok(Fork { id, name, at })
            },
            None => {
                let mut e = "branch '".to_owned();
                match self.pane(self.focus) {
                    Some(pane) => {
                        e.append(pane.branch.as_str());
                    },
                    None => {},
                }
                e.append("' vanished");
                Err(e)
            },
        }
    }

    /// Splits the focused pane: the new pane shows the branch that was made for it, and takes the
    /// focus.
    pub fn split(&mut self, fork: Fork, dir: Dir)
        requires
            in_order(old(self)@),
            fork.id < old(self)@.next_id,
            !old(self)@.panes.contains_key(fork.id),
        ensures
            in_order(final(self)@),
            final(self)@ == after_split(old(self)@, fork.id, fork.name@, dir),
            own_branches(old(self)@) && fork.name@ == fork_name(fork.id) ==> own_branches(
                final(self)@,
            ),
    {
        let ghost m = self@;
        proof {
            law_splits_keep_order(m, fork.id, fork.name@, dir);
            assert(m.order.contains(m.focus));
        }
        let id: PaneId = fork.id;
        let parent: PaneId = self.focus;
        self.put_pane(id, Pane::new(fork.name));
        self.order.push(id);
        let mut repl = Some(
            Layout::Split {
                dir,
                a: Box::new(Layout::Leaf(parent)),
                b: Box::new(Layout::Leaf(id)),
            },
        );
        replace_leaf(&mut self.layout, parent, &mut repl);
        self.focus = id;
        assert(self@ =~= after_split(m, id, fork.name@, dir));
    }

    /// Says which branch has the focus, once a command is done.
    pub fn command_done(&mut self)
        requires
            in_order(old(self)@),
        ensures
            in_order(final(self)@),
            final(self)@ == told_focus(old(self)@),
    {
        self.tell_focus();
    }
}

// ---------- Terminal programs -----------------------------------------------

/// The area of the panes: the whole screen but for its last row, which holds the status bar.
pub open spec fn area(size: (u16, u16)) -> Rect {
    Rect {
        x: 0,
        y: 0,
        w: size.0,
        h: if size.1 > 0 {
            (size.1 - 1) as u16
        } else {
            0
        },
    }
}

/// The screen is too small for panes.
pub open spec fn too_small(size: (u16, u16)) -> bool {
    size.0 < 4 || size.1 < 4
}

/// The rows and columns inside a pane's border.
pub open spec fn interior(r: Rect) -> (u16, u16) {
    (
        if r.h > 2 {
            (r.h - 2) as u16
        } else {
            0
        },
        if r.w > 2 {
            (r.w - 2) as u16
        } else {
            0
        },
    )
}

/// The rows and columns inside a pane's border, where it is on the screen.
pub open spec fn inner_size(m: MuxV, p: PaneId) -> Option<(u16, u16)> {
    if too_small(m.size) {
        None
    } else {
        match tile_of(tiles(m.layout, area(m.size)), p, 0) {
            Some(r) => Some(interior(r)),
            None => None,
        }
    }
}

/// The size that a terminal program starts with.
pub open spec fn first_size(m: MuxV, p: PaneId) -> (u16, u16) {
    match inner_size(m, p) {
        Some(s) => s,
        None => (24, 80),
    }
}

/// The command for a terminal program: what was typed, or the user's shell.
pub open spec fn tty_command(active: ActiveV, shell: Option<Seq<char>>) -> Seq<char> {
    match active {
        ActiveV::Cooked { input } if trimmed(input).len() > 0 => trimmed(input),
        _ => match shell {
            Some(s) => s,
            None => "bash"@,
        },
    }
}

/// The multiplexer whose focused pane drives the terminal program `id`.
pub open spec fn after_tty(m: MuxV, id: CellId) -> MuxV {
    MuxV {
        tty_cells: m.tty_cells.insert(id),
        ..with_pane(
            m,
            m.focus,
            PaneV {
                active: ActiveV::LiveTty {
                    id,
                    resume: Seq::empty(),
                    size: first_size(m, m.focus),
                },
                ..m.panes[m.focus]
            },
        )
    }
}

/// A terminal to be given another size.
#[derive(Debug, Clone, Copy, PartialEq, Eq, Structural)]
pub struct Resize {
    pub pane: PaneId,
    pub id: CellId,
    pub rows: u16,
    pub cols: u16,
}

/// The size that the pane's terminal is to be given, where it has another one.
pub open spec fn misfit(m: MuxV, t: (PaneId, Rect)) -> Option<Resize> {
    let (rows, cols) = interior(t.1);
    if rows == 0 || cols == 0 || !m.panes.contains_key(t.0) {
        None
    } else {
        match m.panes[t.0].active {
            ActiveV::LiveTty { id, size, .. } => if size != (rows, cols) {
                Some(Resize { pane: t.0, id, rows, cols })
            } else {
                None
            },
            _ => None,
        }
    }
}

/// The multiplexer with a terminal's size changed.
pub open spec fn refitted(m: MuxV, r: Resize) -> MuxV {
    match m.panes[r.pane].active {
        ActiveV::LiveTty { id, resume, .. } => with_pane(
            m,
            r.pane,
            PaneV {
                active: ActiveV::LiveTty { id, resume, size: (r.rows, r.cols) },
                ..m.panes[r.pane]
            },
        ),
        _ => m,
    }
}

/// The multiplexer with the terminals of the given areas fitted, and the sizes they are given.
pub open spec fn reconciled(m: MuxV, t: Seq<(PaneId, Rect)>) -> (MuxV, Seq<Resize>)
    decreases t.len(),
{
    if t.len() == 0 {
        (m, Seq::empty())
    } else {
        let (n, done) = reconciled(m, t.drop_last());
        match misfit(n, t.last()) {
            Some(r) => (refitted(n, r), done.push(r)),
            None => (n, done),
        }
    }
}

/// The multiplexer with all terminals fitted to their panes.
pub open spec fn all_reconciled(m: MuxV) -> (MuxV, Seq<Resize>) {
    if too_small(m.size) {
        (m, Seq::empty())
    } else {
        reconciled(m, tiles(m.layout, area(m.size)))
    }
}

proof fn lemma_reconciled(m: MuxV, t: Seq<(PaneId, Rect)>)
    requires
        in_order(m),
    ensures
        in_order(reconciled(m, t).0),
    decreases t.len(),
{
    if t.len() > 0 {
        lemma_reconciled(m, t.drop_last());
    }
}

proof fn lemma_fitted(m: MuxV, t: Seq<(PaneId, Rect)>, i: int)
    requires
        forall|i: int, j: int|
            0 <= i < t.len() && 0 <= j < t.len() && i != j ==> (#[trigger] t[i]).0 != (
            #[trigger] t[j]).0,
        0 <= i < t.len(),
    ensures
        misfit(reconciled(m, t).0, t[i]) is None,
    decreases t.len(),
{
    let s = t.drop_last();
    assert forall|i: int, j: int|
        0 <= i < s.len() && 0 <= j < s.len() && i != j implies (#[trigger] s[i]).0 != (
    #[trigger] s[j]).0 by {
        assert(s[i] == t[i] && s[j] == t[j]);
    }
    if i < t.len() - 1 {
        lemma_fitted(m, s, i);
        assert(s[i] == t[i]);
        assert(t[i].0 != t[t.len() - 1].0);
    }
}

/// Once the terminals are fitted to their panes, they fit: there is nothing more to change.
pub proof fn law_fitted_terminals_fit(m: MuxV)
    requires
        in_order(m),
    ensures
        all_reconciled(all_reconciled(m).0) == (all_reconciled(m).0, Seq::<Resize>::empty()),
{
    if !too_small(m.size) {
        let t = tiles(m.layout, area(m.size));
        law_panes_tile_the_area(m.layout, area(m.size));
        assert forall|i: int, j: int|
            0 <= i < t.len() && 0 <= j < t.len() && i != j implies (#[trigger] t[i]).0 != (
        #[trigger] t[j]).0 by {
            assert(leaves(m.layout)[i] != leaves(m.layout)[j]);
        }
        let n = reconciled(m, t).0;
        lemma_same_frame(m, t);
        assert forall|i: int| 0 <= i < t.len() implies misfit(n, #[trigger] t[i]) is None by {
            lemma_fitted(m, t, i);
        }
        lemma_nothing_to_fit(n, t);
    }
}

proof fn lemma_same_frame(m: MuxV, t: Seq<(PaneId, Rect)>)
    ensures
        reconciled(m, t).0.layout == m.layout,
        reconciled(m, t).0.size == m.size,
    decreases t.len(),
{
    if t.len() > 0 {
        lemma_same_frame(m, t.drop_last());
    }
}

proof fn lemma_nothing_to_fit(m: MuxV, t: Seq<(PaneId, Rect)>)
    requires
        forall|i: int| 0 <= i < t.len() ==> misfit(m, #[trigger] t[i]) is None,
    ensures
        reconciled(m, t) == (m, Seq::<Resize>::empty()),
    decreases t.len(),
{
    if t.len() > 0 {
        assert(t[t.len() - 1] == t.last());
        assert forall|i: int| 0 <= i < t.drop_last().len() implies misfit(
            m,
            #[trigger] t.drop_last()[i],
        ) is None by {
            assert(t.drop_last()[i] == t[i]);
        }
        lemma_nothing_to_fit(m, t.drop_last());
    }
}

fn inside_border(r: Rect) -> (s: (u16, u16))
    ensures
        s == interior(r),
{
    (
        if r.h > 2 {
            r.h - 2
        } else {
            0
        },
        if r.w > 2 {
            r.w - 2
        } else {
            0
        },
    )
}

impl Mux {
    /// The area of each pane. The screen must be large enough for panes.
    pub fn rects(&self) -> (r: Vec<(PaneId, Rect)>)
        requires
            !too_small(self@.size),
        ensures
            r@ == tiles(self@.layout, area(self@.size)),
    {
        let (cols, rows) = self.size;
        let whole = Rect { x: 0, y: 0, w: cols, h: rows - 1 };
        let mut rects: Vec<(PaneId, Rect)> = Vec::new();
        layout_rects(&self.layout, whole, &mut rects);
        assert(rects@ =~= tiles(self@.layout, area(self@.size)));
        rects
    }

    /// The rows and columns inside a pane's border, where it is on the screen.
    pub fn pane_inner(&self, p: PaneId) -> (r: Option<(u16, u16)>)
        ensures
            r == inner_size(self@, p),
    {
        let (cols, rows) = self.size;
        if cols < 4 || rows < 4 {
            return None;
        }
        match rect_of(&self.rects(), p) {
            Some(r) => Some(inside_border(r)),
            None => None,
        }
    }

    /// The branch of the focused pane and the command of the terminal program to run there.
    pub fn tty_request(&self, shell: Option<String>) -> (r: (String, String))
        requires
            in_order(self@),
        ensures
            r.0@ == self@.panes[self@.focus].branch,
            r.1@ == tty_command(self@.panes[self@.focus].active, opt_text(shell)),
    {
        assert(self@.order.contains(self@.focus));
        let branch = match self.pane(self.focus) {
            Some(pane) => {
                if let Active::Cooked { input } = &pane.active {
                    let line = trim(input.as_str());
                    if !line.as_str().is_empty() {
                        return (pane.branch.clone(), line);
                    }
                }
                pane.branch.clone()
            },
            None => String::new(),
        };
        let command = match shell {
            Some(s) => s,
            None => "bash".to_owned(),
        };
        (branch, command)
    }

    /// Lets the focused pane drive the terminal program `id`, and gives the program's rows and
    /// columns.
    pub fn enter_tty(&mut self, id: CellId) -> (r: (u16, u16))
        requires
            in_order(old(self)@),
        ensures
            in_order(final(self)@),
            final(self)@ == after_tty(old(self)@, id),
            r == first_size(old(self)@, old(self)@.focus),
    {
        broadcast use vstd::std_specs::hash::group_hash_axioms;

        let ghost m = self@;
        assert(m.order.contains(m.focus));
        let focus: PaneId = self.focus;
        let size: (u16, u16) = match self.pane_inner(focus) {
            Some(s) => s,
            None => (24, 80),
        };
        self.tty_cells.insert(id);
        assert(self@ =~= MuxV { tty_cells: m.tty_cells.insert(id), ..m });
        let resume = String::new();
        assert(resume@ =~= Seq::<char>::empty());
        if let Some(pane) = self.take_pane(focus) {
            let mut pane = pane;
            pane.active = Active::LiveTty { id, resume, size };
            self.put_pane(focus, pane);
        }
        assert(self@ =~= after_tty(m, id));
        size
    }

    /// Says that a terminal program could not be run.
    pub fn tty_failed(&mut self, e: &str)
        ensures
            final(self)@ == (MuxV { status: "tty launch failed: "@ + e@, ..old(self)@ }),
    {
        let mut s = "tty launch failed: ".to_owned();
        s.append(e);
        self.status = s;
    }

    fn fit(&mut self, p: PaneId, r: Rect) -> (z: Option<Resize>)
        ensures
            z == misfit(old(self)@, (p, r)),
            final(self)@ == match z {
                Some(s) => refitted(old(self)@, s),
                None => old(self)@,
            },
    {
        let ghost m = self@;
        let (rows, cols) = inside_border(r);
        if rows == 0 || cols == 0 {
            return None;
        }
        match self.take_pane(p) {
            Some(pane) => {
                let branch = pane.branch;
                let scrollback = pane.scrollback;
                let (active, z) = match pane.active {
                    Active::LiveTty { id, resume, size } => {
                        if size.0 != rows || size.1 != cols {
                            (
                                Active::LiveTty { id, resume, size: (rows, cols) },
                                Some(Resize { pane: p, id, rows, cols }),
                            )
                        } else {
                            (Active::LiveTty { id, resume, size }, None)
                        }
                    },
                    other => (other, None),
                };
                self.put_pane(p, Pane { branch, scrollback, active });
                assert(self@.panes =~= (match z {
                    Some(s) => refitted(m, s),
                    None => m,
                }).panes);
                z
            },
            None => None,
        }
    }

    /// Keeps each terminal sized to the inside of its pane, and gives the sizes that changed.
    pub fn reconcile_tty_sizes(&mut self) -> (r: Vec<Resize>)
        requires
            in_order(old(self)@),
        ensures
            in_order(final(self)@),
            (final(self)@, r@) == all_reconciled(old(self)@),
    {
        let ghost m = self@;
        let mut done: Vec<Resize> = Vec::new();
        let (cols, rows) = self.size;
        if cols < 4 || rows < 4 {
            return done;
        }
        let rects = self.rects();
        let ghost t = rects@;
        let mut i: usize = 0;
        assert(t.take(0) =~= Seq::<(PaneId, Rect)>::empty());
        while i < rects.len()
            invariant
                i <= rects.len(),
                t == rects@,
                (self@, done@) == reconciled(m, t.take(i as int)),
            decreases rects.len() - i,
        {
            proof {
                assert(t.take(i + 1).drop_last() =~= t.take(i as int));
                assert(t.take(i + 1).last() == t[i as int]);
            }
            match self.fit(rects[i].0, rects[i].1) {
                Some(z) => {
                    done.push(z);
                },
                None => {},
            }
            i += 1;
        }
        proof {
            assert(t.take(i as int) =~= t);
            lemma_reconciled(m, t);
        }
        done
    }
}

impl Mux {
    /// The focused pane.
    pub fn focus(&self) -> (r: PaneId)
        ensures
            r == self@.focus,
    {
        self.focus
    }

    /// Where keys go.
    pub fn mode(&self) -> (r: Mode)
        ensures
            r == self@.mode,
    {
        self.mode
    }

    /// What the status bar says.
    pub fn status(&self) -> (r: &str)
        ensures
            r@ == self@.status,
    {
        self.status.as_str()
    }

    /// The columns and rows of the screen.
    pub fn size(&self) -> (r: (u16, u16))
        ensures
            r == self@.size,
    {
        self.size
    }

    /// Whether there is a number for another pane.
    pub fn can_split(&self) -> (r: bool)
        ensures
            r == (self@.next_id < u32::MAX),
    {
        self.next_id < u32::MAX
    }
}

// ---------- Messages --------------------------------------------------------

/// What reaches the multiplexer besides input.
#[derive(Debug)]
pub enum Msg {
    /// An event of any cell, on any branch.
    Event(CellEvent),
    /// A line submitted here never became a cell.
    SubmitFailed { pane: PaneId, err: String },
    /// Output of a pane's terminal program.
    TtyOutput { pane: PaneId, data: Vec<u8> },
    /// A pane's terminal program ended, or its connection did.
    TtyClosed { pane: PaneId },
}

/// What a pane's terminal is to do.
#[derive(Debug)]
pub enum Terminal {
    Nothing,
    /// Take in output.
    Feed { pane: PaneId, data: Vec<u8> },
    /// Go away.
    Drop { pane: PaneId },
}

/// What reaches the multiplexer besides input.
pub enum MsgV {
    Event(CellEventV),
    SubmitFailed { pane: PaneId, err: Seq<char> },
    TtyOutput { pane: PaneId, data: Seq<u8> },
    TtyClosed { pane: PaneId },
}

/// What a pane's terminal is to do.
pub enum TerminalV {
    Nothing,
    Feed { pane: PaneId, data: Seq<u8> },
    Drop { pane: PaneId },
}

impl View for Msg {
    type V = MsgV;

    open spec fn view(&self) -> MsgV {
        match self {
            Msg::Event(e) => MsgV::Event(e@),
            Msg::SubmitFailed { pane, err } => MsgV::SubmitFailed { pane: *pane, err: err@ },
            Msg::TtyOutput { pane, data } => MsgV::TtyOutput { pane: *pane, data: data@ },
            Msg::TtyClosed { pane } => MsgV::TtyClosed { pane: *pane },
        }
    }
}

impl View for Terminal {
    type V = TerminalV;

    open spec fn view(&self) -> TerminalV {
        match self {
            Terminal::Nothing => TerminalV::Nothing,
            Terminal::Feed { pane, data } => TerminalV::Feed { pane: *pane, data: data@ },
            Terminal::Drop { pane } => TerminalV::Drop { pane: *pane },
        }
    }
}

/// A line that never became a cell, as the pane shows it.
pub open spec fn failed_view(err: Seq<char>) -> CellViewV {
    CellViewV {
        source: "(submit failed)"@,
        who: "fern"@,
        body: err,
        exit: Some(-1i32),
        duration_ms: 0,
    }
}

/// The multiplexer after a message, and what the pane's terminal is to do.
pub open spec fn after_msg(m: MuxV, msg: MsgV) -> (MuxV, TerminalV) {
    match msg {
        MsgV::Event(e) => (after_event(m, e), TerminalV::Nothing),
        MsgV::SubmitFailed { pane: p, err } => (
            if m.panes.contains_key(p) {
                with_pane(
                    m,
                    p,
                    PaneV {
                        scrollback: m.panes[p].scrollback.push(failed_view(err)),
                        active: ActiveV::Cooked { input: Seq::empty() },
                        ..m.panes[p]
                    },
                )
            } else {
                m
            },
            TerminalV::Nothing,
        ),
        MsgV::TtyOutput { pane: p, data } => (
            m,
            if m.panes.contains_key(p) && m.panes[p].active is LiveTty {
                TerminalV::Feed { pane: p, data }
            } else {
                TerminalV::Nothing
            },
        ),
        MsgV::TtyClosed { pane: p } => if m.panes.contains_key(p) {
            match m.panes[p].active {
                ActiveV::LiveTty { id, resume, .. } => (
                    MuxV {
                        tty_cells: m.tty_cells.remove(id),
                        ..with_pane(
                            m,
                            p,
                            PaneV { active: ActiveV::Cooked { input: resume }, ..m.panes[p] },
                        )
                    },
                    TerminalV::Drop { pane: p },
                ),
                _ => (m, TerminalV::Nothing),
            }
        } else {
            (m, TerminalV::Nothing)
        },
    }
}

impl Mux {
    fn submit_failed(&mut self, p: PaneId, err: String)
        ensures
            final(self)@ == after_msg(old(self)@, MsgV::SubmitFailed { pane: p, err: err@ }).0,
    {
        if let Some(pane) = self.take_pane(p) {
            let mut pane = pane;
            pane.show(
                CellView {
                    source: "(submit failed)".to_owned(),
                    who: "fern".to_owned(),
                    body: err,
                    exit: Some(-1),
                    duration_ms: 0,
                },
            );
            let input = String::new();
            assert(input@ =~= Seq::<char>::empty());
            pane.active = Active::Cooked { input };
            self.put_pane(p, pane);
            assert(self@ =~= after_msg(
                old(self)@,
                MsgV::SubmitFailed { pane: p, err: err@ },
            ).0);
        }
    }

    fn tty_closed(&mut self, p: PaneId) -> (r: Terminal)
        ensures
            (final(self)@, r@) == after_msg(old(self)@, MsgV::TtyClosed { pane: p }),
    {
        broadcast use vstd::std_specs::hash::group_hash_axioms;

        let ghost m = self@;
        match self.take_pane(p) {
            Some(pane) => {
                let branch = pane.branch;
                let scrollback = pane.scrollback;
                match pane.active {
                    Active::LiveTty { id, resume, .. } => {
                        let active = Active::Cooked { input: resume };
                        self.put_pane(p, Pane { branch, scrollback, active });
                        self.tty_cells.remove(&id);
                        assert(self@ =~= after_msg(m, MsgV::TtyClosed { pane: p }).0);
                        Terminal::Drop { pane: p }
                    },
                    active => {
                        self.put_pane(p, Pane { branch, scrollback, active });
                        assert(self@.panes =~= m.panes);
                        Terminal::Nothing
                    },
                }
            },
            None => Terminal::Nothing,
        }
    }

    /// Takes in a message, and says what the pane's terminal is to do.
    pub fn apply_msg(&mut self, msg: Msg) -> (r: Terminal)
        requires
            in_order(old(self)@),
        ensures
            in_order(final(self)@),
            (final(self)@, r@) == after_msg(old(self)@, msg@),
    {
        match msg {
            Msg::Event(e) => {
                self.apply_event(e);
                Terminal::Nothing
            },
            Msg::SubmitFailed { pane, err } => {
                self.submit_failed(pane, err);
                Terminal::Nothing
            },
            Msg::TtyOutput { pane, data } => {
                match self.pane(pane) {
                    Some(p) => {
                        if matches!(p.active, Active::LiveTty { .. }) {
                            return Terminal::Feed { pane, data };
                        }
                    },
                    None => {},
                }
                Terminal::Nothing
            },
            Msg::TtyClosed { pane } => self.tty_closed(pane),
        }
    }
}

/// The multiplexer after events, in order.
pub open spec fn after_events(m: MuxV, es: Seq<CellEventV>) -> MuxV
    decreases es.len(),
{
    if es.len() == 0 {
        m
    } else {
        after_event(after_events(m, es.drop_last()), es.last())
    }
}

/// The events are chunks of what the cell `id` writes.
pub open spec fn are_chunks(es: Seq<CellEventV>, id: CellId) -> bool {
    forall|i: int|
        0 <= i < es.len() ==> (#[trigger] es[i]) is OutputChunk && event_cell(es[i]) == id
}

/// The texts of chunks, in order.
pub open spec fn said(es: Seq<CellEventV>) -> Seq<char>
    decreases es.len(),
{
    if es.len() == 0 {
        Seq::empty()
    } else {
        said(es.drop_last()) + es.last()->data
    }
}

proof fn lemma_chunks(m: MuxV, id: CellId, es: Seq<CellEventV>)
    requires
        are_chunks(es, id),
        !m.tty_cells.contains(id),
        m.routes.contains_key(id),
        m.panes.contains_key(m.routes[id]),
        m.panes[m.routes[id]].active is Running,
    ensures
        ({
            let p = m.routes[id];
            after_events(m, es) == with_pane(m, p, pane_wrote(m.panes[p], said(es)))
        }),
    decreases es.len(),
{
    let p = m.routes[id];
    let body = m.panes[p].active->body;
    if es.len() == 0 {
        assert(body + said(es) =~= body);
        assert(m.panes.insert(p, m.panes[p]) =~= m.panes);
    } else {
        let before = es.drop_last();
        assert forall|i: int| 0 <= i < before.len() implies (#[trigger] before[i]) is OutputChunk
            && event_cell(before[i]) == id by {
            assert(before[i] == es[i]);
        }
        lemma_chunks(m, id, before);
        assert(es[es.len() - 1] == es.last());
        assert(body + said(before) + es.last()->data =~= body + said(es));
        let n = with_pane(m, p, pane_wrote(m.panes[p], said(es)));
        assert(after_events(m, es).panes =~= n.panes);
    }
}

/// What was half typed in a pane comes back once a cell that came from elsewhere has finished,
/// whatever that wrote.
pub proof fn law_typed_text_comes_back(
    m: MuxV,
    started: CellEventV,
    wrote: Seq<CellEventV>,
    finished: CellEventV,
)
    requires
        in_order(m),
        started is Started,
        are_chunks(wrote, event_cell(started)),
        finished is Completed,
        event_cell(started) == event_cell(finished),
        !m.tty_cells.contains(event_cell(started)),
        pane_on_branch(m, started->branch, 0) matches Some(p) && m.panes[p].active is Cooked,
    ensures
        ({
            let p = pane_on_branch(m, started->branch, 0)->0;
            let n = after_event(after_events(after_event(m, started), wrote), finished);
            n.panes[p].active == m.panes[p].active
        }),
{
    law_cells_are_shown(m, started, wrote, finished);
}

/// A pane that drives a terminal program is left alone by the events of cells.
pub proof fn law_terminal_panes_are_left_alone(m: MuxV, e: CellEventV, p: PaneId)
    requires
        in_order(m),
        m.panes.contains_key(p),
        m.panes[p].active is LiveTty,
    ensures
        after_event(m, e).panes.contains_key(p),
        after_event(m, e).panes[p] == m.panes[p],
{
    lemma_pane_on_branch(m, match e {
        CellEventV::Started { branch, .. } => branch,
        _ => Seq::empty(),
    }, 0);
}

/// A cell that starts on a pane's branch is shown there: while it runs with all that it wrote, in
/// order, and once it has finished in the scrollback, with who submitted it, and the prompt is
/// back. No other pane changes.
pub proof fn law_cells_are_shown(
    m: MuxV,
    started: CellEventV,
    wrote: Seq<CellEventV>,
    finished: CellEventV,
)
    requires
        in_order(m),
        started is Started,
        are_chunks(wrote, event_cell(started)),
        finished is Completed,
        event_cell(started) == event_cell(finished),
        !m.tty_cells.contains(event_cell(started)),
        pane_on_branch(m, started->branch, 0) matches Some(p) && !(m.panes[p].active is LiveTty),
    ensures
        ({
            let p = pane_on_branch(m, started->branch, 0)->0;
            let id = event_cell(started);
            let now = after_events(after_event(m, started), wrote);
            let n = after_event(now, finished);
            let (source, who, body, resume) = match m.panes[p].active {
                ActiveV::Running { id: None, source, who, body, resume } => (
                    source,
                    who,
                    body,
                    resume,
                ),
                ActiveV::Cooked { input } => (
                    started->source,
                    started->who,
                    Seq::<char>::empty(),
                    input,
                ),
                _ => (
                    started->source,
                    started->who,
                    Seq::<char>::empty(),
                    Seq::<char>::empty(),
                ),
            };
            &&& now.panes == m.panes.insert(p, PaneV {
                active: ActiveV::Running {
                    id: Some(id),
                    source,
                    who,
                    body: body + said(wrote),
                    resume,
                },
                ..m.panes[p]
            })
            &&& n.panes == m.panes.insert(p, PaneV {
                scrollback: m.panes[p].scrollback.push(
                    CellViewV {
                        source,
                        who,
                        body: body + said(wrote),
                        exit: Some(finished->exit_code),
                        duration_ms: finished->duration_ms,
                    },
                ),
                active: ActiveV::Cooked { input: resume },
                ..m.panes[p]
            })
        }),
{
    lemma_pane_on_branch(m, started->branch, 0);
    let first = after_event(m, started);
    let p = pane_on_branch(m, started->branch, 0)->0;
    lemma_chunks(first, event_cell(started), wrote);
    let now = after_events(first, wrote);
    assert(now.panes =~= m.panes.insert(p, now.panes[p]));
    let n = after_event(now, finished);
    assert(n.panes =~= m.panes.insert(p, n.panes[p]));
}

/// A line submitted in a pane is shown there once it has finished: as it was typed, with what it
/// wrote, chunk by chunk, under who submitted it.
pub proof fn law_submitted_lines_are_shown(
    m: MuxV,
    started: CellEventV,
    wrote: Seq<CellEventV>,
    finished: CellEventV,
)
    requires
        in_order(m),
        started is Started,
        are_chunks(wrote, event_cell(started)),
        finished is Completed,
        event_cell(started) == event_cell(finished),
        !m.tty_cells.contains(event_cell(started)),
        pane_on_branch(m, started->branch, 0) matches Some(p) && (
        m.panes[p].active matches ActiveV::Running { id: None, .. }),
    ensures
        ({
            let p = pane_on_branch(m, started->branch, 0)->0;
            let n = after_event(after_events(after_event(m, started), wrote), finished);
            m.panes[p].active matches ActiveV::Running { source, who, body, resume, .. }
                && n.panes[p].active == (ActiveV::Cooked { input: resume }) && n.panes[p].scrollback
                == m.panes[p].scrollback.push(
                CellViewV {
                    source,
                    who,
                    body: body + said(wrote),
                    exit: Some(finished->exit_code),
                    duration_ms: finished->duration_ms,
                },
            )
        }),
{
    law_cells_are_shown(m, started, wrote, finished);
}

// ---------- The connection of a terminal program ----------------------------

/// What an answer on a terminal program's connection means for its pane.
#[derive(Debug)]
pub enum TtyNews {
    Nothing,
    Output(Vec<u8>),
    Closed,
}

/// Whether the answer to an attach request lets the pane drive the program. No answer, or one
/// that is none, does not.
pub fn tty_attached(answer: &Option<Response>) -> (r: bool)
    ensures
        r == (*answer matches Some(a) && a@ is Done),
{
    match answer {
        Some(Response::Done) => true,
        _ => false,
    }
}

/// What an answer on a terminal program's connection means for its pane.
pub fn tty_news(answer: Response) -> (r: TtyNews)
    ensures
        match answer@ {
            ResponseV::Event(CellEventV::OutputChunk { data, .. }) => r matches TtyNews::Output(b)
                && b@ == encode_utf8(data),
            ResponseV::Event(CellEventV::Completed { .. }) => r is Closed,
            _ => r is Nothing,
        },
{
    match answer {
        Response::Event(CellEvent::OutputChunk { data, .. }) => TtyNews::Output(
            bytes_of(data.as_str()),
        ),
        Response::Event(CellEvent::Completed { .. }) => TtyNews::Closed,
        _ => TtyNews::Nothing,
    }
}

/// The request that hands bytes to a terminal program.
pub fn tty_input(id: CellId, bytes: &[u8]) -> (r: Request)
    ensures
        r@ == (RequestV::Input { id, data: as_text(bytes@) }),
{
    Request::Input { id, data: text_of_bytes(bytes) }
}

} // verus!
