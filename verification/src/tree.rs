//! Core types: State, Process, Cell, and the Tree that holds them.
//!
//! Cells form a Merkle DAG. Each cell takes a parent `State`, evaluates one command line, and
//! produces a new `State` and structured output. On completion the cell is content-addressed:
//! its hash covers the parent's hash, the source, the submitter, stdout, stderr, the exit code
//! and the end state. The hash of the root cell baselines the machine through `SystemInfo`, so
//! that the hash of every descendant transitively encodes "this happened on *that* machine in
//! *that* state".

use std::collections::HashMap;
use vstd::prelude::*;
use vstd::utf8::*;

use crate::forest::{law_new_trees_are_sound, sound};
use crate::hash::{cell_hash, hash_cell, hash_root, root_hash};
use crate::names::{is_listing, listing, text_map, texts, NameMap};
use crate::text::{bytes_of, copy_opt, opt_text, trim, trimmed};

verus! {

// ---------- State and process -----------------------------------------------

/// Inheritable context that flows down the cell tree.
#[derive(Debug)]
pub struct State {
    pub cwd: String,
    pub env: NameMap<String>,
}

/// A state: the working directory and the environment.
#[verifier::ext_equal]
pub struct StateV {
    pub cwd: Seq<char>,
    pub env: Map<Seq<char>, Seq<char>>,
}

impl View for State {
    type V = StateV;

    open spec fn view(&self) -> StateV {
        StateV { cwd: self.cwd@, env: text_map(self.env@) }
    }
}

impl Clone for State {
    fn clone(&self) -> (r: State)
        ensures
            r@ == self@,
    {
        State { cwd: self.cwd.clone(), env: self.env.copy() }
    }
}

impl Default for State {
    fn default() -> (r: State)
        ensures
            r@ == (StateV { cwd: Seq::<char>::empty(), env: Map::empty() }),
    {
        let r = State { cwd: String::new(), env: NameMap::new() };
        assert(r@.cwd =~= Seq::<char>::empty());
        assert(r@.env =~= Map::empty());
        r
    }
}

/// `env` with `value` for `key`, where there is one.
pub open spec fn with_var(
    env: Map<Seq<char>, Seq<char>>,
    key: Seq<char>,
    value: Option<Seq<char>>,
) -> Map<Seq<char>, Seq<char>> {
    match value {
        Some(v) => env.insert(key, v),
        None => env,
    }
}

impl State {
    /// Gives a variable a value.
    pub fn set_var(&mut self, key: &str, value: String)
        ensures
            final(self)@ == (StateV {
                cwd: old(self)@.cwd,
                env: old(self)@.env.insert(key@, value@),
            }),
    {
        self.env.insert(key.to_owned(), value);
        assert(self@.env =~= old(self)@.env.insert(key@, value@));
    }

    /// Takes a variable out of the environment.
    pub fn unset_var(&mut self, key: &str)
        ensures
            final(self)@ == (StateV { cwd: old(self)@.cwd, env: old(self)@.env.remove(key@) }),
    {
        self.env.remove(key);
        assert(self@.env =~= old(self)@.env.remove(key@));
    }

    fn set_opt(&mut self, key: &str, value: Option<String>)
        ensures
            final(self)@ == (StateV {
                cwd: old(self)@.cwd,
                env: with_var(old(self)@.env, key@, opt_text(value)),
            }),
    {
        match value {
            Some(v) => {
                self.set_var(key, v);
            },
            None => {},
        }
    }

    /// The value of a variable.
    pub fn var(&self, key: &str) -> (r: Option<String>)
        ensures
            opt_text(r) == if self@.env.contains_key(key@) {
                Some(self@.env[key@])
            } else {
                None
            },
    {
        match self.env.get(key) {
            Some(v) => Some(v.clone()),
            None => None,
        }
    }

    /// A reasonable starting state: the working directory, and of the environment those of
    /// `PATH`, `HOME`, `USER`, `LANG` and `TERM` that are set. `PWD` is seeded from the working
    /// directory and not from the environment, so that the state agrees with itself.
    pub fn baseline(
        cwd: String,
        path: Option<String>,
        home: Option<String>,
        user: Option<String>,
        lang: Option<String>,
        term: Option<String>,
    ) -> (r: State)
        ensures
            r@.cwd == cwd@,
            r@.env == ({
                let e = with_var(Map::empty(), "PATH"@, opt_text(path));
                let e = with_var(e, "HOME"@, opt_text(home));
                let e = with_var(e, "USER"@, opt_text(user));
                let e = with_var(e, "LANG"@, opt_text(lang));
                let e = with_var(e, "TERM"@, opt_text(term));
                e.insert("PWD"@, cwd@)
            }),
    {
        let pwd = cwd.clone();
        let mut s = State { cwd, env: NameMap::new() };
        assert(s@.env =~= Map::empty());
        s.set_opt("PATH", path);
        s.set_opt("HOME", home);
        s.set_opt("USER", user);
        s.set_opt("LANG", lang);
        s.set_opt("TERM", term);
        s.set_var("PWD", pwd);
        s
    }
}

/// The texts of a vector of strings.
pub open spec fn strings(v: Seq<String>) -> Seq<Seq<char>> {
    v.map_values(|s: String| s@)
}

/// OS-level description of one spawn, derived from a parent `State` and the arguments.
#[derive(Debug)]
pub struct Process {
    pub argv: Vec<String>,
    pub cwd: String,
    pub env: NameMap<String>,
}

/// A spawn.
pub struct ProcessV {
    pub argv: Seq<Seq<char>>,
    pub cwd: Seq<char>,
    pub env: Map<Seq<char>, Seq<char>>,
}

impl View for Process {
    type V = ProcessV;

    open spec fn view(&self) -> ProcessV {
        ProcessV { argv: strings(self.argv@), cwd: self.cwd@, env: text_map(self.env@) }
    }
}

impl Process {
    /// The process that runs `argv` in the parent's directory and environment.
    pub fn from_state(parent: &State, argv: Vec<String>) -> (r: Process)
        ensures
            r@ == (ProcessV { argv: strings(argv@), cwd: parent@.cwd, env: parent@.env }),
    {
        Process { argv, cwd: parent.cwd.clone(), env: parent.env.copy() }
    }
}

// ---------- Output ----------------------------------------------------------

/// What a command line left behind.
#[derive(Debug)]
pub struct Output {
    pub exit_code: i32,
    pub stdout: Vec<u8>,
    pub stderr: Vec<u8>,
}

impl Default for Output {
    fn default() -> (r: Output)
        ensures
            r.exit_code == 0,
            r.stdout@ == Seq::<u8>::empty(),
            r.stderr@ == Seq::<u8>::empty(),
    {
        Output { exit_code: 0, stdout: Vec::new(), stderr: Vec::new() }
    }
}

/// A copy of a byte vector.
pub fn copy_bytes(v: &Vec<u8>) -> (r: Vec<u8>)
    ensures
        r@ == v@,
{
    let mut r: Vec<u8> = Vec::new();
    let mut i: usize = 0;
    while i < v.len()
        invariant
            i <= v.len(),
            r@ == v@.take(i as int),
        decreases v.len() - i,
    {
        r.push(v[i]);
        i += 1;
        assert(v@.take(i as int) =~= v@.take(i - 1).push(v@[i - 1]));
    }
    assert(v@.take(i as int) =~= v@);
    r
}

impl Clone for Output {
    fn clone(&self) -> (r: Output)
        ensures
            r.exit_code == self.exit_code,
            r.stdout@ == self.stdout@,
            r.stderr@ == self.stderr@,
    {
        Output {
            exit_code: self.exit_code,
            stdout: copy_bytes(&self.stdout),
            stderr: copy_bytes(&self.stderr),
        }
    }
}

// ---------- SystemInfo (baseline for the root cell's hash) -------------------

/// The machine that a tree was started on.
#[derive(Debug)]
pub struct SystemInfo {
    pub os: String,
    pub arch: String,
    pub hostname: String,
    pub fern_version: String,
}

/// The machine that a tree was started on.
pub struct SystemInfoV {
    pub os: Seq<char>,
    pub arch: Seq<char>,
    pub hostname: Seq<char>,
    pub fern_version: Seq<char>,
}

impl View for SystemInfo {
    type V = SystemInfoV;

    open spec fn view(&self) -> SystemInfoV {
        SystemInfoV {
            os: self.os@,
            arch: self.arch@,
            hostname: self.hostname@,
            fern_version: self.fern_version@,
        }
    }
}

impl Clone for SystemInfo {
    fn clone(&self) -> (r: SystemInfo)
        ensures
            r@ == self@,
    {
        SystemInfo {
            os: self.os.clone(),
            arch: self.arch.clone(),
            hostname: self.hostname.clone(),
            fern_version: self.fern_version.clone(),
        }
    }
}

/// The name of the machine: what its name file holds, unless that is blank; otherwise the
/// variable; otherwise `unknown`.
pub open spec fn hostname(file: Option<Seq<char>>, var: Option<Seq<char>>) -> Seq<char> {
    match file {
        Some(f) if trimmed(f).len() > 0 => trimmed(f),
        _ => match var {
            Some(v) => v,
            None => "unknown"@,
        },
    }
}

impl SystemInfo {
    /// Describes a machine. The host name comes from the text of its name file, where it could
    /// be read, and from the environment otherwise.
    pub fn collect(
        os: String,
        arch: String,
        name_file: Option<String>,
        name_var: Option<String>,
        fern_version: String,
    ) -> (r: SystemInfo)
        ensures
            r@ == (SystemInfoV {
                os: os@,
                arch: arch@,
                hostname: hostname(opt_text(name_file), opt_text(name_var)),
                fern_version: fern_version@,
            }),
    {
        let file = match name_file {
            Some(f) => {
                let t = trim(f.as_str());
                if t.as_str().is_empty() {
                    None
                } else {
                    Some(t)
                }
            },
            None => None,
        };
        let name = match file {
            Some(t) => t,
            None => match name_var {
                Some(v) => v,
                None => "unknown".to_owned(),
            },
        };
        SystemInfo { os, arch, hostname: name, fern_version }
    }
}

// ---------- Cells -----------------------------------------------------------

/// The number of a cell.
pub type CellId = u64;

/// Hex-encoded SHA-256 of the cell's content. Cryptographic identity.
pub type Hash = String;

/// One command line in the tree.
#[derive(Debug)]
pub struct Cell {
    pub id: CellId,
    pub parent: Option<CellId>,
    pub submitter: String,
    /// The command line as the user typed it. Empty for the root cell.
    pub source: String,
    pub result: Option<CellResult>,
    /// Content hash. None while the cell is still running; Some after the result has been
    /// recorded.
    pub hash: Option<Hash>,
}

/// What a finished cell left behind.
#[derive(Debug)]
pub struct CellResult {
    pub exit_code: i32,
    pub stdout: Vec<u8>,
    pub stderr: Vec<u8>,
    pub duration_ms: u64,
    pub end_state: State,
}

/// A result.
pub struct ResultV {
    pub exit_code: i32,
    pub stdout: Seq<u8>,
    pub stderr: Seq<u8>,
    pub duration_ms: u64,
    pub end_state: StateV,
}

/// A cell.
pub struct CellV {
    pub id: CellId,
    pub parent: Option<CellId>,
    pub submitter: Seq<char>,
    pub source: Seq<char>,
    pub result: Option<ResultV>,
    pub hash: Option<Seq<char>>,
}

impl View for CellResult {
    type V = ResultV;

    open spec fn view(&self) -> ResultV {
        ResultV {
            exit_code: self.exit_code,
            stdout: self.stdout@,
            stderr: self.stderr@,
            duration_ms: self.duration_ms,
            end_state: self.end_state@,
        }
    }
}

/// An optional result as a value.
pub open spec fn result_view(r: Option<CellResult>) -> Option<ResultV> {
    match r {
        Some(r) => Some(r@),
        None => None,
    }
}

impl View for Cell {
    type V = CellV;

    open spec fn view(&self) -> CellV {
        CellV {
            id: self.id,
            parent: self.parent,
            submitter: self.submitter@,
            source: self.source@,
            result: result_view(self.result),
            hash: opt_text(self.hash),
        }
    }
}

impl Clone for CellResult {
    fn clone(&self) -> (r: CellResult)
        ensures
            r@ == self@,
    {
        CellResult {
            exit_code: self.exit_code,
            stdout: copy_bytes(&self.stdout),
            stderr: copy_bytes(&self.stderr),
            duration_ms: self.duration_ms,
            end_state: self.end_state.clone(),
        }
    }
}

impl Clone for Cell {
    fn clone(&self) -> (r: Cell)
        ensures
            r@ == self@,
    {
        Cell {
            id: self.id,
            parent: self.parent,
            submitter: self.submitter.clone(),
            source: self.source.clone(),
            result: match &self.result {
                Some(r) => Some(r.clone()),
                None => None,
            },
            hash: copy_opt(&self.hash),
        }
    }
}

// ---------- The tree --------------------------------------------------------

/// The default branch every tree starts with, pointing at the root cell.
pub const DEFAULT_BRANCH: &'static str = "main";

/// The cells and the named pointers into them.
#[derive(Debug)]
pub struct Tree {
    cells: HashMap<CellId, Cell>,
    children: HashMap<CellId, Vec<CellId>>,
    next_id: CellId,
    /// Named, mutable pointers into the tree. A branch is a name for its current tip. The tip
    /// moves forward as work lands on the branch, and may point at a cell that is still running.
    branches: NameMap<CellId>,
}

/// A tree: its cells by number, the children of each in the order they came, the next free
/// number, and the tip of each branch.
#[verifier::ext_equal]
pub struct TreeV {
    pub cells: Map<CellId, CellV>,
    pub children: Map<CellId, Seq<CellId>>,
    pub next_id: CellId,
    pub branches: Map<Seq<char>, CellId>,
}

/// The cells of a map.
pub open spec fn cells_view(m: Map<CellId, Cell>) -> Map<CellId, CellV> {
    Map::new(|k: CellId| m.contains_key(k), |k: CellId| m[k]@)
}

/// The lists of numbers of a map.
pub open spec fn lists_view(m: Map<CellId, Vec<CellId>>) -> Map<CellId, Seq<CellId>> {
    Map::new(|k: CellId| m.contains_key(k), |k: CellId| m[k]@)
}

impl View for Tree {
    type V = TreeV;

    closed spec fn view(&self) -> TreeV {
        TreeV {
            cells: cells_view(self.cells@),
            children: lists_view(self.children@),
            next_id: self.next_id,
            branches: self.branches@,
        }
    }
}

/// The cell has a hash of full length.
pub open spec fn has_full_hash(c: CellV) -> bool {
    c.hash matches Some(h) && h.len() == 64
}

/// The root cell.
pub open spec fn root_cell(state: StateV, info: SystemInfoV) -> CellV {
    CellV {
        id: 0,
        parent: None,
        submitter: "system"@,
        source: Seq::empty(),
        result: Some(
            ResultV {
                exit_code: 0,
                stdout: Seq::empty(),
                stderr: Seq::empty(),
                duration_ms: 0,
                end_state: state,
            },
        ),
        hash: Some(root_hash(info, state)),
    }
}

impl TreeV {
    /// The tree that holds only its root.
    pub open spec fn planted(state: StateV, info: SystemInfoV) -> TreeV {
        TreeV {
            cells: map![0u64 => root_cell(state, info)],
            children: map![0u64 => Seq::<CellId>::empty()],
            next_id: 1,
            branches: map![DEFAULT_BRANCH@ => 0u64],
        }
    }

    /// The children of a cell; none for a cell that is not there.
    pub open spec fn children_of(self, id: CellId) -> Seq<CellId> {
        if self.children.contains_key(id) {
            self.children[id]
        } else {
            Seq::empty()
        }
    }

    /// The hash of the cell that `parent` names, if it is there and has one.
    pub open spec fn hash_above(self, parent: Option<CellId>) -> Option<Seq<char>> {
        match parent {
            Some(p) if self.cells.contains_key(p) => self.cells[p].hash,
            _ => None,
        }
    }

    /// `c` with the hash that is its due below `parent`: none while it runs.
    pub open spec fn sealed(self, parent: Option<CellId>, c: CellV) -> CellV {
        CellV {
            hash: if c.result is Some {
                Some(cell_hash(c, self.hash_above(parent)))
            } else {
                None
            },
            ..c
        }
    }

    /// The tree with `c` as the last child of `parent`.
    pub open spec fn inserted(self, parent: CellId, c: CellV) -> TreeV {
        let below = self.children.insert(parent, self.children_of(parent).push(c.id));
        TreeV {
            cells: self.cells.insert(c.id, self.sealed(Some(parent), c)),
            children: if below.contains_key(c.id) {
                below
            } else {
                below.insert(c.id, Seq::empty())
            },
            ..self
        }
    }

    /// The tree with a cell that was persisted, and with no number free below it.
    pub open spec fn restored(self, parent: CellId, c: CellV) -> TreeV {
        let t = self.inserted(parent, c);
        let past = if c.id == u64::MAX {
            u64::MAX
        } else {
            (c.id + 1) as u64
        };
        TreeV {
            next_id: if past > self.next_id {
                past
            } else {
                self.next_id
            },
            ..t
        }
    }

    /// The tree in which the cell `id` has finished; the same tree if there is none.
    pub open spec fn finished(self, id: CellId, result: ResultV) -> TreeV {
        if self.cells.contains_key(id) {
            let c = CellV { result: Some(result), ..self.cells[id] };
            TreeV { cells: self.cells.insert(id, self.sealed(c.parent, c)), ..self }
        } else {
            self
        }
    }

    /// The tree in which `name` points at `id`.
    pub open spec fn with_branch(self, name: Seq<char>, id: CellId) -> TreeV {
        TreeV { branches: self.branches.insert(name, id), ..self }
    }

    /// The tree without the branch `name`.
    pub open spec fn without_branch(self, name: Seq<char>) -> TreeV {
        TreeV { branches: self.branches.remove(name), ..self }
    }

    /// A branch can be renamed: it is there, and its new name is free.
    pub open spec fn can_rename(self, from: Seq<char>, to: Seq<char>) -> bool {
        self.branches.contains_key(from) && !self.branches.contains_key(to)
    }

    /// The tree in which the branch `from` goes by the name `to`; the same tree where that
    /// cannot be.
    pub open spec fn renamed(self, from: Seq<char>, to: Seq<char>) -> TreeV {
        if self.can_rename(from, to) {
            TreeV {
                branches: self.branches.remove(from).insert(to, self.branches[from]),
                ..self
            }
        } else {
            self
        }
    }

    /// The tip of a branch, if it exists.
    pub open spec fn tip(self, name: Seq<char>) -> Option<CellId> {
        if self.branches.contains_key(name) {
            Some(self.branches[name])
        } else {
            None
        }
    }
}

/// Why a line cannot be submitted.
#[derive(Debug, Clone, Copy, PartialEq, Eq, Structural)]
pub enum SubmitError {
    /// The parent is not in the tree.
    NoParent(CellId),
    /// The parent has not finished.
    Running(CellId),
}

/// The state that a child of `parent` starts from.
pub open spec fn start_state(t: TreeV, parent: CellId) -> Result<StateV, SubmitError> {
    if !t.cells.contains_key(parent) {
        Err(SubmitError::NoParent(parent))
    } else {
        match t.cells[parent].result {
            None => Err(SubmitError::Running(parent)),
            Some(r) => Ok(r.end_state),
        }
    }
}

impl Tree {
    /// Create a tree rooted at a synthetic cell #0. The root's hash bakes in the SystemInfo so
    /// that every descendant inherits this machine's lineage.
    pub fn new(root_state: State, sysinfo: SystemInfo) -> (r: Tree)
        ensures
            r@ == TreeV::planted(root_state@, sysinfo@),
            sound(r@),
            has_full_hash(r@.cells[0]),
    {
        broadcast use vstd::std_specs::hash::group_hash_axioms;

        let root_hash = hash_root(&sysinfo, &root_state);
        let mut cells: HashMap<CellId, Cell> = HashMap::new();
        let root = Cell {
            id: 0,
            parent: None,
            submitter: "system".to_owned(),
            source: String::new(),
            result: Some(
                CellResult {
                    exit_code: 0,
                    stdout: Vec::new(),
                    stderr: Vec::new(),
                    duration_ms: 0,
                    end_state: root_state,
                },
            ),
            hash: Some(root_hash),
        };
        let ghost c = root@;
        assert(c.source =~= Seq::<char>::empty());
        cells.insert(0, root);
        let mut children: HashMap<CellId, Vec<CellId>> = HashMap::new();
        let none: Vec<CellId> = Vec::new();
        children.insert(0, none);
        let mut branches: NameMap<CellId> = NameMap::new();
        branches.insert(DEFAULT_BRANCH.to_owned(), 0);
        let r = Tree { cells, children, next_id: 1, branches };
        assert(r@.cells =~= map![0u64 => root_cell(root_state@, sysinfo@)]);
        assert(r@.children =~= map![0u64 => Seq::<CellId>::empty()]);
        assert(r@.branches =~= map![DEFAULT_BRANCH@ => 0u64]);
        proof {
            law_new_trees_are_sound(root_state@, sysinfo@);
        }
        r
    }

    /// The cell `id`, if it is in the tree.
    pub fn get(&self, id: CellId) -> (r: Option<&Cell>)
        ensures
            r is Some <==> self@.cells.contains_key(id),
            r matches Some(c) ==> c@ == self@.cells[id],
    {
        broadcast use vstd::std_specs::hash::group_hash_axioms;

        self.cells.get(&id)
    }

    /// The children of the cell `id`, in the order they came.
    pub fn children_of(&self, id: CellId) -> (r: &[CellId])
        ensures
            r@ == self@.children_of(id),
    {
        broadcast use vstd::std_specs::hash::group_hash_axioms;

        match self.children.get(&id) {
            Some(v) => v.as_slice(),
            None => {
                let none: &[CellId] = &[];
                assert(none@ =~= Seq::<CellId>::empty());
                none
            },
        }
    }

    // ---------- Branches ----------------------------------------------------

    /// Current tip of `name`, if the branch exists.
    pub fn branch_tip(&self, name: &str) -> (r: Option<CellId>)
        ensures
            r == self@.tip(name@),
    {
        match self.branches.get(name) {
            Some(id) => Some(*id),
            None => None,
        }
    }

    /// Whether the branch exists.
    pub fn branch_exists(&self, name: &str) -> (r: bool)
        ensures
            r == self@.branches.contains_key(name@),
    {
        self.branches.contains(name)
    }

    /// Create or move `name` to point at `id`.
    pub fn set_branch(&mut self, name: &str, id: CellId)
        ensures
            final(self)@ == old(self)@.with_branch(name@, id),
    {
        self.branches.insert(name.to_owned(), id);
    }

    /// Remove a branch. Returns false if it didn't exist. The default branch can be removed
    /// here like any other; that it is kept is the session's rule.
    pub fn delete_branch(&mut self, name: &str) -> (r: bool)
        ensures
            r == old(self)@.branches.contains_key(name@),
            final(self)@ == old(self)@.without_branch(name@),
    {
        self.branches.remove(name).is_some()
    }

    /// Rename `from` to `to`, preserving the tip. Returns false, and changes nothing, if `from`
    /// doesn't exist or `to` already does.
    pub fn rename_branch(&mut self, from: &str, to: &str) -> (r: bool)
        ensures
            r == old(self)@.can_rename(from@, to@),
            final(self)@ == old(self)@.renamed(from@, to@),
    {
        if !self.branches.contains(from) || self.branches.contains(to) {
            return false;
        }
        match self.branches.remove(from) {
            Some(id) => {
                self.branches.insert(to.to_owned(), id);
                true
            },
            None => false,
        }
    }

    /// All branches as (name, tip) pairs, sorted by name.
    pub fn branches(&self) -> (r: &Vec<(String, CellId)>)
        ensures
            is_listing(texts(r@), self@.branches),
            texts(r@) == listing(self@.branches),
    {
        self.branches.entries()
    }

    // ---------- Cells -------------------------------------------------------

    /// Allocate an id without inserting a cell.
    pub fn reserve_id(&mut self) -> (r: CellId)
        requires
            old(self)@.next_id < u64::MAX,
        ensures
            r == old(self)@.next_id,
            final(self)@ == (TreeV { next_id: (r + 1) as u64, ..old(self)@ }),
    {
        let id: CellId = self.next_id;
        self.next_id = id + 1;
        id
    }

    /// The next free id.
    pub fn next_id(&self) -> (r: CellId)
        ensures
            r == self@.next_id,
    {
        self.next_id
    }

    fn hash_at(&self, parent: Option<CellId>) -> (r: Option<Hash>)
        ensures
            opt_text(r) == self@.hash_above(parent),
    {
        match parent {
            Some(p) => match self.get(p) {
                Some(c) => copy_opt(&c.hash),
                None => None,
            },
            None => None,
        }
    }

    fn seal(&self, parent: Option<CellId>, cell: Cell) -> (r: Cell)
        ensures
            r@ == self@.sealed(parent, cell@),
            cell@.result is Some ==> has_full_hash(r@),
    {
        let mut c = cell;
        c.hash = if c.result.is_some() {
            let above = self.hash_at(parent);
            Some(hash_cell(&c, &above))
        } else {
            None
        };
        c
    }

    /// Insert a fully-built cell (with a previously reserved id) under `parent`. A cell with a
    /// result gets its content hash here.
    pub fn insert_cell(&mut self, parent: CellId, cell: Cell)
        ensures
            final(self)@ == old(self)@.inserted(parent, cell@),
            cell@.result is Some ==> has_full_hash(final(self)@.cells[cell@.id]),
    {
        broadcast use vstd::std_specs::hash::group_hash_axioms;

        let id: CellId = cell.id;
        let sealed = self.seal(Some(parent), cell);
        self.cells.insert(id, sealed);
        assert(self@.cells =~= old(self)@.inserted(parent, cell@).cells);
        let mut siblings = match self.children.remove(&parent) {
            Some(v) => v,
            None => Vec::new(),
        };
        siblings.push(id);
        self.children.insert(parent, siblings);
        if !self.children.contains_key(&id) {
            let none: Vec<CellId> = Vec::new();
            self.children.insert(id, none);
        }
        assert(self@.children =~= old(self)@.inserted(parent, cell@).children);
    }

    /// Insert a cell that was persisted earlier, and leave no id free up to its own. Returns the
    /// content hash as it comes out now.
    pub fn restore_cell(&mut self, parent: CellId, cell: Cell) -> (r: Option<Hash>)
        ensures
            final(self)@ == old(self)@.restored(parent, cell@),
            opt_text(r) == old(self)@.sealed(Some(parent), cell@).hash,
            cell@.result is Some ==> has_full_hash(final(self)@.cells[cell@.id]),
    {
        let id: CellId = cell.id;
        self.insert_cell(parent, cell);
        let past: CellId = if id == u64::MAX {
            id
        } else {
            id + 1
        };
        if past > self.next_id {
            self.next_id = past;
        }
        match self.get(id) {
            Some(c) => copy_opt(&c.hash),
            None => None,
        }
    }

    /// Attach (or replace) the result of a cell previously inserted with `result: None`.
    /// Computes and stores the content hash.
    pub fn set_cell_result(&mut self, id: CellId, result: CellResult)
        ensures
            final(self)@ == old(self)@.finished(id, result@),
            old(self)@.cells.contains_key(id) ==> has_full_hash(final(self)@.cells[id]),
    {
        broadcast use vstd::std_specs::hash::group_hash_axioms;

        match self.cells.remove(&id) {
            Some(c) => {
                let ghost before = old(self)@;
                let parent = c.parent;
                let mut c = c;
                c.result = Some(result);
                let above = if parent == Some(id) {
                    copy_opt(&c.hash)
                } else {
                    self.hash_at(parent)
                };
                assert(opt_text(above) == before.hash_above(parent));
                c.hash = Some(hash_cell(&c, &above));
                self.cells.insert(id, c);
                assert(self@.cells =~= before.finished(id, result@).cells);
            },
            None => {
                assert(self@.cells =~= old(self)@.cells);
            },
        }
    }

    /// The state that a child of `parent` starts from.
    pub fn start_state(&self, parent: CellId) -> (r: Result<State, SubmitError>)
        ensures
            match r {
                Ok(s) => start_state(self@, parent) == Ok::<StateV, SubmitError>(s@),
                Err(e) => start_state(self@, parent) == Err::<StateV, SubmitError>(e),
            },
    {
        match self.get(parent) {
            None => Err(SubmitError::NoParent(parent)),
            Some(c) => match &c.result {
                None => Err(SubmitError::Running(parent)),
                Some(r) => Ok(r.end_state.clone()),
            },
        }
    }

    /// Adds the outcome of `source`, evaluated in the start state of `parent`, as a child of
    /// `parent`, and returns its id. A line that could not be evaluated leaves the state as it
    /// was, exit code 2 and the reason on stderr.
    pub fn submit(
        &mut self,
        parent: CellId,
        submitter: String,
        source: String,
        outcome: Result<(State, Output), String>,
        duration_ms: u64,
    ) -> (r: Result<CellId, SubmitError>)
        requires
            old(self)@.next_id < u64::MAX,
        ensures
            match start_state(old(self)@, parent) {
                Err(e) => r == Err::<CellId, SubmitError>(e) && final(self)@ == old(self)@,
                Ok(start) => {
                    let id = old(self)@.next_id;
                    let c = CellV {
                        id,
                        parent: Some(parent),
                        submitter: submitter@,
                        source: source@,
                        result: Some(concluded(start, outcome, duration_ms)),
                        hash: None,
                    };
                    &&& r == Ok::<CellId, SubmitError>(id)
                    &&& final(self)@ == (TreeV {
                        next_id: (id + 1) as u64,
                        ..old(self)@
                    }).inserted(parent, c)
                    &&& has_full_hash(final(self)@.cells[id])
                },
            },
    {
        let start = match self.start_state(parent) {
            Err(e) => {
                return Err(e);
            },
            Ok(s) => s,
        };
        let result = match outcome {
            Ok((end_state, o)) => CellResult {
                exit_code: o.exit_code,
                stdout: o.stdout,
                stderr: o.stderr,
                duration_ms,
                end_state,
            },
            Err(e) => {
                let mut line = e;
                line.push('\n');
                CellResult {
                    exit_code: 2,
                    stdout: Vec::new(),
                    stderr: bytes_of(line.as_str()),
                    duration_ms,
                    end_state: start,
                }
            },
        };
        let id: CellId = self.reserve_id();
        let cell = Cell {
            id,
            parent: Some(parent),
            submitter,
            source,
            result: Some(result),
            hash: None,
        };
        self.insert_cell(parent, cell);
        Ok(id)
    }
}

/// The result of a line that was evaluated in the state `start`, or could not be.
pub open spec fn concluded(
    start: StateV,
    outcome: Result<(State, Output), String>,
    duration_ms: u64,
) -> ResultV {
    match outcome {
        Ok((end, o)) => ResultV {
            exit_code: o.exit_code,
            stdout: o.stdout@,
            stderr: o.stderr@,
            duration_ms,
            end_state: end@,
        },
        Err(e) => ResultV {
            exit_code: 2,
            stdout: Seq::empty(),
            stderr: encode_utf8(e@.push('\n')),
            duration_ms,
            end_state: start,
        },
    }
}

} // verus!
