//! What clients print.

use vstd::prelude::*;
use vstd::utf8::*;

use crate::forest::{
    in_order, law_every_cell_is_listed_in_order, lemma_marked, placed, ranked, sound, unmarked,
};
use crate::hash::hex;
use crate::merkle::law_hashes_are_lower_case_hex;
use crate::snapshot::{cell_snapshot, tree_snapshot};
use crate::text::{
    chars_of, decimal, ends_mid_line, last_char, opt_text, push_decimal, push_signed,
    signed_decimal, str_eq, strict_text,
};
use crate::tree::{CellId, TreeV};
use crate::wire::{
    branches_view, snapshots_view, BranchSnapshot, BranchSnapshotV, CellEvent, CellEventV,
    CellSnapshot, CellSnapshotV, Stream, TreeSnapshot,
};

verus! {

// ---------- Printing --------------------------------------------------------

/// A text to print, to stdout or to stderr.
#[derive(Debug)]
pub enum Print {
    Stdout(String),
    Stderr(String),
}

/// A text to print, to stdout or to stderr.
pub enum PrintV {
    Stdout(Seq<char>),
    Stderr(Seq<char>),
}

impl View for Print {
    type V = PrintV;

    open spec fn view(&self) -> PrintV {
        match self {
            Print::Stdout(s) => PrintV::Stdout(s@),
            Print::Stderr(s) => PrintV::Stderr(s@),
        }
    }
}

/// The prints of a vector.
pub open spec fn prints_view(v: Seq<Print>) -> Seq<PrintV> {
    v.map_values(|p: Print| p@)
}

/// Output goes to the stream that it came from.
pub open spec fn echo(stream: Stream, data: Seq<char>) -> PrintV {
    match stream {
        Stream::Stdout => PrintV::Stdout(data),
        Stream::Stderr => PrintV::Stderr(data),
    }
}

/// Output goes to the stream that it came from.
pub fn echoed(stream: Stream, data: &str) -> (r: Print)
    ensures
        r@ == echo(stream, data@),
{
    match stream {
        Stream::Stdout => Print::Stdout(data.to_owned()),
        Stream::Stderr => Print::Stderr(data.to_owned()),
    }
}

/// The output so far ends in the middle of a line, going by stderr where there is any.
pub open spec fn stops_mid_line(stdout: Seq<char>, stderr: Seq<char>) -> bool {
    if stderr.len() > 0 {
        ends_mid_line(stderr)
    } else {
        ends_mid_line(stdout)
    }
}

/// What ends the line that the output stops in the middle of, if it does.
pub fn ensure_trailing_newline(stdout: &str, stderr: &str) -> (r: Option<Print>)
    ensures
        match r {
            Some(p) => stops_mid_line(stdout@, stderr@) && p@ == PrintV::Stdout(seq!['\n']),
            None => !stops_mid_line(stdout@, stderr@),
        },
{
    let last = match last_char(stderr) {
        Some(c) => Some(c),
        None => last_char(stdout),
    };
    match last {
        Some(c) => {
            if c != '\n' {
                let mut s = String::new();
                s.push('\n');
                assert(s@ =~= seq!['\n']);
                Some(Print::Stdout(s))
            } else {
                None
            }
        },
        None => None,
    }
}

// ---------- Short hashes ----------------------------------------------------

/// How many bytes of a hash are shown.
pub open spec fn shown_len(h: Seq<char>) -> int {
    if encode_utf8(h).len() < 7 {
        encode_utf8(h).len() as int
    } else {
        7
    }
}

/// A hash can be cut after the bytes that are shown. Every hash of hexadecimal digits can.
pub open spec fn cuttable(h: Seq<char>) -> bool {
    is_char_boundary(encode_utf8(h), shown_len(h))
}

/// The bytes of a hash that are shown.
pub open spec fn short(h: Seq<char>) -> Seq<char> {
    decode_utf8(encode_utf8(h).take(shown_len(h)))
}

/// An optional hash that can be shown.
pub open spec fn opt_cuttable(h: Option<Seq<char>>) -> bool {
    h matches Some(h) ==> cuttable(h)
}

proof fn lemma_cut(h: Seq<char>)
    requires
        cuttable(h),
    ensures
        valid_utf8(encode_utf8(h).take(shown_len(h))),
{
    broadcast use {encode_utf8_valid_utf8, valid_utf8_split};

    let b = encode_utf8(h);
    assert(b.subrange(0, shown_len(h)) =~= b.take(shown_len(h)));
}

/// A short prefix of a hash.
pub fn short_hash(h: &str) -> (r: String)
    requires
        cuttable(h@),
    ensures
        r@ == short(h@),
{
    let b = h.as_bytes();
    let n: usize = if b.len() < 7 {
        b.len()
    } else {
        7
    };
    proof {
        lemma_cut(h@);
        assert(b@.subrange(0, n as int) =~= b@.take(n as int));
    }
    match strict_text(vstd::slice::slice_subrange(b, 0, n)) {
        Some(s) => s,
        None => {
            assert(false);
            String::new()
        },
    }
}

/// Whether a hash can be cut after the bytes that are shown.
pub fn can_cut(h: &str) -> (r: bool)
    ensures
        r == cuttable(h@),
{
    let len: usize = h.as_bytes().len();
    let n: usize = if len < 7 {
        len
    } else {
        7
    };
    h.is_char_boundary(n)
}

fn opt_can_cut(h: &Option<String>) -> (r: bool)
    ensures
        r == opt_cuttable(opt_text(*h)),
{
    match h {
        Some(h) => can_cut(h.as_str()),
        None => true,
    }
}

/// A hash as it is shown behind a number: a space and its prefix, or nothing.
pub open spec fn hash_tag(h: Option<Seq<char>>) -> Seq<char> {
    match h {
        Some(h) => seq![' '] + short(h),
        None => Seq::empty(),
    }
}

fn push_hash_tag(s: &mut String, h: &Option<String>)
    requires
        opt_cuttable(opt_text(*h)),
    ensures
        final(s)@ == old(s)@ + hash_tag(opt_text(*h)),
{
    match h {
        Some(h) => {
            s.push(' ');
            s.append(short_hash(h.as_str()).as_str());
            assert(s@ =~= old(s)@ + (seq![' '] + short(h@)));
        },
        None => {
            assert(s@ =~= old(s)@ + Seq::<char>::empty());
        },
    }
}

// ---------- Events ----------------------------------------------------------

/// The line that ends a cell: `[#1 exit 0 2ms]`.
pub open spec fn exit_line(id: CellId, exit_code: i32, duration_ms: u64) -> Seq<char> {
    "[#"@ + decimal(id as nat) + " exit "@ + signed_decimal(exit_code as int) + " "@ + decimal(
        duration_ms as nat,
    ) + "ms]\n"@
}

/// The line that ends a cell.
pub fn say_exit(id: CellId, exit_code: i32, duration_ms: u64) -> (r: String)
    ensures
        r@ == exit_line(id, exit_code, duration_ms),
{
    let mut s = "[#".to_owned();
    push_decimal(&mut s, id);
    s.append(" exit ");
    push_signed(&mut s, exit_code);
    s.append(" ");
    push_decimal(&mut s, duration_ms);
    s.append("ms]\n");
    s
}

/// An event whose hash can be shown.
pub open spec fn can_show(e: CellEventV) -> bool {
    match e {
        CellEventV::Completed { hash, .. } => opt_cuttable(hash),
        _ => true,
    }
}

/// Whether an event can be shown.
pub fn event_can_show(e: &CellEvent) -> (r: bool)
    ensures
        r == can_show(e@),
{
    match e {
        CellEvent::Completed { hash, .. } => opt_can_cut(hash),
        _ => true,
    }
}

/// An event as a watcher sees it.
pub open spec fn shown(e: CellEventV) -> PrintV {
    match e {
        CellEventV::Started { id, parent, source, who, branch } => PrintV::Stdout(
            "\n[#"@ + decimal(id as nat) + " "@ + who + " "@ + (match parent {
                Some(p) => "from #"@ + decimal(p as nat),
                None => "root"@,
            }) + " on "@ + branch + "] $ "@ + source + "\n"@,
        ),
        CellEventV::OutputChunk { stream, data, .. } => echo(stream, data),
        CellEventV::Completed { id, exit_code, duration_ms, hash } => PrintV::Stdout(
            "[#"@ + decimal(id as nat) + hash_tag(hash) + "] exit "@ + signed_decimal(
                exit_code as int,
            ) + " ("@ + decimal(duration_ms as nat) + "ms)\n"@,
        ),
    }
}

/// An event as a watcher sees it.
pub fn render(ev: &CellEvent) -> (r: Print)
    requires
        can_show(ev@),
    ensures
        r@ == shown(ev@),
{
    match ev {
        CellEvent::Started { id, parent, source, who, branch } => {
            let mut s = "\n[#".to_owned();
            push_decimal(&mut s, *id);
            s.append(" ");
            s.append(who.as_str());
            s.append(" ");
            let ghost before = s@;
            match parent {
                Some(p) => {
                    s.append("from #");
                    push_decimal(&mut s, *p);
                    assert(s@ =~= before + ("from #"@ + decimal(*p as nat)));
                },
                None => {
                    s.append("root");
                },
            }
            s.append(" on ");
            s.append(branch.as_str());
            s.append("] $ ");
            s.append(source.as_str());
            s.append("\n");
            Print::Stdout(s)
        },
        CellEvent::OutputChunk { stream, data, .. } => echoed(*stream, data.as_str()),
        CellEvent::Completed { id, exit_code, duration_ms, hash } => {
            let mut s = "[#".to_owned();
            push_decimal(&mut s, *id);
            push_hash_tag(&mut s, hash);
            s.append("] exit ");
            push_signed(&mut s, *exit_code);
            s.append(" (");
            push_decimal(&mut s, *duration_ms);
            s.append("ms)\n");
            Print::Stdout(s)
        },
    }
}

// ---------- Branches --------------------------------------------------------

/// `n` spaces.
pub open spec fn spaces(n: int) -> Seq<char> {
    Seq::new(
        if n > 0 {
            n as nat
        } else {
            0
        },
        |i: int| ' ',
    )
}

/// `s`, filled up to `width` characters.
pub open spec fn padded(s: Seq<char>, width: int) -> Seq<char> {
    s + spaces(width - s.len())
}

/// A branch in the list of branches.
pub open spec fn branch_line(b: BranchSnapshotV, current: Seq<char>) -> Seq<char> {
    let marker = if b.name == current {
        "*"@
    } else {
        " "@
    };
    let state = if b.running {
        "running"@
    } else {
        match b.tip_hash {
            Some(h) => short(h),
            None => "-"@,
        }
    };
    let mode = if b.tty {
        " (tty)"@
    } else {
        Seq::empty()
    };
    marker + " "@ + padded(b.name, 24) + " #"@ + padded(decimal(b.tip as nat), 4) + " "@ + state
        + mode + "\n"@
}

/// The list of branches, with a `*` before the current one.
pub open spec fn branch_lines(bs: Seq<BranchSnapshotV>, current: Seq<char>) -> Seq<char>
    decreases bs.len(),
{
    if bs.len() == 0 {
        Seq::empty()
    } else {
        branch_lines(bs.drop_last(), current) + branch_line(bs.last(), current)
    }
}

/// A branch whose tip hash can be shown.
pub open spec fn branch_can_show(b: BranchSnapshotV) -> bool {
    b.running || opt_cuttable(b.tip_hash)
}

/// Branches that can all be shown.
pub open spec fn branches_can_show(bs: Seq<BranchSnapshotV>) -> bool {
    forall|i: int| 0 <= i < bs.len() ==> branch_can_show(#[trigger] bs[i])
}

/// Whether branches can all be shown.
pub fn can_list(branches: &Vec<BranchSnapshot>) -> (r: bool)
    ensures
        r == branches_can_show(branches_view(branches@)),
{
    let ghost v = branches_view(branches@);
    let mut i: usize = 0;
    while i < branches.len()
        invariant
            i <= branches.len(),
            v == branches_view(branches@),
            forall|j: int| 0 <= j < i ==> branch_can_show(#[trigger] v[j]),
        decreases branches.len() - i,
    {
        assert(v[i as int] == branches@[i as int]@);
        if !branches[i].running && !opt_can_cut(&branches[i].tip_hash) {
            return false;
        }
        i += 1;
    }
    true
}

fn push_spaces(s: &mut String, have: usize, width: usize)
    ensures
        final(s)@ == old(s)@ + spaces(width - have),
{
    let mut n: usize = have;
    assert(s@ =~= old(s)@ + spaces(0));
    while n < width
        invariant
            have <= n,
            n <= width || n == have,
            s@ == old(s)@ + spaces(n - have),
        decreases width - n,
    {
        s.push(' ');
        n += 1;
        assert(s@ =~= old(s)@ + spaces(n - have));
    }
    assert(spaces(n - have) =~= spaces(width - have));
}

fn char_count(s: &str) -> (r: usize)
    ensures
        r == s@.len(),
{
    chars_of(s).len()
}

fn pad(t: &str, width: usize) -> (r: String)
    ensures
        r@ == padded(t@, width as int),
{
    let mut s = t.to_owned();
    push_spaces(&mut s, char_count(t), width);
    s
}

fn branch_text(b: &BranchSnapshot, current: &str) -> (r: String)
    requires
        branch_can_show(b@),
    ensures
        r@ == branch_line(b@, current@),
{
    let mut s = if str_eq(b.name.as_str(), current) {
        "*".to_owned()
    } else {
        " ".to_owned()
    };
    s.append(" ");
    s.append(pad(b.name.as_str(), 24).as_str());
    s.append(" #");
    let mut tip = String::new();
    push_decimal(&mut tip, b.tip);
    assert(tip@ =~= decimal(b.tip as nat));
    s.append(pad(tip.as_str(), 4).as_str());
    s.append(" ");
    let state = if b.running {
        "running".to_owned()
    } else {
        match &b.tip_hash {
            Some(h) => short_hash(h.as_str()),
            None => "-".to_owned(),
        }
    };
    s.append(state.as_str());
    let mode = if b.tty {
        " (tty)".to_owned()
    } else {
        String::new()
    };
    assert(!b.tty ==> mode@ =~= Seq::<char>::empty());
    s.append(mode.as_str());
    s.append("\n");
    s
}

/// The list of branches, with a `*` before the current one. Branches in terminal mode are
/// flagged, so that it is clear where the next command would run in a terminal.
pub fn render_branches(branches: &Vec<BranchSnapshot>, current: &str) -> (r: String)
    requires
        branches_can_show(branches_view(branches@)),
    ensures
        r@ == branch_lines(branches_view(branches@), current@),
{
    let ghost v = branches_view(branches@);
    let mut s = String::new();
    let mut i: usize = 0;
    assert(s@ =~= branch_lines(v.take(0), current@));
    while i < branches.len()
        invariant
            i <= branches.len(),
            v == branches_view(branches@),
            branches_can_show(v),
            s@ == branch_lines(v.take(i as int), current@),
        decreases branches.len() - i,
    {
        proof {
            let t = v.take(i + 1);
            assert(t.drop_last() =~= v.take(i as int));
            assert(t.last() == branches@[i as int]@);
        }
        assert(v[i as int] == branches@[i as int]@);
        s.append(branch_text(&branches[i], current).as_str());
        i += 1;
    }
    assert(v.take(i as int) =~= v);
    s
}

// ---------- The tree --------------------------------------------------------

/// A cell in the tree.
pub open spec fn cell_line(c: CellSnapshotV, indent: Seq<char>) -> Seq<char> {
    let src = if c.source.len() == 0 {
        "(root)"@
    } else {
        c.source
    };
    let status = match c.exit_code {
        Some(code) => "exit "@ + signed_decimal(code as int),
        None => "running"@,
    };
    indent + "#"@ + decimal(c.id as nat) + hash_tag(c.hash) + " "@ + src + " ["@ + c.submitter
        + "] "@ + status + "\n"@
}

/// The lines of the cells from the `i`th on whose parent is `parent`, each followed by its
/// children's, one step further in. None if they nest deeper than `fuel`.
pub open spec fn tree_lines(
    cells: Seq<CellSnapshotV>,
    parent: Option<CellId>,
    indent: Seq<char>,
    i: int,
    fuel: nat,
) -> Option<Seq<char>>
    decreases fuel, cells.len() - i,
{
    if i < 0 || i >= cells.len() {
        Some(Seq::empty())
    } else if cells[i].parent != parent {
        tree_lines(cells, parent, indent, i + 1, fuel)
    } else if fuel == 0 {
        None
    } else {
        let c = cells[i];
        match (
            tree_lines(cells, Some(c.id), indent + "  "@, 0, (fuel - 1) as nat),
            tree_lines(cells, parent, indent, i + 1, fuel),
        ) {
            (Some(below), Some(rest)) => Some(cell_line(c, indent) + below + rest),
            _ => None,
        }
    }
}

/// The cells nest in a tree: no cell is below itself.
pub open spec fn nests(cells: Seq<CellSnapshotV>) -> bool {
    exists|fuel: nat| #[trigger] tree_lines(cells, None, Seq::empty(), 0, fuel) is Some
}

/// A tree that can be shown: its cells nest, and their hashes can be cut.
pub open spec fn tree_can_show(cells: Seq<CellSnapshotV>) -> bool {
    nests(cells) && forall|i: int|
        0 <= i < cells.len() ==> opt_cuttable((#[trigger] cells[i]).hash)
}

/// The tree, each cell on a line below its parent's, two spaces further in.
pub open spec fn tree_text(cells: Seq<CellSnapshotV>) -> Seq<char> {
    let fuel = choose|fuel: nat| #[trigger]
        tree_lines(cells, None, Seq::empty(), 0, fuel) is Some;
    tree_lines(cells, None, Seq::empty(), 0, fuel)->0
}

fn cell_text(c: &CellSnapshot, indent: &str) -> (r: String)
    requires
        opt_cuttable(c@.hash),
    ensures
        r@ == cell_line(c@, indent@),
{
    let mut s = indent.to_owned();
    s.append("#");
    push_decimal(&mut s, c.id);
    push_hash_tag(&mut s, &c.hash);
    s.append(" ");
    if c.source.as_str().is_empty() {
        s.append("(root)");
    } else {
        s.append(c.source.as_str());
    }
    s.append(" [");
    s.append(c.submitter.as_str());
    s.append("] ");
    let status = match c.exit_code {
        Some(code) => {
            let mut t = "exit ".to_owned();
            push_signed(&mut t, code);
            t
        },
        None => "running".to_owned(),
    };
    s.append(status.as_str());
    s.append("\n");
    s
}

fn push_rows(
    s: &mut String,
    cells: &Vec<CellSnapshot>,
    parent: Option<CellId>,
    indent: &str,
    Ghost(fuel): Ghost<nat>,
)
    requires
        tree_lines(
            snapshots_view(cells@),
            parent,
            indent@,
            0,
            fuel,
        ) is Some,
        forall|i: int| 0 <= i < cells@.len() ==> opt_cuttable((#[trigger] cells@[i])@.hash),
    ensures
        final(s)@ == old(s)@ + tree_lines(
            snapshots_view(cells@),
            parent,
            indent@,
            0,
            fuel,
        )->0,
    decreases fuel,
{
    let ghost v = snapshots_view(cells@);
    let ghost goal = s@ + tree_lines(v, parent, indent@, 0, fuel)->0;
    let mut i: usize = 0;
    while i < cells.len()
        invariant
            i <= cells.len(),
            v == snapshots_view(cells@),
            forall|i: int| 0 <= i < cells@.len() ==> opt_cuttable((#[trigger] cells@[i])@.hash),
            tree_lines(v, parent, indent@, i as int, fuel) is Some,
            s@ + tree_lines(v, parent, indent@, i as int, fuel)->0 == goal,
        decreases cells.len() - i,
    {
        let c = &cells[i];
        assert(v[i as int] == c@);
        let ghost before = s@;
        let ghost now = tree_lines(v, parent, indent@, i as int, fuel)->0;
        let ghost rest = tree_lines(v, parent, indent@, i + 1, fuel)->0;
        if c.parent == parent {
            s.append(cell_text(c, indent).as_str());
            let mut further = indent.to_owned();
            further.append("  ");
            let ghost below = tree_lines(v, Some(c.id), further@, 0, (fuel - 1) as nat)->0;
            push_rows(s, cells, Some(c.id), further.as_str(), Ghost((fuel - 1) as nat));
            assert(now == cell_line(c@, indent@) + below + rest);
            assert(s@ + rest =~= before + now);
        }
        i += 1;
    }
    assert(s@ + tree_lines(v, parent, indent@, i as int, fuel)->0 =~= s@);
}

/// The tree, each cell on a line below its parent's, two spaces further in.
pub fn render_tree(snap: &TreeSnapshot) -> (r: String)
    requires
        tree_can_show(snap@),
    ensures
        r@ == tree_text(snap@),
{
    let mut s = String::new();
    proof {
        assert forall|i: int| 0 <= i < snap.cells@.len() implies opt_cuttable(
            (#[trigger] snap.cells@[i])@.hash,
        ) by {
            assert(snap@[i] == snap.cells@[i]@);
        }
    }
    let ghost fuel = choose|fuel: nat| #[trigger]
        tree_lines(snap@, None, Seq::empty(), 0, fuel) is Some;
    let indent = String::new();
    assert(indent@ =~= Seq::<char>::empty());
    push_rows(&mut s, &snap.cells, None, indent.as_str(), Ghost(fuel));
    assert(s@ =~= tree_text(snap@));
    s
}

// ---------- Whether a tree can be shown -------------------------------------

/// The cells below `parent` nest no deeper than `fuel`.
spec fn fits(cells: Seq<CellSnapshotV>, parent: Option<CellId>, fuel: nat) -> bool {
    tree_lines(cells, parent, Seq::empty(), 0, fuel) is Some
}

proof fn lemma_lines_for(
    cells: Seq<CellSnapshotV>,
    parent: Option<CellId>,
    a: Seq<char>,
    b: Seq<char>,
    i: int,
    fuel: nat,
    more: nat,
)
    requires
        fuel <= more,
    ensures
        tree_lines(cells, parent, a, i, fuel) is Some ==> tree_lines(
            cells,
            parent,
            b,
            i,
            more,
        ) is Some,
    decreases fuel, cells.len() - i,
{
    if 0 <= i < cells.len() {
        lemma_lines_for(cells, parent, a, b, i + 1, fuel, more);
        if cells[i].parent == parent && fuel > 0 {
            lemma_lines_for(
                cells,
                Some(cells[i].id),
                a + "  "@,
                b + "  "@,
                0,
                (fuel - 1) as nat,
                (more - 1) as nat,
            );
        }
    }
}

proof fn lemma_fits_above(cells: Seq<CellSnapshotV>, parent: Option<CellId>, i: int, fuel: nat)
    requires
        0 <= i <= cells.len(),
        forall|j: int|
            0 <= j < cells.len() && (#[trigger] cells[j]).parent == parent ==> fits(
                cells,
                Some(cells[j].id),
                fuel,
            ),
    ensures
        tree_lines(cells, parent, Seq::empty(), i, fuel + 1) is Some,
    decreases cells.len() - i,
{
    if i < cells.len() {
        lemma_fits_above(cells, parent, i + 1, fuel);
        if cells[i].parent == parent {
            let none = Seq::<char>::empty();
            lemma_lines_for(cells, Some(cells[i].id), none, none + "  "@, 0, fuel, fuel);
        }
    }
}

/// A cell below `parent` is not marked.
spec fn open_below(cells: Seq<CellSnapshotV>, marks: Seq<bool>, parent: Option<CellId>) -> bool {
    exists|j: int| 0 <= j < cells.len() && (#[trigger] cells[j]).parent == parent && !marks[j]
}

proof fn lemma_endless(
    cells: Seq<CellSnapshotV>,
    marks: Seq<bool>,
    parent: Option<CellId>,
    indent: Seq<char>,
    i: int,
    j: int,
    fuel: nat,
)
    requires
        0 <= i <= j < cells.len(),
        marks.len() == cells.len(),
        cells[j].parent == parent,
        !marks[j],
        forall|k: int|
            0 <= k < cells.len() && !marks[k] ==> open_below(
                cells,
                marks,
                Some((#[trigger] cells[k]).id),
            ),
    ensures
        tree_lines(cells, parent, indent, i, fuel) is None,
    decreases fuel, j - i,
{
    if i < j {
        lemma_endless(cells, marks, parent, indent, i + 1, j, fuel);
    } else if fuel > 0 {
        let id = Some(cells[j].id);
        assert(open_below(cells, marks, id));
        let k = choose|k: int|
            0 <= k < cells.len() && (#[trigger] cells[k]).parent == id && !marks[k];
        lemma_endless(cells, marks, id, indent + "  "@, 0, k, (fuel - 1) as nat);
    }
}

fn has_open_below(cells: &Vec<CellSnapshot>, marks: &Vec<bool>, parent: Option<CellId>) -> (r: bool)
    requires
        marks.len() == cells.len(),
    ensures
        r == open_below(snapshots_view(cells@), marks@, parent),
{
    let ghost v = snapshots_view(cells@);
    let mut i: usize = 0;
    while i < cells.len()
        invariant
            i <= cells.len(),
            marks.len() == cells.len(),
            v == snapshots_view(cells@),
            forall|j: int| 0 <= j < i ==> (#[trigger] v[j]).parent != parent || marks@[j],
        decreases cells.len() - i,
    {
        assert(v[i as int] == cells@[i as int]@);
        if cells[i].parent == parent && !marks[i] {
            return true;
        }
        i += 1;
    }
    false
}

/// Whether a tree can be shown.
pub fn can_show_tree(snap: &TreeSnapshot) -> (r: bool)
    ensures
        r == tree_can_show(snap@),
{
    let mut i: usize = 0;
    while i < snap.cells.len()
        invariant
            i <= snap.cells.len(),
            forall|j: int| 0 <= j < i ==> opt_cuttable((#[trigger] snap@[j]).hash),
        decreases snap.cells.len() - i,
    {
        assert(snap@[i as int] == snap.cells@[i as int]@);
        if !opt_can_cut(&snap.cells[i].hash) {
            return false;
        }
        i += 1;
    }
    tree_nests(snap)
}

/// Whether the cells of a snapshot nest in a tree. A cell is marked once
/// all cells below it are; what is never marked is below itself.
pub fn tree_nests(snap: &TreeSnapshot) -> (r: bool)
    ensures
        r == nests(snap@),
{
    let cells = &snap.cells;
    let ghost v = snap@;
    let n: usize = cells.len();
    let mut marks: Vec<bool> = Vec::new();
    while marks.len() < n
        invariant
            marks.len() <= n,
            forall|j: int| 0 <= j < marks.len() ==> !#[trigger] marks@[j],
        decreases n - marks.len(),
    {
        marks.push(false);
    }
    let ghost mut fuel: nat = 0;
    let mut changed: bool = true;
    while changed
        invariant
            n == cells.len(),
            marks.len() == n,
            v == snapshots_view(cells@),
            forall|j: int|
                0 <= j < n && #[trigger] marks@[j] ==> fits(v, Some(v[j].id), fuel),
            !changed ==> forall|k: int|
                0 <= k < n && !marks@[k] ==> open_below(v, marks@, Some((#[trigger] v[k]).id)),
        decreases unmarked(marks@) + if changed { 1nat } else { 0nat },
    {
        let ghost before = unmarked(marks@);
        changed = false;
        let mut i: usize = n;
        while i > 0
            invariant
                i <= n,
                n == cells.len(),
                marks.len() == n,
                v == snapshots_view(cells@),
                forall|j: int|
                    0 <= j < n && #[trigger] marks@[j] ==> fits(v, Some(v[j].id), fuel),
                !changed ==> unmarked(marks@) == before && forall|k: int|
                    i <= k < n && !marks@[k] ==> open_below(
                        v,
                        marks@,
                        Some((#[trigger] v[k]).id),
                    ),
                changed ==> unmarked(marks@) < before,
            decreases i,
        {
            i -= 1;
            assert(v[i as int] == cells@[i as int]@);
            let id: CellId = cells[i].id;
            if !marks[i] && !has_open_below(cells, &marks, Some(id)) {
                proof {
                    assert forall|j: int|
                        0 <= j < v.len() && (#[trigger] v[j]).parent == Some(id) implies fits(
                        v,
                        Some(v[j].id),
                        fuel,
                    ) by {
                        assert(marks@[j]);
                    }
                    lemma_fits_above(v, Some(id), 0, fuel);
                    assert forall|j: int| 0 <= j < n && #[trigger] marks@[j] implies fits(
                        v,
                        Some(v[j].id),
                        fuel + 1,
                    ) by {
                        let none = Seq::<char>::empty();
                        lemma_lines_for(v, Some(v[j].id), none, none, 0, fuel, fuel + 1);
                    }
                    lemma_marked(marks@, i as int);
                    fuel = fuel + 1;
                }
                marks.set(i, true);
                changed = true;
            }
        }
    }
    let open = has_open_below(cells, &marks, None);
    proof {
        let none = Seq::<char>::empty();
        if open {
            let j = choose|j: int|
                0 <= j < v.len() && (#[trigger] v[j]).parent == None::<CellId> && !marks@[j];
            assert forall|f: nat| #[trigger] tree_lines(v, None, none, 0, f) is None by {
                lemma_endless(v, marks@, None, none, 0, j, f);
            }
        } else {
            assert forall|j: int|
                0 <= j < v.len() && (#[trigger] v[j]).parent == None::<CellId> implies fits(
                v,
                Some(v[j].id),
                fuel,
            ) by {
                assert(marks@[j]);
            }
            lemma_fits_above(v, None, 0, fuel);
        }
    }
    !open
}

// ---------- What the daemon sends can be shown ------------------------------

proof fn lemma_ascii_cut(h: Seq<char>)
    requires
        is_ascii_chars(h),
    ensures
        cuttable(h),
        short(h) == h.take(shown_len(h)),
{
    broadcast use {encode_utf8_valid_utf8, is_ascii_chars_encode_utf8};

    let b = encode_utf8(h);
    let n = shown_len(h);
    assert(b.len() == h.len());
    let t = h.take(n);
    assert(is_ascii_chars(t)) by {
        assert forall|i: int| 0 <= i < t.len() implies '\0' <= #[trigger] t[i] <= '\u{7f}' by {
            assert(t[i] == h[i]);
        }
    }
    assert(encode_utf8(t).len() == t.len());
    assert forall|i: int| 0 <= i < n implies #[trigger] encode_utf8(t)[i] == b[i] by {
        assert(t[i] as u8 == encode_utf8(t)[i]);
        assert(h[i] as u8 == b[i]);
    }
    assert(encode_utf8(t) =~= b.take(n));
    encode_utf8_decode_utf8(t);
    if n == b.len() {
        is_char_boundary_start_end_of_seq(b);
    } else {
        assert(h[n] as u8 == b[n]);
        let x = b[n];
        assert(x < 128);
        assert(!is_continuation_byte(x));
        is_char_boundary_iff_not_is_continuation_byte(b, n);
    }
}

/// A hash can always be shown: its short form is its first seven digits.
pub proof fn law_hashes_are_shown_by_seven_digits(digest: Seq<u8>)
    ensures
        cuttable(hex(digest)),
        short(hex(digest)) == hex(digest).take(shown_len(hex(digest))),
        digest.len() >= 4 ==> shown_len(hex(digest)) == 7,
{
    let h = hex(digest);
    assert forall|i: int| 0 <= i < h.len() implies '\0' <= #[trigger] h[i] <= '\u{7f}' by {
        law_hashes_are_lower_case_hex(digest, i);
    }
    lemma_ascii_cut(h);
    is_ascii_chars_encode_utf8(h);
}

/// Every cell of a snapshot ranks below its parent, and none above `top`.
spec fn ranks(cells: Seq<CellSnapshotV>, rank: Map<CellId, nat>, top: nat) -> bool {
    forall|i: int|
        #![trigger cells[i]]
        0 <= i < cells.len() ==> rank[cells[i].id] <= top && (cells[i].parent matches Some(p)
            ==> rank[p] < rank[cells[i].id])
}

proof fn lemma_nests(
    cells: Seq<CellSnapshotV>,
    rank: Map<CellId, nat>,
    top: nat,
    parent: Option<CellId>,
    indent: Seq<char>,
    i: int,
    fuel: nat,
)
    requires
        ranks(cells, rank, top),
        0 <= i <= cells.len(),
        match parent {
            None => fuel >= top + 2,
            Some(p) => fuel + rank[p] >= top + 1,
        },
    ensures
        tree_lines(cells, parent, indent, i, fuel) is Some,
    decreases fuel, cells.len() - i,
{
    if i < cells.len() {
        let c = cells[i];
        lemma_nests(cells, rank, top, parent, indent, i + 1, fuel);
        if c.parent == parent {
            assert(rank[c.id] <= top);
            assert(fuel > 0);
            lemma_nests(
                cells,
                rank,
                top,
                Some(c.id),
                indent + "  "@,
                0,
                (fuel - 1) as nat,
            );
        }
    }
}

/// The highest rank of the first `n` cells.
spec fn top_rank(cells: Seq<CellSnapshotV>, rank: Map<CellId, nat>, n: nat) -> nat
    decreases n,
{
    if n == 0 {
        0
    } else {
        let before = top_rank(cells, rank, (n - 1) as nat);
        let r = rank[cells[n - 1].id];
        if r > before {
            r
        } else {
            before
        }
    }
}

proof fn lemma_top_rank(cells: Seq<CellSnapshotV>, rank: Map<CellId, nat>, n: nat, i: int)
    requires
        0 <= i < n,
    ensures
        rank[cells[i].id] <= top_rank(cells, rank, n),
    decreases n,
{
    if i < n - 1 {
        lemma_top_rank(cells, rank, (n - 1) as nat, i);
    }
}

/// The tree that the daemon sends can be shown: its cells nest.
pub proof fn law_snapshots_nest(t: TreeV)
    requires
        sound(t),
    ensures
        nests(tree_snapshot(t)),
{
    let cells = tree_snapshot(t);
    let rank = choose|rank: Map<CellId, nat>| ranked(t.cells, rank);
    law_every_cell_is_listed_in_order(t);
    let top = top_rank(cells, rank, cells.len());
    assert forall|i: int| #![trigger cells[i]] 0 <= i < cells.len() implies rank[cells[i].id]
        <= top && (cells[i].parent matches Some(p) ==> rank[p] < rank[cells[i].id]) by {
        let k = in_order(t)[i];
        assert(in_order(t).contains(k));
        assert(t.cells.contains_key(k));
        assert(placed(t, k));
        assert(cells[i] == cell_snapshot(t.cells[k]));
        lemma_top_rank(cells, rank, cells.len(), i);
        assert(t.cells[k].parent matches Some(p) ==> rank[p] < rank[k]);
    }
    lemma_nests(cells, rank, top, None, Seq::empty(), 0, top + 2);
}

} // verus!
