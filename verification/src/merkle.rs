//! What a hash stands for: no two different contents are hashed from the same bytes, so equal
//! hashes mean equal content up to a collision of SHA-256, and a cell's hash fixes its whole
//! lineage, down to the machine that the tree was started on.

use vstd::bytes::{
    lemma_auto_spec_u32_to_from_le_bytes, lemma_auto_spec_u64_to_from_le_bytes,
    spec_u32_from_le_bytes, spec_u32_to_le_bytes, spec_u64_from_le_bytes, spec_u64_to_le_bytes,
};
use vstd::prelude::*;
use vstd::utf8::*;

use crate::hash::{
    cell_bytes, cell_hash, cell_tag, entries_bytes, framed, framed_text, hex, hex_digit,
    result_bytes, root_bytes, root_hash, root_tag, sha256_digest, state_bytes,
};
use crate::names::{lemma_listing, listable, listing};
use crate::text::lemma_encode_injective;
use crate::tree::{CellId, CellV, ResultV, StateV, SystemInfoV, TreeV};

verus! {

// ---------- Sizes -----------------------------------------------------------

/// A text whose length in bytes can be counted by a machine.
pub open spec fn fits(s: Seq<char>) -> bool {
    encode_utf8(s).len() <= u64::MAX
}

/// A state that a machine can hold.
pub open spec fn state_fits(s: StateV) -> bool {
    &&& fits(s.cwd)
    &&& listable(s.env)
    &&& listing(s.env).len() <= u64::MAX
    &&& forall|i: int|
        0 <= i < listing(s.env).len() ==> fits((#[trigger] listing(s.env)[i]).0) && fits(
            listing(s.env)[i].1,
        )
}

/// A machine description that a machine can hold.
pub open spec fn info_fits(i: SystemInfoV) -> bool {
    fits(i.os) && fits(i.arch) && fits(i.hostname) && fits(i.fern_version)
}

/// A result that a machine can hold.
pub open spec fn result_fits(r: Option<ResultV>) -> bool {
    match r {
        None => true,
        Some(r) => r.stdout.len() <= u64::MAX && r.stderr.len() <= u64::MAX && state_fits(
            r.end_state,
        ),
    }
}

/// What stands above a cell: the parent's hash, or nothing.
pub open spec fn above(parent_hash: Option<Seq<char>>) -> Seq<char> {
    match parent_hash {
        Some(h) => h,
        None => Seq::empty(),
    }
}

// ---------- Nothing is written twice alike ----------------------------------

proof fn lemma_split(a: Seq<u8>, x: Seq<u8>, b: Seq<u8>, y: Seq<u8>)
    requires
        a + x == b + y,
        a.len() == b.len(),
    ensures
        a == b,
        x == y,
{
    let s = a + x;
    let t = b + y;
    assert(s.take(a.len() as int) =~= a);
    assert(t.take(b.len() as int) =~= b);
    assert(s.skip(a.len() as int) =~= x);
    assert(t.skip(b.len() as int) =~= y);
}

proof fn lemma_count(m: nat, x: Seq<u8>, n: nat, y: Seq<u8>)
    requires
        spec_u64_to_le_bytes(m as u64) + x == spec_u64_to_le_bytes(n as u64) + y,
        m <= u64::MAX,
        n <= u64::MAX,
    ensures
        m == n,
        x == y,
{
    lemma_auto_spec_u64_to_from_le_bytes();
    let p = spec_u64_to_le_bytes(m as u64);
    let q = spec_u64_to_le_bytes(n as u64);
    lemma_split(p, x, q, y);
    assert(spec_u64_from_le_bytes(p) == m as u64);
    assert(spec_u64_from_le_bytes(q) == n as u64);
}

proof fn lemma_framed(a: Seq<u8>, x: Seq<u8>, b: Seq<u8>, y: Seq<u8>)
    requires
        framed(a) + x == framed(b) + y,
        a.len() <= u64::MAX,
        b.len() <= u64::MAX,
    ensures
        a == b,
        x == y,
{
    let p = spec_u64_to_le_bytes(a.len() as u64);
    let q = spec_u64_to_le_bytes(b.len() as u64);
    assert(framed(a) + x =~= p + (a + x));
    assert(framed(b) + y =~= q + (b + y));
    lemma_count(a.len(), a + x, b.len(), b + y);
    lemma_split(a, x, b, y);
}

proof fn lemma_framed_text(a: Seq<char>, x: Seq<u8>, b: Seq<char>, y: Seq<u8>)
    requires
        framed_text(a) + x == framed_text(b) + y,
        fits(a),
        fits(b),
    ensures
        a == b,
        x == y,
{
    lemma_framed(encode_utf8(a), x, encode_utf8(b), y);
    lemma_encode_injective(a, b);
}

spec fn entries_fit(l: Seq<(Seq<char>, Seq<char>)>) -> bool {
    forall|i: int| 0 <= i < l.len() ==> fits((#[trigger] l[i]).0) && fits(l[i].1)
}

proof fn lemma_entries(a: Seq<(Seq<char>, Seq<char>)>, b: Seq<(Seq<char>, Seq<char>)>)
    requires
        entries_bytes(a) == entries_bytes(b),
        a.len() == b.len(),
        entries_fit(a),
        entries_fit(b),
    ensures
        a == b,
    decreases a.len(),
{
    if a.len() > 0 {
        let ra = a.drop_first();
        let rb = b.drop_first();
        assert(fits(a[0].0) && fits(b[0].0));
        lemma_framed_text(
            a[0].0,
            framed_text(a[0].1) + entries_bytes(ra),
            b[0].0,
            framed_text(b[0].1) + entries_bytes(rb),
        );
        lemma_framed_text(a[0].1, entries_bytes(ra), b[0].1, entries_bytes(rb));
        assert forall|i: int| 0 <= i < ra.len() implies fits((#[trigger] ra[i]).0) && fits(
            ra[i].1,
        ) by {
            assert(ra[i] == a[i + 1]);
        }
        assert forall|i: int| 0 <= i < rb.len() implies fits((#[trigger] rb[i]).0) && fits(
            rb[i].1,
        ) by {
            assert(rb[i] == b[i + 1]);
        }
        lemma_entries(ra, rb);
        assert(a =~= seq![a[0]] + ra);
        assert(b =~= seq![b[0]] + rb);
    } else {
        assert(a =~= b);
    }
}

proof fn lemma_state(a: StateV, b: StateV)
    requires
        state_bytes(a) == state_bytes(b),
        state_fits(a),
        state_fits(b),
    ensures
        a == b,
{
    let la = listing(a.env);
    let lb = listing(b.env);
    let na = spec_u64_to_le_bytes(la.len() as u64);
    let nb = spec_u64_to_le_bytes(lb.len() as u64);
    lemma_framed_text(a.cwd, na + entries_bytes(la), b.cwd, nb + entries_bytes(lb));
    lemma_count(la.len(), entries_bytes(la), lb.len(), entries_bytes(lb));
    lemma_entries(la, lb);
    lemma_listing(a.env);
    lemma_listing(b.env);
}

/// The same work: the same output, exit code and end state, however long it took.
pub open spec fn same_result(a: Option<ResultV>, b: Option<ResultV>) -> bool {
    match (a, b) {
        (None, None) => true,
        (Some(x), Some(y)) => x.stdout == y.stdout && x.stderr == y.stderr && x.exit_code
            == y.exit_code && x.end_state == y.end_state,
        _ => false,
    }
}

proof fn lemma_result(a: Option<ResultV>, b: Option<ResultV>)
    requires
        result_bytes(a) == result_bytes(b),
        result_fits(a),
        result_fits(b),
    ensures
        same_result(a, b),
{
    lemma_auto_spec_u64_to_from_le_bytes();
    lemma_auto_spec_u32_to_from_le_bytes();
    match (a, b) {
        (None, None) => {},
        (Some(x), Some(y)) => {
            let ex = spec_u32_to_le_bytes(x.exit_code as u32);
            let ey = spec_u32_to_le_bytes(y.exit_code as u32);
            let sx = ex + state_bytes(x.end_state);
            let sy = ey + state_bytes(y.end_state);
            lemma_framed(x.stdout, framed(x.stderr) + sx, y.stdout, framed(y.stderr) + sy);
            lemma_framed(x.stderr, sx, y.stderr, sy);
            lemma_split(ex, state_bytes(x.end_state), ey, state_bytes(y.end_state));
            assert(spec_u32_from_le_bytes(ex) == spec_u32_from_le_bytes(ey));
            let p = x.exit_code;
            let q = y.exit_code;
            assert(p as u32 == q as u32 ==> p == q) by (bit_vector);
            lemma_state(x.end_state, y.end_state);
        },
        (Some(x), None) => {
            assert(framed(x.stdout).len() >= 8);
            assert(result_bytes(a).len() > 0);
        },
        (None, Some(y)) => {
            assert(framed(y.stdout).len() >= 8);
            assert(result_bytes(b).len() > 0);
        },
    }
}

/// Two cells are hashed from the same bytes only where they have the same parent hash, the same
/// recipe and the same result.
pub proof fn law_cell_bytes_fix_the_cell(
    a: CellV,
    pa: Option<Seq<char>>,
    b: CellV,
    pb: Option<Seq<char>>,
)
    requires
        cell_bytes(a.source, a.submitter, a.result, pa) == cell_bytes(
            b.source,
            b.submitter,
            b.result,
            pb,
        ),
        fits(above(pa)) && fits(a.source) && fits(a.submitter) && result_fits(a.result),
        fits(above(pb)) && fits(b.source) && fits(b.submitter) && result_fits(b.result),
    ensures
        above(pa) == above(pb),
        a.source == b.source,
        a.submitter == b.submitter,
        same_result(a.result, b.result),
{
    let ra = result_bytes(a.result);
    let rb = result_bytes(b.result);
    let sa = framed_text(a.submitter) + ra;
    let sb = framed_text(b.submitter) + rb;
    let ta = framed_text(a.source) + sa;
    let tb = framed_text(b.source) + sb;
    lemma_split(
        cell_tag(),
        framed_text(above(pa)) + ta,
        cell_tag(),
        framed_text(above(pb)) + tb,
    );
    lemma_framed_text(above(pa), ta, above(pb), tb);
    lemma_framed_text(a.source, sa, b.source, sb);
    lemma_framed_text(a.submitter, ra, b.submitter, rb);
    lemma_result(a.result, b.result);
}

/// Two roots are hashed from the same bytes only on the same machine in the same state.
pub proof fn law_root_bytes_fix_the_root(
    ia: SystemInfoV,
    sa: StateV,
    ib: SystemInfoV,
    sb: StateV,
)
    requires
        root_bytes(ia, sa) == root_bytes(ib, sb),
        info_fits(ia) && state_fits(sa),
        info_fits(ib) && state_fits(sb),
    ensures
        ia == ib,
        sa == sb,
{
    let va = framed_text(ia.fern_version) + state_bytes(sa);
    let vb = framed_text(ib.fern_version) + state_bytes(sb);
    let ha = framed_text(ia.hostname) + va;
    let hb = framed_text(ib.hostname) + vb;
    let ra = framed_text(ia.arch) + ha;
    let rb = framed_text(ib.arch) + hb;
    lemma_split(root_tag(), framed_text(ia.os) + ra, root_tag(), framed_text(ib.os) + rb);
    lemma_framed_text(ia.os, ra, ib.os, rb);
    lemma_framed_text(ia.arch, ha, ib.arch, hb);
    lemma_framed_text(ia.hostname, va, ib.hostname, vb);
    lemma_framed_text(ia.fern_version, state_bytes(sa), ib.fern_version, state_bytes(sb));
    lemma_state(sa, sb);
}

/// No cell is hashed from the bytes of a root.
pub proof fn law_roots_and_cells_are_kept_apart(
    info: SystemInfoV,
    state: StateV,
    c: CellV,
    parent_hash: Option<Seq<char>>,
)
    ensures
        root_bytes(info, state) != cell_bytes(c.source, c.submitter, c.result, parent_hash),
{
    assert(root_bytes(info, state)[5] == 82);
    assert(cell_bytes(c.source, c.submitter, c.result, parent_hash)[5] == 67);
}

// ---------- Equal hashes ----------------------------------------------------

proof fn lemma_hex_digit(a: u8, b: u8)
    requires
        a < 16,
        b < 16,
        hex_digit(a) == hex_digit(b),
    ensures
        a == b,
{
}

/// A hash is written byte by byte, each as two digits, the high one first.
pub proof fn law_bytes_are_written_as_two_digits(a: Seq<u8>, b: u8)
    ensures
        ({
            let digits = "0123456789abcdef"@;
            hex(a.push(b)) == hex(a) + seq![digits[b as int / 16], digits[b as int % 16]]
        }),
        hex(Seq::empty()).len() == 0,
{
    reveal_strlit("0123456789abcdef");
    let digits = "0123456789abcdef"@;
    let s = a.push(b);
    let (h, l) = (digits[b as int / 16], digits[b as int % 16]);
    assert(hex_digit(b / 16) == h);
    assert(hex_digit(b % 16) == l);
    let want = hex(a) + seq![h, l];
    assert(hex(s).len() == want.len());
    assert forall|i: int| 0 <= i < want.len() implies hex(s)[i] == want[i] by {
        if i < 2 * a.len() {
            assert(s[i / 2] == a[i / 2]);
            assert(want[i] == hex(a)[i]);
        } else if i == 2 * a.len() {
            assert(i / 2 == a.len());
        } else {
            assert(i / 2 == a.len());
        }
    }
    assert(hex(s) =~= want);
}

/// Different digests have different hashes.
pub proof fn law_hex_is_injective(a: Seq<u8>, b: Seq<u8>)
    ensures
        hex(a) == hex(b) <==> a == b,
{
    if hex(a) == hex(b) {
        assert(hex(a).len() == 2 * a.len());
        assert(hex(b).len() == 2 * b.len());
        assert forall|i: int| 0 <= i < a.len() implies a[i] == b[i] by {
            assert(hex(a)[2 * i] == hex(b)[2 * i]);
            assert(hex(a)[2 * i + 1] == hex(b)[2 * i + 1]);
            assert((2 * i) / 2 == i && (2 * i + 1) / 2 == i);
            lemma_hex_digit(a[i] / 16, b[i] / 16);
            lemma_hex_digit(a[i] % 16, b[i] % 16);
        }
        assert(a =~= b);
    }
}

/// A hash is made of the digits 0 to 9 and a to f.
pub proof fn law_hashes_are_lower_case_hex(b: Seq<u8>, i: int)
    requires
        0 <= i < hex(b).len(),
    ensures
        ({
            let c = hex(b)[i];
            '0' <= c <= '9' || 'a' <= c <= 'f'
        }),
{
}

/// Two different byte strings with the same SHA-256 digest.
pub open spec fn collide(x: Seq<u8>, y: Seq<u8>) -> bool {
    x != y && sha256_digest(x) == sha256_digest(y)
}

/// Equal hashes of two cells mean equal content, unless the bytes that they were hashed from
/// collide under SHA-256.
pub proof fn law_equal_hashes_mean_equal_cells(
    a: CellV,
    pa: Option<Seq<char>>,
    b: CellV,
    pb: Option<Seq<char>>,
)
    requires
        cell_hash(a, pa) == cell_hash(b, pb),
        !collide(
            cell_bytes(a.source, a.submitter, a.result, pa),
            cell_bytes(b.source, b.submitter, b.result, pb),
        ),
        fits(above(pa)) && fits(a.source) && fits(a.submitter) && result_fits(a.result),
        fits(above(pb)) && fits(b.source) && fits(b.submitter) && result_fits(b.result),
    ensures
        above(pa) == above(pb),
        a.source == b.source,
        a.submitter == b.submitter,
        same_result(a.result, b.result),
{
    law_hex_is_injective(
        sha256_digest(cell_bytes(a.source, a.submitter, a.result, pa)),
        sha256_digest(cell_bytes(b.source, b.submitter, b.result, pb)),
    );
    law_cell_bytes_fix_the_cell(a, pa, b, pb);
}

/// Identical work under the same parent hash has the same hash, whoever's cell number it has and
/// however long it took.
pub proof fn law_identical_work_hashes_alike(a: CellV, b: CellV, parent_hash: Option<Seq<char>>)
    requires
        a.source == b.source,
        a.submitter == b.submitter,
        same_result(a.result, b.result),
    ensures
        cell_hash(a, parent_hash) == cell_hash(b, parent_hash),
{
    assert(result_bytes(a.result) == result_bytes(b.result));
}

// ---------- Lineages --------------------------------------------------------

/// A line of cells below a root, each the parent of the next.
pub struct Lineage {
    pub info: SystemInfoV,
    pub state: StateV,
    pub cells: Seq<CellV>,
}

impl Lineage {
    /// The hash of the `n`th cell; of the root for none.
    pub open spec fn hash_at(self, n: nat) -> Seq<char>
        decreases n,
    {
        if n == 0 {
            root_hash(self.info, self.state)
        } else {
            cell_hash(self.cells[n - 1], Some(self.hash_at((n - 1) as nat)))
        }
    }

    /// The bytes that the hash of the `n`th cell covers.
    pub open spec fn bytes_at(self, n: nat) -> Seq<u8> {
        if n == 0 {
            root_bytes(self.info, self.state)
        } else {
            let c = self.cells[n - 1];
            cell_bytes(c.source, c.submitter, c.result, Some(self.hash_at((n - 1) as nat)))
        }
    }

    /// The lineage without its last cell.
    pub open spec fn shorter(self) -> Lineage {
        Lineage { info: self.info, state: self.state, cells: self.cells.drop_last() }
    }

    /// A machine can hold all of it.
    pub open spec fn holds(self) -> bool {
        &&& info_fits(self.info)
        &&& state_fits(self.state)
        &&& forall|n: nat| n <= self.cells.len() ==> fits(#[trigger] self.hash_at(n))
        &&& forall|i: int|
            0 <= i < self.cells.len() ==> fits((#[trigger] self.cells[i]).source) && fits(
                self.cells[i].submitter,
            ) && result_fits(self.cells[i].result)
    }
}

/// Two lines of work whose last cells have the same hash are the same line: the same machine,
/// the same starting state and the same work in the same order, unless at some step the bytes
/// of the two collide under SHA-256. So work done on another machine hashes differently, all
/// the way down.
pub proof fn law_a_hash_fixes_its_lineage(a: Lineage, b: Lineage)
    requires
        a.holds(),
        b.holds(),
        a.hash_at(a.cells.len()) == b.hash_at(b.cells.len()),
        forall|m: nat, n: nat|
            m <= a.cells.len() && n <= b.cells.len() ==> !collide(
                #[trigger] a.bytes_at(m),
                #[trigger] b.bytes_at(n),
            ),
    ensures
        a.info == b.info,
        a.state == b.state,
        a.cells.len() == b.cells.len(),
        forall|i: int|
            0 <= i < a.cells.len() ==> (#[trigger] a.cells[i]).source == b.cells[i].source
                && a.cells[i].submitter == b.cells[i].submitter && same_result(
                a.cells[i].result,
                b.cells[i].result,
            ),
    decreases a.cells.len(),
{
    let m = a.cells.len();
    let n = b.cells.len();
    assert(!collide(a.bytes_at(m), b.bytes_at(n)));
    assert(a.hash_at(m) == hex(sha256_digest(a.bytes_at(m))));
    assert(b.hash_at(n) == hex(sha256_digest(b.bytes_at(n))));
    law_hex_is_injective(sha256_digest(a.bytes_at(m)), sha256_digest(b.bytes_at(n)));
    assert(a.bytes_at(m) == b.bytes_at(n));
    if m == 0 && n == 0 {
        law_root_bytes_fix_the_root(a.info, a.state, b.info, b.state);
    } else if m == 0 {
        law_roots_and_cells_are_kept_apart(
            a.info,
            a.state,
            b.cells[n - 1],
            Some(b.hash_at((n - 1) as nat)),
        );
    } else if n == 0 {
        law_roots_and_cells_are_kept_apart(
            b.info,
            b.state,
            a.cells[m - 1],
            Some(a.hash_at((m - 1) as nat)),
        );
    } else {
        let ha = a.hash_at((m - 1) as nat);
        let hb = b.hash_at((n - 1) as nat);
        law_cell_bytes_fix_the_cell(a.cells[m - 1], Some(ha), b.cells[n - 1], Some(hb));
        let a1 = a.shorter();
        let b1 = b.shorter();
        lemma_shorter(a, (m - 1) as nat);
        lemma_shorter(b, (n - 1) as nat);
        assert forall|i: nat, j: nat|
            i <= a1.cells.len() && j <= b1.cells.len() implies !collide(
            #[trigger] a1.bytes_at(i),
            #[trigger] b1.bytes_at(j),
        ) by {
            lemma_shorter(a, i);
            lemma_shorter(b, j);
            assert(!collide(a.bytes_at(i), b.bytes_at(j)));
        }
        lemma_shorter_holds(a);
        lemma_shorter_holds(b);
        law_a_hash_fixes_its_lineage(a1, b1);
        assert forall|i: int| 0 <= i < a.cells.len() implies (#[trigger] a.cells[i]).source
            == b.cells[i].source && a.cells[i].submitter == b.cells[i].submitter && same_result(
            a.cells[i].result,
            b.cells[i].result,
        ) by {
            if i < m - 1 {
                assert(a1.cells[i] == a.cells[i]);
                assert(b1.cells[i] == b.cells[i]);
            }
        }
    }
}

proof fn lemma_shorter(a: Lineage, n: nat)
    requires
        n < a.cells.len(),
    ensures
        ({
            let s = a.shorter();
            s.hash_at(n) == a.hash_at(n) && s.bytes_at(n) == a.bytes_at(n)
        }),
    decreases n,
{
    if n > 0 {
        lemma_shorter(a, (n - 1) as nat);
    }
}

proof fn lemma_shorter_holds(a: Lineage)
    requires
        a.holds(),
        a.cells.len() > 0,
    ensures
        a.shorter().holds(),
{
    let s = a.shorter();
    assert forall|i: nat| i <= s.cells.len() implies fits(#[trigger] s.hash_at(i)) by {
        lemma_shorter(a, i);
        assert(fits(a.hash_at(i)));
    }
    assert forall|i: int| 0 <= i < s.cells.len() implies fits((#[trigger] s.cells[i]).source)
        && fits(s.cells[i].submitter) && result_fits(s.cells[i].result) by {
        assert(s.cells[i] == a.cells[i]);
    }
}

/// The hash of a cell covers that of its parent: a cell that finishes, or is put into the tree with
/// its result, has the hash of its own line, submitter and result below the hash that its parent
/// has in the tree. No other cell's hash changes.
pub proof fn law_hashes_cover_the_parent(t: TreeV, id: CellId, r: ResultV, p: CellId, c: CellV)
    requires
        t.cells.contains_key(id),
        t.cells[id].parent == Some(p),
        t.cells.contains_key(p),
        c.result is Some,
    ensures
        t.finished(id, r).cells[id].hash == Some(
            cell_hash(CellV { result: Some(r), ..t.cells[id] }, t.cells[p].hash),
        ),
        t.inserted(p, c).cells[c.id].hash == Some(cell_hash(c, t.cells[p].hash)),
        forall|k: CellId|
            k != id ==> #[trigger] t.finished(id, r).cells[k].hash == t.cells[k].hash,
{
}

/// What is hashed starts with what it is, a root or a cell, in the first version of the format, and
/// every part of it with its length.
pub proof fn law_what_is_hashed_says_what_it_is(
    info: SystemInfoV,
    state: StateV,
    c: CellV,
    above: Option<Seq<char>>,
    b: Seq<u8>,
)
    ensures
        root_bytes(info, state).take(13) == encode_utf8("FERN_ROOT_V1\0"@),
        cell_bytes(c.source, c.submitter, c.result, above).take(13) == encode_utf8(
            "FERN_CELL_V1\0"@,
        ),
        framed(b).len() == 8 + b.len(),
        framed(b).skip(8) == b,
        b.len() <= u64::MAX ==> spec_u64_from_le_bytes(framed(b).take(8)) == b.len(),
{
    lemma_auto_spec_u64_to_from_le_bytes();
    let n = spec_u64_to_le_bytes(b.len() as u64);
    assert(n.len() == 8);
    assert(framed(b).skip(8) =~= b);
    assert(framed(b).take(8) =~= n);
    assert(spec_u64_from_le_bytes(n) == b.len() as u64);
    reveal_strlit("FERN_ROOT_V1\0");
    reveal_strlit("FERN_CELL_V1\0");
    let (r, k) = ("FERN_ROOT_V1\0"@, "FERN_CELL_V1\0"@);
    is_ascii_chars_encode_utf8(r);
    is_ascii_chars_encode_utf8(k);
    assert(encode_utf8(r) =~= root_tag()) by {
        assert forall|i: int| 0 <= i < 13 implies encode_utf8(r)[i] == root_tag()[i] by {
            assert(r[i] as u8 == encode_utf8(r)[i]);
        }
    }
    assert(encode_utf8(k) =~= cell_tag()) by {
        assert forall|i: int| 0 <= i < 13 implies encode_utf8(k)[i] == cell_tag()[i] by {
            assert(k[i] as u8 == encode_utf8(k)[i]);
        }
    }
    assert(root_bytes(info, state).take(13) =~= root_tag());
    assert(cell_bytes(c.source, c.submitter, c.result, above).take(13) =~= cell_tag());
}

} // verus!
