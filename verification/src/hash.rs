//! Content addressing: the bytes that a cell's hash covers, and the hash itself.
//!
//! Every text and byte string is written behind its length, and roots and cells start with
//! different tags, so that no two different contents are written alike.

use sha2::{Digest, Sha256};
use vstd::bytes::{spec_u32_to_le_bytes, spec_u64_to_le_bytes, u32_to_le_bytes, u64_to_le_bytes};
use vstd::prelude::*;
use vstd::utf8::*;

use crate::names::{lemma_text_pairs, listing, text_pairs};
use crate::text::opt_text;
use crate::tree::{
    result_view, Cell, CellResult, CellV, ResultV, State, StateV, SystemInfo, SystemInfoV,
};

verus! {

// ---------- What is hashed --------------------------------------------------

/// Bytes behind their length.
pub open spec fn framed(b: Seq<u8>) -> Seq<u8> {
    spec_u64_to_le_bytes(b.len() as u64) + b
}

/// A text behind its length in bytes.
pub open spec fn framed_text(s: Seq<char>) -> Seq<u8> {
    framed(encode_utf8(s))
}

/// The entries of an environment, each as its name and its value.
pub open spec fn entries_bytes(l: Seq<(Seq<char>, Seq<char>)>) -> Seq<u8>
    decreases l.len(),
{
    if l.len() == 0 {
        Seq::empty()
    } else {
        framed_text(l[0].0) + (framed_text(l[0].1) + entries_bytes(l.drop_first()))
    }
}

/// A state: its directory, then its variables in the order of their names.
pub open spec fn state_bytes(s: StateV) -> Seq<u8> {
    framed_text(s.cwd) + (spec_u64_to_le_bytes(listing(s.env).len() as u64) + entries_bytes(
        listing(s.env),
    ))
}

/// What stands before the bytes of a root.
pub open spec fn root_tag() -> Seq<u8> {
    seq![70u8, 69, 82, 78, 95, 82, 79, 79, 84, 95, 86, 49, 0]
}

/// What stands before the bytes of a cell.
pub open spec fn cell_tag() -> Seq<u8> {
    seq![70u8, 69, 82, 78, 95, 67, 69, 76, 76, 95, 86, 49, 0]
}

/// The bytes that a root's hash covers: the machine and the starting state.
pub open spec fn root_bytes(info: SystemInfoV, state: StateV) -> Seq<u8> {
    root_tag() + (framed_text(info.os) + (framed_text(info.arch) + (framed_text(info.hostname) + (
    framed_text(info.fern_version) + state_bytes(state)))))
}

/// The bytes of a result: its output, exit code and end state. How long it took is left out.
pub open spec fn result_bytes(r: Option<ResultV>) -> Seq<u8> {
    match r {
        None => Seq::empty(),
        Some(r) => framed(r.stdout) + (framed(r.stderr) + (spec_u32_to_le_bytes(
            r.exit_code as u32,
        ) + state_bytes(r.end_state))),
    }
}

/// The bytes that a cell's hash covers: the parent's hash, the recipe and the result.
pub open spec fn cell_bytes(
    source: Seq<char>,
    submitter: Seq<char>,
    result: Option<ResultV>,
    parent_hash: Option<Seq<char>>,
) -> Seq<u8> {
    let above = match parent_hash {
        Some(h) => h,
        None => Seq::empty(),
    };
    cell_tag() + (framed_text(above) + (framed_text(source) + (framed_text(submitter)
        + result_bytes(result))))
}

// ---------- The hash --------------------------------------------------------

/// The SHA-256 digest of a byte string.
pub uninterp spec fn sha256_digest(b: Seq<u8>) -> Seq<u8>;

/// `Sha256::digest`: 32 bytes that depend on the data alone. How they depend on it is not
/// stated.
#[verifier::external_body]
fn sha256(b: &[u8]) -> (r: Vec<u8>)
    ensures
        r@ == sha256_digest(b@),
        r@.len() == 32,
{
    Sha256::digest(b).to_vec()
}

/// The lower-case hexadecimal digit of a number below 16.
pub open spec fn hex_digit(n: u8) -> char {
    if n < 10 {
        (48 + n) as char
    } else {
        (87 + n) as char
    }
}

/// Two hexadecimal digits for each byte.
pub open spec fn hex(b: Seq<u8>) -> Seq<char> {
    Seq::new(
        2 * b.len(),
        |i: int|
            if i % 2 == 0 {
                hex_digit(b[i / 2] / 16)
            } else {
                hex_digit(b[i / 2] % 16)
            },
    )
}

/// The hash of a root.
pub open spec fn root_hash(info: SystemInfoV, state: StateV) -> Seq<char> {
    hex(sha256_digest(root_bytes(info, state)))
}

/// The hash of a cell whose parent has the given hash.
pub open spec fn cell_hash(c: CellV, parent_hash: Option<Seq<char>>) -> Seq<char> {
    hex(sha256_digest(cell_bytes(c.source, c.submitter, c.result, parent_hash)))
}

fn digit(n: u8) -> (r: char)
    requires
        n < 16,
    ensures
        r == hex_digit(n),
{
    if n < 10 {
        (48 + n) as char
    } else {
        (87 + n) as char
    }
}

/// Two lower-case hexadecimal digits for each byte.
pub fn to_hex(bytes: &[u8]) -> (r: String)
    ensures
        r@ == hex(bytes@),
{
    let mut s = String::new();
    let mut i: usize = 0;
    assert(s@ =~= hex(bytes@.take(0)));
    while i < bytes.len()
        invariant
            i <= bytes.len(),
            s@ == hex(bytes@.take(i as int)),
        decreases bytes.len() - i,
    {
        let b: u8 = bytes[i];
        s.push(digit(b / 16));
        s.push(digit(b % 16));
        i += 1;
        proof {
            let old_s = hex(bytes@.take(i - 1));
            let new_s = hex(bytes@.take(i as int));
            assert(old_s.push(hex_digit(b / 16)).push(hex_digit(b % 16)) =~= new_s) by {
                assert forall|k: int| 0 <= k < old_s.len() implies old_s[k] == new_s[k] by {
                    assert(bytes@.take(i - 1)[k / 2] == bytes@.take(i as int)[k / 2]);
                }
            }
        }
    }
    assert(bytes@.take(i as int) =~= bytes@);
    s
}

fn h_bytes(h: &mut Vec<u8>, b: &[u8])
    ensures
        final(h)@ == old(h)@ + framed(b@),
{
    let mut n = u64_to_le_bytes(b.len() as u64);
    h.append(&mut n);
    let mut v = vstd::slice::slice_to_vec(b);
    h.append(&mut v);
    assert(h@ =~= old(h)@ + framed(b@));
}

fn h_str(h: &mut Vec<u8>, s: &str)
    ensures
        final(h)@ == old(h)@ + framed_text(s@),
{
    h_bytes(h, s.as_bytes());
}

proof fn lemma_entries_push(l: Seq<(Seq<char>, Seq<char>)>, i: int)
    requires
        0 <= i < l.len(),
    ensures
        entries_bytes(l.skip(i)) == framed_text(l[i].0) + (framed_text(l[i].1) + entries_bytes(
            l.skip(i + 1),
        )),
{
    assert(l.skip(i).drop_first() =~= l.skip(i + 1));
}

fn h_state(h: &mut Vec<u8>, state: &State)
    ensures
        final(h)@ == old(h)@ + state_bytes(state@),
{
    let ghost start = h@;
    h_str(h, state.cwd.as_str());
    let entries = state.env.entries();
    proof {
        lemma_text_pairs(entries@, state.env@);
    }
    let ghost l = text_pairs(entries@);
    let mut n = u64_to_le_bytes(entries.len() as u64);
    h.append(&mut n);
    let ghost goal = start + state_bytes(state@);
    let mut i: usize = 0;
    assert(l.skip(0) =~= l);
    assert(h@ + entries_bytes(l.skip(0)) =~= goal);
    while i < entries.len()
        invariant
            i <= entries.len(),
            l == text_pairs(entries@),
            h@ + entries_bytes(l.skip(i as int)) == goal,
        decreases entries.len() - i,
    {
        proof {
            lemma_entries_push(l, i as int);
        }
        let ghost before = h@;
        h_str(h, entries[i].0.as_str());
        h_str(h, entries[i].1.as_str());
        i += 1;
        assert(h@ + entries_bytes(l.skip(i as int)) =~= before + entries_bytes(l.skip(i - 1)));
    }
    assert(l.skip(i as int) =~= Seq::empty());
    assert(h@ =~= goal);
}

fn h_result(h: &mut Vec<u8>, result: &Option<CellResult>)
    ensures
        final(h)@ == old(h)@ + result_bytes(result_view(*result)),
{
    match result {
        Some(r) => {
            h_bytes(h, r.stdout.as_slice());
            h_bytes(h, r.stderr.as_slice());
            let mut n = u32_to_le_bytes(#[verifier::truncate] (r.exit_code as u32));
            h.append(&mut n);
            h_state(h, &r.end_state);
            assert(h@ =~= old(h)@ + result_bytes(Some(r@)));
        },
        None => {
            assert(h@ =~= old(h)@ + result_bytes(None));
        },
    }
}

/// Root cell hash: machine and starting state. Domain-separated from regular cells so that a
/// regular cell cannot collide with a root.
pub fn hash_root(info: &SystemInfo, state: &State) -> (r: crate::tree::Hash)
    ensures
        r@ == root_hash(info@, state@),
        r@.len() == 64,
{
    let mut h: Vec<u8> = vec![70, 69, 82, 78, 95, 82, 79, 79, 84, 95, 86, 49, 0];
    assert(h@ =~= root_tag());
    h_str(&mut h, info.os.as_str());
    h_str(&mut h, info.arch.as_str());
    h_str(&mut h, info.hostname.as_str());
    h_str(&mut h, info.fern_version.as_str());
    h_state(&mut h, state);
    assert(h@ =~= root_bytes(info@, state@));
    to_hex(sha256(h.as_slice()).as_slice())
}

/// Cell hash: the parent's hash, the recipe, the output and the end state. Only meaningful when
/// the cell has a result.
pub fn hash_cell(cell: &Cell, parent_hash: &Option<crate::tree::Hash>) -> (r: crate::tree::Hash)
    ensures
        r@ == cell_hash(cell@, opt_text(*parent_hash)),
        r@.len() == 64,
{
    let mut h: Vec<u8> = vec![70, 69, 82, 78, 95, 67, 69, 76, 76, 95, 86, 49, 0];
    assert(h@ =~= cell_tag());
    match parent_hash {
        Some(p) => {
            h_str(&mut h, p.as_str());
        },
        None => {
            let none = String::new();
            h_str(&mut h, none.as_str());
        },
    }
    h_str(&mut h, cell.source.as_str());
    h_str(&mut h, cell.submitter.as_str());
    h_result(&mut h, &cell.result);
    assert(h@ =~= cell_bytes(
        cell@.source,
        cell@.submitter,
        cell@.result,
        opt_text(*parent_hash),
    ));
    to_hex(sha256(h.as_slice()).as_slice())
}

} // verus!
