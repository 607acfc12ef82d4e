//! An ordered map keyed by names.
//!
//! Names are ordered by their UTF-8 bytes. The entries stand in that order, each name once,
//! so that a map has one listing, whatever the order in which it was filled.

use vstd::prelude::*;
use vstd::utf8::*;

use crate::text::{lemma_encode_injective, str_eq};

verus! {

// ---------- The order of names ----------------------------------------------

/// Byte sequences in dictionary order: `a` stands before `b`.
pub open spec fn bytes_before(a: Seq<u8>, b: Seq<u8>) -> bool
    decreases a.len(),
{
    if b.len() == 0 {
        false
    } else if a.len() == 0 {
        true
    } else if a[0] != b[0] {
        a[0] < b[0]
    } else {
        bytes_before(a.skip(1), b.skip(1))
    }
}

/// The name `a` stands before the name `b`.
pub open spec fn before(a: Seq<char>, b: Seq<char>) -> bool {
    bytes_before(encode_utf8(a), encode_utf8(b))
}

proof fn lemma_bytes_irreflexive(a: Seq<u8>)
    ensures
        !bytes_before(a, a),
    decreases a.len(),
{
    if a.len() > 0 {
        lemma_bytes_irreflexive(a.skip(1));
    }
}

proof fn lemma_bytes_transitive(a: Seq<u8>, b: Seq<u8>, c: Seq<u8>)
    requires
        bytes_before(a, b),
        bytes_before(b, c),
    ensures
        bytes_before(a, c),
    decreases a.len(),
{
    if a.len() > 0 && a[0] == b[0] && b[0] == c[0] {
        lemma_bytes_transitive(a.skip(1), b.skip(1), c.skip(1));
    }
}

proof fn lemma_bytes_total(a: Seq<u8>, b: Seq<u8>)
    ensures
        bytes_before(a, b) || bytes_before(b, a) || a == b,
    decreases a.len(),
{
    if a.len() > 0 && b.len() > 0 && a[0] == b[0] {
        lemma_bytes_total(a.skip(1), b.skip(1));
        if a.skip(1) == b.skip(1) {
            assert(a =~= seq![a[0]] + a.skip(1));
            assert(b =~= seq![b[0]] + b.skip(1));
        }
    } else if a.len() == 0 && b.len() == 0 {
        assert(a =~= b);
    }
}

/// The order of names is a strict total order.
pub proof fn law_before_is_a_strict_total_order(a: Seq<char>, b: Seq<char>, c: Seq<char>)
    ensures
        !before(a, a),
        before(a, b) && before(b, c) ==> before(a, c),
        before(a, b) || before(b, a) || a == b,
        !(before(a, b) && before(b, a)),
{
    let (x, y, z) = (encode_utf8(a), encode_utf8(b), encode_utf8(c));
    lemma_bytes_irreflexive(x);
    if bytes_before(x, y) && bytes_before(y, z) {
        lemma_bytes_transitive(x, y, z);
    }
    lemma_bytes_total(x, y);
    lemma_encode_injective(a, b);
    if bytes_before(x, y) && bytes_before(y, x) {
        lemma_bytes_transitive(x, y, x);
    }
}

/// Whether the name `a` stands before the name `b`.
pub fn stands_before(a: &str, b: &str) -> (r: bool)
    ensures
        r == before(a@, b@),
{
    let x = a.as_bytes();
    let y = b.as_bytes();
    let mut i: usize = 0;
    assert(x@.skip(0) =~= x@);
    assert(y@.skip(0) =~= y@);
    while i < x.len() && i < y.len()
        invariant
            i <= x.len(),
            i <= y.len(),
            before(a@, b@) == bytes_before(x@.skip(i as int), y@.skip(i as int)),
        decreases x.len() - i,
    {
        assert(x@.skip(i as int).skip(1) =~= x@.skip(i + 1));
        assert(y@.skip(i as int).skip(1) =~= y@.skip(i + 1));
        if x[i] != y[i] {
            return x[i] < y[i];
        }
        i += 1;
    }
    i < y.len()
}

// ---------- Listings --------------------------------------------------------

/// The names of a listing ascend, so that each stands once.
pub open spec fn ascending<V>(l: Seq<(Seq<char>, V)>) -> bool {
    forall|i: int, j: int| 0 <= i < j < l.len() ==> before(#[trigger] l[i].0, #[trigger] l[j].0)
}

/// A name stands in a listing.
pub open spec fn lists<V>(l: Seq<(Seq<char>, V)>, k: Seq<char>) -> bool {
    exists|i: int| 0 <= i < l.len() && (#[trigger] l[i]).0 == k
}

/// The map that a listing writes down.
pub open spec fn map_of<V>(l: Seq<(Seq<char>, V)>) -> Map<Seq<char>, V> {
    Map::new(
        |k: Seq<char>| lists(l, k),
        |k: Seq<char>| l[choose|i: int| 0 <= i < l.len() && (#[trigger] l[i]).0 == k].1,
    )
}

/// `l` is the listing of `m`: its entries in the order of their names.
pub open spec fn is_listing<V>(l: Seq<(Seq<char>, V)>, m: Map<Seq<char>, V>) -> bool {
    ascending(l) && map_of(l) == m
}

/// The listing of a map.
pub open spec fn listing<V>(m: Map<Seq<char>, V>) -> Seq<(Seq<char>, V)> {
    choose|l: Seq<(Seq<char>, V)>| is_listing(l, m)
}

/// A map has a listing (it is finite).
pub open spec fn listable<V>(m: Map<Seq<char>, V>) -> bool {
    exists|l: Seq<(Seq<char>, V)>| is_listing(l, m)
}

/// An ascending listing maps the name at `i` to the value at `i`.
pub proof fn lemma_map_of_at<V>(l: Seq<(Seq<char>, V)>, i: int)
    requires
        ascending(l),
        0 <= i < l.len(),
    ensures
        map_of(l).contains_key(l[i].0),
        map_of(l)[l[i].0] == l[i].1,
{
    let k = l[i].0;
    assert(lists(l, k));
    let j = choose|j: int| 0 <= j < l.len() && (#[trigger] l[j]).0 == k;
    law_before_is_a_strict_total_order(k, k, k);
    if j < i {
        assert(before(l[j].0, l[i].0));
    } else if i < j {
        assert(before(l[i].0, l[j].0));
    }
}

/// Names stand as in a dictionary, byte by byte: what two have in common does not matter, the first
/// difference decides, and a name stands before those that only go on from it.
pub proof fn law_names_stand_as_in_a_dictionary(p: Seq<u8>, a: u8, x: Seq<u8>, b: u8, y: Seq<u8>)
    requires
        a < b,
    ensures
        bytes_before(p + seq![a] + x, p + seq![b] + y),
        !bytes_before(p + seq![b] + y, p + seq![a] + x),
        bytes_before(p, p + seq![a] + x),
        !bytes_before(p + seq![a] + x, p),
        !bytes_before(p, p),
    decreases p.len(),
{
    let (s, t) = (p + seq![a] + x, p + seq![b] + y);
    if p.len() > 0 {
        let q = p.skip(1);
        law_names_stand_as_in_a_dictionary(q, a, x, b, y);
        assert(s.skip(1) =~= q + seq![a] + x);
        assert(t.skip(1) =~= q + seq![b] + y);
        assert(s[0] == p[0] && t[0] == p[0]);
    } else {
        assert(s[0] == a && t[0] == b);
    }
}

/// A map has one listing: two ascending listings of the same map are the same, whatever the
/// order in which the map was filled.
pub proof fn law_one_listing<V>(a: Seq<(Seq<char>, V)>, b: Seq<(Seq<char>, V)>)
    requires
        ascending(a),
        ascending(b),
        map_of(a) == map_of(b),
    ensures
        a == b,
    decreases a.len(),
{
    if a.len() == 0 {
        if b.len() > 0 {
            lemma_map_of_at(b, 0);
            assert(lists(a, b[0].0));
        }
        assert(a =~= b);
    } else {
        lemma_map_of_at(a, 0);
        assert(lists(b, a[0].0));
        let j = choose|j: int| 0 <= j < b.len() && (#[trigger] b[j]).0 == a[0].0;
        lemma_map_of_at(b, 0);
        assert(lists(a, b[0].0));
        let i = choose|i: int| 0 <= i < a.len() && (#[trigger] a[i]).0 == b[0].0;
        law_before_is_a_strict_total_order(a[0].0, b[0].0, a[0].0);
        if i > 0 && j > 0 {
            assert(before(a[0].0, a[i].0));
            assert(before(b[0].0, b[j].0));
        }
        assert(a[0].0 == b[0].0);
        assert(a[0] == b[0]);
        let (x, y) = (a.skip(1), b.skip(1));
        assert(ascending(x)) by {
            assert forall|i: int, j: int| 0 <= i < j < x.len() implies before(
                #[trigger] x[i].0,
                #[trigger] x[j].0,
            ) by {
                assert(before(a[i + 1].0, a[j + 1].0));
            }
        }
        assert(ascending(y)) by {
            assert forall|i: int, j: int| 0 <= i < j < y.len() implies before(
                #[trigger] y[i].0,
                #[trigger] y[j].0,
            ) by {
                assert(before(b[i + 1].0, b[j + 1].0));
            }
        }
        lemma_map_of_skip(a);
        lemma_map_of_skip(b);
        law_one_listing(x, y);
        assert(a =~= seq![a[0]] + x);
        assert(b =~= seq![b[0]] + y);
    }
}

proof fn lemma_map_of_skip<V>(a: Seq<(Seq<char>, V)>)
    requires
        ascending(a),
        a.len() > 0,
        ascending(a.skip(1)),
    ensures
        map_of(a.skip(1)) == map_of(a).remove(a[0].0),
{
    let x = a.skip(1);
    let m = map_of(a).remove(a[0].0);
    assert forall|k: Seq<char>| map_of(x).contains_key(k) <==> m.contains_key(k) by {
        if map_of(x).contains_key(k) {
            let i = choose|i: int| 0 <= i < x.len() && (#[trigger] x[i]).0 == k;
            assert(a[i + 1].0 == k);
            assert(before(a[0].0, a[i + 1].0));
            law_before_is_a_strict_total_order(k, k, k);
        }
        if m.contains_key(k) {
            let i = choose|i: int| 0 <= i < a.len() && (#[trigger] a[i]).0 == k;
            assert(x[i - 1].0 == k);
        }
    }
    assert forall|k: Seq<char>| map_of(x).contains_key(k) implies map_of(x)[k] == m[k] by {
        assert(m.contains_key(k));
        let i = choose|i: int| 0 <= i < x.len() && (#[trigger] x[i]).0 == k;
        lemma_map_of_at(x, i);
        assert(a[i + 1].0 == k);
        lemma_map_of_at(a, i + 1);
    }
    assert(map_of(x) =~= m);
}

/// The listing of a map that has one is a listing of it.
pub proof fn lemma_listing<V>(m: Map<Seq<char>, V>)
    requires
        listable(m),
    ensures
        is_listing(listing(m), m),
{
}

// ---------- The map ---------------------------------------------------------

/// An ordered map from names to values.
#[derive(Debug)]
pub struct NameMap<V> {
    entries: Vec<(String, V)>,
}

/// The entries of a vector of pairs, with each name as text.
pub open spec fn texts<V>(v: Seq<(String, V)>) -> Seq<(Seq<char>, V)> {
    v.map_values(|e: (String, V)| (e.0@, e.1))
}

impl<V> View for NameMap<V> {
    type V = Map<Seq<char>, V>;

    closed spec fn view(&self) -> Map<Seq<char>, V> {
        map_of(texts(self.entries@))
    }
}

/// The position of a name in an ascending vector, or the one it would take.
fn position<V>(v: &Vec<(String, V)>, name: &str) -> (r: (usize, bool))
    requires
        ascending(texts(v@)),
    ensures
        r.0 <= v.len(),
        r.1 ==> r.0 < v.len() && v@[r.0 as int].0@ == name@,
        r.1 == lists(texts(v@), name@),
        !r.1 ==> forall|i: int| 0 <= i < r.0 ==> before((#[trigger] v@[i]).0@, name@),
        !r.1 ==> forall|i: int| r.0 <= i < v.len() ==> before(name@, (#[trigger] v@[i]).0@),
{
    let ghost t = texts(v@);
    let mut i: usize = 0;
    while i < v.len()
        invariant
            i <= v.len(),
            t == texts(v@),
            ascending(t),
            forall|k: int| 0 <= k < i ==> before((#[trigger] v@[k]).0@, name@),
        decreases v.len() - i,
    {
        if str_eq(v[i].0.as_str(), name) {
            assert(t[i as int].0 == name@);
            return (i, true);
        }
        if !stands_before(v[i].0.as_str(), name) {
            proof {
                law_before_is_a_strict_total_order(v@[i as int].0@, name@, name@);
                assert forall|k: int| i <= k < v.len() implies before(
                    name@,
                    (#[trigger] v@[k]).0@,
                ) by {
                    if k > i {
                        assert(before(t[i as int].0, t[k].0));
                        law_before_is_a_strict_total_order(name@, t[i as int].0, t[k].0);
                    }
                }
                assert(!lists(t, name@)) by {
                    if lists(t, name@) {
                        let k = choose|k: int| 0 <= k < t.len() && (#[trigger] t[k]).0 == name@;
                        assert(v@[k].0@ == name@);
                        law_before_is_a_strict_total_order(name@, name@, name@);
                    }
                }
            }
            return (i, false);
        }
        i += 1;
    }
    proof {
        assert(!lists(t, name@)) by {
            if lists(t, name@) {
                let k = choose|k: int| 0 <= k < t.len() && (#[trigger] t[k]).0 == name@;
                assert(v@[k].0@ == name@);
                law_before_is_a_strict_total_order(name@, name@, name@);
            }
        }
    }
    (i, false)
}

proof fn lemma_insert<V>(l: Seq<(Seq<char>, V)>, i: int, k: Seq<char>, v: V)
    requires
        ascending(l),
        0 <= i <= l.len(),
        !lists(l, k),
        forall|j: int| 0 <= j < i ==> before((#[trigger] l[j]).0, k),
        forall|j: int| i <= j < l.len() ==> before(k, (#[trigger] l[j]).0),
    ensures
        ascending(l.insert(i, (k, v))),
        map_of(l.insert(i, (k, v))) == map_of(l).insert(k, v),
{
    let n = l.insert(i, (k, v));
    assert forall|p: int, q: int| 0 <= p < q < n.len() implies before(
        #[trigger] n[p].0,
        #[trigger] n[q].0,
    ) by {
        let p0 = if p < i { p } else { p - 1 };
        let q0 = if q < i { q } else { q - 1 };
        if p == i {
            assert(before(k, l[q0].0));
        } else if q == i {
            assert(before(l[p0].0, k));
        } else {
            assert(before(l[p0].0, l[q0].0));
        }
    }
    let m = map_of(l).insert(k, v);
    assert forall|x: Seq<char>| map_of(n).contains_key(x) <==> m.contains_key(x) by {
        if map_of(n).contains_key(x) {
            let j = choose|j: int| 0 <= j < n.len() && (#[trigger] n[j]).0 == x;
            if j != i {
                let j0 = if j < i { j } else { j - 1 };
                assert(l[j0].0 == x);
            }
        }
        if m.contains_key(x) {
            if x == k {
                assert(n[i].0 == x);
            } else {
                let j = choose|j: int| 0 <= j < l.len() && (#[trigger] l[j]).0 == x;
                let j1 = if j < i { j } else { j + 1 };
                assert(n[j1].0 == x);
            }
        }
    }
    assert forall|x: Seq<char>| map_of(n).contains_key(x) implies map_of(n)[x] == m[x] by {
        if x == k {
            lemma_map_of_at(n, i);
        } else {
            let j = choose|j: int| 0 <= j < l.len() && (#[trigger] l[j]).0 == x;
            let j1 = if j < i { j } else { j + 1 };
            lemma_map_of_at(l, j);
            lemma_map_of_at(n, j1);
            assert(n[j1].0 == x);
        }
    }
    assert(map_of(n) =~= m);
}

proof fn lemma_update<V>(l: Seq<(Seq<char>, V)>, i: int, v: V)
    requires
        ascending(l),
        0 <= i < l.len(),
    ensures
        ascending(l.update(i, (l[i].0, v))),
        map_of(l.update(i, (l[i].0, v))) == map_of(l).insert(l[i].0, v),
{
    let n = l.update(i, (l[i].0, v));
    let m = map_of(l).insert(l[i].0, v);
    assert forall|p: int, q: int| 0 <= p < q < n.len() implies before(
        #[trigger] n[p].0,
        #[trigger] n[q].0,
    ) by {
        assert(before(l[p].0, l[q].0));
    }
    assert forall|x: Seq<char>| map_of(n).contains_key(x) <==> m.contains_key(x) by {
        if map_of(n).contains_key(x) {
            let j = choose|j: int| 0 <= j < n.len() && (#[trigger] n[j]).0 == x;
            assert(l[j].0 == x);
        }
        if m.contains_key(x) {
            if x == l[i].0 {
                assert(n[i].0 == x);
            } else {
                let j = choose|j: int| 0 <= j < l.len() && (#[trigger] l[j]).0 == x;
                assert(n[j].0 == x);
            }
        }
    }
    assert forall|x: Seq<char>| map_of(n).contains_key(x) implies map_of(n)[x] == m[x] by {
        if x == l[i].0 {
            lemma_map_of_at(n, i);
        } else {
            let j = choose|j: int| 0 <= j < n.len() && (#[trigger] n[j]).0 == x;
            lemma_map_of_at(l, j);
            lemma_map_of_at(n, j);
        }
    }
    assert(map_of(n) =~= m);
}

proof fn lemma_remove<V>(l: Seq<(Seq<char>, V)>, i: int)
    requires
        ascending(l),
        0 <= i < l.len(),
    ensures
        ascending(l.remove(i)),
        map_of(l.remove(i)) == map_of(l).remove(l[i].0),
{
    let n = l.remove(i);
    let k = l[i].0;
    let m = map_of(l).remove(k);
    assert forall|p: int, q: int| 0 <= p < q < n.len() implies before(
        #[trigger] n[p].0,
        #[trigger] n[q].0,
    ) by {
        let p1 = if p < i { p } else { p + 1 };
        let q1 = if q < i { q } else { q + 1 };
        assert(before(l[p1].0, l[q1].0));
    }
    assert forall|x: Seq<char>| map_of(n).contains_key(x) <==> m.contains_key(x) by {
        if map_of(n).contains_key(x) {
            let j = choose|j: int| 0 <= j < n.len() && (#[trigger] n[j]).0 == x;
            let j1 = if j < i { j } else { j + 1 };
            assert(l[j1].0 == x);
            law_before_is_a_strict_total_order(x, x, x);
            if j1 < i {
                assert(before(l[j1].0, l[i].0));
            } else {
                assert(before(l[i].0, l[j1].0));
            }
        }
        if m.contains_key(x) {
            let j = choose|j: int| 0 <= j < l.len() && (#[trigger] l[j]).0 == x;
            let j0 = if j < i { j } else { j - 1 };
            assert(n[j0].0 == x);
        }
    }
    assert forall|x: Seq<char>| map_of(n).contains_key(x) implies map_of(n)[x] == m[x] by {
        let j = choose|j: int| 0 <= j < n.len() && (#[trigger] n[j]).0 == x;
        let j1 = if j < i { j } else { j + 1 };
        assert(m.contains_key(x));
        lemma_map_of_at(l, j1);
        lemma_map_of_at(n, j);
        assert(l[j1].0 == x);
    }
    assert(map_of(n) =~= m);
}

impl<V> NameMap<V> {
    #[verifier::type_invariant]
    spec fn in_order(self) -> bool {
        ascending(texts(self.entries@))
    }

    /// An empty map.
    pub fn new() -> (r: Self)
        ensures
            r@ == Map::<Seq<char>, V>::empty(),
    {
        let entries: Vec<(String, V)> = Vec::new();
        let r = NameMap { entries };
        assert(r@ =~= Map::<Seq<char>, V>::empty());
        r
    }

    /// The value of a name.
    pub fn get(&self, name: &str) -> (r: Option<&V>)
        ensures
            r == if self@.contains_key(name@) {
                Some(&self@[name@])
            } else {
                None
            },
    {
        proof {
            use_type_invariant(self);
        }
        let (i, found) = position(&self.entries, name);
        if found {
            proof {
                lemma_map_of_at(texts(self.entries@), i as int);
            }
            Some(&self.entries[i].1)
        } else {
            None
        }
    }

    /// Whether a name has a value.
    pub fn contains(&self, name: &str) -> (r: bool)
        ensures
            r == self@.contains_key(name@),
    {
        proof {
            use_type_invariant(self);
        }
        position(&self.entries, name).1
    }

    /// Gives a name a value, in place of the one it may have had.
    pub fn insert(&mut self, name: String, value: V)
        ensures
            final(self)@ == old(self)@.insert(name@, value),
    {
        proof {
            use_type_invariant(&*self);
        }
        let mut entries: Vec<(String, V)> = Vec::new();
        core::mem::swap(&mut entries, &mut self.entries);
        let ghost l = texts(entries@);
        let (i, found) = position(&entries, name.as_str());
        let ghost k = name@;
        if found {
            entries.remove(i);
            entries.insert(i, (name, value));
            proof {
                lemma_update(l, i as int, value);
                assert(texts(entries@) =~= l.update(i as int, (k, value)));
            }
        } else {
            entries.insert(i, (name, value));
            proof {
                assert forall|j: int| 0 <= j < i implies before((#[trigger] l[j]).0, k) by {}
                lemma_insert(l, i as int, k, value);
                assert(texts(entries@) =~= l.insert(i as int, (k, value)));
            }
        }
        self.entries = entries;
    }

    /// Takes the value of a name out of the map.
    pub fn remove(&mut self, name: &str) -> (r: Option<V>)
        ensures
            final(self)@ == old(self)@.remove(name@),
            r == if old(self)@.contains_key(name@) {
                Some(old(self)@[name@])
            } else {
                None
            },
    {
        proof {
            use_type_invariant(&*self);
        }
        let mut entries: Vec<(String, V)> = Vec::new();
        core::mem::swap(&mut entries, &mut self.entries);
        let ghost l = texts(entries@);
        let (i, found) = position(&entries, name);
        let r = if found {
            let e = entries.remove(i);
            proof {
                lemma_map_of_at(l, i as int);
                lemma_remove(l, i as int);
                assert(texts(entries@) =~= l.remove(i as int));
            }
            Some(e.1)
        } else {
            assert(map_of(l) =~= map_of(l).remove(name@));
            None
        };
        self.entries = entries;
        r
    }

    /// The entries, in the order of their names.
    pub fn entries(&self) -> (r: &Vec<(String, V)>)
        ensures
            is_listing(texts(r@), self@),
            texts(r@) == listing(self@),
            listable(self@),
    {
        proof {
            use_type_invariant(self);
            assert(is_listing(texts(self.entries@), self@));
            lemma_listing(self@);
            law_one_listing(texts(self.entries@), listing(self@));
        }
        &self.entries
    }
}

impl NameMap<String> {
    /// A copy of the map.
    pub fn copy(&self) -> (r: NameMap<String>)
        ensures
            r@ == self@,
    {
        proof {
            use_type_invariant(self);
        }
        let mut entries: Vec<(String, String)> = Vec::new();
        let mut i: usize = 0;
        while i < self.entries.len()
            invariant
                i <= self.entries.len(),
                entries@.len() == i,
                forall|k: int|
                    0 <= k < i ==> (#[trigger] entries@[k]).0@ == self.entries@[k].0@
                        && entries@[k].1 == self.entries@[k].1,
            decreases self.entries.len() - i,
        {
            entries.push((self.entries[i].0.clone(), self.entries[i].1.clone()));
            i += 1;
        }
        assert(texts(entries@) =~= texts(self.entries@));
        NameMap { entries }
    }
}

/// A map of names to texts.
pub open spec fn text_map(m: Map<Seq<char>, String>) -> Map<Seq<char>, Seq<char>> {
    Map::new(|k: Seq<char>| m.contains_key(k), |k: Seq<char>| m[k]@)
}

/// The entries of a map of strings, as texts.
pub open spec fn text_pairs(v: Seq<(String, String)>) -> Seq<(Seq<char>, Seq<char>)> {
    v.map_values(|e: (String, String)| (e.0@, e.1@))
}

/// The listing of a map of strings lists the map of their texts.
pub proof fn lemma_text_pairs(v: Seq<(String, String)>, m: Map<Seq<char>, String>)
    requires
        is_listing(texts(v), m),
    ensures
        is_listing(text_pairs(v), text_map(m)),
        listable(text_map(m)),
        text_pairs(v) == listing(text_map(m)),
{
    let t = texts(v);
    let p = text_pairs(v);
    assert forall|i: int, j: int| 0 <= i < j < p.len() implies before(
        #[trigger] p[i].0,
        #[trigger] p[j].0,
    ) by {
        assert(before(t[i].0, t[j].0));
    }
    assert forall|k: Seq<char>| lists(p, k) <==> lists(t, k) by {
        if lists(p, k) {
            let i = choose|i: int| 0 <= i < p.len() && (#[trigger] p[i]).0 == k;
            assert(t[i].0 == k);
        }
        if lists(t, k) {
            let i = choose|i: int| 0 <= i < t.len() && (#[trigger] t[i]).0 == k;
            assert(p[i].0 == k);
        }
    }
    assert forall|k: Seq<char>| map_of(p).contains_key(k) implies map_of(p)[k] == text_map(
        m,
    )[k] by {
        let i = choose|i: int| 0 <= i < p.len() && (#[trigger] p[i]).0 == k;
        lemma_map_of_at(p, i);
        assert(t[i].0 == k);
        lemma_map_of_at(t, i);
        assert(m.contains_key(k));
    }
    assert(map_of(p) =~= text_map(m));
    assert(is_listing(p, text_map(m)));
    lemma_listing(text_map(m));
    law_one_listing(p, listing(text_map(m)));
}

} // verus!
