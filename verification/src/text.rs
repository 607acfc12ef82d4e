//! Strings: reading, building, trimming, decimal numbers and slash paths.

use vstd::prelude::*;
use vstd::utf8::*;

verus! {

/// `String::push` appends one character.
pub assume_specification[ String::push ](s: &mut String, c: char)
    ensures
        final(s)@ == old(s)@.push(c),
;

/// What `String::from_utf8_lossy` makes of bytes that are not valid UTF-8.
pub uninterp spec fn lossy_text(bytes: Seq<u8>) -> Seq<char>;

/// The text of a byte string: the one it encodes, or an approximation where it encodes none.
pub open spec fn as_text(bytes: Seq<u8>) -> Seq<char> {
    if valid_utf8(bytes) {
        decode_utf8(bytes)
    } else {
        lossy_text(bytes)
    }
}

/// `String::from_utf8_lossy`, owned. Bytes that are valid UTF-8 come back as the text they
/// encode; all others give a text that depends on the bytes alone, with replacement characters
/// whose placement is not stated.
#[verifier::external_body]
pub(crate) fn text_of_bytes(bytes: &[u8]) -> (r: String)
    ensures
        r@ == if valid_utf8(bytes@) {
            decode_utf8(bytes@)
        } else {
            lossy_text(bytes@)
        },
{
    String::from_utf8_lossy(bytes).into_owned()
}

/// `std::str::from_utf8`: succeeds exactly on valid UTF-8, with the text it encodes.
#[verifier::external_body]
pub(crate) fn strict_text(bytes: &[u8]) -> (r: Option<String>)
    ensures
        r is Some <==> valid_utf8(bytes@),
        r matches Some(s) ==> s@ == decode_utf8(bytes@),
{
    match std::str::from_utf8(bytes) {
        Ok(s) => Some(s.to_owned()),
        Err(_) => None,
    }
}

/// Two texts are the same exactly when their encodings are.
pub proof fn lemma_encode_injective(a: Seq<char>, b: Seq<char>)
    ensures
        encode_utf8(a) == encode_utf8(b) <==> a == b,
{
    encode_utf8_decode_utf8(a);
    encode_utf8_decode_utf8(b);
}

/// Whether two byte slices hold the same bytes.
pub fn bytes_eq(a: &[u8], b: &[u8]) -> (r: bool)
    ensures
        r == (a@ == b@),
{
    if a.len() != b.len() {
        return false;
    }
    let mut i: usize = 0;
    while i < a.len()
        invariant
            i <= a.len(),
            a.len() == b.len(),
            forall|k: int| 0 <= k < i ==> a@[k] == b@[k],
        decreases a.len() - i,
    {
        if a[i] != b[i] {
            return false;
        }
        i += 1;
    }
    assert(a@ =~= b@);
    true
}

/// Whether two strings hold the same text.
pub fn str_eq(a: &str, b: &str) -> (r: bool)
    ensures
        r == (a@ == b@),
{
    proof {
        lemma_encode_injective(a@, b@);
    }
    bytes_eq(a.as_bytes(), b.as_bytes())
}

/// The characters of a string, in order.
pub fn chars_of(s: &str) -> (r: Vec<char>)
    ensures
        r@ == s@,
{
    let mut out: Vec<char> = Vec::new();
    for c in it: s.chars()
        invariant
            it.seq() == s@,
            out@ == s@.take(it.index() as int),
    {
        out.push(c);
    }
    assert(s@.take(s@.len() as int) =~= s@);
    out
}

/// The string made of the characters `v[from..to]`.
pub fn string_of(v: &Vec<char>, from: usize, to: usize) -> (r: String)
    requires
        from <= to <= v.len(),
    ensures
        r@ == v@.subrange(from as int, to as int),
{
    let mut out = String::new();
    let mut i: usize = from;
    while i < to
        invariant
            from <= i <= to <= v.len(),
            out@ == v@.subrange(from as int, i as int),
        decreases to - i,
    {
        out.push(v[i]);
        i += 1;
        assert(v@.subrange(from as int, i as int) =~= v@.subrange(from as int, i - 1).push(v@[i - 1]));
    }
    out
}

/// The UTF-8 encoding of a string, as a vector.
pub fn bytes_of(s: &str) -> (r: Vec<u8>)
    ensures
        r@ == encode_utf8(s@),
{
    vstd::slice::slice_to_vec(s.as_bytes())
}

/// A copy of an optional string.
pub fn copy_opt(s: &Option<String>) -> (r: Option<String>)
    ensures
        r == *s,
{
    match s {
        Some(t) => Some(t.clone()),
        None => None,
    }
}

/// The text of an optional string.
pub open spec fn opt_text(s: Option<String>) -> Option<Seq<char>> {
    match s {
        Some(t) => Some(t@),
        None => None,
    }
}

// ---------- White space ----------------------------------------------------

/// The characters that Unicode calls white space.
pub open spec fn is_white(c: char) -> bool {
    let u = c as u32;
    ||| 0x09 <= u <= 0x0d
    ||| u == 0x20
    ||| u == 0x85
    ||| u == 0xa0
    ||| u == 0x1680
    ||| 0x2000 <= u <= 0x200a
    ||| u == 0x2028
    ||| u == 0x2029
    ||| u == 0x202f
    ||| u == 0x205f
    ||| u == 0x3000
}

/// Whether a character is white space.
pub fn white(c: char) -> (r: bool)
    ensures
        r == is_white(c),
{
    let u: u32 = c as u32;
    (0x09 <= u && u <= 0x0d) || u == 0x20 || u == 0x85 || u == 0xa0 || u == 0x1680 || (0x2000 <= u
        && u <= 0x200a) || u == 0x2028 || u == 0x2029 || u == 0x202f || u == 0x205f || u == 0x3000
}

/// `s` without the white space it starts with.
pub open spec fn trim_front(s: Seq<char>) -> Seq<char>
    decreases s.len(),
{
    if s.len() > 0 && is_white(s[0]) {
        trim_front(s.skip(1))
    } else {
        s
    }
}

/// `s` without the white space it ends in.
pub open spec fn trim_back(s: Seq<char>) -> Seq<char>
    decreases s.len(),
{
    if s.len() > 0 && is_white(s.last()) {
        trim_back(s.drop_last())
    } else {
        s
    }
}

/// `s` without the white space at both its ends.
pub open spec fn trimmed(s: Seq<char>) -> Seq<char> {
    trim_back(trim_front(s))
}

/// A string without the white space at both its ends.
pub fn trim(s: &str) -> (r: String)
    ensures
        r@ == trimmed(s@),
{
    let v = chars_of(s);
    let mut from: usize = 0;
    assert(v@.skip(0) =~= v@);
    while from < v.len() && white(v[from])
        invariant
            from <= v.len(),
            trim_front(v@) == trim_front(v@.skip(from as int)),
        decreases v.len() - from,
    {
        assert(v@.skip(from as int).skip(1) =~= v@.skip(from + 1));
        from += 1;
    }
    let mut to: usize = v.len();
    let ghost rest = v@.skip(from as int);
    assert(trim_front(v@) == rest);
    assert(v@.subrange(from as int, to as int) =~= rest);
    while to > from && white(v[to - 1])
        invariant
            from <= to <= v.len(),
            trim_back(rest) == trim_back(v@.subrange(from as int, to as int)),
        decreases to,
    {
        assert(v@.subrange(from as int, to as int).drop_last() =~= v@.subrange(
            from as int,
            to - 1,
        ));
        to -= 1;
    }
    string_of(&v, from, to)
}

/// `s` without the carriage returns it ends in.
pub open spec fn strip_cr(s: Seq<char>) -> Seq<char>
    decreases s.len(),
{
    if s.len() > 0 && s.last() == '\r' {
        strip_cr(s.drop_last())
    } else {
        s
    }
}

/// A string without the carriage returns it ends in.
pub fn without_cr(s: &str) -> (r: String)
    ensures
        r@ == strip_cr(s@),
{
    let v = chars_of(s);
    let mut to: usize = v.len();
    assert(v@.subrange(0, to as int) =~= v@);
    while to > 0 && v[to - 1] == '\r'
        invariant
            to <= v.len(),
            strip_cr(v@) == strip_cr(v@.subrange(0, to as int)),
        decreases to,
    {
        assert(v@.subrange(0, to as int).drop_last() =~= v@.subrange(0, to - 1));
        to -= 1;
    }
    string_of(&v, 0, to)
}

/// Whether a text ends in something other than a newline.
pub open spec fn ends_mid_line(s: Seq<char>) -> bool {
    s.len() > 0 && s.last() != '\n'
}

/// The last character of a string.
pub fn last_char(s: &str) -> (r: Option<char>)
    ensures
        r == if s@.len() > 0 {
            Some(s@.last())
        } else {
            None
        },
{
    let v = chars_of(s);
    if v.len() > 0 {
        Some(v[v.len() - 1])
    } else {
        None
    }
}

/// Whether `s` starts with `prefix`.
pub fn starts_with(s: &str, prefix: &str) -> (r: bool)
    ensures
        r == prefix@.is_prefix_of(s@),
{
    let a = chars_of(s);
    let b = chars_of(prefix);
    if a.len() < b.len() {
        return false;
    }
    let mut i: usize = 0;
    while i < b.len()
        invariant
            i <= b.len() <= a.len(),
            a@ == s@,
            b@ == prefix@,
            forall|k: int| 0 <= k < i ==> a@[k] == b@[k],
        decreases b.len() - i,
    {
        if a[i] != b[i] {
            assert(a@.subrange(0, b@.len() as int)[i as int] != b@[i as int]);
            return false;
        }
        i += 1;
    }
    assert(b@ =~= a@.subrange(0, b@.len() as int));
    true
}

// ---------- Decimal numbers -------------------------------------------------

/// The character of a decimal digit.
pub open spec fn digit(d: nat) -> char {
    (48 + d) as char
}

/// A number in decimal, without leading zeros.
pub open spec fn decimal(n: nat) -> Seq<char>
    decreases n,
{
    if n < 10 {
        seq![digit(n)]
    } else {
        decimal(n / 10).push(digit(n % 10))
    }
}

/// A number in decimal, with a minus sign where it is negative.
pub open spec fn signed_decimal(i: int) -> Seq<char> {
    if i < 0 {
        seq!['-'] + decimal((-i) as nat)
    } else {
        decimal(i as nat)
    }
}

/// Appends `n` in decimal.
pub fn push_decimal(s: &mut String, n: u64)
    ensures
        final(s)@ == old(s)@ + decimal(n as nat),
    decreases n,
{
    if n >= 10 {
        push_decimal(s, n / 10);
    }
    let d: u8 = (n % 10) as u8;
    s.push((48 + d) as char);
}

/// Appends `n` in decimal, with its sign.
pub fn push_signed(s: &mut String, n: i32)
    ensures
        final(s)@ == old(s)@ + signed_decimal(n as int),
{
    if n < 0 {
        s.push('-');
        push_decimal(s, (-(n as i64)) as u64);
    } else {
        push_decimal(s, n as u64);
    }
}

/// Whether a byte is a decimal digit.
pub open spec fn is_digit(b: u8) -> bool {
    48 <= b <= 57
}

/// The value of a sequence of decimal digits.
pub open spec fn digits_value(s: Seq<u8>) -> nat
    decreases s.len(),
{
    if s.len() == 0 {
        0
    } else {
        digits_value(s.drop_last()) * 10 + (s.last() - 48) as nat
    }
}

/// The number that `s` spells in decimal: digits only, and at least one.
pub open spec fn spelled(s: Seq<u8>) -> Option<nat> {
    if s.len() > 0 && forall|k: int| 0 <= k < s.len() ==> is_digit(#[trigger] s[k]) {
        Some(digits_value(s))
    } else {
        None
    }
}

/// The number that `b` spells in decimal, if it is at most `max`.
pub fn read_decimal(b: &[u8], max: u64) -> (r: Option<u64>)
    ensures
        r == match spelled(b@) {
            Some(n) if n <= max => Some(n as u64),
            _ => None,
        },
{
    if b.len() == 0 {
        return None;
    }
    let mut n: u64 = 0;
    let mut i: usize = 0;
    let mut over: bool = false;
    while i < b.len()
        invariant
            i <= b.len(),
            n <= max,
            forall|k: int| 0 <= k < i ==> is_digit(#[trigger] b@[k]),
            over ==> digits_value(b@.take(i as int)) > max,
            !over ==> n == digits_value(b@.take(i as int)),
        decreases b.len() - i,
    {
        if b[i] < 48 || b[i] > 57 {
            assert(!is_digit(b@[i as int]));
            return None;
        }
        let d: u64 = (b[i] - 48) as u64;
        assert(b@.take(i + 1).drop_last() =~= b@.take(i as int));
        if !over {
            if d > max || n > max / 10 || n * 10 > max - d {
                over = true;
                assert(n * 10 + d > max);
            } else {
                n = n * 10 + d;
            }
        }
        i += 1;
    }
    assert(b@.take(i as int) =~= b@);
    if over {
        None
    } else {
        Some(n)
    }
}

/// The bytes of a number without the plus sign that may lead it.
pub open spec fn without_plus(s: Seq<u8>) -> Seq<u8> {
    if s.len() > 0 && s[0] == 43 {
        s.skip(1)
    } else {
        s
    }
}

/// The unsigned number that a string spells: digits, with at most one plus sign in front. None
/// where it is not a number or too large.
pub open spec fn number(s: Seq<char>) -> Option<u64> {
    match spelled(without_plus(encode_utf8(s))) {
        Some(n) if n <= u64::MAX => Some(n as u64),
        _ => None,
    }
}

/// The unsigned number that a string spells.
pub fn read_u64(s: &str) -> (r: Option<u64>)
    ensures
        r == number(s@),
{
    let b = s.as_bytes();
    if b.len() > 0 && b[0] == 43 {
        let rest = vstd::slice::slice_subrange(b, 1, b.len());
        assert(rest@ =~= b@.skip(1));
        read_decimal(rest, u64::MAX)
    } else {
        read_decimal(b, u64::MAX)
    }
}

// ---------- Slash paths -----------------------------------------------------

/// Whether a path starts at the root.
pub open spec fn is_absolute(p: Seq<char>) -> bool {
    p.len() > 0 && p[0] == '/'
}

/// `p` as seen from `base`: itself when absolute, otherwise below `base`.
pub open spec fn joined(base: Seq<char>, p: Seq<char>) -> Seq<char> {
    if is_absolute(p) {
        p
    } else if base.len() == 0 || base.last() == '/' {
        base + p
    } else {
        base.push('/') + p
    }
}

/// `p` as seen from `base`.
pub fn join_path(base: &str, p: &str) -> (r: String)
    ensures
        r@ == joined(base@, p@),
{
    let pc = chars_of(p);
    if pc.len() > 0 && pc[0] == '/' {
        return p.to_owned();
    }
    let mut out = base.to_owned();
    match last_char(base) {
        Some(c) => {
            if c != '/' {
                out.push('/');
            }
        },
        None => {},
    }
    out.append(p);
    out
}

} // verus!
