//! What holds of texts: of numbers written in decimal, of white space, and of paths.

use vstd::prelude::*;
use vstd::utf8::*;

use crate::mux::lemma_decimal_injective;
use crate::splice::lemma_bytes_of_both;
use crate::text::{
    decimal, digit, digits_value, is_digit, is_white, joined, number, signed_decimal, spelled,
    strip_cr, trim_back, trim_front, trimmed, without_plus,
};

verus! {

// ---------- Numbers ---------------------------------------------------------

/// A number is written in ASCII digits.
pub proof fn lemma_decimal_digits(n: nat)
    ensures
        decimal(n).len() > 0,
        forall|i: int| 0 <= i < decimal(n).len() ==> '0' <= #[trigger] decimal(n)[i] <= '9',
        is_ascii_chars(decimal(n)),
    decreases n,
{
    if n >= 10 {
        lemma_decimal_digits(n / 10);
        let p = decimal(n / 10);
        assert forall|i: int| 0 <= i < decimal(n).len() implies '0' <= #[trigger] decimal(n)[i]
            <= '9' by {
            if i < p.len() {
                assert(decimal(n)[i] == p[i]);
            } else {
                assert(digit(n % 10) as int == 48 + n % 10);
            }
        }
    } else {
        assert(digit(n) as int == 48 + n);
    }
}

proof fn lemma_spelled_decimal(n: nat)
    ensures
        spelled(encode_utf8(decimal(n))) == Some(n),
        encode_utf8(decimal(n)).len() > 0,
        encode_utf8(decimal(n))[0] != 43,
    decreases n,
{
    let b = encode_utf8(decimal(n));
    lemma_decimal_digits(n);
    is_ascii_chars_encode_utf8(decimal(n));
    assert forall|k: int| 0 <= k < b.len() implies is_digit(#[trigger] b[k]) by {
        assert('0' <= decimal(n)[k] <= '9');
        assert(decimal(n)[k] as u8 == b[k]);
    }
    assert(is_digit(b[0]));
    if n >= 10 {
        lemma_spelled_decimal(n / 10);
        lemma_decimal_digits(n / 10);
        is_ascii_chars_encode_utf8(decimal(n / 10));
        assert(b.drop_last() =~= encode_utf8(decimal(n / 10))) by {
            assert forall|k: int| 0 <= k < b.len() - 1 implies b[k] == encode_utf8(
                decimal(n / 10),
            )[k] by {
                assert(decimal(n)[k] == decimal(n / 10)[k]);
                assert(decimal(n / 10)[k] as u8 == encode_utf8(decimal(n / 10))[k]);
                assert(decimal(n)[k] as u8 == b[k]);
            }
        }
        let last = decimal(n).len() - 1;
        assert(decimal(n)[last] == digit(n % 10));
        assert(decimal(n)[last] as u8 == b[last]);
        assert(b.last() == 48 + n % 10);
    } else {
        assert(decimal(n)[0] as u8 == b[0]);
        assert(b.drop_last() =~= Seq::<u8>::empty());
        assert(digits_value(b.drop_last()) == 0);
        assert(b.last() == 48 + n);
    }
}

/// A number that is written down is read back, with or without a plus sign in front.
pub proof fn law_numbers_are_read_back(n: u64)
    ensures
        number(decimal(n as nat)) == Some(n),
        number(seq!['+'] + decimal(n as nat)) == Some(n),
{
    let d = decimal(n as nat);
    let b = encode_utf8(d);
    lemma_spelled_decimal(n as nat);
    is_ascii_chars_encode_utf8(seq!['+']);
    assert(encode_utf8(seq!['+']) =~= seq![43u8]);
    lemma_bytes_of_both(seq!['+'], d);
    assert((seq![43u8] + b).skip(1) =~= b);
}

/// A digit behind a number makes it ten times that number and the digit: decimal notation is what
/// it is taken to be.
pub proof fn law_digits_count_tens(n: nat, d: nat)
    requires
        d < 10,
    ensures
        decimal(d) == seq!["0123456789"@[d as int]],
        n > 0 ==> decimal(10 * n + d) == decimal(n).push("0123456789"@[d as int]),
{
    reveal_strlit("0123456789");
    assert(digit(d) == "0123456789"@[d as int]);
    if n > 0 {
        assert((10 * n + d) / 10 == n && (10 * n + d) % 10 == d);
    }
}

/// What holds anything but digits, behind a plus sign at most, is no number, nor is what holds
/// none; a number that is too large is none either.
pub proof fn law_only_digits_are_numbers(s: Seq<char>)
    requires
        is_ascii_chars(s),
    ensures
        ({
            let d = if s.len() > 0 && s[0] == '+' {
                s.skip(1)
            } else {
                s
            };
            number(s) is Some ==> d.len() > 0 && forall|i: int|
                0 <= i < d.len() ==> '0' <= #[trigger] d[i] <= '9'
        }),
{
    is_ascii_chars_encode_utf8(s);
    let b = encode_utf8(s);
    let d = if s.len() > 0 && s[0] == '+' {
        s.skip(1)
    } else {
        s
    };
    if s.len() > 0 {
        assert(s[0] as u8 == b[0]);
    }
    let e = without_plus(b);
    if number(s) is Some {
        assert forall|i: int| 0 <= i < d.len() implies '0' <= #[trigger] d[i] <= '9' by {
            assert(is_digit(e[i]));
            if s[0] == '+' {
                assert(s[i + 1] as u8 == b[i + 1]);
            } else {
                assert(s[i] as u8 == b[i]);
            }
        }
    }
}

/// Different numbers are written differently, and a negative one with a minus sign.
pub proof fn law_numbers_differ(a: int, b: int)
    ensures
        a != b ==> signed_decimal(a) != signed_decimal(b),
        signed_decimal(a)[0] == '-' <==> a < 0,
        a < 0 ==> signed_decimal(a) == seq!['-'] + signed_decimal(-a),
{
    lemma_decimal_digits(a as nat);
    lemma_decimal_digits((-a) as nat);
    lemma_decimal_digits(b as nat);
    lemma_decimal_digits((-b) as nat);
    if signed_decimal(a) == signed_decimal(b) {
        if a < 0 && b < 0 {
            let (x, y) = (decimal((-a) as nat), decimal((-b) as nat));
            assert((seq!['-'] + x).skip(1) =~= x);
            assert((seq!['-'] + y).skip(1) =~= y);
            lemma_decimal_injective((-a) as nat, (-b) as nat);
        } else if a >= 0 && b >= 0 {
            lemma_decimal_injective(a as nat, b as nat);
        } else {
            assert('0' <= decimal(a as nat)[0]);
            assert('0' <= decimal(b as nat)[0]);
        }
    }
    if a >= 0 {
        assert('0' <= decimal(a as nat)[0] <= '9');
    }
}

// ---------- White space -----------------------------------------------------

/// Only white space.
pub open spec fn is_blank_text(s: Seq<char>) -> bool {
    forall|i: int| 0 <= i < s.len() ==> is_white(#[trigger] s[i])
}

proof fn lemma_trim_front(s: Seq<char>) -> (pre: Seq<char>)
    ensures
        s == pre + trim_front(s),
        is_blank_text(pre),
        trim_front(s).len() > 0 ==> !is_white(trim_front(s)[0]),
    decreases s.len(),
{
    if s.len() > 0 && is_white(s[0]) {
        let p = lemma_trim_front(s.skip(1));
        let pre = s.take(1) + p;
        assert(s =~= s.take(1) + s.skip(1));
        assert(s.take(1) + (p + trim_front(s)) =~= pre + trim_front(s));
        assert forall|i: int| 0 <= i < pre.len() implies is_white(#[trigger] pre[i]) by {
            if i > 0 {
                assert(pre[i] == p[i - 1]);
            }
        }
        pre
    } else {
        let pre = s.take(0);
        assert(s =~= pre + s);
        pre
    }
}

proof fn lemma_trim_back(s: Seq<char>) -> (post: Seq<char>)
    ensures
        s == trim_back(s) + post,
        is_blank_text(post),
        trim_back(s).len() > 0 ==> !is_white(trim_back(s).last()),
        trim_back(s).len() > 0 ==> trim_back(s)[0] == s[0],
    decreases s.len(),
{
    if s.len() > 0 && is_white(s.last()) {
        let p = lemma_trim_back(s.drop_last());
        let post = p + s.skip(s.len() - 1);
        assert(s =~= s.drop_last() + s.skip(s.len() - 1));
        assert((trim_back(s) + p) + s.skip(s.len() - 1) =~= trim_back(s) + post);
        assert forall|i: int| 0 <= i < post.len() implies is_white(#[trigger] post[i]) by {
            if i < p.len() {
                assert(post[i] == p[i]);
            } else {
                assert(post[i] == s.last());
            }
        }
        post
    } else {
        let post = s.skip(s.len() as int);
        assert(s =~= s + post);
        post
    }
}

/// Trimming takes the white space from both ends of a text, all of it and nothing else.
pub proof fn law_trimming_takes_only_white_space(s: Seq<char>)
    ensures
        exists|pre: Seq<char>, post: Seq<char>|
            is_blank_text(pre) && is_blank_text(post) && s == #[trigger] (pre + trimmed(s) + post),
        trimmed(s).len() > 0 ==> !is_white(trimmed(s)[0]) && !is_white(trimmed(s).last()),
        trimmed(s).len() == 0 <==> is_blank_text(s),
{
    let pre = lemma_trim_front(s);
    let f = trim_front(s);
    let post = lemma_trim_back(f);
    assert(s =~= pre + trimmed(s) + post);
    let t = trimmed(s);
    if t.len() > 0 {
        assert(s[pre.len() as int] == t[0]);
        assert(t[0] == f[0]);
    } else {
        assert(s =~= pre + post);
        assert forall|i: int| 0 <= i < s.len() implies is_white(#[trigger] s[i]) by {
            if i < pre.len() {
                assert(s[i] == pre[i]);
            } else {
                assert(s[i] == post[i - pre.len()]);
            }
        }
    }
}

/// What stands between white space, and neither starts nor ends in any, is what trimming leaves.
pub proof fn lemma_trimmed(pre: Seq<char>, mid: Seq<char>, post: Seq<char>)
    requires
        is_blank_text(pre),
        is_blank_text(post),
        mid.len() > 0,
        !is_white(mid[0]),
        !is_white(mid.last()),
    ensures
        trimmed(pre + mid + post) == mid,
    decreases pre.len() + post.len(),
{
    let s = pre + mid + post;
    if pre.len() > 0 {
        assert(s[0] == pre[0]);
        assert(is_white(pre[0]));
        let rest = pre.skip(1);
        assert(s.skip(1) =~= rest + mid + post);
        assert forall|i: int| 0 <= i < rest.len() implies is_white(#[trigger] rest[i]) by {
            assert(rest[i] == pre[i + 1]);
        }
        lemma_trimmed(rest, mid, post);
    } else {
        assert(s =~= mid + post);
        assert(s[0] == mid[0]);
        assert(trim_front(s) == s);
        lemma_trim_end(mid, post);
    }
}

proof fn lemma_trim_end(mid: Seq<char>, post: Seq<char>)
    requires
        is_blank_text(post),
        mid.len() > 0,
        !is_white(mid.last()),
    ensures
        trim_back(mid + post) == mid,
    decreases post.len(),
{
    let s = mid + post;
    if post.len() > 0 {
        assert(s.last() == post[post.len() - 1]);
        assert(is_white(post[post.len() - 1]));
        let rest = post.drop_last();
        assert(s.drop_last() =~= mid + rest);
        assert forall|i: int| 0 <= i < rest.len() implies is_white(#[trigger] rest[i]) by {
            assert(rest[i] == post[i]);
        }
        lemma_trim_end(mid, rest);
    } else {
        assert(s =~= mid);
    }
}

/// White space is what Unicode takes for it: the tab and the characters up to the carriage return,
/// the space, and the blanks and breaks beyond ASCII.
pub proof fn law_white_space_is_what_unicode_says(c: char)
    ensures
        is_white(c) <==> {
            ||| c == ' ' || c == '\t' || c == '\n' || c == '\r' || c == '\u{b}' || c == '\u{c}'
            ||| c == '\u{85}' || c == '\u{a0}' || c == '\u{1680}'
            ||| '\u{2000}' <= c <= '\u{200a}'
            ||| c == '\u{2028}' || c == '\u{2029}' || c == '\u{202f}' || c == '\u{205f}'
            ||| c == '\u{3000}'
        },
{
}

/// Carriage returns at the end of a text go, and nothing else does.
pub proof fn law_carriage_returns_go(s: Seq<char>)
    ensures
        strip_cr(s).len() > 0 ==> strip_cr(s).last() != '\r',
        strip_cr(s) == s.take(strip_cr(s).len() as int),
        strip_cr(s).len() <= s.len(),
        forall|i: int| strip_cr(s).len() <= i < s.len() ==> #[trigger] s[i] == '\r',
    decreases s.len(),
{
    if s.len() > 0 && s.last() == '\r' {
        let p = s.drop_last();
        law_carriage_returns_go(p);
        let n = strip_cr(s).len() as int;
        assert(s.take(n) =~= p.take(n));
        assert forall|i: int| n <= i < s.len() implies #[trigger] s[i] == '\r' by {
            if i < p.len() {
                assert(p[i] == '\r');
            }
        }
    } else {
        assert(s.take(s.len() as int) =~= s);
    }
}

// ---------- Paths -----------------------------------------------------------

/// A path from the root is itself wherever it is seen from; any other is below where it is seen
/// from, with one slash between.
pub proof fn law_paths_are_joined_by_one_slash(base: Seq<char>, p: Seq<char>)
    ensures
        p.len() > 0 && p[0] == '/' ==> joined(base, p) == p,
        !(p.len() > 0 && p[0] == '/') ==> {
            let j = joined(base, p);
            &&& base.is_prefix_of(j)
            &&& j.skip(j.len() - p.len()) == p
            &&& base.len() > 0 && base.last() != '/' ==> j.len() == base.len() + 1 + p.len()
                && j[base.len() as int] == '/'
            &&& base.len() == 0 || base.last() == '/' ==> j.len() == base.len() + p.len()
        },
{
    let j = joined(base, p);
    if !(p.len() > 0 && p[0] == '/') {
        assert(j.skip(j.len() - p.len()) =~= p);
        assert(j.subrange(0, base.len() as int) =~= base);
    }
}

} // verus!
