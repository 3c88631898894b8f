//! Small pieces of English the panels are built from.

use vstd::prelude::*;
use vstd::string::*;

verus! {

/// `name` with the possessive ending English gives it: a bare apostrophe after a final `s`,
/// `'s` otherwise.
pub open spec fn possessive_of(name: Seq<char>) -> Seq<char> {
    if name.len() > 0 && name.last() == 's' {
        name + seq!['\'']
    } else {
        name + seq!['\'', 's']
    }
}

pub fn possessive(name: &str) -> (res: String)
    ensures
        res@ == possessive_of(name@),
{
    let n = name.unicode_len();
    let mut out = String::from_str(name);
    if n > 0 && name.get_char(n - 1) == 's' {
        out.append("'");
    } else {
        out.append("'s");
    }
    proof {
        reveal_strlit("'");
        reveal_strlit("'s");
    }
    out
}

} // verus!

verus! {

/// The digit for `d`, below ten.
pub open spec fn digit(d: nat) -> char {
    if d == 0 { '0' } else if d == 1 { '1' } else if d == 2 { '2' } else if d == 3 { '3' }
    else if d == 4 { '4' } else if d == 5 { '5' } else if d == 6 { '6' } else if d == 7 { '7' }
    else if d == 8 { '8' } else { '9' }
}

/// `n` in decimal, as `{}` writes an integer: no sign, no leading zeros.
pub open spec fn decimal(n: nat) -> Seq<char>
    decreases n,
{
    if n < 10 { seq![digit(n)] } else { decimal(n / 10) + seq![digit(n % 10)] }
}

/// The digit for `d`, as text.
fn digit_text(d: u64) -> (s: &'static str)
    requires
        d < 10,
    ensures
        s@ == seq![digit(d as nat)],
{
    proof {
        reveal_strlit("0");
        reveal_strlit("1");
        reveal_strlit("2");
        reveal_strlit("3");
        reveal_strlit("4");
        reveal_strlit("5");
        reveal_strlit("6");
        reveal_strlit("7");
        reveal_strlit("8");
        reveal_strlit("9");
    }
    if d == 0 { "0" } else if d == 1 { "1" } else if d == 2 { "2" } else if d == 3 { "3" } else if d == 4 { "4" } else if d == 5 { "5" } else if d == 6 { "6" } else if d == 7 { "7" } else if d == 8 { "8" } else { "9" }
}

/// `n` written as `{}` writes it, which for an integer is its decimal digits.
pub fn decimal_text(n: u64) -> (r: String)
    ensures
        r@ == decimal(n as nat),
    decreases n,
{
    if n < 10 {
        String::from_str(digit_text(n))
    } else {
        let mut r = decimal_text(n / 10);
        r.append(digit_text(n % 10));
        r
    }
}

/// The characters Unicode calls `White_Space`, which is what `str::trim` removes.
pub open spec fn white_space(c: char) -> bool {
    ('\u{9}' <= c <= '\u{d}') || c == ' ' || c == '\u{85}' || c == '\u{a0}' || c == '\u{1680}'
        || ('\u{2000}' <= c <= '\u{200a}') || c == '\u{2028}' || c == '\u{2029}' || c == '\u{202f}'
        || c == '\u{205f}' || c == '\u{3000}'
}

pub fn is_white_space(c: char) -> (r: bool)
    ensures r == white_space(c),
{
    ('\u{9}' <= c && c <= '\u{d}') || c == ' ' || c == '\u{85}' || c == '\u{a0}' || c == '\u{1680}'
        || ('\u{2000}' <= c && c <= '\u{200a}') || c == '\u{2028}' || c == '\u{2029}' || c == '\u{202f}'
        || c == '\u{205f}' || c == '\u{3000}'
}

/// `s` with leading and trailing white space removed, as `str::trim` does.
pub open spec fn trimmed(s: Seq<char>) -> Seq<char> {
    if forall|i: int| 0 <= i < s.len() ==> white_space(#[trigger] s[i]) {
        Seq::empty()
    } else {
        let a = choose|a: int| 0 <= a < s.len() && !white_space(#[trigger] s[a])
            && forall|j: int| 0 <= j < a ==> white_space(#[trigger] s[j]);
        let b = choose|b: int| 0 <= b < s.len() && !white_space(#[trigger] s[b])
            && forall|j: int| b < j < s.len() ==> white_space(#[trigger] s[j]);
        s.subrange(a, b + 1)
    }
}

/// Nothing but white space: what trims to nothing.
pub open spec fn blank(s: Seq<char>) -> bool {
    forall|i: int| 0 <= i < s.len() ==> white_space(#[trigger] s[i])
}

/// Whether `s` trims to nothing.
pub fn is_blank(s: &str) -> (r: bool)
    ensures r == blank(s@), r == (trimmed(s@).len() == 0),
{
    let n = s.unicode_len();
    let mut i: usize = 0;
    while i < n
        invariant
            i <= n,
            n == s@.len(),
            forall|j: int| 0 <= j < i ==> white_space(#[trigger] s@[j]),
        decreases n - i,
    {
        if !is_white_space(s.get_char(i)) {
            proof { lemma_trim_nonempty(s@, i as int); }
            return false;
        }
        i += 1;
    }
    true
}

pub proof fn lemma_trim_nonempty(s: Seq<char>, i: int)
    requires 0 <= i < s.len(), !white_space(s[i]),
    ensures trimmed(s).len() > 0, !blank(s),
{
    assert(!white_space(s[i]));
    let a = choose|a: int| 0 <= a < s.len() && !white_space(#[trigger] s[a])
        && forall|j: int| 0 <= j < a ==> white_space(#[trigger] s[j]);
    let b = choose|b: int| 0 <= b < s.len() && !white_space(#[trigger] s[b])
        && forall|j: int| b < j < s.len() ==> white_space(#[trigger] s[j]);
    lemma_first_mark(s, i);
    lemma_last_mark(s, i);
    assert(a <= i) by { if a > i { assert(white_space(s[i])); } }
    assert(b >= i) by { if b < i { assert(white_space(s[i])); } }
}

/// A non-white character has a first non-white one at or before it.
proof fn lemma_first_mark(s: Seq<char>, i: int)
    requires 0 <= i < s.len(), !white_space(s[i]),
    ensures exists|a: int| 0 <= a < s.len() && !white_space(#[trigger] s[a])
        && forall|j: int| 0 <= j < a ==> white_space(#[trigger] s[j]),
    decreases i,
{
    if forall|j: int| 0 <= j < i ==> white_space(#[trigger] s[j]) {
    } else {
        let k = choose|k: int| 0 <= k < i && !white_space(#[trigger] s[k]);
        lemma_first_mark(s, k);
    }
}

/// And a last one at or after it.
proof fn lemma_last_mark(s: Seq<char>, i: int)
    requires 0 <= i < s.len(), !white_space(s[i]),
    ensures exists|b: int| 0 <= b < s.len() && !white_space(#[trigger] s[b])
        && forall|j: int| b < j < s.len() ==> white_space(#[trigger] s[j]),
    decreases s.len() - i,
{
    if forall|j: int| i < j < s.len() ==> white_space(#[trigger] s[j]) {
    } else {
        let k = choose|k: int| i < k < s.len() && !white_space(#[trigger] s[k]);
        lemma_last_mark(s, k);
    }
}

/// `s` trimmed, as `str::trim` gives it.
pub fn trim(s: &str) -> (r: String)
    ensures r@ == trimmed(s@),
{
    let n = s.unicode_len();
    let mut a: usize = 0;
    while a < n && is_white_space(s.get_char(a))
        invariant
            a <= n,
            n == s@.len(),
            forall|j: int| 0 <= j < a ==> white_space(#[trigger] s@[j]),
        decreases n - a,
    {
        a += 1;
    }
    if a == n {
        return String::new();
    }
    let mut b: usize = n - 1;
    while b > a && is_white_space(s.get_char(b))
        invariant
            a <= b < n,
            n == s@.len(),
            !white_space(s@[a as int]),
            forall|j: int| b < j < n ==> white_space(#[trigger] s@[j]),
        decreases b,
    {
        b -= 1;
    }
    proof {
        assert(!white_space(s@[b as int]));
        let ca = choose|x: int| 0 <= x < s@.len() && !white_space(#[trigger] s@[x])
            && forall|j: int| 0 <= j < x ==> white_space(#[trigger] s@[j]);
        let cb = choose|x: int| 0 <= x < s@.len() && !white_space(#[trigger] s@[x])
            && forall|j: int| x < j < s@.len() ==> white_space(#[trigger] s@[j]);
        lemma_first_mark(s@, a as int);
        lemma_last_mark(s@, b as int);
        assert(ca == a) by { if ca < a { assert(white_space(s@[ca])); } if ca > a { assert(white_space(s@[a as int])); } }
        assert(cb == b) by { if cb < b { assert(white_space(s@[b as int])); } if cb > b { assert(white_space(s@[cb])); } }
    }
    String::from_str(s.substring_char(a, b + 1))
}

} // verus!
