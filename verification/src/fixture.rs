//! A form preset as `--form` spells it: a preset's name, and a suffix `*k` that makes every
//! part but the Mind `k` times larger at the same proportions.

use vstd::prelude::*;
use vstd::string::*;

verus! {

/// Where the first `*` of `spec` is, if it has one.
pub open spec fn first_star(spec: Seq<char>) -> Option<int> {
    if exists|i: int| 0 <= i < spec.len() && spec[i] == '*' {
        Some(choose|i: int| 0 <= i < spec.len() && spec[i] == '*' && forall|j: int| 0 <= j < i ==> spec[j] != '*')
    } else {
        None
    }
}

/// A spelling's two halves: the name before the first `*`, and what follows it, if anything
/// does.
pub open spec fn spelled(spec: Seq<char>) -> (Seq<char>, Option<Seq<char>>) {
    match first_star(spec) {
        Some(i) => (spec.take(i), Some(spec.skip(i + 1))),
        None => (spec, None),
    }
}

/// `spec` split at its first `*`: the preset's name, and the scale as written, which is one
/// when there is none.
pub fn fixture_parts(spec: &str) -> (r: (String, Option<String>))
    ensures
        r.0@ == spelled(spec@).0,
        match r.1 {
            Some(k) => spelled(spec@).1 == Some(k@),
            None => spelled(spec@).1 is None,
        },
{
    let n = spec.unicode_len();
    let mut i: usize = 0;
    while i < n && spec.get_char(i) != '*'
        invariant
            i <= n,
            n == spec@.len(),
            forall|j: int| 0 <= j < i ==> spec@[j] != '*',
        decreases n - i,
    {
        i += 1;
    }
    if i == n {
        return (String::from_str(spec), None);
    }
    proof {
        let c = choose|c: int| 0 <= c < spec@.len() && spec@[c] == '*' && forall|j: int| 0 <= j < c ==> spec@[j] != '*';
        assert(spec@[i as int] == '*');
        assert(c == i) by {
            if c < i { assert(spec@[c] != '*'); }
            if c > i { assert(spec@[i as int] != '*'); }
        }
        assert(spec@.subrange(0, i as int) =~= spec@.take(i as int));
        assert(spec@.subrange(i as int + 1, n as int) =~= spec@.skip(i as int + 1));
    }
    let name = String::from_str(spec.substring_char(0, i));
    let scale = String::from_str(spec.substring_char(i + 1, n));
    (name, Some(scale))
}

} // verus!
