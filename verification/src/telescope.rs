//! The names a star goes by, as the telescope lists them.

use vstd::prelude::*;
use vstd::string::*;
use crate::system_panel::texts;

verus! {

/// One name this ship holds for a star: what it is, and whether somebody chose it (rather than
/// a survey designating it).
#[derive(Clone, Debug)]
pub struct Naming {
    pub name: String,
    pub chosen: bool,
}

/// The names of `held` whose choice is `chosen`, in their order.
pub open spec fn of_choice(held: Seq<Naming>, chosen: bool) -> Seq<Seq<char>>
    decreases held.len(),
{
    if held.len() == 0 {
        Seq::empty()
    } else {
        let rest = of_choice(held.drop_last(), chosen);
        if held.last().chosen == chosen { rest.push(held.last().name@) } else { rest }
    }
}

/// `s` with every name after its first occurrence left out.
pub open spec fn each_once(s: Seq<Seq<char>>) -> Seq<Seq<char>>
    decreases s.len(),
{
    if s.len() == 0 {
        Seq::empty()
    } else {
        let kept = each_once(s.drop_last());
        if kept.contains(s.last()) { kept } else { kept.push(s.last()) }
    }
}

/// Every name held for a star, chosen ones first and otherwise in the order held, each once;
/// `fallback` alone when none is held.
pub open spec fn names_of(held: Seq<Naming>, fallback: Seq<char>) -> Seq<Seq<char>> {
    let listed = each_once(of_choice(held, true) + of_choice(held, false));
    if listed.len() == 0 { seq![fallback] } else { listed }
}

proof fn lemma_each_once_push(s: Seq<Seq<char>>, x: Seq<char>)
    ensures
        each_once(s.push(x)) == if each_once(s).contains(x) { each_once(s) } else { each_once(s).push(x) },
{
    assert(s.push(x).drop_last() =~= s);
}

proof fn lemma_each_once_empty(s: Seq<Seq<char>>)
    ensures
        each_once(s).len() == 0 <==> s.len() == 0,
    decreases s.len(),
{
    if s.len() > 0 {
        lemma_each_once_empty(s.drop_last());
        if each_once(s.drop_last()).contains(s.last()) {
            assert(each_once(s.drop_last()).len() > 0);
        }
    }
}

/// Whether `names` holds `name` already.
fn holds(names: &Vec<String>, name: &String) -> (r: bool)
    ensures
        r == texts(names@).contains(name@),
{
    let mut i: usize = 0;
    while i < names.len()
        invariant
            i <= names.len(),
            forall|j: int| 0 <= j < i ==> texts(names@)[j] != name@,
        decreases names.len() - i,
    {
        if names[i].eq(name) {
            assert(texts(names@)[i as int] == name@);
            return true;
        }
        i += 1;
    }
    false
}

/// Append, once each, the names of `held` whose choice is `chosen`.
fn add_names(names: &mut Vec<String>, held: &Vec<Naming>, chosen: bool, Ghost(before): Ghost<Seq<Seq<char>>>)
    requires
        texts(old(names)@) == each_once(before),
    ensures
        texts(final(names)@) == each_once(before + of_choice(held@, chosen)),
{
    let mut i: usize = 0;
    while i < held.len()
        invariant
            i <= held.len(),
            texts(names@) == each_once(before + of_choice(held@.take(i as int), chosen)),
        decreases held.len() - i,
    {
        let ghost upto = held@.take(i as int);
        assert(held@.take(i as int + 1).drop_last() =~= upto);
        assert(held@.take(i as int + 1).last() == held@[i as int]);
        if held[i].chosen == chosen {
            let ghost grown = before + of_choice(upto, chosen);
            assert(before + of_choice(held@.take(i as int + 1), chosen) =~= grown.push(held@[i as int].name@));
            proof { lemma_each_once_push(grown, held@[i as int].name@); }
            if !holds(names, &held[i].name) {
                let name = held[i].name.clone();
                names.push(name);
                assert(texts(names@) =~= each_once(grown).push(held@[i as int].name@));
            }
        } else {
            assert(of_choice(held@.take(i as int + 1), chosen) =~= of_choice(upto, chosen));
        }
        i += 1;
    }
    assert(held@.take(held@.len() as int) =~= held@);
}

/// Every name this ship holds for a star, chosen ones first, each once; what it goes by when
/// nobody has named it (`fallback`) when it holds none.
pub fn names(held: &Vec<Naming>, fallback: String) -> (r: Vec<String>)
    ensures
        texts(r@) == names_of(held@, fallback@),
{
    let mut out: Vec<String> = Vec::new();
    assert(texts(out@) =~= each_once(Seq::<Seq<char>>::empty()));
    add_names(&mut out, held, true, Ghost(Seq::empty()));
    assert(Seq::<Seq<char>>::empty() + of_choice(held@, true) =~= of_choice(held@, true));
    add_names(&mut out, held, false, Ghost(of_choice(held@, true)));
    proof { lemma_each_once_empty(of_choice(held@, true) + of_choice(held@, false)); }
    if out.len() == 0 {
        out.push(fallback);
        assert(texts(out@) =~= seq![fallback@]);
    }
    out
}

} // verus!
