//! The System window's words and its pick: what a body's orbit rests on, how many things the
//! tabs count, and which row of the body list is picked.
//!
//! Bodies are carried by their identities, the keys they are found again by.

use vstd::prelude::*;
use vstd::string::*;
use crate::pick::{same_target, Target};
use crate::words::{decimal, decimal_text};

verus! {

/// The texts of `v`, in order.
pub open spec fn texts(v: Seq<String>) -> Seq<Seq<char>> {
    v.map_values(|s: String| s@)
}

/// How a body's orbit was arrived at.
#[derive(Clone, Copy, Debug, PartialEq, Eq)]
pub enum Method {
    Transit,
    Astrometric,
    Claim,
}

/// What the sources of a body's belief are read from.
#[derive(Clone, Copy, Debug)]
pub struct Provenance {
    pub method: Option<Method>,
    /// The craft whose word it is, by its number.
    pub stated_by: Option<u64>,
    /// How many times it was passed on before it got here.
    pub hops: u64,
}

/// Where a body's orbit came from and how far it traveled to get here, one note per line.
pub open spec fn source_notes(p: Provenance, owner: u64) -> Seq<Seq<char>> {
    let method = match p.method {
        Some(Method::Transit) => "Orbit from a settled transit"@,
        Some(Method::Astrometric) => "Orbit fitted to bearings"@,
        Some(Method::Claim) => "Orbit stated, with no measurements behind it"@,
        None => "No orbit held"@,
    };
    let word = match p.stated_by {
        Some(w) => if w == owner {
            seq!["Measured by this ship"@]
        } else {
            seq!["On craft "@ + decimal(w as nat) + "'s word"@]
        },
        None => Seq::empty(),
    };
    let relayed = if p.hops == 0 {
        Seq::empty()
    } else if p.hops == 1 {
        seq!["Relayed once"@]
    } else {
        seq!["Relayed "@ + decimal(p.hops as nat) + " times"@]
    };
    let prior = if p.method == Some(Method::Transit) {
        seq!["Distance through the star's mass, which is a prior"@]
    } else {
        Seq::empty()
    };
    seq![method] + word + relayed + prior
}

fn text_of(s: &str) -> (r: String)
    ensures
        r@ == s@,
{
    String::from_str(s)
}

/// Where a body's orbit came from and how far it traveled to get here.
pub fn sources(belief: &Provenance, owner: u64) -> (notes: Vec<String>)
    ensures
        texts(notes@) == source_notes(*belief, owner),
{
    proof {
        reveal_strlit("Orbit from a settled transit");
        reveal_strlit("Orbit fitted to bearings");
        reveal_strlit("Orbit stated, with no measurements behind it");
        reveal_strlit("No orbit held");
        reveal_strlit("Measured by this ship");
        reveal_strlit("On craft ");
        reveal_strlit("'s word");
        reveal_strlit("Relayed once");
        reveal_strlit("Relayed ");
        reveal_strlit(" times");
        reveal_strlit("Distance through the star's mass, which is a prior");
    }
    let mut notes: Vec<String> = Vec::new();
    let first = match belief.method {
        Some(Method::Transit) => text_of("Orbit from a settled transit"),
        Some(Method::Astrometric) => text_of("Orbit fitted to bearings"),
        Some(Method::Claim) => text_of("Orbit stated, with no measurements behind it"),
        None => text_of("No orbit held"),
    };
    notes.push(first);
    let ghost after_method = texts(notes@);
    match belief.stated_by {
        Some(w) => {
            if w == owner {
                notes.push(text_of("Measured by this ship"));
            } else {
                let mut s = text_of("On craft ");
                let n = decimal_text(w);
                s.append(n.as_str());
                s.append("'s word");
                notes.push(s);
            }
        },
        None => {},
    }
    let ghost after_word = texts(notes@);
    if belief.hops == 1 {
        notes.push(text_of("Relayed once"));
    } else if belief.hops > 1 {
        let mut s = text_of("Relayed ");
        let n = decimal_text(belief.hops);
        s.append(n.as_str());
        s.append(" times");
        notes.push(s);
    }
    let ghost after_hops = texts(notes@);
    let transit = match belief.method {
        Some(Method::Transit) => true,
        _ => false,
    };
    if transit {
        notes.push(text_of("Distance through the star's mass, which is a prior"));
    }
    proof {
        let p = *belief;
        let spec_word = match p.stated_by {
            Some(w) => if w == owner {
                seq!["Measured by this ship"@]
            } else {
                seq!["On craft "@ + decimal(w as nat) + "'s word"@]
            },
            None => Seq::<Seq<char>>::empty(),
        };
        let spec_relayed = if p.hops == 0 {
            Seq::<Seq<char>>::empty()
        } else if p.hops == 1 {
            seq!["Relayed once"@]
        } else {
            seq!["Relayed "@ + decimal(p.hops as nat) + " times"@]
        };
        assert(after_word =~= after_method + spec_word);
        assert(after_hops =~= after_word + spec_relayed);
        assert(texts(notes@) =~= source_notes(p, owner));
    }
    notes
}

/// How well the system's plane is held: solved, with its uncertainty already written in
/// degrees; on a circle, from transits seen one way; or not at all.
#[derive(Clone, Debug)]
pub enum Plane {
    Known { sigma_degrees: String },
    Circle,
    Unknown,
}

/// What the system's plane is, as the map's option reads it.
pub open spec fn plane_text_of(p: Plane) -> Seq<char> {
    match p {
        Plane::Known { sigma_degrees } => "System plane solved to \u{b1} "@ + sigma_degrees@ + "\u{b0}"@,
        Plane::Circle => "System plane on a circle, from transits seen one way"@,
        Plane::Unknown => "System plane unknown"@,
    }
}

pub fn plane_text(plane: &Plane) -> (r: String)
    ensures
        r@ == plane_text_of(*plane),
{
    proof {
        reveal_strlit("System plane solved to \u{b1} ");
        reveal_strlit("\u{b0}");
        reveal_strlit("System plane on a circle, from transits seen one way");
        reveal_strlit("System plane unknown");
    }
    match plane {
        Plane::Known { sigma_degrees } => {
            let mut r = text_of("System plane solved to \u{b1} ");
            r.append(sigma_degrees.as_str());
            r.append("\u{b0}");
            r
        },
        Plane::Circle => text_of("System plane on a circle, from transits seen one way"),
        Plane::Unknown => text_of("System plane unknown"),
    }
}

/// How much of an orbit's orientation is held: known, with its uncertainty already written in
/// degrees; edge-on to the one line of sight a transit gives, its pole somewhere on a circle;
/// or not at all.
#[derive(Clone, Debug)]
pub enum Orientation {
    Known { sigma_degrees: String },
    EdgeOnTo,
    Unknown,
}

pub open spec fn orientation_text_of(o: Orientation) -> Seq<char> {
    match o {
        Orientation::Known { sigma_degrees } => "known \u{b1} "@ + sigma_degrees@ + "\u{b0}"@,
        Orientation::EdgeOnTo => "edge-on to one line of sight"@,
        Orientation::Unknown => "unknown"@,
    }
}

pub fn orientation_text(orientation: &Orientation) -> (r: String)
    ensures
        r@ == orientation_text_of(*orientation),
{
    proof {
        reveal_strlit("known \u{b1} ");
        reveal_strlit("\u{b0}");
        reveal_strlit("edge-on to one line of sight");
        reveal_strlit("unknown");
    }
    match orientation {
        Orientation::Known { sigma_degrees } => {
            let mut r = text_of("known \u{b1} ");
            r.append(sigma_degrees.as_str());
            r.append("\u{b0}");
            r
        },
        Orientation::EdgeOnTo => text_of("edge-on to one line of sight"),
        Orientation::Unknown => text_of("unknown"),
    }
}

/// The Bodies tab's title: how many bodies are believed here.
pub open spec fn bodies_label_of(n: nat) -> Seq<char> {
    if n == 1 { "1 body"@ } else { decimal(n) + " bodies"@ }
}

pub fn bodies_label(n: u64) -> (r: String)
    ensures
        r@ == bodies_label_of(n as nat),
{
    proof { reveal_strlit("1 body"); reveal_strlit(" bodies"); }
    if n == 1 {
        return text_of("1 body");
    }
    let mut r = decimal_text(n);
    r.append(" bodies");
    r
}

/// The Ships tab's title: whether anyone is here at all, and how many.
pub open spec fn ships_label_of(n: nat) -> Seq<char> {
    if n == 0 { "no ships"@ } else if n == 1 { "1 ship"@ } else { decimal(n) + " ships"@ }
}

pub fn ships_label(n: u64) -> (r: String)
    ensures
        r@ == ships_label_of(n as nat),
{
    proof { reveal_strlit("no ships"); reveal_strlit("1 ship"); reveal_strlit(" ships"); }
    if n == 0 {
        return text_of("no ships");
    }
    if n == 1 {
        return text_of("1 ship");
    }
    let mut r = decimal_text(n);
    r.append(" ships");
    r
}

/// The target `held` gives `body`: the first pair that names it.
pub open spec fn target_in(held: Seq<(u64, Target)>, body: u64) -> Option<Target>
    decreases held.len(),
{
    if held.len() == 0 {
        None
    } else if held[0].0 == body {
        Some(held[0].1)
    } else {
        target_in(held.drop_first(), body)
    }
}

/// Whether `held` puts `body` at `target`.
pub open spec fn held_at(held: Seq<(u64, Target)>, body: u64, target: Target) -> bool {
    match target_in(held, body) {
        Some(t) => same_target(t, target),
        None => false,
    }
}

/// The first body of `known` that `held` puts at `target`.
pub open spec fn first_at(known: Seq<u64>, held: Seq<(u64, Target)>, target: Target) -> Option<u64>
    decreases known.len(),
{
    if known.len() == 0 {
        None
    } else if held_at(held, known[0], target) {
        Some(known[0])
    } else {
        first_at(known.drop_first(), held, target)
    }
}

/// Which body the list has picked: the focus whenever there is one, and then the first body of
/// the list at it, if any; else the list's own pick while the list still holds it.
pub open spec fn settled_pick(
    focus: Option<Target>,
    picked: Option<u64>,
    known: Seq<u64>,
    held: Seq<(u64, Target)>,
) -> Option<u64> {
    match focus {
        Some(target) => first_at(known, held, target),
        None => match picked {
            Some(body) => if known.contains(body) { Some(body) } else { None },
            None => None,
        },
    }
}

fn is_held_at(held: &Vec<(u64, Target)>, body: u64, target: &Target) -> (r: bool)
    ensures
        r == held_at(held@, body, *target),
{
    let mut i: usize = 0;
    assert(held@.skip(0) =~= held@);
    while i < held.len()
        invariant
            i <= held.len(),
            target_in(held@, body) == target_in(held@.skip(i as int), body),
        decreases held.len() - i,
    {
        assert(held@.skip(i as int).drop_first() =~= held@.skip(i as int + 1));
        if held[i].0 == body {
            return held[i].1.same(target);
        }
        i += 1;
    }
    assert(held@.skip(i as int) =~= Seq::<(u64, Target)>::empty());
    false
}

/// Which body the list has picked.
///
/// The focus is the authority whenever it names something, so that a body picked on the map or
/// in the sky lights up here too. The list keeps a pick of its own for a body only this craft
/// believes in, which has no target to be focused; a pick the list no longer holds is dropped.
/// `known` is the list, by body; `held` gives the targets of the bodies that have one.
pub fn settle_pick(
    focus: &Option<Target>,
    picked: Option<u64>,
    known: &Vec<u64>,
    held: &Vec<(u64, Target)>,
) -> (r: Option<u64>)
    ensures
        r == settled_pick(*focus, picked, known@, held@),
{
    match focus {
        Some(target) => {
            let mut i: usize = 0;
            assert(known@.skip(0) =~= known@);
            while i < known.len()
                invariant
                    i <= known.len(),
                    *focus == Some(*target),
                    first_at(known@, held@, *target) == first_at(known@.skip(i as int), held@, *target),
                decreases known.len() - i,
            {
                assert(known@.skip(i as int).drop_first() =~= known@.skip(i as int + 1));
                assert(known@.skip(i as int)[0] == known@[i as int]);
                if is_held_at(held, known[i], target) {
                    return Some(known[i]);
                }
                i += 1;
            }
            assert(known@.skip(i as int) =~= Seq::<u64>::empty());
            None
        },
        None => match picked {
            Some(body) => {
                let mut i: usize = 0;
                while i < known.len()
                    invariant
                        i <= known.len(),
                        *focus is None,
                        picked == Some(body),
                        forall|j: int| 0 <= j < i ==> known@[j] != body,
                    decreases known.len() - i,
                {
                    if known[i] == body {
                        assert(known@.contains(body)) by { assert(known@[i as int] == body); }
                        return Some(body);
                    }
                    i += 1;
                }
                None
            },
            None => None,
        },
    }
}

} // verus!
