//! The pursuit button of the ships list: what it says, what it does, and what it asks for.

use vstd::prelude::*;
use vstd::string::*;

verus! {

/// How close a pursuit keeps to its quarry.
#[derive(Clone, Copy, Debug, PartialEq, Eq, Structural)]
pub enum Closeness {
    Company,
    Intimate,
}

/// The closeness the button asks for: the other one.
pub open spec fn other_closeness(now: Closeness) -> Closeness {
    match now {
        Closeness::Company => Closeness::Intimate,
        Closeness::Intimate => Closeness::Company,
    }
}

/// The button that changes a pursuit's closeness: what it says, its hint, and what it asks for.
pub fn closer(now: Closeness) -> (r: (&'static str, &'static str, Closeness))
    ensures
        r.2 == other_closeness(now),
        now == Closeness::Company ==> r.0@ == "close in"@ && r.1@ == "within sight: a kilometre between hulls"@,
        now == Closeness::Intimate ==> r.0@ == "stand off"@ && r.1@ == "back to formation distance"@,
{
    match now {
        Closeness::Company => ("close in", "within sight: a kilometre between hulls", Closeness::Intimate),
        Closeness::Intimate => ("stand off", "back to formation distance", Closeness::Company),
    }
}

/// Pressing the button twice comes back to where the pursuit was, and a press always changes it.
pub proof fn law_closer_twice_is_where_it_was(now: Closeness)
    ensures
        other_closeness(other_closeness(now)) == now,
        other_closeness(now) != now,
{
}

} // verus!
