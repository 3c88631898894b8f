//! What a refused refit or a refused form reads as: something to act on, naming the part.

use vstd::prelude::*;
use vstd::string::*;
use crate::words::{decimal, decimal_text};

verus! {

/// A part, as a refusal names it.
pub open spec fn part_name(id: u64) -> Seq<char> {
    "part "@ + decimal(id as nat)
}

/// A part, as a refusal names it: `part` and its number.
pub fn part(id: u64) -> (r: String)
    ensures
        r@ == part_name(id),
{
    proof { reveal_strlit("part "); }
    let mut r = String::from_str("part ");
    let n = decimal_text(id);
    r.append(n.as_str());
    r
}

/// What a refit step does to its part.
#[derive(Clone, Copy, Debug, PartialEq, Eq)]
pub enum Change {
    Grow,
    Shrink,
    Add,
    Remove,
    Move,
}

pub open spec fn doing(change: Change) -> Seq<char> {
    match change {
        Change::Grow => "growing"@,
        Change::Shrink => "shrinking"@,
        Change::Add => "building"@,
        Change::Remove => "taking apart"@,
        Change::Move => "moving"@,
    }
}

/// A step of a refit as the ledger lists it: what it does, to which part, and the part's kind as
/// its type writes it.
pub open spec fn step_name_of(change: Change, id: u64, kind: Seq<char>) -> Seq<char> {
    doing(change) + " "@ + part_name(id) + " ("@ + kind + ")"@
}

pub fn step_name(change: Change, id: u64, kind: &str) -> (r: String)
    ensures
        r@ == step_name_of(change, id, kind@),
{
    proof {
        reveal_strlit("growing");
        reveal_strlit("shrinking");
        reveal_strlit("building");
        reveal_strlit("taking apart");
        reveal_strlit("moving");
        reveal_strlit(" ");
        reveal_strlit(" (");
        reveal_strlit(")");
    }
    let mut r = match change {
        Change::Grow => String::from_str("growing"),
        Change::Shrink => String::from_str("shrinking"),
        Change::Add => String::from_str("building"),
        Change::Remove => String::from_str("taking apart"),
        Change::Move => String::from_str("moving"),
    };
    r.append(" ");
    let p = part(id);
    r.append(p.as_str());
    r.append(" (");
    r.append(kind);
    r.append(")");
    r
}

/// Why a refit cannot go ahead.
#[derive(Clone, Copy, Debug, PartialEq, Eq)]
pub enum Shortfall {
    Energy,
    /// No drones are left to work on this part.
    NoDrones(u64),
}

pub open spec fn shortfall_text(short: Shortfall) -> Seq<char> {
    match short {
        Shortfall::Energy => "not enough energy, even taking apart what is not wanted"@,
        Shortfall::NoDrones(id) => "no drones left to work on "@ + part_name(id) + ": keep some until the build"@,
    }
}

/// What a shortage reads as.
pub fn shortfall(short: Shortfall) -> (r: String)
    ensures
        r@ == shortfall_text(short),
{
    proof {
        reveal_strlit("not enough energy, even taking apart what is not wanted");
        reveal_strlit("no drones left to work on ");
        reveal_strlit(": keep some until the build");
    }
    match short {
        Shortfall::Energy => String::from_str("not enough energy, even taking apart what is not wanted"),
        Shortfall::NoDrones(id) => {
            let mut r = String::from_str("no drones left to work on ");
            let p = part(id);
            r.append(p.as_str());
            r.append(": keep some until the build");
            r
        },
    }
}

/// Why a form was refused.
#[derive(Clone, Debug)]
pub enum FormFault {
    /// More parts than a form may have: how many were found, and the most allowed.
    TooManyParts { found: u64, most: u64 },
    DuplicateId(u64),
    NoMind,
    SecondMind { first: u64, second: u64 },
    /// A part with a malformed number, named as the form names its numbers.
    Malformed { part: u64, number: String },
    MindPlaced(u64),
    Unplaced(u64),
    MissingParent { part: u64, parent: u64 },
    Cycle(u64),
    EngineOffAxis(u64),
    EngineBlocked(u64),
    BayBlocked(u64),
    Detached(u64),
    Uncontained(u64),
    Extent,
    TooSmall(u64),
    TooFewDrones,
    OtherMind(u64),
}

pub open spec fn fault_text(fault: FormFault) -> Seq<char> {
    match fault {
        FormFault::TooManyParts { found, most } => decimal(found as nat) + " parts, at most "@ + decimal(most as nat),
        FormFault::DuplicateId(id) => part_name(id) + " appears twice"@,
        FormFault::NoMind => "no Mind"@,
        FormFault::SecondMind { first, second } => part_name(second) + " is a second Mind beside "@ + part_name(first),
        FormFault::Malformed { part, number } => part_name(part) + " has a malformed "@ + number@,
        FormFault::MindPlaced(id) => "the Mind, "@ + part_name(id) + ", has a parent"@,
        FormFault::Unplaced(id) => part_name(id) + " has no parent"@,
        FormFault::MissingParent { part, parent } => part_name(part) + " hangs from "@ + part_name(parent) + ", which does not exist"@,
        FormFault::Cycle(id) => part_name(id) + " is its own ancestor"@,
        FormFault::EngineOffAxis(id) => part_name(id) + " must point fore or aft"@,
        FormFault::EngineBlocked(id) => "something is in "@ + part_name(id) + "'s exhaust cone"@,
        FormFault::BayBlocked(id) => part_name(id) + "'s mouth is blocked"@,
        FormFault::Detached(id) => part_name(id) + " does not touch its parent"@,
        FormFault::Uncontained(id) => part_name(id) + " does not contain its parent"@,
        FormFault::Extent => "the ship is too long or too short"@,
        FormFault::TooSmall(id) => part_name(id) + " is smaller than the smallest part"@,
        FormFault::TooFewDrones => "fewer drones than a ship may keep"@,
        FormFault::OtherMind(id) => part_name(id) + " is not this ship's Mind, which it keeps"@,
    }
}

/// `part(id)` followed by `tail`.
fn part_then(id: u64, tail: &str) -> (r: String)
    ensures
        r@ == part_name(id) + tail@,
{
    let mut r = part(id);
    r.append(tail);
    r
}

/// `head`, `part(id)` and `tail`, one after the other.
fn around_part(head: &str, id: u64, tail: &str) -> (r: String)
    ensures
        r@ == head@ + part_name(id) + tail@,
{
    let mut r = String::from_str(head);
    let p = part(id);
    r.append(p.as_str());
    r.append(tail);
    r
}

/// What a refused form reads as, naming the part.
pub fn form_fault(fault: FormFault) -> (r: String)
    ensures
        r@ == fault_text(fault),
{
    proof {
        reveal_strlit(" parts, at most ");
        reveal_strlit(" appears twice");
        reveal_strlit("no Mind");
        reveal_strlit(" is a second Mind beside ");
        reveal_strlit(" has a malformed ");
        reveal_strlit("the Mind, ");
        reveal_strlit(", has a parent");
        reveal_strlit(" has no parent");
        reveal_strlit(" hangs from ");
        reveal_strlit(", which does not exist");
        reveal_strlit(" is its own ancestor");
        reveal_strlit(" must point fore or aft");
        reveal_strlit("something is in ");
        reveal_strlit("'s exhaust cone");
        reveal_strlit("'s mouth is blocked");
        reveal_strlit(" does not touch its parent");
        reveal_strlit(" does not contain its parent");
        reveal_strlit("the ship is too long or too short");
        reveal_strlit(" is smaller than the smallest part");
        reveal_strlit("fewer drones than a ship may keep");
        reveal_strlit(" is not this ship's Mind, which it keeps");
    }
    match fault {
        FormFault::TooManyParts { found, most } => {
            let mut r = decimal_text(found);
            r.append(" parts, at most ");
            let m = decimal_text(most);
            r.append(m.as_str());
            r
        },
        FormFault::DuplicateId(id) => part_then(id, " appears twice"),
        FormFault::NoMind => String::from_str("no Mind"),
        FormFault::SecondMind { first, second } => {
            let mut r = part_then(second, " is a second Mind beside ");
            let p = part(first);
            r.append(p.as_str());
            r
        },
        FormFault::Malformed { part: id, number } => {
            let mut r = part_then(id, " has a malformed ");
            r.append(number.as_str());
            r
        },
        FormFault::MindPlaced(id) => around_part("the Mind, ", id, ", has a parent"),
        FormFault::Unplaced(id) => part_then(id, " has no parent"),
        FormFault::MissingParent { part: id, parent } => {
            let mut r = part_then(id, " hangs from ");
            let p = part_then(parent, ", which does not exist");
            r.append(p.as_str());
            r
        },
        FormFault::Cycle(id) => part_then(id, " is its own ancestor"),
        FormFault::EngineOffAxis(id) => part_then(id, " must point fore or aft"),
        FormFault::EngineBlocked(id) => around_part("something is in ", id, "'s exhaust cone"),
        FormFault::BayBlocked(id) => part_then(id, "'s mouth is blocked"),
        FormFault::Detached(id) => part_then(id, " does not touch its parent"),
        FormFault::Uncontained(id) => part_then(id, " does not contain its parent"),
        FormFault::Extent => String::from_str("the ship is too long or too short"),
        FormFault::TooSmall(id) => part_then(id, " is smaller than the smallest part"),
        FormFault::TooFewDrones => String::from_str("fewer drones than a ship may keep"),
        FormFault::OtherMind(id) => part_then(id, " is not this ship's Mind, which it keeps"),
    }
}

} // verus!
