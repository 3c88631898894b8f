//! What can be picked in the view and in the lists, and how a pick is matched: by identity,
//! never by the name that rides along for the label.

use vstd::prelude::*;
use vstd::string::*;

verus! {

/// Somewhere local to go: a body by its name, or a population by its index in the system's list.
#[derive(Clone, Debug)]
pub enum Target {
    Body(String),
    Band(u64),
}

/// Whether two targets are the same place.
pub open spec fn same_target(a: Target, b: Target) -> bool {
    match (a, b) {
        (Target::Body(x), Target::Body(y)) => x@ == y@,
        (Target::Band(i), Target::Band(j)) => i == j,
        _ => false,
    }
}

impl Target {
    pub fn same(&self, other: &Target) -> (r: bool)
        ensures
            r == same_target(*self, *other),
    {
        match (self, other) {
            (Target::Body(x), Target::Body(y)) => x.eq(y),
            (Target::Band(i), Target::Band(j)) => *i == *j,
            _ => false,
        }
    }
}

/// What a candidate in the view turned out to be, and what to call it.
#[derive(Clone, Debug)]
pub enum Subject {
    Body(String),
    /// A star, by its identity, with its name.
    Star(u64, String),
    /// A population, by its index in the system's list, with its name.
    Swarm(u64, String),
}

/// Whether two subjects are the same thing: bodies by name, which is what identifies them, and
/// stars and populations by identity alone.
pub open spec fn same_subject(a: Subject, b: Subject) -> bool {
    match (a, b) {
        (Subject::Body(x), Subject::Body(y)) => x@ == y@,
        (Subject::Star(x, _), Subject::Star(y, _)) => x == y,
        (Subject::Swarm(x, _), Subject::Swarm(y, _)) => x == y,
        _ => false,
    }
}

/// What a pick asks for.
#[derive(Clone, Debug)]
pub enum Select {
    /// Focus a local target, or nothing.
    FocusTarget(Option<Target>),
    /// Select a star, or none.
    SelectTarget(Option<u64>),
}

impl Subject {
    /// Whether this is the same thing as `other`, by identity rather than by name.
    pub fn is(&self, other: &Subject) -> (r: bool)
        ensures
            r == same_subject(*self, *other),
    {
        match (self, other) {
            (Subject::Body(a), Subject::Body(b)) => a.eq(b),
            (Subject::Star(a, _), Subject::Star(b, _)) => *a == *b,
            (Subject::Swarm(a, _), Subject::Swarm(b, _)) => *a == *b,
            _ => false,
        }
    }

    /// What selects it: the same requests the panel rows send, so that a click in the view and a
    /// click in a list are the same event.
    pub fn select(&self) -> (r: Select)
        ensures
            match *self {
                Subject::Body(name) => r matches Select::FocusTarget(Some(Target::Body(n))) && n@ == name@,
                Subject::Star(id, _) => r matches Select::SelectTarget(Some(s)) && s == id,
                Subject::Swarm(index, _) => r matches Select::FocusTarget(Some(Target::Band(i))) && i == index,
            },
    {
        match self {
            Subject::Body(name) => Select::FocusTarget(Some(Target::Body(name.clone()))),
            Subject::Star(id, _) => Select::SelectTarget(Some(*id)),
            Subject::Swarm(index, _) => Select::FocusTarget(Some(Target::Band(*index))),
        }
    }
}

/// What the interface says is selected, as a subject: the focus when there is one, else the
/// selected star; the names are left empty, since matching is by identity.
pub fn selected(focus: &Option<Target>, star: Option<u64>) -> (r: Option<Subject>)
    ensures
        match *focus {
            Some(Target::Body(name)) => r matches Some(Subject::Body(n)) && n@ == name@,
            Some(Target::Band(index)) => r matches Some(Subject::Swarm(i, n)) && i == index && n@.len() == 0,
            None => match star {
                Some(id) => r matches Some(Subject::Star(s, n)) && s == id && n@.len() == 0,
                None => r is None,
            },
        },
{
    match focus {
        Some(Target::Body(name)) => Some(Subject::Body(name.clone())),
        Some(Target::Band(index)) => Some(Subject::Swarm(*index, String::new())),
        None => match star {
            Some(id) => Some(Subject::Star(id, String::new())),
            None => None,
        },
    }
}

/// What is picked is matched by identity: two stars, or two populations, with the same identity
/// are the same whatever their labels say (so a population the interface selects, whose label
/// is left empty, is found among those sighted), bodies are matched by name, and nothing of one
/// kind is the same as anything of another.
pub proof fn law_picks_match_by_identity(a: Subject, b: Subject)
    ensures
        same_subject(a, b) == same_subject(b, a),
        same_subject(a, a),
        (a is Star && b is Star) ==> (same_subject(a, b) <==> a->Star_0 == b->Star_0),
        (a is Swarm && b is Swarm) ==> (same_subject(a, b) <==> a->Swarm_0 == b->Swarm_0),
        (a is Body && b is Body) ==> (same_subject(a, b) <==> a->Body_0@ == b->Body_0@),
        (a is Body && !(b is Body)) ==> !same_subject(a, b),
{
}

} // verus!
