//! A frame of the real hulls drawn for every craft with a form: which are let go, when a hull is
//! handed a new form, what it shows, and the placeholders another craft is drawn as until its
//! first mesh lands.
//!
//! A craft is its ship number, or `None` for the player's own. The scene itself (spawning,
//! placing, lighting) is the caller's: these say what it does to each hull.

use vstd::prelude::*;

verus! {

/// While the hull palette bakes nothing is drawn, and the hulls stay unready if the player's
/// ship or any contact has a form to draw.
pub fn unready_while_baking(unready: bool, own_formed: bool, contacts_formed: &Vec<bool>) -> (r: bool)
    ensures
        r == (unready || own_formed || contacts_formed@.contains(true)),
{
    if unready || own_formed {
        return true;
    }
    let mut i: usize = 0;
    while i < contacts_formed.len()
        invariant
            i <= contacts_formed.len(),
            forall|j: int| 0 <= j < i ==> !contacts_formed@[j],
        decreases contacts_formed.len() - i,
    {
        if contacts_formed[i] {
            assert(contacts_formed@[i as int] == true);
            return true;
        }
        i += 1;
    }
    proof {
        if contacts_formed@.contains(true) {
            let j = choose|j: int| 0 <= j < contacts_formed@.len() && contacts_formed@[j] == true;
            assert(!contacts_formed@[j]);
        }
    }
    false
}

fn same_craft(a: Option<u64>, b: Option<u64>) -> (r: bool)
    ensures
        r == (a == b),
{
    match (a, b) {
        (Some(x), Some(y)) => x == y,
        (None, None) => true,
        _ => false,
    }
}

/// Which of the drawn hulls (each its craft) are let go this frame: those of craft no longer
/// wanted.
pub fn let_go(hulls: &Vec<Option<u64>>, wanted: &Vec<Option<u64>>) -> (r: Vec<bool>)
    ensures
        r@.len() == hulls@.len(),
        forall|i: int| 0 <= i < hulls@.len() ==> r@[i] == !wanted@.contains(#[trigger] hulls@[i]),
{
    let mut r: Vec<bool> = Vec::new();
    let mut i: usize = 0;
    while i < hulls.len()
        invariant
            i <= hulls.len(),
            r@.len() == i,
            forall|k: int| 0 <= k < i ==> r@[k] == !wanted@.contains(#[trigger] hulls@[k]),
        decreases hulls.len() - i,
    {
        let craft = hulls[i];
        let mut found = false;
        let mut j: usize = 0;
        while j < wanted.len()
            invariant
                j <= wanted.len(),
                craft == hulls@[i as int],
                found == (exists|k: int| 0 <= k < j && wanted@[k] == craft),
            decreases wanted.len() - j,
        {
            if same_craft(wanted[j], craft) {
                found = true;
            }
            j += 1;
        }
        proof {
            if found {
                let k = choose|k: int| 0 <= k < wanted.len() && wanted@[k] == craft;
                assert(wanted@.contains(craft)) by { assert(wanted@[k] == craft); }
            }
        }
        r.push(!found);
        i += 1;
    }
    r
}

/// The hull is to be handed the wanted form `want`: it holds none, or another.
pub open spec fn restated<T>(form: Option<(u64, T)>, want: u64) -> bool {
    match form {
        Some((hash, _)) => hash != want,
        None => true,
    }
}

/// Whether a hull holding `form` (its hash, and the roll it is drawn at) is to be handed the
/// wanted form: only then is the form's roll asked for.
pub fn needs_form<T: Copy>(form: Option<(u64, T)>, want: u64) -> (r: bool)
    ensures
        r == restated(form, want),
{
    match form {
        Some((hash, _)) => hash != want,
        None => true,
    }
}

/// The form a hull holds after this frame, and whether the mesher is handed it: the wanted one
/// at its roll, once that roll is known, where the hull is to be handed it; else what it held,
/// and the mesher is left alone.
pub fn take_form<T: Copy>(form: Option<(u64, T)>, want: u64, roll: Option<T>) -> (r: (Option<(u64, T)>, bool))
    ensures
        (restated(form, want) && roll is Some) ==> r == (Some((want, roll->0)), true),
        !(restated(form, want) && roll is Some) ==> r == (form, false),
{
    if needs_form(form, want) {
        match roll {
            Some(roll) => (Some((want, roll)), true),
            None => (form, false),
        }
    } else {
        (form, false)
    }
}

/// The hull's mesh is the one wanted: its mesher's state (whether its mesh is current, and the
/// form it meshes) is current and meshes the form the hull holds.
pub open spec fn mesh_current<T>(form: Option<(u64, T)>, state: Option<(bool, u64)>) -> bool {
    &&& state is Some
    &&& state.unwrap().0
    &&& form is Some
    &&& form.unwrap().0 == state.unwrap().1
}

/// What one hull shows this frame.
pub struct Shown<T> {
    /// The mesh is drawn.
    pub visible: bool,
    /// The craft counts as drawn by its real hull, so no other placeholder stands for it.
    pub drawn: bool,
    /// The form the player's hull is current in, for the player's own craft once its mesh is the
    /// one wanted.
    pub own_current: Option<u64>,
    /// The roll the mesh on screen is drawn at.
    pub shown_roll: T,
    /// The hulls as a whole are still unready.
    pub unready: bool,
}

/// What a hull shows: its mesh, once one is up, but the player's own not while a refit stands it
/// aside; a new form's roll only once its mesh is current, so the old shape never turns to the
/// new one's roll; and a hull whose mesh is neither up nor settled keeps the hulls unready (one
/// that failed is settled: its placeholders stay).
pub fn shown<T: Copy>(
    own: bool,
    refit_shown: bool,
    has_mesh: bool,
    state: Option<(bool, u64)>,
    form: Option<(u64, T)>,
    shown_roll: T,
    unready: bool,
) -> (r: Shown<T>)
    ensures
        r.visible == (has_mesh && !(own && refit_shown)),
        r.drawn == has_mesh,
        r.own_current == (if own && mesh_current(form, state) { Some(form.unwrap().0) } else { None::<u64> }),
        r.shown_roll == (if mesh_current(form, state) { form.unwrap().1 } else { shown_roll }),
        r.unready == (unready || (!has_mesh && !(state is Some && state.unwrap().0))),
{
    let current = match (state, form) {
        (Some((fresh, meshed)), Some((hash, _))) => fresh && hash == meshed,
        _ => false,
    };
    let settled = match state {
        Some((fresh, _)) => fresh,
        None => false,
    };
    let own_current = if own && current {
        match form {
            Some((hash, _)) => Some(hash),
            None => None,
        }
    } else {
        None
    };
    let roll = if current {
        match form {
            Some((_, roll)) => roll,
            None => shown_roll,
        }
    } else {
        shown_roll
    };
    Shown {
        visible: has_mesh && !(own && refit_shown),
        drawn: has_mesh,
        own_current,
        shown_roll: roll,
        unready: unready || (!has_mesh && !settled),
    }
}

/// What a frame does with the placeholders a hull holds (the form they were built for).
#[derive(PartialEq, Eq, Structural, Debug, Clone, Copy)]
pub enum PlaceholderStep {
    /// They are the wanted form's: relight them.
    Relight,
    /// Build them for the wanted form, first letting go of those held, if any.
    Rebuild { let_go_held: bool },
    /// Let go of them: the mesh is up, or the craft is the player's.
    LetGo,
    /// There are none and none are wanted.
    Nothing,
}

/// Another craft is drawn as placeholders while no mesh of its hull is up; the player's are
/// drawn elsewhere.
pub open spec fn wants_placeholders(own: bool, has_mesh: bool) -> bool {
    !own && !has_mesh
}

/// What is done with a hull's placeholders this frame, and what it holds after: placeholders of
/// the wanted form while they are wanted, and none once they are not.
pub open spec fn placeholders_after(own: bool, has_mesh: bool, held: Option<u64>, want: u64) -> (PlaceholderStep, Option<u64>) {
    if wants_placeholders(own, has_mesh) {
        (if held == Some(want) {
            PlaceholderStep::Relight
        } else {
            PlaceholderStep::Rebuild { let_go_held: held is Some }
        }, Some(want))
    } else {
        (if held is Some { PlaceholderStep::LetGo } else { PlaceholderStep::Nothing }, None)
    }
}

/// What is done with a hull's placeholders this frame, and what it holds after.
pub fn placeholder_step(own: bool, has_mesh: bool, held: Option<u64>, want: u64) -> (r: (PlaceholderStep, Option<u64>))
    ensures
        r == placeholders_after(own, has_mesh, held, want),
{
    let wants = !own && !has_mesh;
    if wants {
        match held {
            Some(hash) => {
                if hash == want {
                    (PlaceholderStep::Relight, Some(want))
                } else {
                    (PlaceholderStep::Rebuild { let_go_held: true }, Some(want))
                }
            },
            None => (PlaceholderStep::Rebuild { let_go_held: false }, Some(want)),
        }
    } else {
        match held {
            Some(_) => (PlaceholderStep::LetGo, None),
            None => (PlaceholderStep::Nothing, None),
        }
    }
}

/// A hull's placeholders are built at most once for one form: the frame after one that wanted
/// them, with the same form and still no mesh, relights what it built; and once the mesh is up
/// they are let go, after which nothing is done with them.
pub proof fn law_placeholders_are_built_once(own: bool, has_mesh: bool, held: Option<u64>, want: u64)
    ensures
        wants_placeholders(own, has_mesh) ==> placeholders_after(own, has_mesh,
            placeholders_after(own, has_mesh, held, want).1, want).0 == PlaceholderStep::Relight,
        !wants_placeholders(own, has_mesh) ==> placeholders_after(own, has_mesh,
            placeholders_after(own, has_mesh, held, want).1, want).0 == PlaceholderStep::Nothing,
{
}

} // verus!
