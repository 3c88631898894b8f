//! A frame of the player's form drawn as its parts: whether anything is done, whether the
//! parts drawn are let go, built again, or only placed and lit anew.
//!
//! The parts hang under roots, each keyed by the moment of a refit it was built for (which refit
//! step is finished, and which is under way), or by nothing for the form standing still.

use vstd::prelude::*;

verus! {

/// The moment a root of parts was built for.
pub type FrameKey = Option<(usize, Option<usize>)>;

/// What a frame does with the player's parts.
#[derive(PartialEq, Eq, Structural, Debug, Clone, Copy)]
pub enum PartsStep {
    /// Nothing: the ship has no form, and that has not changed.
    Nothing,
    /// Let every root go: the form is gone, or a refit draws it on the hulls instead.
    Clear,
    /// Let every root go and build one root afresh for this moment.
    Rebuild,
    /// Keep the roots: place them and light their parts anew.
    Refresh,
}

/// What a frame does, given whether the ship has a form, whether that changed since the last
/// frame, whether a refit is under way, the keys of the roots drawn, and this frame's key.
pub open spec fn parts_next(formed: bool, changed: bool, refit: bool, roots: Seq<FrameKey>, key: FrameKey) -> PartsStep {
    if !formed && !changed {
        PartsStep::Nothing
    } else if !formed || refit {
        PartsStep::Clear
    } else if changed || !roots.contains(key) {
        PartsStep::Rebuild
    } else {
        PartsStep::Refresh
    }
}

fn same_key(a: FrameKey, b: FrameKey) -> (r: bool)
    ensures
        r == (a == b),
{
    match (a, b) {
        (Some((f, w)), Some((g, v))) => {
            f == g && match (w, v) {
                (Some(x), Some(y)) => x == y,
                (None, None) => true,
                _ => false,
            }
        },
        (None, None) => true,
        _ => false,
    }
}

/// What this frame does with the player's parts.
pub fn parts_step(formed: bool, changed: bool, refit: bool, roots: &Vec<FrameKey>, key: FrameKey) -> (r: PartsStep)
    ensures
        r == parts_next(formed, changed, refit, roots@, key),
{
    if !formed && !changed {
        return PartsStep::Nothing;
    }
    if !formed || refit {
        return PartsStep::Clear;
    }
    if changed {
        return PartsStep::Rebuild;
    }
    let mut i: usize = 0;
    while i < roots.len()
        invariant
            i <= roots.len(),
            formed && !changed && !refit,
            forall|j: int| 0 <= j < i ==> roots@[j] != key,
        decreases roots.len() - i,
    {
        if same_key(roots[i], key) {
            assert(roots@.contains(key)) by { assert(roots@[i as int] == key); }
            return PartsStep::Refresh;
        }
        i += 1;
    }
    proof {
        if roots@.contains(key) {
            let j = choose|j: int| 0 <= j < roots@.len() && roots@[j] == key;
            assert(roots@[j] != key);
        }
    }
    PartsStep::Rebuild
}

/// Parts are built once for a moment: after a rebuild leaves one root keyed by this frame's
/// moment, a frame at the same moment with nothing changed only places and lights them.
pub proof fn law_a_rebuilt_form_is_refreshed(refit: bool, key: FrameKey)
    ensures
        parts_next(true, false, refit, seq![key], key) == (if refit { PartsStep::Clear } else { PartsStep::Refresh }),
{
    assert(seq![key][0] == key);
}

} // verus!
