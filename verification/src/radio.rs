//! The radio window's decisions: who is listed, where a transmission is pointed, and what a
//! line and its warnings say.
//!
//! Craft are carried by their ship identities; stars by their catalogue identities.

use vstd::prelude::*;
use vstd::string::*;
use crate::words::{decimal, decimal_text};

verus! {

/// Where a transmission is pointed, as the window offers it.
#[derive(Clone, Copy, Debug, PartialEq, Eq, Structural)]
pub enum Aimed {
    Omni,
    AtThem,
    AtTheSelectedStar,
}

/// Where a transmission is pointed, as it goes out.
#[derive(Clone, Copy, Debug, PartialEq, Eq, Structural)]
pub enum Aim {
    Omni,
    Ship(u64),
    Star(u64),
}

pub open spec fn aim_spec(aimed: Aimed, with: Option<u64>, star: Option<u64>) -> Aim {
    match aimed {
        Aimed::Omni => Aim::Omni,
        Aimed::AtThem => match with {
            Some(w) => Aim::Ship(w),
            None => Aim::Omni,
        },
        Aimed::AtTheSelectedStar => match star {
            Some(s) => Aim::Star(s),
            None => Aim::Omni,
        },
    }
}

/// The aim a choice comes to: at the craft talked to, or at the selected star, when there is
/// one; a shout otherwise, because a beam with nothing to aim at is refused.
pub fn aim_of(aimed: Aimed, with: Option<u64>, star: Option<u64>) -> (r: Aim)
    ensures
        r == aim_spec(aimed, with, star),
{
    match aimed {
        Aimed::Omni => Aim::Omni,
        Aimed::AtThem => match with {
            Some(w) => Aim::Ship(w),
            None => Aim::Omni,
        },
        Aimed::AtTheSelectedStar => match star {
            Some(s) => Aim::Star(s),
            None => Aim::Omni,
        },
    }
}

/// A choice the world has since withdrawn falls back to a shout: a beam at a craft out of
/// sight (on the public channel nobody is in sight), or at a star no longer selected.
pub fn settle_aim(aimed: Aimed, in_sight: bool, star: Option<u64>) -> (r: Aimed)
    ensures
        r == (if (aimed == Aimed::AtThem && !in_sight) || (aimed == Aimed::AtTheSelectedStar && star is None) {
            Aimed::Omni
        } else {
            aimed
        }),
{
    if (aimed == Aimed::AtThem && !in_sight) || (aimed == Aimed::AtTheSelectedStar && star.is_none()) {
        Aimed::Omni
    } else {
        aimed
    }
}

/// A settled choice is never a beam at nothing: what it comes to is a shout, or a beam at the
/// craft in sight, or at the selected star.
pub proof fn law_a_settled_aim_points_somewhere(aimed: Aimed, with: u64, in_sight: bool, star: Option<u64>)
    ensures
        ({
            let settled = if (aimed == Aimed::AtThem && !in_sight) || (aimed == Aimed::AtTheSelectedStar && star is None) {
                Aimed::Omni
            } else {
                aimed
            };
            let aim = aim_spec(settled, Some(with), star);
            &&& (aim is Ship ==> in_sight && aim == Aim::Ship(with))
            &&& (aim is Star ==> star == Some(aim->Star_0))
        }),
{
}

/// Whether `list` names craft `id`.
pub open spec fn lists(list: Seq<(u64, Seq<char>)>, id: u64) -> bool {
    exists|i: int| 0 <= i < list.len() && (#[trigger] list[i]).0 == id
}

/// `list` followed by each of `more` not already listed, in order.
pub open spec fn joined(list: Seq<(u64, Seq<char>)>, more: Seq<(u64, Seq<char>)>) -> Seq<(u64, Seq<char>)>
    decreases more.len(),
{
    if more.len() == 0 {
        list
    } else {
        let before = joined(list, more.drop_last());
        if lists(before, more.last().0) { before } else { before.push(more.last()) }
    }
}

/// A list of craft, by identity and name, as plain values.
pub open spec fn named(v: Seq<(u64, String)>) -> Seq<(u64, Seq<char>)> {
    v.map_values(|p: (u64, String)| (p.0, p.1@))
}

/// Everyone this ship has talked to, in the order given (most recent first), then everyone in
/// sight it has not, each once.
pub fn parties(talked: Vec<(u64, String)>, contacts: &Vec<(u64, String)>) -> (r: Vec<(u64, String)>)
    ensures
        named(r@) == joined(named(talked@), named(contacts@)),
{
    let mut out = talked;
    let ghost start = named(out@);
    let mut i: usize = 0;
    assert(named(contacts@).take(0) =~= Seq::<(u64, Seq<char>)>::empty());
    while i < contacts.len()
        invariant
            i <= contacts.len(),
            named(out@) == joined(start, named(contacts@).take(i as int)),
        decreases contacts.len() - i,
    {
        let id = contacts[i].0;
        let mut j: usize = 0;
        let mut found = false;
        while j < out.len() && !found
            invariant
                j <= out.len(),
                found ==> lists(named(out@), id),
                !found ==> forall|k: int| 0 <= k < j ==> (#[trigger] named(out@)[k]).0 != id,
            decreases out.len() - j,
        {
            if out[j].0 == id {
                found = true;
                assert(named(out@)[j as int].0 == id);
            }
            j += 1;
        }
        let ghost upto = named(contacts@).take(i as int);
        assert(named(contacts@).take(i as int + 1).drop_last() =~= upto);
        assert(named(contacts@).take(i as int + 1).last() == named(contacts@)[i as int]);
        if !found {
            let party = (id, contacts[i].1.clone());
            out.push(party);
            assert(named(out@) =~= joined(start, upto).push(named(contacts@)[i as int]));
        }
        i += 1;
    }
    assert(named(contacts@).take(contacts@.len() as int) =~= named(contacts@));
    out
}

/// The hint on a message nothing has acknowledged, which also resends it.
pub open spec fn resend_hint_of(sends: nat) -> Seq<char> {
    if sends == 1 {
        "Not ACKed. Click to re-send."@
    } else {
        "Not ACKed. Click to re-send. (sent "@ + decimal(sends) + " times)"@
    }
}

pub fn resend_hint(sends: u64) -> (r: String)
    ensures
        r@ == resend_hint_of(sends as nat),
{
    proof {
        reveal_strlit("Not ACKed. Click to re-send.");
        reveal_strlit("Not ACKed. Click to re-send. (sent ");
        reveal_strlit(" times)");
    }
    if sends == 1 {
        return String::from_str("Not ACKed. Click to re-send.");
    }
    let mut r = String::from_str("Not ACKed. Click to re-send. (sent ");
    let n = decimal_text(sends);
    r.append(n.as_str());
    r.append(" times)");
    r
}

/// What a line of a log says: a key this ship sent (and to whom, when it went to somebody), a
/// key sent to this ship, the message, or that it was heard and could not be read.
pub open spec fn line_text_of(body: Option<Seq<char>>, key: bool, mine: bool, to: Option<Seq<char>>) -> Seq<char> {
    if key && mine {
        match to {
            Some(t) => "sent key to "@ + t,
            None => "sent key"@,
        }
    } else if key {
        "sent this ship its key"@
    } else {
        match body {
            Some(b) => b,
            None => "(encrypted, and not for this ship)"@,
        }
    }
}

pub fn line_text(body: Option<String>, key: bool, mine: bool, to: Option<String>) -> (r: String)
    ensures
        r@ == line_text_of(
            match body { Some(b) => Some(b@), None => None },
            key,
            mine,
            match to { Some(t) => Some(t@), None => None },
        ),
{
    proof {
        reveal_strlit("sent key to ");
        reveal_strlit("sent key");
        reveal_strlit("sent this ship its key");
        reveal_strlit("(encrypted, and not for this ship)");
    }
    if key && mine {
        match to {
            Some(t) => {
                let mut r = String::from_str("sent key to ");
                r.append(t.as_str());
                r
            },
            None => String::from_str("sent key"),
        }
    } else if key {
        String::from_str("sent this ship its key")
    } else {
        match body {
            Some(b) => b,
            None => String::from_str("(encrypted, and not for this ship)"),
        }
    }
}

/// How much room a message has left, once it is close to the limit: `limit` less what the
/// draft takes, and nothing until fewer than eighty are left.
pub open spec fn room_note_of(limit: nat, used: nat) -> Option<Seq<char>> {
    let left = if used >= limit { 0 } else { (limit - used) as nat };
    if left < 80 { Some(decimal(left) + " characters left"@) } else { None }
}

pub fn room_note(limit: u64, used: u64) -> (r: Option<String>)
    ensures
        match r {
            Some(s) => room_note_of(limit as nat, used as nat) == Some(s@),
            None => room_note_of(limit as nat, used as nat) is None,
        },
{
    proof { reveal_strlit(" characters left"); }
    let left = limit.saturating_sub(used);
    if left < 80 {
        let mut r = decimal_text(left);
        r.append(" characters left");
        Some(r)
    } else {
        None
    }
}

} // verus!
