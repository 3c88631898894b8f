//! How far a star is, as far as this ship knows, in words: who said so, and on what.
//!
//! A distance is earned: from bearings taken a baseline apart, or on somebody's word, and until
//! then a star is a direction. Numbers arrive here already written (a baseline angle, a lower
//! bound in light years); what is said around them, and in what order, is decided here.

use vstd::prelude::*;
use vstd::string::*;
use crate::words::{decimal, decimal_text, possessive, possessive_of};
use crate::system_panel::texts;

verus! {

/// Who a witness is, from this ship: this ship, the charts, or a craft by its number.
pub open spec fn who_of(witness: u64, owner: u64, charts: u64) -> Seq<char> {
    if witness == owner {
        "this ship"@
    } else if witness == charts {
        "the charts"@
    } else {
        "craft "@ + decimal(witness as nat)
    }
}

/// Who a witness is, from this ship. `charts` is the witness the charts speak as.
pub fn who(witness: u64, owner: u64, charts: u64) -> (r: String)
    ensures
        r@ == who_of(witness, owner, charts),
{
    proof {
        reveal_strlit("this ship");
        reveal_strlit("the charts");
        reveal_strlit("craft ");
    }
    if witness == owner {
        String::from_str("this ship")
    } else if witness == charts {
        String::from_str("the charts")
    } else {
        let mut r = String::from_str("craft ");
        let n = decimal_text(witness);
        r.append(n.as_str());
        r
    }
}

/// What is known of a star's distance.
#[derive(Clone, Debug)]
pub enum Distance {
    /// A bearing and nothing more.
    Unknown,
    /// No parallax over the baseline, so at least this far: the light years, as written.
    AtLeast(String),
    /// A position with an error: the distance from here and its error, in light years, each as
    /// written.
    Measured { range: String, sigma: String },
}

/// What the sources of a star's range are read from.
#[derive(Clone, Debug)]
pub struct Sighted {
    pub sightings: u64,
    pub witnesses: u64,
    /// The baseline the bearings were taken across, as an angle written out.
    pub baseline: Option<String>,
    pub hops: u64,
    pub distance: Distance,
    pub claimed_by: Option<u64>,
    /// Whether the distance was solved from bearings held here.
    pub triangulated: bool,
    /// How far this ship's own bearings put it at least: the light years, as written.
    pub floor: Option<String>,
}

/// Where a belief came from, one note per line.
pub open spec fn sighted_notes(b: Sighted, owner: u64, charts: u64) -> Seq<Seq<char>> {
    let instruments = if b.witnesses == 1 { "instrument"@ } else { "instruments"@ };
    let count = decimal(b.sightings as nat) + " bearings from "@ + decimal(b.witnesses as nat) + " "@
        + instruments;
    let baseline = match b.baseline {
        Some(angle) => seq!["Bearings "@ + angle@ + " apart"@],
        None => Seq::empty(),
    };
    let relayed = if b.hops == 0 {
        "Seen from this ship"@
    } else if b.hops == 1 {
        "Relayed once; somebody else did the looking"@
    } else {
        "Relayed "@ + decimal(b.hops as nat) + " times"@
    };
    let distance = match b.distance {
        Distance::Unknown => "No parallax yet"@,
        Distance::AtLeast(ly) => "No parallax over the baseline, so past "@ + ly@ + " ly"@,
        Distance::Measured { .. } => match b.claimed_by {
            Some(whose) => "Distance on "@ + possessive_of(who_of(whose, owner, charts)) + " word"@,
            None => if b.triangulated {
                "Distance solved from bearings held here"@
            } else {
                "Distance on somebody else's word"@
            },
        },
    };
    let floor = match b.floor {
        Some(ly) => seq!["This ship's own bearings put it beyond "@ + ly@ + " ly"@],
        None => Seq::empty(),
    };
    seq![count] + baseline + seq![relayed, distance] + floor
}

/// Where a belief came from, one note per line.
pub fn sources(belief: &Sighted, owner: u64, charts: u64) -> (notes: Vec<String>)
    ensures
        texts(notes@) == sighted_notes(*belief, owner, charts),
{
    proof {
        reveal_strlit("instrument");
        reveal_strlit("instruments");
        reveal_strlit(" bearings from ");
        reveal_strlit(" ");
        reveal_strlit("Bearings ");
        reveal_strlit(" apart");
        reveal_strlit("Seen from this ship");
        reveal_strlit("Relayed once; somebody else did the looking");
        reveal_strlit("Relayed ");
        reveal_strlit(" times");
        reveal_strlit("No parallax yet");
        reveal_strlit("No parallax over the baseline, so past ");
        reveal_strlit(" ly");
        reveal_strlit("Distance on ");
        reveal_strlit(" word");
        reveal_strlit("Distance solved from bearings held here");
        reveal_strlit("Distance on somebody else's word");
        reveal_strlit("This ship's own bearings put it beyond ");
    }
    let b = belief;
    let mut notes: Vec<String> = Vec::new();

    let mut count = decimal_text(b.sightings);
    count.append(" bearings from ");
    let w = decimal_text(b.witnesses);
    count.append(w.as_str());
    count.append(" ");
    if b.witnesses == 1 {
        count.append("instrument");
    } else {
        count.append("instruments");
    }
    notes.push(count);
    let ghost n1 = texts(notes@);

    match &b.baseline {
        Some(angle) => {
            let mut s = String::from_str("Bearings ");
            s.append(angle.as_str());
            s.append(" apart");
            notes.push(s);
        },
        None => {},
    }
    let ghost n2 = texts(notes@);

    let relayed = if b.hops == 0 {
        String::from_str("Seen from this ship")
    } else if b.hops == 1 {
        String::from_str("Relayed once; somebody else did the looking")
    } else {
        let mut s = String::from_str("Relayed ");
        let h = decimal_text(b.hops);
        s.append(h.as_str());
        s.append(" times");
        s
    };
    notes.push(relayed);

    let distance = match &b.distance {
        Distance::Unknown => String::from_str("No parallax yet"),
        Distance::AtLeast(ly) => {
            let mut s = String::from_str("No parallax over the baseline, so past ");
            s.append(ly.as_str());
            s.append(" ly");
            s
        },
        Distance::Measured { .. } => match b.claimed_by {
            Some(whose) => {
                let mut s = String::from_str("Distance on ");
                let name = who(whose, owner, charts);
                let theirs = possessive(name.as_str());
                s.append(theirs.as_str());
                s.append(" word");
                s
            },
            None => if b.triangulated {
                String::from_str("Distance solved from bearings held here")
            } else {
                String::from_str("Distance on somebody else's word")
            },
        },
    };
    notes.push(distance);
    let ghost n3 = texts(notes@);

    match &b.floor {
        Some(ly) => {
            let mut s = String::from_str("This ship's own bearings put it beyond ");
            s.append(ly.as_str());
            s.append(" ly");
            notes.push(s);
        },
        None => {},
    }
    proof {
        let bb = *belief;
        let baseline = match bb.baseline {
            Some(angle) => seq!["Bearings "@ + angle@ + " apart"@],
            None => Seq::<Seq<char>>::empty(),
        };
        let floor = match bb.floor {
            Some(ly) => seq!["This ship's own bearings put it beyond "@ + ly@ + " ly"@],
            None => Seq::<Seq<char>>::empty(),
        };
        assert(n2 =~= n1 + baseline);
        assert(texts(notes@) =~= n3 + floor);
        assert(texts(notes@) =~= sighted_notes(bb, owner, charts));
    }
    notes
}

/// The range alone, with its error; where it came from is [`sighted_notes`]. `None` is a star
/// this ship has never detected.
pub open spec fn short_of(belief: Option<Sighted>) -> Seq<char> {
    match belief {
        None => "not detected"@,
        Some(b) => match b.distance {
            Distance::Unknown => "bearing only"@,
            Distance::AtLeast(ly) => "beyond "@ + ly@ + " ly"@,
            Distance::Measured { range, sigma } => range@ + " \u{b1} "@ + sigma@ + " ly"@,
        },
    }
}

pub fn short(belief: Option<&Sighted>) -> (r: String)
    ensures
        r@ == short_of(match belief { Some(b) => Some(*b), None => None }),
{
    proof {
        reveal_strlit("not detected");
        reveal_strlit("bearing only");
        reveal_strlit("beyond ");
        reveal_strlit(" ly");
        reveal_strlit(" \u{b1} ");
    }
    match belief {
        None => String::from_str("not detected"),
        Some(b) => match &b.distance {
            Distance::Unknown => String::from_str("bearing only"),
            Distance::AtLeast(ly) => {
                let mut r = String::from_str("beyond ");
                r.append(ly.as_str());
                r.append(" ly");
                r
            },
            Distance::Measured { range, sigma } => {
                let mut r = range.clone();
                r.append(" \u{b1} ");
                r.append(sigma.as_str());
                r.append(" ly");
                r
            },
        },
    }
}

/// The range to a star in full: the range alone, and, once the distance is measured, whose
/// word or what baseline it rests on and how far this ship's own bearings put it at least.
pub open spec fn described(belief: Option<Sighted>, owner: u64, charts: u64) -> Seq<char> {
    let short = short_of(belief);
    match belief {
        None => short,
        Some(b) => match b.distance {
            Distance::Measured { .. } => {
                let whence = match b.claimed_by {
                    Some(whose) => "on "@ + possessive_of(who_of(whose, owner, charts)) + " word"@,
                    None => match b.baseline {
                        Some(angle) => "from bearings a "@ + angle@ + " baseline apart"@,
                        None => "from bearings"@,
                    },
                };
                let floor = match b.floor {
                    Some(ly) => " — though this ship's own bearings put it beyond "@ + ly@ + " ly"@,
                    None => Seq::empty(),
                };
                short + ", "@ + whence + floor
            },
            _ => short,
        },
    }
}

/// The range to a believed star, with where it came from; `None` is a star this ship has never
/// detected.
pub fn describe(belief: Option<&Sighted>, owner: u64, charts: u64) -> (r: String)
    ensures
        r@ == described(match belief { Some(b) => Some(*b), None => None }, owner, charts),
{
    proof {
        reveal_strlit(", ");
        reveal_strlit("on ");
        reveal_strlit(" word");
        reveal_strlit("from bearings a ");
        reveal_strlit(" baseline apart");
        reveal_strlit("from bearings");
        reveal_strlit(" — though this ship's own bearings put it beyond ");
        reveal_strlit(" ly");
    }
    let mut text = short(belief);
    let b = match belief {
        Some(b) => b,
        None => return text,
    };
    let measured = match &b.distance {
        Distance::Measured { .. } => true,
        _ => false,
    };
    if !measured {
        return text;
    }
    text.append(", ");
    match b.claimed_by {
        Some(whose) => {
            text.append("on ");
            let name = who(whose, owner, charts);
            let theirs = possessive(name.as_str());
            text.append(theirs.as_str());
            text.append(" word");
        },
        None => match &b.baseline {
            Some(angle) => {
                text.append("from bearings a ");
                text.append(angle.as_str());
                text.append(" baseline apart");
            },
            None => {
                text.append("from bearings");
            },
        },
    }
    match &b.floor {
        Some(ly) => {
            text.append(" — though this ship's own bearings put it beyond ");
            text.append(ly.as_str());
            text.append(" ly");
        },
        None => {},
    }
    text
}

/// A measured distance that nobody claims is solved here exactly when this ship triangulated it,
/// and is otherwise on somebody else's word: the distance note (after the count, the baseline if
/// there is one, and where the bearings were seen from) says which, whatever else is known.
pub proof fn law_an_unclaimed_distance_is_solved_here_only_if_triangulated(b: Sighted, owner: u64, charts: u64)
    requires
        b.distance is Measured,
        b.claimed_by is None,
    ensures
        ({
            let notes = sighted_notes(b, owner, charts);
            let d = if b.baseline is Some { 3int } else { 2int };
            &&& d < notes.len()
            &&& (notes[d] == "Distance solved from bearings held here"@ <==> b.triangulated)
            &&& (notes[d] == "Distance on somebody else's word"@ <==> !b.triangulated)
        }),
{
    reveal_strlit("Distance solved from bearings held here");
    reveal_strlit("Distance on somebody else's word");
    let notes = sighted_notes(b, owner, charts);
    let d = if b.baseline is Some { 3int } else { 2int };
    let solved = "Distance solved from bearings held here"@;
    let word = "Distance on somebody else's word"@;
    assert(solved[9] != word[9]);
}

} // verus!
