//! Which graphs draw a resolved body's surface, and the cloud keyframes its deck is baked from.
//!
//! The surface manifest decides. A body takes its class's graph, which supplies only a pattern. A
//! body named under `[bodies]` takes that graph instead, baked in color, and one named under
//! `[clouds]` has a cloud deck drawn over it. A rocky world with air takes the manifest's `[rocky]`
//! graphs instead, and a giant takes `[giants]`.
//!
//! A cloud deck is rebaked every period with a new seed and blended; keyframes follow coordinate
//! time, so every client draws the same weather.

use vstd::prelude::*;
use vstd::string::*;
use std::collections::HashMap;
use crate::procedural::{Bakes, Format, ScalarFormat, Shape, Target, requested};

verus! {

/// The graph every giant is drawn from.
pub struct Giants {
    pub graph: String,
}

/// The graphs every rocky world with air is drawn from.
pub struct Rocky {
    pub ground: String,
    pub clouds: String,
}

/// The surface manifest: paths under `textures/`, by class, and by name in tables that key each
/// name once ([`SurfaceManifest::wf`]).
pub struct SurfaceManifest {
    /// By surface class.
    pub classes: HashMap<u32, String>,
    /// Baked in color, in place of the class's pattern and palette.
    pub bodies: Vec<(String, String)>,
    pub clouds: Vec<(String, String)>,
    pub rocky: Option<Rocky>,
    pub giants: Option<Giants>,
}

/// A body's ground: a class pattern, or a graph baked in color.
#[derive(Debug, PartialEq, Eq)]
pub enum Ground<'a> {
    Pattern(&'a str),
    Color(&'a str),
}

/// The graphs a body is drawn from, as paths under `textures/`.
#[derive(Debug, PartialEq, Eq)]
pub struct Look<'a> {
    pub ground: Ground<'a>,
    pub clouds: Option<&'a str>,
}

/// The value `key` has in `pairs`, the first pair for it.
pub open spec fn lookup(pairs: Seq<(String, String)>, key: Seq<char>) -> Option<Seq<char>>
    decreases pairs.len(),
{
    if pairs.len() == 0 { None }
    else if pairs[0].0@ == key { Some(pairs[0].1@) }
    else { lookup(pairs.drop_first(), key) }
}


/// No name keys two pairs.
pub open spec fn named_once(pairs: Seq<(String, String)>) -> bool {
    forall|i: int, j: int| 0 <= i < j < pairs.len() ==> (#[trigger] pairs[i]).0@ != (#[trigger] pairs[j]).0@
}


fn names_once(pairs: &Vec<(String, String)>) -> (r: bool)
    ensures
        r == named_once(pairs@),
{
    let mut j: usize = 0;
    while j < pairs.len()
        invariant
            j <= pairs@.len(),
            forall|a: int, b: int| 0 <= a < b < j ==> (#[trigger] pairs@[a]).0@ != (#[trigger] pairs@[b]).0@,
        decreases pairs@.len() - j,
    {
        let mut i: usize = 0;
        while i < j
            invariant
                i <= j < pairs@.len(),
                forall|a: int| 0 <= a < i ==> (#[trigger] pairs@[a]).0@ != pairs@[j as int].0@,
            decreases j - i,
        {
            if pairs[i].0 == pairs[j].0 {
                return false;
            }
            i += 1;
        }
        j += 1;
    }
    true
}


/// A look, as text: whether the ground is baked in color, its path, and the clouds' path.
pub type LookText = (bool, Seq<char>, Option<Seq<char>>);

pub open spec fn look_text(l: Look) -> LookText {
    (l.ground is Color,
     match l.ground { Ground::Pattern(p) => p@, Ground::Color(p) => p@ },
     match l.clouds { Some(c) => Some(c@), None => None })
}

impl SurfaceManifest {
    /// Each table of names keys each name once.
    pub open spec fn wf(&self) -> bool {
        &&& named_once(self.bodies@)
        &&& named_once(self.clouds@)
    }

    /// Whether each table of names keys each name once.
    pub fn keyed_once(&self) -> (r: bool)
        ensures
            r == self.wf(),
    {
        names_once(&self.bodies) && names_once(&self.clouds)
    }

    /// What `look_for` gives: a body named in the manifest takes its own graphs over anything a
    /// climate or a giant's paint would give it.
    pub open spec fn look_spec(&self, name: Seq<char>, class: u32, climate: bool, giant: bool) -> Option<LookText> {
        let named = lookup(self.bodies@, name) is Some;
        if self.rocky is Some && climate && !named {
            Some((true, self.rocky->0.ground@, Some(self.rocky->0.clouds@)))
        } else if self.giants is Some && giant && !named {
            Some((true, self.giants->0.graph@, None))
        } else {
            match lookup(self.bodies@, name) {
                Some(path) => Some((true, path, lookup(self.clouds@, name))),
                None => if self.classes@.contains_key(class) {
                    Some((false, self.classes@[class]@, lookup(self.clouds@, name)))
                } else {
                    None
                },
            }
        }
    }

    /// The graphs `name` is drawn from, given its surface class and whether it has a climate or
    /// is a giant. `None` when nothing names it and its class has no graph.
    pub fn look_for(&self, name: &str, class: u32, climate: bool, giant: bool) -> (r: Option<Look<'_>>)
        requires
            self.wf(),
        ensures
            match r {
                Some(l) => self.look_spec(name@, class, climate, giant) == Some(look_text(l)),
                None => self.look_spec(name@, class, climate, giant) is None,
            },
    {
        broadcast use vstd::std_specs::hash::group_hash_axioms;
        let key = String::from_str(name);
        let body = find(&self.bodies, &key);
        let named = body.is_some();
        if let Some(rocky) = &self.rocky {
            if climate && !named {
                return Some(Look { ground: Ground::Color(rocky.ground.as_str()), clouds: Some(rocky.clouds.as_str()) });
            }
        }
        if let Some(giants) = &self.giants {
            if giant && !named {
                return Some(Look { ground: Ground::Color(giants.graph.as_str()), clouds: None });
            }
        }
        let ground = match body {
            Some(i) => Ground::Color(self.bodies[i].1.as_str()),
            None => match self.classes.get(&class) {
                Some(path) => Ground::Pattern(path.as_str()),
                None => return None,
            },
        };
        let clouds = match find(&self.clouds, &key) {
            Some(i) => Some(self.clouds[i].1.as_str()),
            None => None,
        };
        Some(Look { ground, clouds })
    }
}

/// A body named in the manifest takes its own graph, baked in color, with its own clouds if it
/// has any, whatever its class and whether or not it has a climate or a giant's paint.
pub proof fn law_a_named_body_takes_its_own_graph(m: SurfaceManifest, name: Seq<char>, class: u32, climate: bool, giant: bool)
    requires
        m.wf(),
        lookup(m.bodies@, name) is Some,
    ensures
        m.look_spec(name, class, climate, giant) == Some((true, lookup(m.bodies@, name)->0, lookup(m.clouds@, name))),
{
}

/// A name keyed in a table, each name once, looks up to its own pair's value.
proof fn lemma_lookup_at(pairs: Seq<(String, String)>, key: Seq<char>, i: int)
    requires
        named_once(pairs),
        0 <= i < pairs.len(),
        pairs[i].0@ == key,
    ensures
        lookup(pairs, key) == Some(pairs[i].1@),
    decreases pairs.len(),
{
    if i > 0 {
        assert(pairs[0].0@ != pairs[i].0@);
        let rest = pairs.drop_first();
        assert(rest[i - 1] == pairs[i]);
        assert forall|a: int, b: int| 0 <= a < b < rest.len() implies (#[trigger] rest[a]).0@ != (#[trigger] rest[b]).0@ by {
            assert(rest[a] == pairs[a + 1] && rest[b] == pairs[b + 1]);
        }
        lemma_lookup_at(rest, key, i - 1);
    }
}

/// A name no pair keys looks up to nothing.
proof fn lemma_lookup_absent(pairs: Seq<(String, String)>, key: Seq<char>)
    requires
        forall|i: int| 0 <= i < pairs.len() ==> (#[trigger] pairs[i]).0@ != key,
    ensures
        lookup(pairs, key) is None,
    decreases pairs.len(),
{
    if pairs.len() > 0 {
        let rest = pairs.drop_first();
        assert(pairs[0].0@ != key);
        assert forall|i: int| 0 <= i < rest.len() implies (#[trigger] rest[i]).0@ != key by {
            assert(rest[i] == pairs[i + 1]);
        }
        lemma_lookup_absent(rest, key);
    }
}

/// A body drawn from its class's pattern or from its own graph (not from the climate's or the
/// giants' paint) has the cloud deck `[clouds]` names for it, whatever its ground, and none if
/// no pair there names it.
pub proof fn law_a_body_named_under_clouds_has_its_deck(m: SurfaceManifest, name: Seq<char>, class: u32, climate: bool, giant: bool)
    requires
        m.wf(),
        (exists|b: int| 0 <= b < m.bodies@.len() && (#[trigger] m.bodies@[b]).0@ == name)
            || !((m.rocky is Some && climate) || (m.giants is Some && giant)),
        m.look_spec(name, class, climate, giant) is Some,
    ensures
        forall|i: int| 0 <= i < m.clouds@.len() && (#[trigger] m.clouds@[i]).0@ == name
            ==> m.look_spec(name, class, climate, giant).unwrap().2 == Some(m.clouds@[i].1@),
        (forall|i: int| 0 <= i < m.clouds@.len() ==> (#[trigger] m.clouds@[i]).0@ != name)
            ==> m.look_spec(name, class, climate, giant).unwrap().2 is None,
{
    if exists|b: int| 0 <= b < m.bodies@.len() && (#[trigger] m.bodies@[b]).0@ == name {
        let b = choose|b: int| 0 <= b < m.bodies@.len() && (#[trigger] m.bodies@[b]).0@ == name;
        lemma_lookup_at(m.bodies@, name, b);
    }
    assert forall|i: int| 0 <= i < m.clouds@.len() && (#[trigger] m.clouds@[i]).0@ == name
        implies m.look_spec(name, class, climate, giant).unwrap().2 == Some(m.clouds@[i].1@) by {
        lemma_lookup_at(m.clouds@, name, i);
    }
    if forall|i: int| 0 <= i < m.clouds@.len() ==> (#[trigger] m.clouds@[i]).0@ != name {
        lemma_lookup_absent(m.clouds@, name);
    }
}

/// Where `key` is first in `pairs`.
fn find(pairs: &Vec<(String, String)>, key: &String) -> (r: Option<usize>)
    ensures
        match r {
            Some(i) => i < pairs@.len() && lookup(pairs@, key@) == Some(pairs@[i as int].1@),
            None => lookup(pairs@, key@) is None,
        },
{
    let mut i: usize = 0;
    assert(pairs@.subrange(0, pairs@.len() as int) =~= pairs@);
    while i < pairs.len()
        invariant
            i <= pairs@.len(),
            lookup(pairs@, key@) == lookup(pairs@.subrange(i as int, pairs@.len() as int), key@),
        decreases pairs@.len() - i,
    {
        let ghost rest = pairs@.subrange(i as int, pairs@.len() as int);
        if pairs[i].0 == *key {
            proof { assert(rest[0] == pairs@[i as int]); }
            return Some(i);
        }
        proof {
            assert(rest[0] == pairs@[i as int]);
            assert(rest.drop_first() =~= pairs@.subrange(i as int + 1, pairs@.len() as int));
        }
        i += 1;
    }
    None
}


/// Which of a deck's three weather slots keyframe `k` is baked into.
pub open spec fn slot_spec(k: i64) -> int {
    (k as int) % 3
}

pub fn slot_of(keyframe: i64) -> (r: usize)
    ensures r as int == slot_spec(keyframe), r < 3,
{
    match keyframe.checked_rem_euclid(3) {
        Some(r) => r as usize,
        None => 0,
    }
}

/// Keyframe `k`'s seed: the body's, mixed with the keyframe so each bakes different weather.
pub open spec fn keyframe_seed_spec(seed: u32, keyframe: i64) -> u32 {
    seed ^ ((vstd::wrapping::u64_specs::wrapping_mul(keyframe as u64, 0x9E37_79B9_7F4A_7C15u64) >> 32u64) as u32)
}

pub fn keyframe_seed(seed: u32, keyframe: i64) -> (r: u32)
    ensures r == keyframe_seed_spec(seed, keyframe),
{
    seed ^ ((keyframe as u64).wrapping_mul(0x9E37_79B9_7F4A_7C15) >> 32) as u32
}

/// A cloud deck: its graph, its seed, and the keyframe each weather slot was last asked to hold.
pub struct Deck {
    pub graph: u64,
    pub seed: u32,
    pub holds: [Option<i64>; 3],
}

impl Deck {
    /// Ask for whichever of the keyframes `k`, `k + 1` and `k + 2` the deck lacks: the two being
    /// blended and the next, baked while they are drawn. Slot `s`'s weather lands in
    /// `images[s]`.
    pub fn refresh<Q>(&mut self, k: i64, bakes: &mut Bakes<Vec<Q>>, images: [u64; 3], weather: Target)
        requires
            k <= i64::MAX - 3,
            old(bakes).wf(),
            forall|s: int| 0 <= s < 3 ==> !old(bakes).outstanding().contains_key(#[trigger] images[s])
                || old(bakes).outstanding()[images[s]] < u32::MAX,
            images[0] != images[1] && images[1] != images[2] && images[0] != images[2],
        ensures
            final(bakes).wf(),
            // Each bake asked for is counted outstanding against its image, as a request is.
            final(bakes).outstanding() == Self::counted_before(old(bakes).outstanding(), old(self).holds, k, k + 3, images),
            final(self).graph == old(self).graph,
            final(self).seed == old(self).seed,
            // Each of the three keyframes is held by its slot.
            forall|j: i64| k <= j <= k + 2 ==> final(self).holds[#[trigger] slot_spec(j)] == Some(j),
            // And a bake was asked for each one its slot did not hold already, in order.
            final(bakes).queue().len() == old(bakes).queue().len() + Self::missing(old(self).holds, k),
            final(bakes).queue().subrange(0, old(bakes).queue().len() as int) == old(bakes).queue(),
            forall|j: int| 0 <= j < Self::missing(old(self).holds, k) ==> {
                let req = #[trigger] final(bakes).queue()[old(bakes).queue().len() + j];
                let kf = Self::nth_missing(old(self).holds, k, j);
                &&& req.graph == old(self).graph
                &&& req.seed == keyframe_seed_spec(old(self).seed, kf)
                &&& req.target == weather
                &&& req.image == images[slot_spec(kf)]
                &&& req.params@ == Seq::<Q>::empty()
            },
    {
        let mut j: i64 = k;
        let ghost q0 = bakes.queue();
        let ghost holds0 = self.holds;
        while j < k + 3
            invariant
                k <= j <= k + 3,
                k <= i64::MAX - 3,
                bakes.wf(),
                self.graph == old(self).graph,
                self.seed == old(self).seed,
                holds0 == old(self).holds,
                q0 == old(bakes).queue(),
                images[0] != images[1] && images[1] != images[2] && images[0] != images[2],
                forall|i: i64| k <= i < j ==> self.holds[#[trigger] slot_spec(i)] == Some(i),
                forall|i: i64| j <= i < k + 3 ==> self.holds[#[trigger] slot_spec(i)] == holds0[slot_spec(i)],
                forall|s: int| 0 <= s < 3 ==> !old(bakes).outstanding().contains_key(#[trigger] images[s])
                    || old(bakes).outstanding()[images[s]] < u32::MAX,
                bakes.outstanding() == Self::counted_before(old(bakes).outstanding(), holds0, k, j as int, images),
                bakes.queue().len() == q0.len() + Self::missing_before(holds0, k, j as int),
                bakes.queue().subrange(0, q0.len() as int) == q0,
                forall|i: int| 0 <= i < Self::missing_before(holds0, k, j as int) ==> {
                    let req = #[trigger] bakes.queue()[q0.len() + i];
                    let kf = Self::nth_missing(holds0, k, i);
                    &&& req.graph == self.graph
                    &&& req.seed == keyframe_seed_spec(self.seed, kf)
                    &&& req.target == weather
                    &&& req.image == images[slot_spec(kf)]
                    &&& req.params@ == Seq::<Q>::empty()
                },
            decreases k + 3 - j,
        {
            let slot = slot_of(j);
            proof { Self::lemma_slots_distinct(k); }
            if self.holds[slot] != Some(j) {
                self.holds[slot] = Some(j);
                let ghost qb = bakes.queue();
                let ghost ob = bakes.outstanding();
                proof {
                    // No earlier keyframe of this refresh asked for this image.
                    assert forall|i: int| k <= i < j implies images[#[trigger] slot_spec(i as i64)] != images[slot_spec(j)] by {
                        assert(slot_spec(i as i64) != slot_spec(j));
                    }
                    Self::lemma_counted_other(old(bakes).outstanding(), holds0, k, j as int, images, images[slot as int]);
                }
                bakes.request(self.graph, keyframe_seed(self.seed, j), weather, images[slot]);
                proof {
                    Self::lemma_missing_step(holds0, k, j as int);
                    assert forall|i: int| 0 <= i < Self::missing_before(holds0, k, j as int + 1) implies {
                        let req = #[trigger] bakes.queue()[q0.len() + i];
                        let kf = Self::nth_missing(holds0, k, i);
                        &&& req.graph == self.graph
                        &&& req.seed == keyframe_seed_spec(self.seed, kf)
                        &&& req.target == weather
                        &&& req.image == images[slot_spec(kf)]
                        &&& req.params@ == Seq::<Q>::empty()
                    } by {
                        if i < Self::missing_before(holds0, k, j as int) {
                            assert(bakes.queue().subrange(0, qb.len() as int)[q0.len() + i] == qb[q0.len() + i]);
                        } else {
                            assert(Self::nth_missing(holds0, k, i) == j);
                        }
                    }
                    assert(bakes.queue().subrange(0, q0.len() as int) =~= q0) by {
                        assert(qb.subrange(0, q0.len() as int) == q0);
                        assert forall|i: int| 0 <= i < q0.len() implies bakes.queue()[i] == q0[i] by {
                            assert(bakes.queue().subrange(0, qb.len() as int)[i] == qb[i]);
                            assert(qb.subrange(0, q0.len() as int)[i] == q0[i]);
                        }
                    }
                    assert(bakes.outstanding() == requested(ob, images[slot as int]));
                    assert(Self::counted_before(old(bakes).outstanding(), holds0, k, j as int + 1, images)
                        == requested(ob, images[slot_spec(j)]));
                }
            } else {
                proof {
                    Self::lemma_missing_step(holds0, k, j as int);
                    assert(Self::counted_before(old(bakes).outstanding(), holds0, k, j as int + 1, images)
                        == Self::counted_before(old(bakes).outstanding(), holds0, k, j as int, images));
                }
            }
            j += 1;
        }
    }

    /// How many of `k`, `k + 1`, ... before `upto` a deck holding `holds` lacks.
    pub open spec fn missing_before(holds: [Option<i64>; 3], k: i64, upto: int) -> nat
        decreases upto - k,
    {
        if upto <= k { 0 } else {
            Self::missing_before(holds, k, upto - 1)
                + if holds[slot_spec((upto - 1) as i64)] != Some((upto - 1) as i64) { 1nat } else { 0nat }
        }
    }

    /// The outstanding counts `m` once a bake has been asked of the image of each of `k`,
    /// `k + 1`, ... before `upto` that a deck holding `holds` lacks.
    pub open spec fn counted_before(m: Map<u64, nat>, holds: [Option<i64>; 3], k: i64, upto: int, images: [u64; 3]) -> Map<u64, nat>
        decreases upto - k,
    {
        if upto <= k { m } else {
            let prev = Self::counted_before(m, holds, k, upto - 1, images);
            let j = (upto - 1) as i64;
            if holds[slot_spec(j)] != Some(j) { requested(prev, images[slot_spec(j)]) } else { prev }
        }
    }

    /// An image none of the keyframes asked of keeps its count.
    proof fn lemma_counted_other(m: Map<u64, nat>, holds: [Option<i64>; 3], k: i64, upto: int, images: [u64; 3], key: u64)
        requires
            forall|i: int| k <= i < upto ==> images[#[trigger] slot_spec(i as i64)] != key,
        ensures
            Self::counted_before(m, holds, k, upto, images).contains_key(key) == m.contains_key(key),
            m.contains_key(key) ==> Self::counted_before(m, holds, k, upto, images)[key] == m[key],
        decreases upto - k,
    {
        if upto > k {
            Self::lemma_counted_other(m, holds, k, upto - 1, images, key);
            assert(images[slot_spec((upto - 1) as i64)] != key);
        }
    }

    pub open spec fn missing(holds: [Option<i64>; 3], k: i64) -> nat {
        Self::missing_before(holds, k, k + 3)
    }

    /// The `n`th keyframe of the three a deck lacks.
    pub open spec fn nth_missing(holds: [Option<i64>; 3], k: i64, n: int) -> i64 {
        let lacks = |j: int| holds[slot_spec(j as i64)] != Some(j as i64);
        if lacks(k as int) {
            if n == 0 { k } else if lacks(k + 1) { if n == 1 { (k + 1) as i64 } else { (k + 2) as i64 } } else { (k + 2) as i64 }
        } else if lacks(k + 1) {
            if n == 0 { (k + 1) as i64 } else { (k + 2) as i64 }
        } else {
            (k + 2) as i64
        }
    }

    proof fn lemma_slots_distinct(k: i64)
        requires k <= i64::MAX - 3,
        ensures
            slot_spec(k) != slot_spec((k + 1) as i64),
            slot_spec((k + 1) as i64) != slot_spec((k + 2) as i64),
            slot_spec(k) != slot_spec((k + 2) as i64),
    {
    }

    proof fn lemma_missing_step(holds: [Option<i64>; 3], k: i64, j: int)
        requires k <= j < k + 3, k <= i64::MAX - 3,
        ensures
            Self::missing_before(holds, k, j + 1) == Self::missing_before(holds, k, j)
                + if holds[slot_spec(j as i64)] != Some(j as i64) { 1nat } else { 0nat },
            holds[slot_spec(j as i64)] != Some(j as i64) ==> Self::nth_missing(holds, k, Self::missing_before(holds, k, j) as int) == j,
    {
        let lacks = |j: int| holds[slot_spec(j as i64)] != Some(j as i64);
        let m1 = Self::missing_before(holds, k, k + 1);
        let m2 = Self::missing_before(holds, k, k + 2);
        assert(Self::missing_before(holds, k, k as int) == 0);
        assert(m1 == if lacks(k as int) { 1nat } else { 0nat });
        assert(m2 == m1 + if lacks(k + 1) { 1nat } else { 0nat });
    }
}


/// Texels along a cube face's edge: about two thousand around the equator, for a megabyte and
/// a half a body.
pub const FACE: u32 = 512;

/// The same for a color cubemap. A color graph is the whole surface rather than a variation on
/// one, and it is what a ship in low orbit fills the view with.
pub const COLOR_FACE: u32 = 1024;

/// What a cloud deck's keyframes bake: its `zonal` layer, which stays below one.
pub fn weather_target() -> (r: Target)
    ensures
        r == (Target { shape: Shape::Cube(COLOR_FACE), format: Format::Scalar(ScalarFormat::R8Unorm), layer: Some("zonal") }),
{
    Target::new(Shape::Cube(COLOR_FACE)).layer("zonal")
}

/// What a cloud deck's climate bakes, once.
pub fn climate_target() -> (r: Target)
    ensures
        r == (Target { shape: Shape::Cube(64), format: Format::Scalar(ScalarFormat::R8Unorm), layer: Some("drive term 1") }),
{
    Target::new(Shape::Cube(64)).layer("drive term 1")
}

/// The rocky graph's layers that say what its ground is made of: land over water, ice over
/// everything, growth over dry land, sand over rock.
pub open spec fn masks() -> Seq<&'static str> {
    seq!["land", "ice", "green", "sand amount"]
}

/// The giant graph's layers: polar haze over everything, storms over the bands, belts over zones.
pub open spec fn giant_masks() -> Seq<&'static str> {
    seq!["belt", "storm", "polar"]
}

/// What of a body's own its material draws. All false until the manifest has said, and for a
/// body it gives nothing.
#[derive(Clone, Copy, Debug, PartialEq, Eq, Structural)]
pub struct Drawn {
    pub color: bool,
    pub clouds: bool,
    /// Whether the rocky masks are baked, so each band can see its own ground.
    pub grounds: bool,
    /// Whether the giant masks are, so each band can see a giant's own layers.
    pub layers: bool,
}

/// A material that draws nothing of the body's own: the manifest failed, or named nothing for it.
pub open spec fn flat() -> Drawn {
    Drawn { color: false, clouds: false, grounds: false, layers: false }
}

/// Where the surface manifest stands, as the asset server last said.
#[derive(Clone, Copy, Debug, PartialEq, Eq, Structural)]
pub enum ManifestState {
    Loaded,
    Loading,
    Failed,
}

/// What a routing pass does with the bodies.
#[derive(Clone, Debug)]
pub enum Routing {
    /// Nothing yet: every body is drawn already, or the manifest is still loading.
    Wait,
    /// The manifest failed: every body is drawn flat.
    AllFlat,
    /// Route these bodies, the undrawn ones, in order.
    Route(Vec<usize>),
}

/// The bodies still undrawn, in order: `route` lists exactly those.
pub open spec fn undrawn_in_order(drawn: Seq<Option<Drawn>>, route: Seq<usize>) -> bool {
    &&& forall|a: int, b: int| 0 <= a < b < route.len() ==> (#[trigger] route[a]) < (#[trigger] route[b])
    &&& forall|a: int| 0 <= a < route.len() ==> (#[trigger] route[a]) < drawn.len() && drawn[route[a] as int] is None
    &&& forall|i: int| 0 <= i < drawn.len() && (#[trigger] drawn[i]) is None ==> route.contains(i as usize)
}

/// What a routing pass does: nothing once every body is drawn or while the manifest loads,
/// every body flat if it failed, else the undrawn bodies, each routed by
/// [`SurfaceManifest::route_body`].
pub fn routing(state: ManifestState, drawn: &Vec<Option<Drawn>>) -> (r: Routing)
    ensures
        (forall|i: int| 0 <= i < drawn@.len() ==> (#[trigger] drawn@[i]) is Some) ==> r is Wait,
        (exists|i: int| 0 <= i < drawn@.len() && (#[trigger] drawn@[i]) is None) ==> match state {
            ManifestState::Loading => r is Wait,
            ManifestState::Failed => r is AllFlat,
            ManifestState::Loaded => r matches Routing::Route(v) && undrawn_in_order(drawn@, v@),
        },
{
    let mut route: Vec<usize> = Vec::new();
    let mut i: usize = 0;
    while i < drawn.len()
        invariant
            i <= drawn@.len(),
            forall|a: int, b: int| 0 <= a < b < route@.len() ==> (#[trigger] route@[a]) < (#[trigger] route@[b]),
            forall|a: int| 0 <= a < route@.len() ==> (#[trigger] route@[a]) < i && drawn@[route@[a] as int] is None,
            forall|k: int| 0 <= k < i && (#[trigger] drawn@[k]) is None ==> route@.contains(k as usize),
        decreases drawn@.len() - i,
    {
        if drawn[i].is_none() {
            let ghost r0 = route@;
            route.push(i);
            proof {
                assert forall|k: int| 0 <= k < i + 1 && (#[trigger] drawn@[k]) is None implies route@.contains(k as usize) by {
                    if k < i {
                        let a = choose|a: int| 0 <= a < r0.len() && r0[a] == k as usize;
                        assert(route@[a] == r0[a]);
                    } else {
                        assert(route@[route@.len() - 1] == i);
                    }
                }
            }
        }
        i += 1;
    }
    if route.len() == 0 {
        proof {
            assert forall|k: int| 0 <= k < drawn@.len() implies (#[trigger] drawn@[k]) is Some by {
                if drawn@[k] is None { assert(route@.contains(k as usize)); }
            }
        }
        return Routing::Wait;
    }
    proof {
        assert(drawn@[route@[0] as int] is None);
    }
    match state {
        ManifestState::Loading => Routing::Wait,
        ManifestState::Failed => Routing::AllFlat,
        ManifestState::Loaded => Routing::Route(route),
    }
}

/// Which of a body's images a bake lands in.
#[derive(Clone, Copy, Debug, PartialEq, Eq, Structural)]
pub enum Slot {
    /// The mask of that index, in the order of its masks.
    Mask(u64),
    Pattern,
    Color,
    Climate,
}

/// What a bake's parameters are bound from.
#[derive(Clone, Copy, Debug, PartialEq, Eq, Structural)]
pub enum Bound {
    /// The body's climate.
    Climate,
    /// The giant's paint.
    Giant,
    Nothing,
}

/// A bake a body asks for: the graph's path, what it fills, where it lands, and what binds it.
#[derive(Clone, Copy, Debug)]
pub struct Ask<'a> {
    pub path: &'a str,
    pub target: Target,
    pub slot: Slot,
    pub bound: Bound,
}

/// The ground a look draws is the graph at `path`, baked in color.
pub open spec fn drawn_as(l: Look, path: Option<Seq<char>>) -> bool {
    match path {
        Some(p) => match l.ground {
            Ground::Color(g) => g@ == p,
            Ground::Pattern(_) => false,
        },
        None => false,
    }
}

/// What the ground is bound from, for a body with a climate or a giant's paint: the climate when
/// it is drawn with the rocky graph, the paint when with the giants', else nothing.
pub open spec fn bound_for(m: SurfaceManifest, l: Look, climate: bool, giant: bool) -> Bound {
    if climate && drawn_as(l, match m.rocky { Some(r) => Some(r.ground@), None => None }) {
        Bound::Climate
    } else if giant && drawn_as(l, match m.giants { Some(g) => Some(g.graph@), None => None }) {
        Bound::Giant
    } else {
        Bound::Nothing
    }
}

/// The masks a binding bakes.
pub open spec fn masks_for(b: Bound) -> Seq<&'static str> {
    match b {
        Bound::Climate => masks(),
        Bound::Giant => giant_masks(),
        Bound::Nothing => Seq::empty(),
    }
}

/// The bakes a look asks for, in order: the masks (of a ground baked in color), the ground, and
/// the clouds' climate.
pub open spec fn asks_for(l: Look, b: Bound) -> Seq<(Seq<char>, Target, Slot, Bound)> {
    let ms = masks_for(b);
    let mask_asks = match l.ground {
        Ground::Color(p) => Seq::new(ms.len(), |i: int| (p@,
            Target { shape: Shape::Cube(FACE), format: Format::Scalar(ScalarFormat::R8Unorm), layer: Some(ms[i]) },
            Slot::Mask(i as u64), b)),
        Ground::Pattern(_) => Seq::empty(),
    };
    let ground = match l.ground {
        Ground::Pattern(p) => (p@, Target { shape: Shape::Cube(FACE), format: Format::Scalar(ScalarFormat::R8Unorm), layer: None }, Slot::Pattern, b),
        Ground::Color(p) => (p@, Target { shape: Shape::Cube(COLOR_FACE), format: Format::Color, layer: None }, Slot::Color, b),
    };
    let clouds = match l.clouds {
        Some(c) => seq![(c@, Target { shape: Shape::Cube(64), format: Format::Scalar(ScalarFormat::R8Unorm), layer: Some("drive term 1") }, Slot::Climate, Bound::Nothing)],
        None => Seq::empty(),
    };
    mask_asks + seq![ground] + clouds
}

/// Asks, as plain values.
pub open spec fn asked(v: Seq<Ask>) -> Seq<(Seq<char>, Target, Slot, Bound)> {
    v.map_values(|a: Ask| (a.path@, a.target, a.slot, a.bound))
}

/// Whether `path` is the graph at `want`.
fn is_path(path: &str, want: Option<&String>) -> (r: bool)
    ensures
        r == (match want { Some(w) => path@ == w@, None => false }),
{
    match want {
        Some(w) => String::from_str(path) == *w,
        None => false,
    }
}

impl SurfaceManifest {
    /// The bakes a body drawn with `look` asks for, and what its material then draws. A rocky
    /// world with air drawn with the rocky graph is bound from its climate and bakes the rocky
    /// masks; a giant drawn with the giants' graph is bound from its paint and bakes the giant's.
    pub fn route<'a>(&'a self, look: &Look<'a>, climate: bool, giant: bool) -> (r: (Drawn, Vec<Ask<'a>>))
        requires
            self.wf(),
        ensures
            asked(r.1@) == asks_for(*look, bound_for(*self, *look, climate, giant)),
            r.0 == (Drawn {
                color: look.ground is Color,
                clouds: look.clouds is Some,
                grounds: bound_for(*self, *look, climate, giant) == Bound::Climate,
                layers: bound_for(*self, *look, climate, giant) == Bound::Giant,
            }),
    {
        let ghost b = bound_for(*self, *look, climate, giant);
        let colored: Option<&str> = match look.ground {
            Ground::Color(p) => Some(p),
            Ground::Pattern(_) => None,
        };
        let by_climate = climate && match colored {
            Some(p) => is_path(p, match &self.rocky { Some(r) => Some(&r.ground), None => None }),
            None => false,
        };
        let by_paint = !by_climate && giant && match colored {
            Some(p) => is_path(p, match &self.giants { Some(g) => Some(&g.graph), None => None }),
            None => false,
        };
        let bound = if by_climate { Bound::Climate } else if by_paint { Bound::Giant } else { Bound::Nothing };
        assert(bound == b);
        let names: Vec<&'static str> = if by_climate {
            vec!["land", "ice", "green", "sand amount"]
        } else if by_paint {
            vec!["belt", "storm", "polar"]
        } else {
            Vec::new()
        };
        assert(names@ =~= masks_for(b));
        let mut asks: Vec<Ask<'a>> = Vec::new();
        match colored {
            Some(p) => {
                let mut i: usize = 0;
                while i < names.len()
                    invariant
                        i <= names@.len(),
                        names@ == masks_for(b),
                        bound == b,
                        look.ground == Ground::Color(p),
                        asked(asks@) =~= Seq::new(i as nat, |j: int| (p@,
                            Target { shape: Shape::Cube(FACE), format: Format::Scalar(ScalarFormat::R8Unorm), layer: Some(names@[j]) },
                            Slot::Mask(j as u64), b)),
                    decreases names.len() - i,
                {
                    let t = Target::new(Shape::Cube(FACE)).layer(names[i]);
                    let ghost before = asked(asks@);
                    asks.push(Ask { path: p, target: t, slot: Slot::Mask(i as u64), bound });
                    proof {
                        assert(asked(asks@) =~= before.push((p@, t, Slot::Mask(i as u64), b)));
                        assert(t == Target { shape: Shape::Cube(FACE), format: Format::Scalar(ScalarFormat::R8Unorm), layer: Some(names@[i as int]) });
                    }
                    i += 1;
                }
            },
            None => {},
        }
        let ground = match look.ground {
            Ground::Pattern(p) => Ask { path: p, target: Target::new(Shape::Cube(FACE)), slot: Slot::Pattern, bound },
            Ground::Color(p) => Ask { path: p, target: Target::new(Shape::Cube(COLOR_FACE)).color(), slot: Slot::Color, bound },
        };
        asks.push(ground);
        match look.clouds {
            Some(c) => {
                asks.push(Ask { path: c, target: climate_target(), slot: Slot::Climate, bound: Bound::Nothing });
            },
            None => {},
        }
        proof {
            assert(asked(asks@) =~= asks_for(*look, b));
        }
        let drawn = Drawn {
            color: colored.is_some(),
            clouds: look.clouds.is_some(),
            grounds: by_climate,
            layers: by_paint,
        };
        (drawn, asks)
    }

    /// One body routed: its look, if the manifest gives it one, and then the bakes that look
    /// asks for and what the material draws; drawn flat, with nothing to bake, if it gives none.
    pub fn route_body<'a>(&'a self, name: &str, class: u32, climate: bool, giant: bool) -> (r: (Drawn, Vec<Ask<'a>>))
        requires
            self.wf(),
        ensures
            match self.look_spec(name@, class, climate, giant) {
                None => r.0 == flat() && r.1@.len() == 0,
                Some(lt) => exists|l: Look| look_text(l) == lt
                    && #[trigger] asked(r.1@) == asks_for(l, bound_for(*self, l, climate, giant))
                    && r.0 == (Drawn {
                        color: l.ground is Color,
                        clouds: l.clouds is Some,
                        grounds: bound_for(*self, l, climate, giant) == Bound::Climate,
                        layers: bound_for(*self, l, climate, giant) == Bound::Giant,
                    }),
            },
    {
        match self.look_for(name, class, climate, giant) {
            None => (Drawn { color: false, clouds: false, grounds: false, layers: false }, Vec::new()),
            Some(look) => {
                let r = self.route(&look, climate, giant);
                assert(asked(r.1@) == asks_for(look, bound_for(*self, look, climate, giant)));
                r
            },
        }
    }
}

/// A body's own images, by id: what its ground and its clouds' climate land in.
#[derive(Clone, Copy, Debug)]
pub struct Grounds {
    pub pattern: u64,
    pub color: u64,
    pub climate: u64,
}

/// Whether a body is drawn as itself rather than flat: its graphs are chosen (`drawn` is what
/// they are) and their bakes have landed. `None` is a body nothing has asked to draw, which is
/// ready.
pub fn ready<P>(body: Option<(Option<Drawn>, Grounds)>, bakes: &Bakes<P>) -> (r: bool)
    requires
        bakes.wf(),
    ensures
        r == (match body {
            None => true,
            Some((None, _)) => false,
            Some((Some(d), g)) => !bakes.outstanding().contains_key(if d.color { g.color } else { g.pattern })
                && (!d.clouds || !bakes.outstanding().contains_key(g.climate)),
        }),
{
    match body {
        None => true,
        Some((None, _)) => false,
        Some((Some(d), g)) => {
            let ground = if d.color { g.color } else { g.pattern };
            bakes.settled(ground) && (!d.clouds || bakes.settled(g.climate))
        },
    }
}
} // verus!
