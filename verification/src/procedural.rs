//! Procedural textures: what a bake fills, and the ledger of bakes asked for and not yet landed.
//!
//! Whoever wants a bake adds a flat placeholder image, binds it, and asks for the bake; the bake
//! replaces the image behind that handle when it lands. So a material drawn before then draws
//! unchanged but for the texture, and a bake that fails leaves a texture missing rather than a
//! game that cannot start. An image is named here by its id, a graph by its own.

use vstd::prelude::*;
use vstd::string::*;
use crate::ledger::Counts;

verus! {

/// Faces of a cubemap.
pub const CUBE_FACES: u32 = 6u32;

/// How a scalar field is stored, a texel each.
#[derive(Clone, Copy, Debug, PartialEq, Eq)]
pub enum ScalarFormat {
    R8Unorm,
    R16Float,
    R32Float,
}

/// What a bake fills.
#[derive(Clone, Copy, Debug, PartialEq, Eq)]
pub enum Shape {
    /// A repeating volume, `n` texels a side, sampled by position.
    Volume(u32),
    /// A cubemap, `n` texels a face edge, sampled by direction: the graph on a sphere.
    Cube(u32),
    /// A repeating square, `n` texels a side: the graph's unit square as one tile.
    Plane(u32),
}

/// What each texel holds.
#[derive(Clone, Copy, Debug, PartialEq, Eq)]
pub enum Format {
    /// One byte a texel unless a field leaves `[0, 1]`.
    Scalar(ScalarFormat),
    /// The graph's color output, sRGB with straight alpha. On a sphere or a plane.
    Color,
}

/// What a bake fills, and from which layer of the graph.
#[derive(Clone, Copy, Debug)]
pub struct Target {
    pub shape: Shape,
    pub format: Format,
    /// `None` is the graph's output. A graph can carry several fields side by side, and each is
    /// baked on its own.
    pub layer: Option<&'static str>,
}

/// Texels in a bake of `shape`.
pub open spec fn texels(shape: Shape) -> nat {
    match shape {
        Shape::Volume(n) => (n * n * n) as nat,
        Shape::Cube(n) => (n * n * CUBE_FACES) as nat,
        Shape::Plane(n) => (n * n) as nat,
    }
}

/// Bytes in a texel of `format`.
pub open spec fn texel_bytes(format: Format) -> nat {
    match format {
        Format::Scalar(ScalarFormat::R8Unorm) => 1,
        Format::Scalar(ScalarFormat::R16Float) => 2,
        Format::Scalar(ScalarFormat::R32Float) => 4,
        Format::Color => 4,
    }
}

impl Target {
    pub fn new(shape: Shape) -> (r: Self)
        ensures r.shape == shape, r.format == Format::Scalar(ScalarFormat::R8Unorm), r.layer.is_none(),
    {
        Target { shape, format: Format::Scalar(ScalarFormat::R8Unorm), layer: None }
    }

    pub fn layer(self, name: &'static str) -> (r: Self)
        ensures r.shape == self.shape, r.format == self.format, r.layer == Some(name),
    {
        Target { layer: Some(name), ..self }
    }

    pub fn format(self, format: ScalarFormat) -> (r: Self)
        ensures r.shape == self.shape, r.format == Format::Scalar(format), r.layer == self.layer,
    {
        Target { format: Format::Scalar(format), ..self }
    }

    pub fn color(self) -> (r: Self)
        ensures r.shape == self.shape, r.format == Format::Color, r.layer == self.layer,
    {
        Target { format: Format::Color, ..self }
    }

    /// What the baked texture holds on the GPU.
    pub fn bytes(self) -> (r: usize)
        requires texels(self.shape) * texel_bytes(self.format) <= usize::MAX,
        ensures r as nat == texels(self.shape) * texel_bytes(self.format),
    {
        let per_texel: usize = match self.format {
            Format::Scalar(ScalarFormat::R8Unorm) => 1,
            Format::Scalar(ScalarFormat::R16Float) => 2,
            Format::Scalar(ScalarFormat::R32Float) => 4,
            Format::Color => 4,
        };
        proof {
            let t = texels(self.shape);
            assert(t <= t * per_texel) by (nonlinear_arith) requires per_texel >= 1;
        }
        let texels: usize = match self.shape {
            Shape::Volume(n) => {
                let n = n as usize;
                proof {
                    assert(n * n <= n * n * n || n == 0) by (nonlinear_arith);
                }
                n * n * n
            }
            Shape::Cube(n) => {
                let n = n as usize;
                proof {
                    assert(n * n <= n * n * 6) by (nonlinear_arith);
                }
                n * n * 6
            }
            Shape::Plane(n) => {
                let n = n as usize;
                n * n
            }
        };
        texels * per_texel
    }
}

/// The texel a placeholder is filled with: half-way, which every pattern here reads as no
/// pattern at all, and a transparent gray for a color.
pub open spec fn half_texel(format: Format) -> Seq<u8> {
    match format {
        Format::Scalar(ScalarFormat::R8Unorm) => seq![128u8],
        // 0.5 as a half float, little-endian.
        Format::Scalar(ScalarFormat::R16Float) => seq![0x00u8, 0x38u8],
        // 0.5 as a float, little-endian.
        Format::Scalar(ScalarFormat::R32Float) => seq![0x00u8, 0x00u8, 0x00u8, 0x3fu8],
        Format::Color => seq![128u8, 128u8, 128u8, 0u8],
    }
}

/// A placeholder's shape: the target's, one texel a side.
pub open spec fn unit_shape(shape: Shape) -> Shape {
    match shape {
        Shape::Volume(_) => Shape::Volume(1),
        Shape::Cube(_) => Shape::Cube(1),
        Shape::Plane(_) => Shape::Plane(1),
    }
}

/// `s` repeated `k` times.
pub open spec fn repeated(s: Seq<u8>, k: nat) -> Seq<u8>
    decreases k,
{
    if k == 0 { Seq::empty() } else { repeated(s, (k - 1) as nat) + s }
}

proof fn lemma_unit_texels(shape: Shape)
    ensures texels(unit_shape(shape)) == if shape is Cube { 6nat } else { 1nat },
{
    assert(1u32 * 1u32 * 1u32 == 1);
    assert(1u32 * 1u32 * CUBE_FACES == 6);
}

/// A flat target of `target`'s kind, one texel a side, and the bytes that fill it: half-way
/// everywhere. What a material binds until its bake lands.
pub fn placeholder(target: Target) -> (r: (Target, Vec<u8>))
    ensures
        r.0.shape == unit_shape(target.shape),
        r.0.format == target.format,
        r.0.layer == target.layer,
        r.1@ == repeated(half_texel(target.format), texels(unit_shape(target.shape))),
{
    let shape = match target.shape {
        Shape::Volume(_) => Shape::Volume(1),
        Shape::Cube(_) => Shape::Cube(1),
        Shape::Plane(_) => Shape::Plane(1),
    };
    let count: usize = match shape {
        Shape::Cube(_) => 6,
        _ => 1,
    };
    let half: Vec<u8> = match target.format {
        Format::Scalar(ScalarFormat::R8Unorm) => vec![128u8],
        Format::Scalar(ScalarFormat::R16Float) => vec![0x00u8, 0x38u8],
        Format::Scalar(ScalarFormat::R32Float) => vec![0x00u8, 0x00u8, 0x00u8, 0x3fu8],
        Format::Color => vec![128u8, 128u8, 128u8, 0u8],
    };
    proof {
        assert(half@ =~= half_texel(target.format));
        lemma_unit_texels(target.shape);
    }
    let mut bytes: Vec<u8> = Vec::new();
    let mut k: usize = 0;
    while k < count
        invariant
            k <= count,
            half@ == half_texel(target.format),
            bytes@ == repeated(half@, k as nat),
        decreases count - k,
    {
        let mut j: usize = 0;
        let ghost start = bytes@;
        while j < half.len()
            invariant
                j <= half.len(),
                bytes@ == start + half@.subrange(0, j as int),
            decreases half.len() - j,
        {
            bytes.push(half[j]);
            proof { assert(half@.subrange(0, j as int + 1) =~= half@.subrange(0, j as int).push(half@[j as int])); }
            j += 1;
        }
        proof { assert(half@.subrange(0, half@.len() as int) =~= half@); }
        k += 1;
    }
    (Target { shape, ..target }, bytes)
}

/// The number `bytes` encode, least significant byte first.
pub open spec fn little_endian(bytes: Seq<u8>) -> int
    decreases bytes.len(),
{
    if bytes.len() == 0 { 0 } else { bytes[0] + 256 * little_endian(bytes.drop_first()) }
}

/// `s` repeated `n` times is `n` copies of `s` laid end to end: copy `k` is at `k * |s|`.
proof fn lemma_repeated_copy(s: Seq<u8>, n: nat, k: int)
    requires
        0 <= k < n,
    ensures
        repeated(s, n).len() == n * s.len(),
        repeated(s, n).subrange(k * s.len(), (k + 1) * s.len()) == s,
    decreases n,
{
    let l = s.len() as int;
    let prev = repeated(s, (n - 1) as nat);
    lemma_repeated_len(s, (n - 1) as nat);
    assert(n * l == (n - 1) * l + l) by (nonlinear_arith);
    if k == n - 1 {
        assert(k * l == (n - 1) * l);
        assert(repeated(s, n).subrange(k * l, (k + 1) * l) =~= s);
    } else {
        lemma_repeated_copy(s, (n - 1) as nat, k);
        assert((k + 1) * l <= (n - 1) * l) by (nonlinear_arith) requires k + 1 <= n - 1, l >= 0;
        assert(0 <= k * l) by (nonlinear_arith) requires k >= 0, l >= 0;
        assert((k + 1) * l == k * l + l) by (nonlinear_arith);
        assert(repeated(s, n).subrange(k * l, (k + 1) * l) =~= prev.subrange(k * l, (k + 1) * l));
    }
}

proof fn lemma_repeated_len(s: Seq<u8>, n: nat)
    ensures
        repeated(s, n).len() == n * s.len(),
    decreases n,
{
    if n > 0 {
        lemma_repeated_len(s, (n - 1) as nat);
        assert(n * s.len() == (n - 1) * s.len() + s.len()) by (nonlinear_arith);
    } else {
        assert(n * s.len() == 0) by (nonlinear_arith) requires n == 0;
    }
}

/// A placeholder's texel is half-way in its format's little-endian encoding: a byte of 128 (of
/// 255), 0.5 as a half float (`0x3800`) or as a float (`0x3f00_0000`), and for a color gray 128
/// in each channel with no alpha. It is one texel of its format wide.
pub proof fn law_a_placeholder_texel_is_half(format: Format)
    ensures
        half_texel(format).len() == texel_bytes(format),
        format == Format::Scalar(ScalarFormat::R8Unorm) ==> little_endian(half_texel(format)) == 128,
        format == Format::Scalar(ScalarFormat::R16Float) ==> little_endian(half_texel(format)) == 0x3800,
        format == Format::Scalar(ScalarFormat::R32Float) ==> little_endian(half_texel(format)) == 0x3f00_0000,
        format == Format::Color ==> half_texel(format) == seq![128u8, 128u8, 128u8, 0u8],
{
    let h = half_texel(format);
    match format {
        Format::Scalar(ScalarFormat::R8Unorm) => {
            assert(h =~= seq![h[0]]);
            lemma_little_endian_1(h[0]);
        },
        Format::Scalar(ScalarFormat::R16Float) => {
            assert(h =~= seq![h[0], h[1]]);
            lemma_little_endian_2(h[0], h[1]);
        },
        Format::Scalar(ScalarFormat::R32Float) => {
            assert(h =~= seq![h[0], h[1], h[2], h[3]]);
            lemma_little_endian_4(h[0], h[1], h[2], h[3]);
        },
        Format::Color => {},
    }
}

/// A placeholder's bytes are its texel once for each texel of the target's shape one texel a
/// side: texel `k` is the `k`th run of that texel's width.
pub proof fn law_a_placeholder_is_its_texel_repeated(target: Target, k: int)
    requires
        0 <= k < texels(unit_shape(target.shape)),
    ensures
        ({
            let bytes = repeated(half_texel(target.format), texels(unit_shape(target.shape)));
            let w = texel_bytes(target.format) as int;
            &&& bytes.len() == texels(unit_shape(target.shape)) * texel_bytes(target.format)
            &&& bytes.subrange(k * w, (k + 1) * w) == half_texel(target.format)
        }),
{
    law_a_placeholder_texel_is_half(target.format);
    lemma_repeated_copy(half_texel(target.format), texels(unit_shape(target.shape)), k);
}

proof fn lemma_little_endian_1(a: u8)
    ensures
        little_endian(seq![a]) == a,
{
    assert(seq![a].drop_first() =~= Seq::<u8>::empty());
    assert(little_endian(Seq::<u8>::empty()) == 0);
    assert(little_endian(seq![a]) == a + 256 * little_endian(seq![a].drop_first()));
}

proof fn lemma_little_endian_2(a: u8, b: u8)
    ensures
        little_endian(seq![a, b]) == a + 256 * b,
{
    assert(seq![a, b].drop_first() =~= seq![b]);
    lemma_little_endian_1(b);
}

proof fn lemma_little_endian_4(a: u8, b: u8, c: u8, d: u8)
    ensures
        little_endian(seq![a, b, c, d]) == a + 256 * (b + 256 * (c + 256 * d)),
{
    assert(seq![a, b, c, d].drop_first() =~= seq![b, c, d]);
    assert(seq![b, c, d].drop_first() =~= seq![c, d]);
    lemma_little_endian_2(c, d);
    assert(little_endian(seq![b, c, d]) == b + 256 * little_endian(seq![c, d]));
    assert(little_endian(seq![a, b, c, d]) == a + 256 * little_endian(seq![b, c, d]));
}

/// How a sampler filters between texels.
#[derive(Clone, Copy, Debug, PartialEq, Eq)]
pub enum Filter {
    Nearest,
    Linear,
}

/// How a baked texture is laid out: its extent, whether it is a volume, its storage, and how it
/// is sampled.
#[derive(Clone, Copy, Debug, PartialEq, Eq)]
pub struct Layout {
    pub width: u32,
    pub height: u32,
    /// Depth for a volume, faces for a cube, one for a plane.
    pub layers: u32,
    pub volume: bool,
    pub format: Format,
    /// A volume and a plane repeat; a cube has no edge to repeat, and is viewed as a cube.
    pub repeats: bool,
    pub cube_view: bool,
    /// Magnified and minified alike, every bake is filtered linearly.
    pub mag_filter: Filter,
    pub min_filter: Filter,
}

pub fn layout(target: Target) -> (r: Layout)
    ensures
        r.format == target.format,
        r.mag_filter == Filter::Linear,
        r.min_filter == Filter::Linear,
        match target.shape {
            Shape::Volume(n) => r.width == n && r.height == n && r.layers == n && r.volume && r.repeats && !r.cube_view,
            Shape::Cube(n) => r.width == n && r.height == n && r.layers == CUBE_FACES && !r.volume && !r.repeats && r.cube_view,
            Shape::Plane(n) => r.width == n && r.height == n && r.layers == 1 && !r.volume && r.repeats && !r.cube_view,
        },
{
    match target.shape {
        Shape::Volume(n) => Layout { width: n, height: n, layers: n, volume: true, format: target.format, repeats: true, cube_view: false, mag_filter: Filter::Linear, min_filter: Filter::Linear },
        Shape::Cube(n) => Layout { width: n, height: n, layers: CUBE_FACES, volume: false, format: target.format, repeats: false, cube_view: true, mag_filter: Filter::Linear, min_filter: Filter::Linear },
        Shape::Plane(n) => Layout { width: n, height: n, layers: 1, volume: false, format: target.format, repeats: true, cube_view: false, mag_filter: Filter::Linear, min_filter: Filter::Linear },
    }
}

/// Which of the baker's passes fills a target, and from which layer.
#[derive(Clone, Copy, Debug, PartialEq, Eq)]
pub enum Pass {
    /// The graph's color output on a plane, `n` texels a side, with straight alpha.
    ColorPlane(u32),
    /// The graph's color output on a sphere, `n` texels a face edge.
    ColorCube(u32),
    ScalarVolume { layer: u64, n: u32, format: ScalarFormat },
    ScalarCube { layer: u64, n: u32, format: ScalarFormat },
    ScalarPlane { layer: u64, n: u32, format: ScalarFormat },
}

/// `s` as Rust's `Debug` writes it: quoted, with what needs escaping escaped.
pub uninterp spec fn debug_text(s: Seq<char>) -> Seq<char>;

/// `{:?}` of a `str`, which is `<str as Debug>::fmt`: a function of the text alone.
#[verifier::external_body]
fn debugged(s: &str) -> (r: String)
    ensures r@ == debug_text(s@),
{
    format!("{s:?}")
}

/// The scalar pass for `shape`, reading layer `layer`.
pub open spec fn pass_for(shape: Shape, layer: u64, format: ScalarFormat) -> Pass {
    match shape {
        Shape::Volume(n) => Pass::ScalarVolume { layer, n, format },
        Shape::Cube(n) => Pass::ScalarCube { layer, n, format },
        Shape::Plane(n) => Pass::ScalarPlane { layer, n, format },
    }
}

pub open spec fn no_layer_named(name: Seq<char>) -> Seq<char> {
    "the graph has no layer named "@ + debug_text(name)
}

/// How to bake `target` from a graph whose layers are `layers`, by name and id, and whose output
/// color layer is `output`. A color bake is of the graph's output, and on a sphere or a plane; a
/// scalar bake reads the layer the target names, or the output's color layer.
pub fn plan(target: Target, layers: &Vec<(String, u64)>, output: Option<u64>) -> (r: Result<Pass, String>)
    ensures
        match target.format {
            Format::Color => match (target.layer, target.shape) {
                (Some(_), _) => r is Err && r->Err_0@ == "a color bake is of a graph's output"@,
                (None, Shape::Plane(n)) => r == Ok::<Pass, String>(Pass::ColorPlane(n)),
                (None, Shape::Cube(n)) => r == Ok::<Pass, String>(Pass::ColorCube(n)),
                (None, Shape::Volume(_)) => r is Err && r->Err_0@ == "a color bake is on a sphere or a plane"@,
            },
            Format::Scalar(format) => match target.layer {
                Some(name) => {
                    &&& r is Ok ==> exists|i: int| 0 <= i < layers@.len() && (#[trigger] layers@[i]).0@ == name@
                        && (forall|j: int| 0 <= j < i ==> (#[trigger] layers@[j]).0@ != name@)
                        && r->Ok_0 == pass_for(target.shape, layers@[i].1, format)
                    &&& r is Err ==> (forall|i: int| 0 <= i < layers@.len() ==> (#[trigger] layers@[i]).0@ != name@)
                        && r->Err_0@ == no_layer_named(name@)
                },
                None => match output {
                    Some(id) => r == Ok::<Pass, String>(pass_for(target.shape, id, format)),
                    None => r is Err && r->Err_0@ == "the graph's output has no color layer"@,
                },
            },
        },
{
    let format = match target.format {
        Format::Scalar(format) => format,
        Format::Color => {
            if target.layer.is_some() {
                return Err(String::from_str("a color bake is of a graph's output"));
            }
            return match target.shape {
                Shape::Cube(n) => Ok(Pass::ColorCube(n)),
                Shape::Plane(n) => Ok(Pass::ColorPlane(n)),
                Shape::Volume(_) => Err(String::from_str("a color bake is on a sphere or a plane")),
            };
        }
    };
    let layer = match target.layer {
        Some(name) => {
            let want = String::from_str(name);
            let mut i: usize = 0;
            let mut found: Option<usize> = None;
            while i < layers.len() && found.is_none()
                invariant
                    i <= layers@.len(),
                    want@ == name@,
                    found is None ==> forall|j: int| 0 <= j < i ==> (#[trigger] layers@[j]).0@ != name@,
                    found matches Some(k) ==> k < layers@.len() && layers@[k as int].0@ == name@
                        && forall|j: int| 0 <= j < k ==> (#[trigger] layers@[j]).0@ != name@,
                decreases layers@.len() - i + if found is None { 1int } else { 0int },
            {
                if layers[i].0 == want {
                    found = Some(i);
                } else {
                    i += 1;
                }
            }
            match found {
                Some(k) => layers[k].1,
                None => {
                    let mut why = String::from_str("the graph has no layer named ");
                    let quoted = debugged(name);
                    why.append(quoted.as_str());
                    return Err(why);
                }
            }
        }
        None => match output {
            Some(id) => id,
            None => return Err(String::from_str("the graph's output has no color layer")),
        },
    };
    Ok(match target.shape {
        Shape::Volume(n) => Pass::ScalarVolume { layer, n, format },
        Shape::Cube(n) => Pass::ScalarCube { layer, n, format },
        Shape::Plane(n) => Pass::ScalarPlane { layer, n, format },
    })
}

/// A bake asked for: the graph, its global seed, its parameters bound, what it fills, and the
/// image it lands in.
pub struct Request<P> {
    pub graph: u64,
    pub seed: u32,
    pub params: P,
    pub target: Target,
    pub image: u64,
}

/// Bakes asked of each image, one more.
pub open spec fn requested(m: Map<u64, nat>, image: u64) -> Map<u64, nat> {
    m.insert(image, if m.contains_key(image) { m[image] + 1 } else { 1 })
}

/// One bake of `image` landed or failed: one fewer outstanding, and none is none.
pub open spec fn settled_once(m: Map<u64, nat>, image: u64) -> Map<u64, nat> {
    if !m.contains_key(image) { m }
    else if m[image] <= 1 { m.remove(image) }
    else { m.insert(image, (m[image] - 1) as nat) }
}

/// The requests of `q` for none of `images`, in order.
pub open spec fn without<P>(q: Seq<Request<P>>, images: Seq<u64>) -> Seq<Request<P>>
    decreases q.len(),
{
    if q.len() == 0 { q } else {
        let rest = without(q.drop_last(), images);
        if images.contains(q.last().image) { rest } else { rest.push(q.last()) }
    }
}

/// How far a bake taken from the queue got: its graph failed to load, is still loading, or
/// loaded and the baker started it or refused its plan.
#[derive(Clone, Copy, Debug, PartialEq, Eq, Structural)]
pub enum Outcome {
    GraphFailed,
    GraphLoading,
    Started,
    Refused,
}

/// Bakes waiting on their graph or the device, and how many of each image's bakes have not yet
/// landed or failed.
pub struct Bakes<P> {
    waiting: Vec<Request<P>>,
    unsettled: Counts,
}

impl<P> Bakes<P> {
    pub closed spec fn wf(&self) -> bool {
        self.unsettled.wf()
    }

    /// How many bakes of each image are outstanding; an image absent has none.
    pub closed spec fn outstanding(&self) -> Map<u64, nat> {
        self.unsettled.view()
    }

    /// The bakes waiting to start, in the order they were asked for.
    pub closed spec fn queue(&self) -> Seq<Request<P>> {
        self.waiting@
    }

    /// Each count is at least one.
    pub proof fn lemma_outstanding(&self, image: u64)
        requires self.wf(), self.outstanding().contains_key(image),
        ensures self.outstanding()[image] >= 1,
    {
        self.unsettled.lemma_positive(image);
    }

    pub fn new() -> (r: Self)
        ensures r.wf(), r.outstanding() == Map::<u64, nat>::empty(), r.queue() == Seq::<Request<P>>::empty(),
    {
        Bakes { waiting: Vec::new(), unsettled: Counts::new() }
    }

    /// Bake `graph` into `image`, with `seed` as the graph's global seed and `params` bound.
    pub fn request_with(&mut self, graph: u64, seed: u32, params: P, target: Target, image: u64)
        requires
            old(self).wf(),
            !old(self).outstanding().contains_key(image) || old(self).outstanding()[image] < u32::MAX,
        ensures
            final(self).wf(),
            final(self).queue() == old(self).queue().push(Request { graph, seed, params, target, image }),
            final(self).outstanding() == requested(old(self).outstanding(), image),
    {
        self.unsettled.increment(image);
        self.waiting.push(Request { graph, seed, params, target, image });
    }

    /// Drop what is still waiting to bake into `images`, whose owner no longer wants them, and
    /// count them settled. A bake already under way lands anyway, into an image nothing holds.
    pub fn forget(&mut self, images: &[u64])
        requires old(self).wf(),
        ensures
            final(self).wf(),
            final(self).queue() == without(old(self).queue(), images@),
            final(self).outstanding() == old(self).outstanding().remove_keys(images@.to_set()),
    {
        let mut pending: Vec<Request<P>> = Vec::new();
        std::mem::swap(&mut pending, &mut self.waiting);
        let ghost q0 = pending@;
        let total = pending.len();
        let ghost m0 = self.unsettled.view();
        let mut taken: usize = 0;
        while pending.len() > 0
            invariant
                q0 == old(self).waiting@,
                self.unsettled == old(self).unsettled,
                taken + pending@.len() == q0.len(),
                q0.len() == total,
                pending@ == q0.subrange(taken as int, q0.len() as int),
                self.waiting@ == without(q0.subrange(0, taken as int), images@),
            decreases pending@.len(),
        {
            let ghost head = pending@[0];
            let request = pending.remove(0);
            proof { assert(request == q0[taken as int]); }
            let mut wanted = true;
            let mut k: usize = 0;
            while k < images.len()
                invariant
                    k <= images@.len(),
                    wanted == !images@.subrange(0, k as int).contains(request.image),
                decreases images@.len() - k,
            {
                if images[k] == request.image {
                    wanted = false;
                }
                proof {
                    let s1 = images@.subrange(0, k as int + 1);
                    assert(s1 =~= images@.subrange(0, k as int).push(images@[k as int]));
                    if images@.subrange(0, k as int).contains(request.image) {
                        let j = choose|j: int| 0 <= j < k && images@.subrange(0, k as int)[j] == request.image;
                        assert(s1[j] == request.image);
                    }
                    if s1.contains(request.image) && images@[k as int] != request.image {
                        let j = choose|j: int| 0 <= j < k + 1 && s1[j] == request.image;
                        assert(images@.subrange(0, k as int)[j] == request.image);
                    }
                    if images@[k as int] == request.image { assert(s1[k as int] == request.image); }
                }
                k += 1;
            }
            proof {
                assert(images@.subrange(0, images@.len() as int) =~= images@);
                let done = q0.subrange(0, taken as int + 1);
                assert(done.drop_last() =~= q0.subrange(0, taken as int));
                assert(done.last() == request);
            }
            if wanted {
                self.waiting.push(request);
            }
            taken += 1;
            proof {
                assert(pending@ =~= q0.subrange(taken as int, q0.len() as int));
            }
        }
        proof { assert(q0.subrange(0, q0.len() as int) =~= q0); }
        let ghost q_final = self.waiting@;
        let mut k: usize = 0;
        while k < images.len()
            invariant
                k <= images@.len(),
                self.unsettled.wf(),
                self.unsettled.view() == m0.remove_keys(images@.subrange(0, k as int).to_set()),
                m0 == old(self).unsettled.view(),
                self.waiting@ == q_final,
            decreases images@.len() - k,
        {
            self.unsettled.clear(images[k]);
            proof {
                assert(images@.subrange(0, k as int + 1).to_set() =~= images@.subrange(0, k as int).to_set().insert(images@[k as int])) by {
                    let s1 = images@.subrange(0, k as int + 1);
                    let s0 = images@.subrange(0, k as int);
                    assert forall|x: u64| s1.to_set().contains(x) <==> s0.to_set().insert(images@[k as int]).contains(x) by {
                        if s1.contains(x) {
                            let j = choose|j: int| 0 <= j < s1.len() && s1[j] == x;
                            if j < k { assert(s0[j] == x); }
                        }
                        if s0.contains(x) {
                            let j = choose|j: int| 0 <= j < s0.len() && s0[j] == x;
                            assert(s1[j] == x);
                        }
                        if x == images@[k as int] { assert(s1[k as int] == x); }
                    }
                }
                assert(self.unsettled.view() =~= m0.remove_keys(images@.subrange(0, k as int + 1).to_set()));
            }
            k += 1;
        }
        proof { assert(images@.subrange(0, images@.len() as int) =~= images@); }
    }

    /// Whether every bake asked of `image` has landed or failed. Bakes of one image land in the
    /// order they were asked for, so the image then holds the last.
    pub fn settled(&self, image: u64) -> (r: bool)
        requires self.wf(),
        ensures r == !self.outstanding().contains_key(image),
    {
        let c = self.unsettled.get(image);
        proof { if self.outstanding().contains_key(image) { self.unsettled.lemma_positive(image); } }
        c == 0
    }

    /// One bake of `image` landed or failed.
    pub fn settle(&mut self, image: u64)
        requires old(self).wf(),
        ensures
            final(self).wf(),
            final(self).queue() == old(self).queue(),
            final(self).outstanding() == settled_once(old(self).outstanding(), image),
    {
        proof { if self.outstanding().contains_key(image) { self.unsettled.lemma_positive(image); } }
        self.unsettled.decrement(image);
    }

    /// The bakes waiting, in order.
    pub fn waiting(&self) -> (r: &Vec<Request<P>>)
        ensures r@ == self.queue(),
    {
        &self.waiting
    }

    /// Every bake waiting, taken to be started; the ones that cannot start yet go back with
    /// [`Bakes::wait_again`].
    pub fn take_waiting(&mut self) -> (r: Vec<Request<P>>)
        requires old(self).wf(),
        ensures
            final(self).wf(),
            r@ == old(self).queue(),
            final(self).queue() == Seq::<Request<P>>::empty(),
            final(self).outstanding() == old(self).outstanding(),
    {
        let mut taken: Vec<Request<P>> = Vec::new();
        std::mem::swap(&mut taken, &mut self.waiting);
        taken
    }

    /// What becomes of a bake taken from the queue: one whose graph failed to load, or whose
    /// plan the baker refused, is settled, drawn without; one whose graph is still loading waits
    /// again, at the back; one started is handed back, to be read when the device has it.
    pub fn dispose(&mut self, request: Request<P>, outcome: Outcome) -> (reading: Option<Request<P>>)
        requires old(self).wf(),
        ensures
            final(self).wf(),
            match outcome {
                Outcome::GraphFailed | Outcome::Refused => {
                    &&& reading is None
                    &&& final(self).queue() == old(self).queue()
                    &&& final(self).outstanding() == settled_once(old(self).outstanding(), request.image)
                },
                Outcome::GraphLoading => {
                    &&& reading is None
                    &&& final(self).queue() == old(self).queue().push(request)
                    &&& final(self).outstanding() == old(self).outstanding()
                },
                Outcome::Started => {
                    &&& reading == Some(request)
                    &&& final(self).queue() == old(self).queue()
                    &&& final(self).outstanding() == old(self).outstanding()
                },
            },
    {
        match outcome {
            Outcome::GraphFailed | Outcome::Refused => {
                self.settle(request.image);
                None
            },
            Outcome::GraphLoading => {
                self.wait_again(request);
                None
            },
            Outcome::Started => Some(request),
        }
    }

    /// A bake whose graph has not loaded yet waits again, at the back.
    pub fn wait_again(&mut self, request: Request<P>)
        requires old(self).wf(),
        ensures
            final(self).wf(),
            final(self).queue() == old(self).queue().push(request),
            final(self).outstanding() == old(self).outstanding(),
    {
        self.waiting.push(request);
    }
}

impl<Q> Bakes<Vec<Q>> {
    /// Bake `graph` into `image`, with `seed` as the graph's global seed and no parameters bound.
    pub fn request(&mut self, graph: u64, seed: u32, target: Target, image: u64)
        requires
            old(self).wf(),
            !old(self).outstanding().contains_key(image) || old(self).outstanding()[image] < u32::MAX,
        ensures
            final(self).wf(),
            final(self).queue().len() == old(self).queue().len() + 1,
            final(self).queue().subrange(0, old(self).queue().len() as int) == old(self).queue(),
            final(self).queue().last().graph == graph,
            final(self).queue().last().seed == seed,
            final(self).queue().last().params@ == Seq::<Q>::empty(),
            final(self).queue().last().target == target,
            final(self).queue().last().image == image,
            final(self).outstanding() == requested(old(self).outstanding(), image),
    {
        self.request_with(graph, seed, Vec::new(), target, image);
        proof { assert(self.queue().subrange(0, old(self).queue().len() as int) =~= old(self).queue()); }
    }
}

/// Asking for a bake and its landing leave an image's count as it was.
pub proof fn law_settle_undoes_request(m: Map<u64, nat>, image: u64)
    requires forall|k: u64| #[trigger] m.contains_key(k) ==> m[k] >= 1,
    ensures settled_once(requested(m, image), image) == m,
{
    if m.contains_key(image) {
        assert(settled_once(requested(m, image), image) =~= m);
    } else {
        assert(settled_once(requested(m, image), image) =~= m);
    }
}

/// A forgotten image counts as settled, and nothing waits to bake into it.
pub proof fn law_forgotten_is_settled<P>(q: Seq<Request<P>>, m: Map<u64, nat>, images: Seq<u64>, image: u64)
    requires images.contains(image),
    ensures
        !m.remove_keys(images.to_set()).contains_key(image),
        forall|j: int| 0 <= j < without(q, images).len() ==> (#[trigger] without(q, images)[j]).image != image,
    decreases q.len(),
{
    if q.len() > 0 {
        law_forgotten_is_settled(q.drop_last(), m, images, image);
        let rest = without(q.drop_last(), images);
        assert forall|j: int| 0 <= j < without(q, images).len() implies (#[trigger] without(q, images)[j]).image != image by {
            if !images.contains(q.last().image) && j == rest.len() {
                assert(without(q, images)[j] == q.last());
            } else {
                assert(without(q, images)[j] == rest[j]);
            }
        }
    }
}

} // verus!
