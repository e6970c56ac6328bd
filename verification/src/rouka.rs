//! rouka (廊下): the typed presentation route.
//!
//! By what route do a surface's pixels reach the display, what does that
//! route require, and what does it cost? A capability cannot be advertised
//! unless the route serving it costs the CPU zero bytes (`Advertisement` has
//! no public constructor), a route cannot name a plane that was not proven
//! scanout-capable (`PlaneLease` has none either), and cost is stated in
//! bytes and nothing else.

use vstd::prelude::*;
use vstd::string::StringExecFns;
use crate::text::{decimal, push_decimal};

verus! {

/// Why a route had to fall back to moving pixels through the CPU.
#[derive(Debug, Clone, Copy, PartialEq, Eq, Structural)]
pub enum ReadbackReason {
    /// The compositor has no GPU renderer.
    CompositorIsCpu,
    /// Client and compositor share no format/modifier both can address.
    NoSharedFormat,
}

impl ReadbackReason {
    /// The reason in words.
    pub fn to_string(&self) -> (s: String)
        ensures
            s@ == match self {
                ReadbackReason::CompositorIsCpu => "the compositor has no GPU renderer"@,
                ReadbackReason::NoSharedFormat => "no format both sides can address"@,
            },
    {
        match self {
            ReadbackReason::CompositorIsCpu => String::from_str("the compositor has no GPU renderer"),
            ReadbackReason::NoSharedFormat => String::from_str("no format both sides can address"),
        }
    }
}

/// A display plane, proven scanout-capable and exclusively held. There is no
/// public constructor and it is not `Copy`: the only way to hold one is
/// [`PlaneTable::lease`], and handing it to one route moves it out of any
/// other.
#[derive(Debug, PartialEq, Eq)]
pub struct PlaneLease {
    id: u32,
}

impl View for PlaneLease {
    type V = u32;

    closed spec fn view(&self) -> u32 {
        self.id
    }
}

impl PlaneLease {
    /// The plane's KMS object id.
    pub fn id(&self) -> (r: u32)
        ensures
            r == self@,
    {
        self.id
    }
}

/// What a surface needs in order to be routed.
#[derive(Debug, Clone, Copy, PartialEq, Eq, Structural)]
pub struct Requirement {
    /// FourCC of the client's buffer.
    pub fourcc: u32,
    /// DRM format modifier.
    pub modifier: u64,
    /// Bytes the surface occupies.
    pub bytes: u64,
}

/// Where plane availability comes from: hardware state, injected rather than
/// read, so the route decision can be exercised against a stand-in.
pub trait PlaneSource {
    /// The plane a lease for `req` takes from this state, if any.
    spec fn offers(&self, req: Requirement) -> Option<u32>;

    /// Whether `next` is this state once a lease for `req` has been asked:
    /// the offered plane gone, or nothing changed when none is offered.
    spec fn leased(&self, next: &Self, req: Requirement) -> bool;

    /// Lease a plane able to scan out `req`, or `None` if none can: the
    /// plane this state offers for it, taken out of the state.
    fn lease(&mut self, req: &Requirement) -> (r: Option<PlaneLease>)
        ensures
            match r {
                Some(l) => old(self).offers(*req) == Some(l@),
                None => old(self).offers(*req) is None,
            },
            old(self).leased(final(self), *req),
    ;
}

/// A table of real KMS planes: the free ones, each with the (fourcc,
/// modifier) pairs it can scan out.
pub struct PlaneTable {
    free: Vec<(u32, Vec<(u32, u64)>)>,
}

impl View for PlaneTable {
    type V = Seq<(u32, Seq<(u32, u64)>)>;

    closed spec fn view(&self) -> Seq<(u32, Seq<(u32, u64)>)> {
        self.free@.map_values(|p: (u32, Vec<(u32, u64)>)| (p.0, p.1@))
    }
}

/// Plane `i` is the first in the table able to scan out `pair`.
pub open spec fn first_capable(free: Seq<(u32, Seq<(u32, u64)>)>, pair: (u32, u64), i: int) -> bool {
    &&& 0 <= i < free.len()
    &&& free[i].1.contains(pair)
    &&& forall|j: int| 0 <= j < i ==> !(#[trigger] free[j]).1.contains(pair)
}

impl PlaneTable {
    /// Build from probed hardware: `(plane_id, supported (fourcc, modifier))`.
    pub fn new(planes: Vec<(u32, Vec<(u32, u64)>)>) -> (t: Self)
        ensures
            t@ == planes@.map_values(|p: (u32, Vec<(u32, u64)>)| (p.0, p.1@)),
    {
        PlaneTable { free: planes }
    }

    /// How many planes remain unleased.
    pub fn free_count(&self) -> (n: usize)
        ensures
            n == self@.len(),
    {
        self.free.len()
    }

    /// Lease the first plane able to scan out `req`, removing it from the
    /// table, or `None` (and the table untouched) when no plane can.
    pub fn lease(&mut self, req: &Requirement) -> (r: Option<PlaneLease>)
        ensures
            match r {
                None => {
                    &&& final(self)@ == old(self)@
                    &&& forall|j: int|
                        0 <= j < old(self)@.len() ==> !(#[trigger] old(self)@[j]).1.contains(
                            (req.fourcc, req.modifier),
                        )
                },
                Some(l) => exists|i: int|
                    first_capable(old(self)@, (req.fourcc, req.modifier), i) && final(self)@
                        == old(self)@.remove(i) && l@ == (#[trigger] old(self)@[i]).0,
            },
    {
        let ghost pair = (req.fourcc, req.modifier);
        let mut i: usize = 0;
        while i < self.free.len()
            invariant
                i <= self@.len(),
                self@ == old(self)@,
                pair == (req.fourcc, req.modifier),
                forall|j: int| 0 <= j < i ==> !(#[trigger] self@[j]).1.contains(pair),
            decreases self@.len() - i,
        {
            proof {
                assert(self@[i as int] == (self.free@[i as int].0, self.free@[i as int].1@));
            }
            if caps_contain(&self.free[i].1, req.fourcc, req.modifier) {
                let ghost before = self@;
                let (id, _) = self.free.remove(i);
                proof {
                    assert(self@ =~= before.remove(i as int));
                    assert(first_capable(before, pair, i as int));
                }
                return Some(PlaneLease { id });
            }
            i = i + 1;
        }
        None
    }
}

impl Default for PlaneTable {
    /// A table with no planes: every route falls back.
    fn default() -> (t: Self)
        ensures
            t@ == Seq::<(u32, Seq<(u32, u64)>)>::empty(),
    {
        let t = PlaneTable { free: Vec::new() };
        proof {
            assert(t@ =~= Seq::<(u32, Seq<(u32, u64)>)>::empty());
        }
        t
    }
}

/// The first plane in the table able to scan out `pair` is unique.
proof fn lemma_first_capable_unique(free: Seq<(u32, Seq<(u32, u64)>)>, pair: (u32, u64), i: int, j: int)
    requires
        first_capable(free, pair, i),
        first_capable(free, pair, j),
    ensures
        i == j,
{
    if i < j {
        assert(!free[i].1.contains(pair));
    } else if j < i {
        assert(!free[j].1.contains(pair));
    }
}

/// A lease takes exactly the plane it hands out: the table loses one plane
/// when a plane is offered, and is left as it was when none is, so one plane
/// never backs two surfaces.
pub proof fn lemma_lease_takes_one(t: PlaneTable, next: PlaneTable, req: Requirement)
    requires
        t.leased(&next, req),
    ensures
        next@.len() == (if t.offers(req) is Some {
            t@.len() - 1
        } else {
            t@.len() as int
        }),
        t.offers(req) is None ==> next@ == t@,
{
    let pair = (req.fourcc, req.modifier);
    if exists|i: int| first_capable(t@, pair, i) {
        let i = choose|i: int| first_capable(t@, pair, i);
        assert(0 <= i < t@.len());
    }
}

impl PlaneSource for PlaneTable {
    /// The first plane in the table able to scan out the request's format.
    open spec fn offers(&self, req: Requirement) -> Option<u32> {
        let pair = (req.fourcc, req.modifier);
        if exists|i: int| first_capable(self@, pair, i) {
            Some(self@[choose|i: int| first_capable(self@, pair, i)].0)
        } else {
            None
        }
    }

    /// The first capable plane removed; the table unchanged when none is.
    open spec fn leased(&self, next: &Self, req: Requirement) -> bool {
        let pair = (req.fourcc, req.modifier);
        if exists|i: int| first_capable(self@, pair, i) {
            next@ == self@.remove(choose|i: int| first_capable(self@, pair, i))
        } else {
            next@ == self@
        }
    }

    /// Lease the first plane able to scan out `req`, removing it from the
    /// table, or `None` (and the table untouched) when no plane can.
    fn lease(&mut self, req: &Requirement) -> (r: Option<PlaneLease>)
        ensures
            match r {
                None => final(self)@ == old(self)@,
                Some(l) => exists|i: int|
                    first_capable(old(self)@, (req.fourcc, req.modifier), i) && final(self)@
                        == old(self)@.remove(i) && l@ == (#[trigger] old(self)@[i]).0,
            },
    {
        let r = PlaneTable::lease(self, req);
        proof {
            let pair = (req.fourcc, req.modifier);
            match &r {
                Some(l) => {
                    let i = choose|i: int|
                        first_capable(old(self)@, pair, i) && final(self)@ == old(self)@.remove(i) && l@
                            == (#[trigger] old(self)@[i]).0;
                    let k = choose|k: int| first_capable(old(self)@, pair, k);
                    lemma_first_capable_unique(old(self)@, pair, i, k);
                },
                None => {
                    assert(!exists|i: int| first_capable(old(self)@, pair, i));
                },
            }
        }
        r
    }
}

fn caps_contain(caps: &Vec<(u32, u64)>, fourcc: u32, modifier: u64) -> (r: bool)
    ensures
        r <==> caps@.contains((fourcc, modifier)),
{
    let mut k: usize = 0;
    while k < caps.len()
        invariant
            k <= caps@.len(),
            forall|j: int| 0 <= j < k ==> caps@[j] != (fourcc, modifier),
        decreases caps@.len() - k,
    {
        if caps[k].0 == fourcc && caps[k].1 == modifier {
            proof {
                assert(caps@[k as int] == (fourcc, modifier));
            }
            return true;
        }
        k = k + 1;
    }
    false
}

/// How a surface's pixels reach the display.
#[derive(Debug, PartialEq, Eq)]
pub enum Route {
    /// KMS scans the client's buffer out of a plane; nobody touches the pixels.
    DirectScanout { plane: PlaneLease },
    /// Imported and composited by a GPU renderer: bandwidth, but no CPU copy.
    GpuComposited { bytes: u64 },
    /// Mapped into system memory and copied.
    CpuReadback { reason: ReadbackReason, bytes: u64 },
}

/// What a route costs, in bytes the CPU must move per frame.
#[derive(Debug, Clone, Copy, PartialEq, Eq, Structural)]
pub struct Cost {
    /// Bytes the CPU moves per frame on this route.
    pub cpu_bytes_per_frame: u64,
}

impl Cost {
    /// True when the CPU moves no pixels at all.
    pub fn is_zero_copy(&self) -> (b: bool)
        ensures
            b <==> self.cpu_bytes_per_frame == 0,
    {
        self.cpu_bytes_per_frame == 0
    }
}

/// CPU bytes per frame on a route: everything for a readback, nothing for
/// the other two.
pub open spec fn route_cost(r: Route) -> u64 {
    match r {
        Route::DirectScanout { .. } => 0,
        Route::GpuComposited { .. } => 0,
        Route::CpuReadback { bytes, .. } => bytes,
    }
}

pub open spec fn route_label(r: Route) -> &'static str {
    match r {
        Route::DirectScanout { .. } => "direct-scanout",
        Route::GpuComposited { .. } => "gpu-composited",
        Route::CpuReadback { .. } => "cpu-readback",
    }
}

impl Route {
    /// This route's cost.
    pub fn cost(&self) -> (c: Cost)
        ensures
            c.cpu_bytes_per_frame == route_cost(*self),
    {
        Cost {
            cpu_bytes_per_frame: match self {
                Route::DirectScanout { .. } => 0,
                Route::GpuComposited { .. } => 0,
                Route::CpuReadback { bytes, .. } => *bytes,
            },
        }
    }

    /// A short stable label for recording which route a frame took.
    pub fn label(&self) -> (l: &'static str)
        ensures
            l == route_label(*self),
    {
        match self {
            Route::DirectScanout { .. } => "direct-scanout",
            Route::GpuComposited { .. } => "gpu-composited",
            Route::CpuReadback { .. } => "cpu-readback",
        }
    }
}

/// Refusals; every variant names what was attempted.
#[derive(Debug, PartialEq, Eq)]
pub enum RoukaError {
    /// A promise we cannot keep.
    PromisedWhatWeServeBadly {
        /// The label of the offending route.
        route: &'static str,
        /// What the CPU would move per frame if we kept the promise.
        cpu_bytes_per_frame: u64,
    },
}

impl RoukaError {
    /// The refusal in words, naming the route and the byte count.
    pub fn to_string(&self) -> (s: String)
        ensures
            match self {
                RoukaError::PromisedWhatWeServeBadly { route, cpu_bytes_per_frame } => s@
                    == "refusing to advertise a capability served by `"@ + route@
                    + "`: it moves "@ + decimal(*cpu_bytes_per_frame as nat)
                    + " CPU bytes per frame. A protocol global is a PROMISE about what we do well, and a client cannot discover that our implementation is a readback \u{2014} it optimises for the promise."@,
            },
    {
        match self {
            RoukaError::PromisedWhatWeServeBadly { route, cpu_bytes_per_frame } => {
                let mut s = String::from_str("refusing to advertise a capability served by `");
                s.append(route);
                s.append("`: it moves ");
                push_decimal(&mut s, *cpu_bytes_per_frame);
                s.append(
                    " CPU bytes per frame. A protocol global is a PROMISE about what we do well, and a client cannot discover that our implementation is a readback \u{2014} it optimises for the promise.",
                );
                s
            },
        }
    }
}

/// A protocol capability we are willing to promise to clients. The only way
/// to obtain one is [`Advertisement::try_promise`].
#[derive(Debug, PartialEq, Eq)]
pub struct Advertisement(Route);

impl View for Advertisement {
    type V = Route;

    closed spec fn view(&self) -> Route {
        self.0
    }
}

impl Advertisement {
    /// Every advertisement is backed by a route that moves no CPU bytes.
    #[verifier::type_invariant]
    spec fn zero_copy(self) -> bool {
        route_cost(self.0) == 0
    }

    /// Promise a capability if and only if the route serving it is zero-copy.
    pub fn try_promise(route: Route) -> (r: Result<Self, RoukaError>)
        ensures
            route_cost(route) == 0 ==> (r matches Ok(a) && a@ == route),
            route_cost(route) != 0 ==> r == Err::<Advertisement, RoukaError>(
                RoukaError::PromisedWhatWeServeBadly {
                    route: route_label(route),
                    cpu_bytes_per_frame: route_cost(route),
                },
            ),
    {
        let cost = route.cost();
        if cost.is_zero_copy() {
            Ok(Advertisement(route))
        } else {
            Err(
                RoukaError::PromisedWhatWeServeBadly {
                    route: route.label(),
                    cpu_bytes_per_frame: cost.cpu_bytes_per_frame,
                },
            )
        }
    }

    /// The route backing this promise.
    pub fn route(&self) -> (r: &Route)
        ensures
            *r == self@,
            route_cost(*r) == 0,
    {
        proof {
            use_type_invariant(self);
        }
        &self.0
    }
}

/// The route for a surface once the plane source has answered: direct
/// scanout on the leased plane, else a readback that names its reason.
pub fn route_for(lease: Option<PlaneLease>, req: &Requirement, cpu_composited: bool) -> (r: Route)
    ensures
        match lease {
            Some(p) => r == Route::DirectScanout { plane: p },
            None => r == Route::CpuReadback {
                reason: if cpu_composited {
                    ReadbackReason::CompositorIsCpu
                } else {
                    ReadbackReason::NoSharedFormat
                },
                bytes: req.bytes,
            },
        },
{
    match lease {
        Some(plane) => Route::DirectScanout { plane },
        None => Route::CpuReadback {
            reason: if cpu_composited {
                ReadbackReason::CompositorIsCpu
            } else {
                ReadbackReason::NoSharedFormat
            },
            bytes: req.bytes,
        },
    }
}

/// Choose the best available route for a surface: direct scanout when the
/// source leases a plane for `req`, otherwise a readback of `req.bytes`.
pub fn choose_route<S: PlaneSource>(source: &mut S, req: &Requirement, cpu_composited: bool) -> (r: Route)
    ensures
        old(source).leased(final(source), *req),
        match old(source).offers(*req) {
            Some(id) => r matches Route::DirectScanout { plane } && plane@ == id,
            None => r == (Route::CpuReadback {
                reason: if cpu_composited {
                    ReadbackReason::CompositorIsCpu
                } else {
                    ReadbackReason::NoSharedFormat
                },
                bytes: req.bytes,
            }),
        },
{
    let lease = source.lease(req);
    route_for(lease, req, cpu_composited)
}

/// A candidate surface for direct scanout, in output-physical pixels.
#[derive(Debug, Clone, Copy, PartialEq, Eq, Structural)]
pub struct Candidate {
    pub x: i32,
    pub y: i32,
    pub w: i32,
    pub h: i32,
    /// Buffer dimensions; differing from `w`/`h` means the compositor scales.
    pub buffer_w: i32,
    pub buffer_h: i32,
    /// Whether every pixel is opaque.
    pub opaque: bool,
}

/// Why a candidate cannot be scanned out.
#[derive(Debug, Clone, Copy, PartialEq, Eq, Structural)]
pub enum Ineligible {
    /// No plane advertises this (fourcc, modifier).
    UnsupportedFormat,
    /// Destination differs from buffer size.
    Scaled,
    /// Something the compositor draws lands on top of this rectangle.
    Occluded,
    /// Translucent, so what shows through the plane would be wrong.
    Translucent,
    /// Degenerate geometry.
    Empty,
}

/// A non-empty occluder `(x, y, w, h)` shares at least one pixel with the
/// candidate; edges that merely touch share none.
pub open spec fn occludes(o: (i32, i32, i32, i32), c: Candidate) -> bool {
    &&& o.2 > 0
    &&& o.3 > 0
    &&& o.0 < c.x + c.w
    &&& o.0 + o.2 > c.x
    &&& o.1 < c.y + c.h
    &&& o.1 + o.3 > c.y
}

pub open spec fn eligibility(
    c: Candidate,
    req: Requirement,
    occluders: Seq<(i32, i32, i32, i32)>,
    formats: Seq<(u32, u64)>,
) -> Result<(), Ineligible> {
    if c.w <= 0 || c.h <= 0 {
        Err(Ineligible::Empty)
    } else if !c.opaque {
        Err(Ineligible::Translucent)
    } else if c.w != c.buffer_w || c.h != c.buffer_h {
        Err(Ineligible::Scaled)
    } else if !formats.contains((req.fourcc, req.modifier)) {
        Err(Ineligible::UnsupportedFormat)
    } else if exists|i: int| 0 <= i < occluders.len() && occludes(#[trigger] occluders[i], c) {
        Err(Ineligible::Occluded)
    } else {
        Ok(())
    }
}

/// A surface may go to a plane exactly when it is non-empty, opaque, shown
/// at its buffer's own size, in a (format, modifier) pair some plane
/// advertises as that exact pair, and nothing the compositor draws overlaps
/// it. A plane that takes the format only under another modifier does not
/// qualify.
pub proof fn lemma_plane_eligibility(
    c: Candidate,
    req: Requirement,
    occluders: Seq<(i32, i32, i32, i32)>,
    formats: Seq<(u32, u64)>,
)
    ensures
        eligibility(c, req, occluders, formats) is Ok <==> ({
            &&& c.w > 0 && c.h > 0
            &&& c.opaque
            &&& c.w == c.buffer_w && c.h == c.buffer_h
            &&& exists|k: int| 0 <= k < formats.len() && #[trigger] formats[k] == (req.fourcc, req.modifier)
            &&& forall|i: int|
                0 <= i < occluders.len() ==> !({
                    let o = #[trigger] occluders[i];
                    o.2 > 0 && o.3 > 0 && o.0 < c.x + c.w && c.x < o.0 + o.2 && o.1 < c.y + c.h && c.y
                        < o.1 + o.3
                })
        }),
        eligibility(c, req, occluders, formats) is Ok ==> formats.contains((req.fourcc, req.modifier)),
        c.w > 0 && c.h > 0 && c.opaque && c.w == c.buffer_w && c.h == c.buffer_h && !formats.contains(
            (req.fourcc, req.modifier),
        ) ==> eligibility(c, req, occluders, formats) == Err::<(), Ineligible>(Ineligible::UnsupportedFormat),
{
    if formats.contains((req.fourcc, req.modifier)) {
        let k = choose|k: int| 0 <= k < formats.len() && formats[k] == (req.fourcc, req.modifier);
        assert(formats[k] == (req.fourcc, req.modifier));
    }
    if exists|i: int| 0 <= i < occluders.len() && occludes(#[trigger] occluders[i], c) {
        let i = choose|i: int| 0 <= i < occluders.len() && occludes(#[trigger] occluders[i], c);
        assert(occludes(occluders[i], c));
    }
}

/// Decide whether `cand` may be handed to a plane, given what the compositor
/// itself draws on top; the checks run in the order empty, translucent,
/// scaled, format, occluded.
pub fn eligible_for_plane(
    cand: &Candidate,
    req: &Requirement,
    occluders: &[(i32, i32, i32, i32)],
    plane_formats: &[(u32, u64)],
) -> (r: Result<(), Ineligible>)
    ensures
        r == eligibility(*cand, *req, occluders@, plane_formats@),
        r is Ok ==> plane_formats@.contains((req.fourcc, req.modifier)),
{
    if cand.w <= 0 || cand.h <= 0 {
        return Err(Ineligible::Empty);
    }
    if !cand.opaque {
        return Err(Ineligible::Translucent);
    }
    if cand.w != cand.buffer_w || cand.h != cand.buffer_h {
        return Err(Ineligible::Scaled);
    }
    if !pairs_contain(plane_formats, req.fourcc, req.modifier) {
        return Err(Ineligible::UnsupportedFormat);
    }
    let l = cand.x as i64;
    let t = cand.y as i64;
    let r = cand.x as i64 + cand.w as i64;
    let b = cand.y as i64 + cand.h as i64;
    let mut i: usize = 0;
    while i < occluders.len()
        invariant
            i <= occluders@.len(),
            l == cand.x && t == cand.y && r == cand.x + cand.w && b == cand.y + cand.h,
            forall|j: int| 0 <= j < i ==> !occludes(#[trigger] occluders@[j], *cand),
            plane_formats@.contains((req.fourcc, req.modifier)),
            cand.w > 0 && cand.h > 0 && cand.opaque,
            cand.w == cand.buffer_w && cand.h == cand.buffer_h,
        decreases occluders@.len() - i,
    {
        let (ox, oy, ow, oh) = occluders[i];
        if ow > 0 && oh > 0 {
            let ox = ox as i64;
            let oy = oy as i64;
            if ox < r && ox + ow as i64 > l && oy < b && oy + oh as i64 > t {
                proof {
                    assert(occludes(occluders@[i as int], *cand));
                    assert(exists|j: int|
                        0 <= j < occluders@.len() && occludes(#[trigger] occluders@[j], *cand));
                }
                return Err(Ineligible::Occluded);
            }
        }
        i = i + 1;
    }
    Ok(())
}

fn pairs_contain(pairs: &[(u32, u64)], fourcc: u32, modifier: u64) -> (r: bool)
    ensures
        r <==> pairs@.contains((fourcc, modifier)),
{
    let mut k: usize = 0;
    while k < pairs.len()
        invariant
            k <= pairs@.len(),
            forall|j: int| 0 <= j < k ==> pairs@[j] != (fourcc, modifier),
        decreases pairs@.len() - k,
    {
        if pairs[k].0 == fourcc && pairs[k].1 == modifier {
            proof {
                assert(pairs@[k as int] == (fourcc, modifier));
            }
            return true;
        }
        k = k + 1;
    }
    false
}

} // verus!
