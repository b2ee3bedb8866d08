//! Coordinate space, solar systems and gates.
//!
//! Every solar system has its own local coordinate origin; positions are held
//! in metres on each axis so that all kinematics can be integrated exactly.
//! A galaxy is a flat store of systems and gates referenced by index; gate
//! records are created in pairs and later adopted into their owning system's
//! gate map by a dedicated registration pass.

use vstd::prelude::*;

verus! {

/// Greatest coordinate magnitude the simulation admits, in metres (3000 au).
pub const POS_LIMIT: i64 = 4_500_000_000_000;

/// Metres in one astronomical unit.
pub const METERS_PER_AU: i64 = 1_500_000_000;

/// Distance from a system's origin at which its gates stand, in metres (10 au).
pub const GATE_STANDOFF: i64 = 15_000_000_000;

/// Converts a length in astronomical units into simulation metres.
pub fn au_to_system(from: i64) -> (r: i64)
    requires
        -3000 <= from <= 3000,
    ensures
        r == from * METERS_PER_AU,
        -POS_LIMIT <= r <= POS_LIMIT,
{
    from * METERS_PER_AU
}

/// Position local to one solar system, in metres on each axis.
#[derive(Clone, Copy, PartialEq, Eq, Structural, Debug)]
pub struct SimPosition {
    pub x: i64,
    pub y: i64,
    pub z: i64,
}

impl SimPosition {
    /// Every coordinate stays within the admitted simulation volume.
    pub open spec fn wf(self) -> bool {
        &&& -POS_LIMIT <= self.x <= POS_LIMIT
        &&& -POS_LIMIT <= self.y <= POS_LIMIT
        &&& -POS_LIMIT <= self.z <= POS_LIMIT
    }

    /// Every coordinate stays at least `margin` metres inside the volume.
    pub open spec fn wf_within(self, margin: int) -> bool {
        &&& -POS_LIMIT + margin <= self.x <= POS_LIMIT - margin
        &&& -POS_LIMIT + margin <= self.y <= POS_LIMIT - margin
        &&& -POS_LIMIT + margin <= self.z <= POS_LIMIT - margin
    }
}

/// Squared Euclidean distance between two positions.
pub open spec fn dist_sq(a: SimPosition, b: SimPosition) -> int {
    (a.x - b.x) * (a.x - b.x) + (a.y - b.y) * (a.y - b.y) + (a.z - b.z) * (a.z - b.z)
}

/// `r` is the integer square root of `n`, rounded down.
pub open spec fn is_sqrt_floor(n: int, r: int) -> bool {
    &&& 0 <= r
    &&& r * r <= n
    &&& n < (r + 1) * (r + 1)
}

/// The floor square root is unique.
pub proof fn lemma_sqrt_floor_unique(n: int, a: int, b: int)
    requires
        is_sqrt_floor(n, a),
        is_sqrt_floor(n, b),
    ensures
        a == b,
{
    if a < b {
        assert((a + 1) * (a + 1) <= b * b) by (nonlinear_arith)
            requires 0 <= a && a + 1 <= b;
    }
    if b < a {
        assert((b + 1) * (b + 1) <= a * a) by (nonlinear_arith)
            requires 0 <= b && b + 1 <= a;
    }
}

/// Anything whose square is at most `n` is at most the floor square root of `n`.
pub proof fn lemma_sqrt_floor_lower(n: int, r: int, m: int)
    requires
        is_sqrt_floor(n, r),
        0 <= m,
        m * m <= n,
    ensures
        m <= r,
{
    if r < m {
        assert((r + 1) * (r + 1) <= m * m) by (nonlinear_arith)
            requires 0 <= r && r + 1 <= m;
    }
}

/// Integer square root by bisection.
fn isqrt128(n: u128) -> (r: u64)
    requires
        n < (1u128 << 126),
    ensures
        is_sqrt_floor(n as int, r as int),
{
    let mut lo: u128 = 0;
    let mut hi: u128 = 1u128 << 63;
    assert((1u128 << 63) * (1u128 << 63) == (1u128 << 126)) by (bit_vector);
    assert((1u128 << 63) == 9223372036854775808u128) by (bit_vector);
    while hi - lo > 1
        invariant
            lo < hi <= 9223372036854775808u128,
            lo * lo <= n,
            n < hi * hi,
        decreases hi - lo,
    {
        let mid = lo + (hi - lo) / 2;
        assert(lo < mid < hi);
        assert(mid * mid <= 9223372036854775807u128 * 9223372036854775807u128) by (nonlinear_arith)
            requires mid <= 9223372036854775807u128;
        if mid * mid <= n {
            lo = mid;
        } else {
            hi = mid;
        }
    }
    assert(hi == lo + 1);
    lo as u64
}

/// Squared distance, computed exactly in wide arithmetic.
fn dist_sq_exec(a: &SimPosition, b: &SimPosition) -> (s: u128)
    requires
        a.wf(),
        b.wf(),
    ensures
        s == dist_sq(*a, *b),
        s < (1u128 << 126),
{
    let dx: i128 = a.x as i128 - b.x as i128;
    let dy: i128 = a.y as i128 - b.y as i128;
    let dz: i128 = a.z as i128 - b.z as i128;
    assert(-9_000_000_000_000i128 <= dx <= 9_000_000_000_000i128);
    assert(-9_000_000_000_000i128 <= dy <= 9_000_000_000_000i128);
    assert(-9_000_000_000_000i128 <= dz <= 9_000_000_000_000i128);
    assert(0 <= dx * dx <= 81_000_000_000_000_000_000_000_000i128) by (nonlinear_arith)
        requires -9_000_000_000_000i128 <= dx <= 9_000_000_000_000i128;
    assert(0 <= dy * dy <= 81_000_000_000_000_000_000_000_000i128) by (nonlinear_arith)
        requires -9_000_000_000_000i128 <= dy <= 9_000_000_000_000i128;
    assert(0 <= dz * dz <= 81_000_000_000_000_000_000_000_000i128) by (nonlinear_arith)
        requires -9_000_000_000_000i128 <= dz <= 9_000_000_000_000i128;
    let s: i128 = dx * dx + dy * dy + dz * dz;
    assert((1u128 << 126) > 243_000_000_000_000_000_000_000_000u128) by (bit_vector);
    s as u128
}

/// Euclidean distance between two positions, rounded down to whole metres.
pub fn sim_distance(a: &SimPosition, b: &SimPosition) -> (d: u64)
    requires
        a.wf(),
        b.wf(),
    ensures
        is_sqrt_floor(dist_sq(*a, *b), d as int),
{
    let s = dist_sq_exec(a, b);
    isqrt128(s)
}

/// Squared distances of in-bounds positions stay within fixed numeric room.
pub proof fn lemma_dist_sq_bound(a: SimPosition, b: SimPosition)
    requires
        a.wf(),
        b.wf(),
    ensures
        0 <= dist_sq(a, b) <= 243_000_000_000_000_000_000_000_000,
{
    assert(0 <= (a.x - b.x) * (a.x - b.x) <= 81_000_000_000_000_000_000_000_000) by (nonlinear_arith)
        requires -9_000_000_000_000 <= a.x - b.x <= 9_000_000_000_000;
    assert(0 <= (a.y - b.y) * (a.y - b.y) <= 81_000_000_000_000_000_000_000_000) by (nonlinear_arith)
        requires -9_000_000_000_000 <= a.y - b.y <= 9_000_000_000_000;
    assert(0 <= (a.z - b.z) * (a.z - b.z) <= 81_000_000_000_000_000_000_000_000) by (nonlinear_arith)
        requires -9_000_000_000_000 <= a.z - b.z <= 9_000_000_000_000;
}

/// Distances between in-bounds positions stay within fixed numeric room.
pub proof fn lemma_dist_bound(a: SimPosition, b: SimPosition, d: int)
    requires
        a.wf(),
        b.wf(),
        is_sqrt_floor(dist_sq(a, b), d),
    ensures
        0 <= d <= 16_000_000_000_000,
{
    lemma_dist_sq_bound(a, b);
    assert(d <= 16_000_000_000_000) by (nonlinear_arith)
        requires
            0 <= d,
            d * d <= 243_000_000_000_000_000_000_000_000,
    ;
}

/// Largest scatter radius `around_pos` accepts, in metres.
pub const MAX_SCATTER: i64 = 1_000_000;

/// Picks a randomly scattered point within `radius` metres of `pos`, in the
/// same plane: arrivals share a destination without stacking on one point.
pub fn around_pos(pos: SimPosition, radius: i64) -> (r: SimPosition)
    requires
        0 <= radius <= MAX_SCATTER,
        pos.wf_within(radius as int),
    ensures
        r.wf(),
        r.z == pos.z,
        dist_sq(r, pos) <= radius * radius,
{
    if radius == 0 {
        return pos;
    }
    let side: u64 = (radius as u64) * 7 / 10;
    let span: u64 = 2 * side + 1;
    let rx: u64 = rand::random::<u64>();
    let ry: u64 = rand::random::<u64>();
    let dx: i64 = (rx % span) as i64 - side as i64;
    let dy: i64 = (ry % span) as i64 - side as i64;
    proof {
        assert(10 * side <= 7 * radius);
        assert(-(side as int) <= dx as int <= side as int);
        assert(-(side as int) <= dy as int <= side as int);
        assert(
            (dx as int) * (dx as int) + (dy as int) * (dy as int)
                <= (radius as int) * (radius as int)
        ) by (nonlinear_arith)
            requires
                10 * (side as int) <= 7 * (radius as int),
                0 <= side,
                -(side as int) <= dx as int <= side as int,
                -(side as int) <= dy as int <= side as int;
    }
    SimPosition { x: pos.x + dx, y: pos.y + dy, z: pos.z }
}

/// A registered connection of one solar system: travelling to `dest` uses the
/// local gate `gate_from`, emerging at the remote gate `gate_to`.
#[derive(Clone, Copy, PartialEq, Eq, Structural, Debug)]
pub struct GateEntry {
    pub dest: usize,
    pub gate_from: usize,
    pub gate_to: usize,
}

/// One solar system: its points of interest and its gate map, keyed by
/// destination system, in the order the gates were registered.
pub struct SolarSystem {
    pub anomalies: Vec<usize>,
    pub gates: Vec<GateEntry>,
}

impl SolarSystem {
    /// This system's gate map holds an entry for destination `d`.
    pub open spec fn has_gate_to(self, d: int) -> bool {
        exists|i: int|
            0 <= i < self.gates@.len() && (#[trigger] self.gates@[i]).dest as int == d
    }

    /// This system's gate map entry for destination `d` (meaningful when unique).
    pub open spec fn gate_entry_at(self, d: int) -> GateEntry {
        self.gates@[choose|i: int|
            0 <= i < self.gates@.len() && (#[trigger] self.gates@[i]).dest as int == d]
    }

    /// At most one gate pair per destination system.
    pub open spec fn gates_unique(self) -> bool {
        forall|i: int, j: int|
            0 <= i < j < self.gates@.len() ==> (#[trigger] self.gates@[i]).dest != (
            #[trigger] self.gates@[j]).dest
    }

    /// Looks up which gate pair serves destination `dest`: the local gate to
    /// approach and the remote gate to emerge from.
    pub fn lookup_gate(&self, dest: usize) -> (r: Option<(usize, usize)>)
        requires
            self.gates_unique(),
        ensures
            match r {
                Some(p) => {
                    &&& self.has_gate_to(dest as int)
                    &&& p.0 == self.gate_entry_at(dest as int).gate_from
                    &&& p.1 == self.gate_entry_at(dest as int).gate_to
                },
                None => !self.has_gate_to(dest as int),
            },
    {
        let n = self.gates.len();
        let mut i: usize = 0;
        while i < n
            invariant
                n == self.gates@.len(),
                0 <= i <= n,
                self.gates_unique(),
                forall|j: int| 0 <= j < i ==> (#[trigger] self.gates@[j]).dest != dest,
            decreases n - i,
        {
            let e = self.gates[i];
            if e.dest == dest {
                proof {
                    assert(self.gates@[i as int].dest as int == dest as int);
                    let k = choose|k: int|
                        0 <= k < self.gates@.len() && (#[trigger] self.gates@[k]).dest as int
                            == dest as int;
                    assert(k == i as int);
                }
                return Some((e.gate_from, e.gate_to));
            }
            i += 1;
        }
        None
    }
}

/// A gate: a fixed transit point in its owning system, paired with a remote
/// gate in the destination system. Created unregistered; a later registration
/// pass adopts it into its owning system's gate map.
#[derive(Clone, Copy, PartialEq, Eq, Structural, Debug)]
pub struct Gate {
    pub system: usize,
    pub destination: usize,
    pub paired: usize,
    pub pos: SimPosition,
    pub registered: bool,
}

/// The simulation world: solar systems, their global positions, and the flat
/// store of gates, all referenced by index.
pub struct Galaxy {
    pub systems: Vec<SolarSystem>,
    pub positions: Vec<SimPosition>,
    pub gates: Vec<Gate>,
}

impl Galaxy {
    /// Number of solar systems.
    pub open spec fn n(self) -> int {
        self.systems@.len() as int
    }

    /// Structural soundness of one gate record: indices in range, the paired
    /// gate points back, both ends register together, and a registered gate
    /// stands in its owning system's gate map.
    pub open spec fn gate_ok(self, g: int) -> bool {
        let gate = self.gates@[g];
        &&& (gate.system as int) < self.n()
        &&& (gate.destination as int) < self.n()
        &&& gate.system != gate.destination
        &&& (gate.paired as int) < self.gates@.len()
        &&& gate.pos.wf()
        &&& gate.pos.wf_within(MAX_SCATTER as int)
        &&& self.gates@[gate.paired as int].paired as int == g
        &&& self.gates@[gate.paired as int].system == gate.destination
        &&& self.gates@[gate.paired as int].destination == gate.system
        &&& self.gates@[gate.paired as int].registered == gate.registered
        &&& gate.registered ==> {
            &&& self.systems@[gate.system as int].has_gate_to(gate.destination as int)
            &&& self.systems@[gate.system as int].gate_entry_at(gate.destination as int)
                == (GateEntry { dest: gate.destination, gate_from: g as usize, gate_to: gate.paired })
        }
    }

    /// Soundness of one gate map entry of system `s`: it names registered
    /// gates that belong where the entry says, and the destination system
    /// carries the mirror entry — gate pairing is symmetric.
    pub open spec fn entry_ok(self, s: int, e: GateEntry) -> bool {
        &&& (e.dest as int) < self.n()
        &&& e.dest as int != s
        &&& (e.gate_from as int) < self.gates@.len()
        &&& self.gates@[e.gate_from as int].system as int == s
        &&& self.gates@[e.gate_from as int].destination == e.dest
        &&& self.gates@[e.gate_from as int].paired == e.gate_to
        &&& self.gates@[e.gate_from as int].registered
        &&& self.systems@[e.dest as int].has_gate_to(s)
        &&& self.systems@[e.dest as int].gate_entry_at(s).gate_from == e.gate_to
        &&& self.systems@[e.dest as int].gate_entry_at(s).gate_to == e.gate_from
    }

    /// At most one gate per ordered pair of systems.
    pub open spec fn gates_pairwise_distinct(self) -> bool {
        forall|g1: int, g2: int|
            0 <= g1 < g2 < self.gates@.len() ==> !((#[trigger] self.gates@[g1]).system
                == (#[trigger] self.gates@[g2]).system && self.gates@[g1].destination
                == self.gates@[g2].destination)
    }

    /// Well-formedness of the whole world.
    pub open spec fn wf(self) -> bool {
        &&& self.positions@.len() == self.systems@.len()
        &&& forall|s: int| 0 <= s < self.n() ==> (#[trigger] self.positions@[s]).wf()
        &&& forall|g: int| 0 <= g < self.gates@.len() ==> self.gate_ok(g)
        &&& self.gates_pairwise_distinct()
        &&& forall|s: int| 0 <= s < self.n() ==> (#[trigger] self.systems@[s]).gates_unique()
        &&& forall|s: int, i: int|
            0 <= s < self.n() && 0 <= i < self.systems@[s].gates@.len() ==> self.entry_ok(
                s,
                #[trigger] self.systems@[s].gates@[i],
            )
    }
}

/// With unique destinations, the entry found at any index serving `d` is the
/// entry `gate_entry_at(d)` denotes.
pub proof fn lemma_gate_entry_lookup(sys: SolarSystem, d: int, i: int)
    requires
        sys.gates_unique(),
        0 <= i < sys.gates@.len(),
        sys.gates@[i].dest as int == d,
    ensures
        sys.has_gate_to(d),
        sys.gate_entry_at(d) == sys.gates@[i],
{
    assert(sys.has_gate_to(d));
    let k = choose|k: int| 0 <= k < sys.gates@.len() && (#[trigger] sys.gates@[k]).dest as int == d;
    assert(k == i);
}

/// The entry a well-formed gate map serves for destination `d` is sound.
pub proof fn lemma_entry_at_ok(galaxy: Galaxy, s: int, d: int)
    requires
        galaxy.wf(),
        0 <= s < galaxy.n(),
        galaxy.systems@[s].has_gate_to(d),
    ensures
        galaxy.entry_ok(s, galaxy.systems@[s].gate_entry_at(d)),
        galaxy.systems@[s].gate_entry_at(d).dest as int == d,
{
    let i = choose|i: int|
        0 <= i < galaxy.systems@[s].gates@.len() && (
        #[trigger] galaxy.systems@[s].gates@[i]).dest as int == d;
    assert(galaxy.entry_ok(s, galaxy.systems@[s].gates@[i]));
    lemma_gate_entry_lookup(galaxy.systems@[s], d, i);
}

/// Whether two positions lie within `range` metres of each other, compared
/// exactly on squared distances.
pub fn within_range(a: &SimPosition, b: &SimPosition, range: i64) -> (r: bool)
    requires
        a.wf(),
        b.wf(),
        0 <= range <= POS_LIMIT,
    ensures
        r == (dist_sq(*a, *b) <= range * range),
{
    let s = dist_sq_exec(a, b);
    proof {
        assert((range as u128) * (range as u128) <= 20_250_000_000_000_000_000_000_000u128)
            by (nonlinear_arith)
            requires (range as u128) <= 4_500_000_000_000u128;
        assert((1u128 << 126) > 20_250_000_000_000_000_000_000_000u128) by (bit_vector);
    }
    s <= (range as u128) * (range as u128)
}

/// Builds a galaxy of bare solar systems at the given global positions, with
/// no gates yet.
pub fn new_galaxy(positions: Vec<SimPosition>) -> (g: Galaxy)
    requires
        forall|i: int| 0 <= i < positions@.len() ==> (#[trigger] positions@[i]).wf(),
    ensures
        g.wf(),
        g.positions == positions,
        g.n() == positions@.len(),
        g.gates@.len() == 0,
        forall|s: int| 0 <= s < g.n() ==> (#[trigger] g.systems@[s]).gates@.len() == 0,
{
    let n = positions.len();
    let mut systems: Vec<SolarSystem> = Vec::new();
    let mut i: usize = 0;
    while i < n
        invariant
            0 <= i <= n,
            systems@.len() == i,
            forall|s: int| 0 <= s < i ==> (#[trigger] systems@[s]).gates@.len() == 0,
        decreases n - i,
    {
        systems.push(SolarSystem { anomalies: Vec::new(), gates: Vec::new() });
        i += 1;
    }
    Galaxy { systems, positions, gates: Vec::new() }
}

} // verus!
