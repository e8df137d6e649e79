//! Is it actually a solid?
//!
//! That the relief comes out closed and consistently wound is proved of every
//! solid. `inspect` measures it on the triangles that are really emitted: it
//! builds the directed-edge map and reports boundary edges, non-manifold edges
//! and the Euler characteristic. The map has three entries per triangle, so the
//! app shows `summary` instead.

use std::collections::HashMap;
use vstd::prelude::*;
use crate::listing::Triangles;
use crate::mesh;
use crate::mesh::Solid;
use crate::number;
use crate::number::{Double, Op, Real, INFINITY, NEG_INFINITY};
use crate::progress::Fraction;
use crate::topology;
use crate::vector;
use crate::vector::Vector;

verus! {

#[derive(Debug, Clone, PartialEq, Eq)]
pub struct Report {
    pub vertices: usize,
    pub triangles: usize,
    /// Undirected edge count. `None` when the edges were not walked.
    pub edges: Option<usize>,
    /// `V - E + F`: two for a closed surface of genus zero.
    pub euler: Option<i64>,
    /// Edges used by only one triangle: a hole.
    pub boundary_edges: Option<usize>,
    /// Directed edges used more than once: two faces wound the same way across
    /// one edge.
    pub non_manifold_edges: Option<usize>,
    /// Signed volume. Positive means the winding faces outwards.
    pub volume_mm3: Double,
    pub min_mm: Vector,
    pub max_mm: Vector,
}

impl Report {
    /// Whether this mesh is fit to hand a slicer, where that was measured.
    pub open spec fn verdict(self) -> Option<bool> {
        if self.boundary_edges is None {
            None
        } else if self.boundary_edges != Some(0usize) {
            Some(false)
        } else if self.non_manifold_edges is None {
            None
        } else if self.non_manifold_edges != Some(0usize) {
            Some(false)
        } else if self.euler is None {
            None
        } else {
            Some(self.euler == Some(2i64) && self.volume_mm3.above_zero())
        }
    }

    /// Whether this mesh is fit to hand a slicer.
    pub fn watertight(&self) -> (r: Option<bool>)
        ensures
            r == self.verdict(),
    {
        let boundary: usize = match self.boundary_edges {
            None => {
                return None;
            },
            Some(n) => n,
        };
        if boundary != 0 {
            return Some(false);
        }
        let doubled: usize = match self.non_manifold_edges {
            None => {
                return None;
            },
            Some(n) => n,
        };
        if doubled != 0 {
            return Some(false);
        }
        match self.euler {
            None => None,
            Some(n) => Some(n == 2 && self.volume_mm3.is_positive()),
        }
    }
}

// ---------------------------------------------------------------------------
// Volume and bounds
// ---------------------------------------------------------------------------

/// The summation always answers, and gives the same answer to the same
/// question.
pub open spec fn steady_sum<D: Fn(Double, Real) -> Double>(d: D) -> bool {
    &&& forall|v: Double, t: Real| #[trigger] call_requires(d, (v, t))
    &&& forall|v: Double, t: Real, r: Double| #[trigger]
        call_ensures(d, (v, t), r) ==> r == summed(d, v, t)
}

/// What the summation answers: a volume and one term more.
pub open spec fn summed<D: Fn(Double, Real) -> Double>(d: D, v: Double, t: Real) -> Double {
    choose|r: Double| call_ensures(d, (v, t), r)
}

/// Six times the signed volume between a triangle and the origin.
pub open spec fn wedge<F: Fn(Op, Real, Real) -> Real>(
    f: F,
    a: Vector,
    b: Vector,
    c: Vector,
) -> Real {
    vector::dot(f, a, vector::cross(f, b, c))
}

pub open spec fn lower(a: Vector, b: Vector) -> Vector {
    Vector {
        x: if a.x.below(b.x) {
            a.x
        } else {
            b.x
        },
        y: if a.y.below(b.y) {
            a.y
        } else {
            b.y
        },
        z: if a.z.below(b.z) {
            a.z
        } else {
            b.z
        },
    }
}

pub open spec fn upper(a: Vector, b: Vector) -> Vector {
    Vector {
        x: if b.x.below(a.x) {
            a.x
        } else {
            b.x
        },
        y: if b.y.below(a.y) {
            a.y
        } else {
            b.y
        },
        z: if b.z.below(a.z) {
            a.z
        } else {
            b.z
        },
    }
}

fn lower_of(a: Vector, b: Vector) -> (r: Vector)
    ensures
        r == lower(a, b),
{
    Vector {
        x: if a.x.lt(b.x) {
            a.x
        } else {
            b.x
        },
        y: if a.y.lt(b.y) {
            a.y
        } else {
            b.y
        },
        z: if a.z.lt(b.z) {
            a.z
        } else {
            b.z
        },
    }
}

fn upper_of(a: Vector, b: Vector) -> (r: Vector)
    ensures
        r == upper(a, b),
{
    Vector {
        x: if b.x.lt(a.x) {
            a.x
        } else {
            b.x
        },
        y: if b.y.lt(a.y) {
            a.y
        } else {
            b.y
        },
        z: if b.z.lt(a.z) {
            a.z
        } else {
            b.z
        },
    }
}

pub open spec fn splat(bits: u32) -> Vector {
    Vector { x: Real { bits }, y: Real { bits }, z: Real { bits } }
}

/// Volume, lowest and highest corner after the first `n` triangles.
pub open spec fn swept<F: Fn(Op, Real, Real) -> Real, D: Fn(Double, Real) -> Double>(
    f: F,
    d: D,
    s: Solid,
    n: nat,
) -> (Double, Vector, Vector)
    decreases n,
{
    if n == 0 {
        (Double { bits: 0 }, splat(INFINITY), splat(NEG_INFINITY))
    } else {
        let (v, lo, hi) = swept(f, d, s, (n - 1) as nat);
        let t = s.mesh()[n - 1];
        let a = s.place(f, s.at(t[0] as int));
        let b = s.place(f, s.at(t[1] as int));
        let c = s.place(f, s.at(t[2] as int));
        (
            summed(d, v, wedge(f, a, b, c)),
            lower(lower(lower(lo, a), b), c),
            upper(upper(upper(hi, a), b), c),
        )
    }
}

/// Signed volume and bounding box in one pass.
///
/// For a closed surface the sum of `a · (b × c) / 6` over its triangles is the
/// enclosed volume, and its sign tells which way the normals face. `total` adds
/// a sixth of its second operand to its first, in double precision.
fn sweep<F: Fn(Op, Real, Real) -> Real, D: Fn(Double, Real) -> Double>(
    solid: &Solid,
    arith: &F,
    total: &D,
) -> (r: (Double, Vector, Vector))
    requires
        number::steady(*arith),
        steady_sum(*total),
        solid.wf(),
    ensures
        r == swept(*arith, *total, *solid, solid.mesh().len()),
{
    let mut volume = Double { bits: 0 };
    let mut lo = Vector {
        x: Real { bits: INFINITY },
        y: Real { bits: INFINITY },
        z: Real { bits: INFINITY },
    };
    let mut hi = Vector {
        x: Real { bits: NEG_INFINITY },
        y: Real { bits: NEG_INFINITY },
        z: Real { bits: NEG_INFINITY },
    };
    let mut listing = Triangles::new(solid);
    let mut some: Vec<[u32; 3]> = Vec::new();
    let mut marks: Vec<Fraction> = Vec::new();
    let mut more: bool = true;
    proof {
        listing.lemma_follows(*solid);
    }
    while more
        invariant
            number::steady(*arith),
            steady_sum(*total),
            solid.wf(),
            listing.follows(*solid),
            0 <= listing.listed() <= solid.mesh().len(),
            0 <= listing.marked() <= solid.mesh_progress().len(),
            (volume, lo, hi) == swept(*arith, *total, *solid, listing.listed() as nat),
            !more ==> listing.listed() == solid.mesh().len(),
        decreases solid.mesh_progress().len() - listing.marked() + (if more {
            1int
        } else {
            0
        }),
    {
        some.clear();
        marks.clear();
        let ghost from = listing.listed();
        more = listing.next(solid, &mut some, &mut marks);
        proof {
            listing.lemma_follows(*solid);
            assert(some@ =~= solid.mesh().subrange(from, listing.listed()));
        }
        let mut k: usize = 0;
        while k < some.len()
            invariant
                number::steady(*arith),
                steady_sum(*total),
                solid.wf(),
                0 <= from <= listing.listed() <= solid.mesh().len(),
                some@ == solid.mesh().subrange(from, listing.listed()),
                k <= some@.len(),
                (volume, lo, hi) == swept(*arith, *total, *solid, (from + k) as nat),
            decreases some@.len() - k,
        {
            let t = some[k];
            assert(solid.mesh()[from + k] == t);
            let a = solid.position(t[0] as usize, arith);
            let b = solid.position(t[1] as usize, arith);
            let c = solid.position(t[2] as usize, arith);
            let w = a.dot(b.cross(c, arith), arith);
            volume = total(volume, w);
            lo = lower_of(lower_of(lower_of(lo, a), b), c);
            hi = upper_of(upper_of(upper_of(hi, a), b), c);
            k = k + 1;
        }
    }
    (volume, lo, hi)
}

/// The report without the edges.
pub open spec fn summary_of<F: Fn(Op, Real, Real) -> Real, D: Fn(Double, Real) -> Double>(
    f: F,
    d: D,
    s: Solid,
) -> Report {
    let (volume_mm3, min_mm, max_mm) = swept(f, d, s, s.mesh().len());
    Report {
        vertices: s.vertex_total() as usize,
        triangles: s.mesh().len() as usize,
        edges: None,
        euler: None,
        boundary_edges: None,
        non_manifold_edges: None,
        volume_mm3,
        min_mm,
        max_mm,
    }
}

/// Counts, bounds and volume, without walking the edges.
pub fn summary<F: Fn(Op, Real, Real) -> Real, D: Fn(Double, Real) -> Double>(
    solid: &Solid,
    arith: &F,
    total: &D,
) -> (r: Report)
    requires
        number::steady(*arith),
        steady_sum(*total),
        solid.wf(),
    ensures
        r == summary_of(*arith, *total, *solid),
{
    let (volume_mm3, min_mm, max_mm) = sweep(solid, arith, total);
    Report {
        vertices: solid.vertex_count(),
        triangles: solid.triangle_count(),
        edges: None,
        euler: None,
        boundary_edges: None,
        non_manifold_edges: None,
        volume_mm3,
        min_mm,
        max_mm,
    }
}

// ---------------------------------------------------------------------------
// Edges
// ---------------------------------------------------------------------------

/// The `m`th directed edge of a list of triangles, three to a triangle.
pub open spec fn nth_edge(t: Seq<[u32; 3]>, m: int) -> (u32, u32) {
    topology::edge(t, m / 3, m % 3)
}

/// The different directed edges among the first `n`, in the order in which they
/// come up.
pub open spec fn different(t: Seq<[u32; 3]>, n: nat) -> Seq<(u32, u32)>
    decreases n,
{
    if n == 0 {
        Seq::empty()
    } else {
        let s = different(t, (n - 1) as nat);
        if s.contains(nth_edge(t, n - 1)) {
            s
        } else {
            s.push(nth_edge(t, n - 1))
        }
    }
}

/// How often a directed edge comes up among the first `n`.
pub open spec fn uses(t: Seq<[u32; 3]>, n: nat, e: (u32, u32)) -> nat
    decreases n,
{
    if n == 0 {
        0
    } else {
        uses(t, (n - 1) as nat, e) + (if nth_edge(t, n - 1) == e {
            1nat
        } else {
            0
        })
    }
}

/// How many of the first `n` edges in the list pass.
pub open spec fn passing(
    s: Seq<(u32, u32)>,
    n: nat,
    test: spec_fn((u32, u32)) -> bool,
) -> nat
    decreases n,
{
    if n == 0 {
        0
    } else {
        passing(s, (n - 1) as nat, test) + (if test(s[n - 1]) {
            1nat
        } else {
            0
        })
    }
}

pub open spec fn all_edges(t: Seq<[u32; 3]>) -> Seq<(u32, u32)> {
    different(t, 3 * t.len())
}

/// Nothing runs along the edge backwards.
pub open spec fn open_edge(t: Seq<[u32; 3]>) -> spec_fn((u32, u32)) -> bool {
    |e: (u32, u32)| !all_edges(t).contains((e.1, e.0))
}

/// The edge is run along more than once.
pub open spec fn doubled_edge(t: Seq<[u32; 3]>) -> spec_fn((u32, u32)) -> bool {
    |e: (u32, u32)| uses(t, 3 * t.len(), e) > 1
}

/// How many directed edges have no reverse.
pub open spec fn boundary_count(t: Seq<[u32; 3]>) -> nat {
    passing(all_edges(t), all_edges(t).len(), open_edge(t))
}

/// How many directed edges are run along more than once.
pub open spec fn doubled_count(t: Seq<[u32; 3]>) -> nat {
    passing(all_edges(t), all_edges(t).len(), doubled_edge(t))
}

/// Every undirected edge once: interior ones come up in both directions.
pub open spec fn edge_count(t: Seq<[u32; 3]>) -> int {
    (all_edges(t).len() + boundary_count(t)) as int / 2
}

pub open spec fn key_of(e: (u32, u32)) -> u64 {
    (e.0 * 0x1_0000_0000 + e.1) as u64
}

fn key(a: u32, b: u32) -> (r: u64)
    ensures
        r == key_of((a, b)),
{
    a as u64 * 0x1_0000_0000 + b as u64
}

proof fn lemma_key(a: (u32, u32), b: (u32, u32))
    requires
        key_of(a) == key_of(b),
    ensures
        a == b,
{
}

/// The map holds how often each edge among the first `n` comes up, and the list
/// holds each of them once.
spec fn tallied(
    t: Seq<[u32; 3]>,
    n: nat,
    map: Map<u64, u64>,
    list: Seq<(u32, u32)>,
) -> bool {
    &&& list == different(t, n)
    &&& forall|e: (u32, u32)|
        list.contains(e) <==> #[trigger] map.contains_key(key_of(e))
    &&& forall|e: (u32, u32)|
        list.contains(e) ==> #[trigger] map[key_of(e)] == uses(t, n, e)
}

proof fn lemma_different(t: Seq<[u32; 3]>, n: nat)
    ensures
        different(t, n).len() <= n,
        forall|e: (u32, u32)| different(t, n).contains(e) <==> #[trigger] uses(t, n, e) > 0,
        forall|e: (u32, u32)| #[trigger] uses(t, n, e) <= n,
    decreases n,
{
    if n > 0 {
        let m = (n - 1) as nat;
        lemma_different(t, m);
        let s = different(t, m);
        let x = nth_edge(t, n - 1);
        assert forall|e: (u32, u32)| different(t, n).contains(e) <==> #[trigger] uses(t, n, e)
            > 0 by {
            assert(s.contains(e) <==> uses(t, m, e) > 0);
            if !s.contains(x) {
                let r = s.push(x);
                if r.contains(e) {
                    let k = choose|k: int| 0 <= k < r.len() && r[k] == e;
                    if k < s.len() {
                        assert(s[k] == e);
                        assert(s.contains(e));
                    }
                }
                if s.contains(e) {
                    let k = choose|k: int| 0 <= k < s.len() && s[k] == e;
                    assert(r[k] == e);
                }
                if e == x {
                    assert(r[s.len() as int] == x);
                }
            }
        }
        assert forall|e: (u32, u32)| #[trigger] uses(t, n, e) <= n by {
            assert(uses(t, m, e) <= m);
        }
    }
}

/// Count one more edge.
fn note(
    Ghost(t): Ghost<Seq<[u32; 3]>>,
    Ghost(n): Ghost<nat>,
    a: u32,
    b: u32,
    map: &mut HashMap<u64, u64>,
    list: &mut Vec<(u32, u32)>,
)
    requires
        tallied(t, n, old(map)@, old(list)@),
        nth_edge(t, n as int) == (a, b),
        n < u64::MAX,
    ensures
        tallied(t, n + 1, final(map)@, final(list)@),
{
    let ghost was = map@;
    let ghost before = list@;
    let ghost x = (a, b);
    proof {
        lemma_different(t, n);
    }
    let k: u64 = key(a, b);
    let seen: u64 = match map.get(&k) {
        Some(c) => *c,
        None => 0,
    };
    if seen > 0 {
        proof {
            assert(was.contains_key(key_of(x)));
            assert(before.contains(x));
            assert(uses(t, n, x) <= n);
        }
        map.insert(k, seen + 1);
    } else {
        proof {
            if was.contains_key(key_of(x)) {
                assert(before.contains(x));
                assert(uses(t, n, x) > 0);
            }
        }
        map.insert(k, 1);
        list.push((a, b));
    }
    proof {
        let after = list@;
        assert forall|e: (u32, u32)| after.contains(e) <==> #[trigger] map@.contains_key(
            key_of(e),
        ) by {
            if key_of(e) == k {
                lemma_key(e, x);
            }
            if seen == 0 {
                if after.contains(e) {
                    let i = choose|i: int| 0 <= i < after.len() && after[i] == e;
                    if i < before.len() {
                        assert(before[i] == e);
                        assert(before.contains(e));
                        assert(was.contains_key(key_of(e)));
                    }
                }
                if before.contains(e) {
                    let i = choose|i: int| 0 <= i < before.len() && before[i] == e;
                    assert(after[i] == e);
                }
                assert(after[before.len() as int] == x);
            }
            assert(before.contains(e) <==> was.contains_key(key_of(e)));
        }
        assert forall|e: (u32, u32)| after.contains(e) implies #[trigger] map@[key_of(e)] == uses(
            t,
            n + 1,
            e,
        ) by {
            if e == x {
                if seen == 0 {
                    assert(!before.contains(x));
                    assert(uses(t, n, x) == 0);
                }
            } else {
                if key_of(e) == k {
                    lemma_key(e, x);
                }
                assert(map@.contains_key(key_of(e)));
                assert(was.contains_key(key_of(e)));
                assert(before.contains(e));
                assert(was[key_of(e)] == uses(t, n, e));
            }
        }
    }
}

/// What the full check finds.
pub open spec fn inspected<F: Fn(Op, Real, Real) -> Real, D: Fn(Double, Real) -> Double>(
    f: F,
    d: D,
    s: Solid,
) -> Report {
    let t = s.mesh();
    Report {
        edges: Some(edge_count(t) as usize),
        euler: Some((s.vertex_total() - edge_count(t) + t.len()) as i64),
        boundary_edges: Some(boundary_count(t) as usize),
        non_manifold_edges: Some(doubled_count(t) as usize),
        ..summary_of(f, d, s)
    }
}

/// The full check: closure, orientation and genus.
pub fn inspect<F: Fn(Op, Real, Real) -> Real, D: Fn(Double, Real) -> Double>(
    solid: &Solid,
    arith: &F,
    total: &D,
) -> (r: Report)
    requires
        number::steady(*arith),
        steady_sum(*total),
        solid.wf(),
    ensures
        r == inspected(*arith, *total, *solid),
{
    let mut triangles: Vec<[u32; 3]> = Vec::new();
    let mut marks: Vec<Fraction> = Vec::new();
    solid.for_each_triangle(&mut triangles, &mut marks);
    let ghost t = solid.mesh();
    assert(triangles@ =~= t);
    proof {
        solid.lemma_surface();
        mesh::law_watertight(*solid);
        lemma_different(t, 3 * t.len());
    }
    let mut map: HashMap<u64, u64> = HashMap::new();
    let mut list: Vec<(u32, u32)> = Vec::new();
    let mut n: usize = 0;
    assert(tallied(t, 0, map@, list@)) by {
        assert(list@ =~= different(t, 0));
    }
    while n < triangles.len()
        invariant
            t == triangles@,
            t.len() <= 0x10_0000_0000,
            n <= t.len(),
            tallied(t, (3 * n) as nat, map@, list@),
        decreases t.len() - n,
    {
        let corners = triangles[n];
        let a: u32 = corners[0];
        let b: u32 = corners[1];
        let c: u32 = corners[2];
        proof {
            assert((3 * n) / 3 == n && (3 * n) % 3 == 0);
            assert((3 * n + 1) / 3 == n && (3 * n + 1) % 3 == 1);
            assert((3 * n + 2) / 3 == n && (3 * n + 2) % 3 == 2);
        }
        note(Ghost(t), Ghost((3 * n) as nat), a, b, &mut map, &mut list);
        note(Ghost(t), Ghost((3 * n + 1) as nat), b, c, &mut map, &mut list);
        note(Ghost(t), Ghost((3 * n + 2) as nat), c, a, &mut map, &mut list);
        n = n + 1;
    }
    let ghost all = all_edges(t);
    let mut boundary: usize = 0;
    let mut doubled: usize = 0;
    let mut k: usize = 0;
    while k < list.len()
        invariant
            tallied(t, 3 * t.len(), map@, list@),
            all == all_edges(t),
            list@ == all,
            k <= all.len(),
            boundary == passing(all, k as nat, open_edge(t)),
            doubled == passing(all, k as nat, doubled_edge(t)),
            boundary <= k,
            doubled <= k,
        decreases all.len() - k,
    {
        let (u, v) = list[k];
        proof {
            let e = all[k as int];
            assert(all.contains(e));
            assert(map@.contains_key(key_of(e)));
            assert(map@[key_of(e)] == uses(t, 3 * t.len(), e));
            assert(all.contains((e.1, e.0)) <==> map@.contains_key(key_of((e.1, e.0))));
        }
        let count: u64 = match map.get(&key(u, v)) {
            Some(c) => *c,
            None => 0,
        };
        if count > 1 {
            doubled = doubled + 1;
        }
        if !map.contains_key(&key(v, u)) {
            boundary = boundary + 1;
        }
        k = k + 1;
    }
    let edges: u64 = (list.len() as u64 / 2) + (boundary as u64 / 2) + (list.len() as u64 % 2
        + boundary as u64 % 2) / 2;
    proof {
        assert(edges == edge_count(t));
        assert(all.len() <= 3 * t.len());
    }
    let report = summary(solid, arith, total);
    let v: i64 = report.vertices as i64;
    let f: i64 = report.triangles as i64;
    Report {
        vertices: report.vertices,
        triangles: report.triangles,
        edges: Some(edges as usize),
        euler: Some(v - edges as i64 + f),
        boundary_edges: Some(boundary),
        non_manifold_edges: Some(doubled),
        volume_mm3: report.volume_mm3,
        min_mm: report.min_mm,
        max_mm: report.max_mm,
    }
}

// ---------------------------------------------------------------------------
// Laws
// ---------------------------------------------------------------------------

/// In a consistently wound list no directed edge comes up twice.
proof fn lemma_all_different(t: Seq<[u32; 3]>, n: nat)
    requires
        topology::oriented(t),
        n <= 3 * t.len(),
    ensures
        different(t, n) =~= Seq::new(n, |m: int| nth_edge(t, m)),
        forall|e: (u32, u32)| #[trigger] uses(t, n, e) <= 1,
    decreases n,
{
    if n > 0 {
        let m = (n - 1) as nat;
        lemma_all_different(t, m);
        lemma_different(t, m);
        let x = nth_edge(t, m as int);
        let s = different(t, m);
        if s.contains(x) {
            let k = choose|k: int| 0 <= k < s.len() && s[k] == x;
            assert(nth_edge(t, k) == x);
            assert(topology::slot(t, k / 3, k % 3) && topology::slot(
                t,
                m as int / 3,
                m as int % 3,
            ));
            assert(topology::edge(t, k / 3, k % 3) == topology::edge(
                t,
                m as int / 3,
                m as int % 3,
            ));
            assert(k == m);
        }
        assert forall|e: (u32, u32)| #[trigger] uses(t, n, e) <= 1 by {
            assert(uses(t, m, e) <= 1);
            assert(s.contains(x) <==> uses(t, m, x) > 0);
        }
    }
}

proof fn lemma_none_pass(s: Seq<(u32, u32)>, n: nat, test: spec_fn((u32, u32)) -> bool)
    requires
        n <= s.len(),
        forall|k: int| 0 <= k < s.len() ==> !test(#[trigger] s[k]),
    ensures
        passing(s, n, test) == 0,
    decreases n,
{
    if n > 0 {
        lemma_none_pass(s, (n - 1) as nat, test);
        assert(!test(s[n - 1]));
    }
}

/// The check finds every solid closed, consistently wound and of genus zero: no
/// boundary edge, no doubled edge, three edges to two triangles, and an Euler
/// characteristic of two.
pub proof fn law_inspection_passes<F: Fn(Op, Real, Real) -> Real, D: Fn(Double, Real) -> Double>(
    f: F,
    d: D,
    s: Solid,
)
    requires
        s.wf(),
    ensures
        inspected(f, d, s).boundary_edges == Some(0usize),
        inspected(f, d, s).non_manifold_edges == Some(0usize),
        2 * edge_count(s.mesh()) == 3 * s.mesh().len(),
        inspected(f, d, s).euler == Some(2i64),
        inspected(f, d, s).verdict() == Some(inspected(f, d, s).volume_mm3.above_zero()),
{
    let t = s.mesh();
    let n = 3 * t.len();
    mesh::law_watertight(s);
    lemma_all_different(t, n);
    lemma_different(t, n);
    let all = all_edges(t);
    assert forall|k: int| 0 <= k < all.len() implies !open_edge(t)(#[trigger] all[k]) by {
        let e = all[k];
        assert(e == topology::edge(t, k / 3, k % 3));
        topology::lemma_has_edge(t, k / 3, k % 3);
        assert(topology::has_edge(t, e.0, e.1));
        assert(topology::has_edge(t, e.1, e.0));
        let (i, r) = choose|i: int, r: int|
            topology::slot(t, i, r) && #[trigger] topology::edge(t, i, r) == (e.1, e.0);
        let m = 3 * i + r;
        assert(m / 3 == i && m % 3 == r);
        assert(all[m] == (e.1, e.0));
    }
    lemma_none_pass(all, all.len(), open_edge(t));
    assert forall|k: int| 0 <= k < all.len() implies !doubled_edge(t)(#[trigger] all[k]) by {
        assert(uses(t, n, all[k]) <= 1);
    }
    lemma_none_pass(all, all.len(), doubled_edge(t));
}

/// How the file is oriented, and in which unit it is written, changes neither
/// the volume nor the bounds: they are measured in view space.
pub proof fn law_orientation_keeps_the_volume<
    'a,
    F: Fn(Op, Real, Real) -> Real,
    D: Fn(Double, Real) -> Double,
>(f: F, d: D, a: Solid<'a>, b: Solid<'a>, n: nat)
    requires
        a.wf(),
        b.wf(),
        a.field == b.field,
        a.decimation == b.decimation,
        b.layout == (mesh::Layout {
            units: b.layout.units,
            orientation: b.layout.orientation,
            ..a.layout
        }),
        n <= a.mesh().len(),
    ensures
        a.mesh() == b.mesh(),
        swept(f, d, a, n) == swept(f, d, b, n),
    decreases n,
{
    if n > 0 {
        law_orientation_keeps_the_volume(f, d, a, b, (n - 1) as nat);
        let t = a.mesh()[n - 1];
        mesh::law_same_shape(f, a, b, t[0] as int);
        mesh::law_same_shape(f, a, b, t[1] as int);
        mesh::law_same_shape(f, a, b, t[2] as int);
    } else {
        mesh::law_same_shape(f, a, b, 0);
    }
}

} // verus!
