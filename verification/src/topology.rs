//! What it means for a list of triangles to be a closed, consistently wound
//! surface, and how a sheet with one open border grows into one.

use vstd::prelude::*;

verus! {

/// Slot `s` of triangle `i` exists.
pub open spec fn slot<V>(t: Seq<[V; 3]>, i: int, s: int) -> bool {
    0 <= i < t.len() && 0 <= s < 3
}

/// The directed edge that triangle `i` runs along in its slot `s`.
pub open spec fn edge<V>(t: Seq<[V; 3]>, i: int, s: int) -> (V, V) {
    (t[i][s], t[i][if s == 2 { 0 } else { s + 1 }])
}

/// Some triangle runs from `u` to `v`.
pub open spec fn has_edge<V>(t: Seq<[V; 3]>, u: V, v: V) -> bool {
    exists|i: int, s: int| slot(t, i, s) && #[trigger] edge(t, i, s) == (u, v)
}

/// No directed edge is run along twice.
pub open spec fn oriented<V>(t: Seq<[V; 3]>) -> bool {
    forall|i: int, s: int, j: int, r: int|
        slot(t, i, s) && slot(t, j, r) && #[trigger] edge(t, i, s) == #[trigger] edge(t, j, r)
            ==> i == j && s == r
}

/// Every directed edge is also run along backwards.
pub open spec fn sealed<V>(t: Seq<[V; 3]>) -> bool {
    forall|u: V, v: V| #[trigger] has_edge(t, u, v) ==> has_edge(t, v, u)
}

/// A closed surface, wound the same way throughout: every directed edge occurs
/// exactly once, and so does its reverse.
pub open spec fn watertight<V>(t: Seq<[V; 3]>) -> bool {
    oriented(t) && sealed(t)
}

/// The index after `k` in a cycle of length `n`.
pub open spec fn succ(k: int, n: int) -> int {
    if k + 1 == n {
        0
    } else {
        k + 1
    }
}

/// `v` comes right after `u` in the cycle.
pub open spec fn follows<V>(c: Seq<V>, u: V, v: V) -> bool {
    exists|k: int| 0 <= k < c.len() && #[trigger] c[k] == u && c[succ(k, c.len() as int)] == v
}

/// The open edges of `t`, those without a reverse, are exactly the steps of the
/// cycle `c`.
pub open spec fn bounded_by<V>(t: Seq<[V; 3]>, c: Seq<V>) -> bool {
    forall|u: V, v: V|
        (#[trigger] has_edge(t, u, v) && !has_edge(t, v, u)) <==> follows(c, u, v)
}

/// Every corner of `t` is below `top`.
pub open spec fn below(t: Seq<[u32; 3]>, top: int) -> bool {
    forall|i: int, s: int| slot(t, i, s) ==> #[trigger] t[i][s] < top
}

/// A sheet: consistently wound, open along the one cycle `c` and nowhere else,
/// on vertices below `top`.
pub open spec fn sheet(t: Seq<[u32; 3]>, c: Seq<u32>, top: int) -> bool {
    &&& oriented(t)
    &&& below(t, top)
    &&& c.len() >= 3
    &&& c.no_duplicates()
    &&& forall|k: int| 0 <= k < c.len() ==> #[trigger] c[k] < top
    &&& bounded_by(t, c)
}

/// The ring of `n` fresh vertices from `base` on.
pub open spec fn ring(base: int, n: nat) -> Seq<u32> {
    Seq::new(n, |k: int| (base + k) as u32)
}

/// Two triangles per step between the cycles `a` and `b`.
pub open spec fn strip(a: Seq<u32>, b: Seq<u32>) -> Seq<[u32; 3]> {
    let n = a.len() as int;
    Seq::new(
        2 * a.len(),
        |i: int|
            if i % 2 == 0 {
                [a[i / 2], b[succ(i / 2, n)], a[succ(i / 2, n)]]
            } else {
                [a[i / 2], b[i / 2], b[succ(i / 2, n)]]
            },
    )
}

/// One triangle per step of the cycle `a`, closing it over `centre`.
pub open spec fn fan(a: Seq<u32>, centre: u32) -> Seq<[u32; 3]> {
    Seq::new(a.len(), |k: int| [centre, a[succ(k, a.len() as int)], a[k]])
}

pub proof fn lemma_has_edge<V>(t: Seq<[V; 3]>, i: int, s: int)
    requires
        slot(t, i, s),
    ensures
        has_edge(t, edge(t, i, s).0, edge(t, i, s).1),
{
}

pub proof fn lemma_concat_edges<V>(a: Seq<[V; 3]>, b: Seq<[V; 3]>)
    ensures
        forall|u: V, v: V| #[trigger]
            has_edge(a + b, u, v) <==> has_edge(a, u, v) || has_edge(b, u, v),
{
    let t = a + b;
    let n = a.len() as int;
    assert forall|u: V, v: V| #[trigger] has_edge(t, u, v) implies has_edge(a, u, v) || has_edge(
        b,
        u,
        v,
    ) by {
        let (i, s) = choose|i: int, s: int| slot(t, i, s) && #[trigger] edge(t, i, s) == (u, v);
        if i < n {
            assert(edge(a, i, s) == (u, v));
        } else {
            assert(edge(b, i - n, s) == (u, v));
        }
    }
    assert forall|u: V, v: V| has_edge(a, u, v) implies #[trigger] has_edge(t, u, v) by {
        let (i, s) = choose|i: int, s: int| slot(a, i, s) && #[trigger] edge(a, i, s) == (u, v);
        assert(edge(t, i, s) == (u, v));
    }
    assert forall|u: V, v: V| has_edge(b, u, v) implies #[trigger] has_edge(t, u, v) by {
        let (i, s) = choose|i: int, s: int| slot(b, i, s) && #[trigger] edge(b, i, s) == (u, v);
        assert(edge(t, n + i, s) == (u, v));
    }
}

/// Two consistently wound lists without a directed edge in common are
/// consistently wound together.
pub proof fn lemma_concat_oriented<V>(a: Seq<[V; 3]>, b: Seq<[V; 3]>)
    requires
        oriented(a),
        oriented(b),
        forall|u: V, v: V| !(#[trigger] has_edge(a, u, v) && has_edge(b, u, v)),
    ensures
        oriented(a + b),
{
    let t = a + b;
    let n = a.len() as int;
    assert forall|i: int, s: int, j: int, r: int|
        slot(t, i, s) && slot(t, j, r) && #[trigger] edge(t, i, s) == #[trigger] edge(
            t,
            j,
            r,
        ) implies i == j && s == r by {
        let e = edge(t, i, s);
        if i < n {
            assert(edge(a, i, s) == e);
            lemma_has_edge(a, i, s);
        } else {
            assert(edge(b, i - n, s) == e);
            lemma_has_edge(b, i - n, s);
        }
        if j < n {
            assert(edge(a, j, r) == e);
            lemma_has_edge(a, j, r);
        } else {
            assert(edge(b, j - n, r) == e);
            lemma_has_edge(b, j - n, r);
        }
    }
}

/// The six directed edges of one step of a strip.
spec fn strip_edge(a: Seq<u32>, b: Seq<u32>, k: int, e: int) -> (u32, u32) {
    let k2 = succ(k, a.len() as int);
    if e == 0 {
        (a[k], b[k2])
    } else if e == 1 {
        (b[k2], a[k2])
    } else if e == 2 {
        (a[k2], a[k])
    } else if e == 3 {
        (a[k], b[k])
    } else if e == 4 {
        (b[k], b[k2])
    } else {
        (b[k2], a[k])
    }
}

proof fn lemma_strip_slots(a: Seq<u32>, b: Seq<u32>)
    requires
        a.len() >= 1,
    ensures
        forall|i: int, s: int|
            slot(strip(a, b), i, s) ==> #[trigger] edge(strip(a, b), i, s) == strip_edge(
                a,
                b,
                i / 2,
                (i % 2) * 3 + s,
            ),
        forall|k: int, e: int|
            0 <= k < a.len() && 0 <= e < 6 ==> has_edge(
                strip(a, b),
                (#[trigger] strip_edge(a, b, k, e)).0,
                strip_edge(a, b, k, e).1,
            ),
{
    let t = strip(a, b);
    assert forall|k: int, e: int| 0 <= k < a.len() && 0 <= e < 6 implies has_edge(
        t,
        (#[trigger] strip_edge(a, b, k, e)).0,
        strip_edge(a, b, k, e).1,
    ) by {
        let i = 2 * k + e / 3;
        let s = e % 3;
        assert(edge(t, i, s) == strip_edge(a, b, k, e));
        lemma_has_edge(t, i, s);
    }
}

/// A sheet grows by one ring: the strip from its border out to fresh vertices
/// closes the old border and opens along the new ring instead.
pub proof fn lemma_grow(t: Seq<[u32; 3]>, c: Seq<u32>, top: int)
    requires
        sheet(t, c, top),
        0 <= top,
        top + c.len() <= u32::MAX,
    ensures
        sheet(t + strip(c, ring(top, c.len())), ring(top, c.len()), top + c.len()),
{
    let n = c.len() as int;
    let b = ring(top, c.len());
    let st = strip(c, b);
    let all = t + st;
    lemma_strip_slots(c, b);
    assert forall|i: int, s: int, j: int, r: int|
        slot(st, i, s) && slot(st, j, r) && #[trigger] edge(st, i, s) == #[trigger] edge(
            st,
            j,
            r,
        ) implies i == j && s == r by {
        let k = i / 2;
        let e = (i % 2) * 3 + s;
        let l = j / 2;
        let f = (j % 2) * 3 + r;
        assert(strip_edge(c, b, k, e) == strip_edge(c, b, l, f));
        assert(c[k] == c[l] ==> k == l);
        assert(c[succ(k, n)] == c[succ(l, n)] ==> k == l);
        assert(k == l);
        assert(e == f);
    }
    assert(oriented(st));
    assert forall|u: u32, v: u32| #[trigger] has_edge(t, u, v) implies u < top && v < top by {
        let (i, s) = choose|i: int, s: int| slot(t, i, s) && #[trigger] edge(t, i, s) == (u, v);
        assert(t[i][s] < top);
        assert(t[i][if s == 2 { 0 } else { s + 1 }] < top);
    }
    assert forall|u: u32, v: u32| !(#[trigger] has_edge(t, u, v) && has_edge(st, u, v)) by {
        if has_edge(t, u, v) && has_edge(st, u, v) {
            let (i, s) = choose|i: int, s: int|
                slot(st, i, s) && #[trigger] edge(st, i, s) == (u, v);
            let k = i / 2;
            let e = (i % 2) * 3 + s;
            assert(strip_edge(c, b, k, e) == (u, v));
            assert(e == 2);
            assert(c[k] == v && c[succ(k, n)] == u);
            assert(follows(c, v, u));
            assert(has_edge(t, v, u) && !has_edge(t, u, v));
        }
    }
    lemma_concat_oriented(t, st);
    lemma_concat_edges(t, st);
    assert forall|i: int, s: int| slot(all, i, s) implies #[trigger] all[i][s] < top + n by {
        if i < t.len() {
            assert(t[i][s] < top);
        } else {
            let k = (i - t.len()) / 2;
            assert(c[k] < top && c[succ(k, n)] < top);
        }
    }
    assert forall|u: u32, v: u32|
        (#[trigger] has_edge(all, u, v) && !has_edge(all, v, u)) <==> follows(b, u, v) by {
        if has_edge(all, u, v) && !has_edge(all, v, u) {
            if has_edge(t, u, v) {
                assert(!has_edge(t, v, u));
                assert(follows(c, u, v));
                let k = choose|k: int|
                    0 <= k < c.len() && #[trigger] c[k] == u && c[succ(k, n)] == v;
                assert(strip_edge(c, b, k, 2) == (v, u));
                assert(false);
            } else {
                let (i, s) = choose|i: int, s: int|
                    slot(st, i, s) && #[trigger] edge(st, i, s) == (u, v);
                let k = i / 2;
                let e = (i % 2) * 3 + s;
                assert(strip_edge(c, b, k, e) == (u, v));
                let k2 = succ(k, n);
                if e == 0 {
                    assert(strip_edge(c, b, k, 5) == (v, u));
                } else if e == 1 {
                    assert(strip_edge(c, b, k2, 3) == (v, u));
                } else if e == 2 {
                    assert(follows(c, v, u));
                } else if e == 3 {
                    let k0 = if k == 0 {
                        n - 1
                    } else {
                        k - 1
                    };
                    assert(strip_edge(c, b, k0, 1) == (v, u));
                } else if e == 5 {
                    assert(strip_edge(c, b, k, 0) == (v, u));
                } else {
                    assert(b[k] == u && b[k2] == v);
                }
            }
        }
        if follows(b, u, v) {
            let k = choose|k: int| 0 <= k < b.len() && #[trigger] b[k] == u && b[succ(k, n)] == v;
            assert(strip_edge(c, b, k, 4) == (u, v));
            if has_edge(all, v, u) {
                if has_edge(t, v, u) {
                    assert(u < top);
                } else {
                    let (i, s) = choose|i: int, s: int|
                        slot(st, i, s) && #[trigger] edge(st, i, s) == (v, u);
                    let l = i / 2;
                    let e = (i % 2) * 3 + s;
                    assert(strip_edge(c, b, l, e) == (v, u));
                    assert(c[l] < top && c[succ(l, n)] < top);
                    assert(e == 4);
                    assert(b[l] == v && b[succ(l, n)] == u);
                    assert(l == succ(k, n) && k == succ(l, n));
                    assert(false);
                }
            }
        }
    }
}

/// A sheet closes: a fan over one more fresh vertex leaves no open edge.
pub proof fn lemma_close(t: Seq<[u32; 3]>, c: Seq<u32>, top: int)
    requires
        sheet(t, c, top),
        0 <= top <= u32::MAX,
    ensures
        watertight(t + fan(c, top as u32)),
        below(t + fan(c, top as u32), top + 1),
{
    let n = c.len() as int;
    let m = top as u32;
    let f = fan(c, m);
    let all = t + f;
    assert forall|u: u32, v: u32| #[trigger] has_edge(t, u, v) implies u < top && v < top by {
        let (i, s) = choose|i: int, s: int| slot(t, i, s) && #[trigger] edge(t, i, s) == (u, v);
        assert(t[i][s] < top);
        assert(t[i][if s == 2 { 0 } else { s + 1 }] < top);
    }
    assert forall|k: int| 0 <= k < n implies c[k] < top && #[trigger] edge(f, k, 0) == (
        m,
        c[succ(k, n)],
    ) && edge(f, k, 1) == (c[succ(k, n)], c[k]) && edge(f, k, 2) == (c[k], m) by {
        assert(c[k] < top && c[succ(k, n)] < top);
    }
    assert forall|i: int, s: int, j: int, r: int|
        slot(f, i, s) && slot(f, j, r) && #[trigger] edge(f, i, s) == #[trigger] edge(
            f,
            j,
            r,
        ) implies i == j && s == r by {
        assert(edge(f, i, 0) == (m, c[succ(i, n)]));
        assert(edge(f, j, 0) == (m, c[succ(j, n)]));
        assert(c[i] < top && c[succ(i, n)] < top && c[j] < top && c[succ(j, n)] < top);
        assert(c[i] == c[j] ==> i == j);
        assert(c[succ(i, n)] == c[succ(j, n)] ==> i == j);
    }
    assert forall|u: u32, v: u32| !(#[trigger] has_edge(t, u, v) && has_edge(f, u, v)) by {
        if has_edge(t, u, v) && has_edge(f, u, v) {
            let (i, s) = choose|i: int, s: int| slot(f, i, s) && #[trigger] edge(f, i, s) == (u, v);
            assert(edge(f, i, 0) == (m, c[succ(i, n)]));
            assert(s == 1);
            assert(c[i] == v && c[succ(i, n)] == u);
            assert(follows(c, v, u));
            assert(has_edge(t, v, u) && !has_edge(t, u, v));
        }
    }
    lemma_concat_oriented(t, f);
    lemma_concat_edges(t, f);
    assert forall|u: u32, v: u32| #[trigger] has_edge(all, u, v) implies has_edge(all, v, u) by {
        if has_edge(t, u, v) {
            if !has_edge(t, v, u) {
                assert(follows(c, u, v));
                let k = choose|k: int|
                    0 <= k < c.len() && #[trigger] c[k] == u && c[succ(k, n)] == v;
                assert(edge(f, k, 0) == (m, c[succ(k, n)]));
                assert(edge(f, k, 1) == (v, u));
            }
        } else {
            let (i, s) = choose|i: int, s: int| slot(f, i, s) && #[trigger] edge(f, i, s) == (u, v);
            assert(edge(f, i, 0) == (m, c[succ(i, n)]));
            if s == 0 {
                let k2 = succ(i, n);
                assert(edge(f, k2, 0) == (m, c[succ(k2, n)]));
                assert(edge(f, k2, 2) == (v, u));
            } else if s == 2 {
                let k0 = if i == 0 {
                    n - 1
                } else {
                    i - 1
                };
                assert(edge(f, k0, 0) == (v, u));
            } else {
                assert(c[i] == v && c[succ(i, n)] == u);
                assert(follows(c, v, u));
            }
        }
    }
    assert forall|i: int, s: int| slot(all, i, s) implies #[trigger] all[i][s] < top + 1 by {
        if i < t.len() {
            assert(t[i][s] < top);
        } else {
            let k = i - t.len();
            assert(c[k] < top && c[succ(k, n)] < top);
        }
    }
}

/// The parts one after another.
pub open spec fn join<T>(parts: Seq<Seq<T>>) -> Seq<T>
    decreases parts.len(),
{
    if parts.len() == 0 {
        Seq::empty()
    } else {
        join(parts.drop_last()) + parts.last()
    }
}

/// Where part `a` starts in the whole.
pub open spec fn start<T>(parts: Seq<Seq<T>>, a: int) -> int {
    join(parts.take(a)).len() as int
}

/// Every position of the whole belongs to a position of one part.
pub proof fn lemma_locate<T>(parts: Seq<Seq<T>>, i: int) -> (at: (int, int))
    requires
        0 <= i < join(parts).len(),
    ensures
        0 <= at.0 < parts.len(),
        0 <= at.1 < parts[at.0].len(),
        i == start(parts, at.0) + at.1,
        join(parts)[i] == parts[at.0][at.1],
    decreases parts.len(),
{
    let init = parts.drop_last();
    let n = parts.len() as int;
    if i < join(init).len() {
        let at = lemma_locate(init, i);
        assert(init.take(at.0) =~= parts.take(at.0));
        at
    } else {
        assert(parts.take(n - 1) =~= init);
        (n - 1, i - join(init).len())
    }
}

/// Every position of a part has its place in the whole.
pub proof fn lemma_place<T>(parts: Seq<Seq<T>>, a: int, b: int)
    requires
        0 <= a < parts.len(),
        0 <= b < parts[a].len(),
    ensures
        0 <= start(parts, a) + b < join(parts).len(),
        join(parts)[start(parts, a) + b] == parts[a][b],
    decreases parts.len(),
{
    let init = parts.drop_last();
    let n = parts.len() as int;
    if a < n - 1 {
        lemma_place(init, a, b);
        assert(init.take(a) =~= parts.take(a));
    } else {
        assert(parts.take(a) =~= init);
    }
}

/// The whole runs along an edge when one of the parts does.
pub proof fn lemma_join_edges<V>(parts: Seq<Seq<[V; 3]>>)
    ensures
        forall|a: int, u: V, v: V|
            0 <= a < parts.len() && #[trigger] has_edge(parts[a], u, v) ==> has_edge(
                join(parts),
                u,
                v,
            ),
        forall|u: V, v: V| #[trigger]
            has_edge(join(parts), u, v) ==> exists|a: int|
                0 <= a < parts.len() && #[trigger] has_edge(parts[a], u, v),
{
    let t = join(parts);
    assert forall|a: int, u: V, v: V|
        0 <= a < parts.len() && #[trigger] has_edge(parts[a], u, v) implies has_edge(t, u, v) by {
        let p = parts[a];
        let (i, s) = choose|i: int, s: int| slot(p, i, s) && #[trigger] edge(p, i, s) == (u, v);
        lemma_place(parts, a, i);
        assert(edge(t, start(parts, a) + i, s) == (u, v));
    }
    assert forall|u: V, v: V| #[trigger] has_edge(t, u, v) implies exists|a: int|
        0 <= a < parts.len() && #[trigger] has_edge(parts[a], u, v) by {
        let (i, s) = choose|i: int, s: int| slot(t, i, s) && #[trigger] edge(t, i, s) == (u, v);
        let at = lemma_locate(parts, i);
        assert(edge(parts[at.0], at.1, s) == (u, v));
        assert(has_edge(parts[at.0], u, v));
    }
}

/// Consistently wound parts make a consistently wound whole when no directed
/// edge occurs in two of them.
pub proof fn lemma_join_oriented<V>(parts: Seq<Seq<[V; 3]>>)
    requires
        forall|a: int| 0 <= a < parts.len() ==> oriented(#[trigger] parts[a]),
        forall|a: int, b: int, u: V, v: V|
            0 <= a < parts.len() && 0 <= b < parts.len() && #[trigger] has_edge(parts[a], u, v)
                && #[trigger] has_edge(parts[b], u, v) ==> a == b,
    ensures
        oriented(join(parts)),
{
    let t = join(parts);
    assert forall|i: int, s: int, j: int, r: int|
        slot(t, i, s) && slot(t, j, r) && #[trigger] edge(t, i, s) == #[trigger] edge(
            t,
            j,
            r,
        ) implies i == j && s == r by {
        let e = edge(t, i, s);
        let x = lemma_locate(parts, i);
        let y = lemma_locate(parts, j);
        assert(edge(parts[x.0], x.1, s) == e);
        assert(edge(parts[y.0], y.1, r) == e);
        lemma_has_edge(parts[x.0], x.1, s);
        lemma_has_edge(parts[y.0], y.1, r);
        assert(x.0 == y.0);
        assert(oriented(parts[x.0]));
    }
}


/// A triangle with its corners renamed.
pub open spec fn renamed<V>(name: spec_fn(V) -> u32, t: [V; 3]) -> [u32; 3] {
    [name(t[0]), name(t[1]), name(t[2])]
}

pub open spec fn renamed_all<V>(name: spec_fn(V) -> u32, t: Seq<[V; 3]>) -> Seq<[u32; 3]> {
    Seq::new(t.len(), |i: int| renamed(name, t[i]))
}

pub proof fn lemma_renamed_concat<V>(name: spec_fn(V) -> u32, a: Seq<[V; 3]>, b: Seq<[V; 3]>)
    ensures
        renamed_all(name, a + b) == renamed_all(name, a) + renamed_all(name, b),
{
    assert(renamed_all(name, a + b) =~= renamed_all(name, a) + renamed_all(name, b));
}

/// Renaming the corners one for one keeps a consistently wound surface with one
/// open border what it is.
pub proof fn lemma_renamed<V>(
    t: Seq<[V; 3]>,
    c: Seq<V>,
    known: spec_fn(V) -> bool,
    name: spec_fn(V) -> u32,
    top: int,
)
    requires
        oriented(t),
        bounded_by(t, c),
        c.no_duplicates(),
        c.len() >= 3,
        forall|i: int, s: int| slot(t, i, s) ==> known(#[trigger] t[i][s]),
        forall|k: int| 0 <= k < c.len() ==> known(#[trigger] c[k]),
        forall|u: V, v: V|
            known(u) && known(v) && #[trigger] name(u) == #[trigger] name(v) ==> u == v,
        forall|u: V| known(u) ==> #[trigger] name(u) < top,
    ensures
        sheet(renamed_all(name, t), Seq::new(c.len(), |k: int| name(c[k])), top),
{
    let rt = renamed_all(name, t);
    let rc = Seq::new(c.len(), |k: int| name(c[k]));
    assert forall|i: int, s: int| slot(t, i, s) implies #[trigger] edge(rt, i, s) == (
        name(edge(t, i, s).0),
        name(edge(t, i, s).1),
    ) && known(edge(t, i, s).0) && known(edge(t, i, s).1) by {
        assert(known(t[i][s]));
        assert(known(t[i][if s == 2 { 0 } else { s + 1 }]));
    }
    assert forall|i: int, s: int, j: int, r: int|
        slot(rt, i, s) && slot(rt, j, r) && #[trigger] edge(rt, i, s) == #[trigger] edge(
            rt,
            j,
            r,
        ) implies i == j && s == r by {
        assert(slot(t, i, s) && slot(t, j, r));
        let e = edge(t, i, s);
        let f = edge(t, j, r);
        assert(name(e.0) == name(f.0) && name(e.1) == name(f.1));
        assert(e == f);
    }
    assert forall|i: int, s: int| slot(rt, i, s) implies #[trigger] rt[i][s] < top by {
        assert(slot(t, i, s));
        assert(known(t[i][s]));
        assert(rt[i][s] == name(t[i][s]));
    }
    assert forall|u: V, v: V| known(u) && known(v) implies has_edge(
        rt,
        #[trigger] name(u),
        #[trigger] name(v),
    ) == has_edge(t, u, v) by {
        if has_edge(t, u, v) {
            let (i, s) = choose|i: int, s: int| slot(t, i, s) && #[trigger] edge(t, i, s) == (u, v);
            assert(slot(rt, i, s));
            assert(edge(rt, i, s) == (name(u), name(v)));
        }
        if has_edge(rt, name(u), name(v)) {
            let (i, s) = choose|i: int, s: int|
                slot(rt, i, s) && #[trigger] edge(rt, i, s) == (name(u), name(v));
            assert(slot(t, i, s));
            let e = edge(t, i, s);
            assert(name(e.0) == name(u) && name(e.1) == name(v));
            assert(edge(t, i, s) == (u, v));
        }
    }
    assert forall|a: u32, b: u32|
        (#[trigger] has_edge(rt, a, b) && !has_edge(rt, b, a)) <==> follows(rc, a, b) by {
        if has_edge(rt, a, b) && !has_edge(rt, b, a) {
            let (i, s) = choose|i: int, s: int| slot(rt, i, s) && #[trigger] edge(rt, i, s) == (a, b);
            assert(slot(t, i, s));
            let (u, v) = edge(t, i, s);
            lemma_has_edge(t, i, s);
            assert(name(u) == a && name(v) == b);
            assert(has_edge(t, u, v) && !has_edge(t, v, u));
            assert(follows(c, u, v));
            let k = choose|k: int|
                0 <= k < c.len() && #[trigger] c[k] == u && c[succ(k, c.len() as int)] == v;
            assert(rc[k] == a && rc[succ(k, rc.len() as int)] == b);
        }
        if follows(rc, a, b) {
            let k = choose|k: int|
                0 <= k < rc.len() && #[trigger] rc[k] == a && rc[succ(k, rc.len() as int)] == b;
            let u = c[k];
            let v = c[succ(k, c.len() as int)];
            assert(follows(c, u, v));
            assert(has_edge(t, u, v) && !has_edge(t, v, u));
            assert(name(u) == a && name(v) == b);
        }
    }
    assert forall|i: int, j: int| 0 <= i < rc.len() && 0 <= j < rc.len() && i != j implies rc[i]
        != rc[j] by {
        assert(known(c[i]) && known(c[j]));
    }
}

/// No triangle uses a corner twice.
pub open spec fn proper<V>(t: Seq<[V; 3]>) -> bool {
    forall|i: int|
        0 <= i < t.len() ==> (#[trigger] t[i])[0] != t[i][1] && t[i][1] != t[i][2] && t[i][2]
            != t[i][0]
}

/// The vertex is a corner of some triangle.
pub open spec fn occurs<V>(t: Seq<[V; 3]>, v: V) -> bool {
    exists|i: int, s: int| slot(t, i, s) && #[trigger] t[i][s] == v
}

/// No triangle uses a corner twice, and every vertex below `top` is used.
pub open spec fn tight(t: Seq<[u32; 3]>, top: int) -> bool {
    proper(t) && forall|v: u32| v < top ==> #[trigger] occurs(t, v)
}

/// What occurs in a part occurs in the whole.
proof fn lemma_occurs<V>(a: Seq<[V; 3]>, b: Seq<[V; 3]>, v: V)
    requires
        occurs(a, v) || occurs(b, v),
    ensures
        occurs(a + b, v),
{
    if occurs(a, v) {
        let (i, s) = choose|i: int, s: int| slot(a, i, s) && #[trigger] a[i][s] == v;
        assert(slot(a + b, i, s) && (a + b)[i][s] == v);
    } else {
        let (i, s) = choose|i: int, s: int| slot(b, i, s) && #[trigger] b[i][s] == v;
        assert(slot(a + b, a.len() + i, s) && (a + b)[a.len() + i][s] == v);
    }
}

/// A strip to a fresh ring uses the ring, and no corner twice.
pub proof fn lemma_tight_strip(t: Seq<[u32; 3]>, c: Seq<u32>, top: int)
    requires
        tight(t, top),
        c.len() >= 3,
        c.no_duplicates(),
        forall|k: int| 0 <= k < c.len() ==> #[trigger] c[k] < top,
        0 <= top,
        top + c.len() <= u32::MAX,
    ensures
        tight(t + strip(c, ring(top, c.len())), top + c.len()),
{
    let n = c.len() as int;
    let r = ring(top, c.len());
    let p = strip(c, r);
    let all = t + p;
    assert forall|i: int| 0 <= i < all.len() implies (#[trigger] all[i])[0] != all[i][1]
        && all[i][1] != all[i][2] && all[i][2] != all[i][0] by {
        if i < t.len() {
            assert(all[i] == t[i]);
        } else {
            let j = i - t.len();
            assert(all[i] == p[j]);
            let k = j / 2;
            let m = succ(k, n);
            assert(0 <= k < n && 0 <= m < n && k != m);
            assert(c[k] != c[m] && c[k] < top && c[m] < top);
            assert(r[k] == top + k && r[m] == top + m);
        }
    }
    assert forall|v: u32| v < top + n implies #[trigger] occurs(all, v) by {
        if v < top {
            assert(occurs(t, v));
        } else {
            let k = v - top;
            assert((2 * k + 1) / 2 == k && (2 * k + 1) % 2 == 1);
            assert(slot(p, 2 * k + 1, 1));
            assert(p[2 * k + 1][1] == r[k]);
            assert(occurs(p, v));
        }
        lemma_occurs(t, p, v);
    }
}

/// A fan over a fresh vertex uses it, and no corner twice.
pub proof fn lemma_tight_fan(t: Seq<[u32; 3]>, c: Seq<u32>, top: int)
    requires
        tight(t, top),
        c.len() >= 3,
        c.no_duplicates(),
        forall|k: int| 0 <= k < c.len() ==> #[trigger] c[k] < top,
        0 <= top <= u32::MAX,
    ensures
        tight(t + fan(c, top as u32), top + 1),
{
    let n = c.len() as int;
    let p = fan(c, top as u32);
    let all = t + p;
    assert forall|i: int| 0 <= i < all.len() implies (#[trigger] all[i])[0] != all[i][1]
        && all[i][1] != all[i][2] && all[i][2] != all[i][0] by {
        if i < t.len() {
            assert(all[i] == t[i]);
        } else {
            let k = i - t.len();
            assert(all[i] == p[k]);
            let m = succ(k, n);
            assert(0 <= m < n && k != m);
            assert(c[k] != c[m] && c[k] < top && c[m] < top);
        }
    }
    assert forall|v: u32| v < top + 1 implies #[trigger] occurs(all, v) by {
        if v < top {
            assert(occurs(t, v));
        } else {
            assert(slot(p, 0, 0) && p[0][0] == v);
            assert(occurs(p, v));
        }
        lemma_occurs(t, p, v);
    }
}

/// The vertices of a fresh ring are distinct.
pub proof fn lemma_ring(top: int, n: nat)
    requires
        0 <= top,
        top + n <= u32::MAX,
    ensures
        ring(top, n).len() == n,
        ring(top, n).no_duplicates(),
        forall|k: int| 0 <= k < n ==> #[trigger] ring(top, n)[k] < top + n,
{
}

} // verus!
