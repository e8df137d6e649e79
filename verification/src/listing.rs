//! The triangles of a solid, a few at a time.
//!
//! A solid of any size can be walked through without holding its triangles: what
//! is remembered is a row of the grid, or the blocks of a simplified surface that
//! are still to be visited.

use vstd::prelude::*;
use crate::count;
use crate::decimate::Walk;
use crate::mesh;
use crate::mesh::Solid;
use crate::progress::Fraction;

verus! {

/// No step of a listing has more triangles than this: a row, a leaf or the
/// frame. It grows with the outline of the grid, not with its area.
pub open spec fn portion(s: Solid) -> int {
    14 * (s.layout.w + s.layout.h)
}

/// How far a listing has come.
#[derive(Clone, Copy, PartialEq, Eq, Structural)]
enum Stage {
    Sheet,
    Frame,
    Done,
}

/// A listing of the triangles of a solid.
pub struct Triangles {
    stage: Stage,
    /// The next row of a full grid.
    row: usize,
    /// The rest of a simplified surface.
    walk: Option<Walk>,
    /// Triangles so far.
    done: usize,
    /// Reports so far.
    reported: Ghost<int>,
}

impl Triangles {
    /// Triangles so far.
    pub closed spec fn listed(self) -> int {
        self.done as int
    }

    /// Reports so far.
    pub closed spec fn marked(self) -> int {
        self.reported@
    }

    /// The sheet has been listed down to here.
    spec fn on_sheet(self, s: Solid) -> bool {
        match s.decimation {
            None => {
                &&& self.walk is None
                &&& self.row < s.layout.h - 1
                &&& self.done == 2 * (self.row * (s.layout.w - 1))
                &&& self.reported@ == self.row
            },
            Some(d) => {
                let q = d.tree().leaves();
                &&& self.walk matches Some(walk)
                &&& walk.ready(*d)
                &&& walk.ahead(*d) == q.subrange(self.reported@, q.len() as int)
                &&& 0 <= self.reported@ <= q.len()
                &&& self.done == count::faces_of(q.take(self.reported@))
            },
        }
    }

    /// This is a listing of this solid.
    pub closed spec fn follows(self, s: Solid) -> bool {
        &&& s.wf()
        &&& 0 <= self.done <= s.mesh().len()
        &&& 0 <= self.reported@ <= s.mesh_progress().len()
        &&& match self.stage {
            Stage::Sheet => self.on_sheet(s),
            Stage::Frame => self.done == s.surface().len() && self.reported@
                == s.surface_progress().len(),
            Stage::Done => self.done == s.mesh().len() && self.reported@ == s.mesh_progress().len(),
        }
    }

    /// What a listing that follows a solid may rely on.
    pub proof fn lemma_follows(self, s: Solid)
        requires
            self.follows(s),
        ensures
            s.wf(),
            0 <= self.listed() <= s.mesh().len(),
            0 <= self.marked() <= s.mesh_progress().len(),
    {
    }

    /// The listing before its first step.
    pub fn new(solid: &Solid) -> (r: Self)
        requires
            solid.wf(),
        ensures
            r.follows(*solid),
            r.listed() == 0,
            r.marked() == 0,
    {
        let walk: Option<Walk> = match solid.decimation() {
            None => None,
            Some(d) => Some(d.walk()),
        };
        proof {
            solid.layout.lemma_bounds();
            if let Some(d) = solid.decimation {
                let q = d.tree().leaves();
                assert(q.subrange(0, q.len() as int) =~= q);
                assert(q.take(0) =~= Seq::empty());
            }
            assert(0 * (solid.layout.w - 1) == 0);
        }
        Triangles { stage: Stage::Sheet, row: 0, walk, done: 0, reported: Ghost(0) }
    }

    /// Append the next triangles to `emit`, and what there is to report to
    /// `progress`. Nothing is appended once everything has been listed.
    pub fn next(
        &mut self,
        solid: &Solid,
        emit: &mut Vec<[u32; 3]>,
        progress: &mut Vec<Fraction>,
    ) -> (r: bool)
        requires
            old(self).follows(*solid),
        ensures
            final(self).follows(*solid),
            old(self).listed() <= final(self).listed() <= old(self).listed() + portion(*solid),
            old(self).marked() <= final(self).marked(),
            final(emit)@ == old(emit)@ + solid.mesh().subrange(
                old(self).listed(),
                final(self).listed(),
            ),
            final(progress)@ == old(progress)@ + solid.mesh_progress().subrange(
                old(self).marked(),
                final(self).marked(),
            ),
            r ==> old(self).marked() < final(self).marked(),
            !r ==> {
                &&& old(self).listed() == solid.mesh().len()
                &&& old(self).marked() == solid.mesh_progress().len()
            },
    {
        match self.stage {
            Stage::Done => {
                proof {
                    let n = self.done as int;
                    let k = self.reported@;
                    assert(emit@ =~= emit@ + solid.mesh().subrange(n, n));
                    assert(progress@ =~= progress@ + solid.mesh_progress().subrange(k, k));
                }
                false
            },
            Stage::Frame => {
                self.close(solid, emit, progress);
                true
            },
            Stage::Sheet => {
                if solid.has_leaves() {
                    self.next_leaf(solid, emit, progress);
                } else {
                    self.next_row(solid, emit, progress);
                }
                true
            },
        }
    }

    /// The frame, all at once: it is small.
    fn close(
        &mut self,
        solid: &Solid,
        emit: &mut Vec<[u32; 3]>,
        progress: &mut Vec<Fraction>,
    )
        requires
            old(self).follows(*solid),
            old(self).stage == Stage::Frame,
        ensures
            final(self).follows(*solid),
            old(self).listed() <= final(self).listed() <= old(self).listed() + portion(*solid),
            old(self).marked() < final(self).marked(),
            final(emit)@ == old(emit)@ + solid.mesh().subrange(
                old(self).listed(),
                final(self).listed(),
            ),
            final(progress)@ == old(progress)@ + solid.mesh_progress().subrange(
                old(self).marked(),
                final(self).marked(),
            ),
    {
        let ghost was = emit@;
        let ghost before = progress@;
        let ghost a = solid.surface_progress();
        let ghost b = mesh::closing_progress(solid.layout.has_frame());
        let mut marks: Vec<Fraction> = Vec::new();
        solid.for_each_frame_triangle(emit, &mut marks);
        proof {
            assert(marks@ =~= b);
            solid.lemma_marks();
        }
        mesh::append_late(progress, &marks);
        proof {
            solid.lemma_frame_len();
        }
        self.done = solid.triangle_count();
        self.stage = Stage::Done;
        proof {
            self.reported@ = solid.mesh_progress().len() as int;
            assert(solid.mesh().subrange(solid.surface().len() as int, solid.mesh().len() as int)
                =~= solid.frame());
            assert(solid.mesh_progress().subrange(
                a.len() as int,
                solid.mesh_progress().len() as int,
            ) =~= Seq::new(b.len(), |i: int| mesh::late(b[i])));
        }
    }

    /// The next row of a full grid.
    fn next_row(
        &mut self,
        solid: &Solid,
        emit: &mut Vec<[u32; 3]>,
        progress: &mut Vec<Fraction>,
    )
        requires
            old(self).follows(*solid),
            old(self).stage == Stage::Sheet,
            solid.decimation is None,
        ensures
            final(self).follows(*solid),
            old(self).listed() <= final(self).listed() <= old(self).listed() + portion(*solid),
            old(self).marked() < final(self).marked(),
            final(emit)@ == old(emit)@ + solid.mesh().subrange(
                old(self).listed(),
                final(self).listed(),
            ),
            final(progress)@ == old(progress)@ + solid.mesh_progress().subrange(
                old(self).marked(),
                final(self).marked(),
            ),
    {
        let (w, h): (usize, usize) = (solid.layout.w, solid.layout.h);
        let j: usize = self.row;
        let ghost from = 2 * (j * (w - 1));
        let ghost to = 2 * ((j + 1) * (w - 1));
        proof {
            solid.layout.lemma_bounds();
            solid.lemma_surface();
            solid.lemma_marks();
            assert(0 <= j * (w - 1) && (j + 1) * (w - 1) == j * (w - 1) + (w - 1) && (j + 1) * (w
                - 1) <= (w - 1) * (h - 1)) by (nonlinear_arith)
                requires
                    0 <= j,
                    j + 1 <= h - 1,
                    w >= 2,
            ;
            assert(j + 1 == h - 1 ==> (j + 1) * (w - 1) == (w - 1) * (h - 1)) by (nonlinear_arith);
        }
        solid.surface_row(j, emit);
        let m = Fraction { done: (j + 1) as u64, total: (h - 1) as u64 };
        assert(solid.surface_progress()[j as int] == m);
        progress.push(Fraction { done: 4 * m.done, total: 5 * m.total });
        self.row = j + 1;
        self.done = self.done + 2 * (w - 1);
        if self.row == h - 1 {
            self.stage = Stage::Frame;
        }
        proof {
            self.reported@ = self.reported@ + 1;
            assert(solid.mesh().subrange(from, to) =~= solid.surface().subrange(from, to));
            assert(solid.mesh_progress()[j as int] == mesh::early(m));
            assert(solid.mesh_progress().subrange(j as int, j + 1) =~= seq![mesh::early(m)]);
        }
    }

    /// The next leaf of a simplified surface.
    fn next_leaf(
        &mut self,
        solid: &Solid,
        emit: &mut Vec<[u32; 3]>,
        progress: &mut Vec<Fraction>,
    )
        requires
            old(self).follows(*solid),
            old(self).stage == Stage::Sheet,
            solid.decimation is Some,
        ensures
            final(self).follows(*solid),
            old(self).listed() <= final(self).listed() <= old(self).listed() + portion(*solid),
            old(self).marked() < final(self).marked(),
            final(emit)@ == old(emit)@ + solid.mesh().subrange(
                old(self).listed(),
                final(self).listed(),
            ),
            final(progress)@ == old(progress)@ + solid.mesh_progress().subrange(
                old(self).marked(),
                final(self).marked(),
            ),
    {
        let d = match solid.decimation() {
            Some(d) => d,
            None => {
                return;
            },
        };
        let ghost q = d.tree().leaves();
        let ghost n = self.reported@;
        let ghost from = self.done as int;
        let total: usize = d.triangles();
        proof {
            d.lemma_all_triangles();
            solid.lemma_surface();
            solid.lemma_marks();
        }
        let step = match &mut self.walk {
            Some(walk) => walk.next(d),
            None => None,
        };
        let m = match step {
            Some(leaf) => {
                proof {
                    let rest = q.subrange(n, q.len() as int);
                    assert(rest == seq![leaf.square()] + self.walk->0.ahead(*d));
                    assert(rest.len() == 1 + self.walk->0.ahead(*d).len());
                    assert(rest[0] == leaf.square());
                    assert(q[n] == leaf.square());
                    assert(q.contains(leaf.square()));
                    d.lemma_leaf_triangles(n);
                    assert(self.walk->0.ahead(*d) =~= rest.subrange(1, rest.len() as int));
                    assert(self.walk->0.ahead(*d) =~= q.subrange(n + 1, q.len() as int));
                }
                proof {
                    leaf.square().lemma_face_count();
                    solid.layout.lemma_bounds();
                }
                d.leaf_triangles(&leaf, emit);
                self.done = self.done + leaf.triangles();
                assert(solid.mesh().subrange(from, self.done as int) =~= solid.surface().subrange(
                    from,
                    self.done as int,
                ));
                Fraction { done: self.done as u64, total: total as u64 }
            },
            None => {
                proof {
                    assert(n == q.len());
                    assert(q.take(n) =~= q);
                    assert(emit@ =~= emit@ + solid.mesh().subrange(from, from));
                }
                self.stage = Stage::Frame;
                Fraction { done: 1, total: 1 }
            },
        };
        assert(solid.surface_progress()[n] == m);
        progress.push(Fraction { done: 4 * m.done, total: 5 * m.total });
        proof {
            self.reported@ = n + 1;
            assert(solid.mesh_progress()[n] == mesh::early(m));
            assert(solid.mesh_progress().subrange(n, n + 1) =~= seq![mesh::early(m)]);
        }
    }
}

} // verus!
