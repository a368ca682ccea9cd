//! Triangular surface mesh topology: vertex-to-face adjacency, ring-1
//! neighbourhoods and border detection.
//!
//! A mesh is built from the vertex-index triples of its faces.  The adjacency
//! index maps each vertex to its incident faces in face order; a vertex is a
//! border vertex when some edge through it is used by exactly one face.
//! Geometry (positions, normals) stays with the caller: the smoothing of
//! positions only ever consults this topology, which no method mutates.

use vstd::prelude::*;

use crate::traverse::{lemma_reach_in_closed_set, lemma_reach_seed, lemma_reach_step, reaches};
use std::collections::VecDeque;

verus! {

/// A face this construction accepts: a triangle over vertex indices below
/// `nv` with three distinct corners.  Distinctness is a validation this
/// library imposes at construction (a degenerate face is rejected as an
/// invalid argument): the adjacency and border characterisations below are
/// proved for meshes of such faces, whose three edges are exactly the
/// two-element corner pairs.
pub open spec fn face_ok(nv: int, f: (usize, usize, usize)) -> bool {
    f.0 < nv && f.1 < nv && f.2 < nv && f.0 != f.1 && f.1 != f.2 && f.0 != f.2
}

/// Face `f` is incident to vertex `v`.
pub open spec fn incident(faces: Seq<(usize, usize, usize)>, v: int, f: int) -> bool {
    0 <= f < faces.len() && (faces[f].0 == v || faces[f].1 == v || faces[f].2 == v)
}

/// Face `f` uses the edge `{a, b}`: both endpoints are corners of the face
/// and they differ.  For faces with distinct corners this names exactly the
/// three edges of the triangle.
pub open spec fn contains_edge(faces: Seq<(usize, usize, usize)>, f: int, a: int, b: int) -> bool {
    &&& 0 <= f < faces.len()
    &&& a != b
    &&& (faces[f].0 == a || faces[f].1 == a || faces[f].2 == a)
    &&& (faces[f].0 == b || faces[f].1 == b || faces[f].2 == b)
}

/// Number of faces among the first `n` that use the edge `{a, b}`.
pub open spec fn edge_count_upto(
    faces: Seq<(usize, usize, usize)>,
    a: int,
    b: int,
    n: int,
) -> int
    decreases n,
{
    if n <= 0 {
        0
    } else {
        edge_count_upto(faces, a, b, n - 1) + if contains_edge(faces, n - 1, a, b) {
            1int
        } else {
            0int
        }
    }
}

/// Number of faces that use the edge `{a, b}`.
pub open spec fn edge_count(faces: Seq<(usize, usize, usize)>, a: int, b: int) -> int {
    edge_count_upto(faces, a, b, faces.len() as int)
}

/// The edge count does not depend on the order of the endpoints.
pub proof fn lemma_edge_count_sym(faces: Seq<(usize, usize, usize)>, a: int, b: int, n: int)
    ensures
        edge_count_upto(faces, a, b, n) == edge_count_upto(faces, b, a, n),
    decreases n,
{
    if n > 0 {
        lemma_edge_count_sym(faces, a, b, n - 1);
    }
}

/// A positive edge count names a face that uses the edge.
pub proof fn lemma_edge_count_witness(faces: Seq<(usize, usize, usize)>, a: int, b: int, n: int)
    requires
        edge_count_upto(faces, a, b, n) > 0,
    ensures
        exists|f: int| 0 <= f < n && #[trigger] contains_edge(faces, f, a, b),
    decreases n,
{
    if n > 0 {
        if contains_edge(faces, n - 1, a, b) {
        } else {
            lemma_edge_count_witness(faces, a, b, n - 1);
        }
    }
}

/// Vertex `v` lies on the mesh border: some edge through it is used by
/// exactly one face.
pub open spec fn border_vertex(faces: Seq<(usize, usize, usize)>, v: int) -> bool {
    exists|a: int, b: int| (v == a || v == b) && #[trigger] edge_count(faces, a, b) == 1
}

/// Vertex `u` belongs to the ring-1 neighbourhood of `v`: a face incident to
/// `v` has `u` as another corner.
pub open spec fn in_ring1(faces: Seq<(usize, usize, usize)>, v: int, u: int) -> bool {
    u != v && exists|f: int|
        #[trigger] incident(faces, v, f) && (faces[f].0 == u || faces[f].1 == u || faces[f].2 == u)
}

/// Triangular mesh topology: faces as `(v0, v1, v2)` index triples, the
/// per-vertex list of incident faces in face order, and the border flags.
pub struct Mesh {
    pub nv: usize,
    pub faces: Vec<(usize, usize, usize)>,
    pub map_vface: Vec<Vec<usize>>,
    pub border: Vec<bool>,
}

impl Mesh {
    /// The adjacency index lists, for every vertex, exactly its incident
    /// faces in increasing face order, and the border flags agree with the
    /// edge counts.
    pub open spec fn wf(self) -> bool {
        &&& self.map_vface@.len() == self.nv
        &&& self.border@.len() == self.nv
        &&& forall|f: int| 0 <= f < self.faces@.len() ==> face_ok(self.nv as int, #[trigger] self.faces@[f])
        &&& forall|v: int, j: int|
            0 <= v < self.nv && 0 <= j < self.map_vface@[v]@.len() ==> (#[trigger] self.map_vface@[v]@[j]
                < self.faces@.len() && incident(self.faces@, v, self.map_vface@[v]@[j] as int))
        &&& forall|v: int, f: int|
            0 <= v < self.nv && #[trigger] incident(self.faces@, v, f) ==> self.map_vface@[v]@.contains(
                f as usize,
            )
        &&& forall|v: int, j: int|
            0 <= v < self.nv && 0 <= j < self.map_vface@[v]@.len() - 1 ==> #[trigger] self.map_vface@[v]@[j]
                < self.map_vface@[v]@[j + 1]
        &&& forall|v: int|
            0 <= v < self.nv ==> #[trigger] self.border@[v] == border_vertex(self.faces@, v)
    }
}

/// Number of faces that use the edge `{a, b}`, by a scan over all faces.
fn count_edge(faces: &Vec<(usize, usize, usize)>, a: usize, b: usize) -> (cnt: usize)
    ensures
        cnt == edge_count(faces@, a as int, b as int),
{
    let n = faces.len();
    let mut cnt: usize = 0;
    let mut g: usize = 0;
    while g < n
        invariant
            n == faces@.len(),
            g <= n,
            cnt == edge_count_upto(faces@, a as int, b as int, g as int),
            cnt <= g,
        decreases n - g,
    {
        let (v0, v1, v2) = faces[g];
        if a != b && (v0 == a || v1 == a || v2 == a) && (v0 == b || v1 == b || v2 == b) {
            cnt = cnt + 1;
        }
        g = g + 1;
    }
    cnt
}

/// Append face `f` to the adjacency list of vertex `v`.
fn push_face(m: &mut Vec<Vec<usize>>, v: usize, f: usize)
    requires
        v < old(m)@.len(),
    ensures
        final(m)@.len() == old(m)@.len(),
        forall|w: int|
            0 <= w < old(m)@.len() && w != v ==> #[trigger] final(m)@[w] == old(m)@[w],
        final(m)@[v as int]@ == old(m)@[v as int]@.push(f),
{
    let row = &mut m[v];
    row.push(f);
}


impl Mesh {
    /// Build the topology from the faces.
    ///
    /// Validates every face (corner indices below `nv`, three distinct
    /// corners), indexes the incident faces of every vertex in face order,
    /// and flags border vertices: an edge used by exactly one face marks
    /// both endpoints.  An invalid face rejects the whole construction:
    /// `None` is this constructor's invalid-argument answer, and the
    /// distinct-corner demand is part of the stated contract (see
    /// [`face_ok`]) -- a degenerate triangle has no well-defined three
    /// edges, so the border characterisation is proved only without them.
    pub fn new(nv: usize, faces: Vec<(usize, usize, usize)>) -> (r: Option<Mesh>)
        ensures
            r is Some <==> (forall|f: int|
                0 <= f < faces@.len() ==> face_ok(nv as int, #[trigger] faces@[f])),
            r matches Some(m) ==> m.wf() && m.nv == nv && m.faces@ == faces@,
    {
        let nf = faces.len();
        let mut f: usize = 0;
        while f < nf
            invariant
                nf == faces@.len(),
                f <= nf,
                forall|g: int| 0 <= g < f ==> face_ok(nv as int, #[trigger] faces@[g]),
            decreases nf - f,
        {
            let (v0, v1, v2) = faces[f];
            if !(v0 < nv && v1 < nv && v2 < nv && v0 != v1 && v1 != v2 && v0 != v2) {
                return None;
            }
            f = f + 1;
        }

        let mut map_vface: Vec<Vec<usize>> = Vec::new();
        let mut v: usize = 0;
        while v < nv
            invariant
                map_vface@.len() == v,
                v <= nv,
                forall|w: int| 0 <= w < v ==> (#[trigger] map_vface@[w])@.len() == 0,
            decreases nv - v,
        {
            map_vface.push(Vec::new());
            v = v + 1;
        }

        let mut f2: usize = 0;
        while f2 < nf
            invariant
                nf == faces@.len(),
                f2 <= nf,
                map_vface@.len() == nv,
                forall|g: int| 0 <= g < nf ==> face_ok(nv as int, #[trigger] faces@[g]),
                forall|w: int, j: int|
                    0 <= w < nv && 0 <= j < map_vface@[w]@.len() ==> (#[trigger] map_vface@[w]@[j]
                        < f2 && incident(faces@, w, map_vface@[w]@[j] as int)),
                forall|w: int, g: int|
                    0 <= w < nv && 0 <= g < f2 && #[trigger] incident(faces@, w, g)
                        ==> map_vface@[w]@.contains(g as usize),
                forall|w: int, j: int|
                    0 <= w < nv && 0 <= j < map_vface@[w]@.len() - 1
                        ==> #[trigger] map_vface@[w]@[j] < map_vface@[w]@[j + 1],
            decreases nf - f2,
        {
            let (v0, v1, v2) = faces[f2];
            let ghost m0 = map_vface@;
            push_face(&mut map_vface, v0, f2);
            push_face(&mut map_vface, v1, f2);
            push_face(&mut map_vface, v2, f2);
            proof {
                let m1 = map_vface@;
                assert(faces@[f2 as int] == (v0, v1, v2));
                // each of the three rows gained exactly the new face index,
                // every other row is untouched
                assert forall|w: int|
                    0 <= w < nv implies (if w == v0 || w == v1 || w == v2 {
                        (#[trigger] m1[w])@ == m0[w]@.push(f2)
                    } else {
                        m1[w] == m0[w]
                    }) by {}
                assert forall|w: int, g: int|
                    0 <= w < nv && 0 <= g < f2 + 1 && #[trigger] incident(faces@, w, g)
                        implies m1[w]@.contains(g as usize) by {
                    if g < f2 {
                        assert(m0[w]@.contains(g as usize));
                        let j = choose|j: int| 0 <= j < m0[w]@.len() && m0[w]@[j] == g as usize;
                        assert(m1[w]@[j] == g as usize);
                    } else {
                        assert(w == v0 || w == v1 || w == v2);
                        assert(m1[w]@.last() == f2);
                    }
                }
            }
            f2 = f2 + 1;
        }

        let mut border: Vec<bool> = vec![false; nv];
        let mut f3: usize = 0;
        while f3 < nf
            invariant
                nf == faces@.len(),
                f3 <= nf,
                border@.len() == nv,
                forall|g: int| 0 <= g < nf ==> face_ok(nv as int, #[trigger] faces@[g]),
                forall|w: int| 0 <= w < nv && #[trigger] border@[w] ==> border_vertex(faces@, w),
                forall|a: int, b: int, g: int|
                    0 <= g < f3 && #[trigger] contains_edge(faces@, g, a, b) && edge_count(
                        faces@,
                        a,
                        b,
                    ) == 1 ==> 0 <= a < nv && 0 <= b < nv && border@[a] && border@[b],
            decreases nf - f3,
        {
            let (v0, v1, v2) = faces[f3];
            proof {
                assert(faces@[f3 as int] == (v0, v1, v2));
            }
            let c01 = count_edge(&faces, v0, v1);
            if c01 == 1 {
                border[v0] = true;
                border[v1] = true;
                proof {
                    assert(border_vertex(faces@, v0 as int) && border_vertex(faces@, v1 as int))
                        by {
                        assert(edge_count(faces@, v0 as int, v1 as int) == 1);
                    }
                }
            }
            let ghost b01 = border@;
            let c12 = count_edge(&faces, v1, v2);
            if c12 == 1 {
                border[v1] = true;
                border[v2] = true;
                proof {
                    assert(border_vertex(faces@, v1 as int) && border_vertex(faces@, v2 as int))
                        by {
                        assert(edge_count(faces@, v1 as int, v2 as int) == 1);
                    }
                }
            }
            let ghost b12 = border@;
            let c02 = count_edge(&faces, v0, v2);
            if c02 == 1 {
                border[v0] = true;
                border[v2] = true;
                proof {
                    assert(border_vertex(faces@, v0 as int) && border_vertex(faces@, v2 as int))
                        by {
                        assert(edge_count(faces@, v0 as int, v2 as int) == 1);
                    }
                }
            }
            proof {
                assert(c01 == 1 ==> border@[v0 as int] && border@[v1 as int]);
                assert(c12 == 1 ==> border@[v1 as int] && border@[v2 as int]);
                assert(c02 == 1 ==> border@[v0 as int] && border@[v2 as int]);
                assert forall|a: int, b: int, g: int|
                    0 <= g < f3 + 1 && #[trigger] contains_edge(faces@, g, a, b) && edge_count(
                        faces@,
                        a,
                        b,
                    ) == 1 implies 0 <= a < nv && 0 <= b < nv && border@[a] && border@[b] by {
                    if g == f3 {
                        lemma_edge_count_sym(faces@, a, b, faces@.len() as int);
                        assert(a == v0 || a == v1 || a == v2);
                        assert(b == v0 || b == v1 || b == v2);
                    }
                }
            }
            f3 = f3 + 1;
        }

        proof {
            assert forall|w: int| 0 <= w < nv implies #[trigger] border@[w] == border_vertex(
                faces@,
                w,
            ) by {
                if border_vertex(faces@, w) {
                    let (a, b) = choose|a: int, b: int|
                        (w == a || w == b) && #[trigger] edge_count(faces@, a, b) == 1;
                    lemma_edge_count_witness(faces@, a, b, faces@.len() as int);
                    let g = choose|g: int| 0 <= g < faces@.len() && #[trigger] contains_edge(faces@, g, a, b);
                    assert(border@[a] && border@[b]);
                }
            }
        }

        Some(Mesh { nv, faces, map_vface, border })
    }
}


/// Linear membership scan.
fn vec_contains(xs: &Vec<usize>, u: usize) -> (b: bool)
    ensures
        b == xs@.contains(u),
{
    let n = xs.len();
    let mut i: usize = 0;
    while i < n
        invariant
            n == xs@.len(),
            i <= n,
            forall|k: int| 0 <= k < i ==> xs@[k] != u,
        decreases n - i,
    {
        if xs[i] == u {
            return true;
        }
        i = i + 1;
    }
    proof {
        if xs@.contains(u) {
            let k = choose|k: int| 0 <= k < xs@.len() && xs@[k] == u;
            assert(false);
        }
    }
    false
}

/// Append `u` unless it is already present; membership afterwards is
/// membership before extended with `u`.
fn add_unique(xs: &mut Vec<usize>, u: usize)
    requires
        forall|i1: int, i2: int| 0 <= i1 < i2 < old(xs)@.len() ==> old(xs)@[i1] != old(xs)@[i2],
    ensures
        forall|w: usize|
            #[trigger] final(xs)@.contains(w) <==> (old(xs)@.contains(w) || w == u),
        forall|i1: int, i2: int| 0 <= i1 < i2 < final(xs)@.len() ==> final(xs)@[i1] != final(xs)@[i2],
{
    if !vec_contains(xs, u) {
        xs.push(u);
        proof {
            let s1 = xs@;
            let s0 = old(xs)@;
            assert forall|w: usize| #[trigger] s1.contains(w) implies (s0.contains(w) || w == u) by {
                let i = choose|i: int| 0 <= i < s1.len() && s1[i] == w;
                if i < s0.len() {
                    assert(s0[i] == w);
                } else {
                    assert(s1[s1.len() - 1] == u);
                }
            }
            assert forall|w: usize| s0.contains(w) implies #[trigger] s1.contains(w) by {
                let i = choose|i: int| 0 <= i < s0.len() && s0[i] == w;
                assert(s1[i] == w);
            }
            assert(s1[s1.len() - 1] == u);
            assert(s1.contains(u));
            assert forall|i1: int, i2: int| 0 <= i1 < i2 < s1.len() implies s1[i1] != s1[i2] by {
                if i2 == s1.len() - 1 {
                    if s1[i1] == u {
                        assert(s0[i1] == u);
                        assert(s0.contains(u));
                    }
                }
            }
        }
    }
}

/// Record the corners of one face other than `v_id`, each at most once.
fn add_face_corners(ring: &mut Vec<usize>, v_id: usize, v0: usize, v1: usize, v2: usize)
    requires
        forall|i1: int, i2: int| 0 <= i1 < i2 < old(ring)@.len() ==> old(ring)@[i1] != old(ring)@[i2],
    ensures
        forall|i1: int, i2: int|
            0 <= i1 < i2 < final(ring)@.len() ==> final(ring)@[i1] != final(ring)@[i2],
        forall|w: usize|
            #[trigger] final(ring)@.contains(w) <==> (old(ring)@.contains(w) || (w == v0 && v0
                != v_id) || (w == v1 && v1 != v_id) || (w == v2 && v2 != v_id)),
{
    if v0 != v_id {
        add_unique(ring, v0);
    }
    if v1 != v_id {
        add_unique(ring, v1);
    }
    if v2 != v_id {
        add_unique(ring, v2);
    }
}

/// Vertex `u` is a corner of face `f`.
pub open spec fn corner_of(f: (usize, usize, usize), u: usize) -> bool {
    f.0 == u || f.1 == u || f.2 == u
}

/// Collect, over the faces that `row` indexes, every corner other than
/// `v_id`, each vertex once.
fn ring_from_row(
    faces: &Vec<(usize, usize, usize)>,
    row: &Vec<usize>,
    v_id: usize,
) -> (ring: Vec<usize>)
    requires
        forall|jj: int|
            0 <= jj < row@.len() ==> (#[trigger] row@[jj]) < faces@.len(),
    ensures
        forall|i1: int, i2: int| 0 <= i1 < i2 < ring@.len() ==> ring@[i1] != ring@[i2],
        forall|u: usize|
            #[trigger] ring@.contains(u) <==> (u != v_id && exists|jj: int|
                0 <= jj < row@.len() && corner_of(faces@[(#[trigger] row@[jj]) as int], u)),
{
    let mut ring: Vec<usize> = Vec::new();
    let nrow = row.len();
    let mut j: usize = 0;
    while j < nrow
        invariant
            nrow == row@.len(),
            j <= nrow,
            forall|jj: int| 0 <= jj < row@.len() ==> (#[trigger] row@[jj]) < faces@.len(),
            forall|i1: int, i2: int| 0 <= i1 < i2 < ring@.len() ==> ring@[i1] != ring@[i2],
            forall|u: usize|
                #[trigger] ring@.contains(u) <==> (u != v_id && exists|jj: int|
                    0 <= jj < j && corner_of(faces@[(#[trigger] row@[jj]) as int], u)),
        decreases nrow - j,
    {
        let fidx = row[j];
        let (v0, v1, v2) = faces[fidx];
        let ghost r0 = ring@;
        add_face_corners(&mut ring, v_id, v0, v1, v2);
        proof {
            assert(faces@[fidx as int] == (v0, v1, v2));
            assert forall|u: usize| #[trigger] ring@.contains(u) implies (u != v_id && exists|
                jj: int,
            |
                0 <= jj < j + 1 && corner_of(faces@[(#[trigger] row@[jj]) as int], u)) by {
                if r0.contains(u) {
                    let jj = choose|jj: int|
                        0 <= jj < j && corner_of(faces@[(#[trigger] row@[jj]) as int], u);
                    assert(corner_of(faces@[row@[jj] as int], u));
                } else {
                    assert(corner_of(faces@[row@[j as int] as int], u));
                }
            }
            assert forall|u: usize|
                u != v_id && (exists|jj: int|
                    0 <= jj < j + 1 && corner_of(
                        faces@[(#[trigger] row@[jj]) as int],
                        u,
                    )) implies #[trigger] ring@.contains(u) by {
                let jj = choose|jj: int|
                    0 <= jj < j + 1 && corner_of(faces@[(#[trigger] row@[jj]) as int], u);
                if jj < j {
                    assert(r0.contains(u));
                } else {
                    assert(corner_of((v0, v1, v2), u));
                }
            }
        }
        j = j + 1;
    }
    ring
}

/// A vertex list that holds exactly the corners other than `v_id` of the
/// faces listed for `v_id` holds exactly the ring-1 neighbourhood of `v_id`.
proof fn lemma_ring_translation(
    faces: Seq<(usize, usize, usize)>,
    row: Seq<usize>,
    nv: int,
    v_id: usize,
    ring: Seq<usize>,
)
    requires
        faces.len() <= usize::MAX,
        forall|jj: int|
            0 <= jj < row.len() ==> ((#[trigger] row[jj]) < faces.len() && incident(
                faces,
                v_id as int,
                row[jj] as int,
            )),
        forall|f: int| 0 <= f < faces.len() ==> face_ok(nv, #[trigger] faces[f]),
        forall|f: int| incident(faces, v_id as int, f) ==> row.contains(f as usize),
        forall|u: usize|
            #[trigger] ring.contains(u) <==> (u != v_id && exists|jj: int|
                0 <= jj < row.len() && corner_of(faces[(#[trigger] row[jj]) as int], u)),
    ensures
        forall|u: usize| #[trigger] ring.contains(u) <==> in_ring1(faces, v_id as int, u as int),
        forall|i: int| 0 <= i < ring.len() ==> #[trigger] ring[i] < nv,
{
    assert forall|u: usize| #[trigger] ring.contains(u) implies in_ring1(
        faces,
        v_id as int,
        u as int,
    ) by {
        let jj = choose|jj: int|
            0 <= jj < row.len() && corner_of(faces[(#[trigger] row[jj]) as int], u);
        assert(incident(faces, v_id as int, row[jj] as int));
    }
    assert forall|u: usize| in_ring1(faces, v_id as int, u as int) implies #[trigger] ring.contains(
        u,
    ) by {
        let f = choose|f: int|
            #[trigger] incident(faces, v_id as int, f) && (faces[f].0 == u || faces[f].1 == u
                || faces[f].2 == u);
        assert(row.contains(f as usize));
        let jj = choose|jj: int| 0 <= jj < row.len() && row[jj] == f as usize;
        assert(corner_of(faces[(row[jj]) as int], u));
    }
    assert forall|i: int| 0 <= i < ring.len() implies #[trigger] ring[i] < nv by {
        assert(ring.contains(ring[i]));
        let f = choose|f: int|
            #[trigger] incident(faces, v_id as int, f) && (faces[f].0 == ring[i] || faces[f].1
                == ring[i] || faces[f].2 == ring[i]);
        assert(face_ok(nv, faces[f]));
    }
}

impl Mesh {
    pub fn n_vertices(&self) -> (n: usize)
        ensures
            n == self.nv,
    {
        self.nv
    }

    pub fn n_faces(&self) -> (n: usize)
        ensures
            n == self.faces@.len(),
    {
        self.faces.len()
    }

    /// The faces incident to `v_id`, in face order.
    pub fn incident_faces(&self, v_id: usize) -> (fs: &Vec<usize>)
        requires
            self.wf(),
            v_id < self.nv,
        ensures
            fs@ == self.map_vface@[v_id as int]@,
    {
        &self.map_vface[v_id]
    }

    /// Corner triple of face `f_id`.
    pub fn face(&self, f_id: usize) -> (f: (usize, usize, usize))
        requires
            self.wf(),
            f_id < self.faces@.len(),
        ensures
            f == self.faces@[f_id as int],
    {
        self.faces[f_id]
    }

    /// Whether `v_id` lies on the mesh border.
    pub fn is_border(&self, v_id: usize) -> (b: bool)
        requires
            self.wf(),
            v_id < self.nv,
        ensures
            b == border_vertex(self.faces@, v_id as int),
    {
        self.border[v_id]
    }

    /// The ring-1 neighbourhood of `v_id`: every other corner of every face
    /// incident to `v_id`, each vertex listed once.
    pub fn get_ring1(&self, v_id: usize) -> (ring: Vec<usize>)
        requires
            self.wf(),
            v_id < self.nv,
        ensures
            forall|u: usize|
                #[trigger] ring@.contains(u) <==> in_ring1(self.faces@, v_id as int, u as int),
            forall|i: int, j: int| 0 <= i < j < ring@.len() ==> ring@[i] != ring@[j],
            forall|i: int| 0 <= i < ring@.len() ==> #[trigger] ring@[i] < self.nv,
    {
        let row = &self.map_vface[v_id];
        proof {
            assert forall|jj: int| 0 <= jj < row@.len() implies ((#[trigger] row@[jj])
                < self.faces@.len() && incident(self.faces@, v_id as int, row@[jj] as int)) by {
                assert(self.map_vface@[v_id as int]@[jj] < self.faces@.len() && incident(
                    self.faces@,
                    v_id as int,
                    self.map_vface@[v_id as int]@[jj] as int,
                ));
            }
        }
        let ring = ring_from_row(&self.faces, row, v_id);
        proof {
            assert(self.faces@.len() == self.faces.len());
            lemma_ring_translation(self.faces@, row@, self.nv as int, v_id, ring@);
        }
        ring
    }

    /// The neighbours the Laplacian displacement of `v_id` averages over:
    /// its whole ring-1 for an interior vertex, only its border ring-1
    /// neighbours for a border vertex.
    pub fn smoothing_neighbors(&self, v_id: usize) -> (nbrs: Vec<usize>)
        requires
            self.wf(),
            v_id < self.nv,
        ensures
            forall|u: usize|
                #[trigger] nbrs@.contains(u) <==> (in_ring1(self.faces@, v_id as int, u as int)
                    && (border_vertex(self.faces@, v_id as int) ==> border_vertex(
                    self.faces@,
                    u as int,
                ))),
            forall|i: int, j: int| 0 <= i < j < nbrs@.len() ==> nbrs@[i] != nbrs@[j],
            forall|i: int| 0 <= i < nbrs@.len() ==> #[trigger] nbrs@[i] < self.nv,
    {
        let ring = self.get_ring1(v_id);
        if !self.is_border(v_id) {
            return ring;
        }
        let nring = ring.len();
        let mut nbrs: Vec<usize> = Vec::new();
        let mut j: usize = 0;
        while j < nring
            invariant
                self.wf(),
                v_id < self.nv,
                nring == ring@.len(),
                j <= nring,
                forall|u: usize|
                    #[trigger] ring@.contains(u) <==> in_ring1(self.faces@, v_id as int, u as int),
                forall|i1: int, i2: int| 0 <= i1 < i2 < ring@.len() ==> ring@[i1] != ring@[i2],
                forall|i: int| 0 <= i < ring@.len() ==> #[trigger] ring@[i] < self.nv,
                forall|i1: int, i2: int| 0 <= i1 < i2 < nbrs@.len() ==> nbrs@[i1] != nbrs@[i2],
                forall|i: int|
                    0 <= i < nbrs@.len() ==> exists|k: int|
                        0 <= k < j && ring@[k] == #[trigger] nbrs@[i],
                forall|i: int|
                    0 <= i < nbrs@.len() ==> ((#[trigger] nbrs@[i]) < self.nv && in_ring1(
                        self.faces@,
                        v_id as int,
                        nbrs@[i] as int,
                    ) && border_vertex(self.faces@, nbrs@[i] as int)),
                forall|k: int|
                    0 <= k < j && border_vertex(self.faces@, (#[trigger] ring@[k]) as int)
                        ==> nbrs@.contains(ring@[k]),
            decreases nring - j,
        {
            let u = ring[j];
            proof {
                assert(ring@.contains(u)) by {
                    assert(ring@[j as int] == u);
                }
            }
            if self.border[u] {
                proof {
                    assert forall|i: int| 0 <= i < nbrs@.len() implies #[trigger] nbrs@[i] != u by {
                        let k = choose|k: int| 0 <= k < j && ring@[k] == nbrs@[i];
                        assert(ring@[k] != ring@[j as int]);
                    }
                }
                let ghost nb0 = nbrs@;
                nbrs.push(u);
                proof {
                    assert(nbrs@[nbrs@.len() - 1] == u);
                    assert forall|w: usize| #[trigger] nb0.contains(w) implies nbrs@.contains(
                        w,
                    ) by {
                        let i = choose|i: int| 0 <= i < nb0.len() && nb0[i] == w;
                        assert(nbrs@[i] == w);
                    }
                }
            }
            j = j + 1;
        }
        proof {
            assert forall|u: usize| #[trigger] nbrs@.contains(u) implies (in_ring1(
                self.faces@,
                v_id as int,
                u as int,
            ) && border_vertex(self.faces@, u as int)) by {
                let i = choose|i: int| 0 <= i < nbrs@.len() && nbrs@[i] == u;
            }
            assert forall|u: usize|
                in_ring1(self.faces@, v_id as int, u as int) && border_vertex(
                    self.faces@,
                    u as int,
                ) implies #[trigger] nbrs@.contains(u) by {
                assert(ring@.contains(u));
                let k = choose|k: int| 0 <= k < ring@.len() && ring@[k] == u;
            }
        }
        nbrs
    }
}

/// The adjacency index covers exactly the vertices that some face
/// references: a vertex has incident faces listed iff a face uses it, so the
/// two vertex sets (and their counts) coincide.
pub proof fn lemma_adjacency_covers_referenced(m: Mesh)
    requires
        m.wf(),
    ensures
        forall|v: int|
            0 <= v < m.nv ==> ((#[trigger] m.map_vface@[v]@.len()) > 0 <==> exists|f: int|
                incident(m.faces@, v, f)),
        Set::new(|v: int| 0 <= v < m.nv && m.map_vface@[v]@.len() > 0) == Set::new(
            |v: int| 0 <= v < m.nv && exists|f: int| incident(m.faces@, v, f),
        ),
{
    assert forall|v: int|
        0 <= v < m.nv implies ((#[trigger] m.map_vface@[v]@.len()) > 0 <==> exists|f: int|
        incident(m.faces@, v, f)) by {
        if m.map_vface@[v]@.len() > 0 {
            assert(incident(m.faces@, v, m.map_vface@[v]@[0] as int));
        }
        if exists|f: int| incident(m.faces@, v, f) {
            let f = choose|f: int| incident(m.faces@, v, f);
            assert(m.map_vface@[v]@.contains(f as usize));
            assert(m.map_vface@[v]@.len() > 0);
        }
    }
    assert(Set::new(|v: int| 0 <= v < m.nv && m.map_vface@[v]@.len() > 0) =~= Set::new(
        |v: int| 0 <= v < m.nv && exists|f: int| incident(m.faces@, v, f),
    ));
}


/// Membership of a vertex in the visit queue.
pub open spec fn in_vqueue(q: Seq<usize>, u: int) -> bool {
    exists|i: int| 0 <= i < q.len() && (#[trigger] q[i]) == u
}

/// Admissible step of the near-vertex search, over vertices embedded as
/// `(u, 0, 0)` triples: a ring-1 step onto a vertex the caller flagged as
/// within reach.
pub open spec fn near_edge(faces: Seq<(usize, usize, usize)>, within: Seq<bool>) -> spec_fn(
    (int, int, int),
    (int, int, int),
) -> bool {
    |a: (int, int, int), b: (int, int, int)|
        a.1 == 0 && a.2 == 0 && b.1 == 0 && b.2 == 0 && 0 <= b.0 < within.len() && within[b.0]
            && in_ring1(faces, a.0, b.0)
}

/// The start vertex of the near-vertex search.
pub open spec fn vertex_seed(v: int) -> spec_fn((int, int, int)) -> bool {
    |c: (int, int, int)| c == (v, 0int, 0int)
}

/// Vertex `u` is connected to `v` through flagged vertices: a ring-1 path
/// from `v` whose every vertex after `v` is flagged ends on `u`.
pub open spec fn near_reaches(
    faces: Seq<(usize, usize, usize)>,
    within: Seq<bool>,
    v: int,
    u: int,
) -> bool {
    reaches(near_edge(faces, within), vertex_seed(v), (u, 0, 0))
}

/// State of the near-vertex search: the start is visited, queued vertices
/// are visited and connected, the near list holds exactly the visited
/// flagged vertices other than the start, each once and each connected.
pub open spec fn near_inv(
    faces: Seq<(usize, usize, usize)>,
    within: Seq<bool>,
    nv: int,
    v_id: int,
    visited: Seq<bool>,
    near: Seq<usize>,
    q: Seq<usize>,
) -> bool {
    &&& visited.len() == nv
    &&& within.len() == nv
    &&& 0 <= v_id < nv
    &&& visited[v_id]
    &&& forall|qi: int|
        0 <= qi < q.len() ==> ((#[trigger] q[qi]) < nv && visited[q[qi] as int] && reaches(
            near_edge(faces, within),
            vertex_seed(v_id),
            (q[qi] as int, 0, 0),
        ))
    &&& forall|u: usize|
        u < nv ==> (#[trigger] near.contains(u) <==> (visited[u as int] && within[u as int] && u
            != v_id))
    &&& forall|i: int|
        0 <= i < near.len() ==> ((#[trigger] near[i]) < nv && near[i] != v_id && reaches(
            near_edge(faces, within),
            vertex_seed(v_id),
            (near[i] as int, 0, 0),
        ))
    &&& forall|i1: int, i2: int| 0 <= i1 < i2 < near.len() ==> near[i1] != near[i2]
}

/// Every admissible successor of a visited vertex that is neither pending
/// nor exempt is visited.
pub open spec fn near_closed(
    faces: Seq<(usize, usize, usize)>,
    within: Seq<bool>,
    nv: int,
    v_id: int,
    visited: Seq<bool>,
    q: Seq<usize>,
    exempt: int,
) -> bool {
    forall|a: int, b: int|
        0 <= a < nv && visited[a] && (a == v_id || within[a]) && !in_vqueue(q, a) && a != exempt
            && 0 <= b < nv && #[trigger] near_edge(faces, within)((a, 0, 0), (b, 0, 0))
            ==> visited[b]
}

/// One corner visit of the near-vertex search: a fresh corner is marked
/// visited; a fresh flagged corner joins the near list and the queue.
fn near_visit(
    visited: &mut Vec<bool>,
    near: &mut Vec<usize>,
    queue: &mut VecDeque<usize>,
    cur: usize,
    w: usize,
    win: bool,
    Ghost(faces): Ghost<Seq<(usize, usize, usize)>>,
    Ghost(within): Ghost<Seq<bool>>,
    Ghost(nv): Ghost<int>,
    Ghost(v_id): Ghost<int>,
)
    requires
        near_inv(faces, within, nv, v_id, old(visited)@, old(near)@, old(queue)@),
        near_closed(faces, within, nv, v_id, old(visited)@, old(queue)@, cur as int),
        cur < nv,
        w < nv,
        old(visited)@[cur as int],
        reaches(near_edge(faces, within), vertex_seed(v_id), (cur as int, 0, 0)),
        win == within[w as int],
        w != cur ==> (near_edge(faces, within)((cur as int, 0, 0), (w as int, 0, 0)) <==> win),
    ensures
        near_inv(faces, within, nv, v_id, final(visited)@, final(near)@, final(queue)@),
        near_closed(faces, within, nv, v_id, final(visited)@, final(queue)@, cur as int),
        final(visited)@[w as int],
        forall|u: int| 0 <= u < nv && #[trigger] old(visited)@[u] ==> final(visited)@[u],
        forall|u: int|
            0 <= u < nv && u != w ==> #[trigger] final(visited)@[u] == old(visited)@[u],
        forall|a: int| in_vqueue(old(queue)@, a) ==> in_vqueue(final(queue)@, a),
        crate::traverse::count_unfilled(final(visited)@, true) + final(queue)@.len()
            <= crate::traverse::count_unfilled(old(visited)@, true) + old(queue)@.len(),
{
    if !visited[w] {
        proof {
            crate::traverse::lemma_count_unfilled_update(visited@, true, w as int);
            assert(w != cur);
            assert(w as int != v_id);
        }
        visited[w] = true;
        if win {
            proof {
                assert(near_edge(faces, within)((cur as int, 0, 0), (w as int, 0, 0)));
                lemma_reach_step(
                    near_edge(faces, within),
                    vertex_seed(v_id),
                    (cur as int, 0, 0),
                    (w as int, 0, 0),
                );
                assert forall|i: int| 0 <= i < near@.len() implies #[trigger] near@[i] != w by {
                    if near@[i] == w {
                        assert(near@.contains(w));
                        assert(old(visited)@[w as int]);
                    }
                }
            }
            let ghost n0 = near@;
            near.push(w);
            queue.push_back(w);
            proof {
                assert(near@[near@.len() - 1] == w);
                assert forall|u: usize| #[trigger] near@.contains(u) implies (n0.contains(u) || u
                    == w) by {
                    let i = choose|i: int| 0 <= i < near@.len() && near@[i] == u;
                    if i < n0.len() {
                        assert(n0[i] == u);
                    }
                }
                assert forall|u: usize| n0.contains(u) implies #[trigger] near@.contains(u) by {
                    let i = choose|i: int| 0 <= i < n0.len() && n0[i] == u;
                    assert(near@[i] == u);
                }
                assert(near@.contains(w));
                assert(queue@ == old(queue)@.push(w));
                assert forall|a: int| in_vqueue(old(queue)@, a) implies in_vqueue(queue@, a) by {
                    let i = choose|i: int| 0 <= i < old(queue)@.len() && (#[trigger] old(queue)@[i]) == a;
                    assert(queue@[i] == a);
                }
                assert(in_vqueue(queue@, w as int)) by {
                    assert(queue@[queue@.len() - 1] == w);
                }
            }
        } else {
            proof {
                assert forall|u: usize|
                    u < nv implies (#[trigger] near@.contains(u) <==> (visited@[u as int]
                        && within[u as int] && u != v_id)) by {
                    if u == w {
                        assert(!within[w as int]);
                    }
                }
            }
        }
    }
}

impl Mesh {
    /// The vertices connected to `v_id` through flagged vertices.
    ///
    /// `within[u]` says whether `u` lies inside the search radius; the
    /// caller computes it from the vertex positions.  Breadth-first from
    /// `v_id`, a fresh flagged corner of a face incident to a discovered
    /// vertex is collected and explored; an unflagged corner is dead and
    /// blocks every path through it.  The result holds, once each, exactly
    /// the vertices other than `v_id` that a ring-1 path from `v_id` through
    /// flagged vertices reaches.
    pub fn get_near_vertices_to_v(&self, v_id: usize, within: &Vec<bool>) -> (near: Vec<usize>)
        requires
            self.wf(),
            v_id < self.nv,
            within@.len() == self.nv,
        ensures
            forall|u: usize|
                #[trigger] near@.contains(u) <==> (u < self.nv && u != v_id && within@[u as int]
                    && near_reaches(self.faces@, within@, v_id as int, u as int)),
            forall|i1: int, i2: int| 0 <= i1 < i2 < near@.len() ==> near@[i1] != near@[i2],
    {
        let ghost edge_ok = near_edge(self.faces@, within@);
        let ghost seed_ok = vertex_seed(v_id as int);
        let nv = self.nv;
        let mut visited: Vec<bool> = vec![false; nv];
        visited[v_id] = true;
        let mut near: Vec<usize> = Vec::new();
        let mut queue: VecDeque<usize> = VecDeque::new();
        queue.push_back(v_id);
        proof {
            lemma_reach_seed(edge_ok, seed_ok, (v_id as int, 0, 0));
            assert(queue@[0] == v_id);
        }

        while queue.len() != 0
            invariant
                self.wf(),
                nv == self.nv,
                v_id < nv,
                edge_ok == near_edge(self.faces@, within@),
                seed_ok == vertex_seed(v_id as int),
                within@.len() == nv,
                near_inv(self.faces@, within@, nv as int, v_id as int, visited@, near@, queue@),
                near_closed(self.faces@, within@, nv as int, v_id as int, visited@, queue@, nv as int),
            decreases crate::traverse::count_unfilled(visited@, true) + queue@.len(),
        {
            proof {
                crate::traverse::lemma_count_unfilled_nonneg(visited@, true);
            }
            let ghost queue_start = queue@;
            let cur = queue.pop_front().unwrap();
            proof {
                assert(queue_start[0] == cur);
                assert forall|qi: int| 0 <= qi < queue@.len() implies ((#[trigger] queue@[qi]) < nv
                    && visited@[queue@[qi] as int] && reaches(
                    edge_ok,
                    seed_ok,
                    (queue@[qi] as int, 0, 0),
                )) by {
                    assert(queue@[qi] == queue_start[qi + 1]);
                }
                assert forall|a: int, b: int|
                    0 <= a < nv && visited@[a] && (a == v_id as int || within@[a]) && !in_vqueue(
                        queue@,
                        a,
                    ) && a != cur as int && 0 <= b < nv && #[trigger] near_edge(
                        self.faces@,
                        within@,
                    )((a, 0, 0), (b, 0, 0)) implies visited@[b] by {
                    assert(!in_vqueue(queue_start, a)) by {
                        if in_vqueue(queue_start, a) {
                            let i = choose|i: int|
                                0 <= i < queue_start.len() && (#[trigger] queue_start[i]) == a;
                            assert(i != 0);
                            assert(queue@[i - 1] == queue_start[i]);
                        }
                    }
                }
            }

            let ghost m0 = crate::traverse::count_unfilled(visited@, true) + queue@.len();
            let row_n = self.map_vface[cur].len();
            let mut j: usize = 0;
            while j < row_n
                invariant
                    self.wf(),
                    nv == self.nv,
                    v_id < nv,
                    cur < nv,
                    edge_ok == near_edge(self.faces@, within@),
                    seed_ok == vertex_seed(v_id as int),
                    within@.len() == nv,
                    row_n == self.map_vface@[cur as int]@.len(),
                    j <= row_n,
                    visited@[cur as int],
                    reaches(edge_ok, seed_ok, (cur as int, 0, 0)),
                    near_inv(self.faces@, within@, nv as int, v_id as int, visited@, near@, queue@),
                    near_closed(self.faces@, within@, nv as int, v_id as int, visited@, queue@, cur as int),
                    crate::traverse::count_unfilled(visited@, true) + queue@.len() <= m0,
                    forall|j2: int, b: int|
                        0 <= j2 < j && 0 <= b < nv && #[trigger] corner_of(
                            self.faces@[(self.map_vface@[cur as int]@[j2]) as int],
                            b as usize,
                        ) ==> visited@[b],
                decreases row_n - j,
            {
                let fidx = self.map_vface[cur][j];
                proof {
                    assert(self.map_vface@[cur as int]@[j as int] == fidx);
                    assert(incident(self.faces@, cur as int, fidx as int));
                    assert(face_ok(self.nv as int, self.faces@[fidx as int]));
                }
                let (w0, w1, w2) = self.faces[fidx];
                let win0 = within[w0];
                near_visit(&mut visited, &mut near, &mut queue, cur, w0, win0, Ghost(self.faces@), Ghost(within@), Ghost(nv as int), Ghost(v_id as int));
                let win1 = within[w1];
                near_visit(&mut visited, &mut near, &mut queue, cur, w1, win1, Ghost(self.faces@), Ghost(within@), Ghost(nv as int), Ghost(v_id as int));
                let win2 = within[w2];
                near_visit(&mut visited, &mut near, &mut queue, cur, w2, win2, Ghost(self.faces@), Ghost(within@), Ghost(nv as int), Ghost(v_id as int));
                proof {
                    assert(self.faces@[fidx as int] == (w0, w1, w2));
                    assert(visited@[w0 as int] && visited@[w1 as int] && visited@[w2 as int]);
                    assert forall|j2: int, b: int|
                        0 <= j2 < j + 1 && 0 <= b < nv && #[trigger] corner_of(
                            self.faces@[(self.map_vface@[cur as int]@[j2]) as int],
                            b as usize,
                        ) implies visited@[b] by {
                        if j2 == j {
                            assert(b == w0 as int || b == w1 as int || b == w2 as int);
                        }
                    }
                }
                j = j + 1;
            }

            proof {
                crate::traverse::lemma_count_unfilled_nonneg(visited@, true);
                assert forall|a: int, b: int|
                    0 <= a < nv && visited@[a] && (a == v_id as int || within@[a]) && !in_vqueue(
                        queue@,
                        a,
                    ) && a != nv as int && 0 <= b < nv && #[trigger] near_edge(
                        self.faces@,
                        within@,
                    )((a, 0, 0), (b, 0, 0)) implies visited@[b] by {
                    assert(self.faces@.len() == self.faces.len());
                    if a == cur as int {
                        assert(in_ring1(self.faces@, cur as int, b));
                        let f = choose|f: int|
                            #[trigger] incident(self.faces@, cur as int, f) && (self.faces@[f].0
                                == b || self.faces@[f].1 == b || self.faces@[f].2 == b);
                        assert(self.map_vface@[cur as int]@.contains(f as usize));
                        let j2 = choose|j2: int|
                            0 <= j2 < self.map_vface@[cur as int]@.len()
                                && self.map_vface@[cur as int]@[j2] == f as usize;
                        assert(corner_of(
                            self.faces@[(self.map_vface@[cur as int]@[j2]) as int],
                            b as usize,
                        ));
                    }
                }
            }
        }

        proof {
            assert forall|u: usize|
                u < self.nv && u != v_id && within@[u as int] && near_reaches(
                    self.faces@,
                    within@,
                    v_id as int,
                    u as int,
                ) implies #[trigger] near@.contains(u) by {
                let member = |m: (int, int, int)|
                    0 <= m.0 < nv && m.1 == 0 && m.2 == 0 && visited@[m.0] && (m.0 == v_id as int
                        || within@[m.0]);
                let p = choose|p: Seq<(int, int, int)>|
                    crate::traverse::ok_path(edge_ok, seed_ok, p) && p.last() == (u as int, 0int, 0int);
                assert forall|sc: (int, int, int)| #[trigger] seed_ok(sc) implies member(sc) by {
                    assert(sc == (v_id as int, 0int, 0int));
                }
                assert forall|a: (int, int, int), b: (int, int, int)|
                    member(a) && #[trigger] edge_ok(a, b) implies member(b) by {
                    assert(self.faces@.len() == self.faces.len());
                    assert(in_ring1(self.faces@, a.0, b.0));
                    let f = choose|f: int|
                        #[trigger] incident(self.faces@, a.0, f) && (self.faces@[f].0 == b.0
                            || self.faces@[f].1 == b.0 || self.faces@[f].2 == b.0);
                    assert(face_ok(self.nv as int, self.faces@[f]));
                    assert(0 <= b.0 < nv);
                    assert(!in_vqueue(queue@, a.0));
                    assert(visited@[b.0]);
                }
                lemma_reach_in_closed_set(edge_ok, seed_ok, member, p);
                assert(visited@[u as int]);
            }
            assert forall|u: usize| #[trigger] near@.contains(u) implies (u < self.nv && u != v_id
                && within@[u as int] && near_reaches(
                self.faces@,
                within@,
                v_id as int,
                u as int,
            )) by {
                let i = choose|i: int| 0 <= i < near@.len() && near@[i] == u;
                assert(near@[i] < nv && near@[i] != v_id);
            }
        }
        near
    }
}

} // verus!
