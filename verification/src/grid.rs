//! Dense 2-D and 3-D arrays over a flat vector.
//!
//! A volume is a `Grid3` with axis order `(z, y, x)`; a screen mask or a
//! projected image is a `Grid2` with axis order `(row, col)`.  Cell `(z, y, x)`
//! of a `Grid3` lives at flat index `(z * dy + y) * dx + x`.

use vstd::prelude::*;

verus! {

/// Dense 3-D array, shape `(dz, dy, dx)`, row-major over `(z, y, x)`.
pub struct Grid3<T> {
    pub data: Vec<T>,
    pub dz: usize,
    pub dy: usize,
    pub dx: usize,
}

/// Dense 2-D array, shape `(dy, dx)`, row-major over `(y, x)`.
pub struct Grid2<T> {
    pub data: Vec<T>,
    pub dy: usize,
    pub dx: usize,
}

/// Flat index of `(z, y, x)` in a grid of shape `(_, dy, dx)`.
pub open spec fn flat3(dy: int, dx: int, z: int, y: int, x: int) -> int {
    (z * dy + y) * dx + x
}

/// The flat index of an in-bounds cell is itself in bounds, and the
/// intermediate products of its computation do not exceed it.
pub proof fn lemma_flat3_bounds(dz: int, dy: int, dx: int, z: int, y: int, x: int)
    requires
        0 <= z < dz,
        0 <= y < dy,
        0 <= x < dx,
    ensures
        0 <= z * dy + y < dz * dy,
        0 <= flat3(dy, dx, z, y, x) < dz * dy * dx,
        z * dy + y <= flat3(dy, dx, z, y, x),
{
    assert(0 <= z * dy + y < dz * dy) by (nonlinear_arith)
        requires 0 <= z < dz, 0 <= y < dy,
    {}
    assert(0 <= (z * dy + y) * dx + x < (dz * dy) * dx && z * dy + y <= (z * dy + y) * dx + x) by (nonlinear_arith)
        requires 0 <= z * dy + y < dz * dy, 0 <= x < dx,
    {}
    assert((dz * dy) * dx == dz * dy * dx) by (nonlinear_arith) {}
}

/// Flat indexing is strictly monotone in the lexicographic order on
/// `(z, y, x)`.
pub proof fn lemma_flat3_lex(dy: int, dx: int, z1: int, y1: int, x1: int, z2: int, y2: int, x2: int)
    requires
        0 <= y1 < dy,
        0 <= x1 < dx,
        0 <= y2 < dy,
        0 <= x2 < dx,
        0 <= z1,
        0 <= z2,
        z1 < z2 || (z1 == z2 && y1 < y2) || (z1 == z2 && y1 == y2 && x1 < x2),
    ensures
        flat3(dy, dx, z1, y1, x1) < flat3(dy, dx, z2, y2, x2),
{
    assert(z1 * dy + y1 <= z2 * dy + y2) by (nonlinear_arith)
        requires
            0 <= y1 < dy,
            0 <= y2,
            z1 < z2 || (z1 == z2 && y1 <= y2),
    {}
    if z1 < z2 || (z1 == z2 && y1 < y2) {
        assert(z1 * dy + y1 < z2 * dy + y2) by (nonlinear_arith)
            requires
                0 <= y1 < dy,
                0 <= y2,
                z1 < z2 || (z1 == z2 && y1 < y2),
        {}
        assert((z1 * dy + y1) * dx + x1 < (z2 * dy + y2) * dx + x2) by (nonlinear_arith)
            requires
                z1 * dy + y1 < z2 * dy + y2,
                0 <= x1 < dx,
                0 <= x2,
        {}
    } else {
        assert((z1 * dy + y1) * dx + x1 < (z2 * dy + y2) * dx + x2);
    }
}

/// Distinct in-bounds cells have distinct flat indices.
pub proof fn lemma_flat3_injective(
    dz: int, dy: int, dx: int,
    z1: int, y1: int, x1: int,
    z2: int, y2: int, x2: int,
)
    requires
        0 <= z1 < dz,
        0 <= y1 < dy,
        0 <= x1 < dx,
        0 <= z2 < dz,
        0 <= y2 < dy,
        0 <= x2 < dx,
        !(z1 == z2 && y1 == y2 && x1 == x2),
    ensures
        flat3(dy, dx, z1, y1, x1) != flat3(dy, dx, z2, y2, x2),
{
    if z1 < z2 || (z1 == z2 && y1 < y2) || (z1 == z2 && y1 == y2 && x1 < x2) {
        lemma_flat3_lex(dy, dx, z1, y1, x1, z2, y2, x2);
    } else {
        lemma_flat3_lex(dy, dx, z2, y2, x2, z1, y1, x1);
    }
}

impl<T> Grid3<T> {
    /// Shape and storage agree: one cell per coordinate triple.
    pub open spec fn wf(self) -> bool {
        self.data.len() == self.dz * self.dy * self.dx
    }

    pub open spec fn in_bounds(self, z: int, y: int, x: int) -> bool {
        0 <= z < self.dz && 0 <= y < self.dy && 0 <= x < self.dx
    }

    pub open spec fn index_of(self, z: int, y: int, x: int) -> int {
        flat3(self.dy as int, self.dx as int, z, y, x)
    }

    /// Value of cell `(z, y, x)`.
    pub open spec fn val(self, z: int, y: int, x: int) -> T {
        self.data[self.index_of(z, y, x)]
    }

    pub open spec fn dims(self) -> (int, int, int) {
        (self.dz as int, self.dy as int, self.dx as int)
    }
}

impl<T: Copy> Grid3<T> {
    /// Wraps `data` as a grid of shape `(dz, dy, dx)`; rejects a length
    /// mismatch.
    pub fn new(data: Vec<T>, dz: usize, dy: usize, dx: usize) -> (r: Option<Grid3<T>>)
        ensures
            r is Some <==> data.len() == dz * dy * dx,
            r is Some ==> r == Some(Grid3 { data, dz, dy, dx }),
    {
        if dz == 0 || dy == 0 || dx == 0 {
            assert(dz as int * dy as int * dx as int == 0) by (nonlinear_arith)
                requires dz == 0 || dy == 0 || dx == 0,
            {}
            if data.len() == 0 {
                Some(Grid3 { data, dz, dy, dx })
            } else {
                None
            }
        } else {
            match dz.checked_mul(dy) {
                Some(p) => match p.checked_mul(dx) {
                    Some(n) => {
                        if data.len() == n {
                            Some(Grid3 { data, dz, dy, dx })
                        } else {
                            None
                        }
                    },
                    None => None,
                },
                None => {
                    proof {
                        assert(dz as int * dy as int <= dz as int * dy as int * dx as int) by (nonlinear_arith)
                            requires dz >= 1, dy >= 1, dx >= 1,
                        {}
                    }
                    None
                },
            }
        }
    }

    /// Read cell `(z, y, x)`.
    pub fn get(&self, z: usize, y: usize, x: usize) -> (r: T)
        requires
            self.wf(),
            self.in_bounds(z as int, y as int, x as int),
        ensures
            r == self.val(z as int, y as int, x as int),
    {
        proof {
            lemma_flat3_bounds(self.dz as int, self.dy as int, self.dx as int, z as int, y as int, x as int);
        }
        let i: usize = (z * self.dy + y) * self.dx + x;
        self.data[i]
    }

    /// Write `v` into cell `(z, y, x)`; every other cell keeps its value.
    pub fn set(&mut self, z: usize, y: usize, x: usize, v: T)
        requires
            old(self).wf(),
            old(self).in_bounds(z as int, y as int, x as int),
        ensures
            final(self).wf(),
            final(self).dz == old(self).dz,
            final(self).dy == old(self).dy,
            final(self).dx == old(self).dx,
            final(self).data@ == old(self).data@.update(old(self).index_of(z as int, y as int, x as int), v),
            final(self).val(z as int, y as int, x as int) == v,
            forall|z2: int, y2: int, x2: int|
                old(self).in_bounds(z2, y2, x2) && !(z2 == z as int && y2 == y as int && x2 == x as int)
                    ==> #[trigger] final(self).val(z2, y2, x2) == old(self).val(z2, y2, x2),
    {
        proof {
            lemma_flat3_bounds(self.dz as int, self.dy as int, self.dx as int, z as int, y as int, x as int);
        }
        let i: usize = (z * self.dy + y) * self.dx + x;
        self.data[i] = v;
        proof {
            assert forall|z2: int, y2: int, x2: int|
                old(self).in_bounds(z2, y2, x2) && !(z2 == z as int && y2 == y as int && x2 == x as int)
                    implies #[trigger] self.val(z2, y2, x2) == old(self).val(z2, y2, x2) by {
                lemma_flat3_bounds(self.dz as int, self.dy as int, self.dx as int, z2, y2, x2);
                lemma_flat3_injective(
                    self.dz as int, self.dy as int, self.dx as int,
                    z2, y2, x2,
                    z as int, y as int, x as int,
                );
            }
        }
    }
}

impl<T> Grid2<T> {
    /// Shape and storage agree: one cell per coordinate pair.
    pub open spec fn wf(self) -> bool {
        self.data.len() == self.dy * self.dx
    }

    pub open spec fn in_bounds(self, y: int, x: int) -> bool {
        0 <= y < self.dy && 0 <= x < self.dx
    }

    pub open spec fn index_of(self, y: int, x: int) -> int {
        y * self.dx + x
    }

    /// Value of cell `(y, x)`.
    pub open spec fn val(self, y: int, x: int) -> T {
        self.data[self.index_of(y, x)]
    }

    pub open spec fn dims(self) -> (int, int) {
        (self.dy as int, self.dx as int)
    }
}

impl<T: Copy> Grid2<T> {
    /// Wraps `data` as a grid of shape `(dy, dx)`; rejects a length mismatch.
    pub fn new(data: Vec<T>, dy: usize, dx: usize) -> (r: Option<Grid2<T>>)
        ensures
            r is Some <==> data.len() == dy * dx,
            r is Some ==> r == Some(Grid2 { data, dy, dx }),
    {
        if dy == 0 || dx == 0 {
            assert(dy as int * dx as int == 0) by (nonlinear_arith)
                requires dy == 0 || dx == 0,
            {}
            if data.len() == 0 {
                Some(Grid2 { data, dy, dx })
            } else {
                None
            }
        } else {
            match dy.checked_mul(dx) {
                Some(n) => {
                    if data.len() == n {
                        Some(Grid2 { data, dy, dx })
                    } else {
                        None
                    }
                },
                None => None,
            }
        }
    }

    /// Read cell `(y, x)`.
    pub fn get(&self, y: usize, x: usize) -> (r: T)
        requires
            self.wf(),
            self.in_bounds(y as int, x as int),
        ensures
            r == self.val(y as int, x as int),
    {
        proof {
            lemma_flat2_bounds(self.dy as int, self.dx as int, y as int, x as int);
        }
        let i: usize = y * self.dx + x;
        self.data[i]
    }

    /// Write `v` into cell `(y, x)`; every other cell keeps its value.
    pub fn set(&mut self, y: usize, x: usize, v: T)
        requires
            old(self).wf(),
            old(self).in_bounds(y as int, x as int),
        ensures
            final(self).wf(),
            final(self).dy == old(self).dy,
            final(self).dx == old(self).dx,
            final(self).data@ == old(self).data@.update(old(self).index_of(y as int, x as int), v),
            final(self).val(y as int, x as int) == v,
            forall|y2: int, x2: int|
                old(self).in_bounds(y2, x2) && !(y2 == y as int && x2 == x as int)
                    ==> #[trigger] final(self).val(y2, x2) == old(self).val(y2, x2),
    {
        proof {
            lemma_flat2_bounds(self.dy as int, self.dx as int, y as int, x as int);
        }
        let i: usize = y * self.dx + x;
        self.data[i] = v;
        proof {
            assert forall|y2: int, x2: int|
                old(self).in_bounds(y2, x2) && !(y2 == y as int && x2 == x as int)
                    implies #[trigger] self.val(y2, x2) == old(self).val(y2, x2) by {
                lemma_flat2_bounds(self.dy as int, self.dx as int, y2, x2);
                lemma_flat2_injective(self.dy as int, self.dx as int, y2, x2, y as int, x as int);
            }
        }
    }
}

/// The flat index of an in-bounds 2-D cell is itself in bounds.
pub proof fn lemma_flat2_bounds(dy: int, dx: int, y: int, x: int)
    requires
        0 <= y < dy,
        0 <= x < dx,
    ensures
        0 <= y * dx + x < dy * dx,
        y * dx <= y * dx + x,
{
    assert(0 <= y * dx + x < dy * dx) by (nonlinear_arith)
        requires 0 <= y < dy, 0 <= x < dx,
    {}
}

/// Distinct in-bounds 2-D cells have distinct flat indices.
pub proof fn lemma_flat2_injective(dy: int, dx: int, y1: int, x1: int, y2: int, x2: int)
    requires
        0 <= y1 < dy,
        0 <= x1 < dx,
        0 <= y2 < dy,
        0 <= x2 < dx,
        !(y1 == y2 && x1 == x2),
    ensures
        y1 * dx + x1 != y2 * dx + x2,
{
    assert(y1 * dx + x1 != y2 * dx + x2) by (nonlinear_arith)
        requires
            0 <= y1 < dy,
            0 <= x1 < dx,
            0 <= y2 < dy,
            0 <= x2 < dx,
            !(y1 == y2 && x1 == x2),
    {}
}


/// The periodic boundary wrap of the point samplers: an index one period
/// below the range is raised by `d`, one at or above the range is lowered by
/// `d`.
pub open spec fn wrapped(i: int, d: int) -> int {
    if i < 0 {
        i + d
    } else if i >= d {
        i - d
    } else {
        i
    }
}

/// Wrap index `i` into `0..d` by one period.
pub fn wrap_index(i: i64, d: usize) -> (r: usize)
    requires
        1 <= d,
        d <= i64::MAX,
        -(d as int) <= i < 2 * (d as int),
    ensures
        r == wrapped(i as int, d as int),
        r < d,
{
    if i < 0 {
        (i + d as i64) as usize
    } else if i >= d as i64 {
        (i - d as i64) as usize
    } else {
        i as usize
    }
}

} // verus!
