//! A bounded box of cells with one traversal cost per cell, stored flat.

use super::point::Point3D;
use vstd::prelude::*;

verus! {

/// The number of cells on one axis of a box that runs from `lo` to `hi`, both inclusive.
pub open spec fn extent(lo: i32, hi: i32) -> int {
    hi - lo + 1
}

/// The number of cells of the box with the inclusive corners `min` and `max`.
pub open spec fn box_cells(min: Point3D, max: Point3D) -> int {
    extent(min.x, max.x) * extent(min.y, max.y) * extent(min.z, max.z)
}

/// A grid can be built over the box: no axis is empty and the cells can be counted in a `usize`.
pub open spec fn box_fits(min: Point3D, max: Point3D) -> bool {
    &&& min.x <= max.x
    &&& min.y <= max.y
    &&& min.z <= max.z
    &&& box_cells(min, max) <= usize::MAX
}

/// The place of the cell with the offsets `(ix, iy, iz)` in the flat storage
/// of a box that is `ny` cells deep and `nz` cells wide.
pub open spec fn flat_index(ix: int, iy: int, iz: int, ny: int, nz: int) -> int {
    (ix * ny + iy) * nz + iz
}

/// What a grid is: its inclusive minimum corner, its extents and its costs in flat order.
pub struct GridModel {
    pub min: Point3D,
    pub nx: int,
    pub ny: int,
    pub nz: int,
    pub costs: Seq<u16>,
}

impl GridModel {
    /// Every extent is positive, the maximum corner is a point, and there is
    /// one cost per cell, at an index that a `usize` holds.
    pub open spec fn wf(self) -> bool {
        &&& self.nx >= 1
        &&& self.ny >= 1
        &&& self.nz >= 1
        &&& self.min.x + self.nx - 1 <= i32::MAX
        &&& self.min.y + self.ny - 1 <= i32::MAX
        &&& self.min.z + self.nz - 1 <= i32::MAX
        &&& self.costs.len() == self.nx * self.ny * self.nz
        &&& self.costs.len() <= usize::MAX
    }

    /// `p` lies in the box.
    pub open spec fn contains(self, p: Point3D) -> bool {
        &&& self.min.x <= p.x < self.min.x + self.nx
        &&& self.min.y <= p.y < self.min.y + self.ny
        &&& self.min.z <= p.z < self.min.z + self.nz
    }

    /// The flat index of `p`.
    pub open spec fn index_of(self, p: Point3D) -> int {
        flat_index(p.x - self.min.x, p.y - self.min.y, p.z - self.min.z, self.ny, self.nz)
    }

    /// The point stored at the flat index `i`.
    pub open spec fn point_at(self, i: int) -> Point3D {
        let plane = self.ny * self.nz;
        Point3D {
            x: (self.min.x + i / plane) as i32,
            y: (self.min.y + (i % plane) / self.nz) as i32,
            z: (self.min.z + (i % plane) % self.nz) as i32,
        }
    }

    /// The cost of entering `p`, for a `p` in the box.
    pub open spec fn cost(self, p: Point3D) -> u16 {
        self.costs[self.index_of(p)]
    }

    /// `p` lies in the box and can be entered.
    pub open spec fn passable(self, p: Point3D) -> bool {
        self.contains(p) && self.cost(p) != 0
    }

    /// The same grid with the cost of `p` replaced; unchanged if `p` lies outside.
    pub open spec fn with_cost(self, p: Point3D, cost: u16) -> GridModel {
        if self.contains(p) {
            GridModel { costs: self.costs.update(self.index_of(p), cost), ..self }
        } else {
            self
        }
    }
}

/// Offsets inside the box give a place inside the storage.
proof fn lemma_flat_in_range(ix: int, iy: int, iz: int, nx: int, ny: int, nz: int)
    requires
        0 <= ix < nx,
        0 <= iy < ny,
        0 <= iz < nz,
    ensures
        0 <= flat_index(ix, iy, iz, ny, nz) < nx * ny * nz,
{
    assert(0 <= ix * ny + iy <= nx * ny - 1) by (nonlinear_arith)
        requires
            0 <= ix < nx,
            0 <= iy < ny,
    ;
    let row = ix * ny + iy;
    let rows = nx * ny;
    assert(0 <= row * nz + iz < rows * nz) by (nonlinear_arith)
        requires
            0 <= row <= rows - 1,
            0 <= iz < nz,
    ;
}

/// Division and remainder take a place apart into the offsets it was made of.
proof fn lemma_flat_split(ix: int, iy: int, iz: int, ny: int, nz: int)
    requires
        0 <= ix,
        0 <= iy < ny,
        0 <= iz < nz,
    ensures
        flat_index(ix, iy, iz, ny, nz) / (ny * nz) == ix,
        (flat_index(ix, iy, iz, ny, nz) % (ny * nz)) / nz == iy,
        (flat_index(ix, iy, iz, ny, nz) % (ny * nz)) % nz == iz,
{
    let plane = ny * nz;
    let rest = iy * nz + iz;
    assert(0 <= rest < plane && flat_index(ix, iy, iz, ny, nz) == ix * plane + rest) by (nonlinear_arith)
        requires
            0 <= iy < ny,
            0 <= iz < nz,
            plane == ny * nz,
            rest == iy * nz + iz,
            flat_index(ix, iy, iz, ny, nz) == (ix * ny + iy) * nz + iz,
    ;
    vstd::arithmetic::div_mod::lemma_fundamental_div_mod_converse(
        flat_index(ix, iy, iz, ny, nz),
        plane,
        ix,
        rest,
    );
    vstd::arithmetic::div_mod::lemma_fundamental_div_mod_converse(rest, nz, iy, iz);
}

/// The offsets that division and remainder give for a place lie inside
/// the box and make up the place again.
proof fn lemma_flat_join(i: int, nx: int, ny: int, nz: int)
    requires
        nx >= 1,
        ny >= 1,
        nz >= 1,
        0 <= i < nx * ny * nz,
    ensures
        0 <= i / (ny * nz) < nx,
        0 <= (i % (ny * nz)) / nz < ny,
        0 <= (i % (ny * nz)) % nz < nz,
        flat_index(i / (ny * nz), (i % (ny * nz)) / nz, (i % (ny * nz)) % nz, ny, nz) == i,
{
    let plane = ny * nz;
    assert(plane >= 1) by (nonlinear_arith)
        requires
            ny >= 1,
            nz >= 1,
            plane == ny * nz,
    ;
    let ix = i / plane;
    let rest = i % plane;
    vstd::arithmetic::div_mod::lemma_fundamental_div_mod(i, plane);
    vstd::arithmetic::div_mod::lemma_mod_bound(i, plane);
    assert(0 <= ix < nx) by (nonlinear_arith)
        requires
            i == plane * ix + rest,
            0 <= rest < plane,
            0 <= i < nx * ny * nz,
            plane == ny * nz,
            nx >= 1,
    ;
    let iy = rest / nz;
    let iz = rest % nz;
    vstd::arithmetic::div_mod::lemma_fundamental_div_mod(rest, nz);
    vstd::arithmetic::div_mod::lemma_mod_bound(rest, nz);
    assert(0 <= iy < ny) by (nonlinear_arith)
        requires
            rest == nz * iy + iz,
            0 <= iz < nz,
            0 <= rest < plane,
            plane == ny * nz,
    ;
    assert(flat_index(ix, iy, iz, ny, nz) == i) by (nonlinear_arith)
        requires
            i == plane * ix + rest,
            rest == nz * iy + iz,
            plane == ny * nz,
            flat_index(ix, iy, iz, ny, nz) == (ix * ny + iy) * nz + iz,
    ;
}

impl GridModel {
    /// A point of the box has a flat index inside the storage.
    pub proof fn lemma_index_in_range(self, p: Point3D)
        requires
            self.wf(),
            self.contains(p),
        ensures
            0 <= self.index_of(p) < self.costs.len(),
    {
        lemma_flat_in_range(
            p.x - self.min.x,
            p.y - self.min.y,
            p.z - self.min.z,
            self.nx,
            self.ny,
            self.nz,
        );
    }

    /// Encoding a point of the box and decoding the index gives the point back.
    pub proof fn lemma_point_round_trip(self, p: Point3D)
        requires
            self.wf(),
            self.contains(p),
        ensures
            self.point_at(self.index_of(p)) == p,
    {
        lemma_flat_split(p.x - self.min.x, p.y - self.min.y, p.z - self.min.z, self.ny, self.nz);
    }

    /// Decoding an index of the storage gives a point of the box, and
    /// encoding that point gives the index back.
    pub proof fn lemma_index_round_trip(self, i: int)
        requires
            self.wf(),
            0 <= i < self.costs.len(),
        ensures
            self.contains(self.point_at(i)),
            self.index_of(self.point_at(i)) == i,
    {
        lemma_flat_join(i, self.nx, self.ny, self.nz);
    }

    /// Two points of the box with the same flat index are the same point.
    pub proof fn lemma_index_injective(self, p: Point3D, q: Point3D)
        requires
            self.wf(),
            self.contains(p),
            self.contains(q),
            self.index_of(p) == self.index_of(q),
        ensures
            p == q,
    {
        self.lemma_point_round_trip(p);
        self.lemma_point_round_trip(q);
    }
}

/// A box of cells, each with the cost of entering it: 0 for a cell that
/// cannot be entered, a positive weight for one that can.
pub struct Grid {
    min: Point3D,
    dims: (usize, usize, usize),
    costs: Vec<u16>,
}

impl View for Grid {
    type V = GridModel;

    closed spec fn view(&self) -> GridModel {
        GridModel {
            min: self.min,
            nx: self.dims.0 as int,
            ny: self.dims.1 as int,
            nz: self.dims.2 as int,
            costs: self.costs@,
        }
    }
}

/// The model of a freshly built grid over the box from `min` to `max`.
pub open spec fn filled_box(min: Point3D, max: Point3D, cost: u16) -> GridModel {
    GridModel {
        min,
        nx: extent(min.x, max.x),
        ny: extent(min.y, max.y),
        nz: extent(min.z, max.z),
        costs: Seq::new(box_cells(min, max) as nat, |i: int| cost),
    }
}

/// Where the number of cells is within a limit, so is every extent and every product of two.
proof fn lemma_extents_fit(nx: int, ny: int, nz: int, limit: int)
    requires
        nx >= 1,
        ny >= 1,
        nz >= 1,
        nx * ny * nz <= limit,
    ensures
        nx <= limit,
        ny <= limit,
        nz <= limit,
        nx * ny <= limit,
        ny * nz <= limit,
{
    assert(nx <= nx * ny && ny <= nx * ny) by (nonlinear_arith)
        requires
            nx >= 1,
            ny >= 1,
    ;
    let rows = nx * ny;
    assert(rows <= rows * nz && nz <= rows * nz) by (nonlinear_arith)
        requires
            rows >= 1,
            nz >= 1,
    ;
    assert(ny * nz <= nx * ny * nz) by (nonlinear_arith)
        requires
            nx >= 1,
            ny >= 1,
            nz >= 1,
    ;
}

/// The number of cells of the box from `min` to `max`, where a grid can be built over it.
pub fn cell_count(min: Point3D, max: Point3D) -> (count: Option<usize>)
    ensures
        count is Some <==> box_fits(min, max),
        count matches Some(n) ==> n == box_cells(min, max),
{
    if max.x < min.x || max.y < min.y || max.z < min.z {
        return None;
    }
    let wx: u64 = (max.x as i64 - min.x as i64 + 1) as u64;
    let wy: u64 = (max.y as i64 - min.y as i64 + 1) as u64;
    let wz: u64 = (max.z as i64 - min.z as i64 + 1) as u64;
    let rows: u64 = match wx.checked_mul(wy) {
        Some(rows) => rows,
        None => {
            proof {
                let rows = wx * wy;
                assert(rows * wz >= rows) by (nonlinear_arith)
                    requires
                        rows >= 1,
                        wz >= 1,
                ;
            }
            return None;
        },
    };
    match rows.checked_mul(wz) {
        Some(cells) => {
            if cells > usize::MAX as u64 {
                None
            } else {
                Some(cells as usize)
            }
        },
        None => None,
    }
}

impl Grid {
    /// Every grid is well formed.
    #[verifier::type_invariant]
    pub open spec fn well_formed(&self) -> bool {
        self@.wf()
    }

    /// The products that the index arithmetic forms fit a `usize`.
    proof fn lemma_cells_fit(&self)
        requires
            self@.wf(),
        ensures
            self@.nx * self@.ny * self@.nz <= usize::MAX,
            self@.nx * self@.ny <= usize::MAX,
            self@.ny * self@.nz <= usize::MAX,
            self@.ny * self@.nz >= 1,
    {
        lemma_extents_fit(self@.nx, self@.ny, self@.nz, usize::MAX as int);
        assert(self@.ny * self@.nz >= 1) by (nonlinear_arith)
            requires
                self@.ny >= 1,
                self@.nz >= 1,
        ;
    }

    /// A grid over the box from `min` to `max`, both inclusive, with every cost set to `default_cost`.
    pub fn new(min: Point3D, max: Point3D, default_cost: u16) -> (grid: Self)
        requires
            box_fits(min, max),
        ensures
            grid@.wf(),
            grid@ == filled_box(min, max, default_cost),
    {
        let nx64: i64 = max.x as i64 - min.x as i64 + 1;
        let ny64: i64 = max.y as i64 - min.y as i64 + 1;
        let nz64: i64 = max.z as i64 - min.z as i64 + 1;
        proof {
            lemma_extents_fit(nx64 as int, ny64 as int, nz64 as int, usize::MAX as int);
        }
        let nx: usize = nx64 as usize;
        let ny: usize = ny64 as usize;
        let nz: usize = nz64 as usize;
        let len: usize = nx * ny * nz;
        let costs: Vec<u16> = vec![default_cost; len];
        let grid = Grid { min, dims: (nx, ny, nz), costs };
        assert(grid@.costs =~= filled_box(min, max, default_cost).costs);
        grid
    }

    /// Like [`Grid::new`], for any pair of corners: `None` where no grid can be built over the box.
    pub fn try_new(min: Point3D, max: Point3D, default_cost: u16) -> (grid: Option<Self>)
        ensures
            grid is Some <==> box_fits(min, max),
            grid matches Some(g) ==> g@.wf() && g@ == filled_box(min, max, default_cost),
    {
        match cell_count(min, max) {
            Some(_) => Some(Grid::new(min, max, default_cost)),
            None => None,
        }
    }

    /// The number of cells.
    pub fn cells(&self) -> (n: usize)
        ensures
            n == self@.costs.len(),
            self@.wf(),
    {
        proof {
            use_type_invariant(self);
        }
        self.costs.len()
    }

    /// Whether `p` lies in the box.
    pub fn in_bounds(&self, p: Point3D) -> (inside: bool)
        ensures
            inside == self@.contains(p),
    {
        proof {
            use_type_invariant(self);
        }
        let ix: i64 = p.x as i64 - self.min.x as i64;
        let iy: i64 = p.y as i64 - self.min.y as i64;
        let iz: i64 = p.z as i64 - self.min.z as i64;
        ix >= 0 && ix < self.dims.0 as i64 && iy >= 0 && iy < self.dims.1 as i64 && iz >= 0 && iz
            < self.dims.2 as i64
    }

    /// The flat index of `p`; `None` for a point outside the box.
    pub fn idx(&self, p: Point3D) -> (found: Option<usize>)
        ensures
            found is Some <==> self@.contains(p),
            found matches Some(i) ==> i == self@.index_of(p) && i < self@.costs.len(),
    {
        proof {
            use_type_invariant(self);
        }
        if !self.in_bounds(p) {
            return None;
        }
        let ix: usize = (p.x as i64 - self.min.x as i64) as usize;
        let iy: usize = (p.y as i64 - self.min.y as i64) as usize;
        let iz: usize = (p.z as i64 - self.min.z as i64) as usize;
        proof {
            self@.lemma_index_in_range(p);
            self.lemma_cells_fit();
            let (nx, ny) = (self@.nx, self@.ny);
            assert(0 <= ix * ny <= ix * ny + iy < nx * ny) by (nonlinear_arith)
                requires
                    0 <= ix < nx,
                    0 <= iy < ny,
            ;
        }
        Some((ix * self.dims.1 + iy) * self.dims.2 + iz)
    }

    /// The point stored at the flat index `idx`.
    pub fn point(&self, idx: usize) -> (p: Point3D)
        requires
            idx < self@.costs.len(),
        ensures
            p == self@.point_at(idx as int),
            self@.contains(p),
            self@.index_of(p) == idx,
    {
        proof {
            use_type_invariant(self);
            self@.lemma_index_round_trip(idx as int);
            lemma_flat_join(idx as int, self@.nx, self@.ny, self@.nz);
            self.lemma_cells_fit();
        }
        let plane: usize = self.dims.1 * self.dims.2;
        let ix: usize = idx / plane;
        let rem: usize = idx % plane;
        let iy: usize = rem / self.dims.2;
        let iz: usize = rem % self.dims.2;
        Point3D {
            x: (self.min.x as i64 + ix as i64) as i32,
            y: (self.min.y as i64 + iy as i64) as i32,
            z: (self.min.z as i64 + iz as i64) as i32,
        }
    }

    /// Sets the cost of entering `p`; 0 closes the cell. Nothing changes for a `p` outside the box.
    pub fn set_cost(&mut self, p: Point3D, cost: u16)
        ensures
            final(self)@ == old(self)@.with_cost(p, cost),
    {
        proof {
            use_type_invariant(&*self);
        }
        if let Some(i) = self.idx(p) {
            self.costs[i] = cost;
        }
    }

    /// The cost stored at the flat index `idx`.
    pub fn cost_idx(&self, idx: usize) -> (cost: u16)
        requires
            idx < self@.costs.len(),
        ensures
            cost == self@.costs[idx as int],
    {
        self.costs[idx]
    }

    /// The cost of entering `p`; `None` for a point outside the box.
    pub fn cost_point(&self, p: Point3D) -> (cost: Option<u16>)
        ensures
            cost == if self@.contains(p) {
                Some(self@.cost(p))
            } else {
                None::<u16>
            },
    {
        match self.idx(p) {
            Some(i) => Some(self.costs[i]),
            None => None,
        }
    }
}

} // verus!
