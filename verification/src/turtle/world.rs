//! The store of all known blocks.

use super::block::{Block, BlockModel};
use crate::pathfinder::grid::{box_fits, cell_count, filled_box, Grid, GridModel};
use crate::pathfinder::moves::{path_to_moves, route_commands, texts};
use crate::pathfinder::point::Point3D;
use crate::pathfinder::search::{astar_find_path, cheapest_route, found_route, no_route};
use vstd::prelude::*;

verus! {

/// The lowest height at which a route may end, unless a world is told otherwise.
pub const MIN_HEIGHT: i32 = -60;

/// The greatest height at which a route may end, unless a world is told otherwise.
pub const MAX_HEIGHT: i32 = 318;

/// The band of heights in which a route may end.
#[derive(Debug, Clone, Copy, PartialEq, Eq, Structural)]
pub struct HeightBand {
    pub min: i32,
    pub max: i32,
}

impl Default for HeightBand {
    /// The band from `MIN_HEIGHT` to `MAX_HEIGHT`.
    fn default() -> (band: Self)
        ensures
            band == (HeightBand { min: MIN_HEIGHT, max: MAX_HEIGHT }),
    {
        HeightBand { min: MIN_HEIGHT, max: MAX_HEIGHT }
    }
}

/// The block at `i` is the first of `blocks` that stands at `position`.
pub open spec fn is_first_at(blocks: Seq<BlockModel>, position: Point3D, i: int) -> bool {
    &&& 0 <= i < blocks.len()
    &&& blocks[i].position == position
    &&& forall|j: int| 0 <= j < i ==> (#[trigger] blocks[j]).position != position
}

/// Some block stands at `position`.
pub open spec fn has_block(blocks: Seq<BlockModel>, position: Point3D) -> bool {
    exists|i: int| 0 <= i < blocks.len() && (#[trigger] blocks[i]).position == position
}

/// The index of the first block at `position`, where there is one.
pub open spec fn first_index(blocks: Seq<BlockModel>, position: Point3D) -> int {
    choose|i: int| is_first_at(blocks, position, i)
}

/// The block found at `position`: the first one there, if any.
pub open spec fn lookup(blocks: Seq<BlockModel>, position: Point3D) -> Option<BlockModel> {
    if has_block(blocks, position) {
        Some(blocks[first_index(blocks, position)])
    } else {
        None
    }
}

/// The blocks after `block` was reported: it takes the place of the block
/// found at its position, or comes last where none stood there.
pub open spec fn upsert(blocks: Seq<BlockModel>, block: BlockModel) -> Seq<BlockModel> {
    if has_block(blocks, block.position) {
        blocks.update(first_index(blocks, block.position), block)
    } else {
        blocks.push(block)
    }
}

/// No two blocks stand at the same position.
pub open spec fn unique(blocks: Seq<BlockModel>) -> bool {
    forall|i: int, j: int|
        0 <= i < j < blocks.len() ==> (#[trigger] blocks[i]).position != (#[trigger] blocks[j]).position
}

/// There is one first block at a position, and it is where `first_index` says.
pub proof fn lemma_first_index(blocks: Seq<BlockModel>, position: Point3D, i: int)
    requires
        is_first_at(blocks, position, i),
    ensures
        has_block(blocks, position),
        first_index(blocks, position) == i,
{
    let j = first_index(blocks, position);
    assert(is_first_at(blocks, position, j));
    if j < i {
        assert(blocks[j].position != position);
    }
    if i < j {
        assert(blocks[i].position != position);
    }
}

/// Where a block stands at a position, a first one does.
pub proof fn lemma_has_first(blocks: Seq<BlockModel>, position: Point3D)
    requires
        has_block(blocks, position),
    ensures
        is_first_at(blocks, position, first_index(blocks, position)),
{
    let k = choose|k: int| 0 <= k < blocks.len() && (#[trigger] blocks[k]).position == position;
    let i = lemma_first_up_to(blocks, position, k);
}

/// At or before a block at `position` stands the first block there.
proof fn lemma_first_up_to(blocks: Seq<BlockModel>, position: Point3D, k: int) -> (i: int)
    requires
        0 <= k < blocks.len(),
        blocks[k].position == position,
    ensures
        is_first_at(blocks, position, i),
    decreases k,
{
    if exists|j: int| 0 <= j < k && (#[trigger] blocks[j]).position == position {
        let j = choose|j: int| 0 <= j < k && (#[trigger] blocks[j]).position == position;
        lemma_first_up_to(blocks, position, j)
    } else {
        k
    }
}

/// A block that was reported is the one found at its position.
pub proof fn lemma_upsert_then_lookup(blocks: Seq<BlockModel>, block: BlockModel)
    ensures
        lookup(upsert(blocks, block), block.position) == Some(block),
{
    let after = upsert(blocks, block);
    if has_block(blocks, block.position) {
        lemma_has_first(blocks, block.position);
        let i = first_index(blocks, block.position);
        assert(is_first_at(after, block.position, i)) by {
            assert forall|j: int| 0 <= j < i implies (#[trigger] after[j]).position
                != block.position by {
                assert(blocks[j].position != block.position);
            }
        }
        lemma_first_index(after, block.position, i);
    } else {
        let i = blocks.len() as int;
        assert(is_first_at(after, block.position, i)) by {
            assert forall|j: int| 0 <= j < i implies (#[trigger] after[j]).position
                != block.position by {
                assert(blocks[j].position == after[j].position);
            }
        }
        lemma_first_index(after, block.position, i);
    }
}

/// Reporting a block changes nothing at any other position.
pub proof fn lemma_upsert_keeps_others(blocks: Seq<BlockModel>, block: BlockModel, other: Point3D)
    requires
        other != block.position,
    ensures
        lookup(upsert(blocks, block), other) == lookup(blocks, other),
{
    let after = upsert(blocks, block);
    if has_block(blocks, block.position) {
        lemma_has_first(blocks, block.position);
    }
    if has_block(blocks, other) {
        lemma_has_first(blocks, other);
        let i = first_index(blocks, other);
        assert(is_first_at(after, other, i)) by {
            assert forall|j: int| 0 <= j < i implies (#[trigger] after[j]).position != other by {
                assert(blocks[j].position != other);
            }
        }
        lemma_first_index(after, other, i);
    } else {
        if has_block(after, other) {
            let k = choose|k: int| 0 <= k < after.len() && (#[trigger] after[k]).position == other;
            assert(blocks[k].position == other);
        }
    }
}

/// Reporting a block keeps the positions of the world distinct.
pub proof fn lemma_upsert_keeps_unique(blocks: Seq<BlockModel>, block: BlockModel)
    requires
        unique(blocks),
    ensures
        unique(upsert(blocks, block)),
{
    let after = upsert(blocks, block);
    if has_block(blocks, block.position) {
        lemma_has_first(blocks, block.position);
        let k = first_index(blocks, block.position);
        assert forall|i: int, j: int| 0 <= i < j < after.len() implies (#[trigger] after[i]).position
            != (#[trigger] after[j]).position by {
            assert(blocks[i].position != blocks[j].position);
            assert(after[i].position == blocks[i].position);
            assert(after[j].position == blocks[j].position);
        }
    } else {
        assert forall|i: int, j: int| 0 <= i < j < after.len() implies (#[trigger] after[i]).position
            != (#[trigger] after[j]).position by {
            if j < blocks.len() {
                assert(blocks[i].position != blocks[j].position);
            } else {
                assert(blocks[i].position != block.position);
            }
        }
    }
}

/// Putting a block in the place of one that stands at the same position
/// keeps the positions of the world distinct.
pub proof fn lemma_replace_keeps_unique(blocks: Seq<BlockModel>, i: int, block: BlockModel)
    requires
        unique(blocks),
        0 <= i < blocks.len(),
        block.position == blocks[i].position,
    ensures
        unique(blocks.update(i, block)),
{
    let after = blocks.update(i, block);
    assert forall|a: int, b: int| 0 <= a < b < after.len() implies (#[trigger] after[a]).position
        != (#[trigger] after[b]).position by {
        assert(blocks[a].position != blocks[b].position);
        assert(after[a].position == blocks[a].position);
        assert(after[b].position == blocks[b].position);
    }
}

/// `p` with its height moved into `band`: up to the least height of the
/// band if it lies below, else down to the greatest if it lies above.
pub open spec fn clamp_height(p: Point3D, band: HeightBand) -> Point3D {
    Point3D {
        x: p.x,
        y: if p.y < band.min {
            band.min
        } else if p.y > band.max {
            band.max
        } else {
            p.y
        },
        z: p.z,
    }
}

/// The lower end of the searched box on one axis.
pub open spec fn lower(a: i32, b: i32, padding: u32) -> int {
    if a <= b {
        a - padding
    } else {
        b - padding
    }
}

/// The upper end of the searched box on one axis.
pub open spec fn upper(a: i32, b: i32, padding: u32) -> int {
    if a <= b {
        b + padding
    } else {
        a + padding
    }
}

/// The minimum corner of the box searched for a route from `start` to `goal`.
pub open spec fn query_min(start: Point3D, goal: Point3D, padding: u32) -> Point3D {
    Point3D {
        x: lower(start.x, goal.x, padding) as i32,
        y: lower(start.y, goal.y, padding) as i32,
        z: lower(start.z, goal.z, padding) as i32,
    }
}

/// The maximum corner of the box searched for a route from `start` to `goal`.
pub open spec fn query_max(start: Point3D, goal: Point3D, padding: u32) -> Point3D {
    Point3D {
        x: upper(start.x, goal.x, padding) as i32,
        y: upper(start.y, goal.y, padding) as i32,
        z: upper(start.z, goal.z, padding) as i32,
    }
}

/// The box around `start` and the clamped `end`, widened by `padding`, has
/// corners that are points and can carry a grid.
pub open spec fn query_fits(start: Point3D, end: Point3D, padding: u32, band: HeightBand) -> bool {
    let goal = clamp_height(end, band);
    &&& i32::MIN <= lower(start.x, goal.x, padding)
    &&& i32::MIN <= lower(start.y, goal.y, padding)
    &&& i32::MIN <= lower(start.z, goal.z, padding)
    &&& upper(start.x, goal.x, padding) <= i32::MAX
    &&& upper(start.y, goal.y, padding) <= i32::MAX
    &&& upper(start.z, goal.z, padding) <= i32::MAX
    &&& box_fits(query_min(start, goal, padding), query_max(start, goal, padding))
}

/// The cost that a block gives its cell: none for air, 2 for a block that
/// may be dug away, 0 for one that may not.
pub open spec fn block_cost(block: BlockModel, can_dig: bool) -> Option<u16> {
    if !block.is_solid() {
        None
    } else if can_dig && block.is_diggable() {
        Some(2u16)
    } else {
        Some(0u16)
    }
}

/// `g` after the costs of `blocks` were written into it, one block after the other.
pub open spec fn overlay(g: GridModel, blocks: Seq<BlockModel>, can_dig: bool) -> GridModel
    decreases blocks.len(),
{
    if blocks.len() == 0 {
        g
    } else {
        let below = overlay(g, blocks.drop_last(), can_dig);
        match block_cost(blocks.last(), can_dig) {
            Some(cost) => below.with_cost(blocks.last().position, cost),
            None => below,
        }
    }
}

/// The grid in which a route from `start` to `end` is searched: the padded
/// box around the two, every cell at cost 1, the start set to 1, and then
/// the costs of the known blocks.
pub open spec fn query_grid(
    blocks: Seq<BlockModel>,
    start: Point3D,
    end: Point3D,
    padding: u32,
    can_dig: bool,
    band: HeightBand,
) -> GridModel {
    let goal = clamp_height(end, band);
    let empty = filled_box(query_min(start, goal, padding), query_max(start, goal, padding), 1);
    overlay(empty.with_cost(start, 1), blocks, can_dig)
}

/// The cost that the known blocks give the cell at `p`: that of the block
/// found there, and `otherwise` where none is found or air is.
pub open spec fn cell_cost(blocks: Seq<BlockModel>, p: Point3D, can_dig: bool, otherwise: u16) -> u16 {
    match lookup(blocks, p) {
        Some(block) => match block_cost(block, can_dig) {
            Some(cost) => cost,
            None => otherwise,
        },
        None => otherwise,
    }
}

/// Leaving out the last block changes what is found only at its position.
proof fn lemma_lookup_without_last(blocks: Seq<BlockModel>, p: Point3D)
    requires
        blocks.len() > 0,
        blocks.last().position != p,
    ensures
        lookup(blocks, p) == lookup(blocks.drop_last(), p),
{
    let front = blocks.drop_last();
    if has_block(front, p) {
        lemma_has_first(front, p);
        let i = first_index(front, p);
        assert(is_first_at(blocks, p, i)) by {
            assert forall|j: int| 0 <= j < i implies (#[trigger] blocks[j]).position != p by {
                assert(front[j].position != p);
            }
        }
        lemma_first_index(blocks, p, i);
    } else if has_block(blocks, p) {
        let k = choose|k: int| 0 <= k < blocks.len() && (#[trigger] blocks[k]).position == p;
        assert(front[k].position == p);
    }
}

/// Writing the costs of the blocks into a grid leaves its box as it is.
pub proof fn lemma_overlay_box(g: GridModel, blocks: Seq<BlockModel>, can_dig: bool)
    requires
        g.wf(),
    ensures
        overlay(g, blocks, can_dig).wf(),
        overlay(g, blocks, can_dig).min == g.min,
        overlay(g, blocks, can_dig).nx == g.nx,
        overlay(g, blocks, can_dig).ny == g.ny,
        overlay(g, blocks, can_dig).nz == g.nz,
    decreases blocks.len(),
{
    if blocks.len() > 0 {
        lemma_overlay_box(g, blocks.drop_last(), can_dig);
        let below = overlay(g, blocks.drop_last(), can_dig);
        if below.contains(blocks.last().position) {
            below.lemma_index_in_range(blocks.last().position);
        }
    }
}

/// In a world of distinct positions, writing the costs of the blocks into
/// a grid gives each cell the cost of the block found there, and leaves it
/// the cost it had where none or air is found: a cell of known bedrock is
/// closed, whether digging is allowed or not.
pub proof fn lemma_overlay_cost(g: GridModel, blocks: Seq<BlockModel>, can_dig: bool, p: Point3D)
    requires
        g.wf(),
        unique(blocks),
        g.contains(p),
    ensures
        overlay(g, blocks, can_dig).cost(p) == cell_cost(blocks, p, can_dig, g.cost(p)),
    decreases blocks.len(),
{
    lemma_overlay_box(g, blocks, can_dig);
    if blocks.len() > 0 {
        lemma_overlay_box(g, blocks.drop_last(), can_dig);
        let last = blocks.last();
        let front = blocks.drop_last();
        assert forall|i: int, j: int| 0 <= i < j < front.len() implies (#[trigger] front[i]).position
            != (#[trigger] front[j]).position by {
            assert(blocks[i].position != blocks[j].position);
        }
        lemma_overlay_cost(g, front, can_dig, p);
        let below = overlay(g, front, can_dig);
        g.lemma_index_in_range(p);
        if below.contains(last.position) {
            below.lemma_index_in_range(last.position);
            if last.position != p && below.index_of(last.position) == below.index_of(p) {
                below.lemma_index_injective(last.position, p);
            }
        }
        if last.position == p {
            let at = blocks.len() - 1;
            assert(is_first_at(blocks, p, at)) by {
                assert forall|j: int| 0 <= j < at implies (#[trigger] blocks[j]).position != p by {
                    assert(blocks[j].position != blocks[at].position);
                }
            }
            lemma_first_index(blocks, p, at);
            if has_block(front, p) {
                let k = choose|k: int| 0 <= k < front.len() && (#[trigger] front[k]).position == p;
                assert(blocks[k].position != blocks[at].position);
            }
        } else {
            lemma_lookup_without_last(blocks, p);
        }
    } else {
        if has_block(blocks, p) {
            let k = choose|k: int| 0 <= k < blocks.len() && (#[trigger] blocks[k]).position == p;
        }
    }
}

/// In a world of distinct positions, the grid of a query gives each of
/// its cells the cost of the block found there, and 1 where none or air is
/// found.
pub proof fn lemma_query_grid_cost(
    blocks: Seq<BlockModel>,
    start: Point3D,
    end: Point3D,
    padding: u32,
    can_dig: bool,
    band: HeightBand,
    p: Point3D,
)
    requires
        unique(blocks),
        query_fits(start, end, padding, band),
        query_grid(blocks, start, end, padding, can_dig, band).contains(p),
    ensures
        query_grid(blocks, start, end, padding, can_dig, band).wf(),
        query_grid(blocks, start, end, padding, can_dig, band).cost(p) == cell_cost(
            blocks,
            p,
            can_dig,
            1,
        ),
{
    let goal = clamp_height(end, band);
    let empty = filled_box(query_min(start, goal, padding), query_max(start, goal, padding), 1);
    let base = empty.with_cost(start, 1);
    assert(empty.wf());
    if empty.contains(start) {
        empty.lemma_index_in_range(start);
    }
    assert(base.wf());
    lemma_overlay_box(base, blocks, can_dig);
    lemma_overlay_cost(base, blocks, can_dig, p);
    empty.lemma_index_in_range(p);
}

/// The known blocks, in the order in which they were first reported, and
/// the band of heights in which the routes through them may end.
#[derive(PartialEq, Debug)]
pub struct World {
    blocks: Vec<Block>,
    band: HeightBand,
}

impl View for World {
    type V = Seq<BlockModel>;

    closed spec fn view(&self) -> Seq<BlockModel> {
        self.blocks@.map_values(|b: Block| b@)
    }
}

/// The ends of the searched box on one axis, where both are coordinates.
fn axis_bounds(a: i32, b: i32, padding: u32) -> (ends: Option<(i32, i32)>)
    ensures
        ends is Some <==> i32::MIN <= lower(a, b, padding) && upper(a, b, padding) <= i32::MAX,
        ends matches Some((lo, hi)) ==> lo == lower(a, b, padding) && hi == upper(a, b, padding),
{
    let (small, large) = if a <= b {
        (a, b)
    } else {
        (b, a)
    };
    let lo: i64 = small as i64 - padding as i64;
    let hi: i64 = large as i64 + padding as i64;
    if lo < i32::MIN as i64 || hi > i32::MAX as i64 {
        None
    } else {
        Some((lo as i32, hi as i32))
    }
}

impl HeightBand {
    /// `p` with its height moved into the band.
    pub fn clamp(&self, p: Point3D) -> (q: Point3D)
        ensures
            q == clamp_height(p, *self),
    {
        let y: i32 = if p.y < self.min {
            self.min
        } else if p.y > self.max {
            self.max
        } else {
            p.y
        };
        Point3D { x: p.x, y, z: p.z }
    }
}

impl World {
    /// The band of heights in which the routes through the world may end.
    pub closed spec fn band(&self) -> HeightBand {
        self.band
    }

    /// A world of which nothing is known, with the default band of heights.
    pub fn new() -> (world: Self)
        ensures
            world@ == Seq::<BlockModel>::empty(),
            unique(world@),
            world.band() == (HeightBand { min: MIN_HEIGHT, max: MAX_HEIGHT }),
    {
        let world = World { blocks: Vec::new(), band: HeightBand::default() };
        assert(world@ =~= Seq::<BlockModel>::empty());
        world
    }

    /// The same world with `band` as the band of heights in which routes may end.
    pub fn with_height_band(self, band: HeightBand) -> (world: Self)
        ensures
            world@ == self@,
            world.band() == band,
    {
        World { blocks: self.blocks, band }
    }

    /// The band of heights in which routes may end.
    pub fn height_band(&self) -> (band: HeightBand)
        ensures
            band == self.band(),
    {
        self.band
    }

    /// The known blocks, in their order.
    pub fn blocks(&self) -> (blocks: &Vec<Block>)
        ensures
            blocks@.map_values(|b: Block| b@) == self@,
    {
        &self.blocks
    }

    /// Puts `blocks`, as they are, in the place of all known blocks.
    pub(crate) fn replace_blocks(&mut self, blocks: Vec<Block>)
        ensures
            final(self)@ == blocks@.map_values(|b: Block| b@),
            final(self).band() == old(self).band(),
    {
        self.blocks = blocks;
    }

    /// Adds `block` to the world: where a block is known at its position,
    /// `block` takes its place; where none is, `block` comes behind all
    /// known blocks. Afterwards `block` is the one found at its position,
    /// every other position holds what it held, and distinct positions stay
    /// distinct.
    pub fn add_block(&mut self, block: Block)
        ensures
            final(self)@ == upsert(old(self)@, block@),
            final(self).band() == old(self).band(),
            lookup(final(self)@, block@.position) == Some(block@),
            forall|other: Point3D|
                other != block@.position ==> #[trigger] lookup(final(self)@, other) == lookup(
                    old(self)@,
                    other,
                ),
            unique(old(self)@) ==> unique(final(self)@),
    {
        proof {
            lemma_upsert_then_lookup(self@, block@);
            assert forall|other: Point3D| other != block@.position implies #[trigger] lookup(
                upsert(self@, block@),
                other,
            ) == lookup(self@, other) by {
                lemma_upsert_keeps_others(self@, block@, other);
            }
            if unique(self@) {
                lemma_upsert_keeps_unique(self@, block@);
            }
        }
        match self.find(block.position()) {
            Some(i) => {
                self.blocks[i] = block;
                assert(self@ =~= upsert(old(self)@, block@));
            },
            None => {
                self.blocks.push(block);
                assert(self@ =~= upsert(old(self)@, block@));
            },
        }
    }

    /// The index of the first block at `position`.
    fn find(&self, position: Point3D) -> (found: Option<usize>)
        ensures
            found is Some <==> has_block(self@, position),
            found matches Some(i) ==> i == first_index(self@, position) && i < self.blocks@.len(),
    {
        let mut i: usize = 0;
        while i < self.blocks.len()
            invariant
                i <= self.blocks@.len(),
                forall|j: int| 0 <= j < i ==> (#[trigger] self@[j]).position != position,
            decreases self.blocks@.len() - i,
        {
            if self.blocks[i].position() == position {
                proof {
                    lemma_first_index(self@, position, i as int);
                }
                return Some(i);
            }
            i = i + 1;
        }
        None
    }

    /// The block at `position`, if one is known.
    pub fn get_block(&self, position: Point3D) -> (found: Option<&Block>)
        ensures
            match found {
                Some(block) => lookup(self@, position) == Some(block@),
                None => lookup(self@, position) is None,
            },
    {
        match self.find(position) {
            Some(i) => Some(&self.blocks[i]),
            None => None,
        }
    }

    /// The block at `position`, if one is known, for the caller to replace.
    /// What the caller puts there takes the place of the block. Distinct
    /// positions stay distinct if it stands at `position` too; a block for
    /// another position belongs into [`World::set_block`].
    pub fn get_block_mut(&mut self, position: Point3D) -> (found: Option<&mut Block>)
        ensures
            match found {
                Some(block) => {
                    &&& lookup(old(self)@, position) == Some(block@)
                    &&& final(self)@ == old(self)@.update(
                        first_index(old(self)@, position),
                        final(block)@,
                    )
                },
                None => lookup(old(self)@, position) is None && final(self)@ == old(self)@,
            },
            found matches Some(block) && unique(old(self)@) && final(block)@.position == position
                ==> unique(final(self)@),
            final(self).band() == old(self).band(),
    {
        match self.find(position) {
            Some(i) => {
                proof {
                    lemma_has_first(self@, position);
                    assert forall|b: Block|
                        unique(self@) && b@.position == position implies unique(
                        (#[trigger] self.blocks@.update(i as int, b)).map_values(|b: Block| b@),
                    ) by {
                        lemma_replace_keeps_unique(self@, i as int, b@);
                        assert(self.blocks@.update(i as int, b).map_values(|b: Block| b@)
                            =~= self@.update(i as int, b@));
                    }
                }
                Some(&mut self.blocks[i])
            },
            None => None,
        }
    }

    /// Records a report of `block`: it replaces the block known at its
    /// position, or is added where none is known there. Afterwards `block`
    /// is the one found at its position, every other position holds what it
    /// held, and distinct positions stay distinct.
    pub fn set_block(&mut self, block: Block)
        ensures
            final(self)@ == upsert(old(self)@, block@),
            final(self).band() == old(self).band(),
            lookup(final(self)@, block@.position) == Some(block@),
            forall|other: Point3D|
                other != block@.position ==> #[trigger] lookup(final(self)@, other) == lookup(
                    old(self)@,
                    other,
                ),
            unique(old(self)@) ==> unique(final(self)@),
    {
        self.add_block(block);
    }

    /// The corners of the box that a query from `start` to `end` searches;
    /// `None` where [`query_fits`] does not hold, so that no grid can be built.
    pub fn query_box(&self, start: Point3D, end: Point3D, padding: u32) -> (corners: Option<
        (Point3D, Point3D),
    >)
        ensures
            corners is Some <==> query_fits(start, end, padding, self.band()),
            corners matches Some((min, max)) ==> {
                &&& min == query_min(start, clamp_height(end, self.band()), padding)
                &&& max == query_max(start, clamp_height(end, self.band()), padding)
            },
    {
        let goal = self.band.clamp(end);
        let (x0, x1) = match axis_bounds(start.x, goal.x, padding) {
            Some(ends) => ends,
            None => {
                return None;
            },
        };
        let (y0, y1) = match axis_bounds(start.y, goal.y, padding) {
            Some(ends) => ends,
            None => {
                return None;
            },
        };
        let (z0, z1) = match axis_bounds(start.z, goal.z, padding) {
            Some(ends) => ends,
            None => {
                return None;
            },
        };
        let min = Point3D { x: x0, y: y0, z: z0 };
        let max = Point3D { x: x1, y: y1, z: z1 };
        match cell_count(min, max) {
            Some(_) => Some((min, max)),
            None => None,
        }
    }

    /// Builds the grid in which a route from `start` to `end` is searched.
    pub fn search_grid(&self, start: Point3D, end: Point3D, padding: u32, can_dig: bool) -> (grid:
        Grid)
        requires
            query_fits(start, end, padding, self.band()),
        ensures
            grid@.wf(),
            grid@ == query_grid(self@, start, end, padding, can_dig, self.band()),
    {
        let goal = self.band.clamp(end);
        let x = axis_bounds(start.x, goal.x, padding).unwrap();
        let y = axis_bounds(start.y, goal.y, padding).unwrap();
        let z = axis_bounds(start.z, goal.z, padding).unwrap();
        let min = Point3D { x: x.0, y: y.0, z: z.0 };
        let max = Point3D { x: x.1, y: y.1, z: z.1 };
        let mut grid = Grid::new(min, max, 1);
        grid.set_cost(start, 1);
        let ghost base = grid@;
        let mut i: usize = 0;
        while i < self.blocks.len()
            invariant
                i <= self.blocks@.len(),
                grid@ == overlay(base, self@.take(i as int), can_dig),
            decreases self.blocks@.len() - i,
        {
            let block = &self.blocks[i];
            proof {
                assert(self@.take(i + 1).drop_last() =~= self@.take(i as int));
                assert(self@.take(i + 1).last() == block@);
            }
            if block.is_solid() {
                if can_dig && block.is_diggable() {
                    grid.set_cost(block.position(), 2);
                } else {
                    grid.set_cost(block.position(), 0);
                }
            }
            i = i + 1;
        }
        proof {
            assert(self@.take(i as int) =~= self@);
            use_type_invariant(&grid);
        }
        grid
    }

    /// Searches a cheapest route from `start` to `end`, whose height is
    /// first moved into the band of heights of the world.
    ///
    /// The search runs in the box around the two points, widened by
    /// `padding` cells on every side. A cell with a solid block costs 2 if
    /// `can_dig` is set and the block is no bedrock, and is closed otherwise.
    /// The result is that of [`astar_find_path`] on this grid.
    pub fn get_path(&self, start: Point3D, end: Point3D, padding: u32, can_dig: bool) -> (found:
        Option<Vec<Point3D>>)
        requires
            query_fits(start, end, padding, self.band()),
        ensures
            ({
                let grid = query_grid(self@, start, end, padding, can_dig, self.band());
                let goal = clamp_height(end, self.band());
                &&& match found {
                    Some(path) => found_route(grid, start, goal) == Some(path@),
                    None => found_route(grid, start, goal) is None,
                }
                &&& found matches Some(path) ==> cheapest_route(grid, path@, start, goal)
                &&& found is None ==> no_route(grid, start, goal)
            }),
    {
        let grid = self.search_grid(start, end, padding, can_dig);
        astar_find_path(&grid, start, self.band.clamp(end))
    }

    /// The commands that take a turtle along the route that
    /// [`World::get_path`] finds from `start` to `end`; `None` where it
    /// finds none.
    pub fn get_moves(&self, start: Point3D, end: Point3D, padding: u32, can_dig: bool) -> (found:
        Option<Vec<String>>)
        requires
            query_fits(start, end, padding, self.band()),
        ensures
            ({
                let grid = query_grid(self@, start, end, padding, can_dig, self.band());
                match found_route(grid, start, clamp_height(end, self.band())) {
                    Some(path) => found matches Some(moves) && texts(moves@) == route_commands(
                        grid,
                        path,
                    ),
                    None => found is None,
                }
            }),
    {
        let grid = self.search_grid(start, end, padding, can_dig);
        match astar_find_path(&grid, start, self.band.clamp(end)) {
            Some(path) => {
                match path_to_moves(&grid, path.as_slice()) {
                    Ok(moves) => Some(moves),
                    Err(_) => {
                        proof {
                            assert(false);
                        }
                        None
                    },
                }
            },
            None => None,
        }
    }
}

} // verus!
