//! One known block of the world.

use crate::pathfinder::point::Point3D;
use vstd::prelude::*;

verus! {

/// What a block is: where it stands and what it is made of.
pub struct BlockModel {
    pub position: Point3D,
    pub kind: Seq<char>,
}

impl BlockModel {
    /// The block is anything but air.
    pub open spec fn is_solid(self) -> bool {
        self.kind != "minecraft:air"@
    }

    /// The block can be dug away: it is anything but bedrock.
    pub open spec fn is_diggable(self) -> bool {
        self.kind != "minecraft:bedrock"@
    }
}

/// Whether two texts are the same, found by comparing their bytes.
fn same_text(a: &str, b: &str) -> (same: bool)
    ensures
        same == (a@ == b@),
{
    let x: &[u8] = a.as_bytes();
    let y: &[u8] = b.as_bytes();
    proof {
        vstd::utf8::encode_utf8_decode_utf8(a@);
        vstd::utf8::encode_utf8_decode_utf8(b@);
    }
    if x.len() != y.len() {
        return false;
    }
    let mut i: usize = 0;
    while i < x.len()
        invariant
            x@ == vstd::utf8::encode_utf8(a@),
            y@ == vstd::utf8::encode_utf8(b@),
            vstd::utf8::decode_utf8(x@) == a@,
            vstd::utf8::decode_utf8(y@) == b@,
            x@.len() == y@.len(),
            i <= x@.len(),
            forall|j: int| 0 <= j < i ==> x@[j] == y@[j],
        decreases x@.len() - i,
    {
        if x[i] != y[i] {
            return false;
        }
        i = i + 1;
    }
    assert(x@ =~= y@);
    true
}

/// A block of the world: a position and the name of the block's type.
#[derive(PartialEq, Debug)]
pub struct Block {
    position: Point3D,
    block_type: String,
}

impl View for Block {
    type V = BlockModel;

    closed spec fn view(&self) -> BlockModel {
        BlockModel { position: self.position, kind: self.block_type@ }
    }
}

impl Block {
    /// A block of the type `block_type` at `position`.
    pub fn new(position: Point3D, block_type: String) -> (block: Self)
        ensures
            block@ == (BlockModel { position, kind: block_type@ }),
    {
        Block { position, block_type }
    }

    /// Where the block stands.
    pub fn position(&self) -> (position: Point3D)
        ensures
            position == self@.position,
    {
        self.position
    }

    /// The name of the block's type.
    pub fn block_type(&self) -> (name: &str)
        ensures
            name@ == self@.kind,
    {
        self.block_type.as_str()
    }

    /// Whether the block is an obstacle: every type but air is.
    pub fn is_solid(&self) -> (solid: bool)
        ensures
            solid == self@.is_solid(),
    {
        !same_text(self.block_type.as_str(), "minecraft:air")
    }

    /// Whether the block can be dug away: every type but bedrock can.
    pub fn is_diggable(&self) -> (diggable: bool)
        ensures
            diggable == self@.is_diggable(),
    {
        !same_text(self.block_type.as_str(), "minecraft:bedrock")
    }
}

} // verus!
