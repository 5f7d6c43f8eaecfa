//! The binary snapshot of a world.
//!
//! A snapshot holds the number of blocks and then each block: its three
//! coordinates and the name of its type. Numbers are written as bincode
//! writes them under its standard configuration, a name as its length and
//! its UTF-8 bytes.

use super::block::{Block, BlockModel};
use super::world::World;
use crate::pathfinder::point::Point3D;
use vstd::prelude::*;
use vstd::slice::{slice_subrange, slice_to_vec};
use vstd::utf8::{decode_utf8, encode_utf8, valid_utf8};

verus! {

/// The error of bincode's encoder. Nothing is known of its value.
#[verifier::external_type_specification]
#[verifier::external_body]
pub struct ExEncodeError(bincode::error::EncodeError);

/// The error of bincode's decoder. Nothing is known of its value.
#[verifier::external_type_specification]
#[verifier::external_body]
pub struct ExDecodeError(bincode::error::DecodeError);

/// The error of `String::from_utf8`. Nothing is known of its value.
#[verifier::external_type_specification]
#[verifier::external_body]
pub struct ExFromUtf8Error(std::string::FromUtf8Error);

/// Why a snapshot could not be read.
#[derive(Debug, Clone, Copy, PartialEq, Eq, Structural)]
pub enum PersistenceError {
    /// The bytes are no snapshot of a world.
    Corrupt,
}

/// The `width` low bytes of `v`, lowest first.
pub open spec fn le_bytes(v: int, width: nat) -> Seq<u8>
    decreases width,
{
    if width == 0 {
        Seq::empty()
    } else {
        seq![(v % 256) as u8] + le_bytes(v / 256, (width - 1) as nat)
    }
}

/// The number whose bytes, lowest first, are `b`.
pub open spec fn le_value(b: Seq<u8>) -> int
    decreases b.len(),
{
    if b.len() == 0 {
        0
    } else {
        b[0] + 256 * le_value(b.drop_first())
    }
}

/// The number of bytes that follow the marker byte of a variable-length number.
pub open spec fn marked_width(marker: u8) -> nat {
    if marker == 251 {
        2
    } else if marker == 252 {
        4
    } else {
        8
    }
}

/// The variable-length form of the unsigned number `v`, which is below 2^64:
/// one byte up to 250, else a marker byte (251, 252, 253) and then 2, 4 or 8
/// bytes, lowest first, whichever is the least that holds `v`.
pub open spec fn varint(v: int) -> Seq<u8> {
    if v <= 250 {
        seq![v as u8]
    } else if v <= 0xffff {
        seq![251u8] + le_bytes(v, 2)
    } else if v <= 0xffff_ffff {
        seq![252u8] + le_bytes(v, 4)
    } else {
        seq![253u8] + le_bytes(v, 8)
    }
}

/// The unsigned number at the front of `b` and the number of bytes it
/// takes, where `b` starts with a variable-length number whose marker is at
/// most `widest`: 252 for a number of 32 bits, 253 for one of 64.
pub open spec fn parse_varint(b: Seq<u8>, widest: u8) -> Option<(int, int)> {
    if b.len() == 0 {
        None
    } else if b[0] <= 250 {
        Some((b[0] as int, 1int))
    } else if b[0] > widest {
        None
    } else if b.len() >= 1 + marked_width(b[0]) {
        let end = 1 + marked_width(b[0]) as int;
        Some((le_value(b.subrange(1, end)), end))
    } else {
        None
    }
}

/// The unsigned number that stands for the signed number `v`: 0, -1, 1, -2, ... become 0, 1, 2, 3, ...
pub open spec fn zigzag(v: int) -> int {
    if v < 0 {
        -2 * v - 1
    } else {
        2 * v
    }
}

/// The signed number for which the unsigned number `n` stands.
pub open spec fn unzigzag(n: int) -> int {
    if n % 2 == 0 {
        n / 2
    } else {
        -(n / 2) - 1
    }
}

/// The signed 32-bit number at the front of `b` and the number of bytes it takes.
pub open spec fn parse_i32(b: Seq<u8>) -> Option<(int, int)> {
    match parse_varint(b, 252) {
        Some((n, used)) => Some((unzigzag(n), used)),
        None => None,
    }
}

/// The bytes of a position: its three coordinates.
pub open spec fn position_bytes(p: Point3D) -> Seq<u8> {
    varint(zigzag(p.x as int)) + varint(zigzag(p.y as int)) + varint(zigzag(p.z as int))
}

/// The bytes of a text: the length of its UTF-8 form, then that form.
pub open spec fn text_bytes(text: Seq<char>) -> Seq<u8> {
    varint(encode_utf8(text).len() as int) + encode_utf8(text)
}

/// The bytes of one block: its position, then the name of its type.
pub open spec fn block_bytes(block: BlockModel) -> Seq<u8> {
    position_bytes(block.position) + text_bytes(block.kind)
}

/// The bytes of `blocks`, one block after the other.
pub open spec fn blocks_bytes(blocks: Seq<BlockModel>) -> Seq<u8>
    decreases blocks.len(),
{
    if blocks.len() == 0 {
        Seq::empty()
    } else {
        blocks_bytes(blocks.drop_last()) + block_bytes(blocks.last())
    }
}

/// The snapshot of `blocks`: their number, then their bytes.
pub open spec fn snapshot_bytes(blocks: Seq<BlockModel>) -> Seq<u8> {
    varint(blocks.len() as int) + blocks_bytes(blocks)
}

/// The position at the front of `b`, as three signed numbers, and the number of bytes it takes.
pub open spec fn parse_position(b: Seq<u8>) -> Option<(Point3D, int)> {
    match parse_i32(b) {
        None => None,
        Some((x, ux)) => match parse_i32(b.skip(ux)) {
            None => None,
            Some((y, uy)) => match parse_i32(b.skip(ux + uy)) {
                None => None,
                Some((z, uz)) => Some(
                    (Point3D { x: x as i32, y: y as i32, z: z as i32 }, ux + uy + uz),
                ),
            },
        },
    }
}

/// The text at the front of `b`, as its length and that many bytes of
/// valid UTF-8, and the number of bytes it takes.
pub open spec fn parse_text(b: Seq<u8>) -> Option<(Seq<char>, int)> {
    match parse_varint(b, 253) {
        None => None,
        Some((len, at)) => if len <= b.len() - at && valid_utf8(b.subrange(at, at + len)) {
            Some((decode_utf8(b.subrange(at, at + len)), at + len))
        } else {
            None
        },
    }
}

/// The block at the front of `b` and the number of bytes it takes.
pub open spec fn parse_block(b: Seq<u8>) -> Option<(BlockModel, int)> {
    match parse_position(b) {
        None => None,
        Some((position, at)) => match parse_text(b.skip(at)) {
            None => None,
            Some((kind, used)) => Some((BlockModel { position, kind }, at + used)),
        },
    }
}

/// The `count` blocks at the front of `b`.
pub open spec fn parse_blocks(b: Seq<u8>, count: nat) -> Option<Seq<BlockModel>>
    decreases count,
{
    if count == 0 {
        Some(Seq::empty())
    } else {
        match parse_block(b) {
            None => None,
            Some((block, used)) => match parse_blocks(b.skip(used), (count - 1) as nat) {
                None => None,
                Some(rest) => Some(seq![block] + rest),
            },
        }
    }
}

/// The blocks of which `b` starts with a snapshot. Bytes behind the snapshot are not looked at.
pub open spec fn parse_snapshot(b: Seq<u8>) -> Option<Seq<BlockModel>> {
    match parse_varint(b, 253) {
        None => None,
        Some((count, used)) => parse_blocks(b.skip(used), count as nat),
    }
}

/// Every block of `blocks`, and their number, can be written down: the
/// number and the length of each name in bytes are below 2^64.
pub open spec fn storable(blocks: Seq<BlockModel>) -> bool {
    &&& blocks.len() <= u64::MAX
    &&& forall|i: int|
        0 <= i < blocks.len() ==> encode_utf8((#[trigger] blocks[i]).kind).len() <= u64::MAX
}

/// 256 to the power of `width`.
spec fn pow256(width: nat) -> int
    decreases width,
{
    if width == 0 {
        1
    } else {
        256 * pow256((width - 1) as nat)
    }
}

/// A number that `width` bytes can hold is the number of its low `width` bytes.
proof fn lemma_le_round_trip(v: int, width: nat)
    requires
        0 <= v < pow256(width),
    ensures
        le_bytes(v, width).len() == width,
        le_value(le_bytes(v, width)) == v,
    decreases width,
{
    if width > 0 {
        lemma_le_round_trip(v / 256, (width - 1) as nat);
        assert(le_bytes(v, width).drop_first() =~= le_bytes(v / 256, (width - 1) as nat));
    }
}

/// The variable-length form of a number is read back as that number,
/// whatever follows it.
proof fn lemma_varint_round_trip(v: int, rest: Seq<u8>, widest: u8)
    requires
        0 <= v <= u64::MAX,
        widest == 252 || widest == 253,
        widest == 252 ==> v <= u32::MAX,
    ensures
        parse_varint(varint(v) + rest, widest) == Some((v, varint(v).len() as int)),
{
    let b = varint(v) + rest;
    assert(pow256(2) == 0x1_0000 && pow256(4) == 0x1_0000_0000 && pow256(8)
        == 0x1_0000_0000_0000_0000) by {
        reveal_with_fuel(pow256, 9);
    }
    if v <= 250 {
    } else if v <= 0xffff {
        lemma_le_round_trip(v, 2);
        assert(b.subrange(1, 3) =~= le_bytes(v, 2));
    } else if v <= 0xffff_ffff {
        lemma_le_round_trip(v, 4);
        assert(b.subrange(1, 5) =~= le_bytes(v, 4));
    } else {
        lemma_le_round_trip(v, 8);
        assert(b.subrange(1, 9) =~= le_bytes(v, 8));
    }
}

/// The same for a signed number of 32 bits.
proof fn lemma_i32_round_trip(v: i32, rest: Seq<u8>)
    ensures
        parse_i32(varint(zigzag(v as int)) + rest) == Some(
            (v as int, varint(zigzag(v as int)).len() as int),
        ),
{
    lemma_varint_round_trip(zigzag(v as int), rest, 252);
}

/// The bytes of a position are read back as that position.
proof fn lemma_position_round_trip(p: Point3D, rest: Seq<u8>)
    ensures
        parse_position(position_bytes(p) + rest) == Some((p, position_bytes(p).len() as int)),
{
    let x = varint(zigzag(p.x as int));
    let y = varint(zigzag(p.y as int));
    let z = varint(zigzag(p.z as int));
    let b = position_bytes(p) + rest;
    assert(b =~= x + (y + z + rest));
    lemma_i32_round_trip(p.x, y + z + rest);
    assert(b.skip(x.len() as int) =~= y + (z + rest));
    lemma_i32_round_trip(p.y, z + rest);
    assert(b.skip((x.len() + y.len()) as int) =~= z + rest);
    lemma_i32_round_trip(p.z, rest);
}

/// The bytes of a text are read back as that text.
proof fn lemma_text_round_trip(text: Seq<char>, rest: Seq<u8>)
    requires
        encode_utf8(text).len() <= u64::MAX,
    ensures
        parse_text(text_bytes(text) + rest) == Some((text, text_bytes(text).len() as int)),
{
    let raw = encode_utf8(text);
    let len = varint(raw.len() as int);
    let b = text_bytes(text) + rest;
    assert(b =~= len + (raw + rest));
    lemma_varint_round_trip(raw.len() as int, raw + rest, 253);
    assert(b.subrange(len.len() as int, (len.len() + raw.len()) as int) =~= raw);
    vstd::utf8::encode_utf8_valid_utf8(text);
    vstd::utf8::encode_utf8_decode_utf8(text);
}

/// The bytes of a block are read back as that block.
proof fn lemma_block_round_trip(block: BlockModel, rest: Seq<u8>)
    requires
        encode_utf8(block.kind).len() <= u64::MAX,
    ensures
        parse_block(block_bytes(block) + rest) == Some((block, block_bytes(block).len() as int)),
{
    let position = position_bytes(block.position);
    let text = text_bytes(block.kind);
    let b = block_bytes(block) + rest;
    assert(b =~= position + (text + rest));
    lemma_position_round_trip(block.position, text + rest);
    assert(b.skip(position.len() as int) =~= text + rest);
    lemma_text_round_trip(block.kind, rest);
}

/// The bytes of some blocks begin with the bytes of the first block.
proof fn lemma_blocks_bytes_front(block: BlockModel, rest: Seq<BlockModel>)
    ensures
        blocks_bytes(seq![block] + rest) == block_bytes(block) + blocks_bytes(rest),
    decreases rest.len(),
{
    let all = seq![block] + rest;
    if rest.len() == 0 {
        assert(all.drop_last() =~= Seq::<BlockModel>::empty());
        assert(blocks_bytes(all.drop_last()) =~= Seq::<u8>::empty());
        assert(blocks_bytes(all) =~= block_bytes(block) + blocks_bytes(rest));
    } else {
        lemma_blocks_bytes_front(block, rest.drop_last());
        assert(all.drop_last() =~= seq![block] + rest.drop_last());
        assert(all.last() == rest.last());
        assert(blocks_bytes(all) =~= block_bytes(block) + blocks_bytes(rest));
    }
}

/// The bytes of some blocks are read back as those blocks.
proof fn lemma_blocks_round_trip(blocks: Seq<BlockModel>, rest: Seq<u8>)
    requires
        forall|i: int|
            0 <= i < blocks.len() ==> encode_utf8((#[trigger] blocks[i]).kind).len() <= u64::MAX,
    ensures
        parse_blocks(blocks_bytes(blocks) + rest, blocks.len()) == Some(blocks),
    decreases blocks.len(),
{
    if blocks.len() == 0 {
        assert(blocks =~= Seq::<BlockModel>::empty());
    } else {
        let first = blocks[0];
        let others = blocks.drop_first();
        assert(blocks =~= seq![first] + others);
        lemma_blocks_bytes_front(first, others);
        let b = blocks_bytes(blocks) + rest;
        assert(b =~= block_bytes(first) + (blocks_bytes(others) + rest));
        lemma_block_round_trip(first, blocks_bytes(others) + rest);
        assert(b.skip(block_bytes(first).len() as int) =~= blocks_bytes(others) + rest);
        assert forall|i: int| 0 <= i < others.len() implies encode_utf8(
            (#[trigger] others[i]).kind,
        ).len() <= u64::MAX by {
            assert(others[i] == blocks[i + 1]);
        }
        lemma_blocks_round_trip(others, rest);
    }
}

/// A snapshot that is read back gives the blocks that were written, in
/// their order, whatever bytes follow it.
pub proof fn lemma_snapshot_round_trip(blocks: Seq<BlockModel>, rest: Seq<u8>)
    requires
        storable(blocks),
    ensures
        parse_snapshot(snapshot_bytes(blocks) + rest) == Some(blocks),
{
    let count = varint(blocks.len() as int);
    let b = snapshot_bytes(blocks) + rest;
    assert(b =~= count + (blocks_bytes(blocks) + rest));
    lemma_varint_round_trip(blocks.len() as int, blocks_bytes(blocks) + rest, 253);
    assert(b.skip(count.len() as int) =~= blocks_bytes(blocks) + rest);
    lemma_blocks_round_trip(blocks, rest);
}

/// Encodes `value` with bincode's `encode_to_vec` under its standard
/// configuration. The bytes are the variable-length form that bincode
/// documents for unsigned integers. The call succeeds: the encoder of an
/// integer does nothing but write, and writing into a `Vec` never fails.
#[verifier::external_body]
fn encode_u64(value: u64) -> (out: Result<Vec<u8>, bincode::error::EncodeError>)
    ensures
        out is Ok,
        out matches Ok(bytes) ==> bytes@ == varint(value as int),
{
    bincode::encode_to_vec(value, bincode::config::standard())
}

/// Encodes `value` with bincode's `encode_to_vec` under its standard
/// configuration. The bytes are the variable-length form of the unsigned
/// number that stands for `value`. The call succeeds, as for an unsigned
/// number.
#[verifier::external_body]
fn encode_i32(value: i32) -> (out: Result<Vec<u8>, bincode::error::EncodeError>)
    ensures
        out is Ok,
        out matches Ok(bytes) ==> bytes@ == varint(zigzag(value as int)),
{
    bincode::encode_to_vec(value, bincode::config::standard())
}

/// Decodes a `u64` from the front of `src` with bincode's
/// `decode_from_slice` under its standard configuration. The call gives the
/// number and the count of bytes read exactly where `src` starts with a
/// variable-length number of at most 64 bits, and fails otherwise.
#[verifier::external_body]
fn decode_u64(src: &[u8]) -> (out: Result<(u64, usize), bincode::error::DecodeError>)
    ensures
        match out {
            Ok((value, used)) => parse_varint(src@, 253) == Some((value as int, used as int)),
            Err(_) => parse_varint(src@, 253) is None,
        },
{
    bincode::decode_from_slice(src, bincode::config::standard())
}

/// Decodes an `i32` from the front of `src` with bincode's
/// `decode_from_slice` under its standard configuration. The call gives the
/// number and the count of bytes read exactly where `src` starts with a
/// variable-length number of at most 32 bits, and fails otherwise.
#[verifier::external_body]
fn decode_i32(src: &[u8]) -> (out: Result<(i32, usize), bincode::error::DecodeError>)
    ensures
        match out {
            Ok((value, used)) => parse_i32(src@) == Some((value as int, used as int)),
            Err(_) => parse_i32(src@) is None,
        },
{
    bincode::decode_from_slice(src, bincode::config::standard())
}

/// Turns bytes into text with `String::from_utf8`, which succeeds exactly
/// on valid UTF-8 and then gives the text that the bytes encode.
#[verifier::external_body]
fn text_from_utf8(bytes: Vec<u8>) -> (out: Result<String, std::string::FromUtf8Error>)
    ensures
        match out {
            Ok(text) => valid_utf8(bytes@) && text@ == decode_utf8(bytes@),
            Err(_) => !valid_utf8(bytes@),
        },
{
    String::from_utf8(bytes)
}

/// Appends the variable-length form of `value`.
fn append_u64(out: &mut Vec<u8>, value: u64)
    ensures
        final(out)@ == old(out)@ + varint(value as int),
{
    match encode_u64(value) {
        Ok(mut bytes) => {
            out.append(&mut bytes);
        },
        Err(_) => {
            assert(false);
        },
    }
}

/// Appends the variable-length form of the signed `value`.
fn append_i32(out: &mut Vec<u8>, value: i32)
    ensures
        final(out)@ == old(out)@ + varint(zigzag(value as int)),
{
    match encode_i32(value) {
        Ok(mut bytes) => {
            out.append(&mut bytes);
        },
        Err(_) => {
            assert(false);
        },
    }
}

/// Appends the bytes of `block`.
fn append_block(out: &mut Vec<u8>, block: &Block)
    ensures
        final(out)@ == old(out)@ + block_bytes(block@),
        encode_utf8(block@.kind).len() <= usize::MAX,
{
    let position = block.position();
    append_i32(out, position.x);
    append_i32(out, position.y);
    append_i32(out, position.z);
    let text: &[u8] = block.block_type().as_bytes();
    append_u64(out, text.len() as u64);
    let ghost before = out@;
    out.extend_from_slice(text);
    assert(out@ =~= before + text@);
    assert(out@ =~= old(out)@ + (position_bytes(block@.position) + text_bytes(block@.kind)));
}

/// Reads a signed number at `pos`; gives it and the position behind it.
fn read_i32(bytes: &[u8], pos: usize) -> (out: Option<(i32, usize)>)
    requires
        pos <= bytes@.len(),
    ensures
        match out {
            Some((value, next)) => {
                &&& pos <= next <= bytes@.len()
                &&& parse_i32(bytes@.skip(pos as int)) == Some((value as int, next - pos))
            },
            None => parse_i32(bytes@.skip(pos as int)) is None,
        },
{
    let rest = slice_subrange(bytes, pos, bytes.len());
    assert(rest@ =~= bytes@.skip(pos as int));
    match decode_i32(rest) {
        Ok((value, used)) => Some((value, pos + used)),
        Err(_) => None,
    }
}

/// Reads an unsigned number at `pos`; gives it and the position behind it.
fn read_u64(bytes: &[u8], pos: usize) -> (out: Option<(u64, usize)>)
    requires
        pos <= bytes@.len(),
    ensures
        match out {
            Some((value, next)) => {
                &&& pos <= next <= bytes@.len()
                &&& parse_varint(bytes@.skip(pos as int), 253) == Some((value as int, next - pos))
            },
            None => parse_varint(bytes@.skip(pos as int), 253) is None,
        },
{
    let rest = slice_subrange(bytes, pos, bytes.len());
    assert(rest@ =~= bytes@.skip(pos as int));
    match decode_u64(rest) {
        Ok((value, used)) => Some((value, pos + used)),
        Err(_) => None,
    }
}

/// Reads a position at `pos`; gives it and the position behind it.
fn read_position(bytes: &[u8], pos: usize) -> (out: Option<(Point3D, usize)>)
    requires
        pos <= bytes@.len(),
    ensures
        match out {
            Some((position, next)) => {
                &&& pos <= next <= bytes@.len()
                &&& parse_position(bytes@.skip(pos as int)) == Some((position, next - pos))
            },
            None => parse_position(bytes@.skip(pos as int)) is None,
        },
{
    let ghost b = bytes@.skip(pos as int);
    let (x, after_x) = match read_i32(bytes, pos) {
        Some(read) => read,
        None => {
            return None;
        },
    };
    assert(bytes@.skip(after_x as int) =~= b.skip(after_x - pos));
    let (y, after_y) = match read_i32(bytes, after_x) {
        Some(read) => read,
        None => {
            return None;
        },
    };
    assert(bytes@.skip(after_y as int) =~= b.skip(after_y - pos));
    let (z, after_z) = match read_i32(bytes, after_y) {
        Some(read) => read,
        None => {
            return None;
        },
    };
    Some((Point3D { x, y, z }, after_z))
}

/// Reads a text at `pos`; gives it and the position behind it.
fn read_text(bytes: &[u8], pos: usize) -> (out: Option<(String, usize)>)
    requires
        pos <= bytes@.len(),
    ensures
        match out {
            Some((text, next)) => {
                &&& pos <= next <= bytes@.len()
                &&& parse_text(bytes@.skip(pos as int)) == Some((text@, next - pos))
            },
            None => parse_text(bytes@.skip(pos as int)) is None,
        },
{
    let ghost b = bytes@.skip(pos as int);
    let (len, at) = match read_u64(bytes, pos) {
        Some(read) => read,
        None => {
            return None;
        },
    };
    if len > (bytes.len() - at) as u64 {
        return None;
    }
    let end: usize = at + len as usize;
    let raw = slice_to_vec(slice_subrange(bytes, at, end));
    assert(raw@ =~= b.subrange(at - pos, at - pos + len));
    match text_from_utf8(raw) {
        Ok(text) => Some((text, end)),
        Err(_) => None,
    }
}

/// Reads a block at `pos`; gives it and the position behind it.
fn read_block(bytes: &[u8], pos: usize) -> (out: Option<(Block, usize)>)
    requires
        pos <= bytes@.len(),
    ensures
        match out {
            Some((block, next)) => {
                &&& pos <= next <= bytes@.len()
                &&& parse_block(bytes@.skip(pos as int)) == Some((block@, next - pos))
            },
            None => parse_block(bytes@.skip(pos as int)) is None,
        },
{
    let (position, at) = match read_position(bytes, pos) {
        Some(read) => read,
        None => {
            return None;
        },
    };
    assert(bytes@.skip(at as int) =~= bytes@.skip(pos as int).skip(at - pos));
    match read_text(bytes, at) {
        Some((text, next)) => Some((Block::new(position, text), next)),
        None => None,
    }
}

impl World {
    /// The snapshot of the world, for the caller to store. Read back by
    /// [`World::load_world`], it gives the same blocks in the same order.
    pub fn save_world(&self) -> (bytes: Vec<u8>)
        ensures
            bytes@ == snapshot_bytes(self@),
            parse_snapshot(bytes@) == Some(self@),
    {
        let blocks = self.blocks();
        let mut out: Vec<u8> = Vec::new();
        append_u64(&mut out, blocks.len() as u64);
        let mut i: usize = 0;
        assert(out@ =~= varint(self@.len() as int) + blocks_bytes(self@.take(0)));
        while i < blocks.len()
            invariant
                i <= blocks@.len(),
                blocks@.map_values(|b: Block| b@) == self@,
                out@ == varint(self@.len() as int) + blocks_bytes(self@.take(i as int)),
                forall|j: int|
                    0 <= j < i ==> encode_utf8((#[trigger] self@[j]).kind).len() <= u64::MAX,
            decreases blocks@.len() - i,
        {
            append_block(&mut out, &blocks[i]);
            proof {
                let longer = self@.take(i + 1);
                assert(longer.drop_last() =~= self@.take(i as int));
                assert(longer.last() == blocks@[i as int]@);
                assert(out@ =~= varint(self@.len() as int) + blocks_bytes(longer));
            }
            i = i + 1;
        }
        proof {
            assert(self@.take(i as int) =~= self@);
            lemma_snapshot_round_trip(self@, Seq::empty());
            assert(snapshot_bytes(self@) + Seq::<u8>::empty() =~= snapshot_bytes(self@));
        }
        out
    }

    /// Replaces the blocks of the world by what was stored: by the blocks
    /// of which `file` holds a snapshot, or by none where there is no file.
    /// Bytes that are no snapshot are an error and leave the world as it is.
    ///
    /// The blocks come as the snapshot holds them, each one and in their
    /// order, so that every world comes back as it was saved. Their
    /// positions are distinct where they are in the snapshot, as in every
    /// snapshot of a world with distinct positions.
    pub fn load_world(&mut self, file: Option<&[u8]>) -> (out: Result<(), PersistenceError>)
        ensures
            final(self).band() == old(self).band(),
            match file {
                None => out is Ok && final(self)@ == Seq::<BlockModel>::empty(),
                Some(bytes) => match parse_snapshot(bytes@) {
                    Some(blocks) => out is Ok && final(self)@ == blocks,
                    None => out == Err::<(), PersistenceError>(PersistenceError::Corrupt)
                        && final(self)@ == old(self)@,
                },
            },
    {
        let bytes: &[u8] = match file {
            Some(bytes) => bytes,
            None => {
                self.replace_blocks(Vec::new());
                assert(self@ =~= Seq::<BlockModel>::empty());
                return Ok(());
            },
        };
        assert(bytes@.skip(0) =~= bytes@);
        let (count, start) = match read_u64(bytes, 0) {
            Some(read) => read,
            None => {
                return Err(PersistenceError::Corrupt);
            },
        };
        let ghost region = bytes@.skip(start as int);
        let mut blocks: Vec<Block> = Vec::new();
        let mut pos: usize = start;
        let mut i: u64 = 0;
        while i < count
            invariant
                i <= count,
                start <= pos <= bytes@.len(),
                file == Some(bytes),
                self@ == old(self)@,
                self.band() == old(self).band(),
                parse_varint(bytes@, 253) == Some((count as int, start as int)),
                region == bytes@.skip(start as int),
                blocks@.len() == i,
                parse_blocks(region, count as nat) == match parse_blocks(
                    bytes@.skip(pos as int),
                    (count - i) as nat,
                ) {
                    Some(rest) => Some(blocks@.map_values(|b: Block| b@) + rest),
                    None => None,
                },
            decreases count - i,
        {
            let ghost done = blocks@.map_values(|b: Block| b@);
            match read_block(bytes, pos) {
                Some((block, next)) => {
                    proof {
                        assert(bytes@.skip(pos as int).skip(next - pos) =~= bytes@.skip(next as int));
                        let rest = parse_blocks(bytes@.skip(next as int), (count - i - 1) as nat);
                        if rest is Some {
                            assert(done + (seq![block@] + rest->0) =~= done.push(block@) + rest->0);
                        }
                        assert(blocks@.push(block).map_values(|b: Block| b@) =~= done.push(block@));
                    }
                    blocks.push(block);
                    pos = next;
                },
                None => {
                    assert(parse_blocks(bytes@.skip(pos as int), (count - i) as nat) is None);
                    return Err(PersistenceError::Corrupt);
                },
            }
            i = i + 1;
        }
        assert(blocks@.map_values(|b: Block| b@) + Seq::<BlockModel>::empty() =~= blocks@.map_values(
            |b: Block| b@,
        ));
        self.replace_blocks(blocks);
        Ok(())
    }
}

} // verus!
