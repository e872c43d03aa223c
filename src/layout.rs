use vstd::prelude::*;
use crate::disk::BLOCK_SIZE;

verus! {

/// Identifies a formatted image; stored first in the superblock.
pub const MAGIC_NUMBER: u32 = 0xf0f03410;

/// Size in bytes of one inode record.
pub const INODE_SIZE: usize = 32;

/// Inode records in one block of the inode table.
pub const INODES_PER_BLOCK: usize = 128;

/// Direct block pointers held in an inode.
pub const POINTERS_PER_INODE: usize = 5;

/// Block numbers held in an indirect block.
pub const POINTERS_PER_BLOCK: usize = 1024;

/// Data blocks a single file can reach: the direct ones and those of its indirect block.
pub const MAX_FILE_BLOCKS: usize = POINTERS_PER_INODE + POINTERS_PER_BLOCK;

/// Largest size of a file in bytes.
pub const MAX_FILE_SIZE: usize = MAX_FILE_BLOCKS * BLOCK_SIZE;

/// One inode record. `valid` is nonzero when the inode is in use; a zero
/// pointer is an unused slot.
#[derive(Debug, Clone, Copy, PartialEq, Eq)]
pub struct Inode {
    pub valid: u32,
    pub size: u32,
    pub direct: [u32; 5],
    pub indirect: u32,
}

/// The superblock, held in block 0.
#[derive(Debug, Clone, Copy, PartialEq, Eq, Structural)]
pub struct Superblock {
    pub magic: u32,
    pub num_blocks: u32,
    pub num_inode_blocks: u32,
    pub num_inodes: u32,
}

/// The big-endian `u32` held in `b[at..at + 4]`.
pub open spec fn be_u32(b: Seq<u8>, at: int) -> u32 {
    ((b[at] as u32) << 24u32) | ((b[at + 1] as u32) << 16u32) | ((b[at + 2] as u32) << 8u32) | (b[at
        + 3] as u32)
}

/// The little-endian `u32` held in `b[at..at + 4]`.
pub open spec fn le_u32(b: Seq<u8>, at: int) -> u32 {
    ((b[at + 3] as u32) << 24u32) | ((b[at + 2] as u32) << 16u32) | ((b[at + 1] as u32) << 8u32) | (b[at] as u32)
}

/// The eight 32-bit fields of an inode record, in their on-disk order.
pub open spec fn field(ino: Inode, f: int) -> u32 {
    if f == 0 {
        ino.valid
    } else if f == 1 {
        ino.size
    } else if f < 7 {
        ino.direct[f - 2]
    } else {
        ino.indirect
    }
}

/// The block `blk` of the inode table holds the records `inos`, each
/// `INODE_SIZE` bytes long.
pub open spec fn block_holds(blk: Seq<u8>, inos: Seq<Inode>) -> bool {
    &&& blk.len() == BLOCK_SIZE
    &&& inos.len() == INODES_PER_BLOCK
    &&& forall|s: int, f: int|
        0 <= s < 128 && 0 <= f < 8 ==> #[trigger] be_u32(blk, 32 * s + 4 * f) == field(
            #[trigger] inos[s],
            f,
        )
}

/// Entry `q` of an indirect block.
pub open spec fn entry(blk: Seq<u8>, q: int) -> u32 {
    be_u32(blk, 4 * q)
}

/// The superblock encoded at the start of `blk`.
pub open spec fn superblock_of(blk: Seq<u8>) -> Superblock {
    Superblock {
        magic: le_u32(blk, 0),
        num_blocks: le_u32(blk, 4),
        num_inode_blocks: le_u32(blk, 8),
        num_inodes: le_u32(blk, 12),
    }
}

/// Reads the big-endian `u32` at `at`.
pub fn read_be_u32(b: &Vec<u8>, at: usize) -> (r: u32)
    requires
        at + 4 <= b@.len(),
    ensures
        r == be_u32(b@, at as int),
{
    // the length, as a usize, bounds `at + 4`, so the index arithmetic cannot overflow
    let _n: usize = b.len();
    ((b[at] as u32) << 24u32) | ((b[at + 1] as u32) << 16u32) | ((b[at + 2] as u32) << 8u32) | (b[at
        + 3] as u32)
}

/// Reads the little-endian `u32` at `at`.
pub fn read_le_u32(b: &Vec<u8>, at: usize) -> (r: u32)
    requires
        at + 4 <= b@.len(),
    ensures
        r == le_u32(b@, at as int),
{
    // the length, as a usize, bounds `at + 4`, so the index arithmetic cannot overflow
    let _n: usize = b.len();
    ((b[at + 3] as u32) << 24u32) | ((b[at + 2] as u32) << 16u32) | ((b[at + 1] as u32) << 8u32) | (b[at] as u32)
}

proof fn lemma_be_bytes(v: u32, b0: u8, b1: u8, b2: u8, b3: u8)
    requires
        b0 == (v >> 24u32) as u8,
        b1 == ((v >> 16u32) & 0xffu32) as u8,
        b2 == ((v >> 8u32) & 0xffu32) as u8,
        b3 == (v & 0xffu32) as u8,
    ensures
        ((b0 as u32) << 24u32) | ((b1 as u32) << 16u32) | ((b2 as u32) << 8u32) | (b3 as u32) == v,
{
    assert(((b0 as u32) << 24u32) | ((b1 as u32) << 16u32) | ((b2 as u32) << 8u32) | (b3 as u32)
        == v) by (bit_vector)
        requires
            b0 == (v >> 24u32) as u8,
            b1 == ((v >> 16u32) & 0xffu32) as u8,
            b2 == ((v >> 8u32) & 0xffu32) as u8,
            b3 == (v & 0xffu32) as u8,
    ;
}

/// Appends `v` in big-endian order.
pub fn push_be_u32(out: &mut Vec<u8>, v: u32)
    ensures
        final(out)@.len() == old(out)@.len() + 4,
        final(out)@.subrange(0, old(out)@.len() as int) == old(out)@,
        be_u32(final(out)@, old(out)@.len() as int) == v,
{
    let b0 = (v >> 24u32) as u8;
    let b1 = ((v >> 16u32) & 0xffu32) as u8;
    let b2 = ((v >> 8u32) & 0xffu32) as u8;
    let b3 = (v & 0xffu32) as u8;
    proof {
        lemma_be_bytes(v, b0, b1, b2, b3);
    }
    out.push(b0);
    out.push(b1);
    out.push(b2);
    out.push(b3);
    assert(final(out)@.subrange(0, old(out)@.len() as int) =~= old(out)@);
}

/// Appends `v` in little-endian order.
pub fn push_le_u32(out: &mut Vec<u8>, v: u32)
    ensures
        final(out)@.len() == old(out)@.len() + 4,
        final(out)@.subrange(0, old(out)@.len() as int) == old(out)@,
        le_u32(final(out)@, old(out)@.len() as int) == v,
{
    let b3 = (v >> 24u32) as u8;
    let b2 = ((v >> 16u32) & 0xffu32) as u8;
    let b1 = ((v >> 8u32) & 0xffu32) as u8;
    let b0 = (v & 0xffu32) as u8;
    proof {
        lemma_be_bytes(v, b3, b2, b1, b0);
    }
    out.push(b0);
    out.push(b1);
    out.push(b2);
    out.push(b3);
    assert(final(out)@.subrange(0, old(out)@.len() as int) =~= old(out)@);
}

/// `be_u32` reads only the four bytes it names.
pub proof fn lemma_be_u32_prefix(long: Seq<u8>, short: Seq<u8>, at: int)
    requires
        0 <= at,
        at + 4 <= short.len() <= long.len(),
        long.subrange(0, short.len() as int) == short,
    ensures
        be_u32(long, at) == be_u32(short, at),
{
    assert(long[at] == short[at]);
    assert(long[at + 1] == short[at + 1]);
    assert(long[at + 2] == short[at + 2]);
    assert(long[at + 3] == short[at + 3]);
}

/// Field `f` of an inode record.
pub fn inode_field(ino: &Inode, f: usize) -> (r: u32)
    requires
        f < 8,
    ensures
        r == field(*ino, f as int),
{
    if f == 0 {
        ino.valid
    } else if f == 1 {
        ino.size
    } else if f < 7 {
        ino.direct[f - 2]
    } else {
        ino.indirect
    }
}

/// Appends the 32-byte record of `ino`.
pub fn push_inode(out: &mut Vec<u8>, ino: &Inode)
    ensures
        final(out)@.len() == old(out)@.len() + 32,
        final(out)@.subrange(0, old(out)@.len() as int) == old(out)@,
        forall|f: int| 0 <= f < 8 ==> be_u32(final(out)@, old(out)@.len() + 4 * f) == field(*ino, f),
{
    let ghost start = out@.len();
    let mut f: usize = 0;
    while f < 8
        invariant
            f <= 8,
            out@.len() == start + 4 * f,
            out@.subrange(0, start as int) == old(out)@,
            start == old(out)@.len(),
            forall|g: int| 0 <= g < f ==> be_u32(out@, start + 4 * g) == field(*ino, g),
        decreases 8 - f,
    {
        let ghost before = out@;
        push_be_u32(out, inode_field(ino, f));
        proof {
            assert forall|g: int| 0 <= g < f + 1 implies be_u32(out@, start + 4 * g) == field(
                *ino,
                g,
            ) by {
                if g < f {
                    lemma_be_u32_prefix(out@, before, start + 4 * g);
                }
            }
            assert(out@.subrange(0, start as int) =~= before.subrange(0, start as int));
        }
        f = f + 1;
    }
}

/// Encodes the 128 records `inos[start..start + 128]` as one block of the inode table.
pub fn encode_table_block(inos: &Vec<Inode>, start: usize) -> (r: Vec<u8>)
    requires
        start + INODES_PER_BLOCK <= inos@.len(),
    ensures
        block_holds(r@, inos@.subrange(start as int, start + INODES_PER_BLOCK)),
{
    let n: usize = inos.len();
    let mut r: Vec<u8> = Vec::new();
    let mut s: usize = 0;
    while s < INODES_PER_BLOCK
        invariant
            s <= INODES_PER_BLOCK,
            start + INODES_PER_BLOCK <= inos@.len(),
            n == inos@.len(),
            r@.len() == 32 * s,
            forall|t: int, f: int|
                0 <= t < s && 0 <= f < 8 ==> #[trigger] be_u32(r@, 32 * t + 4 * f) == field(
                    inos@[start + t],
                    f,
                ),
        decreases INODES_PER_BLOCK - s,
    {
        let ghost before = r@;
        push_inode(&mut r, &inos[start + s]);
        proof {
            assert forall|t: int, f: int|
                0 <= t < s + 1 && 0 <= f < 8 implies #[trigger] be_u32(r@, 32 * t + 4 * f) == field(
                inos@[start + t],
                f,
            ) by {
                if t < s {
                    assert(32 * t + 4 * f + 4 <= 32 * s) by (nonlinear_arith)
                        requires
                            t < s,
                            f < 8,
                    ;
                    lemma_be_u32_prefix(r@, before, 32 * t + 4 * f);
                }
            }
        }
        s = s + 1;
    }
    let ghost sub = inos@.subrange(start as int, start + INODES_PER_BLOCK);
    assert forall|t: int, f: int|
        0 <= t < 128 && 0 <= f < 8 implies #[trigger] be_u32(r@, 32 * t + 4 * f) == field(
        #[trigger] sub[t],
        f,
    ) by {
        assert(sub[t] == inos@[start + t]);
    }
    r
}

/// The inode record at byte `at` of `blk`.
pub fn decode_inode(blk: &Vec<u8>, at: usize) -> (r: Inode)
    requires
        at + 32 <= blk@.len(),
    ensures
        forall|f: int| 0 <= f < 8 ==> field(r, f) == be_u32(blk@, at + 4 * f),
{
    // the length, as a usize, bounds `at + 32`, so the index arithmetic cannot overflow
    let _n: usize = blk.len();
    let valid = read_be_u32(blk, at);
    let size = read_be_u32(blk, at + 4);
    let d0 = read_be_u32(blk, at + 8);
    let d1 = read_be_u32(blk, at + 12);
    let d2 = read_be_u32(blk, at + 16);
    let d3 = read_be_u32(blk, at + 20);
    let d4 = read_be_u32(blk, at + 24);
    let indirect = read_be_u32(blk, at + 28);
    Inode { valid, size, direct: [d0, d1, d2, d3, d4], indirect }
}

/// Appends the 128 records held in one block of the inode table.
pub fn decode_table_block(blk: &Vec<u8>, out: &mut Vec<Inode>)
    requires
        blk@.len() == BLOCK_SIZE,
    ensures
        final(out)@.len() == old(out)@.len() + INODES_PER_BLOCK,
        final(out)@.subrange(0, old(out)@.len() as int) == old(out)@,
        block_holds(blk@, final(out)@.subrange(old(out)@.len() as int, final(out)@.len() as int)),
{
    let ghost start = out@.len();
    let mut s: usize = 0;
    while s < INODES_PER_BLOCK
        invariant
            s <= INODES_PER_BLOCK,
            blk@.len() == BLOCK_SIZE,
            start == old(out)@.len(),
            out@.len() == start + s,
            out@.subrange(0, start as int) == old(out)@,
            forall|t: int, f: int|
                0 <= t < s && 0 <= f < 8 ==> #[trigger] be_u32(blk@, 32 * t + 4 * f) == field(
                    out@[start + t],
                    f,
                ),
        decreases INODES_PER_BLOCK - s,
    {
        assert(32 * s + 32 <= 4096) by (nonlinear_arith)
            requires
                s < 128,
        ;
        let ino = decode_inode(blk, 32 * s);
        out.push(ino);
        proof {
            assert(out@.subrange(0, start as int) =~= old(out)@);
            assert forall|t: int, f: int|
                0 <= t < s + 1 && 0 <= f < 8 implies #[trigger] be_u32(blk@, 32 * t + 4 * f)
                == field(out@[start + t], f) by {
                if t == s {
                    assert(out@[start + t] == ino);
                }
            }
        }
        s = s + 1;
    }
    let ghost sub = out@.subrange(start as int, out@.len() as int);
    assert forall|t: int, f: int|
        0 <= t < 128 && 0 <= f < 8 implies #[trigger] be_u32(blk@, 32 * t + 4 * f) == field(
        #[trigger] sub[t],
        f,
    ) by {
        assert(sub[t] == out@[start + t]);
    }
}

/// Encodes the superblock in its 16 bytes.
pub fn encode_superblock(sb: &Superblock) -> (r: Vec<u8>)
    ensures
        r@.len() == 16,
        superblock_of(r@) == *sb,
{
    let mut r: Vec<u8> = Vec::new();
    push_le_u32(&mut r, sb.magic);
    let ghost r1 = r@;
    push_le_u32(&mut r, sb.num_blocks);
    let ghost r2 = r@;
    push_le_u32(&mut r, sb.num_inode_blocks);
    let ghost r3 = r@;
    push_le_u32(&mut r, sb.num_inodes);
    assert(r@[0] == r1[0] && r@[1] == r1[1] && r@[2] == r1[2] && r@[3] == r1[3]) by {
        assert(r3.subrange(0, 8)[0] == r2[0]);
        assert(r@.subrange(0, 12)[0] == r3[0]);
    }
    assert(r@[4] == r2[4] && r@[5] == r2[5] && r@[6] == r2[6] && r@[7] == r2[7]);
    assert(r@[8] == r3[8] && r@[9] == r3[9] && r@[10] == r3[10] && r@[11] == r3[11]);
    r
}

/// Decodes the superblock at the start of `blk`.
pub fn decode_superblock(blk: &Vec<u8>) -> (r: Superblock)
    requires
        16 <= blk@.len(),
    ensures
        r == superblock_of(blk@),
{
    Superblock {
        magic: read_le_u32(blk, 0),
        num_blocks: read_le_u32(blk, 4),
        num_inode_blocks: read_le_u32(blk, 8),
        num_inodes: read_le_u32(blk, 12),
    }
}

/// Overwrites `b[at..at + 4]` with `v` in big-endian order.
pub fn set_be_u32(b: &mut Vec<u8>, at: usize, v: u32)
    requires
        at + 4 <= old(b)@.len(),
    ensures
        final(b)@.len() == old(b)@.len(),
        be_u32(final(b)@, at as int) == v,
        forall|x: int|
            0 <= x < old(b)@.len() && (x < at || at + 4 <= x) ==> #[trigger] final(b)@[x] == old(
                b)@[x],
{
    let b0 = (v >> 24u32) as u8;
    let b1 = ((v >> 16u32) & 0xffu32) as u8;
    let b2 = ((v >> 8u32) & 0xffu32) as u8;
    let b3 = (v & 0xffu32) as u8;
    proof {
        lemma_be_bytes(v, b0, b1, b2, b3);
    }
    // the length, as a usize, bounds `at + 4`, so the index arithmetic cannot overflow
    let _n: usize = b.len();
    b.set(at, b0);
    b.set(at + 1, b1);
    b.set(at + 2, b2);
    b.set(at + 3, b3);
}

} // verus!
