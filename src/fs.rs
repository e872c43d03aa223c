use vstd::prelude::*;
use crate::disk::{Disk, BLOCK_SIZE, fit_block};
use crate::layout::{
    Inode, Superblock, MAGIC_NUMBER, MAX_FILE_BLOCKS, MAX_FILE_SIZE, be_u32, field,
    block_holds, entry, superblock_of, read_be_u32, set_be_u32, encode_table_block, decode_table_block,
    encode_superblock, decode_superblock,
};

verus! {

/// Pointer roles of an inode: direct slots `0..5`, the indirect slot `5`,
/// and the entries of the indirect block `6..1030`.
pub const NUM_REFS: usize = 1030;

/// Largest store that `format` lays out: its inode count must fit in a `u32`.
pub const MAX_FORMAT_BLOCKS: usize = 335544310;

/// Failures of the file system.
#[derive(Debug, Clone, Copy, PartialEq, Eq, Structural)]
pub enum FileSystemError {
    DiskWriteFailure,
    DiskReadFailure,
    MiscellaneousFailure,
    InvalidSuperblock,
    NoFreeInodes,
    InvalidInumber,
    InvalidOffset,
    FileTooLarge,
    OutOfSpace,
}

/// Blocks reserved for the inode table of a store of `n` blocks: a tenth, rounded up.
pub open spec fn inode_blocks_for(n: int) -> int {
    (n + 9) / 10
}

/// The superblock that `format` writes on a store of `n` blocks.
pub open spec fn format_superblock(n: int) -> Superblock {
    Superblock {
        magic: MAGIC_NUMBER,
        num_blocks: n as u32,
        num_inode_blocks: inode_blocks_for(n) as u32,
        num_inodes: (128 * inode_blocks_for(n)) as u32,
    }
}

/// A block of zeros.
pub open spec fn zero_block() -> Seq<u8> {
    fit_block(Seq::empty())
}

/// `blocks` is a freshly formatted image of `n` blocks: the superblock in
/// block 0 followed by zeros, and every other block zero.
pub open spec fn formatted(blocks: Seq<Seq<u8>>, n: int) -> bool {
    &&& blocks.len() == n
    &&& n > 0
    &&& blocks[0].len() == BLOCK_SIZE
    &&& superblock_of(blocks[0]) == format_superblock(n)
    &&& forall|k: int| 16 <= k < BLOCK_SIZE ==> blocks[0][k] == 0u8
    &&& forall|b: int| 1 <= b < n ==> #[trigger] blocks[b] == zero_block()
}

/// Block number held by file block `j` of `ino` (zero: none).
pub open spec fn data_ptr(blocks: Seq<Seq<u8>>, ino: Inode, j: int) -> u32 {
    if j < 5 {
        ino.direct[j]
    } else if ino.indirect == 0 {
        0
    } else {
        entry(blocks[ino.indirect as int], j - 5)
    }
}

/// Block number held in pointer role `r` of `ino` (see `NUM_REFS`).
pub open spec fn ref_of(blocks: Seq<Seq<u8>>, ino: Inode, r: int) -> u32 {
    if r < 5 {
        ino.direct[r]
    } else if r == 5 {
        ino.indirect
    } else {
        data_ptr(blocks, ino, r - 1)
    }
}

/// Byte `o` of the file of `ino`; a block that was never allocated reads as zeros.
pub open spec fn byte_at(blocks: Seq<Seq<u8>>, ino: Inode, o: int) -> u8 {
    let p = data_ptr(blocks, ino, o / 4096);
    if p == 0 {
        0u8
    } else {
        blocks[p as int][o % 4096]
    }
}

/// The bytes of the file of `ino`.
pub open spec fn content(blocks: Seq<Seq<u8>>, ino: Inode) -> Seq<u8> {
    Seq::new(ino.size as nat, |o: int| byte_at(blocks, ino, o))
}

/// Inode `i` is in use.
pub open spec fn is_valid(inodes: Seq<Inode>, i: int) -> bool {
    0 <= i < inodes.len() && inodes[i].valid != 0
}

/// Role `r` of inode `i` is a live reference.
pub open spec fn live_ref(blocks: Seq<Seq<u8>>, inodes: Seq<Inode>, i: int, r: int) -> bool {
    is_valid(inodes, i) && 0 <= r < NUM_REFS && ref_of(blocks, inodes[i], r) != 0
}

/// Block `b` is in use: metadata (below `meta_end`) or referenced by a valid inode.
pub open spec fn block_used(blocks: Seq<Seq<u8>>, inodes: Seq<Inode>, meta_end: int, b: int) -> bool {
    b < meta_end || exists|i: int, r: int|
        #[trigger] live_ref(blocks, inodes, i, r) && ref_of(blocks, inodes[i], r) == b
}

/// Going from free map `before` to `after` only takes blocks, and takes the
/// lowest-numbered free ones first.
pub open spec fn taken_lowest_first(before: Seq<bool>, after: Seq<bool>) -> bool {
    &&& after.len() == before.len()
    &&& forall|c: int| 0 <= c < before.len() && !before[c] ==> !#[trigger] after[c]
    &&& forall|c: int, b: int|
        0 <= c < b < before.len() && before[c] && before[b] && !#[trigger] after[b] ==> !#[trigger] after[c]
}

/// Block `b` is referenced by inode `k`.
pub open spec fn refers_to(blocks: Seq<Seq<u8>>, inodes: Seq<Inode>, k: int, b: int) -> bool {
    exists|q: int| #[trigger] live_ref(blocks, inodes, k, q) && ref_of(blocks, inodes[k], q) == b
}

/// The free map marks exactly the blocks that are not in use.
pub open spec fn bitmap_exact(
    blocks: Seq<Seq<u8>>,
    inodes: Seq<Inode>,
    meta_end: int,
    free: Seq<bool>,
) -> bool {
    forall|b: int| 0 <= b < free.len() ==> (!#[trigger] free[b] <==> block_used(blocks, inodes, meta_end, b))
}

/// Live references point into the data area, and no block is referenced twice.
pub open spec fn refs_disjoint(blocks: Seq<Seq<u8>>, inodes: Seq<Inode>, meta_end: int, nb: int) -> bool {
    &&& forall|i: int, r: int|
        #[trigger] live_ref(blocks, inodes, i, r) ==> meta_end <= ref_of(blocks, inodes[i], r) < nb
    &&& forall|i: int, r: int, j: int, q: int|
        #[trigger] live_ref(blocks, inodes, i, r) && #[trigger] live_ref(blocks, inodes, j, q)
            && ref_of(blocks, inodes[i], r) == ref_of(blocks, inodes[j], q) ==> i == j && r == q
}

/// The inode table blocks of `blocks` hold `inodes`.
pub open spec fn table_holds(blocks: Seq<Seq<u8>>, inodes: Seq<Inode>, nib: int) -> bool {
    &&& inodes.len() == 128 * nib
    &&& 1 + nib <= blocks.len()
    &&& forall|t: int|
        0 <= t < nib ==> block_holds(
            #[trigger] blocks[1 + t],
            inodes.subrange(128 * t, 128 * t + 128),
        )
}

/// Role `r` of inode `i` was visited by a scan that has reached role `cr` of inode `ci`.
pub open spec fn claimed(
    blocks: Seq<Seq<u8>>,
    inodes: Seq<Inode>,
    ci: int,
    cr: int,
    i: int,
    r: int,
) -> bool {
    live_ref(blocks, inodes, i, r) && (i < ci || (i == ci && r < cr))
}

/// What the mount scan has established once it reaches role `cr` of inode `ci`.
pub open spec fn scan_inv(
    blocks: Seq<Seq<u8>>,
    inodes: Seq<Inode>,
    free: Seq<bool>,
    meta_end: int,
    ci: int,
    cr: int,
) -> bool {
    &&& forall|b: int| 0 <= b < meta_end ==> !#[trigger] free[b]
    &&& forall|i: int, r: int|
        #[trigger] claimed(blocks, inodes, ci, cr, i, r) ==> meta_end <= ref_of(blocks, inodes[i], r)
            < free.len() && !free[ref_of(blocks, inodes[i], r) as int]
    &&& forall|i: int, r: int, j: int, q: int|
        #[trigger] claimed(blocks, inodes, ci, cr, i, r) && #[trigger] claimed(
            blocks,
            inodes,
            ci,
            cr,
            j,
            q,
        ) && ref_of(blocks, inodes[i], r) == ref_of(blocks, inodes[j], q) ==> i == j && r == q
    &&& forall|b: int|
        0 <= b < free.len() && !#[trigger] free[b] ==> b < meta_end || exists|i: int, r: int|
            #[trigger] claimed(blocks, inodes, ci, cr, i, r) && ref_of(blocks, inodes[i], r) == b
}

/// The scan invariant depends only on which roles were visited.
proof fn lemma_scan_same(
    blocks: Seq<Seq<u8>>,
    inodes: Seq<Inode>,
    free: Seq<bool>,
    meta_end: int,
    ci: int,
    cr: int,
    ci2: int,
    cr2: int,
)
    requires
        scan_inv(blocks, inodes, free, meta_end, ci, cr),
        forall|i: int, r: int|
            claimed(blocks, inodes, ci, cr, i, r) == claimed(blocks, inodes, ci2, cr2, i, r),
    ensures
        scan_inv(blocks, inodes, free, meta_end, ci2, cr2),
{
    assert forall|b: int|
        0 <= b < free.len() && !#[trigger] free[b] implies b < meta_end || exists|i: int, r: int|
        #[trigger] claimed(blocks, inodes, ci2, cr2, i, r) && ref_of(blocks, inodes[i], r) == b by {
        if b >= meta_end {
            let (i, r) = choose|i: int, r: int|
                #[trigger] claimed(blocks, inodes, ci, cr, i, r) && ref_of(blocks, inodes[i], r) == b;
            assert(claimed(blocks, inodes, ci2, cr2, i, r));
        }
    }
}

/// Visiting one more role keeps the scan invariant, given that a live
/// reference was checked free and then marked used.
proof fn lemma_scan_step(
    blocks: Seq<Seq<u8>>,
    inodes: Seq<Inode>,
    free: Seq<bool>,
    free2: Seq<bool>,
    meta_end: int,
    ci: int,
    cr: int,
)
    requires
        scan_inv(blocks, inodes, free, meta_end, ci, cr),
        0 <= cr < NUM_REFS,
        live_ref(blocks, inodes, ci, cr) ==> ({
            let b = ref_of(blocks, inodes[ci], cr) as int;
            meta_end <= b < free.len() && free[b] && free2 == free.update(b, false)
        }),
        !live_ref(blocks, inodes, ci, cr) ==> free2 == free,
    ensures
        scan_inv(blocks, inodes, free2, meta_end, ci, cr + 1),
{
    if !live_ref(blocks, inodes, ci, cr) {
        lemma_scan_same(blocks, inodes, free, meta_end, ci, cr, ci, cr + 1);
    } else {
        let nb = ref_of(blocks, inodes[ci], cr) as int;
        assert forall|i: int, r: int|
            #[trigger] claimed(blocks, inodes, ci, cr + 1, i, r) implies meta_end <= ref_of(
            blocks,
            inodes[i],
            r,
        ) < free2.len() && !free2[ref_of(blocks, inodes[i], r) as int] by {
            if i != ci || r != cr {
                assert(claimed(blocks, inodes, ci, cr, i, r));
            }
        }
        assert forall|i: int, r: int, j: int, q: int|
            #[trigger] claimed(blocks, inodes, ci, cr + 1, i, r) && #[trigger] claimed(
                blocks,
                inodes,
                ci,
                cr + 1,
                j,
                q,
            ) && ref_of(blocks, inodes[i], r) == ref_of(blocks, inodes[j], q) implies i == j && r
            == q by {
            if i != ci || r != cr {
                assert(claimed(blocks, inodes, ci, cr, i, r));
            }
            if j != ci || q != cr {
                assert(claimed(blocks, inodes, ci, cr, j, q));
            }
        }
        assert forall|b: int|
            0 <= b < free2.len() && !#[trigger] free2[b] implies b < meta_end || exists|
            i: int,
            r: int,
        | #[trigger] claimed(blocks, inodes, ci, cr + 1, i, r) && ref_of(blocks, inodes[i], r)
            == b by {
            if b == nb {
                assert(claimed(blocks, inodes, ci, cr + 1, ci, cr));
            } else if b >= meta_end {
                assert(!free[b]);
                let (i, r) = choose|i: int, r: int|
                    #[trigger] claimed(blocks, inodes, ci, cr, i, r) && ref_of(blocks, inodes[i], r)
                        == b;
                assert(claimed(blocks, inodes, ci, cr + 1, i, r));
            }
        }
    }
}

/// Marks block `b` used when it lies in `[meta_end, len)` and is free.
fn claim_block(bitmap: &mut Vec<bool>, b: u32, meta_end: usize) -> (ok: bool)
    ensures
        ok <==> meta_end <= b < old(bitmap)@.len() && old(bitmap)@[b as int],
        ok ==> final(bitmap)@ == old(bitmap)@.update(b as int, false),
        !ok ==> final(bitmap)@ == old(bitmap)@,
{
    let bu = b as usize;
    if bu < meta_end || bu >= bitmap.len() || !bitmap[bu] {
        return false;
    }
    bitmap.set(bu, false);
    true
}

/// The free-map invariants carry over to a state with the same live references.
proof fn lemma_transfer(
    b1: Seq<Seq<u8>>,
    i1: Seq<Inode>,
    b2: Seq<Seq<u8>>,
    i2: Seq<Inode>,
    meta_end: int,
    nb: int,
    free: Seq<bool>,
)
    requires
        refs_disjoint(b1, i1, meta_end, nb),
        bitmap_exact(b1, i1, meta_end, free),
        forall|i: int, r: int|
            #[trigger] live_ref(b2, i2, i, r) == #[trigger] live_ref(b1, i1, i, r),
        forall|i: int, r: int|
            #[trigger] live_ref(b1, i1, i, r) ==> ref_of(b2, i2[i], r) == ref_of(b1, i1[i], r),
    ensures
        refs_disjoint(b2, i2, meta_end, nb),
        bitmap_exact(b2, i2, meta_end, free),
{
    assert forall|i: int, r: int| #[trigger] live_ref(b2, i2, i, r) implies meta_end <= ref_of(
        b2,
        i2[i],
        r,
    ) < nb by {
        assert(live_ref(b1, i1, i, r));
    }
    assert forall|i: int, r: int, j: int, q: int|
        #[trigger] live_ref(b2, i2, i, r) && #[trigger] live_ref(b2, i2, j, q) && ref_of(
            b2,
            i2[i],
            r,
        ) == ref_of(b2, i2[j], q) implies i == j && r == q by {
        assert(live_ref(b1, i1, i, r));
        assert(live_ref(b1, i1, j, q));
    }
    assert forall|b: int| 0 <= b < free.len() implies (!#[trigger] free[b] <==> block_used(
        b2,
        i2,
        meta_end,
        b,
    )) by {
        if block_used(b2, i2, meta_end, b) && b >= meta_end {
            let (i, r) = choose|i: int, r: int|
                #[trigger] live_ref(b2, i2, i, r) && ref_of(b2, i2[i], r) == b;
            assert(live_ref(b1, i1, i, r));
        }
        if block_used(b1, i1, meta_end, b) && b >= meta_end {
            let (i, r) = choose|i: int, r: int|
                #[trigger] live_ref(b1, i1, i, r) && ref_of(b1, i1[i], r) == b;
            assert(live_ref(b2, i2, i, r));
        }
    }
}

/// `ino` has no blocks and size zero, and its valid flag is `valid`.
pub open spec fn blank_inode(ino: Inode, valid: u32) -> bool {
    &&& ino.valid == valid
    &&& ino.size == 0
    &&& ino.indirect == 0
    &&& forall|p: int| 0 <= p < 5 ==> ino.direct[p] == 0
}

/// Pointer role of file block `j`.
pub open spec fn role_of_block(j: int) -> int {
    if j < 5 {
        j
    } else {
        j + 1
    }
}

/// A block of zeros holds only zero entries.
proof fn lemma_zero_entry(blk: Seq<u8>, q: int)
    requires
        blk == zero_block(),
        0 <= q < 1024,
    ensures
        entry(blk, q) == 0,
{
    let a = blk[4 * q];
    let b = blk[4 * q + 1];
    let c = blk[4 * q + 2];
    let d = blk[4 * q + 3];
    assert(a == 0 && b == 0 && c == 0 && d == 0);
    assert(((a as u32) << 24u32) | ((b as u32) << 16u32) | ((c as u32) << 8u32) | (d as u32) == 0)
        by (bit_vector)
        requires
            a == 0 && b == 0 && c == 0 && d == 0,
    ;
}

/// A new live reference to a free block keeps the free-map invariants, with
/// that block marked used.
proof fn lemma_attach(
    b1: Seq<Seq<u8>>,
    i1: Seq<Inode>,
    b2: Seq<Seq<u8>>,
    i2: Seq<Inode>,
    meta_end: int,
    nb: int,
    free: Seq<bool>,
    k: int,
    r: int,
    b: int,
)
    requires
        refs_disjoint(b1, i1, meta_end, nb),
        bitmap_exact(b1, i1, meta_end, free),
        free.len() == nb,
        meta_end <= b < nb,
        free[b],
        !live_ref(b1, i1, k, r),
        live_ref(b2, i2, k, r),
        ref_of(b2, i2[k], r) == b,
        forall|i: int, q: int|
            #[trigger] live_ref(b2, i2, i, q) == (live_ref(b1, i1, i, q) || (i == k && q == r)),
        forall|i: int, q: int|
            #[trigger] live_ref(b1, i1, i, q) ==> ref_of(b2, i2[i], q) == ref_of(b1, i1[i], q),
    ensures
        refs_disjoint(b2, i2, meta_end, nb),
        bitmap_exact(b2, i2, meta_end, free.update(b, false)),
{
    let free2 = free.update(b, false);
    assert forall|i: int, q: int| #[trigger] live_ref(b2, i2, i, q) implies meta_end <= ref_of(
        b2,
        i2[i],
        q,
    ) < nb by {
        if i != k || q != r {
            assert(live_ref(b1, i1, i, q));
        }
    }
    assert forall|i: int, q: int, j: int, q2: int|
        #[trigger] live_ref(b2, i2, i, q) && #[trigger] live_ref(b2, i2, j, q2) && ref_of(
            b2,
            i2[i],
            q,
        ) == ref_of(b2, i2[j], q2) implies i == j && q == q2 by {
        if i != k || q != r {
            assert(live_ref(b1, i1, i, q));
            assert(block_used(b1, i1, meta_end, ref_of(b1, i1[i], q) as int));
        }
        if j != k || q2 != r {
            assert(live_ref(b1, i1, j, q2));
            assert(block_used(b1, i1, meta_end, ref_of(b1, i1[j], q2) as int));
        }
    }
    assert forall|c: int| 0 <= c < free2.len() implies (!#[trigger] free2[c] <==> block_used(
        b2,
        i2,
        meta_end,
        c,
    )) by {
        if c == b {
            assert(live_ref(b2, i2, k, r));
        } else {
            if block_used(b1, i1, meta_end, c) && c >= meta_end {
                let (i, q) = choose|i: int, q: int|
                    #[trigger] live_ref(b1, i1, i, q) && ref_of(b1, i1[i], q) == c;
                assert(live_ref(b2, i2, i, q));
            }
            if block_used(b2, i2, meta_end, c) && c >= meta_end {
                let (i, q) = choose|i: int, q: int|
                    #[trigger] live_ref(b2, i2, i, q) && ref_of(b2, i2[i], q) == c;
                assert(live_ref(b1, i1, i, q));
            }
        }
    }
}

/// Byte `o` of a file under write: the written bytes over `[start, pos)`,
/// zeros in a gap before `offset`, and the earlier bytes elsewhere.
pub open spec fn write_expect(
    b0: Seq<Seq<u8>>,
    ino0: Inode,
    data: Seq<u8>,
    offset: int,
    start: int,
    pos: int,
    o: int,
) -> u8 {
    if start <= o < pos {
        if o >= offset {
            data[o - offset]
        } else {
            0u8
        }
    } else {
        byte_at(b0, ino0, o)
    }
}

/// The file `old` after writing `data` at `offset`: a gap before `offset`
/// reads as zeros, and the file grows to cover the written bytes.
pub open spec fn written(old: Seq<u8>, data: Seq<u8>, offset: int) -> Seq<u8> {
    let end = offset + data.len();
    let len = if old.len() < end {
        end
    } else {
        old.len() as int
    };
    Seq::new(
        len as nat,
        |o: int|
            if offset <= o < end {
                data[o - offset]
            } else if o < old.len() {
                old[o]
            } else {
                0u8
            },
    )
}

/// The inodes in use are no larger than the largest file.
pub open spec fn sizes_ok(inodes: Seq<Inode>) -> bool {
    forall|i: int| is_valid(inodes, i) ==> #[trigger] inodes[i].size <= MAX_FILE_SIZE
}

/// `blocks` holds a consistent file system: a superblock that fits the
/// store, and an inode table whose sizes are in range and whose references
/// point into the data area, each block at most once.
pub open spec fn mountable(blocks: Seq<Seq<u8>>) -> bool {
    let sb = superblock_of(blocks[0]);
    let nib = sb.num_inode_blocks as int;
    &&& blocks.len() > 0
    &&& blocks[0].len() >= 16
    &&& sb.magic == MAGIC_NUMBER
    &&& sb.num_blocks == blocks.len()
    &&& nib < blocks.len()
    &&& sb.num_inodes == 128 * nib
    &&& forall|inodes: Seq<Inode>|
        #[trigger] table_holds(blocks, inodes, nib) ==> sizes_ok(inodes) && refs_disjoint(
            blocks,
            inodes,
            1 + nib,
            blocks.len() as int,
        )
}

/// An inode record is determined by its eight fields.
proof fn lemma_fields_determine(a: Inode, b: Inode)
    requires
        forall|f: int| 0 <= f < 8 ==> field(a, f) == field(b, f),
    ensures
        a == b,
{
    assert(field(a, 0) == field(b, 0));
    assert(field(a, 1) == field(b, 1));
    assert(field(a, 7) == field(b, 7));
    assert forall|p: int| 0 <= p < 5 implies a.direct[p] == b.direct[p] by {
        assert(field(a, p + 2) == field(b, p + 2));
    }
    assert(a.direct =~= b.direct);
}

/// The inode table blocks determine the table.
proof fn lemma_table_unique(blocks: Seq<Seq<u8>>, a: Seq<Inode>, b: Seq<Inode>, nib: int)
    requires
        table_holds(blocks, a, nib),
        table_holds(blocks, b, nib),
    ensures
        a == b,
{
    assert forall|i: int| 0 <= i < a.len() implies a[i] == b[i] by {
        let t = i / 128;
        let s = i % 128;
        assert(0 <= t < nib && 0 <= s < 128 && i == 128 * t + s) by (nonlinear_arith)
            requires
                0 <= i < 128 * nib,
                t == i / 128,
                s == i % 128,
        ;
        let sa = a.subrange(128 * t, 128 * t + 128);
        let sb = b.subrange(128 * t, 128 * t + 128);
        assert(block_holds(blocks[1 + t], sa));
        assert(block_holds(blocks[1 + t], sb));
        assert(sa[s] == a[i]);
        assert(sb[s] == b[i]);
        assert forall|f: int| 0 <= f < 8 implies field(a[i], f) == field(b[i], f) by {
            assert(be_u32(blocks[1 + t], 32 * s + 4 * f) == field(sa[s], f));
            assert(be_u32(blocks[1 + t], 32 * s + 4 * f) == field(sb[s], f));
        }
        lemma_fields_determine(a[i], b[i]);
    }
    assert(a =~= b);
}

/// An inode file system over a block store `D`.
pub struct SimpleFileSystem<D: Disk> {
    disk: D,
    sb: Superblock,
    inodes: Vec<Inode>,
    bitmap: Vec<bool>,
}

impl<D: Disk> SimpleFileSystem<D> {
    /// The image on the store.
    pub closed spec fn image(&self) -> Seq<Seq<u8>> {
        self.disk.blocks()
    }

    /// The superblock in force.
    pub closed spec fn super_view(&self) -> Superblock {
        self.sb
    }

    /// The inode table, indexed by inumber.
    pub closed spec fn table(&self) -> Seq<Inode> {
        self.inodes@
    }

    /// The free-block map: `true` for a free block.
    pub closed spec fn free_map(&self) -> Seq<bool> {
        self.bitmap@
    }

    /// The store never fails an in-range read or write.
    pub closed spec fn disk_reliable(&self) -> bool {
        self.disk.reliable()
    }

    /// One past the last metadata block.
    pub open spec fn meta_end(&self) -> int {
        1 + self.super_view().num_inode_blocks
    }

    /// The mounted state is consistent: the image holds the superblock and the
    /// inode table, references are disjoint, and the free map is exact.
    pub open spec fn wf(&self) -> bool {
        let blocks = self.image();
        let inodes = self.table();
        let nb = self.super_view().num_blocks as int;
        &&& self.super_view().magic == MAGIC_NUMBER
        &&& blocks.len() == nb
        &&& self.free_map().len() == nb
        &&& self.super_view().num_inodes == 128 * self.super_view().num_inode_blocks
        &&& blocks[0].len() >= 16
        &&& superblock_of(blocks[0]) == self.super_view()
        &&& table_holds(blocks, inodes, self.super_view().num_inode_blocks as int)
        &&& forall|i: int| is_valid(inodes, i) ==> #[trigger] inodes[i].size <= MAX_FILE_SIZE
        &&& refs_disjoint(blocks, inodes, self.meta_end(), nb)
        &&& bitmap_exact(blocks, inodes, self.meta_end(), self.free_map())
    }

    /// Lays out an empty file system on `disk`: zero-fills every block, then
    /// writes the superblock to block 0.
    pub fn format(disk: &mut D) -> (r: Result<(), FileSystemError>)
        ensures
            final(disk).blocks().len() == old(disk).blocks().len(),
            r == Err::<(), FileSystemError>(FileSystemError::MiscellaneousFailure) <==> old(disk).blocks().len() > MAX_FORMAT_BLOCKS,
            r is Err ==> r == Err::<(), FileSystemError>(FileSystemError::DiskWriteFailure)
                || r == Err::<(), FileSystemError>(FileSystemError::MiscellaneousFailure),
            old(disk).blocks().len() == 0 ==> r is Err,
            r is Ok ==> formatted(final(disk).blocks(), old(disk).blocks().len() as int),
            old(disk).reliable() ==> final(disk).reliable(),
            old(disk).reliable() && 0 < old(disk).blocks().len() <= MAX_FORMAT_BLOCKS ==> r is Ok,
    {
        let n = disk.size();
        if n > MAX_FORMAT_BLOCKS {
            return Err(FileSystemError::MiscellaneousFailure);
        }
        let mut b: usize = 0;
        while b < n
            invariant
                b <= n,
                n == disk.blocks().len(),
                n == old(disk).blocks().len(),
                n <= MAX_FORMAT_BLOCKS,
                old(disk).reliable() ==> disk.reliable(),
                forall|k: int| 0 <= k < b ==> #[trigger] disk.blocks()[k] == zero_block(),
            decreases n - b,
        {
            let z: Vec<u8> = vec![0u8; BLOCK_SIZE];
            match disk.write(b, z) {
                Ok(()) => {},
                Err(_) => {
                    return Err(FileSystemError::DiskWriteFailure);
                },
            }
            proof {
                assert(fit_block(z@) =~= zero_block());
            }
            b = b + 1;
        }
        let nib: u32 = ((n + 9) / 10) as u32;
        let sb = Superblock {
            magic: MAGIC_NUMBER,
            num_blocks: n as u32,
            num_inode_blocks: nib,
            num_inodes: 128 * nib,
        };
        let bytes = encode_superblock(&sb);
        let ghost enc = bytes@;
        match disk.write(0, bytes) {
            Ok(()) => {},
            Err(_) => {
                return Err(FileSystemError::DiskWriteFailure);
            },
        }
        proof {
            let blk0 = disk.blocks()[0];
            assert(blk0.subrange(0, 16) =~= enc);
            assert(superblock_of(blk0) == superblock_of(enc));
            assert(sb == format_superblock(n as int));
        }
        Ok(())
    }


    /// Mounts a formatted store: checks the superblock, loads the inode table,
    /// and rebuilds the free map from the references of the valid inodes.
    pub fn mount(disk: D) -> (r: Result<Self, FileSystemError>)
        ensures
            r is Ok ==> ({
                let fs = r->Ok_0;
                &&& fs.wf()
                &&& fs.image() == disk.blocks()
                &&& fs.super_view() == superblock_of(disk.blocks()[0])
                &&& table_holds(disk.blocks(), fs.table(), fs.super_view().num_inode_blocks as int)
                &&& bitmap_exact(disk.blocks(), fs.table(), fs.meta_end(), fs.free_map())
                &&& refs_disjoint(disk.blocks(), fs.table(), fs.meta_end(), fs.free_map().len() as int)
            }),
            r is Ok ==> mountable(disk.blocks()),
            r is Ok ==> (disk.reliable() ==> r->Ok_0.disk_reliable()),
            disk.reliable() && mountable(disk.blocks()) ==> r is Ok,
            disk.reliable() && disk.blocks().len() > 0 && disk.blocks()[0].len() >= 16
                && superblock_of(disk.blocks()[0]).magic != MAGIC_NUMBER ==> r == Err::<
                Self,
                FileSystemError,
            >(FileSystemError::InvalidSuperblock),
            r == Err::<Self, FileSystemError>(FileSystemError::MiscellaneousFailure) ==> !mountable(
                disk.blocks(),
            ),
            disk.blocks().len() > 0 && disk.blocks()[0].len() >= 16 && superblock_of(disk.blocks()[0]).magic != MAGIC_NUMBER
                ==> r == Err::<Self, FileSystemError>(FileSystemError::InvalidSuperblock) || r
                == Err::<Self, FileSystemError>(FileSystemError::DiskReadFailure),
            r == Err::<Self, FileSystemError>(FileSystemError::InvalidSuperblock) ==> disk.blocks().len()
                > 0 && disk.blocks()[0].len() == BLOCK_SIZE && superblock_of(disk.blocks()[0]).magic
                != MAGIC_NUMBER,
            r is Err ==> r == Err::<Self, FileSystemError>(FileSystemError::InvalidSuperblock) || r
                == Err::<Self, FileSystemError>(FileSystemError::DiskReadFailure) || r == Err::<
                Self,
                FileSystemError,
            >(FileSystemError::MiscellaneousFailure),
    {
        let mut disk = disk;
        let ghost blocks = disk.blocks();
        let ghost rel = disk.reliable();
        let blk0 = match disk.read(0) {
            Ok(b) => b,
            Err(_) => {
                return Err(FileSystemError::DiskReadFailure);
            },
        };
        let sb = decode_superblock(&blk0);
        if sb.magic != MAGIC_NUMBER {
            return Err(FileSystemError::InvalidSuperblock);
        }
        let n = disk.size();
        let nib = sb.num_inode_blocks as usize;
        if sb.num_blocks as usize != n || nib >= n || sb.num_inodes as u64 != 128 * (nib as u64) {
            assert(blk0@ == blocks[0]);
            return Err(FileSystemError::MiscellaneousFailure);
        }
        let meta_end = nib + 1;
        assert(blk0@ == blocks[0] && blocks[0].len() >= 16 && superblock_of(blocks[0]).magic == MAGIC_NUMBER);
        let mut inodes: Vec<Inode> = Vec::new();
        let mut t: usize = 0;
        #[verifier::loop_isolation(false)]
        while t < nib
            invariant
                t <= nib,
                nib < n,
                n == blocks.len(),
                disk.blocks() == blocks,
                rel ==> disk.reliable(),
                inodes@.len() == 128 * t,
                forall|u: int|
                    0 <= u < t ==> block_holds(
                        #[trigger] blocks[1 + u],
                        inodes@.subrange(128 * u, 128 * u + 128),
                    ),
            decreases nib - t,
        {
            let blk = match disk.read(t + 1) {
                Ok(b) => b,
                Err(_) => {
                    return Err(FileSystemError::DiskReadFailure);
                },
            };
            let ghost before = inodes@;
            decode_table_block(&blk, &mut inodes);
            proof {
                assert forall|u: int|
                    0 <= u < t + 1 implies block_holds(
                    #[trigger] blocks[1 + u],
                    inodes@.subrange(128 * u, 128 * u + 128),
                ) by {
                    if u < t {
                        assert(inodes@.subrange(128 * u, 128 * u + 128) =~= before.subrange(
                            128 * u,
                            128 * u + 128,
                        ));
                    }
                }
            }
            t = t + 1;
        }
        let mut bitmap: Vec<bool> = vec![true; n];
        let mut b: usize = 0;
        while b < meta_end
            invariant
                b <= meta_end <= n,
                bitmap@.len() == n,
                forall|k: int| 0 <= k < b ==> !#[trigger] bitmap@[k],
                forall|k: int| b <= k < n ==> #[trigger] bitmap@[k],
            decreases meta_end - b,
        {
            bitmap.set(b, false);
            b = b + 1;
        }
        let ghost inos = inodes@;
        let num_inodes = inodes.len();
        proof {
            assert forall|k: int|
                0 <= k < n && !#[trigger] bitmap@[k] implies k < meta_end || exists|i: int, r: int|
                #[trigger] claimed(blocks, inos, 0, 0, i, r) && ref_of(blocks, inos[i], r) == k by {}
        }
        let mut i: usize = 0;
        #[verifier::loop_isolation(false)]
        while i < num_inodes
            invariant
                i <= num_inodes == inos.len(),
                inodes@ == inos,
                disk.blocks() == blocks,
                rel ==> disk.reliable(),
                0 < blocks.len(),
                blocks[0].len() >= 16,
                superblock_of(blocks[0]).magic == MAGIC_NUMBER,
                n == blocks.len(),
                bitmap@.len() == n,
                meta_end <= n,
                forall|k: int| 0 <= k < i && is_valid(inos, k) ==> #[trigger] inos[k].size <= MAX_FILE_SIZE,
                scan_inv(blocks, inos, bitmap@, meta_end as int, i as int, 0),
            decreases num_inodes - i,
        {
            let ino = inodes[i];
            if ino.valid != 0 && ino.size as usize > MAX_FILE_SIZE {
                assert(!mountable(blocks)) by {
                    if mountable(blocks) {
                        assert(table_holds(blocks, inos, nib as int));
                        assert(is_valid(inos, i as int));
                    }
                }
                return Err(FileSystemError::MiscellaneousFailure);
            }
            let limit: usize = if ino.valid == 0 {
                0
            } else if ino.indirect == 0 {
                6
            } else {
                NUM_REFS
            };
            let mut ind: Vec<u8> = Vec::new();
            let mut r: usize = 0;
            #[verifier::loop_isolation(false)]
            while r < limit
                invariant
                    r <= limit <= NUM_REFS,
                    i < num_inodes == inos.len(),
                    inodes@ == inos,
                    0 < blocks.len(),
                    blocks[0].len() >= 16,
                    superblock_of(blocks[0]).magic == MAGIC_NUMBER,
                    ino == inos[i as int],
                    limit == (if ino.valid == 0 { 0 } else if ino.indirect == 0 { 6 } else { NUM_REFS as int }),
                    disk.blocks() == blocks,
                    rel ==> disk.reliable(),
                    n == blocks.len(),
                    bitmap@.len() == n,
                    meta_end <= n,
                    r > 5 && ino.indirect != 0 ==> ind@ == blocks[ino.indirect as int] && ind@.len() == BLOCK_SIZE,
                    scan_inv(blocks, inos, bitmap@, meta_end as int, i as int, r as int),
                decreases limit - r,
            {
                if r == 5 && ino.indirect != 0 {
                    ind = match disk.read(ino.indirect as usize) {
                        Ok(blk) => blk,
                        Err(_) => {
                            assert(!(rel && mountable(blocks))) by {
                                if rel && mountable(blocks) {
                                    assert(table_holds(blocks, inos, nib as int));
                                    assert(live_ref(blocks, inos, i as int, 5));
                                }
                            }
                            return Err(FileSystemError::DiskReadFailure);
                        },
                    };
                }
                let target: u32 = if r < 5 {
                    ino.direct[r]
                } else if r == 5 {
                    ino.indirect
                } else {
                    read_be_u32(&ind, 4 * (r - 6))
                };
                assert(target == ref_of(blocks, inos[i as int], r as int));
                let ghost before = bitmap@;
                if target != 0 {
                    if !claim_block(&mut bitmap, target, meta_end) {
                        assert(!mountable(blocks)) by {
                            if mountable(blocks) {
                                assert(table_holds(blocks, inos, nib as int));
                                assert(live_ref(blocks, inos, i as int, r as int));
                                let tb = target as int;
                                assert(!before[tb]);
                                let (i2, r2) = choose|i2: int, r2: int|
                                    #[trigger] claimed(blocks, inos, i as int, r as int, i2, r2) && ref_of(blocks, inos[i2], r2) == tb;
                                assert(live_ref(blocks, inos, i2, r2));
                            }
                        }
                        return Err(FileSystemError::MiscellaneousFailure);
                    }
                }
                proof {
                    lemma_scan_step(blocks, inos, before, bitmap@, meta_end as int, i as int, r as int);
                }
                r = r + 1;
            }
            proof {
                assert forall|k: int, q: int|
                    claimed(blocks, inos, i as int, r as int, k, q) == claimed(
                        blocks,
                        inos,
                        i + 1,
                        0,
                        k,
                        q,
                    ) by {}
                lemma_scan_same(blocks, inos, bitmap@, meta_end as int, i as int, r as int, i + 1, 0);
            }
            i = i + 1;
        }
        let fs = SimpleFileSystem { disk, sb, inodes, bitmap };
        proof {
            assert forall|k: int, q: int|
                #[trigger] live_ref(blocks, inos, k, q) == claimed(
                    blocks,
                    inos,
                    num_inodes as int,
                    0,
                    k,
                    q,
                ) by {}
            assert(blk0@.len() == BLOCK_SIZE);
            assert forall|other: Seq<Inode>| #[trigger] table_holds(blocks, other, nib as int) implies sizes_ok(other) && refs_disjoint(
                blocks,
                other,
                1 + nib,
                blocks.len() as int,
            ) by {
                lemma_table_unique(blocks, other, inos, nib as int);
            }
        }
        Ok(fs)
    }

    /// Writes inode `k` as `ino`, together with the rest of its table block.
    /// On failure nothing changes.
    fn store_inode(&mut self, k: usize, ino: Inode) -> (r: Result<(), FileSystemError>)
        requires
            k < old(self).inodes@.len(),
            table_holds(
                old(self).disk.blocks(),
                old(self).inodes@,
                old(self).sb.num_inode_blocks as int,
            ),
        ensures
            final(self).sb == old(self).sb,
            final(self).bitmap == old(self).bitmap,
            old(self).disk.reliable() ==> final(self).disk.reliable() && r is Ok,
            r is Err ==> r == Err::<(), FileSystemError>(FileSystemError::DiskWriteFailure),
            r is Err ==> final(self).inodes@ == old(self).inodes@ && final(self).disk.blocks() == old(self).disk.blocks(),
            r is Ok ==> final(self).inodes@ == old(self).inodes@.update(k as int, ino),
            r is Ok ==> final(self).disk.blocks().len() == old(self).disk.blocks().len(),
            r is Ok ==> forall|b: int|
                0 <= b < old(self).disk.blocks().len() && b != 1 + k / 128 ==> #[trigger] final(self).disk.blocks()[b] == old(self).disk.blocks()[b],
            table_holds(
                final(self).disk.blocks(),
                final(self).inodes@,
                final(self).sb.num_inode_blocks as int,
            ),
    {
        let ghost nib = self.sb.num_inode_blocks as int;
        let ghost old_blocks = self.disk.blocks();
        let prev = self.inodes[k];
        self.inodes.set(k, ino);
        let t: usize = k / 128;
        let start: usize = t * 128;
        assert(start <= k < start + 128 && t < nib) by (nonlinear_arith)
            requires
                t == k / 128,
                start == t * 128,
                k < 128 * nib,
        ;
        let blk = encode_table_block(&self.inodes, start);
        let ghost enc = blk@;
        match self.disk.write(t + 1, blk) {
            Ok(()) => {},
            Err(_) => {
                self.inodes.set(k, prev);
                assert(self.inodes@ =~= old(self).inodes@);
                return Err(FileSystemError::DiskWriteFailure);
            },
        }
        proof {
            let blocks = self.disk.blocks();
            let inodes = self.inodes@;
            assert(fit_block(enc) =~= enc);
            assert forall|u: int|
                0 <= u < nib implies block_holds(
                #[trigger] blocks[1 + u],
                inodes.subrange(128 * u, 128 * u + 128),
            ) by {
                if u != t {
                    assert(blocks[1 + u] == old_blocks[1 + u]);
                    assert(k < 128 * u || 128 * u + 128 <= k) by (nonlinear_arith)
                        requires
                            u != t,
                            start == t * 128,
                            start <= k < start + 128,
                    ;
                    assert(inodes.subrange(128 * u, 128 * u + 128) =~= old(self).inodes@.subrange(
                        128 * u,
                        128 * u + 128,
                    ));
                }
            }
        }
        Ok(())
    }

    /// Takes the first free inode slot, in ascending inumber order, and
    /// returns its inumber. The slot is written to the store before it counts
    /// as taken.
    pub fn create(&mut self) -> (r: Result<usize, FileSystemError>)
        requires
            old(self).wf(),
        ensures
            final(self).wf(),
            final(self).super_view() == old(self).super_view(),
            final(self).free_map() == old(self).free_map(),
            old(self).disk_reliable() ==> final(self).disk_reliable(),
            old(self).disk_reliable() && (exists|j: int|
                0 <= j < old(self).table().len() && !is_valid(old(self).table(), j)) ==> r is Ok,
            r is Ok ==> final(self).image().len() == old(self).image().len() && forall|b: int|
                0 <= b < old(self).image().len() && b != 1 + r->Ok_0 / 128 ==> #[trigger] final(
                    self).image()[b] == old(self).image()[b],
            r is Ok ==> ({
                let k = r->Ok_0 as int;
                &&& 0 <= k < old(self).table().len()
                &&& old(self).table()[k].valid == 0
                &&& forall|j: int| 0 <= j < k ==> is_valid(old(self).table(), j)
                &&& blank_inode(final(self).table()[k], 1)
                &&& final(self).table() == old(self).table().update(k, final(self).table()[k])
            }),
            r is Ok ==> forall|i: int|
                #![trigger old(self).table()[i]]
                is_valid(old(self).table(), i) ==> content(final(self).image(), final(self).table()[i])
                    == content(old(self).image(), old(self).table()[i]),
            r == Err::<usize, FileSystemError>(FileSystemError::NoFreeInodes) <==> forall|j: int|
                0 <= j < old(self).table().len() ==> is_valid(old(self).table(), j),
            r is Err ==> r == Err::<usize, FileSystemError>(FileSystemError::NoFreeInodes) || r
                == Err::<usize, FileSystemError>(FileSystemError::DiskWriteFailure),
            r is Err ==> final(self).image() == old(self).image() && final(self).table() == old(self).table(),
    {
        let n = self.inodes.len();
        let mut k: usize = 0;
        while k < n && self.inodes[k].valid != 0
            invariant
                k <= n == self.inodes@.len(),
                forall|j: int| 0 <= j < k ==> is_valid(self.inodes@, j),
            decreases n - k,
        {
            k = k + 1;
        }
        if k == n {
            return Err(FileSystemError::NoFreeInodes);
        }
        let ghost b1 = self.disk.blocks();
        let ghost i1 = self.inodes@;
        let ino = Inode { valid: 1, size: 0, direct: [0u32; 5], indirect: 0 };
        match self.store_inode(k, ino) {
            Ok(()) => {},
            Err(e) => {
                assert(!is_valid(i1, k as int));
                return Err(e);
            },
        }
        proof {
            let b2 = self.disk.blocks();
            let i2 = self.inodes@;
            let me = self.meta_end();
            assert(i2 =~= i1.update(k as int, i2[k as int]));
            assert(1 + k / 128 < me) by (nonlinear_arith)
                requires
                    k < 128 * self.sb.num_inode_blocks,
                    me == 1 + self.sb.num_inode_blocks,
            ;
            assert forall|i: int, r: int| #[trigger]
                live_ref(b1, i1, i, r) implies ref_of(b2, i2[i], r) == ref_of(b1, i1[i], r) && live_ref(b2, i2, i, r) by {
                assert(i != k);
                assert(live_ref(b1, i1, i, 5) ==> b2[i1[i].indirect as int] == b1[i1[i].indirect as int]);
            }
            assert forall|i: int, r: int| #[trigger]
                live_ref(b2, i2, i, r) implies live_ref(b1, i1, i, r) by {
                if i != k {
                    if i1[i].indirect != 0 {
                        assert(live_ref(b1, i1, i, 5));
                    }
                } else {
                    assert(i2[i].direct@ =~= seq![0u32; 5]);
                }
            }
            lemma_transfer(b1, i1, b2, i2, me, self.sb.num_blocks as int, self.bitmap@);
            assert forall|i: int| #![trigger i1[i]] is_valid(i1, i) implies content(b2, i2[i]) == content(b1, i1[i]) by {
                assert(i != k);
                assert forall|o: int| 0 <= o < i1[i].size implies byte_at(b2, i2[i], o) == byte_at(b1, i1[i], o) by {
                    if i1[i].indirect != 0 {
                        assert(live_ref(b1, i1, i, 5));
                    }
                    let p = data_ptr(b1, i1[i], o / 4096);
                    if p != 0 && 0 <= o / 4096 < 1029 {
                        if o / 4096 < 5 {
                            assert(live_ref(b1, i1, i, o / 4096));
                        } else {
                            assert(live_ref(b1, i1, i, o / 4096 + 1));
                        }
                    }
                }
                assert(content(b2, i2[i]) =~= content(b1, i1[i]));
            }
            assert(!is_valid(i1, k as int));
        }
        Ok(k)
    }

    /// The size of file `inumber`.
    pub fn stat(&self, inumber: usize) -> (r: Result<usize, FileSystemError>)
        requires
            self.wf(),
        ensures
            r is Ok <==> is_valid(self.table(), inumber as int),
            r is Ok ==> r->Ok_0 == self.table()[inumber as int].size,
            r is Err ==> r == Err::<usize, FileSystemError>(FileSystemError::InvalidInumber),
    {
        if inumber >= self.inodes.len() || self.inodes[inumber].valid == 0 {
            return Err(FileSystemError::InvalidInumber);
        }
        Ok(self.inodes[inumber].size as usize)
    }

    /// Frees inode `inumber`: its slot is cleared on the store, then every
    /// block it referenced (data blocks and its indirect block) is marked free.
    /// A free or out-of-range inumber is refused with `InvalidInumber`.
    pub fn remove(&mut self, inumber: usize) -> (r: Result<bool, FileSystemError>)
        requires
            old(self).wf(),
        ensures
            final(self).wf(),
            final(self).super_view() == old(self).super_view(),
            r == Err::<bool, FileSystemError>(FileSystemError::InvalidInumber) <==> !is_valid(
                old(self).table(),
                inumber as int,
            ),
            r is Ok ==> r->Ok_0,
            old(self).disk_reliable() ==> final(self).disk_reliable(),
            old(self).disk_reliable() && is_valid(old(self).table(), inumber as int) ==> r is Ok,
            r is Ok ==> final(self).image().len() == old(self).image().len() && forall|b: int|
                0 <= b < old(self).image().len() && b != 1 + inumber / 128 ==> #[trigger] final(
                    self).image()[b] == old(self).image()[b],
            r is Ok ==> blank_inode(final(self).table()[inumber as int], 0) && final(self).table()
                == old(self).table().update(inumber as int, final(self).table()[inumber as int]),
            r is Ok ==> forall|b: int|
                0 <= b < old(self).free_map().len() ==> #[trigger] final(self).free_map()[b] == (old(
                    self,
                ).free_map()[b] || exists|q: int|
                    #[trigger] live_ref(old(self).image(), old(self).table(), inumber as int, q)
                        && ref_of(old(self).image(), old(self).table()[inumber as int], q) == b),
            r is Ok ==> forall|i: int|
                #![trigger old(self).table()[i]]
                is_valid(old(self).table(), i) && i != inumber ==> content(
                    final(self).image(),
                    final(self).table()[i],
                ) == content(old(self).image(), old(self).table()[i]),
            r is Err ==> r == Err::<bool, FileSystemError>(FileSystemError::InvalidInumber) || r
                == Err::<bool, FileSystemError>(FileSystemError::DiskReadFailure) || r == Err::<
                bool,
                FileSystemError,
            >(FileSystemError::DiskWriteFailure),
            r is Err ==> final(self).image() == old(self).image() && final(self).table() == old(
                self).table() && final(self).free_map() == old(self).free_map(),
    {
        if inumber >= self.inodes.len() || self.inodes[inumber].valid == 0 {
            return Err(FileSystemError::InvalidInumber);
        }
        let k = inumber;
        let ino = self.inodes[k];
        let ghost b1 = self.disk.blocks();
        let ghost i1 = self.inodes@;
        let ghost me = self.meta_end();
        let ghost nb = self.sb.num_blocks as int;
        proof {
            if ino.indirect != 0 {
                assert(live_ref(b1, i1, k as int, 5));
            }
        }
        let ind: Vec<u8> = if ino.indirect != 0 {
            match self.disk.read(ino.indirect as usize) {
                Ok(blk) => blk,
                Err(_) => {
                    return Err(FileSystemError::DiskReadFailure);
                },
            }
        } else {
            Vec::new()
        };
        let blank = Inode { valid: 0, size: 0, direct: [0u32; 5], indirect: 0 };
        match self.store_inode(k, blank) {
            Ok(()) => {},
            Err(e) => {
                return Err(e);
            },
        }
        let ghost b2 = self.disk.blocks();
        let ghost i2 = self.inodes@;
        let ghost free1 = self.bitmap@;
        proof {
            assert(1 + k / 128 < me) by (nonlinear_arith)
                requires
                    k < 128 * self.sb.num_inode_blocks,
                    me == 1 + self.sb.num_inode_blocks,
            ;
        }
        let limit: usize = if ino.indirect == 0 {
            5
        } else {
            NUM_REFS
        };
        let mut r: usize = 0;
        while r < limit
            invariant
                r <= limit <= NUM_REFS,
                limit == (if ino.indirect == 0 { 5 } else { NUM_REFS as int }),
                ino == i1[k as int],
                ino.valid != 0,
                self.sb == old(self).sb,
                self.disk.blocks() == b2,
                old(self).disk.reliable() ==> self.disk.reliable(),
                self.inodes@ == i2,
                k < i1.len(),
                ino.indirect != 0 ==> ind@ == b1[ino.indirect as int] && ind@.len() == BLOCK_SIZE,
                self.bitmap@.len() == free1.len() == nb,
                refs_disjoint(b1, i1, me, nb),
                forall|b: int|
                    0 <= b < nb ==> #[trigger] self.bitmap@[b] == (free1[b] || exists|q: int|
                        0 <= q < r && #[trigger] live_ref(b1, i1, k as int, q) && ref_of(b1, i1[k as int], q)
                            == b),
            decreases limit - r,
        {
            let target: u32 = if r < 5 {
                ino.direct[r]
            } else if r == 5 {
                ino.indirect
            } else {
                read_be_u32(&ind, 4 * (r - 6))
            };
            assert(target == ref_of(b1, i1[k as int], r as int));
            let ghost before = self.bitmap@;
            if target != 0 {
                assert(live_ref(b1, i1, k as int, r as int));
                self.bitmap.set(target as usize, true);
            }
            proof {
                assert forall|b: int| 0 <= b < nb implies #[trigger] self.bitmap@[b] == (free1[b] || exists|q: int|
                        0 <= q < r + 1 && #[trigger] live_ref(b1, i1, k as int, q) && ref_of(b1, i1[k as int], q)
                            == b) by {
                    if target != 0 && b == target {
                        assert(live_ref(b1, i1, k as int, r as int));
                    }
                    if exists|q: int|
                        0 <= q < r + 1 && #[trigger] live_ref(b1, i1, k as int, q) && ref_of(b1, i1[k as int], q)
                            == b {
                        let q = choose|q: int|
                            0 <= q < r + 1 && #[trigger] live_ref(b1, i1, k as int, q) && ref_of(b1, i1[k as int], q)
                                == b;
                        if q < r {
                            assert(before[b]);
                        }
                    }
                }
            }
            r = r + 1;
        }
        proof {
            let free2 = self.bitmap@;
            // live references after removal: those of the other inodes
            assert forall|i: int, q: int| #[trigger] live_ref(b2, i2, i, q) == (live_ref(b1, i1, i, q) && i != k) by {
                if i != k && is_valid(i1, i) && i1[i].indirect != 0 {
                    assert(live_ref(b1, i1, i, 5));
                }
                if i == k {
                    assert(blank_inode(i2[i], 0));
                }
            }
            assert forall|i: int, q: int| #[trigger] live_ref(b2, i2, i, q) implies ref_of(b2, i2[i], q) == ref_of(b1, i1[i], q) by {
                if i1[i].indirect != 0 {
                    assert(live_ref(b1, i1, i, 5));
                }
            }
            assert forall|b: int| 0 <= b < nb implies (!#[trigger] free2[b] <==> block_used(b2, i2, me, b)) by {
                let kref = exists|q: int| 0 <= q < limit && #[trigger] live_ref(b1, i1, k as int, q) && ref_of(b1, i1[k as int], q) == b;
                if kref {
                    let q = choose|q: int| 0 <= q < limit && #[trigger] live_ref(b1, i1, k as int, q) && ref_of(b1, i1[k as int], q) == b;
                    if block_used(b2, i2, me, b) {
                        if b >= me {
                            let (i, q2) = choose|i: int, q2: int| #[trigger] live_ref(b2, i2, i, q2) && ref_of(b2, i2[i], q2) == b;
                            assert(live_ref(b1, i1, i, q2));
                        }
                    }
                } else {
                    if block_used(b1, i1, me, b) && b >= me {
                        let (i, q2) = choose|i: int, q2: int| #[trigger] live_ref(b1, i1, i, q2) && ref_of(b1, i1[i], q2) == b;
                        if i == k {
                            assert(q2 < limit);
                        }
                        assert(live_ref(b2, i2, i, q2));
                    }
                    if block_used(b2, i2, me, b) && b >= me {
                        let (i, q2) = choose|i: int, q2: int| #[trigger] live_ref(b2, i2, i, q2) && ref_of(b2, i2[i], q2) == b;
                        assert(live_ref(b1, i1, i, q2));
                    }
                }
            }
            assert forall|i: int, q: int| #[trigger] live_ref(b2, i2, i, q) implies me <= ref_of(b2, i2[i], q) < nb by {
                assert(live_ref(b1, i1, i, q));
            }
            assert forall|i: int, q: int, j: int, q2: int|
                #[trigger] live_ref(b2, i2, i, q) && #[trigger] live_ref(b2, i2, j, q2) && ref_of(b2, i2[i], q) == ref_of(b2, i2[j], q2) implies i == j && q == q2 by {
                assert(live_ref(b1, i1, i, q));
                assert(live_ref(b1, i1, j, q2));
            }
            assert forall|b: int| 0 <= b < nb implies #[trigger] free2[b] == (free1[b] || exists|q: int|
                    #[trigger] live_ref(b1, i1, k as int, q) && ref_of(b1, i1[k as int], q) == b) by {
                if exists|q: int| #[trigger] live_ref(b1, i1, k as int, q) && ref_of(b1, i1[k as int], q) == b {
                    let q = choose|q: int| #[trigger] live_ref(b1, i1, k as int, q) && ref_of(b1, i1[k as int], q) == b;
                    assert(q < limit);
                }
            }
            assert forall|i: int| #![trigger i1[i]] is_valid(i1, i) && i != k implies content(b2, i2[i]) == content(b1, i1[i]) by {
                assert forall|o: int| 0 <= o < i1[i].size implies byte_at(b2, i2[i], o) == byte_at(b1, i1[i], o) by {
                    if i1[i].indirect != 0 {
                        assert(live_ref(b1, i1, i, 5));
                    }
                    let p = data_ptr(b1, i1[i], o / 4096);
                    if p != 0 && 0 <= o / 4096 < 1029 {
                        if o / 4096 < 5 {
                            assert(live_ref(b1, i1, i, o / 4096));
                        } else {
                            assert(live_ref(b1, i1, i, o / 4096 + 1));
                        }
                    }
                }
                assert(content(b2, i2[i]) =~= content(b1, i1[i]));
            }
        }
        Ok(true)
    }

    /// Block number of file block `j` of `ino`; `ind` holds its indirect block when it has one.
    fn block_of(ino: &Inode, ind: &Vec<u8>, j: usize, Ghost(blocks): Ghost<Seq<Seq<u8>>>) -> (p: u32)
        requires
            j < MAX_FILE_BLOCKS,
            j >= 5 && ino.indirect != 0 ==> ind@ == blocks[ino.indirect as int] && ind@.len() == BLOCK_SIZE,
        ensures
            p == data_ptr(blocks, *ino, j as int),
    {
        if j < 5 {
            ino.direct[j]
        } else if ino.indirect == 0 {
            0
        } else {
            read_be_u32(ind, 4 * (j - 5))
        }
    }

    /// Copies bytes of file `inumber` from `offset` on into `data`, as many as
    /// fit in `data` or remain before the end of the file, and returns how
    /// many were copied. Bytes of `data` past those keep their values.
    pub fn read(&mut self, inumber: usize, data: &mut Vec<u8>, offset: usize) -> (r: Result<
        usize,
        FileSystemError,
    >)
        requires
            old(self).wf(),
        ensures
            final(self).wf(),
            final(self).image() == old(self).image(),
            final(self).table() == old(self).table(),
            final(self).free_map() == old(self).free_map(),
            final(self).super_view() == old(self).super_view(),
            final(data)@.len() == old(data)@.len(),
            old(self).disk_reliable() ==> final(self).disk_reliable(),
            old(self).disk_reliable() && is_valid(old(self).table(), inumber as int) && offset
                < old(self).table()[inumber as int].size ==> r is Ok,
            r == Err::<usize, FileSystemError>(FileSystemError::InvalidInumber) <==> !is_valid(
                old(self).table(),
                inumber as int,
            ),
            r == Err::<usize, FileSystemError>(FileSystemError::InvalidOffset) <==> is_valid(
                old(self).table(),
                inumber as int,
            ) && offset >= old(self).table()[inumber as int].size,
            r is Err ==> r == Err::<usize, FileSystemError>(FileSystemError::InvalidInumber) || r
                == Err::<usize, FileSystemError>(FileSystemError::InvalidOffset) || r == Err::<
                usize,
                FileSystemError,
            >(FileSystemError::DiskReadFailure),
            r is Ok ==> ({
                let n = r->Ok_0 as int;
                let ino = old(self).table()[inumber as int];
                let file = content(old(self).image(), ino);
                &&& n == if old(data)@.len() < ino.size - offset {
                    old(data)@.len() as int
                } else {
                    ino.size - offset
                }
                &&& final(data)@.subrange(0, n) == file.subrange(offset as int, offset + n)
                &&& final(data)@.subrange(n, final(data)@.len() as int) == old(data)@.subrange(
                    n,
                    old(data)@.len() as int,
                )
            }),
    {
        if inumber >= self.inodes.len() || self.inodes[inumber].valid == 0 {
            return Err(FileSystemError::InvalidInumber);
        }
        let ino = self.inodes[inumber];
        let size = ino.size as usize;
        if offset >= size {
            return Err(FileSystemError::InvalidOffset);
        }
        let ghost blocks = self.disk.blocks();
        proof {
            assert(is_valid(self.inodes@, inumber as int));
            assert(size <= MAX_FILE_SIZE);
        }
        let want = data.len();
        let n: usize = if want < size - offset {
            want
        } else {
            size - offset
        };
        let ind: Vec<u8> = if ino.indirect != 0 {
            assert(live_ref(blocks, self.inodes@, inumber as int, 5));
            match self.disk.read(ino.indirect as usize) {
                Ok(blk) => blk,
                Err(_) => {
                    return Err(FileSystemError::DiskReadFailure);
                },
            }
        } else {
            Vec::new()
        };
        let mut cur: Vec<u8> = Vec::new();
        let mut cur_j: usize = MAX_FILE_BLOCKS;
        let mut t: usize = 0;
        while t < n
            invariant
                t <= n,
                offset + n <= size <= MAX_FILE_SIZE,
                ino.size == size,
                data@.len() == old(data)@.len(),
                n <= data@.len(),
                self.disk.blocks() == blocks,
                blocks == old(self).disk.blocks(),
                old(self).disk.reliable() ==> self.disk.reliable(),
                old(self).wf(),
                is_valid(old(self).inodes@, inumber as int),
                ino == old(self).inodes@[inumber as int],
                offset < size,
                self.inodes == old(self).inodes,
                self.bitmap == old(self).bitmap,
                self.sb == old(self).sb,
                ino.indirect != 0 ==> ind@ == blocks[ino.indirect as int] && ind@.len() == BLOCK_SIZE,
                cur_j < MAX_FILE_BLOCKS ==> cur@.len() == BLOCK_SIZE && forall|o: int|
                    0 <= o && o / 4096 == cur_j ==> cur@[o % 4096] == #[trigger] byte_at(blocks, ino, o),
                forall|u: int| 0 <= u < t ==> #[trigger] data@[u] == byte_at(blocks, ino, offset + u),
                forall|u: int| t <= u < data@.len() ==> #[trigger] data@[u] == old(data)@[u],
            decreases n - t,
        {
            let o = offset + t;
            let j = o / BLOCK_SIZE;
            assert(j < MAX_FILE_BLOCKS) by {
                assert(o < MAX_FILE_SIZE);
            }
            if j != cur_j {
                let p = Self::block_of(&ino, &ind, j, Ghost(blocks));
                if p == 0 {
                    cur = vec![0u8; BLOCK_SIZE];
                } else {
                    assert(live_ref(blocks, old(self).inodes@, inumber as int, role_of_block(j as int)));
                    cur = match self.disk.read(p as usize) {
                        Ok(blk) => blk,
                        Err(_) => {
                            return Err(FileSystemError::DiskReadFailure);
                        },
                    };
                }
                cur_j = j;
            }
            data.set(t, cur[o % BLOCK_SIZE]);
            assert(data@[t as int] == byte_at(blocks, ino, o as int));
            t = t + 1;
        }
        proof {
            let file = content(blocks, ino);
            assert(data@.subrange(0, n as int) =~= file.subrange(offset as int, offset + n));
            assert(data@.subrange(n as int, data@.len() as int) =~= old(data)@.subrange(
                n as int,
                old(data)@.len() as int,
            ));
        }
        Ok(n)
    }

    /// The lowest-numbered free block.
    fn find_free(&self) -> (r: Option<u32>)
        requires
            self.wf(),
        ensures
            r is Some ==> self.meta_end() <= r->Some_0 < self.free_map().len() && self.free_map()[r->Some_0 as int]
                && forall|c: int| 0 <= c < r->Some_0 ==> !#[trigger] self.free_map()[c],
            r is None ==> forall|c: int| 0 <= c < self.free_map().len() ==> !#[trigger] self.free_map()[c],
    {
        let n = self.bitmap.len();
        let mut c: usize = 0;
        while c < n
            invariant
                c <= n == self.bitmap@.len(),
                n <= u32::MAX,
                self.wf(),
                forall|d: int| 0 <= d < c ==> !#[trigger] self.bitmap@[d],
            decreases n - c,
        {
            if self.bitmap[c] {
                assert(c >= self.meta_end()) by {
                    let bm = self.bitmap@;
                    assert(bitmap_exact(self.disk.blocks(), self.inodes@, self.meta_end(), bm));
                    assert(0 <= c < bm.len());
                    assert(!bm[c as int] <==> block_used(self.disk.blocks(), self.inodes@, self.meta_end(), c as int));
                }
                return Some(c as u32);
            }
            c = c + 1;
        }
        None
    }

    /// Gives pointer role `r` of inode `k`, which holds no block, a newly
    /// allocated zero-filled block, and records it on the store. Every file
    /// keeps its bytes; on failure the table and the free map are unchanged.
    fn attach(&mut self, k: usize, r: usize, ind: &Vec<u8>) -> (res: Result<u32, FileSystemError>)
        requires
            old(self).wf(),
            is_valid(old(self).inodes@, k as int),
            r < NUM_REFS,
            ref_of(old(self).disk.blocks(), old(self).inodes@[k as int], r as int) == 0,
            r >= 6 ==> old(self).inodes@[k as int].indirect != 0 && ind@ == old(self).disk.blocks()[old(
                self).inodes@[k as int].indirect as int] && ind@.len() == BLOCK_SIZE,
        ensures
            final(self).wf(),
            final(self).sb == old(self).sb,
            final(self).inodes@.len() == old(self).inodes@.len(),
            forall|i: int| 0 <= i < old(self).inodes@.len() && i != k ==> #[trigger] final(self).inodes@[i] == old(self).inodes@[i],
            final(self).inodes@[k as int].valid == old(self).inodes@[k as int].valid,
            final(self).inodes@[k as int].size == old(self).inodes@[k as int].size,
            forall|i: int, o: int|
                is_valid(old(self).inodes@, i) && 0 <= o < MAX_FILE_SIZE ==> #[trigger] byte_at(final(self).disk.blocks(), final(self).inodes@[i], o)
                    == byte_at(old(self).disk.blocks(), old(self).inodes@[i], o),
            forall|q: int|
                0 <= q < NUM_REFS && q != r ==> #[trigger] ref_of(final(self).disk.blocks(), final(self).inodes@[k as int], q)
                    == ref_of(old(self).disk.blocks(), old(self).inodes@[k as int], q),
            res is Ok ==> res->Ok_0 != 0 && ref_of(final(self).disk.blocks(), final(self).inodes@[k as int], r as int)
                == res->Ok_0,
            res is Err ==> res == Err::<u32, FileSystemError>(FileSystemError::OutOfSpace) || res == Err::<u32, FileSystemError>(FileSystemError::DiskWriteFailure),
            res == Err::<u32, FileSystemError>(FileSystemError::OutOfSpace) ==> forall|c: int|
                0 <= c < final(self).bitmap@.len() ==> !#[trigger] final(self).bitmap@[c],
            res == Err::<u32, FileSystemError>(FileSystemError::OutOfSpace) ==> final(self).disk.blocks()
                == old(self).disk.blocks() && final(self).inodes == old(self).inodes && final(self).bitmap
                == old(self).bitmap,
            res is Ok ==> final(self).disk.blocks().len() == old(self).disk.blocks().len(),
            res is Ok ==> forall|x: int|
                0 <= x < old(self).disk.blocks().len() && #[trigger] final(self).disk.blocks()[x]
                    != old(self).disk.blocks()[x] ==> x == 1 + k / 128 || x == res->Ok_0 || (r >= 6
                    && x == old(self).inodes@[k as int].indirect),
            res is Ok ==> final(self).bitmap@ == old(self).bitmap@.update(res->Ok_0 as int, false),
            res is Err ==> final(self).bitmap == old(self).bitmap,
            res is Ok ==> old(self).bitmap@[res->Ok_0 as int] && forall|c: int|
                0 <= c < res->Ok_0 ==> !#[trigger] old(self).bitmap@[c],
            old(self).disk.reliable() ==> final(self).disk.reliable(),
            old(self).disk.reliable() ==> res is Ok || res == Err::<u32, FileSystemError>(
                FileSystemError::OutOfSpace,
            ),
    {
        let ghost b1 = self.disk.blocks();
        let ghost i1 = self.inodes@;
        let ghost me = self.meta_end();
        let ghost nb = self.sb.num_blocks as int;
        let ghost free1 = self.bitmap@;
        let b = match self.find_free() {
            Some(b) => b,
            None => {
                return Err(FileSystemError::OutOfSpace);
            },
        };
        proof {
            assert(!block_used(b1, i1, me, b as int));
            assert forall|i: int, q: int| #[trigger] live_ref(b1, i1, i, q) implies ref_of(b1, i1[i], q) != b by {}
            assert(1 + k / 128 < me) by (nonlinear_arith)
                requires
                    k < 128 * self.sb.num_inode_blocks,
                    me == 1 + self.sb.num_inode_blocks,
            ;
        }
        let z: Vec<u8> = vec![0u8; BLOCK_SIZE];
        let ghost zv = z@;
        match self.disk.write(b as usize, z) {
            Ok(()) => {},
            Err(_) => {
                return Err(FileSystemError::DiskWriteFailure);
            },
        }
        let ghost bz = self.disk.blocks();
        proof {
            assert(fit_block(zv) =~= zero_block());
            // the zeroed block was free: nothing read it
            assert forall|i: int, q: int| #[trigger] live_ref(b1, i1, i, q) implies ref_of(bz, i1[i], q) == ref_of(b1, i1[i], q) by {
                if is_valid(i1, i) && i1[i].indirect != 0 {
                    assert(live_ref(b1, i1, i, 5));
                }
            }
            assert forall|i: int, q: int| #[trigger] live_ref(bz, i1, i, q) == #[trigger] live_ref(b1, i1, i, q) by {
                if is_valid(i1, i) && i1[i].indirect != 0 {
                    assert(live_ref(b1, i1, i, 5));
                }
            }
            assert forall|i: int, o: int| is_valid(i1, i) && 0 <= o < MAX_FILE_SIZE implies #[trigger] byte_at(bz, i1[i], o) == byte_at(b1, i1[i], o) by {
                if i1[i].indirect != 0 {
                    assert(live_ref(b1, i1, i, 5));
                }
                let j = o / 4096;
                if 0 <= j < 1029 && data_ptr(b1, i1[i], j) != 0 {
                    assert(live_ref(b1, i1, i, role_of_block(j)));
                }
            }
            lemma_transfer(b1, i1, bz, i1, me, nb, free1);
            if i1[k as int].indirect != 0 {
                assert(live_ref(b1, i1, k as int, 5));
            }
            assert(forall|q: int| 0 <= q < NUM_REFS ==> #[trigger] ref_of(bz, i1[k as int], q) == ref_of(b1, i1[k as int], q));
        }
        if r < 6 {
            let mut ino = self.inodes[k];
            if r < 5 {
                ino.direct[r] = b;
            } else {
                ino.indirect = b;
            }
            match self.store_inode(k, ino) {
                Ok(()) => {},
                Err(e) => {
                    return Err(e);
                },
            }
        } else {
            let ib = self.inodes[k].indirect;
            assert(live_ref(b1, i1, k as int, 5));
            let mut blk = ind.clone();
            assert(blk@ == ind@);
            set_be_u32(&mut blk, 4 * (r - 6), b);
            let ghost bv = blk@;
            match self.disk.write(ib as usize, blk) {
                Ok(()) => {},
                Err(_) => {
                    return Err(FileSystemError::DiskWriteFailure);
                },
            }
            proof {
                assert(fit_block(bv) =~= bv);
            }
        }
        self.bitmap.set(b as usize, false);
        proof {
            let b2 = self.disk.blocks();
            let i2 = self.inodes@;
            let ik = i1[k as int].indirect as int;
            if ik != 0 {
                assert(live_ref(b1, i1, k as int, 5));
                assert(b2[ik] == bz[ik] || r >= 6);
            }
            if r < 6 {
                assert(b2[b as int] == bz[b as int]);
                assert(b2[b as int] == zero_block());
            }
            if r >= 6 {
                assert(live_ref(b1, i1, k as int, 5));
                assert forall|q: int| 0 <= q < 1024 && q != r - 6 implies #[trigger] entry(b2[ik], q) == entry(bz[ik], q) by {
                    assert(b2[ik][4 * q] == bz[ik][4 * q]);
                    assert(b2[ik][4 * q + 1] == bz[ik][4 * q + 1]);
                    assert(b2[ik][4 * q + 2] == bz[ik][4 * q + 2]);
                    assert(b2[ik][4 * q + 3] == bz[ik][4 * q + 3]);
                }
            }
            if r == 5 {
                assert forall|q: int| 0 <= q < 1024 implies #[trigger] entry(b2[b as int], q) == 0 by {
                    lemma_zero_entry(b2[b as int], q);
                }
            }
            assert forall|q: int|
                0 <= q < NUM_REFS && q != r implies #[trigger] ref_of(b2, i2[k as int], q)
                    == ref_of(b1, i1[k as int], q) by {
                if r == 5 && q > 5 {
                    assert(entry(b2[b as int], q - 6) == 0);
                }
            }
            assert forall|i: int, q: int| #[trigger] live_ref(b1, i1, i, q) implies ref_of(b2, i2[i], q) == ref_of(b1, i1[i], q) by {
                if i != k && is_valid(i1, i) && i1[i].indirect != 0 {
                    assert(live_ref(b1, i1, i, 5));
                    if r >= 6 {
                        assert(live_ref(b1, i1, k as int, 5));
                    }
                }
            }
            assert forall|i: int, q: int| #[trigger] live_ref(b2, i2, i, q) == (live_ref(b1, i1, i, q) || (i == k && q == r)) by {
                if i != k && is_valid(i1, i) && i1[i].indirect != 0 {
                    assert(live_ref(b1, i1, i, 5));
                    if r >= 6 {
                        assert(live_ref(b1, i1, k as int, 5));
                    }
                }
            }
            lemma_attach(b1, i1, b2, i2, me, nb, free1, k as int, r as int, b as int);
            assert forall|i: int, o: int| is_valid(i1, i) && 0 <= o < MAX_FILE_SIZE implies #[trigger] byte_at(b2, i2[i], o) == byte_at(b1, i1[i], o) by {
                if i1[i].indirect != 0 {
                    assert(live_ref(b1, i1, i, 5));
                }
                let j = o / 4096;
                if 0 <= j < 1029 && data_ptr(b1, i1[i], j) != 0 {
                    assert(live_ref(b1, i1, i, role_of_block(j)));
                }
                if i == k && 0 <= j < 1029 && data_ptr(b2, i2[i], j) != data_ptr(b1, i1[i], j) {
                    assert(role_of_block(j) == r);
                }
            }
        }
        Ok(b)
    }

    /// Writes the cached file block `j` of inode `k`, held in block `p`, back to the store.
    fn flush(&mut self, k: usize, j: usize, p: u32, cur: Vec<u8>) -> (res: Result<(), FileSystemError>)
        requires
            old(self).wf(),
            is_valid(old(self).inodes@, k as int),
            j < MAX_FILE_BLOCKS,
            p != 0,
            p == data_ptr(old(self).disk.blocks(), old(self).inodes@[k as int], j as int),
            cur@.len() == BLOCK_SIZE,
        ensures
            final(self).wf(),
            final(self).sb == old(self).sb,
            final(self).inodes == old(self).inodes,
            final(self).bitmap == old(self).bitmap,
            res is Err ==> res == Err::<(), FileSystemError>(FileSystemError::DiskWriteFailure),
            res is Err ==> final(self).disk.blocks() == old(self).disk.blocks(),
            old(self).disk.reliable() ==> final(self).disk.reliable() && res is Ok,
            res is Ok ==> final(self).disk.blocks() == old(self).disk.blocks().update(p as int, cur@),
            res is Ok ==> forall|q: int|
                #[trigger] live_ref(old(self).disk.blocks(), old(self).inodes@, k as int, q) ==> live_ref(
                    final(self).disk.blocks(),
                    old(self).inodes@,
                    k as int,
                    q,
                ) && ref_of(final(self).disk.blocks(), old(self).inodes@[k as int], q) == ref_of(
                    old(self).disk.blocks(),
                    old(self).inodes@[k as int],
                    q,
                ),
            forall|i: int, o: int|
                is_valid(old(self).inodes@, i) && i != k && 0 <= o < MAX_FILE_SIZE ==> #[trigger] byte_at(
                    final(self).disk.blocks(),
                    old(self).inodes@[i],
                    o,
                ) == byte_at(old(self).disk.blocks(), old(self).inodes@[i], o),
            res is Ok ==> forall|o: int|
                0 <= o < MAX_FILE_SIZE ==> #[trigger] byte_at(final(self).disk.blocks(), old(self).inodes@[k as int], o) == if o
                    / 4096 == j {
                    cur@[o % 4096]
                } else {
                    byte_at(old(self).disk.blocks(), old(self).inodes@[k as int], o)
                },
    {
        let ghost b1 = self.disk.blocks();
        let ghost i1 = self.inodes@;
        let ghost me = self.meta_end();
        let ghost nb = self.sb.num_blocks as int;
        let ghost cv = cur@;
        proof {
            assert(live_ref(b1, i1, k as int, role_of_block(j as int)));
        }
        match self.disk.write(p as usize, cur) {
            Ok(()) => {},
            Err(_) => {
                return Err(FileSystemError::DiskWriteFailure);
            },
        }
        proof {
            let b2 = self.disk.blocks();
            assert(fit_block(cv) =~= cv);
            assert forall|i: int, q: int| #[trigger] live_ref(b1, i1, i, q) implies ref_of(b2, i1[i], q) == ref_of(b1, i1[i], q) by {
                if is_valid(i1, i) && i1[i].indirect != 0 {
                    assert(live_ref(b1, i1, i, 5));
                }
            }
            assert forall|i: int, q: int| #[trigger] live_ref(b2, i1, i, q) == #[trigger] live_ref(b1, i1, i, q) by {
                if is_valid(i1, i) && i1[i].indirect != 0 {
                    assert(live_ref(b1, i1, i, 5));
                }
            }
            lemma_transfer(b1, i1, b2, i1, me, nb, self.bitmap@);
            assert forall|i: int, o: int| is_valid(i1, i) && 0 <= o < MAX_FILE_SIZE implies #[trigger] byte_at(b2, i1[i], o) == if i == k && o / 4096 == j {
                    cv[o % 4096]
                } else {
                    byte_at(b1, i1[i], o)
                } by {
                if i1[i].indirect != 0 {
                    assert(live_ref(b1, i1, i, 5));
                }
                let jj = o / 4096;
                if 0 <= jj < 1029 && data_ptr(b1, i1[i], jj) != 0 {
                    assert(live_ref(b1, i1, i, role_of_block(jj)));
                }
            }
        }
        Ok(())
    }

    /// After the block `p` of role `cr` of inode `k` was written, the blocks
    /// changed since `b0` are still referenced by `k`.
    proof fn lemma_flush_frame(
        bf: Seq<Seq<u8>>,
        bn: Seq<Seq<u8>>,
        inos: Seq<Inode>,
        b0: Seq<Seq<u8>>,
        k: int,
        p: int,
        cr: int,
        v: Seq<u8>,
    )
        requires
            live_ref(bf, inos, k, cr),
            ref_of(bf, inos[k], cr) == p,
            0 <= p < bf.len(),
            bn == bf.update(p, v),
            bf.len() == b0.len(),
            forall|q: int|
                #[trigger] live_ref(bf, inos, k, q) ==> live_ref(bn, inos, k, q) && ref_of(bn, inos[k], q)
                    == ref_of(bf, inos[k], q),
            forall|b: int|
                0 <= b < b0.len() && b != 1 + k / 128 && #[trigger] bf[b] != b0[b] ==> refers_to(bf, inos, k, b),
        ensures
            forall|b: int|
                0 <= b < b0.len() && b != 1 + k / 128 && #[trigger] bn[b] != b0[b] ==> refers_to(bn, inos, k, b),
    {
        assert forall|b: int|
            0 <= b < b0.len() && b != 1 + k / 128 && #[trigger] bn[b] != b0[b] implies refers_to(bn, inos, k, b) by {
            if b == p {
                assert(live_ref(bn, inos, k, cr));
            } else {
                assert(bn[b] == bf[b]);
                let q = choose|q: int| #[trigger] live_ref(bf, inos, k, q) && ref_of(bf, inos[k], q) == b;
                assert(live_ref(bn, inos, k, q));
            }
        }
    }

    /// After `attach` gave role `r` of inode `k` the block `nb`, the blocks
    /// changed since `b0` are still referenced by `k`.
    proof fn lemma_attach_frame(
        ba: Seq<Seq<u8>>,
        ia: Seq<Inode>,
        bn: Seq<Seq<u8>>,
        inn: Seq<Inode>,
        b0: Seq<Seq<u8>>,
        k: int,
        r: int,
        nb: int,
    )
        requires
            0 <= k < ia.len(),
            0 <= r < NUM_REFS,
            ia[k].valid != 0,
            inn.len() == ia.len(),
            inn[k].valid == ia[k].valid,
            ref_of(ba, ia[k], r) == 0,
            nb != 0,
            ref_of(bn, inn[k], r) == nb,
            r >= 6 ==> ia[k].indirect != 0,
            forall|q: int|
                0 <= q < NUM_REFS && q != r ==> #[trigger] ref_of(bn, inn[k], q) == ref_of(ba, ia[k], q),
            bn.len() == ba.len(),
            ba.len() == b0.len(),
            forall|x: int|
                0 <= x < ba.len() && #[trigger] bn[x] != ba[x] ==> x == 1 + k / 128 || x == nb || (r >= 6
                    && x == ia[k].indirect),
            forall|b: int|
                0 <= b < b0.len() && b != 1 + k / 128 && #[trigger] ba[b] != b0[b] ==> refers_to(ba, ia, k, b),
        ensures
            forall|b: int|
                0 <= b < b0.len() && b != 1 + k / 128 && #[trigger] bn[b] != b0[b] ==> refers_to(bn, inn, k, b),
    {
        assert forall|b: int|
            0 <= b < b0.len() && b != 1 + k / 128 && #[trigger] bn[b] != b0[b] implies refers_to(bn, inn, k, b) by {
            if b == nb {
                assert(live_ref(bn, inn, k, r));
            } else if r >= 6 && b == ia[k].indirect {
                assert(ref_of(bn, inn[k], 5) == ref_of(ba, ia[k], 5));
                assert(live_ref(bn, inn, k, 5));
            } else {
                assert(bn[b] == ba[b]);
                let q = choose|q: int| #[trigger] live_ref(ba, ia, k, q) && ref_of(ba, ia[k], q) == b;
                assert(q != r);
                assert(live_ref(bn, inn, k, q));
            }
        }
    }

    /// Writes bytes `start..end` of inode `k`: those of `data` from `offset`
    /// on, zeros before it. Blocks are allocated as needed; the size is left alone.
    #[verifier::spinoff_prover]
    #[verifier::rlimit(100)]
    fn write_blocks(&mut self, k: usize, data: &Vec<u8>, offset: usize, start: usize, end: usize) -> (res: Result<(), FileSystemError>)
        requires
            old(self).wf(),
            is_valid(old(self).inodes@, k as int),
            end == offset + data@.len(),
            end <= MAX_FILE_SIZE,
            start <= offset,
            start <= old(self).inodes@[k as int].size,
        ensures
            final(self).wf(),
            final(self).sb == old(self).sb,
            final(self).inodes@.len() == old(self).inodes@.len(),
            forall|i: int| 0 <= i < old(self).inodes@.len() && i != k ==> #[trigger] final(self).inodes@[i] == old(self).inodes@[i],
            final(self).inodes@[k as int].valid == old(self).inodes@[k as int].valid,
            final(self).inodes@[k as int].size == old(self).inodes@[k as int].size,
            forall|i: int, o: int|
                is_valid(old(self).inodes@, i) && i != k && 0 <= o < MAX_FILE_SIZE ==> #[trigger] byte_at(
                    final(self).disk.blocks(),
                    final(self).inodes@[i],
                    o,
                ) == byte_at(old(self).disk.blocks(), old(self).inodes@[i], o),
            res is Ok ==> forall|o: int|
                0 <= o < MAX_FILE_SIZE ==> #[trigger] byte_at(
                    final(self).disk.blocks(),
                    final(self).inodes@[k as int],
                    o,
                ) == write_expect(old(self).disk.blocks(), old(self).inodes@[k as int], data@, offset as int, start as int, end as int, o),
            res is Err ==> res == Err::<(), FileSystemError>(FileSystemError::OutOfSpace) || res == Err::<(), FileSystemError>(
                FileSystemError::DiskReadFailure,
            ) || res == Err::<(), FileSystemError>(FileSystemError::DiskWriteFailure),
            res == Err::<(), FileSystemError>(FileSystemError::OutOfSpace) ==> forall|c: int|
                0 <= c < final(self).bitmap@.len() ==> !#[trigger] final(self).bitmap@[c],
            old(self).disk.reliable() ==> final(self).disk.reliable(),
            old(self).disk.reliable() ==> res is Ok || res == Err::<(), FileSystemError>(
                FileSystemError::OutOfSpace,
            ),
            res is Ok && start < end && end > 5 * 4096 ==> final(self).inodes@[k as int].indirect != 0,
            taken_lowest_first(old(self).bitmap@, final(self).bitmap@),
            res is Ok ==> final(self).disk.blocks().len() == old(self).disk.blocks().len(),
            res is Ok ==> forall|b: int|
                0 <= b < old(self).disk.blocks().len() && b != 1 + k / 128 && #[trigger] final(
                    self).disk.blocks()[b] != old(self).disk.blocks()[b] ==> refers_to(
                    final(self).disk.blocks(),
                    final(self).inodes@,
                    k as int,
                    b,
                ),
    {
        let len = data.len();
        let ghost b0 = self.disk.blocks();
        let ghost i0 = self.inodes@;
        let ghost ino0 = i0[k as int];
        let ghost size0 = ino0.size;
        let mut cur: Vec<u8> = Vec::new();
        let mut cur_j: usize = MAX_FILE_BLOCKS;
        let mut cur_p: u32 = 0;
        let mut pos: usize = start;
        while pos < end
            invariant
                self.wf(),
                self.sb == old(self).sb,
                old(self).wf(),
                b0 == old(self).disk.blocks(),
                i0 == old(self).inodes@,
                ino0 == i0[k as int],
                is_valid(i0, k as int),
                size0 == ino0.size,
                len == data@.len(),
                end == offset + len,
                end <= MAX_FILE_SIZE,
                start <= pos <= end,
                start <= offset,
                start <= size0,
                self.inodes@.len() == i0.len(),
                forall|i: int| 0 <= i < i0.len() && i != k ==> #[trigger] self.inodes@[i] == i0[i],
                self.inodes@[k as int].valid == ino0.valid,
                self.inodes@[k as int].size == ino0.size,
                forall|i: int, o: int|
                    is_valid(i0, i) && i != k && 0 <= o < MAX_FILE_SIZE ==> #[trigger] byte_at(
                        self.disk.blocks(),
                        self.inodes@[i],
                        o,
                    ) == byte_at(b0, i0[i], o),
                forall|o: int|
                    0 <= o < MAX_FILE_SIZE && o / 4096 != cur_j ==> #[trigger] byte_at(
                        self.disk.blocks(),
                        self.inodes@[k as int],
                        o,
                    ) == write_expect(b0, ino0, data@, offset as int, start as int, pos as int, o),
                cur_j <= MAX_FILE_BLOCKS,
                old(self).disk.reliable() ==> self.disk.reliable(),
                pos > start && pos > 5 * 4096 ==> self.inodes@[k as int].indirect != 0,
                cur_j < MAX_FILE_BLOCKS && cur_j >= 5 ==> self.inodes@[k as int].indirect != 0,
                pos > start ==> cur_j == (pos - 1) / 4096,
                self.disk.blocks().len() == b0.len(),
                taken_lowest_first(old(self).bitmap@, self.bitmap@),
                forall|b: int|
                    0 <= b < b0.len() && b != 1 + k / 128 && #[trigger] self.disk.blocks()[b]
                        != b0[b] ==> refers_to(self.disk.blocks(), self.inodes@, k as int, b),
                cur_j < MAX_FILE_BLOCKS ==> cur@.len() == BLOCK_SIZE && cur_p != 0 && data_ptr(
                    self.disk.blocks(),
                    self.inodes@[k as int],
                    cur_j as int,
                ) == cur_p && forall|o: int|
                    0 <= o < MAX_FILE_SIZE && o / 4096 == cur_j ==> cur@[o % 4096]
                        == #[trigger] write_expect(b0, ino0, data@, offset as int, start as int, pos as int, o),
            decreases end - pos,
        {
            let j = pos / BLOCK_SIZE;
            if j != cur_j {
                if cur_j < MAX_FILE_BLOCKS {
                    let ghost cv = cur@;
                    let ghost cj = cur_j as int;
                    let ghost bf = self.disk.blocks();
                    let ghost cjr = role_of_block(cur_j as int);
                    assert(live_ref(bf, self.inodes@, k as int, cjr));
                    assert(cur_p < bf.len());
                    match self.flush(k, cur_j, cur_p, cur) {
                        Ok(()) => {},
                        Err(e) => {
                            return Err(e);
                        },
                    }
                    proof {
                        Self::lemma_flush_frame(bf, self.disk.blocks(), self.inodes@, b0, k as int, cur_p as int, cjr, cv);
                        assert forall|o: int| 0 <= o < MAX_FILE_SIZE implies #[trigger] byte_at(
                            self.disk.blocks(),
                            self.inodes@[k as int],
                            o,
                        ) == write_expect(b0, ino0, data@, offset as int, start as int, pos as int, o) by {
                            if o / 4096 == cj {
                                assert(cv[o % 4096] == write_expect(b0, ino0, data@, offset as int, start as int, pos as int, o));
                            }
                        }
                    }
                    cur = Vec::new();
                    cur_j = MAX_FILE_BLOCKS;
                }
                assert(forall|o: int| 0 <= o < MAX_FILE_SIZE ==> #[trigger] byte_at(
                    self.disk.blocks(),
                    self.inodes@[k as int],
                    o,
                ) == write_expect(b0, ino0, data@, offset as int, start as int, pos as int, o)) by {
                    assert forall|o: int| 0 <= o < MAX_FILE_SIZE implies #[trigger] byte_at(
                        self.disk.blocks(),
                        self.inodes@[k as int],
                        o,
                    ) == write_expect(b0, ino0, data@, offset as int, start as int, pos as int, o) by {
                        assert(o / 4096 < MAX_FILE_BLOCKS);
                    }
                }
                let role: usize = if j < 5 {
                    j
                } else {
                    j + 1
                };
                let mut ind: Vec<u8> = Vec::new();
                if j >= 5 {
                    if self.inodes[k].indirect == 0 {
                        let ghost ba = self.disk.blocks();
                        let ghost ia = self.inodes@;
                        let nb5 = match self.attach(k, 5, &ind) {
                            Ok(b) => b,
                            Err(e) => {
                                return Err(e);
                            },
                        };
                        proof {
                            Self::lemma_attach_frame(ba, ia, self.disk.blocks(), self.inodes@, b0, k as int, 5, nb5 as int);
                        }
                    }
                    let ib = self.inodes[k].indirect;
                    assert(live_ref(self.disk.blocks(), self.inodes@, k as int, 5));
                    ind = match self.disk.read(ib as usize) {
                        Ok(blk) => blk,
                        Err(_) => {
                            return Err(FileSystemError::DiskReadFailure);
                        },
                    };
                }
                let ghost bnow = self.disk.blocks();
                let ino = self.inodes[k];
                let mut p = Self::block_of(&ino, &ind, j, Ghost(bnow));
                if p == 0 {
                    let ghost ba = self.disk.blocks();
                    let ghost ia = self.inodes@;
                    p = match self.attach(k, role, &ind) {
                        Ok(b) => b,
                        Err(e) => {
                            return Err(e);
                        },
                    };
                    proof {
                        Self::lemma_attach_frame(ba, ia, self.disk.blocks(), self.inodes@, b0, k as int, role as int, p as int);
                    }
                }
                assert(p == data_ptr(self.disk.blocks(), self.inodes@[k as int], j as int));
                let ghost bcur = self.disk.blocks();
                assert(live_ref(bcur, self.inodes@, k as int, role_of_block(j as int)));
                cur = match self.disk.read(p as usize) {
                    Ok(blk) => blk,
                    Err(_) => {
                        return Err(FileSystemError::DiskReadFailure);
                    },
                };
                proof {
                    assert forall|o: int| 0 <= o < MAX_FILE_SIZE && o / 4096 == j implies cur@[o % 4096]
                        == #[trigger] write_expect(b0, ino0, data@, offset as int, start as int, pos as int, o) by {
                        assert(byte_at(bcur, self.inodes@[k as int], o) == write_expect(b0, ino0, data@, offset as int, start as int, pos as int, o));
                    }
                }
                cur_j = j;
                cur_p = p;
            }
            let byte: u8 = if pos >= offset {
                data[pos - offset]
            } else {
                0u8
            };
            cur.set(pos % BLOCK_SIZE, byte);
            proof {
                let p1 = pos + 1;
                assert(byte == write_expect(b0, ino0, data@, offset as int, start as int, p1 as int, pos as int));
                assert forall|o: int| 0 <= o < MAX_FILE_SIZE && o / 4096 == cur_j implies cur@[o % 4096]
                    == #[trigger] write_expect(b0, ino0, data@, offset as int, start as int, p1 as int, o) by {
                    if o != pos {
                        assert(o % 4096 != pos % 4096);
                        assert(write_expect(b0, ino0, data@, offset as int, start as int, pos as int, o) == write_expect(b0, ino0, data@, offset as int, start as int, p1 as int, o));
                    }
                }
                assert forall|o: int| 0 <= o < MAX_FILE_SIZE && o / 4096 != cur_j implies #[trigger] byte_at(
                    self.disk.blocks(),
                    self.inodes@[k as int],
                    o,
                ) == write_expect(b0, ino0, data@, offset as int, start as int, p1 as int, o) by {
                    assert(o != pos);
                    assert(write_expect(b0, ino0, data@, offset as int, start as int, pos as int, o) == write_expect(b0, ino0, data@, offset as int, start as int, p1 as int, o));
                }
            }
            pos = pos + 1;
        }
        if cur_j < MAX_FILE_BLOCKS {
            let ghost bf = self.disk.blocks();
            let ghost cjr = role_of_block(cur_j as int);
            let ghost cv = cur@;
            assert(live_ref(bf, self.inodes@, k as int, cjr));
            assert(cur_p < bf.len());
            match self.flush(k, cur_j, cur_p, cur) {
                Ok(()) => {},
                Err(e) => {
                    return Err(e);
                },
            }
            proof {
                Self::lemma_flush_frame(bf, self.disk.blocks(), self.inodes@, b0, k as int, cur_p as int, cjr, cv);
            }
        }
        Ok(())
    }

    /// Writes `data` into file `inumber` at `offset`, allocating blocks (and
    /// the indirect block) as needed, and returns the number of bytes written.
    /// A gap between the end of the file and `offset` is filled with zeros.
    /// On a failure midway the bytes already written stay, and the state stays
    /// consistent; other files are never touched.
    pub fn write(&mut self, inumber: usize, data: Vec<u8>, offset: usize) -> (r: Result<
        usize,
        FileSystemError,
    >)
        requires
            old(self).wf(),
        ensures
            final(self).wf(),
            final(self).super_view() == old(self).super_view(),
            final(self).table().len() == old(self).table().len(),
            forall|i: int|
                0 <= i < old(self).table().len() && i != inumber ==> #[trigger] final(self).table()[i]
                    == old(self).table()[i],
            forall|i: int|
                #![trigger old(self).table()[i]]
                is_valid(old(self).table(), i) && i != inumber ==> content(
                    final(self).image(),
                    final(self).table()[i],
                ) == content(old(self).image(), old(self).table()[i]),
            is_valid(old(self).table(), inumber as int) ==> is_valid(final(self).table(), inumber as int),
            r == Err::<usize, FileSystemError>(FileSystemError::InvalidInumber) <==> !is_valid(
                old(self).table(),
                inumber as int,
            ),
            r == Err::<usize, FileSystemError>(FileSystemError::FileTooLarge) <==> is_valid(
                old(self).table(),
                inumber as int,
            ) && offset + data@.len() > MAX_FILE_SIZE,
            r == Err::<usize, FileSystemError>(FileSystemError::InvalidInumber) || r == Err::<
                usize,
                FileSystemError,
            >(FileSystemError::FileTooLarge) ==> final(self).image() == old(self).image()
                && final(self).table() == old(self).table() && final(self).free_map() == old(
                self).free_map(),
            r is Err ==> r == Err::<usize, FileSystemError>(FileSystemError::InvalidInumber) || r
                == Err::<usize, FileSystemError>(FileSystemError::FileTooLarge) || r == Err::<
                usize,
                FileSystemError,
            >(FileSystemError::OutOfSpace) || r == Err::<usize, FileSystemError>(
                FileSystemError::DiskReadFailure,
            ) || r == Err::<usize, FileSystemError>(FileSystemError::DiskWriteFailure),
            r == Err::<usize, FileSystemError>(FileSystemError::OutOfSpace) ==> forall|c: int|
                0 <= c < final(self).free_map().len() ==> !#[trigger] final(self).free_map()[c],
            old(self).disk_reliable() ==> final(self).disk_reliable(),
            old(self).disk_reliable() && is_valid(old(self).table(), inumber as int) && offset
                + data@.len() <= MAX_FILE_SIZE ==> r is Ok || r == Err::<usize, FileSystemError>(
                FileSystemError::OutOfSpace,
            ),
            is_valid(old(self).table(), inumber as int) ==> old(self).table()[inumber as int].size
                <= final(self).table()[inumber as int].size && (final(self).table()[
                inumber as int].size <= old(self).table()[inumber as int].size || final(self).table()[
                inumber as int].size == offset + data@.len()),
            r is Ok ==> final(self).image().len() == old(self).image().len() && forall|b: int|
                0 <= b < old(self).image().len() && b != 1 + inumber / 128 && !refers_to(
                    final(self).image(),
                    final(self).table(),
                    inumber as int,
                    b,
                ) ==> #[trigger] final(self).image()[b] == old(self).image()[b],
            taken_lowest_first(old(self).free_map(), final(self).free_map()),
            r is Ok && data@.len() > 0 && offset + data@.len() > 5 * 4096 ==> final(self).table()[
                inumber as int].indirect != 0,
            r is Ok ==> r->Ok_0 == data@.len() && content(
                final(self).image(),
                final(self).table()[inumber as int],
            ) == written(
                content(old(self).image(), old(self).table()[inumber as int]),
                data@,
                offset as int,
            ),
    {
        if inumber >= self.inodes.len() || self.inodes[inumber].valid == 0 {
            return Err(FileSystemError::InvalidInumber);
        }
        let k = inumber;
        let len = data.len();
        if offset > MAX_FILE_SIZE || len > MAX_FILE_SIZE - offset {
            return Err(FileSystemError::FileTooLarge);
        }
        let end = offset + len;
        let ghost b0 = self.disk.blocks();
        let ghost i0 = self.inodes@;
        let ghost ino0 = i0[k as int];
        let size0 = self.inodes[k].size as usize;
        proof {
            assert(is_valid(i0, k as int));
        }
        let start = if offset < size0 {
            offset
        } else {
            size0
        };
        let res = self.write_blocks(k, &data, offset, start, end);
        let ghost b1 = self.disk.blocks();
        let ghost i1 = self.inodes@;
        proof {
            assert forall|i: int|
                #![trigger i0[i]]
                is_valid(i0, i) && i != k implies content(b1, i1[i]) == content(b0, i0[i]) by {
                assert(content(b1, i1[i]) =~= content(b0, i0[i]));
            }
        }
        match res {
            Ok(()) => {},
            Err(e) => {
                return Err(e);
            },
        }
        if end > size0 {
            let mut ino = self.inodes[k];
            ino.size = end as u32;
            match self.store_inode(k, ino) {
                Ok(()) => {},
                Err(e) => {
                    return Err(e);
                },
            }
            proof {
                let b2 = self.disk.blocks();
                let i2 = self.inodes@;
                let me = self.meta_end();
                assert(1 + k / 128 < me) by (nonlinear_arith)
                    requires
                        k < 128 * self.sb.num_inode_blocks,
                        me == 1 + self.sb.num_inode_blocks,
                ;
                assert forall|i: int, q: int| #[trigger] live_ref(b1, i1, i, q) implies ref_of(b2, i2[i], q) == ref_of(b1, i1[i], q) by {
                    if is_valid(i1, i) && i1[i].indirect != 0 {
                        assert(live_ref(b1, i1, i, 5));
                    }
                }
                assert forall|i: int, q: int| #[trigger] live_ref(b2, i2, i, q) == #[trigger] live_ref(b1, i1, i, q) by {
                    if is_valid(i1, i) && i1[i].indirect != 0 {
                        assert(live_ref(b1, i1, i, 5));
                    }
                }
                lemma_transfer(b1, i1, b2, i2, me, self.sb.num_blocks as int, self.bitmap@);
                assert forall|i: int, o: int| is_valid(i1, i) && 0 <= o < MAX_FILE_SIZE implies #[trigger] byte_at(b2, i2[i], o) == byte_at(b1, i1[i], o) by {
                    if i1[i].indirect != 0 {
                        assert(live_ref(b1, i1, i, 5));
                    }
                    let jj = o / 4096;
                    if 0 <= jj < 1029 && data_ptr(b1, i1[i], jj) != 0 {
                        assert(live_ref(b1, i1, i, role_of_block(jj)));
                    }
                }
                assert forall|i: int|
                    #![trigger i0[i]]
                    is_valid(i0, i) && i != k implies content(b2, i2[i]) == content(b0, i0[i]) by {
                    assert(content(b2, i2[i]) =~= content(b1, i1[i]));
                }
                assert forall|b: int|
                    0 <= b < b0.len() && b != 1 + k / 128 && #[trigger] b2[b] != b0[b] implies refers_to(b2, i2, k as int, b) by {
                    assert(b2[b] == b1[b]);
                    let q = choose|q: int| #[trigger] live_ref(b1, i1, k as int, q) && ref_of(b1, i1[k as int], q) == b;
                    assert(live_ref(b2, i2, k as int, q));
                }
            }
        }
        proof {
            let b2 = self.disk.blocks();
            let i2 = self.inodes@;
            assert(content(b2, i2[k as int]) =~= written(content(b0, ino0), data@, offset as int));
        }
        Ok(len)
    }

    /// The superblock in force.
    pub fn superblock(&self) -> (r: Superblock)
        ensures
            r == self.super_view(),
    {
        self.sb
    }

    /// Number of inode slots.
    pub fn inode_capacity(&self) -> (r: usize)
        ensures
            r == self.table().len(),
    {
        self.inodes.len()
    }

    /// Whether block `b` is free; `None` past the end of the store.
    pub fn block_is_free(&self, b: usize) -> (r: Option<bool>)
        ensures
            b < self.free_map().len() ==> r == Some(self.free_map()[b as int]),
            b >= self.free_map().len() ==> r is None,
    {
        if b < self.bitmap.len() {
            Some(self.bitmap[b])
        } else {
            None
        }
    }

    /// The block store under the file system.
    pub fn disk(&self) -> (r: &D)
        ensures
            r.blocks() == self.image(),
    {
        &self.disk
    }

    /// Gives the block store back; everything was written to it already.
    pub fn unmount(self) -> (r: D)
        ensures
            r.blocks() == self.image(),
    {
        self.disk
    }
}

/// The operations of an inode file system over block stores of type `D`.
pub trait FileSystem<D: Disk>: Sized {
    /// The state is consistent.
    spec fn inv(&self) -> bool;

    /// The image on the store.
    spec fn store(&self) -> Seq<Seq<u8>>;

    /// The inode table, indexed by inumber.
    spec fn inodes(&self) -> Seq<Inode>;

    /// The store never fails an in-range read or write.
    spec fn store_reliable(&self) -> bool;

    fn format(disk: &mut D) -> (r: Result<(), FileSystemError>)
        ensures
            r is Ok ==> formatted(final(disk).blocks(), old(disk).blocks().len() as int),
            old(disk).reliable() && 0 < old(disk).blocks().len() <= MAX_FORMAT_BLOCKS ==> r is Ok,
    ;

    fn mount(disk: D) -> (r: Result<Self, FileSystemError>)
        ensures
            r is Ok ==> r->Ok_0.inv() && r->Ok_0.store() == disk.blocks() && mountable(disk.blocks()),
            r is Ok ==> (disk.reliable() ==> r->Ok_0.store_reliable()),
            disk.reliable() && mountable(disk.blocks()) ==> r is Ok,
            disk.reliable() && disk.blocks().len() > 0 && disk.blocks()[0].len() >= 16
                && superblock_of(disk.blocks()[0]).magic != MAGIC_NUMBER ==> r == Err::<
                Self,
                FileSystemError,
            >(FileSystemError::InvalidSuperblock),
    ;

    fn create(&mut self) -> (r: Result<usize, FileSystemError>)
        requires
            old(self).inv(),
        ensures
            final(self).inv(),
            old(self).store_reliable() ==> final(self).store_reliable(),
            old(self).store_reliable() && (exists|j: int|
                0 <= j < old(self).inodes().len() && !is_valid(old(self).inodes(), j)) ==> r is Ok,
            r is Ok ==> ({
                let k = r->Ok_0 as int;
                &&& 0 <= k < old(self).inodes().len()
                &&& !is_valid(old(self).inodes(), k)
                &&& forall|j: int| 0 <= j < k ==> is_valid(old(self).inodes(), j)
                &&& blank_inode(final(self).inodes()[k], 1)
                &&& final(self).inodes() == old(self).inodes().update(k, final(self).inodes()[k])
            }),
            r == Err::<usize, FileSystemError>(FileSystemError::NoFreeInodes) <==> forall|j: int|
                0 <= j < old(self).inodes().len() ==> is_valid(old(self).inodes(), j),
    ;

    fn remove(&mut self, inumber: usize) -> (r: Result<bool, FileSystemError>)
        requires
            old(self).inv(),
        ensures
            final(self).inv(),
            old(self).store_reliable() ==> final(self).store_reliable(),
            r == Err::<bool, FileSystemError>(FileSystemError::InvalidInumber) <==> !is_valid(
                old(self).inodes(),
                inumber as int,
            ),
            old(self).store_reliable() && is_valid(old(self).inodes(), inumber as int) ==> r
                == Ok::<bool, FileSystemError>(true),
            r is Ok ==> blank_inode(final(self).inodes()[inumber as int], 0) && final(self).inodes()
                == old(self).inodes().update(inumber as int, final(self).inodes()[inumber as int]),
    ;

    fn stat(&self, inumber: usize) -> (r: Result<usize, FileSystemError>)
        requires
            self.inv(),
        ensures
            r is Ok <==> is_valid(self.inodes(), inumber as int),
            r is Ok ==> r->Ok_0 == self.inodes()[inumber as int].size,
            r is Err ==> r == Err::<usize, FileSystemError>(FileSystemError::InvalidInumber),
    ;

    fn read(&mut self, inumber: usize, data: &mut Vec<u8>, offset: usize) -> (r: Result<
        usize,
        FileSystemError,
    >)
        requires
            old(self).inv(),
        ensures
            final(self).inv(),
            final(self).store() == old(self).store(),
            final(self).inodes() == old(self).inodes(),
            old(self).store_reliable() ==> final(self).store_reliable(),
            r == Err::<usize, FileSystemError>(FileSystemError::InvalidInumber) <==> !is_valid(
                old(self).inodes(),
                inumber as int,
            ),
            r == Err::<usize, FileSystemError>(FileSystemError::InvalidOffset) <==> is_valid(
                old(self).inodes(),
                inumber as int,
            ) && offset >= old(self).inodes()[inumber as int].size,
            old(self).store_reliable() && is_valid(old(self).inodes(), inumber as int) && offset
                < old(self).inodes()[inumber as int].size ==> r is Ok,
            r is Ok ==> ({
                let n = r->Ok_0 as int;
                let ino = old(self).inodes()[inumber as int];
                &&& n == if old(data)@.len() < ino.size - offset {
                    old(data)@.len() as int
                } else {
                    ino.size - offset
                }
                &&& final(data)@.subrange(0, n) == content(old(self).store(), ino).subrange(
                    offset as int,
                    offset + n,
                )
            }),
    ;

    fn write(&mut self, inumber: usize, data: Vec<u8>, offset: usize) -> (r: Result<
        usize,
        FileSystemError,
    >)
        requires
            old(self).inv(),
        ensures
            final(self).inv(),
            old(self).store_reliable() ==> final(self).store_reliable(),
            r == Err::<usize, FileSystemError>(FileSystemError::InvalidInumber) <==> !is_valid(
                old(self).inodes(),
                inumber as int,
            ),
            r == Err::<usize, FileSystemError>(FileSystemError::FileTooLarge) <==> is_valid(
                old(self).inodes(),
                inumber as int,
            ) && offset + data@.len() > MAX_FILE_SIZE,
            old(self).store_reliable() && is_valid(old(self).inodes(), inumber as int) && offset
                + data@.len() <= MAX_FILE_SIZE ==> r is Ok || r == Err::<usize, FileSystemError>(
                FileSystemError::OutOfSpace,
            ),
            r is Ok ==> r->Ok_0 == data@.len() && content(
                final(self).store(),
                final(self).inodes()[inumber as int],
            ) == written(
                content(old(self).store(), old(self).inodes()[inumber as int]),
                data@,
                offset as int,
            ),
    ;
}

impl<D: Disk> FileSystem<D> for SimpleFileSystem<D> {
    open spec fn inv(&self) -> bool {
        self.wf()
    }

    open spec fn store(&self) -> Seq<Seq<u8>> {
        self.image()
    }

    open spec fn inodes(&self) -> Seq<Inode> {
        self.table()
    }

    open spec fn store_reliable(&self) -> bool {
        self.disk_reliable()
    }

    fn format(disk: &mut D) -> (r: Result<(), FileSystemError>) {
        SimpleFileSystem::<D>::format(disk)
    }

    fn mount(disk: D) -> (r: Result<Self, FileSystemError>) {
        SimpleFileSystem::<D>::mount(disk)
    }

    fn create(&mut self) -> (r: Result<usize, FileSystemError>) {
        let r = SimpleFileSystem::<D>::create(self);
        assert(old(self).inodes() == old(self).table());
        r
    }

    fn remove(&mut self, inumber: usize) -> (r: Result<bool, FileSystemError>) {
        SimpleFileSystem::<D>::remove(self, inumber)
    }

    fn stat(&self, inumber: usize) -> (r: Result<usize, FileSystemError>) {
        SimpleFileSystem::<D>::stat(self, inumber)
    }

    fn read(&mut self, inumber: usize, data: &mut Vec<u8>, offset: usize) -> (r: Result<
        usize,
        FileSystemError,
    >) {
        SimpleFileSystem::<D>::read(self, inumber, data, offset)
    }

    fn write(&mut self, inumber: usize, data: Vec<u8>, offset: usize) -> (r: Result<
        usize,
        FileSystemError,
    >) {
        SimpleFileSystem::<D>::write(self, inumber, data, offset)
    }
}

} // verus!
