use vstd::prelude::*;
use crate::disk::BLOCK_SIZE;
use crate::layout::{Inode, le_u32, superblock_of};
use crate::fs::{formatted, written, is_valid, blank_inode, zero_block};

verus! {

proof fn lemma_le_u32_bytes(a: Seq<u8>, b: Seq<u8>, at: int)
    requires
        0 <= at,
        at + 4 <= a.len(),
        at + 4 <= b.len(),
        le_u32(a, at) == le_u32(b, at),
    ensures
        a[at] == b[at],
        a[at + 1] == b[at + 1],
        a[at + 2] == b[at + 2],
        a[at + 3] == b[at + 3],
{
    let (a0, a1, a2, a3) = (a[at], a[at + 1], a[at + 2], a[at + 3]);
    let (b0, b1, b2, b3) = (b[at], b[at + 1], b[at + 2], b[at + 3]);
    assert(a0 == b0 && a1 == b1 && a2 == b2 && a3 == b3) by (bit_vector)
        requires
            ((a3 as u32) << 24u32) | ((a2 as u32) << 16u32) | ((a1 as u32) << 8u32) | (a0 as u32)
                == ((b3 as u32) << 24u32) | ((b2 as u32) << 16u32) | ((b1 as u32) << 8u32) | (
            b0 as u32),
    ;
}

/// Formatting a store twice yields the same image as formatting it once:
/// the same superblock, hence the same inode capacity, and the same zeroed
/// blocks.
pub proof fn lemma_format_idempotent(first: Seq<Seq<u8>>, second: Seq<Seq<u8>>, n: int)
    requires
        formatted(first, n),
        formatted(second, first.len() as int),
    ensures
        superblock_of(second[0]) == superblock_of(first[0]),
        superblock_of(second[0]).num_inodes == superblock_of(first[0]).num_inodes,
        second == first,
{
    let a = first[0];
    let b = second[0];
    lemma_le_u32_bytes(a, b, 0);
    lemma_le_u32_bytes(a, b, 4);
    lemma_le_u32_bytes(a, b, 8);
    lemma_le_u32_bytes(a, b, 12);
    assert forall|k: int| 0 <= k < BLOCK_SIZE implies a[k] == b[k] by {
        if k >= 16 {
            assert(a[k] == 0u8 && b[k] == 0u8);
        }
    }
    assert(a =~= b);
    assert forall|i: int| 0 <= i < n implies #[trigger] second[i] == first[i] by {
        if i >= 1 {
            assert(second[i] == zero_block());
        }
    }
    assert(second =~= first);
}

/// After `create` returns inumber `k` and `remove(k)` frees it again, `stat`
/// saw `k` valid with size zero, now sees it invalid, and `k` is once more the
/// first free slot, so the next `create` returns `k`.
pub proof fn lemma_create_remove_roundtrip(
    before: Seq<Inode>,
    created: Seq<Inode>,
    removed: Seq<Inode>,
    k: int,
)
    requires
        0 <= k < before.len(),
        before[k].valid == 0,
        forall|j: int| 0 <= j < k ==> is_valid(before, j),
        blank_inode(created[k], 1),
        created == before.update(k, created[k]),
        blank_inode(removed[k], 0),
        removed == created.update(k, removed[k]),
    ensures
        is_valid(created, k) && created[k].size == 0,
        !is_valid(removed, k),
        forall|j: int| 0 <= j < k ==> is_valid(removed, j),
        removed.len() == before.len(),
{
    assert(created.len() == before.len());
    assert(removed.len() == created.len());
    assert forall|j: int| 0 <= j < k implies is_valid(removed, j) by {
        assert(is_valid(before, j));
        assert(created[j] == before[j]);
        assert(removed[j] == created[j]);
    }
}

/// Writing `data` at offset 0 and then reading `data.len()` bytes from offset
/// 0 gives back `data`: the file is at least that long and starts with it.
pub proof fn lemma_write_read_roundtrip(before: Seq<u8>, data: Seq<u8>)
    ensures
        written(before, data, 0).len() >= data.len(),
        written(before, data, 0).subrange(0, data.len() as int) == data,
{
    assert(written(before, data, 0).subrange(0, data.len() as int) =~= data);
}

} // verus!
