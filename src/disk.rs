use vstd::prelude::*;

verus! {

/// Size in bytes of one block of a block store.
pub const BLOCK_SIZE: usize = 4096;

/// Failures reported by a block store.
#[derive(Debug, Clone, Copy, PartialEq, Eq, Structural)]
pub enum DiskError {
    ImageOpenFailure,
    ImageReadFailure,
    ImageWriteFailure,
}

/// Every block of the image holds exactly `BLOCK_SIZE` bytes.
pub open spec fn blocks_sized(blocks: Seq<Seq<u8>>) -> bool {
    forall|i: int| 0 <= i < blocks.len() ==> (#[trigger] blocks[i]).len() == BLOCK_SIZE
}

/// What a write stores: the data cut to `BLOCK_SIZE` bytes, or padded with zeros up to it.
pub open spec fn fit_block(data: Seq<u8>) -> Seq<u8> {
    Seq::new(BLOCK_SIZE as nat, |i: int| if i < data.len() { data[i] } else { 0u8 })
}

/// A fixed-size array of blocks addressed by a zero-based block number.
///
/// `blocks()` is the content of the image; `is_mounted()` the state of the
/// usage guard. Reads and writes outside `[0, size())` fail; a failed write
/// leaves the image as it was. A store that is `reliable()` never fails a
/// read or write inside `[0, size())`, and stays reliable.
pub trait Disk: Sized {
    spec fn blocks(&self) -> Seq<Seq<u8>>;

    spec fn is_mounted(&self) -> bool;

    spec fn reliable(&self) -> bool;

    fn open(path: String, num_blocks: usize) -> (r: Result<Self, DiskError>)
        ensures
            r is Ok ==> r->Ok_0.blocks().len() == num_blocks && blocks_sized(r->Ok_0.blocks())
                && !r->Ok_0.is_mounted(),
    ;

    fn size(&self) -> (r: usize)
        ensures
            r == self.blocks().len(),
    ;

    fn mounted(&self) -> (r: bool)
        ensures
            r == self.is_mounted(),
    ;

    fn mount(&mut self) -> (r: Result<(), DiskError>)
        ensures
            final(self).blocks() == old(self).blocks(),
            old(self).reliable() ==> final(self).reliable(),
            r is Ok ==> final(self).is_mounted(),
    ;

    fn unmount(&mut self) -> (r: Result<(), DiskError>)
        ensures
            final(self).blocks() == old(self).blocks(),
            old(self).reliable() ==> final(self).reliable(),
            r is Ok ==> !final(self).is_mounted(),
    ;

    fn read(&mut self, block_number: usize) -> (r: Result<Vec<u8>, DiskError>)
        ensures
            final(self).blocks() == old(self).blocks(),
            final(self).is_mounted() == old(self).is_mounted(),
            old(self).reliable() ==> final(self).reliable(),
            old(self).reliable() && block_number < old(self).blocks().len() ==> r is Ok,
            block_number >= old(self).blocks().len() ==> r is Err,
            r is Ok ==> r->Ok_0@ == old(self).blocks()[block_number as int] && r->Ok_0@.len()
                == BLOCK_SIZE,
    ;

    fn write(&mut self, block_number: usize, data: Vec<u8>) -> (r: Result<(), DiskError>)
        ensures
            final(self).is_mounted() == old(self).is_mounted(),
            old(self).reliable() ==> final(self).reliable(),
            old(self).reliable() && block_number < old(self).blocks().len() ==> r is Ok,
            block_number >= old(self).blocks().len() ==> r is Err,
            r is Ok ==> final(self).blocks() == old(self).blocks().update(
                block_number as int,
                fit_block(data@),
            ),
            r is Err ==> final(self).blocks() == old(self).blocks(),
    ;
}

/// `data` cut or zero-padded to exactly one block.
pub fn fit(data: &Vec<u8>) -> (r: Vec<u8>)
    ensures
        r@ == fit_block(data@),
{
    let mut blk: Vec<u8> = Vec::new();
    let mut i: usize = 0;
    while i < BLOCK_SIZE
        invariant
            i <= BLOCK_SIZE,
            blk@ =~= fit_block(data@).subrange(0, i as int),
        decreases BLOCK_SIZE - i,
    {
        if i < data.len() {
            blk.push(data[i]);
        } else {
            blk.push(0u8);
        }
        i = i + 1;
    }
    assert(blk@ =~= fit_block(data@));
    blk
}

/// A block store held in memory, one `Vec` per block.
pub struct MemDisk {
    data: Vec<Vec<u8>>,
    num_reads: u64,
    num_writes: u64,
    num_mounts: u64,
    mounted: bool,
}

impl MemDisk {
    /// A zero-filled store of `num_blocks` blocks.
    pub fn new(num_blocks: usize) -> (r: MemDisk)
        ensures
            r.blocks() == Seq::new(num_blocks as nat, |i: int| fit_block(Seq::empty())),
            !r.is_mounted(),
            r.reliable(),
    {
        let mut data: Vec<Vec<u8>> = Vec::new();
        let mut i: usize = 0;
        while i < num_blocks
            invariant
                i <= num_blocks,
                data@.len() == i,
                forall|j: int| 0 <= j < i ==> (#[trigger] data@[j])@ == fit_block(Seq::empty()),
            decreases num_blocks - i,
        {
            let blk: Vec<u8> = vec![0u8; BLOCK_SIZE];
            assert(blk@ =~= fit_block(Seq::empty()));
            data.push(blk);
            i = i + 1;
        }
        let r = MemDisk { data, num_reads: 0, num_writes: 0, num_mounts: 0, mounted: false };
        assert(r.blocks() =~= Seq::new(num_blocks as nat, |i: int| fit_block(Seq::empty())));
        r
    }

    /// A store holding `blocks`, each fitted to `BLOCK_SIZE` bytes.
    pub fn from_blocks(blocks: &Vec<Vec<u8>>) -> (r: MemDisk)
        ensures
            r.blocks() == blocks@.map_values(|b: Vec<u8>| fit_block(b@)),
            !r.is_mounted(),
            r.reliable(),
    {
        let mut data: Vec<Vec<u8>> = Vec::new();
        let mut i: usize = 0;
        while i < blocks.len()
            invariant
                i <= blocks@.len(),
                data@.len() == i,
                forall|j: int| 0 <= j < i ==> (#[trigger] data@[j])@ == fit_block(blocks@[j]@),
            decreases blocks@.len() - i,
        {
            data.push(fit(&blocks[i]));
            i = i + 1;
        }
        let r = MemDisk { data, num_reads: 0, num_writes: 0, num_mounts: 0, mounted: false };
        assert(r.blocks() =~= blocks@.map_values(|b: Vec<u8>| fit_block(b@)));
        r
    }

    /// Number of successful block reads so far.
    pub fn reads(&self) -> (r: u64) {
        self.num_reads
    }

    /// Number of successful block writes so far.
    pub fn writes(&self) -> (r: u64) {
        self.num_writes
    }

    /// Number of mounts so far.
    pub fn mounts(&self) -> (r: u64) {
        self.num_mounts
    }
}

impl Disk for MemDisk {
    closed spec fn blocks(&self) -> Seq<Seq<u8>> {
        self.data@.map_values(|b: Vec<u8>| b@)
    }

    closed spec fn is_mounted(&self) -> bool {
        self.mounted
    }

    /// Every block is held at full size, as `new`, `from_blocks` and `write` store it.
    closed spec fn reliable(&self) -> bool {
        blocks_sized(self.blocks())
    }

    /// The identifier names nothing for a store in memory: it comes zero-filled.
    fn open(path: String, num_blocks: usize) -> (r: Result<MemDisk, DiskError>)
        ensures
            r is Ok,
            r->Ok_0.blocks() == Seq::new(num_blocks as nat, |i: int| fit_block(Seq::empty())),
            r->Ok_0.reliable(),
    {
        let d = MemDisk::new(num_blocks);
        assert forall|i: int| 0 <= i < d.blocks().len() implies (#[trigger] d.blocks()[i]).len()
            == BLOCK_SIZE by {}
        Ok(d)
    }

    fn size(&self) -> (r: usize) {
        self.data.len()
    }

    fn mounted(&self) -> (r: bool) {
        self.mounted
    }

    fn mount(&mut self) -> (r: Result<(), DiskError>)
        ensures
            r is Ok,
    {
        self.num_mounts = self.num_mounts.saturating_add(1);
        self.mounted = true;
        Ok(())
    }

    fn unmount(&mut self) -> (r: Result<(), DiskError>)
        ensures
            r is Ok,
    {
        self.mounted = false;
        Ok(())
    }

    fn read(&mut self, block_number: usize) -> (r: Result<Vec<u8>, DiskError>)
        ensures
            block_number < old(self).blocks().len() && old(self).blocks()[block_number as int].len()
                == BLOCK_SIZE ==> r is Ok,
            block_number >= old(self).blocks().len() ==> r == Err::<Vec<u8>, DiskError>(
                DiskError::ImageReadFailure,
            ),
    {
        if block_number >= self.data.len() {
            return Err(DiskError::ImageReadFailure);
        }
        let blk: Vec<u8> = self.data[block_number].clone();
        assert(self.blocks()[block_number as int] == blk@);
        // every block is stored at full size by `new` and `write`; a short one is reported
        if blk.len() != BLOCK_SIZE {
            return Err(DiskError::ImageReadFailure);
        }
        self.num_reads = self.num_reads.saturating_add(1);
        Ok(blk)
    }

    fn write(&mut self, block_number: usize, data: Vec<u8>) -> (r: Result<(), DiskError>)
        ensures
            block_number < old(self).blocks().len() ==> r is Ok,
            block_number >= old(self).blocks().len() ==> r == Err::<(), DiskError>(
                DiskError::ImageWriteFailure,
            ),
    {
        if block_number >= self.data.len() {
            return Err(DiskError::ImageWriteFailure);
        }
        let blk = fit(&data);
        self.data.set(block_number, blk);
        self.num_writes = self.num_writes.saturating_add(1);
        assert(self.data@.map_values(|b: Vec<u8>| b@) =~= old(self).data@.map_values(
            |b: Vec<u8>| b@,
        ).update(block_number as int, fit_block(data@)));
        Ok(())
    }
}

} // verus!
