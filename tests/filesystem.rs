use simplefs::disk::{BLOCK_SIZE, Disk, MemDisk};
use simplefs::fs::{FileSystem, FileSystemError, SimpleFileSystem};
use simplefs::layout::{MAGIC_NUMBER, MAX_FILE_SIZE};

type Fs = SimpleFileSystem<MemDisk>;

fn fresh(blocks: usize) -> Fs {
    let mut d = MemDisk::new(blocks);
    Fs::format(&mut d).ok().unwrap();
    Fs::mount(d).ok().unwrap()
}

fn read_all(fs: &mut Fs, k: usize, offset: usize, len: usize) -> Vec<u8> {
    let mut buf = vec![0xAAu8; len];
    let n = fs.read(k, &mut buf, offset).ok().unwrap();
    buf.truncate(n);
    buf
}

#[test]
fn format_writes_superblock() {
    let fs = fresh(100);
    let sb = fs.superblock();
    assert_eq!(sb.magic, MAGIC_NUMBER);
    assert_eq!(sb.num_blocks, 100);
    assert_eq!(sb.num_inode_blocks, 10);
    assert_eq!(sb.num_inodes, 1280);
    assert_eq!(fs.inode_capacity(), 1280);
}

#[test]
fn inode_blocks_round_up() {
    assert_eq!(fresh(30).superblock().num_inode_blocks, 3);
    assert_eq!(fresh(31).superblock().num_inode_blocks, 4);
    assert_eq!(fresh(11).superblock().num_inode_blocks, 2);
    assert_eq!(fresh(10).superblock().num_inode_blocks, 1);
}

#[test]
fn superblock_bytes_are_little_endian() {
    let fs = fresh(20);
    let mut d = fs.unmount();
    let blk = d.read(0).ok().unwrap();
    assert_eq!(&blk[0..4], &MAGIC_NUMBER.to_le_bytes());
    assert_eq!(&blk[4..8], &20u32.to_le_bytes());
    assert_eq!(&blk[8..12], &2u32.to_le_bytes());
    assert_eq!(&blk[12..16], &256u32.to_le_bytes());
    assert!(blk[16..].iter().all(|&x| x == 0));
}

#[test]
fn format_twice_gives_same_image() {
    let mut d = MemDisk::new(40);
    Fs::format(&mut d).ok().unwrap();
    let first: Vec<Vec<u8>> = (0..40).map(|b| d.read(b).ok().unwrap()).collect();
    let mut fs = Fs::mount(d).ok().unwrap();
    let k = fs.create().ok().unwrap();
    fs.write(k, vec![7u8; 100], 0).ok().unwrap();
    let mut d = fs.unmount();
    Fs::format(&mut d).ok().unwrap();
    let second: Vec<Vec<u8>> = (0..40).map(|b| d.read(b).ok().unwrap()).collect();
    assert_eq!(first, second);
    let fs = Fs::mount(d).ok().unwrap();
    assert_eq!(fs.superblock().num_inodes, 512);
    assert_eq!(fs.stat(0), Err(FileSystemError::InvalidInumber));
}

#[test]
fn format_of_empty_store_fails() {
    let mut d = MemDisk::new(0);
    assert_eq!(Fs::format(&mut d), Err(FileSystemError::DiskWriteFailure));
}

#[test]
fn mount_rejects_unformatted_store() {
    let d = MemDisk::new(20);
    assert!(matches!(Fs::mount(d), Err(FileSystemError::InvalidSuperblock)));
}

#[test]
fn mount_rejects_other_magic() {
    let mut d = MemDisk::new(20);
    Fs::format(&mut d).ok().unwrap();
    let mut blk = d.read(0).ok().unwrap();
    blk[0] ^= 1;
    d.write(0, blk).ok().unwrap();
    assert!(matches!(Fs::mount(d), Err(FileSystemError::InvalidSuperblock)));
}

#[test]
fn mount_rejects_inconsistent_geometry() {
    let mut d = MemDisk::new(20);
    Fs::format(&mut d).ok().unwrap();
    let mut blk = d.read(0).ok().unwrap();
    blk[4] = 21;
    d.write(0, blk).ok().unwrap();
    assert!(matches!(Fs::mount(d), Err(FileSystemError::MiscellaneousFailure)));
}

#[test]
fn mount_rejects_shared_block() {
    let mut fs = fresh(20);
    let a = fs.create().ok().unwrap();
    let b = fs.create().ok().unwrap();
    fs.write(a, vec![1u8; 10], 0).ok().unwrap();
    let mut d = fs.unmount();
    // point the first direct slot of inode b at the block of inode a
    let mut table = d.read(1).ok().unwrap();
    let (src, dst) = (32 * a + 8, 32 * b + 8);
    let ptr: Vec<u8> = table[src..src + 4].to_vec();
    table[dst..dst + 4].copy_from_slice(&ptr);
    d.write(1, table).ok().unwrap();
    assert!(matches!(Fs::mount(d), Err(FileSystemError::MiscellaneousFailure)));
}

#[test]
fn create_stat_remove_roundtrip() {
    let mut fs = fresh(20);
    let k = fs.create().ok().unwrap();
    assert_eq!(k, 0);
    assert_eq!(fs.stat(k), Ok(0));
    assert_eq!(fs.remove(k), Ok(true));
    assert_eq!(fs.stat(k), Err(FileSystemError::InvalidInumber));
    assert_eq!(fs.create(), Ok(k));
}

#[test]
fn create_takes_lowest_free_slot() {
    let mut fs = fresh(20);
    for expected in 0..5 {
        assert_eq!(fs.create(), Ok(expected));
    }
    fs.remove(2).ok().unwrap();
    fs.remove(1).ok().unwrap();
    assert_eq!(fs.create(), Ok(1));
    assert_eq!(fs.create(), Ok(2));
    assert_eq!(fs.create(), Ok(5));
}

#[test]
fn inode_record_is_big_endian_on_store() {
    let mut fs = fresh(20);
    fs.create().ok().unwrap();
    let k = fs.create().ok().unwrap();
    fs.write(k, vec![1u8; 300], 0).ok().unwrap();
    let mut d = fs.unmount();
    let table = d.read(1).ok().unwrap();
    assert_eq!(&table[32..36], &[0, 0, 0, 1]);
    assert_eq!(&table[36..40], &300u32.to_be_bytes());
    let block = u32::from_be_bytes([table[40], table[41], table[42], table[43]]);
    assert_eq!(block, 3);
}

#[test]
fn remove_twice_is_refused() {
    let mut fs = fresh(20);
    let k = fs.create().ok().unwrap();
    assert_eq!(fs.remove(k), Ok(true));
    assert_eq!(fs.remove(k), Err(FileSystemError::InvalidInumber));
    assert_eq!(fs.remove(100000), Err(FileSystemError::InvalidInumber));
}

#[test]
fn stat_of_unknown_inumber_fails() {
    let fs = fresh(20);
    assert_eq!(fs.stat(0), Err(FileSystemError::InvalidInumber));
    assert_eq!(fs.stat(256), Err(FileSystemError::InvalidInumber));
}

#[test]
fn write_read_roundtrip() {
    let mut fs = fresh(50);
    let k = fs.create().ok().unwrap();
    let data: Vec<u8> = (0..10000u32).map(|i| (i % 251) as u8).collect();
    assert_eq!(fs.write(k, data.clone(), 0), Ok(10000));
    assert!(fs.stat(k).ok().unwrap() >= 10000);
    assert_eq!(read_all(&mut fs, k, 0, 10000), data);
}

#[test]
fn write_read_roundtrip_survives_remount() {
    let mut fs = fresh(50);
    let k = fs.create().ok().unwrap();
    let data: Vec<u8> = (0..5000u32).map(|i| (i % 7) as u8).collect();
    fs.write(k, data.clone(), 0).ok().unwrap();
    let mut fs = Fs::mount(fs.unmount()).ok().unwrap();
    assert_eq!(fs.stat(k), Ok(5000));
    assert_eq!(read_all(&mut fs, k, 0, 5000), data);
}

#[test]
fn overwrite_in_middle_keeps_other_bytes() {
    let mut fs = fresh(20);
    let k = fs.create().ok().unwrap();
    fs.write(k, vec![1u8; 5000], 0).ok().unwrap();
    fs.write(k, vec![2u8; 10], 4090).ok().unwrap();
    assert_eq!(fs.stat(k), Ok(5000));
    let got = read_all(&mut fs, k, 0, 5000);
    let mut expected = vec![1u8; 5000];
    for b in &mut expected[4090..4100] {
        *b = 2;
    }
    assert_eq!(got, expected);
}

#[test]
fn write_past_end_fills_gap_with_zeros() {
    let mut fs = fresh(20);
    let k = fs.create().ok().unwrap();
    fs.write(k, vec![3u8; 4], 0).ok().unwrap();
    fs.write(k, vec![4u8; 2], 10).ok().unwrap();
    assert_eq!(fs.stat(k), Ok(12));
    assert_eq!(read_all(&mut fs, k, 0, 12), vec![3, 3, 3, 3, 0, 0, 0, 0, 0, 0, 4, 4]);
}

#[test]
fn empty_write_past_end_grows_file() {
    let mut fs = fresh(20);
    let k = fs.create().ok().unwrap();
    assert_eq!(fs.write(k, Vec::new(), 6), Ok(0));
    assert_eq!(fs.stat(k), Ok(6));
    assert_eq!(read_all(&mut fs, k, 0, 6), vec![0u8; 6]);
}

#[test]
fn short_read_at_end_of_file() {
    let mut fs = fresh(20);
    let k = fs.create().ok().unwrap();
    fs.write(k, vec![1, 2, 3, 4, 5], 0).ok().unwrap();
    let mut buf = vec![9u8; 8];
    assert_eq!(fs.read(k, &mut buf, 3), Ok(2));
    assert_eq!(buf, vec![4, 5, 9, 9, 9, 9, 9, 9]);
}

#[test]
fn read_errors() {
    let mut fs = fresh(20);
    let k = fs.create().ok().unwrap();
    let mut buf = vec![0u8; 4];
    assert_eq!(fs.read(k, &mut buf, 0), Err(FileSystemError::InvalidOffset));
    fs.write(k, vec![1, 2], 0).ok().unwrap();
    assert_eq!(fs.read(k, &mut buf, 2), Err(FileSystemError::InvalidOffset));
    assert_eq!(fs.read(k + 1, &mut buf, 0), Err(FileSystemError::InvalidInumber));
}

#[test]
fn write_to_free_inode_fails() {
    let mut fs = fresh(20);
    assert_eq!(fs.write(0, vec![1], 0), Err(FileSystemError::InvalidInumber));
}

#[test]
fn indirect_boundary() {
    let mut fs = fresh(40);
    let k = fs.create().ok().unwrap();
    let offset = 5 * BLOCK_SIZE;
    assert_eq!(fs.write(k, vec![0x5Au8; 100], offset), Ok(100));
    assert_eq!(fs.stat(k), Ok(offset + 100));
    assert_eq!(read_all(&mut fs, k, offset, 100), vec![0x5Au8; 100]);
    assert_eq!(read_all(&mut fs, k, 0, 16), vec![0u8; 16]);
    let past = 5 * BLOCK_SIZE + 1024 * BLOCK_SIZE;
    assert_eq!(past, MAX_FILE_SIZE);
    assert_eq!(fs.write(k, vec![1u8], past), Err(FileSystemError::FileTooLarge));
    assert_eq!(fs.stat(k), Ok(offset + 100));
}

#[test]
fn last_byte_of_largest_file() {
    let mut fs = fresh(1300);
    let k = fs.create().ok().unwrap();
    assert_eq!(fs.write(k, vec![8u8], MAX_FILE_SIZE - 1), Ok(1));
    assert_eq!(fs.stat(k), Ok(MAX_FILE_SIZE));
    assert_eq!(read_all(&mut fs, k, MAX_FILE_SIZE - 1, 4), vec![8u8]);
    assert_eq!(fs.write(k, vec![8u8, 9u8], MAX_FILE_SIZE - 1), Err(FileSystemError::FileTooLarge));
}

#[test]
fn write_runs_out_of_space() {
    // 10 blocks: superblock, one inode block, eight data blocks
    let mut fs = fresh(10);
    let k = fs.create().ok().unwrap();
    assert_eq!(fs.write(k, vec![1u8; 9 * BLOCK_SIZE], 0), Err(FileSystemError::OutOfSpace));
    for b in 0..10 {
        assert_eq!(fs.block_is_free(b), Some(false));
    }
    let other = fs.create().ok().unwrap();
    assert_eq!(fs.stat(other), Ok(0));
}

#[test]
fn free_map_after_mount_matches_references() {
    let mut fs = fresh(40);
    let a = fs.create().ok().unwrap();
    let b = fs.create().ok().unwrap();
    let c = fs.create().ok().unwrap();
    fs.write(a, vec![1u8; 2 * BLOCK_SIZE], 0).ok().unwrap();
    fs.write(b, vec![2u8; 7 * BLOCK_SIZE], 0).ok().unwrap();
    fs.write(c, vec![3u8; 10], 0).ok().unwrap();
    fs.remove(c).ok().unwrap();
    let before: Vec<Option<bool>> = (0..41).map(|x| fs.block_is_free(x)).collect();
    let fs = Fs::mount(fs.unmount()).ok().unwrap();
    let after: Vec<Option<bool>> = (0..41).map(|x| fs.block_is_free(x)).collect();
    assert_eq!(before, after);
    // metadata 0..5, a: 5 6, b: 7..12 direct, 12 indirect, 13 14 through it
    let used: Vec<usize> = (0..40).filter(|&x| fs.block_is_free(x) == Some(false)).collect();
    assert_eq!(used, (0..15).collect::<Vec<usize>>());
    assert_eq!(fs.block_is_free(40), None);
}

#[test]
fn remove_frees_data_and_indirect_blocks() {
    let mut fs = fresh(40);
    let k = fs.create().ok().unwrap();
    fs.write(k, vec![1u8; 7 * BLOCK_SIZE], 0).ok().unwrap();
    assert_eq!(fs.block_is_free(12), Some(false));
    fs.remove(k).ok().unwrap();
    for b in 5..40 {
        assert_eq!(fs.block_is_free(b), Some(true));
    }
    let fs = Fs::mount(fs.unmount()).ok().unwrap();
    for b in 5..40 {
        assert_eq!(fs.block_is_free(b), Some(true));
    }
}

#[test]
fn inode_exhaustion_changes_nothing() {
    let mut fs = fresh(10);
    let capacity = fs.inode_capacity();
    assert_eq!(capacity, 128);
    for expected in 0..capacity {
        assert_eq!(fs.create(), Ok(expected));
    }
    let mut d = fs.unmount();
    let image: Vec<Vec<u8>> = (0..10).map(|b| d.read(b).ok().unwrap()).collect();
    let mut fs = Fs::mount(d).ok().unwrap();
    assert_eq!(fs.create(), Err(FileSystemError::NoFreeInodes));
    let mut d = fs.unmount();
    let again: Vec<Vec<u8>> = (0..10).map(|b| d.read(b).ok().unwrap()).collect();
    assert_eq!(image, again);
}

#[test]
fn many_inode_blocks_are_loaded() {
    let mut fs = fresh(30);
    for _ in 0..300 {
        fs.create().ok().unwrap();
    }
    fs.write(299, vec![6u8; 3], 0).ok().unwrap();
    let mut fs = Fs::mount(fs.unmount()).ok().unwrap();
    assert_eq!(fs.stat(299), Ok(3));
    assert_eq!(fs.create(), Ok(300));
    assert_eq!(read_all(&mut fs, 299, 0, 3), vec![6u8; 3]);
}

#[test]
fn write_takes_lowest_free_blocks() {
    let mut fs = fresh(20);
    let a = fs.create().ok().unwrap();
    let b = fs.create().ok().unwrap();
    fs.write(a, vec![1u8; 2 * BLOCK_SIZE], 0).ok().unwrap();
    fs.write(b, vec![2u8; 10], 0).ok().unwrap();
    // metadata 0..3; a holds 3 and 4, b holds 5
    assert_eq!(fs.block_is_free(5), Some(false));
    fs.remove(a).ok().unwrap();
    assert_eq!(fs.block_is_free(3), Some(true));
    assert_eq!(fs.block_is_free(4), Some(true));
    let c = fs.create().ok().unwrap();
    fs.write(c, vec![3u8; 10], 0).ok().unwrap();
    assert_eq!(fs.block_is_free(3), Some(false));
    assert_eq!(fs.block_is_free(4), Some(true));
    assert_eq!(read_all(&mut fs, b, 0, 10), vec![2u8; 10]);
}

#[test]
fn operations_through_the_trait() {
    let mut d = MemDisk::new(20);
    <Fs as FileSystem<MemDisk>>::format(&mut d).ok().unwrap();
    let mut fs = <Fs as FileSystem<MemDisk>>::mount(d).ok().unwrap();
    let k = FileSystem::create(&mut fs).ok().unwrap();
    assert_eq!(FileSystem::write(&mut fs, k, vec![4u8, 5u8], 0), Ok(2));
    assert_eq!(FileSystem::stat(&fs, k), Ok(2));
    let mut buf = vec![0u8; 2];
    assert_eq!(FileSystem::read(&mut fs, k, &mut buf, 0), Ok(2));
    assert_eq!(buf, vec![4u8, 5u8]);
    assert_eq!(FileSystem::remove(&mut fs, k), Ok(true));
    assert_eq!(FileSystem::stat(&fs, k), Err(FileSystemError::InvalidInumber));
}
