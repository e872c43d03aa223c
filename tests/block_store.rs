use simplefs::disk::{BLOCK_SIZE, Disk, DiskError, MemDisk};

#[test]
fn new_store_is_zeroed_and_sized() {
    let mut d = MemDisk::new(4);
    assert_eq!(d.size(), 4);
    assert!(!d.mounted());
    for b in 0..4 {
        let blk = d.read(b).ok().unwrap();
        assert_eq!(blk.len(), BLOCK_SIZE);
        assert!(blk.iter().all(|&x| x == 0));
    }
}

#[test]
fn open_gives_store_of_requested_size() {
    let d = MemDisk::open(String::from("image"), 7).ok().unwrap();
    assert_eq!(d.size(), 7);
}

#[test]
fn out_of_range_access_fails() {
    let mut d = MemDisk::new(2);
    assert!(matches!(d.read(2), Err(DiskError::ImageReadFailure)));
    assert!(matches!(d.write(2, vec![1u8; 8]), Err(DiskError::ImageWriteFailure)));
}

#[test]
fn short_write_is_zero_padded() {
    let mut d = MemDisk::new(2);
    d.write(1, vec![9u8; BLOCK_SIZE]).ok().unwrap();
    d.write(1, vec![1, 2, 3]).ok().unwrap();
    let blk = d.read(1).ok().unwrap();
    assert_eq!(blk.len(), BLOCK_SIZE);
    assert_eq!(&blk[..3], &[1, 2, 3]);
    assert!(blk[3..].iter().all(|&x| x == 0));
}

#[test]
fn long_write_is_truncated() {
    let mut d = MemDisk::new(1);
    let mut data = vec![5u8; BLOCK_SIZE];
    data.push(6);
    d.write(0, data).ok().unwrap();
    let blk = d.read(0).ok().unwrap();
    assert_eq!(blk, vec![5u8; BLOCK_SIZE]);
}

#[test]
fn mount_guard_and_counters() {
    let mut d = MemDisk::new(1);
    d.mount().ok().unwrap();
    assert!(d.mounted());
    assert_eq!(d.mounts(), 1);
    d.unmount().ok().unwrap();
    assert!(!d.mounted());
    d.write(0, vec![1]).ok().unwrap();
    d.read(0).ok().unwrap();
    d.read(0).ok().unwrap();
    assert_eq!(d.writes(), 1);
    assert_eq!(d.reads(), 2);
}

#[test]
fn from_blocks_fits_each_block() {
    let mut d = MemDisk::from_blocks(&vec![vec![1u8, 2u8], vec![3u8; BLOCK_SIZE + 5]]);
    assert_eq!(d.size(), 2);
    let a = d.read(0).ok().unwrap();
    assert_eq!(a.len(), BLOCK_SIZE);
    assert_eq!(&a[..3], &[1, 2, 0]);
    assert_eq!(d.read(1).ok().unwrap(), vec![3u8; BLOCK_SIZE]);
}
