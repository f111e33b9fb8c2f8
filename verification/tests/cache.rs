//! The owner of a device and its cache.

use floppy_mac::actor::DeviceActor;
use floppy_mac::block_source::BlockSource;
use floppy_mac::error::IoError;
use floppy_mac::error::IoErrorKind;
use floppy_mac::image::ImageFile;
use std::cell::Cell;
use std::rc::Rc;

/// A disk in memory: the first byte of each block is its number, and reads are
/// counted.
struct FakeSource {
    block_size: usize,
    block_count: u64,
    reads: Rc<Cell<usize>>,
    fail_at: Option<(u64, IoErrorKind)>,
}

impl BlockSource for FakeSource {
    fn block_size(&self) -> usize {
        self.block_size
    }
    fn block_count(&self) -> u64 {
        self.block_count
    }
    fn read_block(&mut self, lba: u64) -> Result<Vec<u8>, IoError> {
        self.reads.set(self.reads.get() + 1);
        if let Some((at, kind)) = self.fail_at {
            if at == lba {
                return Err(IoError::new(kind, "no"));
            }
        }
        let mut b = vec![0u8; self.block_size];
        b[0] = lba as u8;
        Ok(b)
    }
}

fn source(block_count: u64) -> (FakeSource, Rc<Cell<usize>>) {
    let reads = Rc::new(Cell::new(0));
    let src = FakeSource { block_size: 512, block_count, reads: reads.clone(), fail_at: None };
    (src, reads)
}

#[test]
fn track_is_read_once_and_cached() {
    let (src, reads) = source(36);
    let mut client = DeviceActor::new(src, 18);

    let s0 = client.cached_read(0).unwrap();
    assert_eq!(s0[0], 0);
    assert_eq!(reads.get(), 18);

    let s5 = client.cached_read(5).unwrap();
    assert_eq!(s5[0], 5);
    assert_eq!(reads.get(), 18);

    let s18 = client.cached_read(18).unwrap();
    assert_eq!(s18[0], 18);
    assert_eq!(reads.get(), 36);
}

#[test]
fn reads_past_end_are_zero_filled() {
    let (src, reads) = source(10);
    let mut client = DeviceActor::new(src, 18);
    let s10 = client.cached_read(10).unwrap();
    assert_eq!(s10, vec![0u8; 512]);
    assert_eq!(reads.get(), 10);
}

#[test]
fn a_failure_is_not_cached() {
    let (mut src, reads) = source(36);
    src.fail_at = Some((3, IoErrorKind::InvalidData));
    let mut client = DeviceActor::new(src, 18);
    assert_eq!(client.cached_read(0).unwrap_err().kind, IoErrorKind::InvalidData);
    assert_eq!(reads.get(), 4);
    assert!(client.cached_read(1).is_err());
    assert_eq!(reads.get(), 8);
    assert_eq!(client.cached_read(20).unwrap()[0], 20);
}

#[test]
fn a_track_has_at_least_one_block() {
    let (src, reads) = source(4);
    let mut client = DeviceActor::new(src, 0);
    assert_eq!(client.cached_read(2).unwrap()[0], 2);
    assert_eq!(reads.get(), 1);
}

#[test]
fn the_last_block_number_is_refused() {
    let (src, reads) = source(4);
    let mut client = DeviceActor::new(src, 18);
    assert_eq!(client.cached_read(u64::MAX).unwrap_err().kind, IoErrorKind::Other);
    assert_eq!(reads.get(), 0);
}

#[test]
fn the_loss_of_a_disk_is_told_once() {
    let (mut src, _reads) = source(36);
    src.fail_at = Some((0, IoErrorKind::NotConnected));
    let mut client = DeviceActor::new(src, 18);
    let r = client.cached_read(0);
    assert_eq!(client.check_eject(&r), None);
    client.watch_eject("/tmp/fd".to_string());
    assert_eq!(client.check_eject(&Ok(vec![])), None);
    assert_eq!(client.check_eject(&Err(IoError::new(IoErrorKind::NotFound, "x"))), None);
    assert_eq!(client.check_eject(&r), Some("/tmp/fd".to_string()));
    assert_eq!(client.check_eject(&r), None);
}

#[test]
fn an_image_is_read_through_the_cache() {
    let bytes: Vec<u8> = (0..512 * 5 + 100).map(|i| (i / 7) as u8).collect();
    let mut client = DeviceActor::new(ImageFile::open(bytes.clone()), 2);
    for lba in [4usize, 0, 3, 1, 2] {
        assert_eq!(client.cached_read(lba as u64).unwrap(), bytes[512 * lba..512 * lba + 512]);
    }
    assert_eq!(client.cached_read(5).unwrap(), vec![0u8; 512]);
}
