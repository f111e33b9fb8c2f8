//! Images and volumes.

use floppy_mac::block_source::BlockSource;
use floppy_mac::error::IoError;
use floppy_mac::error::IoErrorKind;
use floppy_mac::image::ImageFile;
use floppy_mac::volume_io::VolumeIo;
use std::io::Read;
use std::io::Seek;
use std::io::SeekFrom;
use std::io::Write;

fn bytes(n: usize) -> Vec<u8> {
    (0..n).map(|i| (i * 31 / 7) as u8).collect()
}

#[test]
fn an_image_has_whole_blocks() {
    let b = bytes(512 * 3 + 100);
    let mut image = ImageFile::open(b.clone());
    assert_eq!(image.block_size(), 512);
    assert_eq!(image.block_count(), 3);
    assert_eq!(image.read_block(2).unwrap(), b[1024..1536]);
    let e = image.read_block(3).unwrap_err();
    assert_eq!(e.kind, IoErrorKind::UnexpectedEof);
    assert_eq!(e.message, "failed to fill whole buffer");
    assert!(image.read_block(u64::MAX).is_err());
}

#[test]
fn a_volume_reads_as_its_image() {
    let b = bytes(512 * 4);
    let mut v = VolumeIo::new(ImageFile::open(b.clone()));
    let mut buf = vec![0u8; 700];
    assert_eq!(v.seek_to(SeekFrom::Start(300)).unwrap(), 300);
    assert_eq!(v.read_bytes(&mut buf).unwrap(), 700);
    assert_eq!(buf, b[300..1000]);
    assert_eq!(v.read_bytes(&mut buf).unwrap(), 700);
    assert_eq!(buf, b[1000..1700]);
    assert_eq!(v.read_bytes(&mut buf).unwrap(), 348);
    assert_eq!(buf[..348], b[1700..]);
    assert_eq!(v.read_bytes(&mut buf).unwrap(), 0);
}

#[test]
fn a_volume_is_searched() {
    let mut v = VolumeIo::new(ImageFile::open(bytes(1024)));
    assert_eq!(v.seek_to(SeekFrom::End(-24)).unwrap(), 1000);
    assert_eq!(v.seek_to(SeekFrom::Current(-1000)).unwrap(), 0);
    let e = v.seek_to(SeekFrom::Current(-1)).unwrap_err();
    assert_eq!(e.kind, IoErrorKind::InvalidInput);
    assert_eq!(e.message, "seek before start");
    assert_eq!(v.seek_to(SeekFrom::Current(0)).unwrap(), 0);
    assert_eq!(v.seek_to(SeekFrom::Start(5000)).unwrap(), 5000);
    assert_eq!(v.read_bytes(&mut [0; 4]).unwrap(), 0);
    // A place that 64 bits do not hold wraps around.
    assert_eq!(v.seek_to(SeekFrom::Start(u64::MAX)).unwrap(), u64::MAX);
    assert_eq!(v.seek_to(SeekFrom::Current(3)).unwrap(), 2);
}

#[test]
fn a_volume_is_not_written() {
    let mut v = VolumeIo::new(ImageFile::open(bytes(512)));
    let e = v.write_bytes(&[1, 2]).unwrap_err();
    assert_eq!(e.kind, IoErrorKind::PermissionDenied);
    assert_eq!(e.message, "volume is read-only");
}

#[test]
fn a_volume_is_a_stream_of_std() {
    let b = bytes(2048);
    let mut v = VolumeIo::new(ImageFile::open(b.clone()));
    v.seek(SeekFrom::Start(10)).unwrap();
    let mut all = Vec::new();
    v.read_to_end(&mut all).unwrap();
    assert_eq!(all, b[10..]);
    assert!(v.flush().is_ok());
    let e = v.write(&[0]).unwrap_err();
    assert_eq!(e.kind(), std::io::ErrorKind::PermissionDenied);
    assert_eq!(e.to_string(), "volume is read-only");
    let e = v.seek(SeekFrom::End(-5000)).unwrap_err();
    assert_eq!(e.kind(), std::io::ErrorKind::InvalidInput);
}

/// A disk with blocks that are too short, too long, or missing.
struct Odd;

impl BlockSource for Odd {
    fn block_size(&self) -> usize {
        10
    }
    fn block_count(&self) -> u64 {
        5
    }
    fn read_block(&mut self, lba: u64) -> Result<Vec<u8>, IoError> {
        match lba {
            0 => Ok(vec![1; 10]),
            1 => Ok(vec![2; 14]),
            2 => Ok(vec![3; 6]),
            3 => Err(IoError::new(IoErrorKind::NotConnected, "gone")),
            _ => Ok(vec![5; 10]),
        }
    }
}

#[test]
fn odd_blocks_are_taken_as_they_come() {
    let mut v = VolumeIo::new(Odd);
    let mut buf = [0u8; 20];
    // The long block is taken whole; the position moves by its length, and the next
    // block is too short to reach it.
    let e = v.read_bytes(&mut [0; 40]).unwrap_err();
    assert_eq!((e.kind, e.message.as_str()), (IoErrorKind::UnexpectedEof, "short block"));
    assert_eq!(v.seek_to(SeekFrom::Current(0)).unwrap(), 26);
    v.seek_to(SeekFrom::Start(0)).unwrap();
    assert_eq!(v.read_bytes(&mut buf).unwrap(), 20);
    assert_eq!(buf, [1, 1, 1, 1, 1, 1, 1, 1, 1, 1, 2, 2, 2, 2, 2, 2, 2, 2, 2, 2]);
    v.seek_to(SeekFrom::Start(27)).unwrap();
    let e = v.read_bytes(&mut buf).unwrap_err();
    assert_eq!((e.kind, e.message.as_str()), (IoErrorKind::UnexpectedEof, "short block"));
    v.seek_to(SeekFrom::Start(35)).unwrap();
    let e = v.read_bytes(&mut buf).unwrap_err();
    assert_eq!((e.kind, e.message.as_str()), (IoErrorKind::NotConnected, "gone"));
    v.seek_to(SeekFrom::Start(44)).unwrap();
    assert_eq!(v.read_bytes(&mut buf).unwrap(), 6);
}
