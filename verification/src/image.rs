//! A disk image as a block source.

use crate::block_source::reply_of;
use crate::block_source::BlockSource;
use crate::block_source::ReadEvent;
use crate::block_source::Reply;
use crate::bytes::copy_range;
use crate::error::is_error;
use crate::error::IoError;
use crate::error::IoErrorKind;
use vstd::prelude::*;

verus! {

/// The bytes in a block of an image: the sector of a PC floppy.
pub const IMAGE_BLOCK: usize = 512;

/// The bytes of a disk, one block behind the other.
pub struct ImageFile {
    bytes: Vec<u8>,
    asked: Ghost<Seq<ReadEvent>>,
}

impl ImageFile {
    /// The bytes of the image.
    pub closed spec fn bytes(&self) -> Seq<u8> {
        self.bytes@
    }

    /// The image whose bytes are given.
    pub fn open(bytes: Vec<u8>) -> (image: ImageFile)
        ensures
            image.bytes() == bytes@,
            image.size() == IMAGE_BLOCK,
            image.count() == bytes.len() / IMAGE_BLOCK,
            image.history() == Seq::<ReadEvent>::empty(),
    {
        ImageFile { bytes, asked: Ghost(Seq::empty()) }
    }
}

/// Whether the image holds all of block `lba`.
pub open spec fn has_block(bytes: Seq<u8>, lba: int) -> bool {
    lba * IMAGE_BLOCK + IMAGE_BLOCK <= bytes.len()
}

/// Block `lba` of the image.
pub open spec fn block_of(bytes: Seq<u8>, lba: int) -> Seq<u8> {
    bytes.subrange(lba * IMAGE_BLOCK, lba * IMAGE_BLOCK + IMAGE_BLOCK)
}

/// What an image answers to a request for block `lba`.
pub open spec fn image_answers(bytes: Seq<u8>, lba: u64, reply: Reply) -> bool {
    match reply {
        Reply::Block(b) => has_block(bytes, lba as int) && b == block_of(bytes, lba as int),
        Reply::Failed(kind, message) => !has_block(bytes, lba as int) && kind
            == IoErrorKind::UnexpectedEof && message == "failed to fill whole buffer"@,
    }
}

/// The blocks of an image are the whole ones.
pub proof fn law_whole_blocks_count(image: ImageFile)
    ensures
        image.count() == image.bytes().len() / 512,
        image.count() * IMAGE_BLOCK <= image.bytes().len(),
{
}

impl BlockSource for ImageFile {
    open spec fn size(&self) -> usize {
        IMAGE_BLOCK
    }

    closed spec fn count(&self) -> u64 {
        (self.bytes.len() / IMAGE_BLOCK) as u64
    }

    closed spec fn history(&self) -> Seq<ReadEvent> {
        self.asked@
    }

    /// What the image holds, and an error behind its end.
    open spec fn may_answer(&self, lba: u64, reply: Reply) -> bool {
        image_answers(self.bytes(), lba, reply)
    }

    fn block_size(&self) -> usize {
        IMAGE_BLOCK
    }

    fn block_count(&self) -> u64 {
        (self.bytes.len() / IMAGE_BLOCK) as u64
    }

    fn read_block(&mut self, lba: u64) -> (r: Result<Vec<u8>, IoError>)
        ensures
            final(self).bytes() == old(self).bytes(),
            r is Ok <==> has_block(old(self).bytes(), lba as int),
            r matches Ok(block) ==> block@ == block_of(old(self).bytes(), lba as int),
            r matches Err(e) ==> is_error(
                e,
                IoErrorKind::UnexpectedEof,
                "failed to fill whole buffer"@,
            ),
    {
        let r: Result<Vec<u8>, IoError> = if lba < (self.bytes.len() / IMAGE_BLOCK) as u64 {
            let at: usize = lba as usize * IMAGE_BLOCK;
            Ok(copy_range(self.bytes.as_slice(), at, at + IMAGE_BLOCK))
        } else {
            Err(IoError::new(IoErrorKind::UnexpectedEof, "failed to fill whole buffer"))
        };
        proof {
            self.asked@ = self.asked@.push(ReadEvent { lba, reply: reply_of(r) });
        }
        r
    }
}

/// An image gives block after block of its bytes, 512 each, and nothing behind the last
/// whole one.
pub proof fn law_blocks_are_the_bytes(bytes: Seq<u8>, lba: u64, i: int)
    requires
        0 <= i < 512,
    ensures
        has_block(bytes, lba as int) <==> 512 * (lba + 1) <= bytes.len(),
        has_block(bytes, lba as int) ==> block_of(bytes, lba as int).len() == 512 && block_of(
            bytes,
            lba as int,
        )[i] == bytes[512 * lba + i],
        has_block(bytes, lba as int) ==> image_answers(
            bytes,
            lba,
            Reply::Block(bytes.subrange(512 * lba, 512 * lba + 512)),
        ),
        !has_block(bytes, lba as int) ==> image_answers(
            bytes,
            lba,
            Reply::Failed(IoErrorKind::UnexpectedEof, "failed to fill whole buffer"@),
        ),
{
}

} // verus!
