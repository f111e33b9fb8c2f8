//! What a disk holds, as far as its block source says.

use super::layout::sound_boot;
use crate::block_source::BlockSource;
use crate::block_source::Reply;
use crate::error::IoErrorKind;
use crate::image::block_of;
use crate::image::has_block;
use crate::image::law_whole_blocks_count;
use crate::image::ImageFile;
use crate::image::IMAGE_BLOCK;
use vstd::prelude::*;

verus! {

/// What is known of a disk.
pub struct Disk {
    /// Its bytes. A block that is never read may hold anything.
    pub bytes: Seq<u8>,
    /// Whether each block is read whole, whenever it is asked for.
    pub kept: bool,
    /// Whether no read ends early, as at the end of a file.
    pub whole: bool,
}

/// Whether every block that a source may give is a part of `bytes`, at its place. The
/// source may fail to give some blocks.
pub open spec fn gives<B: BlockSource>(src: B, bytes: Seq<u8>) -> bool {
    &&& bytes.len() == src.count() * src.size()
    &&& forall|lba: u64, block: Seq<u8>, i: int|
        #![trigger src.may_answer(lba, Reply::Block(block)), block[i]]
        src.may_answer(lba, Reply::Block(block)) && 0 <= i < block.len() && lba * src.size() + i
            < bytes.len() ==> block[i] == bytes[lba * src.size() + i]
}

/// Whether a source gives the blocks of `bytes`, whole and whenever it is asked.
pub open spec fn keeps<B: BlockSource>(src: B, bytes: Seq<u8>) -> bool {
    &&& bytes.len() == src.count() * src.size()
    &&& forall|lba: u64, reply: Reply| #[trigger]
        src.may_answer(lba, reply) && lba < src.count() ==> reply == Reply::Block(
            bytes.subrange(lba * src.size(), lba * src.size() + src.size()),
        )
}

/// Whether a reply ends a read early: a block that is too short, or an error that says
/// so.
pub open spec fn ends_early<B: BlockSource>(src: B, reply: Reply) -> bool {
    match reply {
        Reply::Block(block) => block.len() < src.size(),
        Reply::Failed(kind, _) => kind == IoErrorKind::UnexpectedEof,
    }
}

/// The bytes of a disk.
pub open spec fn content<B: BlockSource>(src: B) -> Seq<u8> {
    choose|bytes: Seq<u8>| gives(src, bytes)
}

pub open spec fn disk_of<B: BlockSource>(src: B) -> Disk {
    Disk {
        bytes: content(src),
        kept: keeps(src, content(src)),
        whole: forall|lba: u64, reply: Reply| #[trigger]
            src.may_answer(lba, reply) && lba < src.count() ==> !ends_early(src, reply),
    }
}

/// Whether a source gives one volume, and its boot sector can be computed with.
pub open spec fn sound_source<B: BlockSource>(src: B) -> bool {
    gives(src, content(src)) && sound_boot(content(src))
}

/// Whether a read on a disk may fail so: as the source does, or where a block is too
/// short.
pub open spec fn may_fail<B: BlockSource>(src: B, kind: IoErrorKind, message: Seq<char>) -> bool {
    ||| exists|lba: u64| #[trigger] src.may_answer(lba, Reply::Failed(kind, message))
    ||| kind == IoErrorKind::UnexpectedEof && message == "short block"@
}

/// The bytes of a disk image, up to the last whole block.
pub open spec fn whole_blocks(bytes: Seq<u8>) -> Seq<u8> {
    bytes.take(bytes.len() as int / 512 * 512)
}

/// A disk image holds its bytes, up to the last whole block, and keeps them.
pub proof fn law_image_keeps_its_bytes(image: ImageFile)
    ensures
        gives(image, content(image)),
        disk_of(image) == (Disk { bytes: whole_blocks(image.bytes()), kept: true, whole: true }),
{
    let own = whole_blocks(image.bytes());
    law_whole_blocks_count(image);
    assert forall|lba: u64, block: Seq<u8>, i: int|
        #![trigger image.may_answer(lba, Reply::Block(block)), block[i]]
        image.may_answer(lba, Reply::Block(block)) && 0 <= i < block.len() && lba * image.size() + i
            < own.len() implies block[i] == own[lba * image.size() + i] by {
        assert(has_block(image.bytes(), lba as int));
        assert(block == block_of(image.bytes(), lba as int));
    }
    assert(gives(image, own));
    let bytes = content(image);
    assert forall|i: int| 0 <= i < own.len() implies bytes[i] == own[i] by {
        let lba = (i / IMAGE_BLOCK as int) as u64;
        let block = block_of(image.bytes(), lba as int);
        assert(has_block(image.bytes(), lba as int));
        assert(image.may_answer(lba, Reply::Block(block)));
        assert(block[i - lba * IMAGE_BLOCK] == own[i]);
    }
    assert(bytes =~= own);
    assert forall|lba: u64, reply: Reply| #[trigger]
        image.may_answer(lba, reply) && lba < image.count() implies reply == Reply::Block(
        own.subrange(lba * image.size(), lba * image.size() + image.size()),
    ) by {
        assert(has_block(image.bytes(), lba as int));
        assert(block_of(image.bytes(), lba as int) =~= own.subrange(
            lba * image.size(),
            lba * image.size() + image.size(),
        ));
    }
}

/// A disk that keeps its bytes ends no read early.
pub proof fn law_kept_is_whole<B: BlockSource>(src: B)
    ensures
        disk_of(src).kept ==> disk_of(src).whole,
{
    if disk_of(src).kept {
        let bytes = content(src);
        assert forall|lba: u64, reply: Reply| #[trigger]
            src.may_answer(lba, reply) && lba < src.count() implies !ends_early(src, reply) by {
            let (n, size, count) = (lba as int, src.size() as int, src.count() as int);
            assert(0 <= n * size && n * size + size <= count * size) by (nonlinear_arith)
                requires
                    0 <= n < count,
                    0 <= size,
            ;
        }
    }
}

} // verus!
