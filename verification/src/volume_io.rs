//! A block source as one run of bytes that can be read and searched. Nothing can
//! be written.

use crate::block_source::asked;
use crate::block_source::events_between;
use crate::block_source::lemma_asked_nothing;
use crate::block_source::lemma_asked_push;
use crate::block_source::lemma_events_between;
use crate::block_source::reply_of;
use crate::block_source::BlockSource;
use crate::block_source::ReadEvent;
use crate::block_source::Reply;
use crate::error::is_error;
use crate::error::IoError;
use crate::error::IoErrorKind;
use crate::image::block_of;
use crate::image::has_block;
use crate::image::image_answers;
use crate::image::IMAGE_BLOCK;
use std::io::SeekFrom;
use vstd::prelude::*;

verus! {

/// A place in a file, counted from its start, its end or the position.
#[verifier::external_type_specification]
pub struct ExSeekFrom(std::io::SeekFrom);

/// An error of std.
#[verifier::external_type_specification]
#[verifier::external_body]
pub struct ExIoError(std::io::Error);

/// What `std::io::Error::kind` gives, unless the error comes from the system, as far as
/// the library has it: `Other` for the rest.
pub uninterp spec fn kind_of_std(e: std::io::Error) -> IoErrorKind;

/// What `to_string` of an error of std gives, unless the error comes from the system.
pub uninterp spec fn text_of_std(e: std::io::Error) -> Seq<char>;

/// Whether `std::io::Error::raw_os_error` gives a number: the error comes from the
/// system, which also words it.
pub uninterp spec fn from_system(e: std::io::Error) -> bool;

/// Whether an error of std has this kind and this message.
pub open spec fn is_std_error(e: std::io::Error, kind: IoErrorKind, message: Seq<char>) -> bool {
    kind_of_std(e) == kind && text_of_std(e) == message && !from_system(e)
}

/// `std::io::Error::new`: an error of the same kind with the same message. The
/// contract claims that it has both, and does not come from the system.
#[verifier::external_body]
fn std_error(e: IoError) -> (r: std::io::Error)
    ensures
        kind_of_std(r) == e.kind,
        text_of_std(r) == e.message@,
        !from_system(r),
{
    let kind = match e.kind {
        IoErrorKind::NotFound => std::io::ErrorKind::NotFound,
        IoErrorKind::PermissionDenied => std::io::ErrorKind::PermissionDenied,
        IoErrorKind::NotConnected => std::io::ErrorKind::NotConnected,
        IoErrorKind::BrokenPipe => std::io::ErrorKind::BrokenPipe,
        IoErrorKind::InvalidInput => std::io::ErrorKind::InvalidInput,
        IoErrorKind::InvalidData => std::io::ErrorKind::InvalidData,
        IoErrorKind::UnexpectedEof => std::io::ErrorKind::UnexpectedEof,
        IoErrorKind::Other => std::io::ErrorKind::Other,
    };
    std::io::Error::new(kind, e.message)
}

/// The size of a volume, in bytes, and of its blocks. Only a volume without bytes
/// has blocks without bytes.
struct Extent {
    len: u64,
    block: usize,
}

impl Extent {
    #[verifier::type_invariant]
    spec fn wf(&self) -> bool {
        self.block == 0 ==> self.len == 0
    }

    /// The extent of `count` blocks of `block` bytes.
    fn new(count: u64, block: usize) -> (e: Extent)
        requires
            count * block <= u64::MAX,
        ensures
            e.len == count * block,
            e.block == block,
    {
        proof {
            if block == 0 {
                assert(count * 0 == 0);
            }
        }
        Extent { len: count * block as u64, block }
    }
}

/// A disk as one run of bytes, and a position in it.
pub struct VolumeIo<B: BlockSource> {
    src: B,
    pos: u64,
    extent: Extent,
}

/// What a read comes to.
#[verifier::ext_equal]
pub struct Fill {
    /// The bytes read.
    pub bytes: Seq<u8>,
    /// The position behind them.
    pub pos: int,
    /// The error that ended the read.
    pub failed: Option<(IoErrorKind, Seq<char>)>,
}

/// The smallest of three numbers.
pub open spec fn least(a: int, b: int, c: int) -> int {
    if a <= b && a <= c {
        a
    } else if b <= c {
        b
    } else {
        c
    }
}

/// The place that a seek to `target` reaches; `None` where it is refused.
pub open spec fn reached(target: int) -> Option<u64> {
    if target < 0 {
        None
    } else {
        Some((target % 0x1_0000_0000_0000_0000) as u64)
    }
}

/// What a read of `want` bytes at `pos` comes to, where the blocks have `size`
/// bytes, the volume has `len`, and the requests go as `events` says: block after
/// block is asked for until enough bytes are there, the volume ends, or a request
/// fails. A block that does not reach `pos` counts as a failure. `None` where the
/// requests are not those that the read makes.
pub open spec fn fill(size: int, len: int, pos: int, want: int, events: Seq<ReadEvent>) -> Option<
    Fill,
>
    decreases events.len(),
{
    if want <= 0 || pos >= len {
        if events.len() == 0 {
            Some(Fill { bytes: Seq::empty(), pos, failed: None })
        } else {
            None
        }
    } else if events.len() == 0 || events[0].lba != pos / size {
        None
    } else {
        let off = pos % size;
        match events[0].reply {
            Reply::Block(block) if off < block.len() => {
                let n = least(block.len() - off, want, len - pos);
                match fill(size, len, pos + n, want - n, events.drop_first()) {
                    Some(rest) => Some(
                        Fill { bytes: block.subrange(off, off + n) + rest.bytes, ..rest },
                    ),
                    None => None,
                }
            },
            Reply::Block(_) => if events.len() == 1 {
                Some(
                    Fill {
                        bytes: Seq::empty(),
                        pos,
                        failed: Some((IoErrorKind::UnexpectedEof, "short block"@)),
                    },
                )
            } else {
                None
            },
            Reply::Failed(kind, message) => if events.len() == 1 {
                Some(Fill { bytes: Seq::empty(), pos, failed: Some((kind, message)) })
            } else {
                None
            },
        }
    }
}

impl<B: BlockSource> VolumeIo<B> {
    pub closed spec fn source(&self) -> B {
        self.src
    }

    pub closed spec fn position(&self) -> u64 {
        self.pos
    }

    /// The bytes on the volume.
    pub closed spec fn length(&self) -> int {
        self.extent.len as int
    }

    /// The bytes in a block of the volume.
    pub closed spec fn block(&self) -> int {
        self.extent.block as int
    }

    /// Whether `self` is the same volume as `other`, apart from the position and
    /// from what was asked of the disk.
    pub open spec fn same_extent(&self, other: &VolumeIo<B>) -> bool {
        self.length() == other.length() && self.block() == other.block()
    }

    /// The volume on a disk; its size in bytes must fit in 64 bits.
    pub fn new(src: B) -> (v: VolumeIo<B>)
        requires
            src.count() * src.size() <= u64::MAX,
        ensures
            v.source() == src,
            v.position() == 0,
            v.length() == src.count() * src.size(),
            v.block() == src.size(),
    {
        let block: usize = src.block_size();
        let count: u64 = src.block_count();
        VolumeIo { src, pos: 0, extent: Extent::new(count, block) }
    }

    /// Reads from the position on, and moves the position behind what was read.
    pub fn read_bytes(&mut self, buf: &mut [u8]) -> (r: Result<usize, IoError>)
        ensures
            final(self).same_extent(old(self)),
            ({
                let events = events_between(old(self).source(), final(self).source());
                &&& asked(old(self).source(), final(self).source(), events)
                &&& old(self).fill_with(old(buf).len() as int, events) matches Some(f) && {
                    &&& f.bytes.len() <= old(buf).len()
                    &&& final(self).position() == f.pos
                    &&& final(buf)@ == f.bytes + old(buf)@.skip(f.bytes.len() as int)
                    &&& match r {
                        Ok(n) => f.failed is None && n == f.bytes.len(),
                        Err(e) => f.failed == Some((e.kind, e.message@)),
                    }
                }
            }),
    {
        proof {
            use_type_invariant(&self.extent);
        }
        let mut written: usize = 0;
        let want: usize = buf.len();
        let ghost mut events = Seq::<ReadEvent>::empty();
        let ghost start = *self;
        let ghost before = buf@;
        proof {
            lemma_asked_nothing(self.src);
            assert forall|more: Seq<ReadEvent>|
                (#[trigger] start.fill_with(want as int, events + more)) == then_fill(
                    buf@.take(0),
                    self.fill_with(want as int, more),
                ) by {
                assert(events + more =~= more);
                lemma_then_fill_nothing(buf@.take(0), self.fill_with(want as int, more));
            }
        }
        while written < want && self.pos < self.extent.len
            invariant
                start == *old(self),
                before == old(buf)@,
                self.extent == start.extent,
                self.extent.wf(),
                written <= want == buf.len(),
                before.len() == want,
                asked(start.src, self.src, events),
                buf@.skip(written as int) == before.skip(written as int),
                forall|more: Seq<ReadEvent>|
                    (#[trigger] start.fill_with(want as int, events + more)) == then_fill(
                        buf@.take(written as int),
                        self.fill_with(want - written, more),
                    ),
            decreases want - written,
        {
            let lba: u64 = self.pos / self.extent.block as u64;
            let off: usize = (self.pos % self.extent.block as u64) as usize;
            let ghost mid = *self;
            let ghost had = buf@;
            let reply: Result<Vec<u8>, IoError> = self.src.read_block(lba);
            let ghost e = ReadEvent { lba, reply: reply_of(reply) };
            proof {
                lemma_asked_push(start.src, mid.src, self.src, events, e);
                assert(start.fill_with(want as int, events + seq![e]) == then_fill(
                    had.take(written as int),
                    mid.fill_with(want - written, seq![e]),
                ));
                assert(events + seq![e] =~= events.push(e));
                lemma_events_between(start.src, self.src, events.push(e));
                lemma_split(had, before, written as int);
                lemma_fill_fails(
                    mid.extent.block as int,
                    mid.extent.len as int,
                    mid.pos as int,
                    want - written,
                    e,
                );
            }
            match reply {
                Err(err) => {
                    return Err(err);
                },
                Ok(block) => {
                    if block.len() <= off {
                        return Err(IoError::new(IoErrorKind::UnexpectedEof, "short block"));
                    }
                    let mut n: usize = block.len() - off;
                    if want - written < n {
                        n = want - written;
                    }
                    if self.extent.len - self.pos < n as u64 {
                        n = (self.extent.len - self.pos) as usize;
                    }
                    put(buf, written, block.as_slice(), off, n);
                    let ghost part = block@.subrange(off as int, off + n);
                    written = written + n;
                    self.pos = self.pos + n as u64;
                    proof {
                        assert(buf@.skip(written as int) =~= had.skip(written - n).skip(n as int));
                        assert(before.skip(written as int) =~= before.skip(written - n).skip(
                            n as int,
                        ));
                        assert(buf@.take(written as int) =~= had.take(written - n) + part);
                        assert forall|more: Seq<ReadEvent>|
                            (#[trigger] start.fill_with(want as int, events.push(e) + more))
                                == then_fill(
                                buf@.take(written as int),
                                self.fill_with(want - written, more),
                            ) by {
                            assert(events + (seq![e] + more) =~= events.push(e) + more);
                            lemma_fill_goes_on(
                                mid.extent.block as int,
                                mid.extent.len as int,
                                mid.pos as int,
                                want - (written - n),
                                e,
                                more,
                            );
                            lemma_then_fill_twice(
                                had.take(written - n),
                                part,
                                self.fill_with(want - written, more),
                            );
                        }
                        events = events.push(e);
                    }
                },
            }
        }
        proof {
            assert(events + Seq::<ReadEvent>::empty() =~= events);
            assert(start.fill_with(want as int, events + Seq::<ReadEvent>::empty()) == then_fill(
                buf@.take(written as int),
                self.fill_with(want - written, Seq::empty()),
            ));
            assert(buf@.take(written as int) + Seq::<u8>::empty() =~= buf@.take(written as int));
            lemma_events_between(start.src, self.src, events);
            lemma_split(buf@, before, written as int);
        }
        Ok(written)
    }

    /// Moves the position. A place before the start is refused; one that 64 bits do
    /// not hold wraps around.
    pub fn seek_to(&mut self, to: SeekFrom) -> (r: Result<u64, IoError>)
        ensures
            final(self).same_extent(old(self)),
            final(self).source() == old(self).source(),
            r is Ok <==> old(self).seek_target(to) >= 0,
            r matches Ok(pos) ==> pos == final(self).position() && pos == old(self).seek_target(to)
                % 0x1_0000_0000_0000_0000,
            (match r {
                Ok(pos) => Some(pos),
                Err(_) => None,
            }) == reached(old(self).seek_target(to)),
            r matches Err(e) ==> final(self).position() == old(self).position() && is_error(
                e,
                IoErrorKind::InvalidInput,
                "seek before start"@,
            ),
    {
        let target: i128 = match to {
            SeekFrom::Start(n) => n as i128,
            SeekFrom::End(n) => self.extent.len as i128 + n as i128,
            SeekFrom::Current(n) => self.pos as i128 + n as i128,
        };
        if target < 0 {
            return Err(IoError::new(IoErrorKind::InvalidInput, "seek before start"));
        }
        let wrapped: u128 = target as u128 % 0x1_0000_0000_0000_0000;
        self.pos = wrapped as u64;
        Ok(self.pos)
    }

    /// The place that a seek asks for.
    pub open spec fn seek_target(&self, to: SeekFrom) -> int {
        match to {
            SeekFrom::Start(n) => n as int,
            SeekFrom::End(n) => self.length() + n,
            SeekFrom::Current(n) => self.position() + n,
        }
    }

    /// Refuses to write.
    pub fn write_bytes(&mut self, _buf: &[u8]) -> (r: Result<usize, IoError>)
        ensures
            *final(self) == *old(self),
            r matches Err(e) && is_error(
                e,
                IoErrorKind::PermissionDenied,
                "volume is read-only"@,
            ),
    {
        Err(IoError::new(IoErrorKind::PermissionDenied, "volume is read-only"))
    }

    /// What a read of `want` bytes comes to when the requests go as `events` says.
    pub open spec fn fill_with(&self, want: int, events: Seq<ReadEvent>) -> Option<Fill> {
        fill(
            self.block(),
            self.length(),
            self.position() as int,
            want,
            events,
        )
    }
}

impl<B: BlockSource> std::io::Read for VolumeIo<B> {
    /// Reads from the position on, and moves the position behind what was read.
    fn read(&mut self, buf: &mut [u8]) -> (r: std::io::Result<usize>)
        ensures
            final(self).same_extent(old(self)),
            ({
                let events = events_between(old(self).source(), final(self).source());
                &&& asked(old(self).source(), final(self).source(), events)
                &&& old(self).fill_with(old(buf).len() as int, events) matches Some(f) && {
                    &&& f.bytes.len() <= old(buf).len()
                    &&& final(self).position() == f.pos
                    &&& final(buf)@ == f.bytes + old(buf)@.skip(f.bytes.len() as int)
                    &&& match f.failed {
                        None => r matches Ok(n) && n == f.bytes.len(),
                        Some((kind, message)) => r matches Err(e) && is_std_error(
                            e,
                            kind,
                            message,
                        ),
                    }
                }
            }),
    {
        match self.read_bytes(buf) {
            Ok(n) => Ok(n),
            Err(e) => Err(std_error(e)),
        }
    }
}

impl<B: BlockSource> std::io::Seek for VolumeIo<B> {
    /// Moves the position. A place before the start is refused; one that 64 bits do
    /// not hold wraps around.
    fn seek(&mut self, to: SeekFrom) -> (r: std::io::Result<u64>)
        ensures
            final(self).same_extent(old(self)),
            final(self).source() == old(self).source(),
            r is Ok <==> old(self).seek_target(to) >= 0,
            r matches Ok(pos) ==> pos == final(self).position() && pos == old(self).seek_target(to)
                % 0x1_0000_0000_0000_0000,
            (match r {
                Ok(pos) => Some(pos),
                Err(_) => None,
            }) == reached(old(self).seek_target(to)),
            r matches Err(e) ==> final(self).position() == old(self).position() && is_std_error(
                e,
                IoErrorKind::InvalidInput,
                "seek before start"@,
            ),
    {
        match self.seek_to(to) {
            Ok(n) => Ok(n),
            Err(e) => Err(std_error(e)),
        }
    }
}

impl<B: BlockSource> std::io::Write for VolumeIo<B> {
    /// Refuses to write.
    fn write(&mut self, buf: &[u8]) -> (r: std::io::Result<usize>)
        ensures
            *final(self) == *old(self),
            r matches Err(e) && is_std_error(
                e,
                IoErrorKind::PermissionDenied,
                "volume is read-only"@,
            ),
    {
        match self.write_bytes(buf) {
            Ok(n) => Ok(n),
            Err(e) => Err(std_error(e)),
        }
    }

    /// There is nothing to flush.
    fn flush(&mut self) -> (r: std::io::Result<()>)
        ensures
            *final(self) == *old(self),
            r is Ok,
    {
        Ok(())
    }
}

/// What was read before, and what a further read comes to.
pub open spec fn then_fill(bytes: Seq<u8>, rest: Option<Fill>) -> Option<Fill> {
    match rest {
        Some(f) => Some(Fill { bytes: bytes + f.bytes, ..f }),
        None => None,
    }
}

/// Nothing before a read changes nothing.
proof fn lemma_then_fill_nothing(bytes: Seq<u8>, rest: Option<Fill>)
    requires
        bytes.len() == 0,
    ensures
        then_fill(bytes, rest) == rest,
{
    if let Some(f) = rest {
        assert(bytes + f.bytes =~= f.bytes);
    }
}

proof fn lemma_then_fill_twice(a: Seq<u8>, b: Seq<u8>, rest: Option<Fill>)
    ensures
        then_fill(a, then_fill(b, rest)) == then_fill(a + b, rest),
{
    if let Some(f) = rest {
        assert(a + (b + f.bytes) =~= a + b + f.bytes);
    }
}

/// A read goes on behind a block that reaches the position.
proof fn lemma_fill_goes_on(
    size: int,
    len: int,
    pos: int,
    want: int,
    e: ReadEvent,
    more: Seq<ReadEvent>,
)
    requires
        want > 0,
        pos < len,
        e.lba == pos / size,
    ensures
        e.reply matches Reply::Block(block) ==> pos % size < block.len() ==> {
            let off = pos % size;
            let n = least(block.len() - off, want, len - pos);
            fill(size, len, pos, want, seq![e] + more) == then_fill(
                block.subrange(off, off + n),
                fill(size, len, pos + n, want - n, more),
            )
        },
{
    let all = seq![e] + more;
    assert(all[0] == e);
    assert(all.drop_first() =~= more);
}

/// A read ends at a block that does not reach the position, or at an error.
proof fn lemma_fill_fails(size: int, len: int, pos: int, want: int, e: ReadEvent)
    requires
        want > 0,
        pos < len,
        e.lba == pos / size,
    ensures
        match e.reply {
            Reply::Block(block) => block.len() <= pos % size ==> fill(
                size,
                len,
                pos,
                want,
                seq![e],
            ) == Some(
                Fill {
                    bytes: Seq::empty(),
                    pos,
                    failed: Some((IoErrorKind::UnexpectedEof, "short block"@)),
                },
            ),
            Reply::Failed(kind, message) => fill(size, len, pos, want, seq![e]) == Some(
                Fill { bytes: Seq::empty(), pos, failed: Some((kind, message)) },
            ),
        },
{
}

/// A buffer is what was written to it, and what it held behind that.
proof fn lemma_split(now: Seq<u8>, before: Seq<u8>, n: int)
    requires
        now.len() == before.len(),
        0 <= n <= now.len(),
        now.skip(n) == before.skip(n),
    ensures
        now == now.take(n) + before.skip(n),
        now.take(n) + Seq::<u8>::empty() == now.take(n),
{
    assert(now =~= now.take(n) + now.skip(n));
    assert(now.take(n) + Seq::<u8>::empty() =~= now.take(n));
}

/// Copies `n` bytes of `src` from `from` on to `buf` from `at` on.
fn put(buf: &mut [u8], at: usize, src: &[u8], from: usize, n: usize)
    requires
        at + n <= old(buf).len(),
        from + n <= src.len(),
    ensures
        final(buf)@ == old(buf)@.take(at as int) + src@.subrange(from as int, from + n) + old(
            buf,
        )@.skip(at + n),
{
    let ghost before = buf@;
    let mut i: usize = 0;
    assert(buf@ =~= before.take(at as int) + src@.subrange(from as int, from + i) + before.skip(
        at + i,
    ));
    while i < n
        invariant
            i <= n,
            at + n <= buf.len(),
            from + n <= src.len(),
            buf@.len() == before.len(),
            buf@ == before.take(at as int) + src@.subrange(from as int, from + i) + before.skip(
                at + i,
            ),
        decreases n - i,
    {
        let b: u8 = src[from + i];
        buf[at + i] = b;
        i = i + 1;
        assert(buf@ =~= before.take(at as int) + src@.subrange(from as int, from + i)
            + before.skip(at + i));
    }
}

/// The position moves by the bytes read, at most to the end of the volume, and no
/// more bytes come than were wanted.
pub proof fn law_read_bounds(
    size: int,
    len: int,
    pos: int,
    want: int,
    events: Seq<ReadEvent>,
    f: Fill,
)
    requires
        size > 0,
        0 <= pos,
        0 <= want,
        fill(size, len, pos, want, events) == Some(f),
    ensures
        f.bytes.len() <= want,
        f.pos == pos + f.bytes.len(),
        pos <= len ==> f.pos <= len,
        f.failed is None ==> f.bytes.len() == want || f.pos >= len,
    decreases events.len(),
{
    if want > 0 && pos < len {
        let off = pos % size;
        match events[0].reply {
            Reply::Block(block) => {
                if off < block.len() {
                    let n = least(block.len() - off, want, len - pos);
                    let rest = fill(size, len, pos + n, want - n, events.drop_first());
                    law_read_bounds(size, len, pos + n, want - n, events.drop_first(), rest->0);
                }
            },
            Reply::Failed(_, _) => {},
        }
    }
}

/// A volume on an image reads as the bytes of the image: all that were wanted, or
/// all up to the last whole block.
pub proof fn law_volume_reads_image(
    bytes: Seq<u8>,
    pos: int,
    want: int,
    events: Seq<ReadEvent>,
    f: Fill,
)
    requires
        0 <= pos,
        0 <= want,
        forall|i: int|
            0 <= i < events.len() ==> image_answers(
                bytes,
                (#[trigger] events[i]).lba,
                events[i].reply,
            ),
        fill(
            IMAGE_BLOCK as int,
            whole_blocks(bytes),
            pos,
            want,
            events,
        ) == Some(f),
    ensures
        f.failed is None,
        f.bytes == image_range(bytes, pos, want),
    decreases events.len(),
{
    let size = IMAGE_BLOCK as int;
    let len = whole_blocks(bytes);
    if want > 0 && pos < len {
        let off = pos % size;
        let lba = pos / size;
        assert(events[0].lba == lba);
        assert(image_answers(bytes, events[0].lba, events[0].reply));
        assert(has_block(bytes, lba));
        let block = block_of(bytes, lba);
        let n = least(block.len() - off, want, len - pos);
        let rest = fill(size, len, pos + n, want - n, events.drop_first())->0;
        assert forall|i: int| 0 <= i < events.drop_first().len() implies image_answers(
            bytes,
            (#[trigger] events.drop_first()[i]).lba,
            events.drop_first()[i].reply,
        ) by {
            assert(events.drop_first()[i] == events[i + 1]);
        }
        law_volume_reads_image(bytes, pos + n, want - n, events.drop_first(), rest);
        assert(block.subrange(off, off + n) =~= bytes.subrange(pos, pos + n));
        assert(f.bytes =~= image_range(bytes, pos, want));
    }
}

/// The bytes in the whole blocks of an image.
pub open spec fn whole_blocks(bytes: Seq<u8>) -> int {
    bytes.len() / IMAGE_BLOCK as nat * IMAGE_BLOCK
}

/// Up to `want` bytes of an image from `pos` on.
pub open spec fn image_range(bytes: Seq<u8>, pos: int, want: int) -> Seq<u8> {
    let len = whole_blocks(bytes);
    if pos >= len {
        Seq::empty()
    } else if pos + want < len {
        bytes.subrange(pos, pos + want)
    } else {
        bytes.subrange(pos, len)
    }
}

/// A volume reads as the bytes of its disk, block behind block, whatever the size of a
/// block: as many as were wanted, or all up to the end.
pub proof fn law_volume_reads_disk(
    disk: spec_fn(u64) -> Seq<u8>,
    size: int,
    len: int,
    pos: int,
    want: int,
    events: Seq<ReadEvent>,
    f: Fill,
)
    requires
        size > 0,
        0 <= pos,
        0 <= want,
        len <= u64::MAX,
        forall|lba: u64| (#[trigger] disk(lba)).len() == size,
        forall|i: int|
            0 <= i < events.len() ==> (#[trigger] events[i]).reply == Reply::Block(
                disk(events[i].lba),
            ),
        fill(size, len, pos, want, events) == Some(f),
    ensures
        f.failed is None,
        pos >= len ==> f.bytes.len() == 0,
        pos < len && want <= len - pos ==> f.bytes.len() == want,
        pos < len && want > len - pos ==> f.bytes.len() == len - pos,
        f.pos == pos + f.bytes.len(),
        forall|i: int|
            0 <= i < f.bytes.len() ==> #[trigger] f.bytes[i] == disk(
                ((pos + i) / size) as u64,
            )[(pos + i) % size],
    decreases events.len(),
{
    law_read_bounds(size, len, pos, want, events, f);
    if want > 0 && pos < len {
        let off = pos % size;
        let more = events.drop_first();
        assert(events[0].reply == Reply::Block(disk(events[0].lba)));
        let lba = pos / size;
        let block = disk(lba as u64);
        let n = least(block.len() - off, want, len - pos);
        let rest = fill(size, len, pos + n, want - n, more)->0;
        assert forall|i: int| 0 <= i < more.len() implies (#[trigger] more[i]).reply
            == Reply::Block(disk(more[i].lba)) by {
            assert(more[i] == events[i + 1]);
        }
        law_volume_reads_disk(disk, size, len, pos + n, want - n, more, rest);
        vstd::arithmetic::div_mod::lemma_fundamental_div_mod(pos, size);
        assert forall|i: int| 0 <= i < f.bytes.len() implies #[trigger] f.bytes[i] == disk(
            ((pos + i) / size) as u64,
        )[(pos + i) % size] by {
            if i < n {
                assert(f.bytes[i] == block[off + i]);
                assert(pos + i == lba * size + (off + i)) by (nonlinear_arith)
                    requires
                        pos == size * lba + off,
                ;
                vstd::arithmetic::div_mod::lemma_fundamental_div_mod_converse(
                    pos + i,
                    size,
                    lba,
                    off + i,
                );
            } else {
                assert(f.bytes[i] == rest.bytes[i - n]);
                assert(pos + n + (i - n) == pos + i);
            }
        }
    }
}

/// A read ends at the first request that fails, with its error, and no other request is
/// made; a block that does not reach the position fails as one that is too short.
pub proof fn law_failure_ends_read(
    size: int,
    len: int,
    pos: int,
    want: int,
    events: Seq<ReadEvent>,
    f: Fill,
)
    requires
        size > 0,
        0 <= pos,
        fill(size, len, pos, want, events) == Some(f),
    ensures
        forall|i: int|
            0 <= i < events.len() - 1 ==> (#[trigger] events[i]).reply is Block,
        events.len() > 0 ==> match events.last().reply {
            Reply::Failed(kind, message) => f.failed == Some((kind, message)),
            Reply::Block(block) => f.failed is None || f.failed == Some(
                (IoErrorKind::UnexpectedEof, "short block"@),
            ) && block.len() <= f.pos % size,
        },
        events.len() == 0 ==> f.failed is None && f.bytes.len() == 0,
    decreases events.len(),
{
    if want > 0 && pos < len {
        let off = pos % size;
        let more = events.drop_first();
        match events[0].reply {
            Reply::Block(block) => {
                if off < block.len() {
                    let n = least(block.len() - off, want, len - pos);
                    let rest = fill(size, len, pos + n, want - n, more)->0;
                    law_failure_ends_read(size, len, pos + n, want - n, more, rest);
                    assert forall|i: int| 0 <= i < events.len() - 1 implies (
                    #[trigger] events[i]).reply is Block by {
                        if i > 0 {
                            assert(more[i - 1] == events[i]);
                        }
                    }
                    if more.len() > 0 {
                        assert(more.last() == events.last());
                    }
                }
            },
            Reply::Failed(_, _) => {},
        }
    }
}

/// A seek goes to a place from the start, from the end or from where the volume is.
pub proof fn law_seek_targets<B: BlockSource>(v: VolumeIo<B>, n: u64, d: i64)
    ensures
        v.seek_target(SeekFrom::Start(n)) == n,
        v.seek_target(SeekFrom::End(d)) == v.length() + d,
        v.seek_target(SeekFrom::Current(d)) == v.position() + d,
{
}

/// A seek reaches every place from the start on that 64 bits can count, exactly, and none
/// before the start; behind the last of them it begins at the start again.
pub proof fn law_places_are_reached(target: int)
    ensures
        target < 0 ==> reached(target) is None,
        0 <= target <= u64::MAX ==> (reached(target) matches Some(p) && p == target),
        0x1_0000_0000_0000_0000 <= target < 0x2_0000_0000_0000_0000 ==> (
        reached(target) matches Some(p) && p == target - 0x1_0000_0000_0000_0000),
{
}

} // verus!
