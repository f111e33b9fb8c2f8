//! The owner of a device, with a cache of tracks.
//!
//! A disk is read track by track. The first request for a block of a track reads all
//! of the track; the other blocks of the track then come from the cache.

use crate::block_source::asked;
use crate::block_source::events_between;
use crate::block_source::lemma_asked_nothing;
use crate::block_source::lemma_asked_push;
use crate::block_source::lemma_events_between;
use crate::block_source::reply_of;
use crate::block_source::unreadable;
use crate::block_source::unreadable_error;
use crate::block_source::BlockSource;
use crate::block_source::ReadEvent;
use crate::block_source::Reply;
use crate::bytes::copy;
use crate::bytes::zeros;
use crate::error::IoError;
use crate::error::IoErrorKind;
use crate::image::block_of;
use crate::image::has_block;
use crate::image::ImageFile;
use std::collections::HashMap;
use vstd::prelude::*;

verus! {

/// The device and its cache.
pub struct DeviceActor<B: BlockSource> {
    inner: B,
    spt: u64,
    block_size: usize,
    block_count: u64,
    /// All blocks of the tracks that were read, by the number of the track.
    cache: HashMap<u64, Vec<Vec<u8>>>,
    /// Where the volume is mounted that is to go when the disk goes.
    watch: Option<String>,
}

/// What a [`DeviceActor`] keeps.
#[verifier::ext_equal]
pub struct ActorView {
    pub spt: u64,
    pub size: usize,
    pub count: u64,
    pub cache: Map<u64, Seq<Seq<u8>>>,
    pub watch: Option<Seq<char>>,
}

/// What a list of blocks holds.
pub open spec fn block_views(v: Seq<Vec<u8>>) -> Seq<Seq<u8>> {
    Seq::new(v.len(), |i: int| v[i]@)
}

/// A block of zeros.
pub open spec fn zero_block(size: usize) -> Seq<u8> {
    Seq::new(size as nat, |i: int| 0u8)
}

impl ActorView {
    /// The first block of the track of `lba`.
    pub open spec fn base(self, lba: int) -> int {
        lba / self.spt as int * self.spt
    }

    /// How many blocks of the track that starts at `base` are on the disk.
    pub open spec fn on_disk(self, base: int) -> int {
        if self.count <= base {
            0
        } else if self.count - base < self.spt {
            self.count - base
        } else {
            self.spt as int
        }
    }

    /// Whether `events` are the requests that read the track at `base`, all of it:
    /// each of its blocks that are on the disk, in order.
    pub open spec fn reads_track(self, base: int, events: Seq<ReadEvent>) -> bool {
        &&& events.len() == self.on_disk(base)
        &&& forall|i: int|
            0 <= i < events.len() ==> (#[trigger] events[i]).lba == base + i
                && events[i].reply is Block
    }

    /// Whether `events` are the requests that read the track at `base` up to a
    /// failure.
    pub open spec fn fails_track(self, base: int, events: Seq<ReadEvent>) -> bool {
        &&& 0 < events.len() <= self.on_disk(base)
        &&& forall|i: int| 0 <= i < events.len() ==> (#[trigger] events[i]).lba == base + i
        &&& forall|i: int|
            0 <= i < events.len() - 1 ==> (#[trigger] events[i]).reply is Block
        &&& events.last().reply is Failed
    }

    /// The blocks of a track that was read; zeros behind the end of the disk.
    pub open spec fn track_blocks(self, events: Seq<ReadEvent>) -> Seq<Seq<u8>> {
        Seq::new(
            self.spt as nat,
            |i: int|
                if i < events.len() {
                    events[i].reply->Block_0
                } else {
                    zero_block(self.size)
                },
        )
    }

    /// What a request for block `lba` comes to, where the requests to the device go
    /// as `events` says. `None` where those are not the requests that are made.
    pub open spec fn read(self, lba: int, events: Seq<ReadEvent>) -> Option<(ActorView, Reply)> {
        let track = (lba / self.spt as int) as u64;
        let i = lba % self.spt as int;
        let base = self.base(lba);
        if self.cache.contains_key(track) {
            if events.len() == 0 {
                Some((self, Reply::Block(self.cache[track][i])))
            } else {
                None
            }
        } else if base + self.spt - 1 > u64::MAX {
            if events.len() == 0 {
                Some((self, unreadable()))
            } else {
                None
            }
        } else if self.reads_track(base, events) {
            let blocks = self.track_blocks(events);
            Some(
                (
                    ActorView { cache: self.cache.insert(track, blocks), ..self },
                    Reply::Block(blocks[i]),
                ),
            )
        } else if self.fails_track(base, events) {
            Some((self, events.last().reply))
        } else {
            None
        }
    }

    /// The volume that is to go after an answer, and what is watched then.
    pub open spec fn ejected(self, reply: Reply) -> (ActorView, Option<Seq<char>>) {
        if is_loss(reply) {
            (ActorView { watch: None, ..self }, self.watch)
        } else {
            (self, None)
        }
    }

    /// Whether the cache holds what the device may answer, and zeros behind the end.
    pub open spec fn holds_answers<B: BlockSource>(self, b: B) -> bool {
        &&& self.spt > 0
        &&& forall|t: u64|
            #[trigger] self.cache.contains_key(t) ==> self.cache[t].len() == self.spt
        &&& forall|t: u64, i: int|
            self.cache.contains_key(t) && 0 <= i < self.spt ==> self.right_block(
                b,
                t * self.spt + i,
                #[trigger] self.cache[t][i],
            )
    }

    /// Whether `block` may stand for block `lba`.
    pub open spec fn right_block<B: BlockSource>(self, b: B, lba: int, block: Seq<u8>) -> bool {
        if lba < self.count {
            b.may_answer(lba as u64, Reply::Block(block))
        } else {
            block == zero_block(self.size)
        }
    }
}

/// The owner of a device of which nothing was read yet.
pub open spec fn new_owner(size: usize, count: u64, spt: u64) -> ActorView {
    ActorView {
        spt: if spt == 0 {
            1
        } else {
            spt
        },
        size,
        count,
        cache: Map::empty(),
        watch: None,
    }
}

impl<B: BlockSource> View for DeviceActor<B> {
    type V = ActorView;

    closed spec fn view(&self) -> ActorView {
        ActorView {
            spt: self.spt,
            size: self.block_size,
            count: self.block_count,
            cache: self.cache@.map_values(|v: Vec<Vec<u8>>| block_views(v@)),
            watch: match self.watch {
                Some(s) => Some(s@),
                None => None,
            },
        }
    }
}

impl<B: BlockSource> DeviceActor<B> {
    pub closed spec fn device(&self) -> B {
        self.inner
    }

    /// Whether the cache tells the truth of the device.
    pub open spec fn wf(&self) -> bool {
        &&& self@.holds_answers(self.device())
        &&& self@.size == self.device().size()
        &&& self@.count == self.device().count()
    }

    /// The owner of `inner`, with `spt` blocks to a track, at least one.
    pub fn new(inner: B, spt: u64) -> (a: DeviceActor<B>)
        ensures
            a.wf(),
            a.device() == inner,
            a@ == (ActorView {
                spt: if spt == 0 { 1 } else { spt },
                size: inner.size(),
                count: inner.count(),
                cache: Map::empty(),
                watch: None,
            }),
            a@ == new_owner(inner.size(), inner.count(), spt),
    {
        broadcast use vstd::std_specs::hash::group_hash_axioms;

        let block_size: usize = inner.block_size();
        let block_count: u64 = inner.block_count();
        let spt: u64 = if spt == 0 {
            1
        } else {
            spt
        };
        let a = DeviceActor {
            inner,
            spt,
            block_size,
            block_count,
            cache: HashMap::new(),
            watch: None,
        };
        assert(a@.cache =~= Map::<u64, Seq<Seq<u8>>>::empty());
        a
    }

    /// Reads all blocks of the track that starts at `base`.
    fn read_track(&mut self, base: u64) -> (r: Result<Vec<Vec<u8>>, IoError>)
        requires
            old(self).wf(),
            base + old(self)@.spt - 1 <= u64::MAX,
        ensures
            final(self)@ == old(self)@,
            ({
                let events = events_between(old(self).device(), final(self).device());
                &&& asked(old(self).device(), final(self).device(), events)
                &&& match r {
                    Ok(blocks) => old(self)@.reads_track(base as int, events) && block_views(
                        blocks@,
                    ) == old(self)@.track_blocks(events),
                    Err(e) => old(self)@.fails_track(base as int, events) && events.last().reply
                        == Reply::Failed(e.kind, e.message@),
                }
            }),
    {
        let mut blocks: Vec<Vec<u8>> = Vec::new();
        let mut i: u64 = 0;
        let ghost start = *self;
        let ghost mut events = Seq::<ReadEvent>::empty();
        proof {
            lemma_asked_nothing(self.inner);
        }
        while i < self.spt
            invariant
                start == *old(self),
                self@ == start@,
                base + self.spt - 1 <= u64::MAX,
                i <= self.spt,
                asked(start.inner, self.inner, events),
                events.len() == (if i <= start@.on_disk(base as int) {
                    i as int
                } else {
                    start@.on_disk(base as int)
                }),
                forall|k: int|
                    0 <= k < events.len() ==> (#[trigger] events[k]).lba == base + k
                        && events[k].reply is Block,
                blocks.len() == i,
                forall|k: int|
                    0 <= k < i ==> (#[trigger] blocks@[k])@ == (if k < events.len() {
                        events[k].reply->Block_0
                    } else {
                        zero_block(start@.size)
                    }),
            decreases self.spt - i,
        {
            let lba: u64 = base + i;
            if lba >= self.block_count {
                blocks.push(zeros(self.block_size));
            } else {
                let ghost mid = *self;
                let reply: Result<Vec<u8>, IoError> = self.inner.read_block(lba);
                let ghost e = ReadEvent { lba, reply: reply_of(reply) };
                proof {
                    lemma_asked_push(start.inner, mid.inner, self.inner, events, e);
                    events = events.push(e);
                }
                match reply {
                    Ok(block) => blocks.push(block),
                    Err(err) => {
                        proof {
                            lemma_events_between(start.inner, self.inner, events);
                        }
                        return Err(err);
                    },
                }
            }
            i = i + 1;
        }
        proof {
            lemma_events_between(start.inner, self.inner, events);
            assert(block_views(blocks@) =~= start@.track_blocks(events));
        }
        Ok(blocks)
    }

    /// Reads a block, from the cache if its track was read before.
    pub fn cached_read(&mut self, lba: u64) -> (r: Result<Vec<u8>, IoError>)
        requires
            old(self).wf(),
        ensures
            final(self).wf(),
            ({
                let events = events_between(old(self).device(), final(self).device());
                &&& asked(old(self).device(), final(self).device(), events)
                &&& old(self)@.read(lba as int, events) == Some((final(self)@, reply_of(r)))
            }),
            r matches Ok(block) ==> old(self)@.right_block(
                old(self).device(),
                lba as int,
                block@,
            ),
    {
        broadcast use vstd::std_specs::hash::group_hash_axioms;

        let track: u64 = lba / self.spt;
        let index: u64 = lba % self.spt;
        let ghost start = *self;
        proof {
            vstd::arithmetic::div_mod::lemma_fundamental_div_mod(lba as int, self.spt as int);
            assert(track * self.spt == self.spt * track) by (nonlinear_arith);
            lemma_asked_nothing(self.inner);
            lemma_events_between(self.inner, self.inner, Seq::empty());
        }
        if !self.cache.contains_key(&track) {
            let base: u64 = track * self.spt;
            if self.spt - 1 > u64::MAX - base {
                return Err(unreadable_error());
            }
            match self.read_track(base) {
                Err(e) => {
                    proof {
                        lemma_answers_stay(start@, start.inner, self.inner);
                        let events = events_between(start.inner, self.inner);
                        assert(!start@.reads_track(base as int, events)) by {
                            assert(events[events.len() - 1].reply is Failed);
                        }
                    }
                    return Err(e);
                },
                Ok(blocks) => {
                    let ghost events = events_between(start.inner, self.inner);
                    let ghost views = block_views(blocks@);
                    self.cache.insert(track, blocks);
                    proof {
                        assert(self@.cache =~= start@.cache.insert(track, views));
                        lemma_answers_stay(start@, start.inner, self.inner);
                        lemma_answers_grow(start@, start.inner, self.inner, track, events);
                    }
                },
            }
        }
        proof {
            assert(self@.cache.contains_key(track));
            assert(start@.right_block(start.inner, lba as int, self@.cache[track][index as int])
                == self@.right_block(self.inner, lba as int, self@.cache[track][index as int]));
            assert(self@.right_block(
                self.inner,
                track * self.spt + index,
                self@.cache[track][index as int],
            ));
            assert(self@.cache[track].len() == self.spt);
        }
        match self.cache.get(&track) {
            Some(blocks) => {
                assert(block_views(blocks@) == self@.cache[track]);
                assert(index < blocks.len());
                let i: usize = index as usize;
                assert(self@.cache[track][index as int] == blocks@[i as int]@);
                Ok(copy(blocks[i].as_slice()))
            },
            None => Err(unreadable_error()),
        }
    }

    /// Asks that the volume at `mountpoint` goes when the disk goes.
    pub fn watch_eject(&mut self, mountpoint: String)
        ensures
            final(self)@ == (ActorView { watch: Some(mountpoint@), ..old(self)@ }),
            final(self).device() == old(self).device(),
    {
        self.watch = Some(mountpoint);
    }

    /// Says which volume is to go after the answer `r`: the one that is watched, if
    /// the disk is gone. It is named only once.
    pub fn check_eject(&mut self, r: &Result<Vec<u8>, IoError>) -> (gone: Option<String>)
        ensures
            final(self).device() == old(self).device(),
            (match gone {
                Some(s) => Some(s@),
                None => None,
            }) == (if is_loss(reply_of(*r)) {
                old(self)@.watch
            } else {
                None
            }),
            final(self)@ == (if is_loss(reply_of(*r)) {
                ActorView { watch: None, ..old(self)@ }
            } else {
                old(self)@
            }),
            (final(self)@, match gone {
                Some(s) => Some(s@),
                None => None,
            }) == old(self)@.ejected(reply_of(*r)),
    {
        let lost: bool = match r {
            Err(e) => e.kind == IoErrorKind::NotConnected,
            Ok(_) => false,
        };
        if !lost {
            return None;
        }
        self.watch.take()
    }
}

/// Whether an answer says that the disk is gone.
pub open spec fn is_loss(reply: Reply) -> bool {
    reply matches Reply::Failed(kind, _) && kind == IoErrorKind::NotConnected
}

/// What the cache holds stays right when the device was asked more.
proof fn lemma_answers_stay<B: BlockSource>(v: ActorView, before: B, after: B)
    requires
        v.holds_answers(before),
        asked(before, after, events_between(before, after)),
    ensures
        v.holds_answers(after),
{
    assert forall|t: u64, i: int|
        v.cache.contains_key(t) && 0 <= i < v.spt implies v.right_block(
        after,
        t * v.spt + i,
        #[trigger] v.cache[t][i],
    ) by {
        let lba = t * v.spt + i;
        let block = v.cache[t][i];
        assert(v.right_block(before, lba, block));
        assert(after.may_answer(lba as u64, Reply::Block(block)) == before.may_answer(
            lba as u64,
            Reply::Block(block),
        ));
    }
}

/// The blocks of a track that was read are right.
proof fn lemma_answers_grow<B: BlockSource>(
    v: ActorView,
    before: B,
    after: B,
    track: u64,
    events: Seq<ReadEvent>,
)
    requires
        v.holds_answers(after),
        asked(before, after, events),
        v.reads_track(track * v.spt, events),
        track * v.spt + v.spt - 1 <= u64::MAX,
    ensures
        (ActorView {
            cache: v.cache.insert(track, v.track_blocks(events)),
            ..v
        }).holds_answers(after),
{
    let blocks = v.track_blocks(events);
    let next = ActorView { cache: v.cache.insert(track, blocks), ..v };
    assert forall|t: u64, i: int|
        next.cache.contains_key(t) && 0 <= i < next.spt implies next.right_block(
        after,
        t * next.spt + i,
        #[trigger] next.cache[t][i],
    ) by {
        if t == track {
            let lba = t * v.spt + i;
            if i < events.len() {
                assert(events[i].lba == lba && events[i].reply is Block);
                assert(events[i].reply == Reply::Block(blocks[i]));
                assert(before.may_answer(events[i].lba, events[i].reply));
                assert(after.may_answer(events[i].lba, events[i].reply));
            }
        } else {
            assert(v.right_block(after, t * v.spt + i, v.cache[t][i]));
        }
    }
}

/// A track is read once: when a block was read, any block of the same track comes
/// without a request to the device, and is the one that the first read brought.
pub proof fn law_track_is_read_once(
    v: ActorView,
    lba: int,
    events: Seq<ReadEvent>,
    after: ActorView,
    block: Seq<u8>,
    again: int,
)
    requires
        v.spt > 0,
        0 <= lba <= u64::MAX,
        0 <= again <= u64::MAX,
        v.read(lba, events) == Some((after, Reply::Block(block))),
        again / v.spt as int == lba / v.spt as int,
    ensures
        ({
            let track = (lba / v.spt as int) as u64;
            &&& after.read(again, Seq::empty()) == Some(
                (after, Reply::Block(after.cache[track][again % v.spt as int])),
            )
            &&& forall|e: Seq<ReadEvent>| (#[trigger] after.read(again, e)) is Some ==> e.len() == 0
        }),
{
}

/// The first read of a track asks for each of its blocks that are on the disk, once
/// and in order.
pub proof fn law_track_is_read_whole(
    v: ActorView,
    lba: int,
    events: Seq<ReadEvent>,
    after: ActorView,
    block: Seq<u8>,
)
    requires
        v.spt > 0,
        0 <= lba <= u64::MAX,
        !v.cache.contains_key((lba / v.spt as int) as u64),
        v.read(lba, events) == Some((after, Reply::Block(block))),
    ensures
        events.len() == v.on_disk(v.base(lba)),
        forall|i: int| 0 <= i < events.len() ==> (#[trigger] events[i]).lba == v.base(lba) + i,
{
}

/// Behind the end of the disk there are zeros.
pub proof fn law_zeros_behind_end<B: BlockSource>(v: ActorView, b: B, lba: int, block: Seq<u8>)
    requires
        v.right_block(b, lba, block),
        lba >= v.count,
    ensures
        block == zero_block(v.size),
{
}

/// What comes from the cache over an image is what the image holds.
pub proof fn law_cache_over_image(v: ActorView, image: ImageFile, lba: int, block: Seq<u8>)
    requires
        v.right_block(image, lba, block),
        0 <= lba < v.count,
    ensures
        has_block(image.bytes(), lba),
        block == block_of(image.bytes(), lba),
{
}

/// A failed read leaves the cache as it was, and hands on the failure of the last
/// request.
pub proof fn law_failure_is_not_cached(
    v: ActorView,
    lba: int,
    events: Seq<ReadEvent>,
    after: ActorView,
    kind: IoErrorKind,
    message: Seq<char>,
)
    requires
        v.spt > 0,
        0 <= lba <= u64::MAX,
        v.read(lba, events) == Some((after, Reply::Failed(kind, message))),
    ensures
        after == v,
        events.len() > 0 ==> events.last().reply == Reply::Failed(kind, message),
{
}

/// A block that was asked for first comes from the track around it: of the blocks from
/// the last multiple of the track length on, each that is on the disk is asked for once,
/// in order, and the answer is the reply to the request for the block, or zeros where the
/// disk has ended before it.
pub proof fn law_block_comes_from_its_track(
    v: ActorView,
    lba: int,
    events: Seq<ReadEvent>,
    after: ActorView,
    block: Seq<u8>,
)
    requires
        v.spt > 0,
        0 <= lba <= u64::MAX,
        !v.cache.contains_key((lba / v.spt as int) as u64),
        v.read(lba, events) == Some((after, Reply::Block(block))),
    ensures
        ({
            let i = lba % v.spt as int;
            let start = lba - i;
            &&& start + v.spt <= v.count ==> events.len() == v.spt
            &&& start < v.count < start + v.spt ==> events.len() == v.count - start
            &&& v.count <= start ==> events.len() == 0
            &&& forall|k: int| 0 <= k < events.len() ==> (#[trigger] events[k]).lba == start + k
            &&& i < events.len() ==> events[i].reply == Reply::Block(block)
            &&& i >= events.len() ==> block.len() == v.size && forall|k: int|
                0 <= k < block.len() ==> #[trigger] block[k] == 0
        }),
        after.spt == v.spt && after.size == v.size && after.count == v.count && after.watch
            == v.watch,
{
    let spt = v.spt as int;
    vstd::arithmetic::div_mod::lemma_fundamental_div_mod(lba, spt);
    assert(lba / spt * spt == spt * (lba / spt)) by (nonlinear_arith);
    assert(v.base(lba) == lba - lba % spt);
}

/// A block of a track that was read comes as it was read, and nothing is asked for.
pub proof fn law_cached_block_is_given(v: ActorView, t: u64, i: int)
    requires
        0 <= i < v.spt,
        v.cache.contains_key(t),
    ensures
        v.read(t * v.spt + i, Seq::empty()) == Some((v, Reply::Block(v.cache[t][i]))),
{
    let spt = v.spt as int;
    vstd::arithmetic::div_mod::lemma_fundamental_div_mod_converse(t * v.spt + i, spt, t as int, i);
}

/// Only the loss of the disk counts as its loss.
pub proof fn law_only_loss_is_loss(kind: IoErrorKind, message: Seq<char>, block: Seq<u8>)
    ensures
        is_loss(Reply::Failed(kind, message)) <==> kind == IoErrorKind::NotConnected,
        !is_loss(Reply::Block(block)),
{
}

/// Whether a read that fails has reached its block or not, the requests before the last
/// were all answered.
pub proof fn law_failure_stops_the_track(
    v: ActorView,
    lba: int,
    events: Seq<ReadEvent>,
    after: ActorView,
    kind: IoErrorKind,
    message: Seq<char>,
)
    requires
        v.spt > 0,
        0 <= lba <= u64::MAX,
        lba + v.spt <= u64::MAX,
        !v.cache.contains_key((lba / v.spt as int) as u64),
        v.read(lba, events) == Some((after, Reply::Failed(kind, message))),
    ensures
        events.len() > 0,
        events.last().reply == Reply::Failed(kind, message),
        events.last().lba < v.count,
        forall|k: int| 0 <= k < events.len() ==> (#[trigger] events[k]).lba == lba - lba
            % v.spt as int + k,
        forall|k: int| 0 <= k < events.len() - 1 ==> (#[trigger] events[k]).reply is Block,
{
    let spt = v.spt as int;
    vstd::arithmetic::div_mod::lemma_fundamental_div_mod(lba, spt);
    assert(lba / spt * spt == spt * (lba / spt)) by (nonlinear_arith);
    assert(v.base(lba) == lba - lba % spt);
    if events.len() > 0 {
        assert(events[events.len() - 1].lba == v.base(lba) + (events.len() - 1));
    }
}

/// A track that 64 bits cannot count is not read.
pub proof fn law_track_must_be_counted(v: ActorView, lba: int)
    requires
        v.spt > 0,
        0 <= lba <= u64::MAX,
        lba - lba % v.spt as int + v.spt > 0x1_0000_0000_0000_0000,
        !v.cache.contains_key((lba / v.spt as int) as u64),
    ensures
        v.read(lba, Seq::empty()) == Some(
            (v, Reply::Failed(IoErrorKind::Other, "паника при чтении блока"@)),
        ),
{
    let spt = v.spt as int;
    vstd::arithmetic::div_mod::lemma_fundamental_div_mod(lba, spt);
    assert(lba / spt * spt == spt * (lba / spt)) by (nonlinear_arith);
}

/// An owner begins with an empty cache, and the track length that it was given, or one
/// block where it was given none.
pub proof fn law_owner_begins_empty(size: usize, count: u64, spt: u64)
    ensures
        ({
            let v = new_owner(size, count, spt);
            &&& spt > 0 ==> v.spt == spt
            &&& spt == 0 ==> v.spt == 1
            &&& v.size == size && v.count == count
            &&& v.cache == Map::<u64, Seq<Seq<u8>>>::empty()
            &&& v.watch is None
        }),
{
}

/// The loss of the disk names the volume that is watched, once; nothing else names it, and
/// nothing but the watch changes.
pub proof fn law_loss_names_volume_once(v: ActorView, m: Seq<char>, a: Seq<char>, b: Seq<char>, reply: Reply)
    requires
        v.watch == Some(m),
    ensures
        v.ejected(Reply::Failed(IoErrorKind::NotConnected, a)).1 == Some(m),
        v.ejected(Reply::Failed(IoErrorKind::NotConnected, a)).0.ejected(
            Reply::Failed(IoErrorKind::NotConnected, b),
        ).1 is None,
        v.ejected(Reply::Failed(IoErrorKind::NotConnected, a)).0.cache == v.cache,
        !(reply matches Reply::Failed(kind, _) && kind == IoErrorKind::NotConnected) ==> v.ejected(
            reply,
        ) == (v, None::<Seq<char>>),
{
}

/// A track one of whose requests fails is a failure, whichever of them it is, with the
/// error of that request, and nothing of it is kept.
pub proof fn law_failed_request_fails_track(
    v: ActorView,
    lba: int,
    events: Seq<ReadEvent>,
    kind: IoErrorKind,
    message: Seq<char>,
)
    requires
        v.spt > 0,
        0 <= lba,
        lba + v.spt <= u64::MAX,
        !v.cache.contains_key((lba / v.spt as int) as u64),
        0 < events.len() <= v.spt,
        lba - lba % v.spt as int + events.len() <= v.count,
        forall|k: int| 0 <= k < events.len() ==> (#[trigger] events[k]).lba == lba - lba
            % v.spt as int + k,
        forall|k: int| 0 <= k < events.len() - 1 ==> (#[trigger] events[k]).reply is Block,
        events.last().reply == Reply::Failed(kind, message),
    ensures
        v.read(lba, events) == Some((v, Reply::Failed(kind, message))),
{
    let spt = v.spt as int;
    vstd::arithmetic::div_mod::lemma_fundamental_div_mod(lba, spt);
    assert(lba / spt * spt == spt * (lba / spt)) by (nonlinear_arith);
    let base = v.base(lba);
    assert(base == lba - lba % spt);
    assert(events[events.len() - 1].reply is Failed);
    assert(!v.reads_track(base, events));
    assert(v.fails_track(base, events));
}

} // verus!
