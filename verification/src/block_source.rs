//! Where the bytes of a disk come from.

use crate::error::IoError;
use crate::error::IoErrorKind;
use vstd::prelude::*;

verus! {

/// The answer to a request for one block.
pub enum Reply {
    Block(Seq<u8>),
    Failed(IoErrorKind, Seq<char>),
}

/// One request for a block, and its answer.
pub struct ReadEvent {
    pub lba: u64,
    pub reply: Reply,
}

pub open spec fn reply_of(r: Result<Vec<u8>, IoError>) -> Reply {
    match r {
        Ok(block) => Reply::Block(block@),
        Err(e) => Reply::Failed(e.kind, e.message@),
    }
}

/// A disk that is read block by block, each block under its number.
///
/// An implementation says what its size, its blocks and its history are. What stands
/// here for them is some function of the value, of which nothing is known.
pub trait BlockSource {
    /// The bytes in a block.
    closed spec fn size(&self) -> usize {
        arbitrary::<spec_fn(&Self) -> usize>()(self)
    }

    /// The blocks on the disk.
    closed spec fn count(&self) -> u64 {
        arbitrary::<spec_fn(&Self) -> u64>()(self)
    }

    /// All blocks that were asked for so far, with the answers.
    closed spec fn history(&self) -> Seq<ReadEvent> {
        arbitrary::<spec_fn(&Self) -> Seq<ReadEvent>>()(self)
    }

    /// Whether the disk may answer a request for block `lba` like this.
    closed spec fn may_answer(&self, lba: u64, reply: Reply) -> bool {
        arbitrary::<spec_fn(&Self, u64, Reply) -> bool>()(self, lba, reply)
    }

    fn block_size(&self) -> (r: usize)
        ensures
            r == self.size(),
    ;

    fn block_count(&self) -> (r: u64)
        ensures
            r == self.count(),
    ;

    /// Reads one block. A block may be shorter or longer than announced where the
    /// disk is not formatted as it says.
    fn read_block(&mut self, lba: u64) -> (r: Result<Vec<u8>, IoError>)
        ensures
            final(self).size() == old(self).size(),
            final(self).count() == old(self).count(),
            final(self).history() == old(self).history().push(
                ReadEvent { lba, reply: reply_of(r) },
            ),
            old(self).may_answer(lba, reply_of(r)),
            forall|l: u64, a: Reply|
                #[trigger] final(self).may_answer(l, a) == old(self).may_answer(l, a),
    ;
}

/// The answer to a request that could not be carried out.
pub open spec fn unreadable() -> Reply {
    Reply::Failed(IoErrorKind::Other, "паника при чтении блока"@)
}

pub fn unreadable_error() -> (e: IoError)
    ensures
        unreadable() == Reply::Failed(e.kind, e.message@),
{
    IoError::new(IoErrorKind::Other, "паника при чтении блока")
}

/// Whether `after` is `before` after the requests `events`.
pub open spec fn asked<B: BlockSource>(before: B, after: B, events: Seq<ReadEvent>) -> bool {
    &&& after.size() == before.size()
    &&& after.count() == before.count()
    &&& after.history() == before.history() + events
    &&& forall|l: u64, a: Reply| #[trigger] after.may_answer(l, a) == before.may_answer(l, a)
    &&& forall|i: int|
        0 <= i < events.len() ==> before.may_answer(
            (#[trigger] events[i]).lba,
            events[i].reply,
        )
}

pub proof fn lemma_asked_nothing<B: BlockSource>(b: B)
    ensures
        asked(b, b, Seq::empty()),
{
    assert(b.history() + Seq::<ReadEvent>::empty() =~= b.history());
}

/// One more request.
pub proof fn lemma_asked_push<B: BlockSource>(
    a: B,
    b: B,
    c: B,
    events: Seq<ReadEvent>,
    e: ReadEvent,
)
    requires
        asked(a, b, events),
        c.size() == b.size(),
        c.count() == b.count(),
        c.history() == b.history().push(e),
        b.may_answer(e.lba, e.reply),
        forall|l: u64, r: Reply| #[trigger] c.may_answer(l, r) == b.may_answer(l, r),
    ensures
        asked(a, c, events.push(e)),
{
    assert(c.history() =~= a.history() + events.push(e));
    assert forall|l: u64, r: Reply| #[trigger] c.may_answer(l, r) == a.may_answer(l, r) by {
        assert(b.may_answer(l, r) == a.may_answer(l, r));
    }
    assert(a.may_answer(e.lba, e.reply) == b.may_answer(e.lba, e.reply));
    let all = events.push(e);
    assert forall|i: int| 0 <= i < all.len() implies a.may_answer(
        (#[trigger] all[i]).lba,
        all[i].reply,
    ) by {
        if i < events.len() {
            assert(all[i] == events[i]);
        }
    }
}

/// The requests between two states that follow one another.
pub open spec fn events_between<B: BlockSource>(before: B, after: B) -> Seq<ReadEvent> {
    after.history().skip(before.history().len() as int)
}

pub proof fn lemma_events_between<B: BlockSource>(before: B, after: B, events: Seq<ReadEvent>)
    requires
        asked(before, after, events),
    ensures
        events_between(before, after) == events,
{
    assert(events_between(before, after) =~= events);
}

} // verus!
