//! A directory on its way into answers that may be too small for it.

use super::dir_replies;
use super::law_listing_goes_on;
use super::readdir;
use super::reply_views;
use super::DirReply;
use super::ReplyView;
use crate::fs::entry_views;
use crate::fs::DirEntry;
use crate::fs::EntryView;
use vstd::prelude::*;

verus! {

/// The entries that are still to be added to an answer.
#[derive(Debug)]
pub struct Listing {
    replies: Vec<DirReply>,
    at: usize,
}

/// What to do next.
#[derive(Debug)]
pub enum ListStep {
    /// Add this entry, and say whether the answer was full.
    Add(DirReply),
    /// Send the answer.
    Send,
    /// Answer that this is no directory.
    NotDirectory,
}

/// What a [`ListStep`] says.
pub enum ListStepView {
    Add(ReplyView),
    Send,
    NotDirectory,
}

impl View for ListStep {
    type V = ListStepView;

    open spec fn view(&self) -> ListStepView {
        match self {
            ListStep::Add(r) => ListStepView::Add(r@),
            ListStep::Send => ListStepView::Send,
            ListStep::NotDirectory => ListStepView::NotDirectory,
        }
    }
}

impl View for Listing {
    type V = Seq<ReplyView>;

    closed spec fn view(&self) -> Seq<ReplyView> {
        reply_views(self.replies@).skip(self.at as int)
    }
}

/// The next step where the entries `rest` are left, and what is left behind it.
pub open spec fn next_step(rest: Seq<ReplyView>) -> (Seq<ReplyView>, ListStepView) {
    if rest.len() == 0 {
        (rest, ListStepView::Send)
    } else {
        (rest.skip(1), ListStepView::Add(rest[0]))
    }
}

/// The step behind an entry, and what is left behind it.
pub open spec fn behind_entry(rest: Seq<ReplyView>, full: bool) -> (Seq<ReplyView>, ListStepView) {
    if full {
        (rest, ListStepView::Send)
    } else {
        next_step(rest)
    }
}

impl Listing {
    #[verifier::type_invariant]
    spec fn wf(&self) -> bool {
        self.at <= self.replies.len()
    }

    /// Begins the answer to a request for the entries of node `ino` from number
    /// `offset` on. `children` are its entries, where it is a directory.
    pub fn start(ino: u64, children: &Option<Vec<DirEntry>>, offset: u64) -> (r: (
        Listing,
        ListStep,
    ))
        requires
            children matches Some(v) ==> v.len() + 2 <= u64::MAX,
        ensures
            (r.0@, r.1@) == (match *children {
                None => (Seq::empty(), ListStepView::NotDirectory),
                Some(v) => next_step(dir_replies(ino, entry_views(v@), offset as int)),
            }),
    {
        match children {
            None => {
                let rest: Listing = Listing { replies: Vec::new(), at: 0 };
                assert(rest@ =~= Seq::empty());
                (rest, ListStep::NotDirectory)
            },
            Some(v) => {
                let mut rest: Listing = Listing { replies: readdir(ino, v, offset), at: 0 };
                assert(rest@ =~= dir_replies(ino, entry_views(v@), offset as int));
                let step: ListStep = rest.advance();
                (rest, step)
            },
        }
    }

    /// Takes the next entry.
    fn advance(&mut self) -> (step: ListStep)
        ensures
            (final(self)@, step@) == next_step(old(self)@),
    {
        proof {
            use_type_invariant(&*self);
        }
        let ghost rest = self@;
        if self.at >= self.replies.len() {
            return ListStep::Send;
        }
        let r: &DirReply = &self.replies[self.at];
        assert(r@ == rest[0]);
        let step: ListStep = ListStep::Add(
            DirReply { ino: r.ino, next: r.next, kind: r.kind, name: r.name.clone() },
        );
        self.at = self.at + 1;
        assert(self@ =~= rest.skip(1));
        step
    }

    /// Goes on behind an entry. Where the answer was full, the entry is not in it, and
    /// nothing is added any more.
    pub fn added(&mut self, full: bool) -> (step: ListStep)
        ensures
            full ==> step@ == ListStepView::Send && final(self)@ == old(self)@,
            !full ==> (final(self)@, step@) == next_step(old(self)@),
            (final(self)@, step@) == behind_entry(old(self)@, full),
    {
        if full {
            ListStep::Send
        } else {
            self.advance()
        }
    }
}

/// The entries that come into one answer, where `full` says of each in turn whether
/// the answer was full.
pub open spec fn sent(rest: Seq<ReplyView>, full: Seq<bool>) -> Seq<ReplyView>
    decreases full.len(),
{
    match next_step(rest) {
        (left, ListStepView::Add(r)) if full.len() > 0 && !full[0] => seq![r] + sent(
            left,
            full.drop_first(),
        ),
        _ => Seq::empty(),
    }
}

/// Where to go on behind the entries of an answer.
pub open spec fn resumed(offset: int, piece: Seq<ReplyView>) -> int {
    if piece.len() == 0 {
        offset
    } else {
        piece.last().next as int
    }
}

/// The entries that come into a row of answers, each asked for from where the one
/// before it ended.
pub open spec fn told(
    ino: u64,
    children: Seq<EntryView>,
    offset: int,
    answers: Seq<Seq<bool>>,
) -> Seq<ReplyView>
    decreases answers.len(),
{
    if answers.len() == 0 {
        Seq::empty()
    } else {
        let piece = sent(dir_replies(ino, children, offset), answers[0]);
        piece + told(ino, children, resumed(offset, piece), answers.drop_first())
    }
}

/// One answer holds the first of the entries that are left, and at least one where
/// there is room for one.
pub proof fn law_answer_is_a_beginning(rest: Seq<ReplyView>, full: Seq<bool>)
    ensures
        sent(rest, full).len() <= rest.len(),
        sent(rest, full) == rest.take(sent(rest, full).len() as int),
        rest.len() > 0 && full.len() > 0 && !full[0] ==> sent(rest, full).len() > 0,
    decreases full.len(),
{
    if rest.len() > 0 && full.len() > 0 && !full[0] {
        law_answer_is_a_beginning(rest.skip(1), full.drop_first());
        let tail = sent(rest.skip(1), full.drop_first());
        assert(sent(rest, full) =~= rest.take(tail.len() as int + 1));
    } else {
        assert(rest.take(0) =~= Seq::empty());
    }
}

/// A directory that is asked for in pieces comes without a gap and without an entry
/// twice, whatever each answer has room for.
pub proof fn law_pieces_join(
    ino: u64,
    children: Seq<EntryView>,
    offset: int,
    answers: Seq<Seq<bool>>,
)
    requires
        0 <= offset,
        children.len() + 2 <= u64::MAX,
    ensures
        told(ino, children, offset, answers).len() <= dir_replies(ino, children, offset).len(),
        told(ino, children, offset, answers) == dir_replies(ino, children, offset).take(
            told(ino, children, offset, answers).len() as int,
        ),
    decreases answers.len(),
{
    let whole = dir_replies(ino, children, offset);
    if answers.len() > 0 {
        let piece = sent(whole, answers[0]);
        let next = resumed(offset, piece);
        law_answer_is_a_beginning(whole, answers[0]);
        if piece.len() > 0 {
            law_listing_goes_on(ino, children, offset, piece.len() - 1);
        }
        assert(dir_replies(ino, children, next) =~= whole.skip(piece.len() as int));
        law_pieces_join(ino, children, next, answers.drop_first());
        let tail = told(ino, children, next, answers.drop_first());
        assert(piece + tail =~= whole.take(piece.len() as int + tail.len() as int));
    } else {
        assert(whole.take(0) =~= Seq::empty());
    }
}

/// Where each answer has room for an entry, as many answers as there are entries bring
/// the whole directory.
pub proof fn law_pieces_are_complete(
    ino: u64,
    children: Seq<EntryView>,
    offset: int,
    answers: Seq<Seq<bool>>,
)
    requires
        0 <= offset,
        children.len() + 2 <= u64::MAX,
        forall|i: int|
            0 <= i < answers.len() ==> (#[trigger] answers[i]).len() > 0 && !answers[i][0],
        answers.len() >= dir_replies(ino, children, offset).len(),
    ensures
        told(ino, children, offset, answers) == dir_replies(ino, children, offset),
    decreases answers.len(),
{
    let whole = dir_replies(ino, children, offset);
    law_pieces_join(ino, children, offset, answers);
    if answers.len() > 0 {
        let piece = sent(whole, answers[0]);
        let next = resumed(offset, piece);
        law_answer_is_a_beginning(whole, answers[0]);
        if piece.len() > 0 {
            law_listing_goes_on(ino, children, offset, piece.len() - 1);
        }
        assert(dir_replies(ino, children, next) =~= whole.skip(piece.len() as int));
        if whole.len() > 0 {
            assert forall|i: int| 0 <= i < answers.drop_first().len() implies (
            #[trigger] answers.drop_first()[i]).len() > 0 && !answers.drop_first()[i][0] by {
                assert(answers.drop_first()[i] == answers[i + 1]);
            }
            law_pieces_are_complete(ino, children, next, answers.drop_first());
        }
    }
    assert(told(ino, children, offset, answers) =~= whole);
}

/// An answer takes entries until it is full, and no fewer: where there is room for `n`,
/// the first `n` come into it.
pub proof fn law_room_is_used(rest: Seq<ReplyView>, full: Seq<bool>, n: int)
    requires
        0 <= n <= rest.len(),
        n <= full.len(),
        forall|i: int| 0 <= i < n ==> !#[trigger] full[i],
        n == rest.len() || n == full.len() || full[n],
    ensures
        sent(rest, full) == rest.take(n),
    decreases n,
{
    if n > 0 {
        let more = full.drop_first();
        assert(!full[0]);
        assert forall|i: int| 0 <= i < n - 1 implies !#[trigger] more[i] by {
            assert(!full[i + 1]);
        }
        law_room_is_used(rest.skip(1), more, n - 1);
        assert(seq![rest[0]] + rest.skip(1).take(n - 1) =~= rest.take(n));
    } else {
        assert(rest.take(0) =~= Seq::empty());
    }
}

/// A full answer is sent as it is; where it was not full, the next entry is added, or the
/// answer is sent where there is none.
pub proof fn law_full_answers_are_sent(rest: Seq<ReplyView>)
    ensures
        behind_entry(rest, true) == (rest, ListStepView::Send),
        rest.len() == 0 ==> behind_entry(rest, false) == (rest, ListStepView::Send),
        rest.len() > 0 ==> behind_entry(rest, false) == (
            rest.drop_first(),
            ListStepView::Add(rest[0]),
        ),
{
    if rest.len() > 0 {
        assert(rest.skip(1) =~= rest.drop_first());
    }
}

} // verus!
