//! A flux stream with all its items: reversals, silence, index pulses.

use super::behind;
use super::byte_or;
use super::first_token;
use super::medium_interval;
use super::nothing_read;
use super::reading_of;
use super::stream_fits;
use super::stream_laws::interval_bytes;
use super::stream_laws::lemma_number_bytes;
use super::stream_laws::number_bytes;
use super::take_token;
use super::take_tokens;
use super::token_fits;
use super::tokens_fit;
use super::tokens_of;
use super::Reading;
use super::Token;
use vstd::prelude::*;

verus! {

/// What a device may send.
pub enum Item {
    /// A reversal, so many ticks behind what came before.
    Reversal(int),
    /// Ticks without a reversal.
    Silence(int),
    /// An index pulse, so many ticks behind the last reversal.
    Pulse(int),
    /// An operation that means nothing here.
    Other(u8),
}

/// The bytes that an item is sent as.
pub open spec fn item_bytes(item: Item) -> Seq<u8> {
    match item {
        Item::Reversal(v) => interval_bytes(v),
        Item::Silence(v) => seq![255u8, 2u8] + number_bytes(v),
        Item::Pulse(v) => seq![255u8, 1u8] + number_bytes(v),
        Item::Other(op) => seq![255u8, op],
    }
}

/// The stream of these items: their bytes, and a zero.
pub open spec fn items_stream(items: Seq<Item>) -> Seq<u8>
    decreases items.len(),
{
    if items.len() == 0 {
        seq![0u8]
    } else {
        item_bytes(items[0]) + items_stream(items.drop_first())
    }
}

/// Whether an item can be sent.
pub open spec fn item_ok(item: Item) -> bool {
    match item {
        Item::Reversal(v) => 1 <= v <= 0x1000_0000,
        Item::Silence(v) => 0 <= v < 0x1000_0000,
        Item::Pulse(v) => 0 <= v < 0x1000_0000,
        Item::Other(op) => op != 1 && op != 2,
    }
}

/// The ticks that an item says.
pub open spec fn item_ticks(item: Item) -> int {
    match item {
        Item::Reversal(v) => v,
        Item::Silence(v) => v,
        Item::Pulse(v) => v,
        Item::Other(_) => 0,
    }
}

/// The ticks of all items.
pub open spec fn all_ticks(items: Seq<Item>) -> int
    decreases items.len(),
{
    if items.len() == 0 {
        0
    } else {
        all_ticks(items.drop_last()) + item_ticks(items.last())
    }
}

/// The silence at the end of the items: since the last reversal.
pub open spec fn silence(items: Seq<Item>) -> int
    decreases items.len(),
{
    if items.len() == 0 || items.last() is Reversal {
        0
    } else {
        silence(items.drop_last()) + (if items.last() is Silence {
            item_ticks(items.last())
        } else {
            0
        })
    }
}

/// The ticks from reversal to reversal: silence belongs to the reversal behind it.
pub open spec fn reversals(items: Seq<Item>) -> Seq<int>
    decreases items.len(),
{
    if items.len() == 0 {
        Seq::empty()
    } else if items.last() is Reversal {
        reversals(items.drop_last()).push(silence(items.drop_last()) + item_ticks(items.last()))
    } else {
        reversals(items.drop_last())
    }
}

/// The ticks up to the last reversal, from the last pulse on.
pub open spec fn since_pulse(items: Seq<Item>) -> int
    decreases items.len(),
{
    if items.len() == 0 || items.last() is Pulse {
        0
    } else {
        since_pulse(items.drop_last()) + (if items.last() is Reversal {
            silence(items.drop_last()) + item_ticks(items.last())
        } else {
            0
        })
    }
}

/// The time of each pulse: the reversals since the pulse before it, and its own ticks.
pub open spec fn pulses(items: Seq<Item>) -> Seq<int>
    decreases items.len(),
{
    if items.len() == 0 {
        Seq::empty()
    } else if items.last() is Pulse {
        pulses(items.drop_last()).push(since_pulse(items.drop_last()) + item_ticks(items.last()))
    } else {
        pulses(items.drop_last())
    }
}

spec fn item_tokens(item: Item) -> Seq<Token> {
    match item {
        Item::Reversal(v) => if v < 250 + 5 * 255 {
            seq![Token::Interval(v)]
        } else {
            seq![Token::Space(v - 1), Token::Interval(1)]
        },
        Item::Silence(v) => seq![Token::Space(v)],
        Item::Pulse(v) => seq![Token::Index(v)],
        Item::Other(_) => seq![Token::Unknown],
    }
}

spec fn items_tokens(items: Seq<Item>) -> Seq<Token>
    decreases items.len(),
{
    if items.len() == 0 {
        Seq::empty()
    } else {
        items_tokens(items.drop_last()) + item_tokens(items.last())
    }
}

proof fn lemma_item_tokens(item: Item, rest: Seq<u8>)
    requires
        item_ok(item),
    ensures
        tokens_of(item_bytes(item) + rest) == item_tokens(item) + tokens_of(rest),
{
    let dat = item_bytes(item) + rest;
    match item {
        Item::Reversal(v) => {
            if v < 250 {
                assert(dat[0] == v);
                assert(behind(dat, 1) =~= rest);
            } else if v < 250 + 5 * 255 {
                let q = (v - 250) / 255;
                assert(dat[0] == 250 + q);
                assert(dat[1] == (v - 250) % 255 + 1);
                assert(medium_interval(250 + q, dat[1] as int) == v);
                assert(byte_or(dat, 1, 1) == dat[1]);
                assert(first_token(dat) == (Token::Interval(v), 2int));
                assert(behind(dat, 2) =~= rest);
            } else {
                let tail = seq![1u8] + rest;
                assert(dat =~= seq![255u8, 2u8] + number_bytes(v - 1) + tail);
                lemma_number_bytes(v - 1, seq![255u8, 2u8], tail);
                assert(dat[0] == 255 && dat[1] == 2);
                assert(first_token(dat) == (Token::Space(v - 1), 6int));
                assert(behind(dat, 6) =~= tail);
                assert(tail[0] == 1);
                assert(behind(tail, 1) =~= rest);
                assert(tokens_of(tail) == seq![Token::Interval(1)] + tokens_of(rest));
                assert(seq![Token::Space(v - 1)] + (seq![Token::Interval(1)] + tokens_of(rest))
                    =~= item_tokens(item) + tokens_of(rest));
            }
        },
        Item::Silence(v) => {
            lemma_number_bytes(v, seq![255u8, 2u8], rest);
            assert(dat[0] == 255 && dat[1] == 2);
            assert(first_token(dat) == (Token::Space(v), 6int));
            assert(behind(dat, 6) =~= rest);
        },
        Item::Pulse(v) => {
            lemma_number_bytes(v, seq![255u8, 1u8], rest);
            assert(dat[0] == 255 && dat[1] == 1);
            assert(first_token(dat) == (Token::Index(v), 6int));
            assert(behind(dat, 6) =~= rest);
        },
        Item::Other(op) => {
            assert(dat[0] == 255 && dat[1] == op);
            assert(byte_or(dat, 1, 0) == op);
            assert(first_token(dat) == (Token::Unknown, 2int));
            assert(behind(dat, 2) =~= rest);
        },
    }
}

proof fn lemma_stream_tokens(before: Seq<Item>, items: Seq<Item>)
    requires
        forall|i: int| 0 <= i < items.len() ==> item_ok(#[trigger] items[i]),
    ensures
        items_tokens(before) + tokens_of(items_stream(items)) == items_tokens(before + items),
    decreases items.len(),
{
    if items.len() == 0 {
        assert(tokens_of(seq![0u8]) =~= Seq::<Token>::empty());
        assert(before + items =~= before);
        assert(items_tokens(before) + Seq::<Token>::empty() =~= items_tokens(before));
    } else {
        let rest = items.drop_first();
        assert(item_ok(items[0]));
        lemma_item_tokens(items[0], items_stream(rest));
        let more = before.push(items[0]);
        assert(more.drop_last() =~= before);
        assert(more + rest =~= before + items);
        assert forall|i: int| 0 <= i < rest.len() implies item_ok(#[trigger] rest[i]) by {
            assert(rest[i] == items[i + 1]);
        }
        lemma_stream_tokens(more, rest);
        assert(items_tokens(before) + (item_tokens(items[0]) + tokens_of(items_stream(rest)))
            =~= items_tokens(before) + item_tokens(items[0]) + tokens_of(items_stream(rest)));
    }
}

proof fn lemma_take_more(r: Reading, a: Seq<Token>, b: Seq<Token>)
    ensures
        take_tokens(r, a + b) == take_tokens(take_tokens(r, a), b),
        tokens_fit(r, a + b) == (tokens_fit(r, a) && tokens_fit(take_tokens(r, a), b)),
    decreases a.len(),
{
    if a.len() == 0 {
        assert(a + b =~= b);
    } else {
        assert((a + b)[0] == a[0]);
        assert((a + b).drop_first() =~= a.drop_first() + b);
        lemma_take_more(take_token(r, a[0]), a.drop_first(), b);
    }
}

proof fn lemma_take_item(r: Reading, item: Item)
    requires
        item_ok(item),
        0 <= r.ticks,
        0 <= r.since_index,
        r.ticks + r.since_index + item_ticks(item) <= u32::MAX,
    ensures
        take_tokens(r, item_tokens(item)) == (match item {
            Item::Reversal(v) => Reading {
                flux: r.flux.push(r.ticks + v),
                index: r.index,
                ticks: 0,
                since_index: r.since_index + r.ticks + v,
            },
            Item::Silence(v) => Reading { ticks: r.ticks + v, ..r },
            Item::Pulse(v) => Reading {
                index: r.index.push(r.since_index + v),
                since_index: 0,
                ..r
            },
            Item::Other(_) => r,
        }),
        tokens_fit(r, item_tokens(item)),
{
    let t = item_tokens(item);
    reveal_with_fuel(take_tokens, 3);
    reveal_with_fuel(tokens_fit, 3);
    assert(t.drop_first().len() == t.len() - 1);
    if t.len() == 2 {
        assert(t.drop_first()[0] == t[1]);
        assert(token_fits(r, t[0]));
    }
}

proof fn lemma_items(items: Seq<Item>)
    requires
        forall|i: int| 0 <= i < items.len() ==> item_ok(#[trigger] items[i]),
        all_ticks(items) <= u32::MAX,
    ensures
        take_tokens(nothing_read(), items_tokens(items)) == (Reading {
            flux: reversals(items),
            index: pulses(items),
            ticks: silence(items),
            since_index: since_pulse(items),
        }),
        tokens_fit(nothing_read(), items_tokens(items)),
        0 <= silence(items),
        0 <= since_pulse(items),
        silence(items) + since_pulse(items) <= all_ticks(items),
    decreases items.len(),
{
    if items.len() > 0 {
        let head = items.drop_last();
        assert(item_ok(items[items.len() - 1]));
        assert forall|i: int| 0 <= i < head.len() implies item_ok(#[trigger] head[i]) by {
            assert(head[i] == items[i]);
        }
        lemma_items(head);
        let r = take_tokens(nothing_read(), items_tokens(head));
        lemma_take_more(nothing_read(), items_tokens(head), item_tokens(items.last()));
        lemma_take_item(r, items.last());
    }
}

/// Every item of a stream is heard, and no other: the flux is the ticks from reversal
/// to reversal, whatever pulses and other operations stand between them; and there is
/// one index time for each pulse, the ticks up to the last reversal since the pulse
/// before it and the pulse's own.
pub proof fn law_items_round_trip(items: Seq<Item>)
    requires
        forall|i: int| 0 <= i < items.len() ==> item_ok(#[trigger] items[i]),
        all_ticks(items) <= u32::MAX,
    ensures
        stream_fits(items_stream(items)),
        reading_of(items_stream(items)).flux == reversals(items),
        reading_of(items_stream(items)).index == pulses(items),
{
    lemma_stream_tokens(Seq::empty(), items);
    assert(Seq::<Item>::empty() + items =~= items);
    assert(Seq::<Token>::empty() + tokens_of(items_stream(items)) =~= tokens_of(
        items_stream(items),
    ));
    lemma_items(items);
}

/// The items without the pulses and the operations without a meaning.
pub open spec fn only_flux(items: Seq<Item>) -> Seq<Item>
    decreases items.len(),
{
    if items.len() == 0 {
        Seq::empty()
    } else if items.last() is Reversal || items.last() is Silence {
        only_flux(items.drop_last()).push(items.last())
    } else {
        only_flux(items.drop_last())
    }
}

/// How many pulses there are.
pub open spec fn count_pulses(items: Seq<Item>) -> nat
    decreases items.len(),
{
    if items.len() == 0 {
        0
    } else {
        count_pulses(items.drop_last()) + (if items.last() is Pulse { 1nat } else { 0nat })
    }
}

proof fn lemma_only_flux(items: Seq<Item>)
    ensures
        reversals(only_flux(items)) == reversals(items),
        silence(only_flux(items)) == silence(items),
        pulses(items).len() == count_pulses(items),
    decreases items.len(),
{
    if items.len() > 0 {
        lemma_only_flux(items.drop_last());
        let head = only_flux(items.drop_last());
        assert(head.push(items.last()).drop_last() =~= head);
    }
}

proof fn lemma_only_flux_ok(items: Seq<Item>)
    requires
        forall|i: int| 0 <= i < items.len() ==> item_ok(#[trigger] items[i]),
    ensures
        forall|i: int| 0 <= i < only_flux(items).len() ==> item_ok(#[trigger] only_flux(items)[i]),
        0 <= all_ticks(only_flux(items)) <= all_ticks(items),
    decreases items.len(),
{
    if items.len() > 0 {
        let head = items.drop_last();
        assert(item_ok(items[items.len() - 1]));
        assert forall|i: int| 0 <= i < head.len() implies item_ok(#[trigger] head[i]) by {
            assert(head[i] == items[i]);
        }
        lemma_only_flux_ok(head);
        assert(only_flux(head).push(items.last()).drop_last() =~= only_flux(head));
    }
}

/// Index pulses do not change the flux: a stream decodes to the same flux with them and
/// without them, and to one index time for each of them.
pub proof fn law_pulses_leave_flux(items: Seq<Item>)
    requires
        forall|i: int| 0 <= i < items.len() ==> item_ok(#[trigger] items[i]),
        all_ticks(items) <= u32::MAX,
    ensures
        reading_of(items_stream(items)).flux == reading_of(items_stream(only_flux(items))).flux,
        reading_of(items_stream(items)).index.len() == count_pulses(items),
{
    lemma_only_flux(items);
    lemma_only_flux_ok(items);
    law_items_round_trip(items);
    law_items_round_trip(only_flux(items));
}

/// A stream whose zero byte is missing is read as far as it goes: nothing that was sent
/// is lost.
pub proof fn law_end_may_be_missing(items: Seq<Item>)
    requires
        forall|i: int| 0 <= i < items.len() ==> item_ok(#[trigger] items[i]),
    ensures
        items_stream(items).len() > 0,
        items_stream(items).last() == 0,
        reading_of(items_stream(items).drop_last()) == reading_of(items_stream(items)),
        stream_fits(items_stream(items).drop_last()) == stream_fits(items_stream(items)),
{
    lemma_unended(items);
}

proof fn lemma_unended(items: Seq<Item>)
    requires
        forall|i: int| 0 <= i < items.len() ==> item_ok(#[trigger] items[i]),
    ensures
        items_stream(items).len() > 0,
        items_stream(items).last() == 0,
        tokens_of(items_stream(items).drop_last()) == tokens_of(items_stream(items)),
    decreases items.len(),
{
    if items.len() == 0 {
        assert(items_stream(items).drop_last() =~= Seq::<u8>::empty());
        assert(tokens_of(seq![0u8]) =~= Seq::<Token>::empty());
    } else {
        let rest = items.drop_first();
        assert(item_ok(items[0]));
        assert forall|i: int| 0 <= i < rest.len() implies item_ok(#[trigger] rest[i]) by {
            assert(rest[i] == items[i + 1]);
        }
        lemma_unended(rest);
        let s = items_stream(rest);
        let b = item_bytes(items[0]);
        assert((b + s).drop_last() =~= b + s.drop_last());
        lemma_item_tokens(items[0], s);
        lemma_item_tokens(items[0], s.drop_last());
    }
}

proof fn lemma_last_token(dat: Seq<u8>, t: Token, n: int)
    requires
        dat.len() > 0,
        dat[0] != 0,
        first_token(dat) == (t, n),
        n >= dat.len(),
    ensures
        reading_of(dat) == take_token(nothing_read(), t),
{
    assert(behind(dat, n) =~= Seq::<u8>::empty());
    assert(tokens_of(Seq::<u8>::empty()) =~= Seq::<Token>::empty());
    assert(tokens_of(dat) == seq![t] + tokens_of(behind(dat, n)));
    assert(tokens_of(dat) =~= seq![t]);
    assert(seq![t].drop_first() =~= Seq::<Token>::empty());
    reveal_with_fuel(take_tokens, 2);
}

/// Of an item that is cut off at the end of a stream, the bytes that are missing count for
/// nothing.
pub proof fn law_cut_items(b: u8, x: u8, y: u8, z: u8)
    requires
        250 <= b <= 254,
    ensures
        reading_of(seq![b]).flux == seq![250 + 255 * (b - 250)],
        reading_of(seq![255u8, 1]).index == seq![0int],
        reading_of(seq![255u8, 1, x]).index == seq![x as int / 2],
        reading_of(seq![255u8, 1, x, y]).index == seq![x as int / 2 + 128 * (y as int / 2)],
        reading_of(seq![255u8, 1, x, y, z]).index == seq![
            x as int / 2 + 128 * (y as int / 2) + 16384 * (z as int / 2),
        ],
{
    let m = 250 + 255 * (b - 250);
    assert(medium_interval(b as int, 1) == m);
    lemma_last_token(seq![b], Token::Interval(m), 2);
    assert(reading_of(seq![b]).flux =~= seq![m]);
    let none = seq![255u8, 1];
    lemma_last_token(none, Token::Index(0), 6);
    assert(reading_of(none).index =~= seq![0int]);
    let one = seq![255u8, 1, x];
    let v = x as int / 2;
    lemma_last_token(one, Token::Index(v), 6);
    assert(reading_of(one).index =~= seq![v]);
    let two = seq![255u8, 1, x, y];
    let w = v + 128 * (y as int / 2);
    lemma_last_token(two, Token::Index(w), 6);
    assert(reading_of(two).index =~= seq![w]);
    let three = seq![255u8, 1, x, y, z];
    let u = w + 16384 * (z as int / 2);
    lemma_last_token(three, Token::Index(u), 6);
    assert(reading_of(three).index =~= seq![u]);
}

} // verus!
