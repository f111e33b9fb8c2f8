//! The flux stream gives back what was sent.

use super::behind;
use super::byte_or;
use super::first_token;
use super::lemma_next_token;
use super::medium_interval;
use super::nothing_read;
use super::number_at;
use super::piece_means;
use super::reading_of;
use super::stream_fits;
use super::take_token;
use super::take_tokens;
use super::tokens_fit;
use super::tokens_of;
use super::Reading;
use super::Token;
use super::FLUX_SPACE;
use crate::error::IoErrorKind;
use vstd::prelude::*;

verus! {

/// The byte pairs that a 28-bit number is written as: seven bits each, the low
/// bit of a byte set.
pub open spec fn number_bytes(v: int) -> Seq<u8> {
    seq![
        (2 * (v % 128) + 1) as u8,
        (2 * (v / 128 % 128) + 1) as u8,
        (2 * (v / 16384 % 128) + 1) as u8,
        (2 * (v / 2097152 % 128) + 1) as u8,
    ]
}

/// The bytes that an interval is sent as.
pub open spec fn interval_bytes(v: int) -> Seq<u8> {
    if v < 250 {
        seq![v as u8]
    } else if v < 250 + 5 * 255 {
        seq![(250 + (v - 250) / 255) as u8, ((v - 250) % 255 + 1) as u8]
    } else {
        seq![255u8, FLUX_SPACE] + number_bytes(v - 1) + seq![1u8]
    }
}

/// The stream that intervals are sent as.
pub open spec fn stream_of(intervals: Seq<int>) -> Seq<u8>
    decreases intervals.len(),
{
    if intervals.len() == 0 {
        seq![0u8]
    } else {
        interval_bytes(intervals[0]) + stream_of(intervals.drop_first())
    }
}

/// The sum of all intervals.
pub open spec fn total(intervals: Seq<int>) -> int
    decreases intervals.len(),
{
    if intervals.len() == 0 {
        0
    } else {
        intervals[0] + total(intervals.drop_first())
    }
}

pub(crate) proof fn lemma_number_bytes(v: int, before: Seq<u8>, rest: Seq<u8>)
    requires
        0 <= v < 0x1000_0000,
        before.len() == 2,
    ensures
        number_at(before + number_bytes(v) + rest, 2) == v,
{
    let dat = before + number_bytes(v) + rest;
    let w = number_bytes(v);
    assert(dat[2] == w[0] && dat[3] == w[1] && dat[4] == w[2] && dat[5] == w[3]);
    let q1 = v / 128;
    let q2 = v / 16384;
    let q3 = v / 2097152;
    assert(q2 == q1 / 128 && q3 == q2 / 128 && q3 < 128);
    assert(v == v % 128 + 128 * (q1 % 128 + 128 * (q2 % 128 + 128 * q3)));
    assert(w[0] / 2 == v % 128) by {
        assert(w[0] == 2 * (v % 128) + 1);
    }
    assert(w[1] / 2 == q1 % 128) by {
        assert(w[1] == 2 * (q1 % 128) + 1);
    }
    assert(w[2] / 2 == q2 % 128) by {
        assert(w[2] == 2 * (q2 % 128) + 1);
    }
    assert(w[3] / 2 == q3) by {
        assert(w[3] == 2 * (q3 % 128) + 1);
    }
}

/// One interval is read back, with no change to what is left to do.
proof fn lemma_interval(v: int, rest: Seq<u8>, r: Reading)
    requires
        1 <= v <= 0x1000_0000,
        r.ticks == 0,
    ensures
        ({
            let dat = interval_bytes(v) + rest;
            let next = Reading {
                flux: r.flux.push(v),
                index: r.index,
                ticks: 0,
                since_index: r.since_index + v,
            };
            &&& take_tokens(r, tokens_of(dat)) == take_tokens(next, tokens_of(rest))
            &&& 0 <= r.since_index && r.since_index + v <= u32::MAX && tokens_fit(
                next,
                tokens_of(rest),
            ) ==> tokens_fit(r, tokens_of(dat))
        }),
{
    let dat = interval_bytes(v) + rest;
    assert(dat.skip(0) =~= dat);
    lemma_next_token(dat, 0, r);
    if v < 250 {
        assert(dat[0] == v);
        assert(dat.skip(1) =~= rest);
    } else if v < 250 + 5 * 255 {
        let q = (v - 250) / 255;
        assert(dat[0] == 250 + q);
        assert(dat[1] == (v - 250) % 255 + 1);
        assert(medium_interval(250 + q, dat[1] as int) == v) by {
            assert((250 + q - 250) * 255 == 255 * q);
        }
        assert(dat.skip(2) =~= rest);
    } else {
        let tail = seq![1u8] + rest;
        assert(dat =~= seq![255u8, FLUX_SPACE] + number_bytes(v - 1) + tail);
        lemma_number_bytes(v - 1, seq![255u8, FLUX_SPACE], tail);
        assert(dat[0] == 255 && dat[1] == FLUX_SPACE);
        assert(dat.skip(6) =~= tail);
        let mid = take_token(r, Token::Space(v - 1));
        assert(tail.skip(0) =~= tail);
        lemma_next_token(tail, 0, mid);
        assert(tail[0] == 1);
        assert(tail.skip(1) =~= rest);
    }
}

proof fn lemma_stream(intervals: Seq<int>, r: Reading)
    requires
        forall|i: int| 0 <= i < intervals.len() ==> 1 <= #[trigger] intervals[i] <= 0x1000_0000,
        r.ticks == 0,
        0 <= r.since_index,
        r.since_index + total(intervals) <= u32::MAX,
    ensures
        take_tokens(r, tokens_of(stream_of(intervals))) == (Reading {
            flux: r.flux + intervals,
            index: r.index,
            ticks: 0,
            since_index: r.since_index + total(intervals),
        }),
        tokens_fit(r, tokens_of(stream_of(intervals))),
    decreases intervals.len(),
{
    if intervals.len() == 0 {
        assert(tokens_of(stream_of(intervals)) =~= Seq::<Token>::empty());
        assert(r.flux + intervals =~= r.flux);
    } else {
        let v = intervals[0];
        let rest = intervals.drop_first();
        assert forall|i: int| 0 <= i < rest.len() implies 1 <= #[trigger] rest[i]
            <= 0x1000_0000 by {
            assert(rest[i] == intervals[i + 1]);
        }
        let next = Reading {
            flux: r.flux.push(v),
            index: r.index,
            ticks: 0,
            since_index: r.since_index + v,
        };
        lemma_total_positive(rest);
        lemma_stream(rest, next);
        lemma_interval(v, stream_of(rest), r);
        assert(r.flux.push(v) + rest =~= r.flux + intervals);
    }
}

proof fn lemma_total_positive(intervals: Seq<int>)
    requires
        forall|i: int| 0 <= i < intervals.len() ==> 1 <= #[trigger] intervals[i],
    ensures
        total(intervals) >= 0,
    decreases intervals.len(),
{
    if intervals.len() > 0 {
        let rest = intervals.drop_first();
        assert forall|i: int| 0 <= i < rest.len() implies 1 <= #[trigger] rest[i] by {
            assert(rest[i] == intervals[i + 1]);
        }
        lemma_total_positive(rest);
    }
}

/// A stream of intervals decodes to those intervals. An interval of zero has no
/// encoding, and 28 bits and one tick are the most that one can hold.
pub proof fn law_stream_round_trip(intervals: Seq<int>)
    requires
        forall|i: int| 0 <= i < intervals.len() ==> 1 <= #[trigger] intervals[i] <= 0x1000_0000,
        total(intervals) <= u32::MAX,
    ensures
        stream_fits(stream_of(intervals)),
        reading_of(stream_of(intervals)).flux == intervals,
        reading_of(stream_of(intervals)).index == Seq::<int>::empty(),
{
    lemma_stream(intervals, nothing_read());
    assert(nothing_read().flux + intervals =~= intervals);
}

/// A stream of intervals holds one zero byte, its last: who reads up to a zero byte
/// reads the whole stream.
pub proof fn law_zero_ends_stream(intervals: Seq<int>, i: int)
    requires
        forall|k: int| 0 <= k < intervals.len() ==> 1 <= #[trigger] intervals[k] <= 0x1000_0000,
        0 <= i < stream_of(intervals).len(),
    ensures
        stream_of(intervals)[i] == 0 <==> i == stream_of(intervals).len() - 1,
    decreases intervals.len(),
{
    if intervals.len() > 0 {
        let v = intervals[0];
        let rest = intervals.drop_first();
        let n = interval_bytes(v).len() as int;
        assert forall|k: int| 0 <= k < rest.len() implies 1 <= #[trigger] rest[k]
            <= 0x1000_0000 by {
            assert(rest[k] == intervals[k + 1]);
        }
        assert(stream_of(rest).len() > 0);
        if i < n {
            assert(stream_of(intervals)[i] == interval_bytes(v)[i]);
        } else {
            law_zero_ends_stream(rest, i - n);
        }
    }
}

/// What follows the zero byte of a stream does not count.
pub proof fn law_stream_ends_at_zero(dat: Seq<u8>, more: Seq<u8>)
    requires
        ends_stream(dat),
    ensures
        tokens_of(dat + more) == tokens_of(dat),
    decreases dat.len(),
{
    let all = dat + more;
    assert(all[0] == dat[0]);
    if dat[0] != 0 {
        let (t, n) = first_token(dat);
        assert(ends_stream(behind(dat, n)));
        assert(n < dat.len());
        assert(behind(all, n) =~= behind(dat, n) + more);
        assert(byte_or(all, 1, 0) == byte_or(dat, 1, 0));
        assert(first_token(all) == first_token(dat)) by {
            if n == 6 {
                assert(number_at(all, 2) == number_at(dat, 2));
            }
        }
        law_stream_ends_at_zero(behind(dat, n), more);
    }
}

/// Whether `dat` holds the zero byte that ends it, outside of any item.
pub open spec fn ends_stream(dat: Seq<u8>) -> bool
    decreases dat.len(),
{
    if dat.len() == 0 {
        false
    } else if dat[0] == 0 {
        true
    } else {
        ends_stream(behind(dat, first_token(dat).1))
    }
}

/// A stream that comes in pieces is read to its end, and no further: a piece that does not
/// bring the end asks for more, the one that does ends the stream, and an empty one says
/// that it was cut off.
pub proof fn law_pieces_reach_the_end(intervals: Seq<int>, n: int, k: int)
    requires
        forall|i: int| 0 <= i < intervals.len() ==> 1 <= #[trigger] intervals[i] <= 0x1000_0000,
        0 < n <= stream_of(intervals).len(),
        0 < k,
    ensures
        n < stream_of(intervals).len() ==> piece_means(stream_of(intervals).take(n), k) is None,
        n == stream_of(intervals).len() ==> piece_means(stream_of(intervals).take(n), k) == Some(
            Ok::<(), (IoErrorKind, Seq<char>)>(()),
        ),
        piece_means(stream_of(intervals).take(n), 0) == Some(
            Err::<(), (IoErrorKind, Seq<char>)>(
                (IoErrorKind::UnexpectedEof, "поток флукса оборвался без терминатора"@),
            ),
        ),
{
    law_zero_ends_stream(intervals, n - 1);
    assert(stream_of(intervals).take(n).last() == stream_of(intervals)[n - 1]);
}

} // verus!
