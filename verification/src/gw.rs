//! The host protocol of a Greaseweazle.
//!
//! A command is framed as its opcode, the length of the frame and its parameters.
//! The device answers with the opcode and a result, zero where all is well. Some
//! commands are followed by data; the flux of a track comes as a stream that a zero
//! byte ends.

pub mod frame_laws;
pub mod item_laws;
pub mod stream_laws;

use crate::bytes::u32_at;
use crate::bytes::u32_le;
use crate::error::is_error;
use crate::error::IoError;
use crate::error::IoErrorKind;
use crate::text::decimal;
use crate::text::push_decimal;
use vstd::prelude::*;

verus! {

pub const GET_INFO: u8 = 0;

pub const SEEK: u8 = 2;

pub const HEAD: u8 = 3;

pub const MOTOR: u8 = 6;

pub const READ_FLUX: u8 = 7;

pub const GET_FLUX_STATUS: u8 = 9;

pub const SELECT: u8 = 12;

pub const DESELECT: u8 = 13;

pub const SET_BUS_TYPE: u8 = 14;

pub const SET_PIN: u8 = 19;

pub const GET_PIN: u8 = 20;

/// The flux operation that reports an index pulse.
pub const FLUX_INDEX: u8 = 1;

/// The flux operation that lets time pass without a reversal.
pub const FLUX_SPACE: u8 = 2;

/// The result of a command that found no index pulse: no disk in the drive.
pub const ACK_NO_INDEX: u8 = 2;

/// How the drives are wired to the device.
#[derive(Debug, Clone, Copy, PartialEq, Eq, Structural)]
pub enum BusType {
    Ibmpc,
    Shugart,
}

impl BusType {
    /// The number of the bus type in a command.
    #[verifier::allow_in_spec]
    pub fn code(self) -> u8
        returns
            match self {
                BusType::Ibmpc => 1u8,
                BusType::Shugart => 2u8,
            },
    {
        match self {
            BusType::Ibmpc => 1,
            BusType::Shugart => 2,
        }
    }
}

/// The pins of a drive that can be read.
#[derive(Debug, Clone, Copy, PartialEq, Eq, Structural)]
pub enum Pin {
    Index,
    Track0,
    WriteProtect,
    /// Low where the disk was changed since the last access.
    DiskChange,
}

impl Pin {
    /// The number of the pin in a command.
    #[verifier::allow_in_spec]
    pub fn code(self) -> u8
        returns
            match self {
                Pin::Index => 8u8,
                Pin::Track0 => 26u8,
                Pin::WriteProtect => 28u8,
                Pin::DiskChange => 34u8,
            },
    {
        match self {
            Pin::Index => 8,
            Pin::Track0 => 26,
            Pin::WriteProtect => 28,
            Pin::DiskChange => 34,
        }
    }
}

/// A command to the device.
#[derive(Debug, Clone, Copy, PartialEq, Eq, Structural)]
pub enum Command {
    GetInfo,
    SetBusType(BusType),
    Select(u8),
    Deselect,
    SetMotor(u8, bool),
    Seek(u8),
    SelectHead(u8),
    SetPin(u8, bool),
    GetPin(Pin),
    /// Read the flux of so many revolutions.
    ReadFlux(u16),
    GetFluxStatus,
}

/// What the device sends behind a good answer.
#[derive(Debug, Clone, Copy, PartialEq, Eq, Structural)]
pub enum Payload {
    Nothing,
    Bytes(usize),
    /// Bytes up to a zero byte.
    Stream,
}

/// One byte for a switch.
pub open spec fn level(on: bool) -> u8 {
    if on {
        1
    } else {
        0
    }
}

/// How many index pulses make so many revolutions.
pub open spec fn index_pulses(revs: u16) -> int {
    if revs == 0 {
        0
    } else {
        revs + 1
    }
}

impl Command {
    pub open spec fn spec_opcode(self) -> u8 {
        match self {
            Command::GetInfo => GET_INFO,
            Command::SetBusType(_) => SET_BUS_TYPE,
            Command::Select(_) => SELECT,
            Command::Deselect => DESELECT,
            Command::SetMotor(_, _) => MOTOR,
            Command::Seek(_) => SEEK,
            Command::SelectHead(_) => HEAD,
            Command::SetPin(_, _) => SET_PIN,
            Command::GetPin(_) => GET_PIN,
            Command::ReadFlux(_) => READ_FLUX,
            Command::GetFluxStatus => GET_FLUX_STATUS,
        }
    }

    /// The parameters, as they stand in the frame.
    pub open spec fn parameters(self) -> Seq<u8> {
        match self {
            Command::GetInfo => seq![0u8],
            Command::SetBusType(bus) => seq![bus.code()],
            Command::Select(unit) => seq![unit],
            Command::Deselect => seq![],
            Command::SetMotor(unit, on) => seq![unit, level(on)],
            Command::Seek(cylinder) => seq![cylinder],
            Command::SelectHead(head) => seq![head],
            Command::SetPin(pin, high) => seq![pin, level(high)],
            Command::GetPin(pin) => seq![pin.code()],
            Command::ReadFlux(revs) => seq![
                0u8,
                0u8,
                0u8,
                0u8,
                (index_pulses(revs) % 256) as u8,
                (index_pulses(revs) / 256) as u8,
            ],
            Command::GetFluxStatus => seq![],
        }
    }

    /// The frame: the opcode, the length of the frame, the parameters.
    pub open spec fn spec_frame(self) -> Seq<u8> {
        seq![self.spec_opcode(), (self.parameters().len() + 2) as u8] + self.parameters()
    }

    /// Whether the number of index pulses has a place in the frame.
    pub open spec fn fits(self) -> bool {
        self matches Command::ReadFlux(revs) ==> revs < u16::MAX
    }

    pub fn opcode(self) -> (code: u8)
        ensures
            code == self.spec_opcode(),
    {
        match self {
            Command::GetInfo => GET_INFO,
            Command::SetBusType(_) => SET_BUS_TYPE,
            Command::Select(_) => SELECT,
            Command::Deselect => DESELECT,
            Command::SetMotor(_, _) => MOTOR,
            Command::Seek(_) => SEEK,
            Command::SelectHead(_) => HEAD,
            Command::SetPin(_, _) => SET_PIN,
            Command::GetPin(_) => GET_PIN,
            Command::ReadFlux(_) => READ_FLUX,
            Command::GetFluxStatus => GET_FLUX_STATUS,
        }
    }

    /// The bytes to send.
    pub fn frame(self) -> (bytes: Vec<u8>)
        requires
            self.fits(),
        ensures
            bytes@ == self.spec_frame(),
    {
        let op: u8 = self.opcode();
        let bytes: Vec<u8> = match self {
            Command::GetInfo => vec![op, 3, 0],
            Command::SetBusType(bus) => vec![op, 3, bus.code()],
            Command::Select(unit) => vec![op, 3, unit],
            Command::Deselect => vec![op, 2],
            Command::SetMotor(unit, on) => vec![op, 4, unit, if on { 1 } else { 0 }],
            Command::Seek(cylinder) => vec![op, 3, cylinder],
            Command::SelectHead(head) => vec![op, 3, head],
            Command::SetPin(pin, high) => vec![op, 4, pin, if high { 1 } else { 0 }],
            Command::GetPin(pin) => vec![op, 3, pin.code()],
            Command::ReadFlux(revs) => {
                let nr: u16 = if revs == 0 {
                    0
                } else {
                    revs + 1
                };
                vec![op, 8, 0, 0, 0, 0, (nr % 256) as u8, (nr / 256) as u8]
            },
            Command::GetFluxStatus => vec![op, 2],
        };
        assert(bytes@ =~= self.spec_frame());
        bytes
    }

    /// What follows a good answer.
    #[verifier::allow_in_spec]
    pub fn payload(self) -> Payload
        returns
            match self {
                Command::GetInfo => Payload::Bytes(32),
                Command::GetPin(_) => Payload::Bytes(1),
                Command::ReadFlux(_) => Payload::Stream,
                _ => Payload::Nothing,
            },
    {
        match self {
            Command::GetInfo => Payload::Bytes(32),
            Command::GetPin(_) => Payload::Bytes(1),
            Command::ReadFlux(_) => Payload::Stream,
            _ => Payload::Nothing,
        }
    }
}

/// Every frame says how long it is.
pub proof fn law_frame_length(c: Command)
    ensures
        c.spec_frame().len() == c.spec_frame()[1],
        c.spec_frame()[0] == c.spec_opcode(),
{
}

/// No two commands are framed alike.
pub proof fn law_frames_differ(a: Command, b: Command)
    requires
        a.fits(),
        b.fits(),
        a.spec_frame() == b.spec_frame(),
    ensures
        a == b,
{
    let f = a.spec_frame();
    let g = b.spec_frame();
    assert(f[0] == a.spec_opcode());
    assert(g[0] == b.spec_opcode());
    assert(f.skip(2) =~= a.parameters());
    assert(g.skip(2) =~= b.parameters());
    let p = a.parameters();
    let q = b.parameters();
    assert(p == q);
    match (a, b) {
        (Command::SetBusType(x), Command::SetBusType(y)) => {
            assert(p[0] == x.code() && q[0] == y.code());
        },
        (Command::SetMotor(u, x), Command::SetMotor(v, y)) => {
            assert(p[0] == u && p[1] == level(x) && q[0] == v && q[1] == level(y));
        },
        (Command::SetPin(u, x), Command::SetPin(v, y)) => {
            assert(p[0] == u && p[1] == level(x) && q[0] == v && q[1] == level(y));
        },
        (Command::GetPin(x), Command::GetPin(y)) => {
            assert(p[0] == x.code() && q[0] == y.code());
        },
        (Command::ReadFlux(x), Command::ReadFlux(y)) => {
            assert(p[4] == q[4] && p[5] == q[5]);
            assert(index_pulses(x) == index_pulses(y));
        },
        (Command::Select(_), _) => {
            assert(p[0] == q[0]);
        },
        (Command::Seek(_), _) => {
            assert(p[0] == q[0]);
        },
        (Command::SelectHead(_), _) => {
            assert(p[0] == q[0]);
        },
        _ => {},
    }
}

/// What the device says of its firmware.
#[derive(Debug, Clone, Copy, PartialEq, Eq, Structural)]
pub struct FirmwareInfo {
    pub major: u8,
    pub minor: u8,
    /// The ticks in a second.
    pub sample_freq: u32,
}

/// What the answer to [`Command::GetInfo`] says.
pub open spec fn info_of(bytes: Seq<u8>) -> FirmwareInfo {
    FirmwareInfo { major: bytes[0], minor: bytes[1], sample_freq: u32_at(bytes, 4) as u32 }
}

/// Reads the answer to [`Command::GetInfo`].
pub fn parse_info(bytes: &[u8]) -> (info: FirmwareInfo)
    requires
        bytes.len() >= 8,
    ensures
        info == info_of(bytes@),
        info.major == bytes[0],
        info.minor == bytes[1],
        info.sample_freq == u32_at(bytes@, 4),
{
    FirmwareInfo { major: bytes[0], minor: bytes[1], sample_freq: u32_le(bytes, 4) }
}

/// What the answer to [`Command::GetPin`] says: low is zero.
pub open spec fn pin_is_high(byte: u8) -> bool {
    byte != 0
}

/// Reads the answer to [`Command::GetPin`]: whether the pin is high.
pub fn parse_pin(byte: u8) -> (high: bool)
    ensures
        high == (byte != 0),
        high == pin_is_high(byte),
{
    byte != 0
}

/// What an answer to the command `opcode` means.
pub open spec fn ack_error(opcode: u8, echo: u8, result: u8) -> Option<IoErrorKind> {
    if echo != opcode {
        Some(IoErrorKind::InvalidData)
    } else if result == ACK_NO_INDEX {
        Some(IoErrorKind::NotConnected)
    } else if result != 0 {
        Some(IoErrorKind::Other)
    } else {
        None
    }
}

/// The message for a bad answer.
pub open spec fn ack_message(opcode: u8, echo: u8, result: u8) -> Seq<char> {
    if echo != opcode {
        "эхо команды "@ + decimal(echo as nat) + " != "@ + decimal(opcode as nat)
    } else {
        "команда "@ + decimal(opcode as nat) + " → ошибка "@ + decimal(result as nat)
    }
}

/// Judges the two bytes that answer the command `opcode`.
pub fn check_ack(opcode: u8, echo: u8, result: u8) -> (r: Result<(), IoError>)
    ensures
        r is Ok <==> echo == opcode && result == 0,
        r matches Err(e) ==> ack_error(opcode, echo, result) == Some(e.kind) && e.message@
            == ack_message(opcode, echo, result),
{
    if echo != opcode {
        let mut message: String = "эхо команды ".to_owned();
        push_decimal(&mut message, echo as u64);
        message.append(" != ");
        push_decimal(&mut message, opcode as u64);
        return Err(IoError { kind: IoErrorKind::InvalidData, message });
    }
    if result != 0 {
        let mut message: String = "команда ".to_owned();
        push_decimal(&mut message, opcode as u64);
        message.append(" → ошибка ");
        push_decimal(&mut message, result as u64);
        let kind: IoErrorKind = if result == ACK_NO_INDEX {
            IoErrorKind::NotConnected
        } else {
            IoErrorKind::Other
        };
        return Err(IoError { kind, message });
    }
    Ok(())
}

/// What a piece of a stream means: more is to be read, the stream has ended, or it was cut
/// off.
pub open spec fn piece_means(so_far: Seq<u8>, piece_len: int) -> Option<
    Result<(), (IoErrorKind, Seq<char>)>,
> {
    if piece_len == 0 {
        Some(
            Err(
                (
                    IoErrorKind::UnexpectedEof,
                    "поток флукса оборвался без терминатора"@,
                ),
            ),
        )
    } else if so_far.last() == 0 {
        Some(Ok(()))
    } else {
        None
    }
}

/// What to do after another piece of a stream has come: `None` means that more is
/// to be read.
pub fn stream_piece(so_far: &[u8], piece_len: usize) -> (r: Option<Result<(), IoError>>)
    requires
        piece_len <= so_far.len(),
    ensures
        match r {
            None => piece_len > 0 && so_far@.last() != 0,
            Some(Ok(())) => piece_len > 0 && so_far@.last() == 0,
            Some(Err(e)) => piece_len == 0 && is_error(
                e,
                IoErrorKind::UnexpectedEof,
                "поток флукса оборвался без терминатора"@,
            ),
        },
        (match r {
            None => None,
            Some(Ok(())) => Some(Ok(())),
            Some(Err(e)) => Some(Err((e.kind, e.message@))),
        }) == piece_means(so_far@, piece_len as int),
{
    if piece_len == 0 {
        return Some(
            Err(
                IoError::new(
                    IoErrorKind::UnexpectedEof,
                    "поток флукса оборвался без терминатора",
                ),
            ),
        );
    }
    if so_far[so_far.len() - 1] == 0 {
        Some(Ok(()))
    } else {
        None
    }
}

/// One item of the flux stream.
pub enum Token {
    /// A reversal, so many ticks behind what came before.
    Interval(int),
    /// Ticks without a reversal.
    Space(int),
    /// An index pulse, so many ticks behind the last reversal.
    Index(int),
    /// An operation without a meaning here.
    Unknown,
}

/// The byte at `i`, or `missing` behind the end.
pub open spec fn byte_or(dat: Seq<u8>, i: int, missing: int) -> int {
    if i < dat.len() {
        dat[i] as int
    } else {
        missing
    }
}

/// The 28-bit number at `i`: seven bits in each of four bytes, the low bit of a
/// byte left out, the lowest bits first. Missing bytes count as zero.
pub open spec fn number_at(dat: Seq<u8>, i: int) -> int {
    byte_or(dat, i, 0) / 2 + 128 * (byte_or(dat, i + 1, 0) / 2) + 16384 * (byte_or(dat, i + 2, 0)
        / 2) + 2097152 * (byte_or(dat, i + 3, 0) / 2)
}

/// How long an interval of two bytes is.
pub open spec fn medium_interval(first: int, second: int) -> int {
    250 + (first - 250) * 255 + if second > 0 {
        second - 1
    } else {
        0
    }
}

/// The token that `dat` starts with, and how many bytes it takes; the count may
/// reach behind the end.
pub open spec fn first_token(dat: Seq<u8>) -> (Token, int) {
    let b = dat[0] as int;
    if b == 255 {
        if byte_or(dat, 1, 0) == FLUX_INDEX {
            (Token::Index(number_at(dat, 2)), 6)
        } else if byte_or(dat, 1, 0) == FLUX_SPACE {
            (Token::Space(number_at(dat, 2)), 6)
        } else {
            (Token::Unknown, 2)
        }
    } else if b < 250 {
        (Token::Interval(b), 1)
    } else {
        (Token::Interval(medium_interval(b, byte_or(dat, 1, 1))), 2)
    }
}

/// `dat` without its first `n` bytes.
pub open spec fn behind(dat: Seq<u8>, n: int) -> Seq<u8> {
    if n < dat.len() {
        dat.skip(n)
    } else {
        Seq::empty()
    }
}

/// The tokens of a stream, up to a zero byte or to its end.
pub open spec fn tokens_of(dat: Seq<u8>) -> Seq<Token>
    decreases dat.len(),
{
    if dat.len() == 0 || dat[0] == 0 {
        Seq::empty()
    } else {
        let (token, n) = first_token(dat);
        seq![token] + tokens_of(behind(dat, n))
    }
}

/// What has been read of a stream.
#[verifier::ext_equal]
pub struct Reading {
    /// The ticks between reversals.
    pub flux: Seq<int>,
    /// The ticks from each index pulse to the next.
    pub index: Seq<int>,
    /// The ticks since the last reversal.
    pub ticks: int,
    /// The ticks from the last index pulse to the last reversal.
    pub since_index: int,
}

pub open spec fn nothing_read() -> Reading {
    Reading { flux: Seq::empty(), index: Seq::empty(), ticks: 0, since_index: 0 }
}

pub open spec fn take_token(r: Reading, t: Token) -> Reading {
    match t {
        Token::Interval(v) => Reading {
            flux: r.flux.push(r.ticks + v),
            index: r.index,
            ticks: 0,
            since_index: r.since_index + r.ticks + v,
        },
        Token::Space(v) => Reading { ticks: r.ticks + v, ..r },
        Token::Index(v) => Reading { index: r.index.push(r.since_index + v), since_index: 0, ..r },
        Token::Unknown => r,
    }
}

pub open spec fn take_tokens(r: Reading, tokens: Seq<Token>) -> Reading
    decreases tokens.len(),
{
    if tokens.len() == 0 {
        r
    } else {
        take_tokens(take_token(r, tokens[0]), tokens.drop_first())
    }
}

/// Whether the counters stay within 32 bits when `t` is taken.
pub open spec fn token_fits(r: Reading, t: Token) -> bool {
    match t {
        Token::Interval(v) => r.since_index + r.ticks + v <= u32::MAX,
        Token::Space(v) => r.ticks + v <= u32::MAX,
        Token::Index(v) => r.since_index + v <= u32::MAX,
        Token::Unknown => true,
    }
}

pub open spec fn tokens_fit(r: Reading, tokens: Seq<Token>) -> bool
    decreases tokens.len(),
{
    if tokens.len() == 0 {
        true
    } else {
        token_fits(r, tokens[0]) && tokens_fit(take_token(r, tokens[0]), tokens.drop_first())
    }
}

/// What a stream says.
pub open spec fn reading_of(dat: Seq<u8>) -> Reading {
    take_tokens(nothing_read(), tokens_of(dat))
}

/// Whether no counter overflows while the stream is read.
pub open spec fn stream_fits(dat: Seq<u8>) -> bool {
    tokens_fit(nothing_read(), tokens_of(dat))
}

/// Whether `v` holds the numbers of `s`.
pub open spec fn holds(v: Seq<u32>, s: Seq<int>) -> bool {
    v.map_values(|x: u32| x as int) == s
}

/// The byte `k` behind `pos`, without its low bit, halved.
fn seven_bits(dat: &[u8], pos: usize, k: usize) -> (v: u32)
    requires
        pos <= dat.len(),
    ensures
        v == byte_or(dat@, pos + k, 0) / 2,
        v < 128,
{
    if k < dat.len() - pos {
        (dat[pos + k] / 2) as u32
    } else {
        0
    }
}

/// The 28-bit number two bytes behind `pos`.
fn read_number(dat: &[u8], pos: usize) -> (v: u32)
    requires
        pos <= dat.len(),
    ensures
        v == number_at(dat@, pos + 2),
        v < 0x1000_0000,
{
    let b0: u32 = seven_bits(dat, pos, 2);
    let b1: u32 = seven_bits(dat, pos, 3);
    let b2: u32 = seven_bits(dat, pos, 4);
    let b3: u32 = seven_bits(dat, pos, 5);
    b0 + 128 * b1 + 16384 * b2 + 2097152 * b3
}

proof fn lemma_holds_push(v: Seq<u32>, s: Seq<int>, x: u32)
    requires
        holds(v, s),
    ensures
        holds(v.push(x), s.push(x as int)),
{
    assert(v.push(x).map_values(|x: u32| x as int) =~= s.push(x as int));
}

/// The reading goes on behind the first token.
pub(crate) proof fn lemma_next_token(dat: Seq<u8>, pos: int, r: Reading)
    requires
        0 <= pos < dat.len(),
        dat[pos] != 0,
    ensures
        ({
            let rest = dat.skip(pos);
            let (t, n) = first_token(rest);
            let next = if pos + n < dat.len() {
                pos + n
            } else {
                dat.len() as int
            };
            &&& take_tokens(r, tokens_of(rest)) == take_tokens(
                take_token(r, t),
                tokens_of(dat.skip(next)),
            )
            &&& tokens_fit(r, tokens_of(rest)) == (token_fits(r, t) && tokens_fit(
                take_token(r, t),
                tokens_of(dat.skip(next)),
            ))
        }),
{
    let rest = dat.skip(pos);
    let (t, n) = first_token(rest);
    let next = if pos + n < dat.len() {
        pos + n
    } else {
        dat.len() as int
    };
    assert(behind(rest, n) =~= dat.skip(next));
    let all = tokens_of(rest);
    assert(all == seq![t] + tokens_of(dat.skip(next)));
    assert(all[0] == t);
    assert(all.drop_first() =~= tokens_of(dat.skip(next)));
}

/// Decodes the flux stream of a track into the intervals between reversals and
/// the times of the index pulses, or reports that a counter overflows.
pub fn try_decode_flux(dat: &[u8]) -> (r: Option<(Vec<u32>, Vec<u32>)>)
    ensures
        r is Some <==> stream_fits(dat@),
        r matches Some(p) ==> holds(p.0@, reading_of(dat@).flux) && holds(
            p.1@,
            reading_of(dat@).index,
        ),
{
    let mut flux: Vec<u32> = Vec::new();
    let mut index: Vec<u32> = Vec::new();
    let mut ticks: u32 = 0;
    let mut since_index: u32 = 0;
    let mut pos: usize = 0;
    let ghost mut now = nothing_read();
    proof {
        assert(dat@.skip(0) =~= dat@);
        assert(flux@.map_values(|x: u32| x as int) =~= now.flux);
        assert(index@.map_values(|x: u32| x as int) =~= now.index);
    }
    while pos < dat.len() && dat[pos] != 0
        invariant
            pos <= dat.len(),
            holds(flux@, now.flux),
            holds(index@, now.index),
            ticks == now.ticks,
            since_index == now.since_index,
            take_tokens(now, tokens_of(dat@.skip(pos as int))) == reading_of(dat@),
            tokens_fit(now, tokens_of(dat@.skip(pos as int))) == stream_fits(dat@),
        decreases dat.len() - pos,
    {
        let b: u8 = dat[pos];
        let ghost rest = dat@.skip(pos as int);
        proof {
            lemma_next_token(dat@, pos as int, now);
            assert(rest[0] == b);
            if pos + 1 < dat.len() {
                assert(rest[1] == dat@[pos + 1]);
            }
            assert forall|i: int| 0 <= i implies byte_or(rest, i, 0) == #[trigger] byte_or(
                dat@,
                pos + i,
                0,
            ) by {}
            assert(number_at(rest, 2) == number_at(dat@, pos + 2)) by {
                assert(byte_or(rest, 2, 0) == byte_or(dat@, pos + 2, 0));
                assert(byte_or(rest, 3, 0) == byte_or(dat@, pos + 3, 0));
                assert(byte_or(rest, 4, 0) == byte_or(dat@, pos + 4, 0));
                assert(byte_or(rest, 5, 0) == byte_or(dat@, pos + 5, 0));
            }
        }
        let mut used: usize = 2;
        if b == 255 {
            let op: u8 = if 1 < dat.len() - pos {
                dat[pos + 1]
            } else {
                0
            };
            if op == FLUX_INDEX {
                let val: u32 = read_number(dat, pos);
                match since_index.checked_add(val) {
                    None => {
                        return None;
                    },
                    Some(t) => {
                        proof {
                            lemma_holds_push(index@, now.index, t);
                        }
                        index.push(t);
                        since_index = 0;
                    },
                }
                used = 6;
            } else if op == FLUX_SPACE {
                let val: u32 = read_number(dat, pos);
                match ticks.checked_add(val) {
                    None => {
                        return None;
                    },
                    Some(t) => {
                        ticks = t;
                    },
                }
                used = 6;
            }
        } else {
            let val: u32 = if b < 250 {
                used = 1;
                b as u32
            } else {
                let second: u32 = if 1 < dat.len() - pos {
                    dat[pos + 1] as u32
                } else {
                    1
                };
                250 + (b as u32 - 250) * 255 + second.saturating_sub(1)
            };
            let (t, s): (u32, u32) = match ticks.checked_add(val) {
                None => {
                    return None;
                },
                Some(t) => match since_index.checked_add(t) {
                    None => {
                        return None;
                    },
                    Some(s) => (t, s),
                },
            };
            proof {
                lemma_holds_push(flux@, now.flux, t);
            }
            flux.push(t);
            since_index = s;
            ticks = 0;
        }
        proof {
            now = take_token(now, first_token(rest).0);
        }
        if used < dat.len() - pos {
            pos = pos + used;
        } else {
            pos = dat.len();
        }
    }
    proof {
        let rest = dat@.skip(pos as int);
        assert(tokens_of(rest) =~= Seq::<Token>::empty());
    }
    Some((flux, index))
}

/// Decodes the flux stream of a track into the intervals between reversals and
/// the times of the index pulses, in ticks. No counter may overflow: see
/// [`try_decode_flux`].
pub fn decode_flux(dat: &[u8]) -> (r: (Vec<u32>, Vec<u32>))
    requires
        stream_fits(dat@),
    ensures
        holds(r.0@, reading_of(dat@).flux),
        holds(r.1@, reading_of(dat@).index),
{
    match try_decode_flux(dat) {
        Some(r) => r,
        None => (Vec::new(), Vec::new()),
    }
}

} // verus!
