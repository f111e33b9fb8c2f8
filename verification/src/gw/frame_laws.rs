//! What goes over the wire, byte by byte.

use super::ack_error;
use super::ack_message;
use super::holds;
use super::info_of;
use super::pin_is_high;
use super::BusType;
use super::Command;
use super::Payload;
use super::Pin;
use crate::error::IoErrorKind;
use crate::text::decimal;
use vstd::prelude::*;

verus! {

/// The frames of all commands that take a byte or two: the opcode, the length, and the
/// parameters as they are.
pub proof fn law_short_frames(b: u8, on: bool)
    ensures
        Command::GetInfo.spec_frame() == seq![0u8, 3, 0],
        Command::SetBusType(BusType::Ibmpc).spec_frame() == seq![14u8, 3, 1],
        Command::SetBusType(BusType::Shugart).spec_frame() == seq![14u8, 3, 2],
        Command::Select(b).spec_frame() == seq![12u8, 3, b],
        Command::Deselect.spec_frame() == seq![13u8, 2],
        Command::SetMotor(b, on).spec_frame() == seq![6u8, 4, b, if on { 1 } else { 0 }],
        Command::Seek(b).spec_frame() == seq![2u8, 3, b],
        Command::SelectHead(b).spec_frame() == seq![3u8, 3, b],
        Command::SetPin(b, on).spec_frame() == seq![19u8, 4, b, if on { 1 } else { 0 }],
        Command::GetPin(Pin::Index).spec_frame() == seq![20u8, 3, 8],
        Command::GetPin(Pin::Track0).spec_frame() == seq![20u8, 3, 26],
        Command::GetPin(Pin::WriteProtect).spec_frame() == seq![20u8, 3, 28],
        Command::GetPin(Pin::DiskChange).spec_frame() == seq![20u8, 3, 34],
        Command::GetFluxStatus.spec_frame() == seq![9u8, 2],
{
    let level: u8 = if on { 1 } else { 0 };
    assert(Command::GetInfo.spec_frame() =~= seq![0u8, 3, 0]);
    assert(Command::SetBusType(BusType::Ibmpc).spec_frame() =~= seq![14u8, 3, 1]);
    assert(Command::SetBusType(BusType::Shugart).spec_frame() =~= seq![14u8, 3, 2]);
    assert(Command::Select(b).spec_frame() =~= seq![12u8, 3, b]);
    assert(Command::Deselect.spec_frame() =~= seq![13u8, 2]);
    assert(Command::SetMotor(b, on).spec_frame() =~= seq![6u8, 4, b, level]);
    assert(Command::Seek(b).spec_frame() =~= seq![2u8, 3, b]);
    assert(Command::SelectHead(b).spec_frame() =~= seq![3u8, 3, b]);
    assert(Command::SetPin(b, on).spec_frame() =~= seq![19u8, 4, b, level]);
    assert(Command::GetPin(Pin::Index).spec_frame() =~= seq![20u8, 3, 8]);
    assert(Command::GetPin(Pin::Track0).spec_frame() =~= seq![20u8, 3, 26]);
    assert(Command::GetPin(Pin::WriteProtect).spec_frame() =~= seq![20u8, 3, 28]);
    assert(Command::GetPin(Pin::DiskChange).spec_frame() =~= seq![20u8, 3, 34]);
    assert(Command::GetFluxStatus.spec_frame() =~= seq![9u8, 2]);
}

/// A read of flux waits for one index pulse more than there are revolutions, low byte
/// first, and for none where no revolution is asked for.
pub proof fn law_flux_frame(revs: u16)
    requires
        revs < u16::MAX,
    ensures
        ({
            let f = Command::ReadFlux(revs).spec_frame();
            &&& f.len() == 8
            &&& f[0] == 7 && f[1] == 8
            &&& f[2] == 0 && f[3] == 0 && f[4] == 0 && f[5] == 0
            &&& f[6] + 256 * f[7] == (if revs == 0 { 0int } else { revs + 1 })
        }),
{
}

/// What follows a good answer: 32 bytes of information, one byte for a pin, a stream for
/// flux, and nothing else.
pub proof fn law_payloads(c: Command)
    ensures
        c == Command::GetInfo ==> c.payload() == Payload::Bytes(32),
        c is GetPin ==> c.payload() == Payload::Bytes(1),
        c is ReadFlux ==> c.payload() == Payload::Stream,
        !(c == Command::GetInfo || c is GetPin || c is ReadFlux) ==> c.payload()
            == Payload::Nothing,
{
}

/// An answer is good only if it repeats the opcode and its result is zero; the result 2
/// says that the disk is gone; the message names the numbers.
pub proof fn law_answers_are_judged(opcode: u8, echo: u8, result: u8)
    ensures
        ack_error(opcode, echo, result) is None <==> echo == opcode && result == 0,
        echo != opcode ==> ack_error(opcode, echo, result) == Some(IoErrorKind::InvalidData)
            && ack_message(opcode, echo, result) == "эхо команды "@ + decimal(echo as nat)
            + " != "@ + decimal(opcode as nat),
        echo == opcode && result == 2 ==> ack_error(opcode, echo, result) == Some(
            IoErrorKind::NotConnected,
        ),
        echo == opcode && result > 0 && result != 2 ==> ack_error(opcode, echo, result) == Some(
            IoErrorKind::Other,
        ),
        echo == opcode ==> ack_message(opcode, echo, result) == "команда "@ + decimal(
            opcode as nat,
        ) + " → ошибка "@ + decimal(result as nat),
{
}

/// The firmware says its version in its first two bytes and its ticks in four, the lowest
/// first.
pub proof fn law_firmware_is_read(major: u8, minor: u8, x: u8, y: u8, freq: u32, rest: Seq<u8>)
    ensures
        ({
            let b = seq![
                major,
                minor,
                x,
                y,
                (freq % 0x100) as u8,
                (freq / 0x100 % 0x100) as u8,
                (freq / 0x1_0000 % 0x100) as u8,
                (freq / 0x100_0000) as u8,
            ] + rest;
            let i = info_of(b);
            &&& i.major == major
            &&& i.minor == minor
            &&& i.sample_freq == freq
        }),
{
    let head = seq![major, minor, x, y];
    crate::bytes::law_numbers_are_read(head, freq, rest);
    let b = seq![
        major,
        minor,
        x,
        y,
        (freq % 0x100) as u8,
        (freq / 0x100 % 0x100) as u8,
        (freq / 0x1_0000 % 0x100) as u8,
        (freq / 0x100_0000) as u8,
    ] + rest;
    assert(b =~= head + seq![
        (freq % 0x100) as u8,
        (freq / 0x100 % 0x100) as u8,
        (freq / 0x1_0000 % 0x100) as u8,
        (freq / 0x100_0000) as u8,
    ] + rest);
}

/// Numbers that are held are all held, each as it is.
pub proof fn law_numbers_are_held(v: Seq<u32>, s: Seq<int>, i: int)
    requires
        holds(v, s),
        0 <= i < s.len(),
    ensures
        v.len() == s.len(),
        v[i] == s[i],
{
    assert(v.map_values(|x: u32| x as int)[i] == s[i]);
}

/// A pin is low exactly where its byte is zero.
pub proof fn law_pins_are_read(byte: u8)
    ensures
        pin_is_high(byte) <==> byte > 0,
{
}

} // verus!
