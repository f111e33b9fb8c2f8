//! The flux stream and the commands of the device.

use floppy_mac::error::IoErrorKind;
use floppy_mac::gw::check_ack;
use floppy_mac::gw::decode_flux;
use floppy_mac::gw::parse_info;
use floppy_mac::gw::parse_pin;
use floppy_mac::gw::stream_piece;
use floppy_mac::gw::try_decode_flux;
use floppy_mac::gw::BusType;
use floppy_mac::gw::Command;
use floppy_mac::gw::Payload;
use floppy_mac::gw::Pin;
use floppy_mac::gw::FLUX_INDEX;
use floppy_mac::gw::FLUX_SPACE;

/// The stream of the given intervals.
fn encode_flux(intervals: &[u32]) -> Vec<u8> {
    let mut out = Vec::new();
    for &v in intervals {
        if v < 250 {
            out.push(v as u8);
        } else if v < 250 + 5 * 255 {
            let q = v - 250;
            out.push((250 + q / 255) as u8);
            out.push((q % 255 + 1) as u8);
        } else {
            out.push(255);
            out.push(FLUX_SPACE);
            let val = v - 1;
            out.push((((val) & 0x7f) << 1) as u8 | 1);
            out.push((((val >> 7) & 0x7f) << 1) as u8 | 1);
            out.push((((val >> 14) & 0x7f) << 1) as u8 | 1);
            out.push((((val >> 21) & 0x7f) << 1) as u8 | 1);
            out.push(1);
        }
    }
    out.push(0);
    out
}

#[test]
fn flux_wire_roundtrip_small_and_medium() {
    let intervals: Vec<u32> = (100..900).step_by(37).collect();
    let raw = encode_flux(&intervals);
    let (flux, _idx) = decode_flux(&raw);
    assert_eq!(flux, intervals);
}

#[test]
fn flux_wire_decodes_literals() {
    let raw = vec![3u8, 7, 200, 0];
    let (flux, _idx) = decode_flux(&raw);
    assert_eq!(flux, vec![3, 7, 200]);
}

#[test]
fn flux_wire_index_pulse() {
    let mut raw = vec![100u8, 255, FLUX_INDEX];
    for shift in [0u32, 7, 14, 21] {
        raw.push((((5u32 >> shift) & 0x7f) << 1) as u8 | 1);
    }
    raw.push(50);
    raw.push(0);
    let (flux, index) = decode_flux(&raw);
    assert_eq!(flux, vec![100, 50]);
    assert_eq!(index, vec![105]);
}

#[test]
fn long_intervals_come_back() {
    let intervals = vec![1u32, 249, 250, 1524, 1525, 70_000, 0x1000_0000, 1];
    let (flux, index) = decode_flux(&encode_flux(&intervals));
    assert_eq!(flux, intervals);
    assert_eq!(index, Vec::<u32>::new());
}

#[test]
fn bytes_behind_the_end_do_not_count() {
    let (flux, _) = decode_flux(&[3, 0, 7, 7]);
    assert_eq!(flux, vec![3]);
}

#[test]
fn unknown_operations_are_skipped() {
    let (flux, index) = decode_flux(&[3, 255, 9, 4, 0]);
    assert_eq!(flux, vec![3, 4]);
    assert!(index.is_empty());
}

#[test]
fn cut_streams_are_taken_as_far_as_they_go() {
    assert_eq!(decode_flux(&[]).0, Vec::<u32>::new());
    assert_eq!(decode_flux(&[5, 255]).0, vec![5]);
    // A two-byte interval without its second byte, and with a zero there.
    assert_eq!(decode_flux(&[251]).0, vec![505]);
    assert_eq!(decode_flux(&[251, 0, 4, 0]).0, vec![505, 4]);
    // A space without all of its bytes.
    assert_eq!(decode_flux(&[255, FLUX_SPACE, 21]).0, Vec::<u32>::new());
}

#[test]
fn overflow_is_reported() {
    let mut raw = Vec::new();
    for _ in 0..17 {
        raw.extend_from_slice(&[255, FLUX_SPACE, 255, 255, 255, 255]);
    }
    raw.push(0);
    assert!(try_decode_flux(&raw).is_none());
    let intervals = vec![0x1000_0000u32; 15];
    assert_eq!(try_decode_flux(&encode_flux(&intervals)).unwrap().0, intervals);
    let intervals = vec![0x1000_0000u32; 17];
    assert!(try_decode_flux(&encode_flux(&intervals)).is_none());
}

#[test]
fn commands_are_framed() {
    assert_eq!(Command::GetInfo.frame(), vec![0, 3, 0]);
    assert_eq!(Command::SetBusType(BusType::Ibmpc).frame(), vec![14, 3, 1]);
    assert_eq!(Command::SetBusType(BusType::Shugart).frame(), vec![14, 3, 2]);
    assert_eq!(Command::Select(1).frame(), vec![12, 3, 1]);
    assert_eq!(Command::Deselect.frame(), vec![13, 2]);
    assert_eq!(Command::SetMotor(1, true).frame(), vec![6, 4, 1, 1]);
    assert_eq!(Command::SetMotor(1, false).frame(), vec![6, 4, 1, 0]);
    assert_eq!(Command::Seek(79).frame(), vec![2, 3, 79]);
    assert_eq!(Command::SelectHead(1).frame(), vec![3, 3, 1]);
    assert_eq!(Command::SetPin(2, false).frame(), vec![19, 4, 2, 0]);
    assert_eq!(Command::GetPin(Pin::DiskChange).frame(), vec![20, 3, 34]);
    assert_eq!(Command::GetPin(Pin::Track0).frame(), vec![20, 3, 26]);
    assert_eq!(Command::ReadFlux(3).frame(), vec![7, 8, 0, 0, 0, 0, 4, 0]);
    assert_eq!(Command::ReadFlux(0).frame(), vec![7, 8, 0, 0, 0, 0, 0, 0]);
    assert_eq!(Command::ReadFlux(300).frame(), vec![7, 8, 0, 0, 0, 0, 45, 1]);
    assert_eq!(Command::GetFluxStatus.frame(), vec![9, 2]);
    assert_eq!(Command::GetInfo.payload(), Payload::Bytes(32));
    assert_eq!(Command::GetPin(Pin::Index).payload(), Payload::Bytes(1));
    assert_eq!(Command::ReadFlux(1).payload(), Payload::Stream);
    assert_eq!(Command::Deselect.payload(), Payload::Nothing);
}

#[test]
fn answers_are_judged() {
    assert!(check_ack(7, 7, 0).is_ok());
    let e = check_ack(7, 9, 0).unwrap_err();
    assert_eq!(e.kind, IoErrorKind::InvalidData);
    assert_eq!(e.message, "эхо команды 9 != 7");
    let e = check_ack(7, 7, 2).unwrap_err();
    assert_eq!(e.kind, IoErrorKind::NotConnected);
    let e = check_ack(7, 7, 131).unwrap_err();
    assert_eq!(e.kind, IoErrorKind::Other);
    assert_eq!(e.message, "команда 7 → ошибка 131");
}

#[test]
fn firmware_info_is_read() {
    let mut bytes = [0u8; 32];
    bytes[0] = 1;
    bytes[1] = 4;
    bytes[4..8].copy_from_slice(&72_000_000u32.to_le_bytes());
    let info = parse_info(&bytes);
    assert_eq!((info.major, info.minor, info.sample_freq), (1, 4, 72_000_000));
    assert!(parse_pin(1));
    assert!(!parse_pin(0));
}

#[test]
fn a_stream_is_read_up_to_a_zero() {
    assert!(stream_piece(&[1, 2], 2).is_none());
    assert!(matches!(stream_piece(&[1, 2, 0], 1), Some(Ok(()))));
    match stream_piece(&[1, 2], 0) {
        Some(Err(e)) => assert_eq!(e.kind, IoErrorKind::UnexpectedEof),
        _ => panic!("an empty piece ends the stream"),
    }
}

#[test]
fn a_stream_holds_one_zero_byte() {
    let raw = encode_flux(&[1, 249, 250, 505, 1524, 1525, 16_385, 0x1000_0000]);
    let zeros: Vec<usize> = (0..raw.len()).filter(|&i| raw[i] == 0).collect();
    assert_eq!(zeros, vec![raw.len() - 1]);
    assert!(stream_piece(&raw[..raw.len() - 1], 1).is_none());
    assert!(matches!(stream_piece(&raw, 1), Some(Ok(()))));
}
