//! What holds of every command line.

use super::args_from;
use super::default_args;
use super::digits_value;
use super::number_in;
use super::plan_of;
use super::takes_value;
use super::unit_in;
use super::with_flag;
use super::with_value;
use super::ArgsView;
use super::PlanView;
use crate::gw::BusType;
use crate::text::decimal;
use crate::text::law_decimal_says_number;
use crate::text::said;
use vstd::prelude::*;

verus! {

/// Whether a text is a row of digits.
pub open spec fn all_digits(s: Seq<char>) -> bool {
    s.len() > 0 && forall|i: int| 0 <= i < s.len() ==> '0' <= #[trigger] s[i] <= '9'
}

proof fn lemma_digits_say(s: Seq<char>)
    requires
        forall|i: int| 0 <= i < s.len() ==> '0' <= #[trigger] s[i] <= '9',
    ensures
        digits_value(s) matches Some(v) && v == said(s),
        said(s) >= 0,
    decreases s.len(),
{
    if s.len() > 0 {
        let head = s.drop_last();
        assert('0' <= s[s.len() - 1] <= '9');
        assert forall|i: int| 0 <= i < head.len() implies '0' <= #[trigger] head[i] <= '9' by {
            assert(head[i] == s[i]);
        }
        lemma_digits_say(head);
    }
}

/// A row of digits is the number that it says, with a plus sign before it or not, as far
/// as the number is not too large.
pub proof fn law_digits_are_numbers(s: Seq<char>, max: nat)
    requires
        all_digits(s),
    ensures
        said(s) <= max ==> (number_in(s, max) matches Some(v) && v == said(s)) && (number_in(
            seq!['+'] + s,
            max,
        ) matches Some(w) && w == said(s)),
        said(s) > max ==> number_in(s, max) is None && number_in(seq!['+'] + s, max) is None,
{
    lemma_digits_say(s);
    assert('0' <= s[0] <= '9');
    assert((seq!['+'] + s).skip(1) =~= s);
    assert((seq!['+'] + s)[0] == '+');
}

/// A number in decimal is read back.
pub proof fn law_decimal_is_read(n: nat, max: nat)
    ensures
        n <= max ==> number_in(decimal(n), max) == Some(n),
        n > max ==> number_in(decimal(n), max) is None,
{
    law_decimal_says_number(n);
    law_digits_are_numbers(decimal(n), max);
}

proof fn lemma_no_digits(s: Seq<char>, i: int)
    requires
        0 <= i < s.len(),
        !('0' <= s[i] <= '9'),
    ensures
        digits_value(s) is None,
    decreases s.len(),
{
    if i < s.len() - 1 {
        assert(s.drop_last()[i] == s[i]);
        lemma_no_digits(s.drop_last(), i);
    }
}

/// A text with anything but digits behind an optional plus sign is no number; nor is one
/// without a digit.
pub proof fn law_other_texts_are_no_numbers(s: Seq<char>, i: int, max: nat)
    requires
        0 <= i < s.len(),
        !('0' <= s[i] <= '9'),
        i > 0 || s[0] != '+' || s.len() == 1,
    ensures
        number_in(s, max) is None,
        number_in(Seq::empty(), max) is None,
{
    if s[0] == '+' {
        if i > 0 {
            assert(s.skip(1)[i - 1] == s[i]);
            lemma_no_digits(s.skip(1), i - 1);
        }
    } else {
        lemma_no_digits(s, i);
    }
}

/// The drives: `A` and `B` are the two of a PC, a number of one byte is a unit on the
/// Shugart bus.
pub proof fn law_drives_are_named(n: nat)
    ensures
        unit_in("A"@) == Some((0u8, BusType::Ibmpc)),
        unit_in("a"@) == Some((0u8, BusType::Ibmpc)),
        unit_in("B"@) == Some((1u8, BusType::Ibmpc)),
        unit_in("b"@) == Some((1u8, BusType::Ibmpc)),
        n <= 255 ==> unit_in(decimal(n)) == Some((n as u8, BusType::Shugart)),
        n > 255 ==> unit_in(decimal(n)) is None,
{
    reveal_strlit("A");
    reveal_strlit("a");
    reveal_strlit("B");
    reveal_strlit("b");
    assert("A"@[0] == 'A' && "a"@[0] == 'a' && "B"@[0] == 'B' && "b"@[0] == 'b');
    law_decimal_says_number(n);
    assert('0' <= decimal(n)[0] <= '9');
    law_decimal_is_read(n, 255);
}

/// What holds where nothing is said: unit 0 on the Shugart bus, three revolutions, and
/// nothing else.
pub proof fn law_nothing_said()
    ensures
        ({
            let a = default_args();
            &&& args_from(a, Seq::empty(), 0) == Some(a)
            &&& a.unit == 0 && a.bus == BusType::Shugart && a.revs == 3
            &&& a.mountpoint is None && a.image is None && a.device is None && a.verify is None
                && a.step is None
            &&& !a.hd && !a.list_devices && !a.probe && !a.recover && !a.verbose && !a.help
        }),
{
}

/// All options are different words.
#[verifier::rlimit(50)]
proof fn lemma_words()
    ensures
        "--image"@.len() == 7 && "--device"@.len() == 8 && "--unit"@.len() == 6 && "--revs"@.len()
            == 6 && "--step"@.len() == 6 && "--verify"@.len() == 8,
        "--hd"@.len() == 4 && "--list-devices"@.len() == 14 && "--probe"@.len() == 7
            && "--recover"@.len() == 9 && "-v"@.len() == 2 && "--verbose"@.len() == 9 && "-h"@.len()
            == 2 && "--help"@.len() == 6 && "-?"@.len() == 2,
        "--image"@ != "--probe"@,
        "--device"@ != "--verify"@,
        "--unit"@ != "--revs"@ && "--unit"@ != "--step"@ && "--unit"@ != "--help"@,
        "--revs"@ != "--step"@ && "--revs"@ != "--help"@ && "--step"@ != "--help"@,
        "--recover"@ != "--verbose"@,
        "-v"@ != "-h"@ && "-v"@ != "-?"@ && "-h"@ != "-?"@,
{
    reveal_strlit("--image");
    reveal_strlit("--device");
    reveal_strlit("--unit");
    reveal_strlit("--revs");
    reveal_strlit("--step");
    reveal_strlit("--verify");
    reveal_strlit("--hd");
    reveal_strlit("--list-devices");
    reveal_strlit("--probe");
    reveal_strlit("--recover");
    reveal_strlit("-v");
    reveal_strlit("--verbose");
    reveal_strlit("-h");
    reveal_strlit("--help");
    reveal_strlit("-?");
    assert("--image"@[2] == 'i' && "--probe"@[2] == 'p');
    assert("--device"@[2] == 'd' && "--verify"@[2] == 'v');
    assert("--unit"@[2] == 'u' && "--revs"@[2] == 'r' && "--step"@[2] == 's' && "--help"@[2]
        == 'h');
    assert("--recover"@[2] == 'r' && "--verbose"@[2] == 'v');
    assert("-v"@[1] == 'v' && "-h"@[1] == 'h' && "-?"@[1] == '?');
}

/// An option with a value sets what it names to that value, and nothing else.
pub proof fn law_values_are_taken(a: ArgsView, value: Seq<char>, n: nat)
    ensures
        with_value(a, "--image"@, value) == Some(ArgsView { image: Some(value), ..a }),
        with_value(a, "--device"@, value) == Some(ArgsView { device: Some(value), ..a }),
        with_value(a, "--verify"@, value) == Some(ArgsView { verify: Some(value), ..a }),
        n <= 65535 ==> with_value(a, "--revs"@, decimal(n)) == Some(
            ArgsView { revs: n as u16, ..a },
        ),
        n > 65535 ==> with_value(a, "--revs"@, decimal(n)) is None,
        n <= 255 ==> with_value(a, "--step"@, decimal(n)) == Some(
            ArgsView { step: Some(n as u8), ..a },
        ),
        n > 255 ==> with_value(a, "--step"@, decimal(n)) is None,
        n <= 255 ==> with_value(a, "--unit"@, decimal(n)) == Some(
            ArgsView { unit: n as u8, bus: BusType::Shugart, ..a },
        ),
        n > 255 ==> with_value(a, "--unit"@, decimal(n)) is None,
        with_value(a, "--unit"@, "A"@) == Some(ArgsView { unit: 0, bus: BusType::Ibmpc, ..a }),
        with_value(a, "--unit"@, "B"@) == Some(ArgsView { unit: 1, bus: BusType::Ibmpc, ..a }),
{
    lemma_words();
    law_decimal_is_read(n, 65535);
    law_decimal_is_read(n, 255);
    law_drives_are_named(n);
}

/// An option without a value sets its switch, and nothing else.
pub proof fn law_switches_are_set(a: ArgsView)
    ensures
        with_flag(a, "--hd"@) == (ArgsView { hd: true, ..a }),
        with_flag(a, "--list-devices"@) == (ArgsView { list_devices: true, ..a }),
        with_flag(a, "--probe"@) == (ArgsView { probe: true, ..a }),
        with_flag(a, "--recover"@) == (ArgsView { recover: true, ..a }),
        with_flag(a, "-v"@) == (ArgsView { verbose: true, ..a }),
        with_flag(a, "--verbose"@) == (ArgsView { verbose: true, ..a }),
        with_flag(a, "-h"@) == (ArgsView { help: true, ..a }),
        with_flag(a, "--help"@) == (ArgsView { help: true, ..a }),
        with_flag(a, "-?"@) == (ArgsView { help: true, ..a }),
{
    lemma_words();
}

/// Whether a text is the name of an option.
pub open spec fn is_option(s: Seq<char>) -> bool {
    ||| s == "--image"@ || s == "--device"@ || s == "--unit"@ || s == "--revs"@ || s == "--step"@
    ||| s == "--verify"@ || s == "--hd"@ || s == "--list-devices"@ || s == "--probe"@
    ||| s == "--recover"@ || s == "-v"@ || s == "--verbose"@ || s == "-h"@ || s == "--help"@
    ||| s == "-?"@
}

/// What is no option is the mount point.
pub proof fn law_rest_is_mount_point(a: ArgsView, s: Seq<char>)
    requires
        !is_option(s),
    ensures
        !takes_value(s),
        with_flag(a, s) == (ArgsView { mountpoint: Some(s), ..a }),
{
}

proof fn lemma_args_shift(a: ArgsView, head: Seq<Seq<char>>, rest: Seq<Seq<char>>, i: int)
    requires
        0 <= i,
    ensures
        args_from(a, head + rest, head.len() + i) == args_from(a, rest, i),
    decreases rest.len() - i,
{
    let all = head + rest;
    let n = head.len() as int;
    if i < rest.len() {
        assert(all[n + i] == rest[i]);
        if takes_value(rest[i]) {
            if i + 1 < rest.len() {
                assert(all[n + i + 1] == rest[i + 1]);
                if let Some(next) = with_value(a, rest[i], rest[i + 1]) {
                    lemma_args_shift(next, head, rest, i + 2);
                }
            }
        } else {
            lemma_args_shift(with_flag(a, rest[i]), head, rest, i + 1);
        }
    }
}

/// Arguments are taken one after the other: an option with its value, or a single word,
/// changes what came before, and the rest goes on from there.
pub proof fn law_arguments_in_turn(
    a: ArgsView,
    s: Seq<char>,
    value: Seq<char>,
    rest: Seq<Seq<char>>,
)
    ensures
        ({
            let named = s == "--image"@ || s == "--device"@ || s == "--unit"@ || s == "--revs"@ || s
                == "--step"@ || s == "--verify"@;
            &&& named ==> args_from(a, seq![s, value] + rest, 0) == (match with_value(
                a,
                s,
                value,
            ) {
                Some(next) => args_from(next, rest, 0),
                None => None,
            })
            &&& named ==> args_from(a, seq![s], 0) is None
            &&& !named ==> args_from(a, seq![s] + rest, 0) == args_from(with_flag(a, s), rest, 0)
        }),
{
    let two = seq![s, value];
    let one = seq![s];
    if takes_value(s) {
        assert((two + rest)[0] == s && (two + rest)[1] == value);
        if let Some(next) = with_value(a, s, value) {
            lemma_args_shift(next, two, rest, 0);
        }
        assert(one[0] == s);
    } else {
        assert((one + rest)[0] == s);
        lemma_args_shift(with_flag(a, s), one, rest, 0);
    }
}

/// What is done, in the order of precedence: help, the list of devices, a diagnosis, a
/// comparison, a mount; an image goes before a device, and without either there is the
/// file system without a disk.
pub proof fn law_plans(a: ArgsView)
    ensures
        a.help ==> plan_of(a) == PlanView::Help,
        !a.help && a.list_devices ==> plan_of(a) == PlanView::ListDevices,
        !a.help && !a.list_devices && a.probe ==> (match a.device {
            Some(d) => plan_of(a) == PlanView::Probe(d),
            None => plan_of(a) == PlanView::ProbeNeedsDevice,
        }),
        !a.help && !a.list_devices && !a.probe ==> match (a.verify, a.mountpoint) {
            (Some(r), _) => (a.image matches Some(f) ==> plan_of(a) == PlanView::VerifyImage(r, f))
                && (a.image is None && a.device is Some ==> plan_of(a) == PlanView::VerifyDevice(
                r,
                a.device->0,
            )) && (a.image is None && a.device is None ==> plan_of(a) == PlanView::VerifyHello(r)),
            (None, Some(m)) => (a.image matches Some(f) ==> plan_of(a) == PlanView::Image(m, f))
                && (a.image is None && a.device is Some ==> plan_of(a) == PlanView::Device(
                m,
                a.device->0,
            )) && (a.image is None && a.device is None ==> plan_of(a) == PlanView::Hello(m)),
            (None, None) => plan_of(a) == PlanView::NeedsMountpoint,
        },
{
}

} // verus!
