//! The command line.

pub mod laws;

use crate::gw::BusType;
use crate::text::same_text;
use crate::text::texts;
use vstd::prelude::*;
use vstd::string::StrSliceExecFns;

verus! {

/// What the user asks for.
#[derive(Debug)]
pub struct Args {
    pub mountpoint: Option<String>,
    pub image: Option<String>,
    pub device: Option<String>,
    pub unit: u8,
    pub bus: BusType,
    pub hd: bool,
    pub revs: u16,
    pub step: Option<u8>,
    pub list_devices: bool,
    pub probe: bool,
    pub recover: bool,
    pub verify: Option<String>,
    pub verbose: bool,
    pub help: bool,
}

/// What [`Args`] say.
#[verifier::ext_equal]
pub struct ArgsView {
    pub mountpoint: Option<Seq<char>>,
    pub image: Option<Seq<char>>,
    pub device: Option<Seq<char>>,
    pub unit: u8,
    pub bus: BusType,
    pub hd: bool,
    pub revs: u16,
    pub step: Option<u8>,
    pub list_devices: bool,
    pub probe: bool,
    pub recover: bool,
    pub verify: Option<Seq<char>>,
    pub verbose: bool,
    pub help: bool,
}

pub open spec fn text_view(s: Option<String>) -> Option<Seq<char>> {
    match s {
        Some(t) => Some(t@),
        None => None,
    }
}

impl View for Args {
    type V = ArgsView;

    open spec fn view(&self) -> ArgsView {
        ArgsView {
            mountpoint: text_view(self.mountpoint),
            image: text_view(self.image),
            device: text_view(self.device),
            unit: self.unit,
            bus: self.bus,
            hd: self.hd,
            revs: self.revs,
            step: self.step,
            list_devices: self.list_devices,
            probe: self.probe,
            recover: self.recover,
            verify: text_view(self.verify),
            verbose: self.verbose,
            help: self.help,
        }
    }
}

/// The value of a decimal digit, -1 for any other character.
pub open spec fn digit_value(c: char) -> int {
    if '0' <= c <= '9' {
        c as int - '0' as int
    } else {
        -1
    }
}

/// The value of a row of digits. `None` where another character stands in it.
pub open spec fn digits_value(s: Seq<char>) -> Option<nat>
    decreases s.len(),
{
    if s.len() == 0 {
        Some(0)
    } else {
        match digits_value(s.drop_last()) {
            Some(v) if digit_value(s.last()) >= 0 => Some(
                (10 * v + digit_value(s.last())) as nat,
            ),
            _ => None,
        }
    }
}

/// The number that a text stands for: at least one digit, a plus sign before them or
/// not, at most `max`.
pub open spec fn number_in(s: Seq<char>, max: nat) -> Option<nat> {
    let digits = if s.len() > 0 && s[0] == '+' {
        s.skip(1)
    } else {
        s
    };
    match digits_value(digits) {
        Some(v) if digits.len() > 0 && v <= max => Some(v),
        _ => None,
    }
}

proof fn lemma_digits_grow(s: Seq<char>, n: int)
    requires
        0 <= n <= s.len(),
    ensures
        digits_value(s.take(n)) is None ==> digits_value(s) is None,
        digits_value(s.take(n)) matches Some(v) ==> (digits_value(s) matches Some(w) ==> v <= w),
    decreases s.len() - n,
{
    if n == s.len() {
        assert(s.take(n) =~= s);
    } else {
        assert(s.take(n + 1).drop_last() =~= s.take(n));
        lemma_digits_grow(s, n + 1);
    }
}

/// Reads a number of at most `max`.
fn parse_number(s: &str, max: u16) -> (r: Option<u16>)
    ensures
        (match r {
            Some(v) => Some(v as nat),
            None => None,
        }) == number_in(s@, max as nat),
{
    let len: usize = s.unicode_len();
    let start: usize = if len > 0 && s.get_char(0) == '+' {
        1
    } else {
        0
    };
    let ghost digits = s@.skip(start as int);
    proof {
        assert(s@.skip(0) =~= s@);
        assert(digits == (if s@.len() > 0 && s@[0] == '+' {
            s@.skip(1)
        } else {
            s@
        }));
    }
    if start == len {
        return None;
    }
    let mut value: u32 = 0;
    let mut i: usize = start;
    assert(digits.take(0) =~= Seq::<char>::empty());
    while i < len
        invariant
            start <= i <= len == s@.len(),
            digits == s@.skip(start as int),
            digits == (if s@.len() > 0 && s@[0] == '+' {
                s@.skip(1)
            } else {
                s@
            }),
            value <= max,
            digits_value(digits.take(i - start)) == Some(value as nat),
        decreases len - i,
    {
        let c: char = s.get_char(i);
        proof {
            assert(digits.take(i + 1 - start).drop_last() =~= digits.take(i - start));
            assert(digits.take(i + 1 - start).last() == c);
            lemma_digits_grow(digits, i + 1 - start);
        }
        if c < '0' || c > '9' {
            return None;
        }
        value = 10 * value + (c as u32 - '0' as u32);
        if value > max as u32 {
            return None;
        }
        i = i + 1;
    }
    assert(digits.take(len - start) =~= digits);
    Some(value as u16)
}

/// What a drive is called: `A` and `B` on the bus of the PC, a number on the Shugart
/// bus.
pub open spec fn unit_in(s: Seq<char>) -> Option<(u8, BusType)> {
    if s == "A"@ || s == "a"@ {
        Some((0u8, BusType::Ibmpc))
    } else if s == "B"@ || s == "b"@ {
        Some((1u8, BusType::Ibmpc))
    } else {
        match number_in(s, u8::MAX as nat) {
            Some(n) => Some((n as u8, BusType::Shugart)),
            None => None,
        }
    }
}

/// Reads the name of a drive, and says on which bus it is.
pub fn parse_unit(s: &str) -> (r: Option<(u8, BusType)>)
    ensures
        r == unit_in(s@),
{
    if same_text(s, "A") || same_text(s, "a") {
        return Some((0, BusType::Ibmpc));
    }
    if same_text(s, "B") || same_text(s, "b") {
        return Some((1, BusType::Ibmpc));
    }
    match parse_number(s, 0xFF) {
        Some(n) => Some((n as u8, BusType::Shugart)),
        None => None,
    }
}

/// What holds where the user says nothing.
pub open spec fn default_args() -> ArgsView {
    ArgsView {
        mountpoint: None,
        image: None,
        device: None,
        unit: 0,
        bus: BusType::Shugart,
        hd: false,
        revs: 3,
        step: None,
        list_devices: false,
        probe: false,
        recover: false,
        verify: None,
        verbose: false,
        help: false,
    }
}

/// Whether an argument takes the next one for its value.
pub open spec fn takes_value(s: Seq<char>) -> bool {
    s == "--image"@ || s == "--device"@ || s == "--unit"@ || s == "--revs"@ || s == "--step"@ || s
        == "--verify"@
}

/// The arguments with one more that takes a value. `None` where the value is wrong.
pub open spec fn with_value(a: ArgsView, s: Seq<char>, value: Seq<char>) -> Option<ArgsView> {
    if s == "--image"@ {
        Some(ArgsView { image: Some(value), ..a })
    } else if s == "--device"@ {
        Some(ArgsView { device: Some(value), ..a })
    } else if s == "--unit"@ {
        match unit_in(value) {
            Some((unit, bus)) => Some(ArgsView { unit, bus, ..a }),
            None => None,
        }
    } else if s == "--revs"@ {
        match number_in(value, u16::MAX as nat) {
            Some(n) => Some(ArgsView { revs: n as u16, ..a }),
            None => None,
        }
    } else if s == "--step"@ {
        match number_in(value, u8::MAX as nat) {
            Some(n) => Some(ArgsView { step: Some(n as u8), ..a }),
            None => None,
        }
    } else {
        Some(ArgsView { verify: Some(value), ..a })
    }
}

/// The arguments with one more that takes no value. What is no option is the mount
/// point.
pub open spec fn with_flag(a: ArgsView, s: Seq<char>) -> ArgsView {
    if s == "--hd"@ {
        ArgsView { hd: true, ..a }
    } else if s == "--list-devices"@ {
        ArgsView { list_devices: true, ..a }
    } else if s == "--probe"@ {
        ArgsView { probe: true, ..a }
    } else if s == "--recover"@ {
        ArgsView { recover: true, ..a }
    } else if s == "-v"@ || s == "--verbose"@ {
        ArgsView { verbose: true, ..a }
    } else if s == "-h"@ || s == "--help"@ || s == "-?"@ {
        ArgsView { help: true, ..a }
    } else {
        ArgsView { mountpoint: Some(s), ..a }
    }
}

/// What the arguments from number `i` on make of `a`. `None` where a value is missing
/// or wrong.
pub open spec fn args_from(a: ArgsView, list: Seq<Seq<char>>, i: int) -> Option<ArgsView>
    decreases list.len() - i,
{
    if i >= list.len() {
        Some(a)
    } else if takes_value(list[i]) {
        if i + 1 < list.len() {
            match with_value(a, list[i], list[i + 1]) {
                Some(next) => args_from(next, list, i + 2),
                None => None,
            }
        } else {
            None
        }
    } else {
        args_from(with_flag(a, list[i]), list, i + 1)
    }
}

fn is_any(s: &str, a: &str, b: &str) -> (r: bool)
    ensures
        r == (s@ == a@ || s@ == b@),
{
    same_text(s, a) || same_text(s, b)
}

fn value_option(s: &str) -> (r: bool)
    ensures
        r == takes_value(s@),
{
    is_any(s, "--image", "--device") || is_any(s, "--unit", "--revs") || is_any(
        s,
        "--step",
        "--verify",
    )
}

impl Args {
    fn new() -> (a: Args)
        ensures
            a@ == default_args(),
    {
        Args {
            mountpoint: None,
            image: None,
            device: None,
            unit: 0,
            bus: BusType::Shugart,
            hd: false,
            revs: 3,
            step: None,
            list_devices: false,
            probe: false,
            recover: false,
            verify: None,
            verbose: false,
            help: false,
        }
    }

    /// Takes an option with its value; `false` where the value is wrong.
    fn set_value(&mut self, s: &str, value: &String) -> (ok: bool)
        requires
            takes_value(s@),
        ensures
            ok <==> with_value(old(self)@, s@, value@) is Some,
            ok ==> with_value(old(self)@, s@, value@) == Some(final(self)@),
    {
        if same_text(s, "--image") {
            self.image = Some(value.clone());
        } else if same_text(s, "--device") {
            self.device = Some(value.clone());
        } else if same_text(s, "--unit") {
            match parse_unit(value.as_str()) {
                Some((unit, bus)) => {
                    self.unit = unit;
                    self.bus = bus;
                },
                None => {
                    return false;
                },
            }
        } else if same_text(s, "--revs") {
            match parse_number(value.as_str(), 0xFFFF) {
                Some(n) => {
                    self.revs = n;
                },
                None => {
                    return false;
                },
            }
        } else if same_text(s, "--step") {
            match parse_number(value.as_str(), 0xFF) {
                Some(n) => {
                    self.step = Some(n as u8);
                },
                None => {
                    return false;
                },
            }
        } else {
            self.verify = Some(value.clone());
        }
        true
    }

    fn set_flag(&mut self, s: &String)
        requires
            !takes_value(s@),
        ensures
            final(self)@ == with_flag(old(self)@, s@),
    {
        let t: &str = s.as_str();
        if same_text(t, "--hd") {
            self.hd = true;
        } else if same_text(t, "--list-devices") {
            self.list_devices = true;
        } else if same_text(t, "--probe") {
            self.probe = true;
        } else if same_text(t, "--recover") {
            self.recover = true;
        } else if is_any(t, "-v", "--verbose") {
            self.verbose = true;
        } else if is_any(t, "-h", "--help") || same_text(t, "-?") {
            self.help = true;
        } else {
            self.mountpoint = Some(s.clone());
        }
    }
}

/// Reads the arguments of the program, without its name.
pub fn parse_args(list: &Vec<String>) -> (r: Option<Args>)
    ensures
        (match r {
            Some(a) => Some(a@),
            None => None,
        }) == args_from(default_args(), texts(list@), 0),
{
    let mut a: Args = Args::new();
    let mut i: usize = 0;
    let ghost all = texts(list@);
    while i < list.len()
        invariant
            i <= list.len(),
            all == texts(list@),
            args_from(a@, all, i as int) == args_from(default_args(), all, 0),
        decreases list.len() - i,
    {
        assert(all[i as int] == list@[i as int]@);
        if value_option(list[i].as_str()) {
            if list.len() - i < 2 {
                return None;
            }
            assert(all[i + 1] == list@[i + 1]@);
            if !a.set_value(list[i].as_str(), &list[i + 1]) {
                return None;
            }
            i = i + 2;
        } else {
            a.set_flag(&list[i]);
            i = i + 1;
        }
    }
    Some(a)
}

/// What the program is to do.
#[derive(Debug)]
pub enum Plan {
    Help,
    ListDevices,
    /// A diagnosis was asked for, but no device was named.
    ProbeNeedsDevice,
    Probe(String),
    /// No mount point was named.
    NeedsMountpoint,
    /// Mount an image: the mount point and the file.
    Image(String, String),
    /// Mount a live disk: the mount point and the device.
    Device(String, String),
    /// Mount the file system without a disk.
    Hello(String),
    /// Compare an image with a directory: the directory and the file.
    VerifyImage(String, String),
    /// Compare a live disk with a directory: the directory and the device.
    VerifyDevice(String, String),
    /// Compare the file system without a disk with a directory.
    VerifyHello(String),
}

/// What a [`Plan`] says.
pub enum PlanView {
    Help,
    ListDevices,
    ProbeNeedsDevice,
    Probe(Seq<char>),
    NeedsMountpoint,
    Image(Seq<char>, Seq<char>),
    Device(Seq<char>, Seq<char>),
    Hello(Seq<char>),
    VerifyImage(Seq<char>, Seq<char>),
    VerifyDevice(Seq<char>, Seq<char>),
    VerifyHello(Seq<char>),
}

impl View for Plan {
    type V = PlanView;

    open spec fn view(&self) -> PlanView {
        match self {
            Plan::Help => PlanView::Help,
            Plan::ListDevices => PlanView::ListDevices,
            Plan::ProbeNeedsDevice => PlanView::ProbeNeedsDevice,
            Plan::Probe(d) => PlanView::Probe(d@),
            Plan::NeedsMountpoint => PlanView::NeedsMountpoint,
            Plan::Image(m, f) => PlanView::Image(m@, f@),
            Plan::Device(m, d) => PlanView::Device(m@, d@),
            Plan::Hello(m) => PlanView::Hello(m@),
            Plan::VerifyImage(r, f) => PlanView::VerifyImage(r@, f@),
            Plan::VerifyDevice(r, d) => PlanView::VerifyDevice(r@, d@),
            Plan::VerifyHello(r) => PlanView::VerifyHello(r@),
        }
    }
}

/// What the arguments ask for: help before all else, then the list of devices, a
/// diagnosis, a comparison, and a mount; of an image rather than of a live disk. A
/// comparison mounts nothing, and takes no mount point.
pub open spec fn plan_of(a: ArgsView) -> PlanView {
    if a.help {
        PlanView::Help
    } else if a.list_devices {
        PlanView::ListDevices
    } else if a.probe {
        match a.device {
            Some(d) => PlanView::Probe(d),
            None => PlanView::ProbeNeedsDevice,
        }
    } else if let Some(r) = a.verify {
        match (a.image, a.device) {
            (Some(f), _) => PlanView::VerifyImage(r, f),
            (None, Some(d)) => PlanView::VerifyDevice(r, d),
            (None, None) => PlanView::VerifyHello(r),
        }
    } else {
        match (a.mountpoint, a.image, a.device) {
            (None, _, _) => PlanView::NeedsMountpoint,
            (Some(m), Some(f), _) => PlanView::Image(m, f),
            (Some(m), None, Some(d)) => PlanView::Device(m, d),
            (Some(m), None, None) => PlanView::Hello(m),
        }
    }
}

impl Args {
    pub fn plan(&self) -> (p: Plan)
        ensures
            p@ == plan_of(self@),
    {
        if self.help {
            return Plan::Help;
        }
        if self.list_devices {
            return Plan::ListDevices;
        }
        if self.probe {
            return match &self.device {
                Some(d) => Plan::Probe(d.clone()),
                None => Plan::ProbeNeedsDevice,
            };
        }
        if let Some(r) = &self.verify {
            return match &self.image {
                Some(f) => Plan::VerifyImage(r.clone(), f.clone()),
                None => match &self.device {
                    Some(d) => Plan::VerifyDevice(r.clone(), d.clone()),
                    None => Plan::VerifyHello(r.clone()),
                },
            };
        }
        match &self.mountpoint {
            None => Plan::NeedsMountpoint,
            Some(m) => match &self.image {
                Some(f) => Plan::Image(m.clone(), f.clone()),
                None => match &self.device {
                    Some(d) => Plan::Device(m.clone(), d.clone()),
                    None => Plan::Hello(m.clone()),
                },
            },
        }
    }
}

/// Two options without a value mean the same in either order.
pub proof fn law_flags_commute(a: ArgsView, s: Seq<char>, t: Seq<char>)
    requires
        is_flag(s),
        is_flag(t),
    ensures
        with_flag(with_flag(a, s), t) == with_flag(with_flag(a, t), s),
{
}

/// Whether an argument is an option without a value.
pub open spec fn is_flag(s: Seq<char>) -> bool {
    s == "--hd"@ || s == "--list-devices"@ || s == "--probe"@ || s == "--recover"@ || s == "-v"@ || s
        == "--verbose"@ || s == "-h"@ || s == "--help"@ || s == "-?"@
}

/// A comparison needs no mount point, and is not changed by one.
pub proof fn law_comparison_mounts_nothing(a: ArgsView, m: Option<Seq<char>>)
    requires
        a.verify is Some,
    ensures
        plan_of(ArgsView { mountpoint: m, ..a }) == plan_of(a),
        !(plan_of(a) is NeedsMountpoint),
{
}

/// Help is given whatever else is asked for.
pub proof fn law_help_comes_first(a: ArgsView)
    ensures
        plan_of(with_flag(a, "--help"@)) == PlanView::Help,
{
    reveal_strlit("--help");
    reveal_strlit("--hd");
    reveal_strlit("--list-devices");
    reveal_strlit("--probe");
    reveal_strlit("--recover");
    reveal_strlit("-v");
    reveal_strlit("--verbose");
    reveal_strlit("-h");
    assert("--help"@.len() == 6);
    assert("--help"@[2] == 'h' && "--help"@[3] == 'e');
}

} // verus!
