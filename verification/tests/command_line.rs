//! The command line, mount options, comparisons, figures.

use floppy_mac::args::parse_args;
use floppy_mac::args::parse_unit;
use floppy_mac::args::Args;
use floppy_mac::args::Plan;
use floppy_mac::fs::Attr;
use floppy_mac::fs::DirEntry;
use floppy_mac::fs::FileKind;
use floppy_mac::fs::FileTime;
use floppy_mac::gw::BusType;
use floppy_mac::mac_mount::floppy_options;
use floppy_mac::mac_mount::mount_args;
use floppy_mac::mac_mount::option_str;
use floppy_mac::mac_mount::MountOption;
use floppy_mac::probe::flux_spread;
use floppy_mac::sorting::sort_ticks;
use floppy_mac::text::push_decimal;
use floppy_mac::text::same_text;
use floppy_mac::verify::bytes_to_read;
use floppy_mac::verify::Verdict;
use floppy_mac::verify::Verification;

fn parse(list: &[&str]) -> Option<Args> {
    let v: Vec<String> = list.iter().map(|s| s.to_string()).collect();
    parse_args(&v)
}

#[test]
fn drives_have_names() {
    assert_eq!(parse_unit("A"), Some((0, BusType::Ibmpc)));
    assert_eq!(parse_unit("a"), Some((0, BusType::Ibmpc)));
    assert_eq!(parse_unit("B"), Some((1, BusType::Ibmpc)));
    assert_eq!(parse_unit("b"), Some((1, BusType::Ibmpc)));
    assert_eq!(parse_unit("0"), Some((0, BusType::Shugart)));
    assert_eq!(parse_unit("255"), Some((255, BusType::Shugart)));
    assert_eq!(parse_unit("+3"), Some((3, BusType::Shugart)));
    assert_eq!(parse_unit("0000000000003"), Some((3, BusType::Shugart)));
    for wrong in ["256", "", "+", "-1", "C", "1 ", "0x1", "++1", "٣"] {
        assert_eq!(parse_unit(wrong), None);
        assert!(wrong.parse::<u8>().is_err());
    }
}

#[test]
fn nothing_said_is_the_default() {
    let a = parse(&[]).unwrap();
    assert_eq!((a.unit, a.bus, a.hd, a.revs, a.step), (0, BusType::Shugart, false, 3, None));
    assert!(!a.list_devices && !a.probe && !a.recover && !a.verbose && !a.help);
    assert!(a.mountpoint.is_none() && a.image.is_none() && a.device.is_none());
    assert!(matches!(a.plan(), Plan::NeedsMountpoint));
}

#[test]
fn options_are_taken() {
    let a = parse(&[
        "/tmp/a", "--device", "/dev/x", "--unit", "B", "--hd", "--revs", "65535", "--step", "2",
        "--recover", "-v", "/tmp/fd",
    ])
    .unwrap();
    assert_eq!(a.mountpoint.as_deref(), Some("/tmp/fd"));
    assert_eq!(a.device.as_deref(), Some("/dev/x"));
    assert_eq!((a.unit, a.bus, a.hd, a.revs, a.step), (1, BusType::Ibmpc, true, 65535, Some(2)));
    assert!(a.recover && a.verbose);
    // A value is taken as it is, even one that looks like an option.
    let a = parse(&["--image", "--hd", "m"]).unwrap();
    assert_eq!(a.image.as_deref(), Some("--hd"));
    assert!(!a.hd);
    let a = parse(&["m", "--verify", "/ref"]).unwrap();
    assert_eq!(a.verify.as_deref(), Some("/ref"));
}

#[test]
fn wrong_values_are_refused() {
    for wrong in [
        vec!["--image"],
        vec!["--device"],
        vec!["--unit"],
        vec!["--unit", "Z"],
        vec!["--revs", "65536"],
        vec!["--revs", "x"],
        vec!["--step", "256"],
        vec!["--verify"],
    ] {
        assert!(parse(&wrong).is_none());
    }
}

#[test]
fn plans_are_made() {
    assert!(matches!(parse(&["--help", "--probe"]).unwrap().plan(), Plan::Help));
    assert!(matches!(parse(&["-?"]).unwrap().plan(), Plan::Help));
    assert!(matches!(parse(&["--probe", "--list-devices"]).unwrap().plan(), Plan::ListDevices));
    assert!(matches!(parse(&["--probe"]).unwrap().plan(), Plan::ProbeNeedsDevice));
    assert!(matches!(parse(&["--probe", "--device", "d"]).unwrap().plan(), Plan::Probe(d) if d == "d"));
    assert!(matches!(
        parse(&["m", "--device", "d", "--image", "i"]).unwrap().plan(),
        Plan::Image(m, i) if m == "m" && i == "i"
    ));
    assert!(matches!(
        parse(&["m", "--device", "d"]).unwrap().plan(),
        Plan::Device(m, d) if m == "m" && d == "d"
    ));
    assert!(matches!(parse(&["m"]).unwrap().plan(), Plan::Hello(m) if m == "m"));
    // A comparison needs no mount point, and mounts nothing where there is one.
    assert!(matches!(
        parse(&["--verify", "r", "--image", "i"]).unwrap().plan(),
        Plan::VerifyImage(r, i) if r == "r" && i == "i"
    ));
    assert!(matches!(
        parse(&["m", "--verify", "r", "--device", "d"]).unwrap().plan(),
        Plan::VerifyDevice(r, d) if r == "r" && d == "d"
    ));
    assert!(matches!(
        parse(&["--verify", "r"]).unwrap().plan(),
        Plan::VerifyHello(r) if r == "r"
    ));
}

#[test]
fn mount_options_are_written() {
    let written: Vec<String> = floppy_options().iter().map(option_str).collect();
    assert_eq!(
        written,
        vec!["ro", "fsname=floppy_mac", "volname=Floppy", "local", "noappledouble"]
    );
    assert_eq!(option_str(&MountOption::Subtype("x".to_string())), "subtype=x");
    assert_eq!(option_str(&MountOption::NoAtime), "noatime");
    assert_eq!(option_str(&MountOption::DefaultPermissions), "default_permissions");
    assert_eq!(
        mount_args(&["ro".to_string(), "local".to_string()]),
        vec!["floppy_mac", "-o", "ro", "-o", "local"]
    );
    assert_eq!(mount_args(&[]), vec!["floppy_mac"]);
}

/// Compares a tree of directories, as `tree` lists them, with the files in `reference`.
fn compare_tree(
    tree: &dyn Fn(u64) -> Option<Vec<DirEntry>>,
    reference: &dyn Fn(&[String]) -> Option<Vec<u8>>,
) -> (Verification, Vec<u64>) {
    let mut v = Verification::new();
    let mut compared = Vec::new();
    while let Some(dir) = v.next_dir() {
        let Some(entries) = tree(dir.ino) else {
            continue;
        };
        for item in v.listed(&dir.path, &entries) {
            v.compare(&[item.ino as u8], &reference(&item.path));
            compared.push(item.ino);
        }
    }
    (v, compared)
}

#[test]
fn a_comparison_reaches_every_file() {
    let tree = |ino: u64| match ino {
        1 => Some(vec![
            entry(3, "A", FileKind::Dir),
            entry(4, "f", FileKind::File),
            entry(5, "B", FileKind::Dir),
        ]),
        3 => Some(vec![entry(6, "C", FileKind::Dir), entry(7, "g", FileKind::File)]),
        5 => None,
        6 => Some(vec![entry(8, "h", FileKind::File)]),
        _ => Some(Vec::new()),
    };
    let good = |path: &[String]| match path.join("/").as_str() {
        "f" => Some(vec![4u8]),
        "A/g" => Some(vec![7]),
        "A/C/h" => Some(vec![8]),
        _ => None,
    };
    let (v, mut compared) = compare_tree(&tree, &good);
    compared.sort();
    assert_eq!(compared, vec![4, 7, 8]);
    assert_eq!(v.counts(), (3, 0, 0));
    assert!(v.success());
    // One file deep in the tree decides.
    let bad = |path: &[String]| if path.len() == 3 { Some(vec![9u8]) } else { good(path) };
    let (v, _) = compare_tree(&tree, &bad);
    assert_eq!(v.counts(), (2, 1, 0));
    assert!(!v.success());
}

fn entry(ino: u64, name: &str, kind: FileKind) -> DirEntry {
    DirEntry { ino, name: name.to_string(), kind }
}

#[test]
fn a_tree_is_compared() {
    let mut v = Verification::new();
    let root = v.next_dir().unwrap();
    assert_eq!((root.ino, root.path.len()), (1, 0));
    let entries = vec![
        entry(3, "A", FileKind::Dir),
        entry(4, "f", FileKind::File),
        entry(2, ".metadata_never_index", FileKind::File),
        entry(5, "B", FileKind::Dir),
        entry(6, "g", FileKind::File),
    ];
    let files = v.listed(&root.path, &entries);
    let flat: Vec<(u64, Vec<String>)> = files.iter().map(|i| (i.ino, i.path.clone())).collect();
    assert_eq!(flat, vec![(4, vec!["f".to_string()]), (6, vec!["g".to_string()])]);
    assert_eq!(v.compare(b"abc", &Some(b"abc".to_vec())), Verdict::Same);
    assert!(v.success());
    // The directory that was found last comes first.
    let b = v.next_dir().unwrap();
    assert_eq!((b.ino, b.path.clone()), (5, vec!["B".to_string()]));
    let files = v.listed(&b.path, &vec![entry(7, "h", FileKind::File)]);
    assert_eq!(files[0].path, vec!["B".to_string(), "h".to_string()]);
    assert_eq!(v.compare(b"abc", &Some(b"abd".to_vec())), Verdict::Different);
    assert!(!v.success());
    assert_eq!(v.compare(b"abc", &Some(b"ab".to_vec())), Verdict::Different);
    assert_eq!(v.compare(b"", &None), Verdict::Missing);
    assert_eq!(v.next_dir().unwrap().ino, 3);
    assert!(v.next_dir().is_none());
    assert_eq!(v.counts(), (1, 2, 1));
}

#[test]
fn whole_files_are_read() {
    let attr = |size: u64| {
        Some(Attr {
            ino: 3,
            size,
            kind: FileKind::File,
            mtime: FileTime::Epoch,
            crtime: FileTime::Epoch,
            atime: FileTime::Epoch,
        })
    };
    assert_eq!(bytes_to_read(&None), 0);
    assert_eq!(bytes_to_read(&attr(1000)), 1000);
    assert_eq!(bytes_to_read(&attr(u64::MAX)), u32::MAX);
}

#[test]
fn intervals_have_a_spread() {
    assert_eq!(flux_spread(&[]), (0, 0, 0));
    assert_eq!(flux_spread(&[7]), (7, 7, 7));
    assert_eq!(flux_spread(&[9, 1, 5, 3]), (1, 5, 9));
    assert_eq!(sort_ticks(&[5, 1, 5, 0, 3]), vec![0, 1, 3, 5, 5]);
}

#[test]
fn numbers_are_written() {
    for n in [0u64, 9, 10, 305, u64::MAX] {
        let mut s = "n".to_string();
        push_decimal(&mut s, n);
        assert_eq!(s, format!("n{n}"));
    }
    assert!(same_text("Ж", "Ж"));
    assert!(!same_text("a", "A"));
}
