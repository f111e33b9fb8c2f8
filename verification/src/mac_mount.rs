//! Mount options.

use crate::text::texts;
use vstd::prelude::*;

verus! {

/// An option of a mount.
#[derive(Debug)]
pub enum MountOption {
    FSName(String),
    Subtype(String),
    Custom(String),
    AutoUnmount,
    DefaultPermissions,
    Dev,
    NoDev,
    Suid,
    NoSuid,
    RO,
    RW,
    Exec,
    NoExec,
    Atime,
    NoAtime,
    DirSync,
    Sync,
    Async,
}

/// An option as it is written behind `-o`.
pub open spec fn option_text(opt: MountOption) -> Seq<char> {
    match opt {
        MountOption::FSName(name) => "fsname="@ + name@,
        MountOption::Subtype(st) => "subtype="@ + st@,
        MountOption::Custom(v) => v@,
        MountOption::AutoUnmount => "auto_unmount"@,
        MountOption::DefaultPermissions => "default_permissions"@,
        MountOption::Dev => "dev"@,
        MountOption::NoDev => "nodev"@,
        MountOption::Suid => "suid"@,
        MountOption::NoSuid => "nosuid"@,
        MountOption::RO => "ro"@,
        MountOption::RW => "rw"@,
        MountOption::Exec => "exec"@,
        MountOption::NoExec => "noexec"@,
        MountOption::Atime => "atime"@,
        MountOption::NoAtime => "noatime"@,
        MountOption::DirSync => "dirsync"@,
        MountOption::Sync => "sync"@,
        MountOption::Async => "async"@,
    }
}

pub fn option_str(opt: &MountOption) -> (s: String)
    ensures
        s@ == option_text(*opt),
{
    match opt {
        MountOption::FSName(name) => {
            let mut s: String = "fsname=".to_owned();
            s.append(name.as_str());
            s
        },
        MountOption::Subtype(st) => {
            let mut s: String = "subtype=".to_owned();
            s.append(st.as_str());
            s
        },
        MountOption::Custom(v) => v.clone(),
        MountOption::AutoUnmount => "auto_unmount".to_owned(),
        MountOption::DefaultPermissions => "default_permissions".to_owned(),
        MountOption::Dev => "dev".to_owned(),
        MountOption::NoDev => "nodev".to_owned(),
        MountOption::Suid => "suid".to_owned(),
        MountOption::NoSuid => "nosuid".to_owned(),
        MountOption::RO => "ro".to_owned(),
        MountOption::RW => "rw".to_owned(),
        MountOption::Exec => "exec".to_owned(),
        MountOption::NoExec => "noexec".to_owned(),
        MountOption::Atime => "atime".to_owned(),
        MountOption::NoAtime => "noatime".to_owned(),
        MountOption::DirSync => "dirsync".to_owned(),
        MountOption::Sync => "sync".to_owned(),
        MountOption::Async => "async".to_owned(),
    }
}

/// The options of a floppy volume, as they are written behind `-o`: read-only, with
/// its names, and without the side files of the Finder.
pub open spec fn floppy_option_texts() -> Seq<Seq<char>> {
    seq![
        "ro"@,
        "fsname="@ + "floppy_mac"@,
        "volname=Floppy"@,
        "local"@,
        "noappledouble"@,
    ]
}

pub open spec fn option_texts(v: Seq<MountOption>) -> Seq<Seq<char>> {
    Seq::new(v.len(), |i: int| option_text(v[i]))
}

pub fn floppy_options() -> (v: Vec<MountOption>)
    ensures
        option_texts(v@) == floppy_option_texts(),
{
    let v: Vec<MountOption> = vec![
        MountOption::RO,
        MountOption::FSName("floppy_mac".to_owned()),
        MountOption::Custom("volname=Floppy".to_owned()),
        MountOption::Custom("local".to_owned()),
        MountOption::Custom("noappledouble".to_owned()),
    ];
    assert(option_texts(v@) =~= floppy_option_texts());
    v
}

/// The arguments of a mount: the name of the program, and each option behind `-o`.
pub open spec fn mount_arg_texts(options: Seq<Seq<char>>) -> Seq<Seq<char>>
    decreases options.len(),
{
    if options.len() == 0 {
        seq!["floppy_mac"@]
    } else {
        mount_arg_texts(options.drop_last()).push("-o"@).push(options.last())
    }
}

pub fn mount_args(options: &[String]) -> (argv: Vec<String>)
    ensures
        texts(argv@) == mount_arg_texts(texts(options@)),
{
    let ghost all = texts(options@);
    let mut argv: Vec<String> = vec!["floppy_mac".to_owned()];
    let mut i: usize = 0;
    assert(all.take(0) =~= Seq::<Seq<char>>::empty());
    assert(texts(argv@) =~= seq!["floppy_mac"@]);
    while i < options.len()
        invariant
            i <= options.len(),
            all == texts(options@),
            texts(argv@) == mount_arg_texts(all.take(i as int)),
        decreases options.len() - i,
    {
        proof {
            assert(all.take(i + 1).drop_last() =~= all.take(i as int));
            assert(all.take(i + 1).last() == all[i as int]);
        }
        let ghost had = texts(argv@);
        argv.push("-o".to_owned());
        assert(texts(argv@) =~= had.push("-o"@));
        argv.push(options[i].clone());
        assert(texts(argv@) =~= had.push("-o"@).push(all[i as int]));
        i = i + 1;
    }
    assert(all.take(i as int) =~= all);
    argv
}

/// The arguments of a mount are the name of the program and, for each option in turn,
/// `-o` and the option as it is.
pub proof fn law_options_are_passed(options: Seq<Seq<char>>, i: int)
    requires
        0 <= i < options.len(),
    ensures
        mount_arg_texts(options).len() == 1 + 2 * options.len(),
        mount_arg_texts(options)[0] == "floppy_mac"@,
        mount_arg_texts(options)[1 + 2 * i] == "-o"@,
        mount_arg_texts(options)[2 + 2 * i] == options[i],
    decreases options.len(),
{
    let head = options.drop_last();
    if i < head.len() {
        law_options_are_passed(head, i);
        assert(head[i] == options[i]);
    } else if head.len() > 0 {
        law_options_are_passed(head, 0);
    } else {
        assert(mount_arg_texts(head) == seq!["floppy_mac"@]);
    }
}

/// A name is written behind its key, and anything else of the user's as it is.
pub proof fn law_names_are_written(name: String)
    ensures
        option_text(MountOption::FSName(name)) == "fsname="@ + name@,
        option_text(MountOption::Subtype(name)) == "subtype="@ + name@,
        option_text(MountOption::Custom(name)) == name@,
{
}

/// The other options are words of their own.
pub proof fn law_options_are_words()
    ensures
        option_text(MountOption::AutoUnmount) == "auto_unmount"@,
        option_text(MountOption::DefaultPermissions) == "default_permissions"@,
        option_text(MountOption::Dev) == "dev"@ && option_text(MountOption::NoDev) == "nodev"@,
        option_text(MountOption::Suid) == "suid"@ && option_text(MountOption::NoSuid) == "nosuid"@,
        option_text(MountOption::RO) == "ro"@ && option_text(MountOption::RW) == "rw"@,
        option_text(MountOption::Exec) == "exec"@ && option_text(MountOption::NoExec) == "noexec"@,
        option_text(MountOption::Atime) == "atime"@ && option_text(MountOption::NoAtime)
            == "noatime"@,
        option_text(MountOption::DirSync) == "dirsync"@,
        option_text(MountOption::Sync) == "sync"@ && option_text(MountOption::Async) == "async"@,
{
}

/// A floppy is mounted to be read only, under its name.
pub proof fn law_floppy_is_read_only()
    ensures
        floppy_option_texts().len() == 5,
        floppy_option_texts()[0] == "ro"@,
        floppy_option_texts()[1] == "fsname="@ + "floppy_mac"@,
        floppy_option_texts()[2] == "volname=Floppy"@,
        floppy_option_texts()[3] == "local"@,
        floppy_option_texts()[4] == "noappledouble"@,
{
}

} // verus!
