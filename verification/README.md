# floppy_mac

Mounts floppy disks, read-only, through a Greaseweazle: flux from the adapter, an MFM
decoder, FAT12/16 or TR-DOS, and FUSE on top. Disk images work too, without a device.

The library under `src/` is verified with Verus: what each function returns is stated
in its contract, and the properties that span functions stand as proof functions whose
names begin with `law_`. The program under `app/` is ordinary Rust around it: the
serial port, the thread that owns the device, FUSE, the command line.

## The library

| Module | What it holds |
|---|---|
| `mfm` | From flux to cells to sectors: the phase-locked loop, the address marks, CRC-16. `mfm::flux_laws` shows that what was written to a track is read back, also from a drive whose speed wavers. |
| `binary64` | The arithmetic of the loop: numbers of 53 bits, rounded to even. |
| `gw` | The host protocol of the device: frames, answers, the flux stream. |
| `greaseweazle_src` | The geometry of a disk, how a disk is opened, and how a block is read from it: which tracks are asked for, what is kept, what is reported. |
| `actor` | The cache of tracks in front of a device, and the watch for the loss of the disk. |
| `block_source`, `image`, `volume_io` | Disks as blocks; a disk image; a disk as a file. |
| `fs`, `fatfs_fs`, `trdos_fs` | File systems: the trait, FAT through the crate `fatfs`, TR-DOS. |
| `fuse_adapter`, `mac_mount` | What is handed to FUSE, and to the mount helper. |
| `args`, `verify`, `probe` | The command line, the comparison with a directory, the statistics of a track. |

## What is taken on trust

The crate `fatfs` reads FAT volumes. What it answers is a function of the bytes on the
disk, and `fatfs_fs::answers` names it; every contract of `fatfs_fs` says what is asked
and what is made of the answer. A disk may fail, but what it gives is still what its
bytes say: `fatfs_fs::steady` shows both. Where a directory leads in a circle, or a
number is too large, `fatfs` would not return, or panic: `fatfs_fs::layout` says what
must hold for each request, and `fatfs_fs::check` decides it for a whole volume. The
program cannot tell beforehand what a disk in a drive holds, so it makes its requests
where a panic is caught and the blocks are counted. Besides `fatfs`, `String::push` and
the errors of `std::io` are taken as their documentation describes them.
