# fs_ntfs

The core of an NTFS driver, verified with Verus: what the on-disk structures mean,
and the rules by which they are changed.

- `src/` is the library. Every function has a contract, and what holds of several
  of them together is stated as a public proof function beside them.
- `tests/` runs the library on concrete records, blocks and devices.
- `app/` is ordinary Rust around it: the `rust-ntfs` program, devices, and the
  interface for callers in C.

Where to look:

| Module | Holds |
| --- | --- |
| `attr_io`, `attr_off`, `attr_resize`, `resize_laws` | the attributes of a file record: walking, finding, resizing, inserting |
| `data_runs` | run lists, and the addresses of clusters |
| `index_io`, `index_edit`, `index_laws`, `root_laws`, `names`, `upcase` | directory indexes, and the order of names |
| `idx_block`, `chunks`, `mft_io` | index blocks on a device, pieces of a transfer, fixups and geometry |
| `bitmap` | the bitmap of clusters: finding, allocating, freeing, counting |
| `compression`, `ea_io`, `reparse` | compressed units, extended attributes, link targets |
| `fsck` | recovery of a volume that was not closed |
| `block_io` | the devices that all of it reads and writes |
| `facade`, `dir`, `stat`, `replies`, `last_error`, `time`, `paths` | what callers are answered |
| `cli`, `listing`, `format_args`, `data_source` | the commands |
| `bytes`, `text`, `utf16` | fields, messages and names |

What is taken on trust is marked `external_body` and says in its comment which
function of `std` or of the `ntfs` crate it stands for. The traits `BlockIo`,
`FsckIo` and `Progress` are for a program to implement; what they promise is what
the proofs rest on.
