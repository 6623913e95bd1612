# DD-GUI

A front end for `dd`: flash, back up, clone and wipe drives. This is its core as a verified library,
with the command line around it.

- `src/` is the library. Its functions carry contracts that Verus proves. What the decoders of other
  crates do is believed, not proved: each call of one stands in a small function marked
  `external_body`, whose comment says what is claimed of it.
  - `plan`: what a copy of a source to a target means, and why it may not start
  - `window`: what the window shows, what a click does, and how a run goes
  - `job`: workers, what they are told and what they say
  - `drives`: the drives that the tools of Linux, macOS and Windows list
  - `properties`, `values`: property lists and JSON, as the tools print them and DMGs hold them
  - `engine`: smart copies, smart images, restores, and the command line of the copier
  - `engine::formats`: DMG, VHD, VHDX, VMDK, QCOW2, bzip2, LZ4, LZMA, 7z and tar
  - `desktop`: the menu entry on Linux
- `tests/` runs the library, with the decoders it calls.
- `app/` is ordinary Rust around it: files, drives, processes and threads.

The library does no I/O. Where it needs part of a file, it says which part (`Stop::Need`), and is
asked again with that part at hand.
