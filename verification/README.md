# yard_provider

A provider puts real phones on a yard that others drive from afar. It streams a
device's screen, feeds it touches and keys, installs apps, browses files and
reports how the device is doing. This crate is the part of it that decides and
computes, with contracts that Verus proves.

- `src/adb_bridge/`: the adb wire protocol, the handshake that lets a key in, and
  the streams between one client and one device.
- `src/backend_android/`: the adb server's protocol, scrcpy's messages and video
  stream, H.264 parameter sets, and what a device's shell prints.
- `src/backend_ios/`: HEVC over RTP with its recovery, input reports, the two
  file trees, the developer disk image, and the session's life.
- `src/backend_mock.rs`: a device that needs no hardware.
- The other files of `src/` hold what these share: text, byte order, clocks,
  video units, directory listings, options, installs, the pointer.

`app/` is the program around the library: sockets, files, child tasks, and the
readings that are floating point. `tests/` runs the library from outside.

Each function states in its `ensures` what it returns or changes. Where several
functions together keep a promise, a proof function whose name begins with `law_`
states it. The outside functions that proofs rely on are declared beside their
callers, each with a comment that says what is taken on trust.
