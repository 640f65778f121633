# wie

The portable core of an emulator for WIPI applications, verified with Verus.

`src/` is the library. Its functions carry contracts that Verus proves:

- `path`, `text`, `number`, `content`: segments, strings, numbers and file contents
- `file_system`, `filesystem`, `memory_filesystem`, `database`, `store`: where the
  files and records of an application lie, and what changes to them do
- `archive`, `zip_index`: application archives and the limits they must keep
- `executor`: which task is polled next, and when a tick is over
- `audio`, `smaf`, `transport`: sounds, scores and the calls of the web player
- `guest_memory`, `pixels`, `pixel_format`, `framebuffer`, `guest_image`, `raster`, `copy`:
  framebuffers in guest memory and drawing to them
- `gdb`, `svc`, `window`, `system`, `time`, `options`: the debug server's decisions,
  supervisor calls, painting, and what a running application shares

Functions whose names begin with `law_` state what holds across several operations.

The library calls `zip`, `smaf-player` and `hashbrown`. What it relies on of them is
stated at the functions that call them, in `zip_index`, `smaf`, `id_map` and
`file_map`.

`app/` is the code around the library: host files, sockets, futures and the browser.
`tests/` runs the library with the real crates.
