# mmwave

The verified core of a pipeline that collects point clouds from TI AWR1843
radars (and other sensors) on several machines.

`src/` is the library, verified with Verus:

- `message` — the binary frame format of the radars: headers, TLV records
  and their payloads, read from little-endian bytes.
- `frame_reader` — synchronising on the data port's byte stream: the reader
  asks for bytes stage by stage and reports the frame that starts at the
  first magic word.
- `ports` — picking a radar's command and data ports among the host's
  devices.
- `radar`, `awr` — radar descriptions, command files split into lines, and
  how a device description settles its commands.
- `ids` — machine and device ids, message tags and the subjects messages are
  published under.
- `devices` — which device tasks a machine starts and stops when the
  configuration changes.
- `pointcloud`, `buffer`, `accumulator` — point clouds, merging them into
  100 ms buckets, double buffering, and accumulating them into time blocks
  that queue oldest first.
- `recording`, `playback` — writing clouds as one JSON array, and reading a
  recording back: cleaning its text, filtering by label, timing each cloud.
- `config_update` — how a running device takes up a new configuration.
- `discovery` — recognising the server among service responders, and the
  name and port it announces.
- `error` — the error types and their texts.

`app/` holds what the library leaves to ordinary Rust: serial ports and
files, threads for the radars and device tasks, floating-point geometry,
and the serde forms of the library's types.
`tests/` exercises the library from outside.
