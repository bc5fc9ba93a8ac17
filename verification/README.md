# Omakeel

The data hub of a boat: it reads the instruments and serves one live stream to
every app on board. The library is verified with [Verus](https://github.com/verus-lang/verus);
the program around it is ordinary Rust.

## What is proved

| Module | What it holds |
| --- | --- |
| `nmea` | Framing and checksums of NMEA 0183, and the position in RMC and GGA. |
| `number` | Decimal numbers as instruments write them, and which are finite. |
| `ais` | AIS messages: joined from their sentences, unpacked, decoded. |
| `fix` | The boat's fix, and how fresh it is. |
| `targets` | The vessels heard: kept, expired, ordered, judged a danger or not. |
| `source` | How sources are named, and how a device or stream is read and reopened. |
| `recording` | What is recorded, and when each line of a recording is played. |
| `hub` | The hub as a state machine, what each app is owed, who may hold the socket. |
| `watch` | Messages described as lines for a terminal. |
| `cli` | The command line. |
| `protocol`, `clock`, `double`, `text` | What the others are made of. |

Each function says in its `ensures` what it returns. What holds across
functions stands beside them as public proof functions, such as
`recording::a_recording_plays_back`, `fix::current_means_current` and
`targets::a_name_displaces_no_position`.

Floating point stays out of the library. Numbers from a receiver are kept as
they were written, AIS quantities in the units they were sent in, and what the
program computes from them (ranges, bearings, approaches) comes back as the
bits of a double, which `double` orders.

## What is trusted

- `text`: `String::push`.
- `source`: `String::from_utf8_lossy`, by name, and for valid UTF-8 exactly.
- `watch`: `serde_json`, by name: whether a text is JSON, and the members,
  elements, strings and numbers in it.

## Layout

- `src/` is the library.
- `tests/` runs it, with `serde_json` linked.
- `app/` is the program: sockets, serial ports, files, JSON on the wire, and
  the trigonometry.
