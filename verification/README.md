# chord-tool

A chord instrument for two hands on the home row. The left hand picks a scale degree, the right hand
picks a chord transformation, and together they sound. Chords are gathered into a looping
progression, given rhythm patterns and offsets, played against a metered transport, and exported as
Standard MIDI Files that carry the session they came from.

The library under `src/` is verified with Verus: every function states what it returns or changes,
and the laws that span functions stand beside them as proof functions named `law_..`.

| Module | Holds |
| --- | --- |
| `music` | scales, degrees, transformations, voicing, labels |
| `keyboard` | physical key positions, layouts, hotkeys, sets of held keys |
| `grammar` | held keys to a degree and a transformation |
| `rhythm` | step grids, layers, quantization, taps, the built-in patterns |
| `rhythm_store` | the palette of patterns |
| `progression` | slots, registers, edits, undo and redo |
| `arrangement` | the timings plan that playback and export both read |
| `transport` | the transport's state and the scheduler's decisions, bar by bar |
| `midi` | a progression as a score of timed notes |
| `smf` | Standard MIDI Files, written and read, with the embedded document |
| `project`, `document`, `wire` | the session document, its values and their names |
| `export` | file names, the bytes of an export, import |
| `presets`, `synth`, `chime` | patches, the synth's settings and voices, chimes |
| `order`, `single`, `double`, `text` | a stable sort, single-precision numbers by their bits, the clock's double-precision arithmetic, text |

Numbers that a player sets, such as a gain or a note length, are single-precision numbers kept by
their bit pattern (`single::Single`), with the few operations that the library needs of them done in
integers. Moments and durations are nanoseconds; what is worked out of them in seconds has the
rounding of double precision (`double`).

What is taken on trust of other code is small: how `std` shows a character or a text in quotes, how
it reads UTF-8, and how chrono formats a date. Each is a function marked `external_body` whose
comment says what is claimed.

`app/` is the program around the library: files and TOML, the audio device, threads, and commands on
the standard input. `tests/` runs the library, with the TOML of its documents read and written.
