# pactlers

Hardware volume knobs for PulseAudio. A Blue Pill board reads five
potentiometers, smooths each reading with a thresholded moving average and
sends a framed command over USB serial whenever a channel moved enough; a
host daemon reads the commands and sets the matching sinks, sources or
application streams with `pactl`.

- `src/` — the verified library (Verus):
  - `protocol.rs`: the command, its bincode payload and the serial framing;
  - `tewma.rs`: the per-channel smoothing and reporting state;
  - `pactl.rs`: which `pactl` commands a volume change turns into, read
    from the text of `pactl list`;
  - `text.rs`: lines, trimming and substring search over characters.
- `app/` — the host daemon (`main.rs`: serial port, channel of commands,
  running `pactl`), and `firmware.rs`, the board's task code, which builds
  only for the board with its hardware crates.
- `tests/` — tests of the library.
