# telink_sws

A verified driver for Telink SWS programmers and the TC32 cores behind them.

- `src/` is the library. A programmer is reached through a byte transport, the
  trait `transport::Io`, of which nothing is assumed; `link` keeps every call on
  it on record. `telink_sws::TelinkSws` speaks the framed command protocol and
  reads, erases and writes flash and memory. `tc32::Tc32` debugs a core through
  its memory-mapped registers.
- What an operation does is stated over that record: `transport` says what an
  exchange is, `session` how a session goes on, and `protocol` which commands an
  operation takes. `flash` says what that amounts to for a flash chip, and
  `packets` what a core over a probe sends.
- `app/` connects the library to TCP connections and serial ports.
- `tests/` runs the library against scripted transports and a simulated chip.
