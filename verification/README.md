# uwb_delay_test

Delay and round-trip tests over NLink UWB modules (DT mode 0), with the
protocol logic verified by Verus.

- `src/` — the verified library:
  - `wire` — checksums, 16-bit fields, byte-range helpers;
  - `nlink` — user frames (type 1): building them and reassembling them from a byte stream (`FrameBuffer`);
  - `payload` — the test payload (sync bytes, sequence number, timestamp bits) and `RecvBuffer`;
  - `small_vec` — the bounded vector `feed` reports into;
  - `bidi` — stream scanning of the bidirectional test;
  - `device` — the system frame of a module, reading its answer, choosing among devices;
  - `interactive` — terminal commands;
  - `protocol` — probes and acknowledgements between master and slave;
  - `session` — the master's test cycle and the slave's answers;
  - `tracker` — awaited and lost payloads of the delay tests.
- `app/` — the programs (`master`, `slave`, `delay`, `bidi`): serial I/O, timing,
  threads, floating-point statistics.
- `tests/` — tests of the library.
