# userspace-stack

A userspace TCP/IP stack — Ethernet II, ARP, IPv4, ICMP echo, UDP echo and a
passive-open TCP engine with retransmission timers, delayed acknowledgments on sink
ports and connection teardown — whose protocol engine is verified with Verus.

Layout:

- `src/` — the verified library. Every parser and serializer states the exact bytes it
  reads or writes; the TCP engine and the stack state each operation as a transition
  over a model of their state. Round trips (parse after serialize), checksum
  properties and the engine's behaviour across segments are proved as lemmas
  (`tcp/properties.rs`, and the `lemma_*` functions of each module).
- `tests/` — scenario tests.
- `app/` — the `ustack` program: the Linux TUN/TAP device, the main loop, and
  `ustack bench`, the in-memory benchmark.

Times handed to the stack are readings of a monotonic clock in nanoseconds; the
program derives them from `std::time::Instant`.
