# Lorica

The decisions of an XDP packet filter, verified with Verus: the tables and the arithmetic its
packet path reads, and the control logic that loads it, feeds it and watches the routes it depends
on.

- `src/blocklist` — the two-bit class table, and the Robin Hood and cuckoo tables of exact keys.
- `src/bucket` — leaky buckets and the bank they stand in, with what holds over many packets.
- `src/hash` — SipHash-2-4, keyed multiply-shift and FNV-1a.
- `src/wire` — verdicts, keys, counters, settings and the parsed packet, with their byte layouts.
- `src/ttl`, `src/clock` — deadlines, and the jiffy rate they are counted in.
- `src/fib` — routes off netlink, whether reverse-path filtering decides anything, and the hold.
- `src/loader` — who holds the XDP hook, and what a refused attach stands for.
- `src/capability` — what a kernel has, and what is done without it.
- `src/maps` — reading the counters and the bank, and laying out what is written.
- `src/ctl` — the command line of `lorica-ctl`.

What is proved of several functions together stands as public proof functions beside them. The
calls into `libc`, `object` and the standard library whose contracts are taken on trust are the
functions marked `external_body`; each says in its comment what is claimed.

`app` holds `lorica-ctl` and the system calls around the library. `tests` runs the library on
concrete values.
