# portkill_core

The core of portKill, a Windows port viewer and process terminator: which
local TCP/UDP endpoints are shown, in what order, how they are grouped by
process, which processes may be ended, and how the raw values of the system's
endpoint tables become text. Every function in `src/` is verified with Verus
against a contract, except two small trusted wrappers of std (`String::push`
and `char::from_u32`), whose contracts Verus takes as given.

## Layout

- `src/text.rs`: strings as `Seq<char>`: ASCII case, substring search,
  trimming, decimal numbers (printing and `FromStr` parsing), the order of
  `String`, column padding.
- `src/utf16.rs`: UTF-16 decoding (lossy) and encoding, NUL-terminated names.
- `src/winpath.rs`: the file name of a Windows path.
- `src/net.rs`: ports in network byte order, TCP state names, IPv4 and IPv6
  (RFC 5952) address text.
- `src/classify.rs`: the kind of a process (web server, database, ...).
- `src/filter.rs`: `apply_filter` and the meaning of every `PortFilter` field.
- `src/order.rs`: the listing order and a stable sort proved sorted, stable
  and a permutation.
- `src/group.rs`: grouping endpoints by process.
- `src/process.rs`: protected processes, process descriptions and their cache,
  endpoint rows, process details on demand.
- `src/tables.rs`: status codes of the table reads and the rows of the four
  endpoint tables.
- `src/favorites.rs`: favorite ports, kept as a sorted set.
- `src/cli.rs`: command-line options, the confirmation prompt, the port table.
- `src/laws.rs`: properties that relate several calls.
- `app/`: the `portKill-cli` program and the Windows system calls (endpoint
  tables, process queries, ending a process, the settings file).
- `tests/`: tests of the library.
