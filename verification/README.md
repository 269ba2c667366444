# braid_server

The logic of a terminal session daemon, verified with Verus. A session keeps a shell and its
emulator running while clients come, roam and go; each client is served either the byte
stream itself or screens cut to what its path carries, and forwarded connections outlive the
transport they were opened over.

`src/` holds the decisions as functions over plain values, each with its contract. Where a
decision alternates with work of the operating system, of the emulator or of the codec, it is
written as a step that names the work and an event that says how the work went; what is to be
told to clients is left in a list of actions. Time is a `u64` of nanoseconds.

- `ids`, `limits`, `notice` – names, bounds and what clients are told
- `actor`, `turns`, `search`, `invariants` – one session, its turns, and what each turn keeps
- `attachment`, `commands`, `cutting`, `pools`, `gate`, `link` – one client
- `row`, `screen`, `bands`, `mask` – what changed on a screen and how it is named
- `backlog`, `defer`, `emulator`, `query`, `ptyin` – the byte stream
- `forward` – forwarded connections
- `mailbox`, `registry`, `sessions`, `serve`, `proxy`, `log`, `text` – the daemon
- `dgram`, `limiter`, `writer` – the datagram path

`app/` does the work: sockets, files, threads and clocks, and the loops that perform a step
and hand its event back. It also reads addresses and the kinds of errors as the operating
system gives them. The emulator, the codec of the wire, the sealed transport under the
datagrams and the reliability layer of a forwarded stream are the caller's, behind traits. `tests/` drives the library the way `app/`
does.
