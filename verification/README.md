# porter

Detect what services are running on your host's ports — a library with
proved contracts, and a thin command line around it.

- `src/` is the library, verified with Verus:
  - `text` — the line, word, split and trim rules of `str`, over characters;
  - `number` — `from_str_radix` for unsigned numbers and decimal writing;
  - `port` — `PortInfo`, `PortChange`, `ScanError`, their one-line forms,
    `format_uptime`, `sanitize` and the arguments of `kill`;
  - `snapshot` — `scan` (merge a raw scan: first record per port, sorted),
    `diff` (opened and closed ports) and `Watcher` (a sequence of snapshots),
    with the laws that relate them;
  - `linux` — parsing `/proc/net/tcp{,6}`, fd link targets, `/proc/stat`,
    `/proc/<pid>/stat`, `cmdline` and `comm`;
  - `darwin` — parsing the output of `lsof -F pcn` and `ps -o pid=,etime=`;
  - `privilege` — reading the output of `id -u`.
- `app/` is the `porter` command (`porter`, `porter watch`, `porter kill [-f] <port>...`):
  it reads `/proc` or runs `lsof`, `ps`, `kill` and `id`, sleeps, and prints.
- `tests/` runs the library on concrete inputs.
