# What's Running? — verified core

An honest, local-first observer of what a Linux machine is doing in the
background. The library under `src/` holds the observer's logic, each
function with a contract proved by Verus: the parsers, the inventory, the
event framing, the decisions of both inspectors and the terminal screen
itself (header, legend, rows, sanitization). `app/` is the program around
it: reading `/proc`, `/sys/fs/cgroup` and `systemctl`, the netlink socket,
the terminal's raw mode and key loop, the iced window, and the figures that
are measured in floating point (CPU and I/O rates), which it writes out as
text for the library.

Modules of the library:

- `field` — a value read from the kernel, or the typed reason it is missing.
- `text` — splitting, whitespace tokens, lines, numbers and decimal text.
- `order` — sorting by key, byte-wise string order and stable index order.
- `procfs` — parsers for the `/proc` files and the assembly of processes and
  snapshots from what was read.
- `activity` — sockets, their owners, mounts and systemd units.
- `cgroups` — the walk over the cgroup hierarchy.
- `check` — the quick check: address decoding and report order.
- `events` — proc-connector messages, event text, sequence accounting and
  the capture's receive-and-stop decisions.
- `recording` — bounded event recordings.
- `tui` — the terminal inspector: key handling, the listed processes and
  their order, the tree, the visible page, the inventory and event panes
  and the screen's lines.
- `gui` — the decisions of the graphical inspector.
