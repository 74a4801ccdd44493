# omaportless

Named `.localhost` addresses for local development servers. The program finds
the processes listening on loopback TCP ports, gives each a hostname (pinned by
the user or derived from its project directory), and runs a small reverse
proxy so that `http://name.localhost` reaches the right port.

- `src/` is the verified library (Verus): parsing of the kernel's socket
  tables and `/proc` files, hostname rules and assignment, the proxy's routing
  decision for each request, the hop counter that stops proxy loops, the status
  report, renaming, and the texts of the unit files. Each public function is
  specified against spec functions over sequences; the laws that relate
  functions are public proof functions named `law_*`.
- `app/` is the program around it: command-line dispatch, files and JSON,
  systemd and nftables, `/proc` and socket I/O, and the tokio daemon.
- `tests/` runs the library on concrete values.
