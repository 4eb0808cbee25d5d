# vpn_engine

The protocol logic of a FortiGate SSL-VPN client, verified with Verus.

- `src/`: the library. `fortigate/` holds the frame envelope (`framing`),
  PPP and its control packets (`ppp`), the LCP/IPCP negotiation as a step
  machine (`negotiate`), HTTP requests and replies (`http`), login
  classification (`auth`), the portal conversations and the session's retry
  decision (`portal`), the tunnel configuration (`config`) and the tunnel
  upgrade request (`session`). `framer` classifies tunnel frames; `cli` holds
  the command-line rules (flags, profiles, passwords, privileges); `profiles`
  the rules of the profile table. Every function states its result in
  `ensures`; the laws the library keeps are public proof functions.
- `tests/`: tests on concrete values.
- `app/`: the `yellow-vpn` program: files, terminal, TLS, sockets and the
  SQLite profile table, driving the library's step functions.
