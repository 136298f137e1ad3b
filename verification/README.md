# netlabs

Small networking tools whose protocol logic is a library verified with Verus.

- `src/` — the library, one module per protocol:
  - `saw`: stop-and-wait file transfer (packet checksum, alternating-bit sender and receiver);
  - `tracer`: ICMP echo requests and the reading of replies for a traceroute;
  - `rip`: distance-vector routing over a network read from a configuration, which stabilises within a bounded number of rounds on shortest routes (capped at 16 hops);
  - `ftp`, `smtp`, `reply`: client dialogues, reply codes, PASV addresses and MLSD listings;
  - `commands`: the request format of the remote command runner;
  - `ping`: UDP ping and heartbeat messages, timestamps and round-trip statistics;
  - `products`: the product catalogue service;
  - `proxy`: the blacklisting proxy's decisions and journal;
  - `http`: the file server's request parsing and answers, and the client's reading of them;
  - `text`: splitting and decoding helpers the parsers are specified with.
- `app/` — the programs (one subcommand each): sockets, files, threads, async servers and printing.
- `tests/` — tests of the library.

Verify with Verus; the programs build with Cargo against the library.
