# github_hosts

Resolves a list of domains, times a connection to each of their addresses,
chooses one address per domain and prints the choice as a hosts file; also
forwards DNS queries to another server.

- `src/` is the verified library:
  - `executor.rs`: the table of resolved domains and recorded delays, the
    choice of an address per domain (`best_answer`), the retry rule for
    failed resolutions and the delay recorded for a connection attempt;
  - `domain.rs`: which texts are domain names, and reading them from a list;
  - `hosts.rs`: the hosts-file text;
  - `page.rs`: the addresses listed on an address lookup page;
  - `dns.rs`: DNS query and reply messages, through trust-dns;
  - `keyed.rs`, `text.rs`: string-keyed tables read as maps, and string helpers.
- `app/` holds the programs: network I/O, timing, the command line.
- `tests/` runs the library on concrete values.
