# zoneq

Query DNS zone files: match records by owner name, type and what their
rdata points at, or answer a question the way the zone's authoritative
server would (RFC 1034 § 4.3.2, RFC 4592 wildcards).

The library in `src/` is written in Verus, and its functions are verified
against their contracts. Two small functions in `text` are trusted rather
than proved: they call std's `String::from_utf8` and `String::push`, and
their contracts state what std documents of them.

- `lexer`: the master file format's tokens and entries, as a byte-level
  state machine (`tokenise_spec`).
- `name`: absolute domain names, their labels, keys and ancestors; equality
  goes by the octets the labels stand for.
- `ttl`: TTLs, including BIND's `1h30m` units.
- `zone`: records and directives, and a zone reader that stops at each
  `$INCLUDE` so its caller can hand over the file's text.
- `query`, `data`: what a query or a `--data` value selects.
- `resolve`: authoritative answers, with CNAME chains, wildcards,
  empty non-terminals and referrals.
- `reprint`: printed records read back as the same records.

`app/` is the command line around it: arguments, reading files and stdin,
parsing IP addresses, and printing text or JSON.
