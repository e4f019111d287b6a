# dns_zone_lint

A parser for zone-file style DNS record lines that validates them and
reprints them in one consistent layout, written in Verus: every function of
the library carries a contract that the verifier proves.

- `src/` is the verified library. `parse_line` reads one record line
  (`name [ttl] [class] type rdata`), `set_origin` and `set_default_ttl`
  handle the `$ORIGIN` and `$TTL` directives, `check_zone` checks a whole
  zone (exactly one SOA record, no CNAME beside other records of the same
  name), `lint_zone` runs a whole file, and `Record::to_string` /
  `Record::to_json` reprint a record.
- `src/laws.rs` holds the proved laws: a reprinted record reads back as the
  same record, TTL and class may come in either order, a missing class is
  `IN`, a missing TTL is the default, and JSON strings decode back to their
  text.
- `app/main.rs` is the command-line program: it reads a file or stdin,
  prints the records, reports bad lines with their numbers and the zone's
  issues on stderr, and exits nonzero if anything failed.
- `tests/` exercises the library on concrete lines.
