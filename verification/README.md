# sysctl_conf

A verified parser for files in the Linux `sysctl.conf` syntax, with optional
validation against a schema of value types.

- `src/text.rs`: white space, trimming, searching, splitting and line breaking
  over characters.
- `src/settings.rs`: `SysctlMap`, the nested settings tree, viewed as the map
  from key paths to values; storing a value and reading the tree.
- `src/parser.rs`: how a configuration line reads, and `parse_str`.
- `src/schema.rs`: value types, schemas, and `parse_str_with_schema`.
- `src/error.rs`: the errors and their messages.
- `app/main.rs`: the command line program, which reads files, converts the
  settings to JSON with `serde_json` and prints them.

Settings are held in the library's own types (`SysctlMap`, `Schema`) rather
than in `serde_json::Map` and `HashMap`: `serde_json::Map` can hold only
`serde_json::Value`, an outside type that may carry floating-point numbers,
so it cannot hold the library's values, and a `HashMap` keyed by `String` has
no specification that the proofs could use. The program converts `SysctlMap`
to JSON only to print it, where keys come out in sorted order.
