# caa

CAA (Certification Authority Authorization, RFC 8659) record data, with
proved contracts.

- `src/caa.rs`: the record, its flags, tags and typed value accessors.
- `src/wire.rs`: the binary form (flags, tag length, tag, value) and the
  round-trip laws between writing and reading it.
- `src/issuer.rs`: the `issue`/`issuewild` value (issuer name and
  parameters): encoder, reader, and the law that reading gives back what was
  written.
- `src/iodef.rs`: the `iodef` value (a URL), parsed by the `url` crate.
- `src/name.rs`: domain names in ASCII presentation form.
- `src/present.rs`: the presentation form `flags tag "value"`.
- `app/lib.rs`: serde and `Display` support on copies of the record types.
