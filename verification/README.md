# River

A reverse proxy whose rules are proved. The library under `src/` holds everything
that River decides: how a configuration is read, what happens to a request on its
way through a service, which upstream servers there are, and when which certificate
is obtained and served. It is written in Verus, and each function states in its
contract what it returns or changes. The program under `app/` binds listeners, talks
to the network, the disk and the certificate authority, and asks the library what to
do.

## Layout

* `src/config` - what a service is configured with. `internal` holds the settings
  themselves, `kdl` reads them out of a KDL document, and `toml` out of the older
  format.
* `src/proxy` - a request on its way: normalization, client addresses, load shedding,
  rate limiting, filters, routes, and changes to headers. `discovery` keeps the list
  of upstream servers current, and `health_check` says how they are checked.
* `src/acme` - obtaining certificates: challenges, orders, renewal, and what is kept
  on disk.
* `src/tls` - the certificates that are served, and which of them a client gets.
* `src/listeners.rs` - what a service binds.
* `src/net.rs`, `src/wire.rs`, `src/text.rs`, `src/text_map.rs` - addresses, the
  rules of HTTP on names and values, and text.
* `tests` - the library, run on concrete values.
* `app` - the program.

## What is proved, and what is believed

The time and the outcome of every lookup, file access and connection are handed to the
library as values, so what is proved holds for all of them. Two things reach it from
outside a value: the key of a new certificate, which OpenSSL makes by chance, and the
passphrase of one that is encrypted, which OpenSSL asks for. Nothing is claimed of
either. What spans several functions is stated as a public `proof fn` next to the functions that it speaks of;
`src/config/kdl/laws.rs` holds those on a configuration as a whole.

The library calls `kdl`, `regex`, `cidr`, `http`, `openssl`, `serde_json` and
`instant-acme`. Each such call stands in a small function marked `external_body`, whose
comment says what is believed of it. Where its result takes pages to describe, it is
given a name, and the contracts above it speak of that name.

Everything is passed by value or by reference; there are no locks and no clocks in
the library. A moment is a number of milliseconds, on whatever clock the caller has,
and a date a number of seconds since the Unix epoch.
