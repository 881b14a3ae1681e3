# clash_app

The decisions of a rule-based proxy's application layer, written and proved in
[Verus](https://github.com/verus-lang/verus).

- `src/dns` holds the DNS service: configuration, queries and answers on the wire,
  client subnets, fake addresses, caches, filters, policies, the resolver that goes
  by a policy and the one that goes by rules, and the state of the connections to
  upstream servers.
- `src/providers` holds content that is fetched and fetched again, rule sets, and
  checks of proxies.
- `src/inbound` holds the listeners; `src/outbound.rs` the order of proxy groups.
- `src/net.rs`, `src/profile.rs` and `src/logging.rs` hold what is decided about
  interfaces, about what is kept across runs and about logs.
- Outside crates are called behind small functions, most of them in
  `src/collections.rs`, `src/uri.rs`, `src/ip.rs` and `src/text.rs`; each says what
  is believed of the call.

Every function says in its contract what it returns and what it changes. What holds
of several functions together stands in public proof functions whose names begin
with `law_`.

Time, sockets, files and tasks are the caller's: functions take the time as
milliseconds, and those that would wait say what to do next. `app/` does it, with
Tokio. `tests/` runs the library on concrete values.
