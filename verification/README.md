# elintranet-doh-and-resolver

An intranet's DNS-over-HTTPS resolver and reverse proxy. Requests for
`dns.<intranet host>/dns-query` are DNS queries: the resolver answers for
itself and for the intranet's sites, and passes other names on to a public
resolver. Requests for `<site>.<intranet host>` are passed on to the site;
requests for a bare site name are redirected to its intranet name.

- `src/` is the verified library (Verus): reading the queried name out of a
  DNS message and writing names as labels (`name`), choosing the address
  that answers a name (`host`), building replies and choosing the step for
  each request (`server`), URL paths and query strings (`url`), the settings
  file and the site list (`load`, `pairs`), numbers and IPv4 addresses
  (`number`), URL-safe base64 (`base64`), the limit on open-ended byte ranges passed
  on to sites (`range`), and text helpers (`text`, `table`).
- `app/` holds the program: it reads the files, runs the HTTPS server with
  `tiny_http`, forwards with `reqwest`, and performs the steps the library
  chooses.
- `tests/` runs the library on concrete requests and messages.
