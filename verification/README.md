# update-ip

A minimal dynamic DNS updater: it resolves the machine's public IPv4 and
IPv6 addresses through OpenDNS (`myip.opendns.com` over raw UDP DNS) and
upserts the A/AAAA records named in `DNS_RECORD_NAME` (`;`-separated) through
Cloudflare's API, configured by `CLOUDFLARE_API_TOKEN` and `CLOUDFLARE_ZONE_ID`.

## Layout

- `src/` is the library, verified with Verus: the textual forms of
  addresses (`addr`), the DNS query and the reading of its answer
  (`resolver::opendns`), HTTP/1.0 request messages and response reading
  (`req`), Cloudflare's requests and replies (`provider::cloudflare`), the
  upsert (look the record up, update it when found, create it otherwise) and
  its report, stated over what the provider answered (`provider`), and one run
  over the configured record names (`update`). What a provider answers is not
  verified: it comes from the network.
- `app/` is the program around it: environment variables, UDP and TCP
  sockets, TLS through the system's OpenSSL, and printing.
- `tests/` exercises the library on concrete values.
