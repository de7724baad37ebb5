# nadeo_api

A client library for the Nadeo (Trackmania) web services, written in Verus.

`src/` is the verified library:

- `zones` — the zone hierarchy: the tree built from the zone list, with each zone's depth
  counted down from World, and the walk up to a zone's country (or higher).
- `auth` — credentials, user agents, audiences, the Nadeo access and refresh tokens (their
  payloads, expiries and refreshes) and OAuth tokens.
- `ratelimit` — the ring buffer of recent request times and the long-running rate limit.
- `live` — the data model of the Live services, the leaderboard-position batching queue,
  and club room script settings.
- `requests` — the paths, queries and body fields of the requests, and the reading of the
  display-name service's answers and of `content-length` headers.
- `meet` — the data model of the Meet services.
- `json`, `time`, `text` — JSON documents as the library reads them, points in time, and
  decimal rendering and parsing.

`app/` is the network side: the HTTP client, logins, refreshes, the API traits and the serde
forms of the data types. It hands the library plain values and runs what it decides.

`tests/` exercises the library on concrete values.
