# combatlog

Verified helpers for a World of Warcraft combat-log uploader.

- `src/` is the verified library (Verus):
  - `text` — UTF-8, white space, number rendering and string building;
  - `events` — the grammar of log lines (`stamp  EVENT,field,...`);
  - `runs` — detection of Mythic+ keys and raid sessions and extraction of
    one run, with their laws;
  - `line_endings` — the same log with CRLF line ends gives the same runs;
  - `digests` — every run found carries the digest of its own lines, so it
    can be extracted again by its id;
  - `sessions` — a raid session is complete only once it was left;
  - `incremental` — checkpoints for reading a growing log;
  - `rankings` — characters, ranked rows, percentiles, request validation;
  - `oauth` — the authorization address, PKCE challenge, form bodies, the
    loopback callback and its replies.
- `tests/` runs the library on concrete logs and requests.
- `app/` holds what is not verified: file and network I/O, the async OAuth
  and rankings flows, floating-point means, and the serde forms of the
  library's types.
