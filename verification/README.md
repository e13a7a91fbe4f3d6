# silicon_music

The core of the Silicon Music desktop client (a YouTube Music player with
Spotify linking), written in Verus. The functions in `src/` carry
contracts that the verifier proves, except the small `external_body`
wrappers around the outside crates and std (hashing, URL and cookie
parsing, base64, SHA-256, randomness, the clock), whose contracts are
trusted; each says in its doc comment what it claims.

- `src/text.rs` – character-sequence helpers (splitting, trimming,
  decimals, hex, lexicographic order) with their specifications.
- `src/jar.rs` – the Netscape cookie-jar format: reading, writing (a read
  gives back what was written), the `Cookie:` header for a host, and jar
  diffs.
- `src/merge.rs` – merging `Set-Cookie` responses into a jar as a browser
  would, never letting a server expire the identity cookies, keeping the
  lines it does not touch byte for byte, and changing nothing when the
  same response is merged twice.
- `src/auth.rs` – what counts as a signed-in session, in a header and in a
  webview's cookie store.
- `src/accounts.rs` – the accounts index: identity of an account, re-login
  folding, switching, removal, channel selection and the boot-time dedup,
  with the index invariant each of them keeps.
- `src/session.rs` – the session keeper's decisions: boot renewal, the
  refresh schedule and backoff, keeper and sign-in polling.
- `src/cache.rs` – track and cover cache names, the stream server's
  validators, cover-URL vetting and download names.
- `src/spotify.rs` – Spotify PKCE login and account bookkeeping.
- `src/power.rs` – connectivity and resume decisions.

`app/` is the Tauri shell around the library: windows, commands, files,
HTTP and the stream server. `tests/` exercise the library on concrete
values.
