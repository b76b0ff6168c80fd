# cache_tracker

A local model of a prompt cache. For a request it tells how many input tokens would be
read from the cache and how many would be written to it, by lifetime, and it records
what a request leaves cached for a credential.

- `src/` is the library, verified with Verus.
  - `json`, `encode`, `text`: JSON values, their canonical form, and their text.
  - `request`, `flatten`: a request as a sequence of cacheable blocks.
  - `digest`, `profile`: fingerprints of prefixes, token sums, breakpoints.
  - `time`, `tokens`: lengths of time and token arithmetic.
  - `store`: the cached prefixes of each credential, with lookup, recording and expiry.
  - `tracker`: the shared tracker with its clock.
  - `laws`: what holds of the cache as a whole.
  - `prefixes`: which changes of a request the fingerprints tell apart.
- `tests/` runs the library with the real `serde_json`, `sha2` and `parking_lot`.
- `app/` takes requests in their wire form, asks a tokenizer for token counts, and logs.

Token counts come from outside: one for each tool, each system block, and each content
block of a message as `request::content_blocks` gives them.
