# serafort_sdk

A client library for the Serafort identity platform, verified with Verus.

- `src/` is the verified library: base64url decoding and splitting of JWTs,
  reading their claims as JSON (through `serde_json`), the checks on token
  claims and the user they describe, role and permission
  checks with wildcards, the single sign-on login URL, the token cache of
  machine-to-machine authentication, the cache key and scope of a token
  request, and the decisions of the retrying token request.
- `app/` is the asynchronous client around it: HTTP requests with `reqwest`,
  locking and sleeping with `tokio`, the clock, the serializable copy of the
  user with its JSON claims, and the exponential back-off delay (floating
  point).
- `tests/` exercises the library.
