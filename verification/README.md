# identify_saml

Reads a SAML 2.0 assertion's subject (`NameID`), its format and its issuer,
unverified, from a posted response or from message content. The assertion is
not checked here: its element rides on, as proof, for a later gate.

- `src/assertion.rs`: the scan of a document for its `Assertion` element, the
  model it is proved against (`scanned`) and the laws of the span.
- `src/lib.rs`: the `Saml` identifier, reading a decoded posted response and
  reading content, and the evidence an assertion gives.
- `src/text.rs`: character-level search, trimming, replacing and UTF-8
  offsets.

Everything under `src/` is verified with Verus; `tests/` runs the library on
concrete documents.
