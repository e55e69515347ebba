# saved-core

SAVED keeps a person's messages on each of their devices, end to end
encrypted, and lets the devices converge through a log of signed operations
that a CRDT resolves. This crate is its core, written in Verus: each public
function carries a contract, and Verus proves the code against it.

## Layout

- `src/` — the verified library.
  - `ids`, `wire`, `codec`, `protobuf`: identifiers and the wire format
    (varints, fields, the protocol's messages, with round-trip lemmas).
  - `events`, `crdt`, `sync`, `views`: the operation log, conflict
    resolution, the replica and its materialized views.
  - `crypto`, `envelope`, `chunks`, `attachments`: keys, sealed operation
    envelopes, encrypted content-addressed chunks and attachments.
  - `account`, `device_linking`: account keys, device certificates and
    linking by QR payload.
  - `peers`, `discovery`, `gossip`, `transmission`: the peer table, its
    health and groups, discovery and the exchange of chunks.
  - `recovery`: circuit breakers and retry decisions.
  - `daemon`, `control`: the daemon's protocol and the answer to each
    control request.
  - `clock`, `assoc`, `text`, `validation`, `types`: shared pieces.
- `tests/` — tests run against the compiled library.
- `app/` — the program around the library: the daemon's socket loop, file
  reading and writing, JSON, and the sleeps between retries.

Calls into outside crates (hashing, encryption, signatures, base64, time
formatting, randomness) stand behind small trusted functions whose contracts
say what the crates document; everything else is proved.
