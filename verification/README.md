# pumpkin_cluster

Rules by which several servers run one world together, as a verified library.

Peers exchange player and entity updates per tick, vote on which of them stand,
and promote a tick to the agreed world once every peer that has to vote did.
Whoever disagrees rolls back its own optimistic edits. One peer, the primary,
generates and saves; the others do neither.

## Layout

- `src/` is the library. Every function in it carries a contract that Verus
  proves. State machines are stated over models made of sequences, sets and
  maps; what the rules promise as a whole stands beside them as public proof
  functions whose names begin with `lemma_`.
  - agreement: `accept`, `buckets`, `dual`, `reconcile`, `order`, `sorting`
  - membership: `membership`, `lifecycle`, `mesh`, `chunks`
  - updates: `protocol`, `combat`, `movement`, `interact`, `inventory`,
    `dependent`, `entities`, `entity_action`, `break_emit`, `place_emit`
  - people: `presence`, `presence_audit`, `chat_sync`, `admin_sync`, `hiding`,
    `invsee`, `names`
  - running: `banks`, `primary`, `metrics`, `no_generate`, `lobby_control`,
    `lobby_audit`, `ntp`, `ntp_audit`, `time`, `sequence`, `identity`
  - groundwork: `keyed` (ordered maps and sets), `text`, `bytes`, `floats`
    (numbers held as bits), `codec`, `offers`
- `app/` is ordinary Rust around it: serialisation, channels and tasks, the
  clock, thread-local banks.
- `tests/` runs the library. Files that begin with `laws_` take the proved laws
  on concrete values.

## What is not proved

Three calls leave the library: the xxh64 hash that orders players, the SHA-256
digest that identifies a peer, and the Unicode lower case of names. Each stands
behind a small function marked `external_body` whose doc comment says what is
believed of it.
