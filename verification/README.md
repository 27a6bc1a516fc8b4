# DungeonRouter API

A rules assistant for D&D 5e (SRD 5.1): it searches the rules and a Dungeon
Master's campaign notes, sends grounded questions to a model router, streams the
answers, and checks their citations.

`src/` is the verified library, written in Verus:

- `text` — character-level helpers (trimming, searching, lines, decimals);
- `srd` — Markdown headings, sections and bounded passages, anchors, and the SRD snapshot;
- `search` — full-text query building and the merge of rule and note results;
- `chat` — citation checking, grounded prompts, and the state of a streamed answer;
- `routing` — model tiers, upstream requests, routing receipts and server-sent event decoding;
- `notes` — campaign-note validation;
- `usage` — run records and usage errors;
- `api` — request validation and error statuses of the HTTP API;
- `auth` — bearer tokens and identity-service configuration;
- `storage` — the SQLite file of a database URL.

`app/` is the server around it: HTTP handlers, SQLite storage, the HTTP client of
the model router, JSON shapes, cost estimates in dollars, and the two maintenance
commands (`build-srd-snapshot`, `ingest-srd`).
