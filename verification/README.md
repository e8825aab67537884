# chronicle_core

A bi-temporal knowledge graph as the memory of an agent, with its logic verified by Verus.

Episodes (messages, texts, JSON documents) go in. Entities and dated facts come out of them, are
resolved against what the graph knows, and are stored. A fact has two time lines: when it was true
(`valid_at`, `invalid_at`) and when the graph learned that it was superseded (`created_at`,
`expired_at`). Nothing is thrown away when a newer fact contradicts an older one: the older one is
closed.

## Layout

- `src/` is the library. Everything in it is verified.
  - `types`, `time`, `json`, `text`, `collections`, `score`, `ids`: what the rest is made of.
    Embeddings and scores are held as the bit patterns of their numbers.
  - `pipeline`: ingestion of one episode (`add_episode`) and of many (`bulk`, `bulk_dedup`,
    `bulk_ingest`), resolution of entities (`node_ops`, `node_resolution`, `dedup_helpers`,
    `dedup_index`, `entropy`) and of facts (`edge_ops`, `temporal`), identifier maps
    (`uuid_map`), communities (`community_ops`, `label_propagation`), sagas (`saga`), and changes
    of a graph that exists (`maintenance`).
  - `search`: which methods a search runs, and how results are fused, ordered and limited.
    `double` has the arithmetic of the scores.
  - `prompts`, `llm`: what the model is asked, and when a call is tried again.
  - `document_rag`: documents in chunks.
- `app/` is the asynchronous engine around it: the graph driver, the model, the embedder and the
  tasks that talk to them. What alternates with outside work is a sequence of phases or steps in
  the library: each says what is needed next and takes what came back.
- `tests/` runs the library.

## Conventions

A public function states in `ensures` exactly what it returns, over spec functions on plain values
(the views of the types). Proof functions whose names begin with `law_` state what holds across
functions. What the library has from other crates (BLAKE2b, UUIDs, dates, JSON string literals) and
from the standard library without a specification stands behind functions marked
`#[verifier::external_body]`; the doc comment of each says what is taken on trust.
