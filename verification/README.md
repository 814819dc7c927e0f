# cis_core

The core of a code-intelligence engine: a graph of symbols with their revisions on branches, kept
alongside a key-value store and a log of mutations. `src/` is a Verus library in which every
function is proved to meet its contract; `app/` is ordinary Rust around it (files, a database, locks,
floating-point scores).

## What is where

- Text, bytes and identifiers: `text`, `hex`, `bytes`, `ids`, `spans`, `sorting`, `seqs`, `table`,
  `paths`.
- Storage: `kv`, `keys`, `codec`, `json`, `edge_json`, `wal`, `persistence`, `graph_snapshot`,
  `vector_snapshot`, `metadata_store`, `migration`, `pre_write_snapshot`.
- The graph: `graph`, `cardinality`, `language`, `chunk`, `bindings`, `binding_sync`, `revision_cow`,
  `revision_index`, `revision_lineage`, `overrides`, `absence`, `tombstone_gc`.
- Merging: `merge_lock`, `merge_gate`, `merge_preflight`, `merge_control`, `merge_classify`,
  `merge_promote`, `merge_edges`, `merge_saga_batch`, `saga`, `merge_resume`, `merge_recover`,
  `merge_branch`, `merge_cancel`, `merge_metrics`, `reconciliation`, `tracker`.
- Speculative writes: `path_lease`, `optimistic_patcher`, `patches`, `patch_commands`,
  `write_commands`.
- Indexing: `syntax`, `regexes`, `matched_facts`, `file_index`, `language_indexer`,
  `python_indexer`, `typescript_indexer`, `rust_indexer`, `repo_bootstrap`.
- Questions: `query_engine`, `queries`, `query_context`, `semantic_ann`, `semantic_search`,
  `symbol_body`, `time_travel`, `ranking_policy`, `policy_watcher`, `lsp_pool`, `branches`.
- Sessions and health: `security`, `audit`, `hashing`, `clock`, `status`.
- Vectors: `vector_store`, `vector_cleanup_queue`, `vector_cleanup_worker`.

Functions whose names begin with `law_` state what holds across several operations: that cancelling
a merge restores what was bound, that compensation undoes what was applied, that a lock is held by
one merge, that a second round of compensation finds nothing left to do, that a deletion hides a
symbol, and so on.

Calls into other crates (tree-sitter, regex, diffy, serde_json) stand behind small functions marked
`external_body`, each with a comment that says what is taken on trust.
