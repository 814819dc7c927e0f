//! Core engine of a code-intelligence system.

pub mod absence;
pub mod audit;
pub mod binding_sync;
pub mod bindings;
pub mod branches;
pub mod bytes;
pub mod cardinality;
pub mod chunk;
pub mod clock;
pub mod codec;

pub mod course_laws;
pub mod edge_json;
pub mod edge_laws;
pub mod engine_laws;
pub mod file_index;
pub mod graph;
pub mod graph_laws;
pub mod graph_snapshot;
pub mod hashing;
pub mod hex;
pub mod history_laws;
pub mod ids;
pub mod json;
pub mod keys;
pub mod kv;
pub mod language;
pub mod language_indexer;
pub mod lsp_pool;
pub mod matched_facts;
pub mod matched_laws;
pub mod merge_branch;
pub mod merge_cancel;
pub mod merge_classify;
pub mod merge_control;
pub mod merge_edges;
pub mod merge_gate;
pub mod merge_laws;
pub mod merge_lock;
pub mod merge_metrics;
pub mod merge_preflight;
pub mod merge_promote;
pub mod merge_recover;
pub mod merge_resume;
pub mod merge_saga_batch;
pub mod metadata_store;
pub mod migration;
pub mod optimistic_patcher;
pub mod outcome_laws;
pub mod overrides;
pub mod patch_commands;
pub mod patches;
pub mod paths;
pub mod path_lease;
pub mod persistence;
pub mod policy_watcher;
pub mod pre_write_snapshot;
pub mod python_indexer;
pub mod python_laws;
pub mod queries;
pub mod query_context;
pub mod query_engine;
pub mod query_laws;
pub mod ranking_policy;
pub mod reconciliation;
pub mod repo_bootstrap;
pub mod record_laws;
pub mod regexes;
pub mod revision_cow;
pub mod revision_index;
pub mod revision_lineage;
pub mod rust_indexer;
pub mod rust_laws;
pub mod saga;
pub mod search_laws;
pub mod security;
pub mod semantic_ann;
pub mod semantic_search;
pub mod seqs;
pub mod sorting;
pub mod spans;
pub mod status;
pub mod symbol_body;
pub mod syntax;
pub mod table;
pub mod text;
pub mod text_laws;
pub mod time_travel;
pub mod tombstone_gc;
pub mod tracker;
pub mod tree_laws;
pub mod typescript_indexer;
pub mod typescript_laws;
pub mod unit_laws;
pub mod vector_cleanup_queue;
pub mod vector_cleanup_worker;
pub mod vector_snapshot;
pub mod vector_store;
pub mod wal;
pub mod write_commands;
