use std::sync::{Arc, Mutex};

use cis_core::graph::Language;
use cis_core::ids::BranchId;
use cis_core::kv::MemoryKv;
use cis_core::lsp_pool::{
    lsp_cache_key, lsp_cache_value_with_timestamp, LspCacheSweeper, LspPoolState, LspSessionFlags,
};
use cis_core::query_context::{
    build_context_truncated, fits_or_can_be_cut, hybrid_pool, hybrid_search_excludes_speculative,
    keep_top, CharApproxTokenizer, DedupShell, HybridSearchCandidate, QueryCancelFlag, Tokenizer,
};

#[test]
fn virtual_uri_stable() {
    let mut p = LspPoolState::new();
    let u1 = p.virtual_uri_for(Language::Python, BranchId([1u8; 16]));
    let u2 = p.virtual_uri_for(Language::Python, BranchId([1u8; 16]));
    assert_eq!(u1, u2);
    assert!(u1.starts_with("cis-virtual://"));
    assert_eq!(u1, format!("cis-virtual://Python/{}", "01".repeat(16)));
}

#[test]
fn cache_key_changes_with_dependency() {
    let u = "cis-virtual://Python/01";
    let c = [3u8; 32];
    let k1 = lsp_cache_key(u, &c, &[]);
    let k2 = lsp_cache_key(u, &c, &[[1u8; 32]]);
    assert_ne!(k1, k2);
}

#[test]
fn sweeper_removes_stale() {
    let mut kv = MemoryKv::new();
    let k = "lsp:test:k";
    let old = lsp_cache_value_with_timestamp(0, b"x");
    kv.set(k, old);
    let s = LspCacheSweeper::new(1000);
    assert_eq!(s.sweep(&mut kv, 5000), 1);
    assert!(kv.get(k).is_none());
}

#[test]
fn sweeper_keeps_fresh_short_and_foreign() {
    let mut kv = MemoryKv::new();
    kv.set("lsp:fresh", lsp_cache_value_with_timestamp(4500, b"x"));
    kv.set("lsp:short", vec![0, 1, 2]);
    kv.set("other", lsp_cache_value_with_timestamp(0, b"x"));
    let s = LspCacheSweeper::new(1000);
    assert_eq!(s.sweep(&mut kv, 5000), 0);
    assert_eq!(kv.len(), 3);
    assert_eq!(LspCacheSweeper::DEFAULT_TTL_MS, 86_400_000);
}

#[test]
fn stamped_value_holds_time_and_payload() {
    assert_eq!(lsp_cache_value_with_timestamp(258, b"ab"), vec![2, 1, 0, 0, 0, 0, 0, 0, b'a', b'b']);
}

#[test]
fn session_flags_are_set() {
    let mut f = LspSessionFlags { lsp_unavailable: false };
    f.set_degraded(true);
    assert!(f.lsp_unavailable);
}

#[test]
fn char_tokenizer() {
    let t = CharApproxTokenizer;
    assert_eq!(t.count_tokens("abcd"), 1);
}

#[test]
fn tokens_are_counted_by_bytes() {
    let t = CharApproxTokenizer;
    assert_eq!(t.count_tokens(""), 0);
    assert_eq!(t.count_tokens("abcde"), 2);
    assert_eq!(t.count_tokens("\u{e9}\u{e9}\u{e9}"), 2);
}

#[test]
fn hybrid_search_stub_excludes_speculative() {
    assert!(hybrid_search_excludes_speculative(true));
}

#[test]
fn truncation_appends_comment() {
    let t = CharApproxTokenizer;
    let body = "a".repeat(400);
    let (s, ob, om) = build_context_truncated(&body, 10, &t);
    assert!(ob);
    assert!(om > 0);
    assert!(s.contains("// ... [truncated,"));
}

#[test]
fn truncation_keeps_what_fits() {
    let t = CharApproxTokenizer;
    let body = "a".repeat(400);
    let (s, cut, omitted) = build_context_truncated(&body, 10, &t);
    assert!(cut);
    assert_eq!(omitted, 90);
    assert_eq!(s, format!("{}\n// ... [truncated, 90 tokens omitted]", "a".repeat(40)));
    assert_eq!(build_context_truncated("abc", 1, &t), ("abc".to_string(), false, 0));
}

#[test]
fn hybrid_rerank_drops_speculative() {
    let mut c = hybrid_pool(vec![
        HybridSearchCandidate {
            id: "a".into(),
            vector_score: 1.0,
            structural_score: 0.0,
            speculative: true,
        },
        HybridSearchCandidate {
            id: "b".into(),
            vector_score: 0.5,
            structural_score: 0.5,
            speculative: false,
        },
    ]);
    keep_top(&mut c, 5);
    assert_eq!(c.len(), 1);
    assert_eq!(c[0].id, "b");
}

#[test]
fn at_least_one_is_kept() {
    let mut v = vec![3, 2, 1];
    keep_top(&mut v, 0);
    assert_eq!(v, vec![3]);
}

#[test]
fn cancel_flag_flip() {
    let mut f = QueryCancelFlag::new();
    assert!(!f.is_cancelled());
    f.cancel();
    assert!(f.is_cancelled());
}

#[test]
fn holders_of_one_flag_see_it_cancelled() {
    let f = Arc::new(Mutex::new(QueryCancelFlag::default()));
    let g = Arc::clone(&f);
    assert!(!f.lock().unwrap().is_cancelled() && !g.lock().unwrap().is_cancelled());
    f.lock().unwrap().cancel();
    assert!(f.lock().unwrap().is_cancelled() && g.lock().unwrap().is_cancelled());
    g.lock().unwrap().cancel();
    assert!(f.lock().unwrap().is_cancelled() && g.lock().unwrap().is_cancelled());
}

#[test]
fn own_writes_come_first() {
    assert_eq!(DedupShell.prefer_session_speculative(1, true), 1);
    assert_eq!(DedupShell.prefer_session_speculative(1, false), 0);
}

#[test]
fn a_text_is_not_cut_inside_of_a_character() {
    let t = CharApproxTokenizer;
    assert!(fits_or_can_be_cut("a\u{e9}", 0, &t));
    assert!(!fits_or_can_be_cut("\u{e9}a", 0, &t));
    assert!(fits_or_can_be_cut("\u{e9}a", 1, &t));
}
