//! The policy by which results are ranked, kept and dropped. Weights and probabilities are left open:
//! the policy takes note of whether they are in range.

use crate::hex::code_of;
use crate::text::{chars_of, owned, same_text, text_of};
use vstd::prelude::*;

verus! {

/// When something counts as recent.
#[derive(Debug, Clone, Copy, PartialEq, Eq, Structural)]
pub struct RecencyPolicy {
    pub source: RecencySource,
    pub half_life_days: u32,
}

/// Which time counts.
#[derive(Debug, Clone, Copy, PartialEq, Eq, Structural)]
pub enum RecencySource {
    CommitterTime,
    AuthorTime,
    IndexTime,
}

/// What becomes of results that overlap.
#[derive(Debug, Clone, Copy, PartialEq, Eq, Structural)]
pub struct DedupPolicy {
    pub strategy: DedupStrategy,
    pub overlap_definition: OverlapDefinition,
}

/// Which of two results that overlap is kept.
#[derive(Debug, Clone, Copy, PartialEq, Eq, Structural)]
pub enum DedupStrategy {
    PreferDefinitionSite,
    PreferCallSite,
    PreferRecent,
}

/// When two results overlap.
#[derive(Debug, Clone, Copy, PartialEq, Eq, Structural)]
pub enum OverlapDefinition {
    AstSubtreeContainment,
}

/// What becomes of results that are too long, and how their length is counted.
#[derive(Debug, Clone)]
pub struct BudgetPolicy {
    pub overshoot_policy: BudgetOvershootPolicy,
    pub tokenizer: String,
}

/// What becomes of results that are too long.
#[derive(Debug, Clone, Copy, PartialEq, Eq, Structural)]
pub enum BudgetOvershootPolicy {
    TruncateLowestScored,
    Reject,
    ReturnPartialWithWarning,
}

/// Which score counts where they disagree.
#[derive(Debug, Clone, Copy, PartialEq, Eq, Structural)]
pub enum ConflictResolution {
    WeightedSum,
    StructuralFirst,
    SemanticFirst,
}

impl Default for RecencyPolicy {
    fn default() -> (r: Self)
        ensures
            r.source == RecencySource::CommitterTime,
            r.half_life_days == 30,
    {
        RecencyPolicy { source: RecencySource::CommitterTime, half_life_days: 30 }
    }
}

impl Default for DedupPolicy {
    fn default() -> (r: Self)
        ensures
            r.strategy == DedupStrategy::PreferDefinitionSite,
            r.overlap_definition == OverlapDefinition::AstSubtreeContainment,
    {
        DedupPolicy {
            strategy: DedupStrategy::PreferDefinitionSite,
            overlap_definition: OverlapDefinition::AstSubtreeContainment,
        }
    }
}

impl Default for BudgetPolicy {
    fn default() -> (r: Self)
        ensures
            r.overshoot_policy == BudgetOvershootPolicy::TruncateLowestScored,
            r.tokenizer@ == "cl100k_base"@,
    {
        BudgetPolicy {
            overshoot_policy: BudgetOvershootPolicy::TruncateLowestScored,
            tokenizer: owned("cl100k_base"),
        }
    }
}

/// The policy, but for its weights and probabilities.
#[derive(Debug, Clone)]
pub struct RankingPolicy {
    pub version: String,
    pub conflict_resolution: ConflictResolution,
    pub max_hops: u32,
    pub vector_top_k: u32,
    pub recency: RecencyPolicy,
    pub dedup: DedupPolicy,
    pub budget: BudgetPolicy,
    pub rename_detection_window_days: u32,
    pub tombstone_retention_days: u32,
    pub time_travel_retention_days: u32,
    pub wal_max_bytes: u64,
    pub disk_min_free_pct: u8,
    pub merge_ttl_hours: u32,
    pub embedding_queue_hwm: u32,
    pub embedding_queue_lwm: u32,
    pub vector_recovery_debounce_s: u32,
    pub embedding_tokens_per_day: u64,
}

/// Which of the weights and probabilities are in range.
#[derive(Debug, Clone, Copy, PartialEq, Eq, Structural)]
pub struct FractionChecks {
    /// The weights of the axes add up to one.
    pub axis_weights: bool,
    pub min_path_confidence: bool,
    pub structural_threshold: bool,
    pub rename_min_confidence: bool,
    pub body_similarity_threshold: bool,
    pub name_proximity_threshold: bool,
}

/// A probability of a policy.
#[derive(Debug, Clone, Copy, PartialEq, Eq, Structural)]
pub enum Fraction {
    MinPathConfidence,
    StructuralThreshold,
    RenameMinConfidence,
    BodySimilarityThreshold,
    NameProximityThreshold,
}

/// Why a policy is refused.
#[derive(Debug, Clone, Copy, PartialEq, Eq, Structural)]
pub enum PolicyValidationError {
    AxisWeightsSum,
    ProbabilityOutOfRange { field: Fraction },
    EmbeddingQueueWatermarks { lwm: u32, hwm: u32 },
    DiskMinFreePct(u8),
    TombstoneRetentionVsRenameWindow { retention: u32, window: u32 },
    TombstoneRetentionZero(u32),
}

/// The first thing that is wrong with a policy.
pub open spec fn policy_fault(p: RankingPolicy, c: FractionChecks) -> Option<
    PolicyValidationError,
> {
    if !c.axis_weights {
        Some(PolicyValidationError::AxisWeightsSum)
    } else if !c.min_path_confidence {
        Some(PolicyValidationError::ProbabilityOutOfRange { field: Fraction::MinPathConfidence })
    } else if !c.structural_threshold {
        Some(PolicyValidationError::ProbabilityOutOfRange { field: Fraction::StructuralThreshold })
    } else if !c.rename_min_confidence {
        Some(PolicyValidationError::ProbabilityOutOfRange { field: Fraction::RenameMinConfidence })
    } else if !c.body_similarity_threshold {
        Some(
            PolicyValidationError::ProbabilityOutOfRange {
                field: Fraction::BodySimilarityThreshold,
            },
        )
    } else if !c.name_proximity_threshold {
        Some(
            PolicyValidationError::ProbabilityOutOfRange {
                field: Fraction::NameProximityThreshold,
            },
        )
    } else if p.embedding_queue_lwm >= p.embedding_queue_hwm {
        Some(
            PolicyValidationError::EmbeddingQueueWatermarks {
                lwm: p.embedding_queue_lwm,
                hwm: p.embedding_queue_hwm,
            },
        )
    } else if p.disk_min_free_pct == 0 || p.disk_min_free_pct >= 100 {
        Some(PolicyValidationError::DiskMinFreePct(p.disk_min_free_pct))
    } else if p.tombstone_retention_days == 0 {
        Some(PolicyValidationError::TombstoneRetentionZero(p.tombstone_retention_days))
    } else if p.tombstone_retention_days < p.rename_detection_window_days {
        Some(
            PolicyValidationError::TombstoneRetentionVsRenameWindow {
                retention: p.tombstone_retention_days,
                window: p.rename_detection_window_days,
            },
        )
    } else {
        None
    }
}

/// The version of a policy that names none.
pub open spec fn version_of(version: Seq<char>) -> Seq<char> {
    if version.len() == 0 {
        "2.0"@
    } else {
        version
    }
}

/// The version of a policy, where one that names none has a version all the same.
pub fn policy_version(version: String) -> (r: String)
    ensures
        r@ == version_of(version@),
{
    if version.as_str().is_empty() {
        owned("2.0")
    } else {
        version
    }
}

impl Default for RankingPolicy {
    fn default() -> (r: Self)
        ensures
            r.version@ == "2.0"@,
            r.conflict_resolution == ConflictResolution::WeightedSum,
            r.max_hops == 3,
            r.vector_top_k == 50,
            r.recency.source == RecencySource::CommitterTime,
            r.recency.half_life_days == 30,
            r.dedup.strategy == DedupStrategy::PreferDefinitionSite,
            r.budget.overshoot_policy == BudgetOvershootPolicy::TruncateLowestScored,
            r.budget.tokenizer@ == "cl100k_base"@,
            r.rename_detection_window_days == 30,
            r.tombstone_retention_days == 90,
            r.time_travel_retention_days == 90,
            r.wal_max_bytes == 268_435_456,
            r.disk_min_free_pct == 10,
            r.merge_ttl_hours == 24,
            r.embedding_queue_hwm == 5000,
            r.embedding_queue_lwm == 1000,
            r.vector_recovery_debounce_s == 30,
            r.embedding_tokens_per_day == 1_000_000,
            forall|c: FractionChecks|
                c.axis_weights && c.min_path_confidence && c.structural_threshold
                    && c.rename_min_confidence && c.body_similarity_threshold
                    && c.name_proximity_threshold ==> (#[trigger] policy_fault(r, c)) is None,
    {
        RankingPolicy {
            version: owned("2.0"),
            conflict_resolution: ConflictResolution::WeightedSum,
            max_hops: 3,
            vector_top_k: 50,
            recency: RecencyPolicy::default(),
            dedup: DedupPolicy::default(),
            budget: BudgetPolicy::default(),
            rename_detection_window_days: 30,
            tombstone_retention_days: 90,
            time_travel_retention_days: 90,
            wal_max_bytes: 268_435_456,
            disk_min_free_pct: 10,
            merge_ttl_hours: 24,
            embedding_queue_hwm: 5000,
            embedding_queue_lwm: 1000,
            vector_recovery_debounce_s: 30,
            embedding_tokens_per_day: 1_000_000,
        }
    }
}

impl RankingPolicy {
    /// Judges a policy, given which of its weights and probabilities are in range.
    pub fn validate(&self, checks: FractionChecks) -> (r: Result<(), PolicyValidationError>)
        ensures
            match r {
                Ok(()) => policy_fault(*self, checks) is None,
                Err(e) => policy_fault(*self, checks) == Some(e),
            },
    {
        if !checks.axis_weights {
            return Err(PolicyValidationError::AxisWeightsSum);
        }
        if !checks.min_path_confidence {
            return Err(
                PolicyValidationError::ProbabilityOutOfRange { field: Fraction::MinPathConfidence },
            );
        }
        if !checks.structural_threshold {
            return Err(
                PolicyValidationError::ProbabilityOutOfRange {
                    field: Fraction::StructuralThreshold,
                },
            );
        }
        if !checks.rename_min_confidence {
            return Err(
                PolicyValidationError::ProbabilityOutOfRange {
                    field: Fraction::RenameMinConfidence,
                },
            );
        }
        if !checks.body_similarity_threshold {
            return Err(
                PolicyValidationError::ProbabilityOutOfRange {
                    field: Fraction::BodySimilarityThreshold,
                },
            );
        }
        if !checks.name_proximity_threshold {
            return Err(
                PolicyValidationError::ProbabilityOutOfRange {
                    field: Fraction::NameProximityThreshold,
                },
            );
        }
        if self.embedding_queue_lwm >= self.embedding_queue_hwm {
            return Err(
                PolicyValidationError::EmbeddingQueueWatermarks {
                    lwm: self.embedding_queue_lwm,
                    hwm: self.embedding_queue_hwm,
                },
            );
        }
        if self.disk_min_free_pct == 0 || self.disk_min_free_pct >= 100 {
            return Err(PolicyValidationError::DiskMinFreePct(self.disk_min_free_pct));
        }
        if self.tombstone_retention_days == 0 {
            return Err(
                PolicyValidationError::TombstoneRetentionZero(self.tombstone_retention_days),
            );
        }
        if self.tombstone_retention_days < self.rename_detection_window_days {
            return Err(
                PolicyValidationError::TombstoneRetentionVsRenameWindow {
                    retention: self.tombstone_retention_days,
                    window: self.rename_detection_window_days,
                },
            );
        }
        Ok(())
    }
}

/// The name of a probability of a policy.
pub open spec fn fraction_word(f: Fraction) -> Seq<char> {
    match f {
        Fraction::MinPathConfidence => "min_path_confidence"@,
        Fraction::StructuralThreshold => "hybrid_search.structural_threshold"@,
        Fraction::RenameMinConfidence => "rename_min_confidence"@,
        Fraction::BodySimilarityThreshold => "body_similarity_threshold"@,
        Fraction::NameProximityThreshold => "name_proximity_threshold"@,
    }
}

/// Names a probability of a policy.
pub fn fraction_name(f: Fraction) -> (r: String)
    ensures
        r@ == fraction_word(f),
{
    match f {
        Fraction::MinPathConfidence => owned("min_path_confidence"),
        Fraction::StructuralThreshold => owned("hybrid_search.structural_threshold"),
        Fraction::RenameMinConfidence => owned("rename_min_confidence"),
        Fraction::BodySimilarityThreshold => owned("body_similarity_threshold"),
        Fraction::NameProximityThreshold => owned("name_proximity_threshold"),
    }
}

/// The weights of the kinds of edges.
#[derive(Debug, Clone)]
pub struct EdgeTypeWeights<W> {
    pub calls: W,
    pub imports: W,
    pub extends: W,
    pub uses: W,
    pub configures: W,
    pub co_located: W,
    pub test_of: W,
    pub renamed_from: W,
}

/// A small letter of the Latin alphabet in its capital form; any other character as it is.
pub open spec fn capital(c: char) -> char {
    if 'a' <= c <= 'z' {
        ((c as u32) - 32) as char
    } else {
        c
    }
}

/// A text in capital letters.
pub open spec fn capitals(s: Seq<char>) -> Seq<char> {
    s.map_values(|c: char| capital(c))
}

/// Puts a text in capital letters.
pub fn text_capitals(s: &str) -> (r: String)
    ensures
        r@ == capitals(s@),
{
    let cs = chars_of(s);
    let mut out: Vec<char> = Vec::new();
    let mut i: usize = 0;
    while i < cs.len()
        invariant
            i <= cs.len(),
            cs@ == s@,
            out@ == capitals(s@).take(i as int),
        decreases cs.len() - i,
    {
        let c = cs[i];
        let d = if 'a' <= c && c <= 'z' {
            capital_letter(c)
        } else {
            c
        };
        out.push(d);
        assert(out@ =~= capitals(s@).take(i + 1));
        i = i + 1;
    }
    assert(out@ =~= capitals(s@));
    text_of(&out)
}

/// The capital form of a small letter.
fn capital_letter(c: char) -> (r: char)
    requires
        'a' <= c <= 'z',
    ensures
        r == capital(c),
{
    let n: u8 = (code_of(c) - 32) as u8;
    n as char
}

/// The weights after one of a kind was set by its name; names that say nothing change nothing.
pub open spec fn weight_set<W>(w: EdgeTypeWeights<W>, name: Seq<char>, v: W) -> EdgeTypeWeights<W> {
    let u = capitals(name);
    if u == "CALLS"@ {
        EdgeTypeWeights { calls: v, ..w }
    } else if u == "IMPORTS"@ {
        EdgeTypeWeights { imports: v, ..w }
    } else if u == "EXTENDS"@ {
        EdgeTypeWeights { extends: v, ..w }
    } else if u == "USES"@ {
        EdgeTypeWeights { uses: v, ..w }
    } else if u == "CONFIGURES"@ {
        EdgeTypeWeights { configures: v, ..w }
    } else if u == "CO_LOCATED"@ || u == "CO-LOCATED"@ || u == "COLOCATED"@ {
        EdgeTypeWeights { co_located: v, ..w }
    } else if u == "TEST_OF"@ || u == "TEST-OF"@ {
        EdgeTypeWeights { test_of: v, ..w }
    } else if u == "RENAMED_FROM"@ || u == "RENAMED-FROM"@ {
        EdgeTypeWeights { renamed_from: v, ..w }
    } else {
        w
    }
}

/// The weights after several were set by their names, one after another.
pub open spec fn weights_set<W>(w: EdgeTypeWeights<W>, list: Seq<(String, W)>) -> EdgeTypeWeights<W>
    decreases list.len(),
{
    if list.len() == 0 {
        w
    } else {
        weight_set(weights_set(w, list.drop_last()), list.last().0@, list.last().1)
    }
}

/// Sets one weight by its name.
fn set_weight<W: Copy>(w: &mut EdgeTypeWeights<W>, name: &str, v: W)
    ensures
        *final(w) == weight_set(*old(w), name@, v),
{
    let upper = text_capitals(name);
    let u = upper.as_str();
    if same_text(u, "CALLS") {
        w.calls = v;
    } else if same_text(u, "IMPORTS") {
        w.imports = v;
    } else if same_text(u, "EXTENDS") {
        w.extends = v;
    } else if same_text(u, "USES") {
        w.uses = v;
    } else if same_text(u, "CONFIGURES") {
        w.configures = v;
    } else if same_text(u, "CO_LOCATED") || same_text(u, "CO-LOCATED") || same_text(
        u,
        "COLOCATED",
    ) {
        w.co_located = v;
    } else if same_text(u, "TEST_OF") || same_text(u, "TEST-OF") {
        w.test_of = v;
    } else if same_text(u, "RENAMED_FROM") || same_text(u, "RENAMED-FROM") {
        w.renamed_from = v;
    }
}

/// Sets weights by their names, in whatever letters they are written.
pub fn merge_edge_type_weight_map<W: Copy>(w: &mut EdgeTypeWeights<W>, list: &Vec<(String, W)>)
    ensures
        *final(w) == weights_set(*old(w), list@),
{
    let ghost w0 = *w;
    let mut i: usize = 0;
    assert(list@.take(0) =~= Seq::<(String, W)>::empty());
    while i < list.len()
        invariant
            i <= list.len(),
            *w == weights_set(w0, list@.take(i as int)),
        decreases list.len() - i,
    {
        proof {
            assert(list@.take(i + 1).drop_last() =~= list@.take(i as int));
            assert(list@.take(i + 1).last() == list@[i as int]);
        }
        set_weight(w, list[i].0.as_str(), list[i].1);
        i = i + 1;
    }
    assert(list@.take(list@.len() as int) =~= list@);
}

/// A policy that was accepted keeps what a rename is recognised by, and leaves the queue room to
/// recover.
pub proof fn law_accepted_policy(p: RankingPolicy, c: FractionChecks)
    requires
        policy_fault(p, c) is None,
    ensures
        p.tombstone_retention_days >= p.rename_detection_window_days,
        p.tombstone_retention_days > 0,
        p.embedding_queue_lwm < p.embedding_queue_hwm,
        1 <= p.disk_min_free_pct <= 99,
{
}

/// Half a recency's weight is lost in this many milliseconds.
pub fn policy_half_life_ms(recency: &RecencyPolicy) -> (r: u64)
    ensures
        r == recency.half_life_days * 86_400_000,
{
    recency.half_life_days as u64 * 86_400_000
}

} // verus!
