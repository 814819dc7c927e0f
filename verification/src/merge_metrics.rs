//! Measurements of merges: which of them are recent, and what they come to.

use crate::hex;
use crate::hex::hex16;
use crate::ids::MergeId;
use crate::merge_branch;
use crate::merge_branch::{MergeOutcome, merge_branch, phase_durations_from_timeline};
use crate::merge_recover::MergeRecoveryEntry;
use crate::paths;
use crate::paths::path_in;
use crate::security::{AuthError, AuthProvider};
use crate::sorting;
use crate::sorting::{insert_sorted, sort_texts};
use crate::syntax;
use crate::table::Table;
use crate::text;
use crate::text::{copy_texts, owned, texts_contain};
use vstd::prelude::*;

verus! {

/// What was measured of one merge.
pub struct MergeMetricsRecord {
    pub merge_id_hex: String,
    pub started_at_ms: u64,
    pub phase_durations_ms: Table<String, u64>,
    pub edges_regenerated: usize,
    pub dangling_edges_removed: usize,
    pub signature_reresolved: usize,
    pub cardinality_violations: Vec<String>,
    pub resumed_from_phase: Option<String>,
    pub compensated: bool,
}

/// The file of measurements in a directory.
pub open spec fn metrics_file(dir: Seq<char>) -> Seq<char> {
    paths::in_directory(dir, "merge_metrics.jsonl"@)
}

/// The file of measurements in a directory.
pub fn merge_metrics_path(cis_dir: &str) -> (r: String)
    ensures
        r@ == metrics_file(cis_dir@),
{
    path_in(cis_dir, "merge_metrics.jsonl")
}

/// The records that were read, without those that began too early.
pub open spec fn kept_since(
    read: Seq<Option<MergeMetricsRecord>>,
    since_ms: Option<u64>,
) -> Seq<MergeMetricsRecord>
    decreases read.len(),
{
    if read.len() == 0 {
        Seq::empty()
    } else {
        let front = kept_since(read.drop_last(), since_ms);
        match read.last() {
            Some(rec) => if since_ms matches Some(t) && rec.started_at_ms < t {
                front
            } else {
                front.push(rec)
            },
            None => front,
        }
    }
}

/// The last of a sequence, at most `limit`.
pub open spec fn at_most_last<T>(s: Seq<T>, limit: nat) -> Seq<T> {
    if s.len() > limit {
        s.skip(s.len() - limit)
    } else {
        s
    }
}

/// The recent records of a file, whose lines were read one by one.
pub fn read_merge_metrics(read: Vec<Option<MergeMetricsRecord>>, limit: usize) -> (r: Vec<
    MergeMetricsRecord,
>)
    ensures
        r@ == at_most_last(kept_since(read@, None), limit as nat),
{
    read_merge_metrics_filtered(read, limit, None)
}

/// The recent records of a file that began no earlier than `since_ms`.
pub fn read_merge_metrics_filtered(
    read: Vec<Option<MergeMetricsRecord>>,
    limit: usize,
    since_ms: Option<u64>,
) -> (r: Vec<MergeMetricsRecord>)
    ensures
        r@ == at_most_last(kept_since(read@, since_ms), limit as nat),
{
    let ghost all = kept_since(read@, since_ms);
    let mut left = read;
    let mut back: Vec<MergeMetricsRecord> = Vec::new();
    assert(all =~= all + back@.reverse());
    while left.len() > 0 && back.len() < limit
        invariant
            back.len() <= limit,
            all == kept_since(left@, since_ms) + back@.reverse(),
        decreases left.len(),
    {
        let ghost whole = left@;
        let last = left.pop();
        assert(left@ =~= whole.drop_last());
        if let Some(Some(rec)) = last {
            let early = match since_ms {
                Some(t) => rec.started_at_ms < t,
                None => false,
            };
            if !early {
                let ghost before = back@;
                let ghost kept = rec;
                back.push(rec);
                assert(back@.reverse() =~= seq![kept] + before.reverse());
                assert(kept_since(left@, since_ms) + back@.reverse() =~= kept_since(
                    left@,
                    since_ms,
                ).push(kept) + before.reverse());
            }
        }
    }
    let ghost found = back@;
    assert(at_most_last(all, limit as nat) =~= found.reverse());
    let mut out: Vec<MergeMetricsRecord> = Vec::new();
    while back.len() > 0
        invariant
            out@ + back@.reverse() =~= found.reverse(),
        decreases back.len(),
    {
        let ghost before = back@;
        if let Some(rec) = back.pop() {
            assert(back@ =~= before.drop_last());
            assert(before.reverse() =~= seq![before.last()] + back@.reverse());
            out.push(rec);
        }
    }
    assert(out@ =~= found.reverse());
    out
}

/// The sum of the values of rows.
pub open spec fn rows_total(rows: Seq<(Seq<char>, u64)>) -> nat
    decreases rows.len(),
{
    if rows.len() == 0 {
        0
    } else {
        rows_total(rows.drop_last()) + rows.last().1 as nat
    }
}

/// The time that a merge took.
pub open spec fn duration_of(rec: MergeMetricsRecord) -> nat {
    rows_total(rec.phase_durations_ms.rows())
}

/// The sum of some rows is no more than the sum of all.
proof fn lemma_rows_total_front(rows: Seq<(Seq<char>, u64)>, n: int)
    requires
        0 <= n <= rows.len(),
    ensures
        rows_total(rows.take(n)) <= rows_total(rows),
    decreases rows.len() - n,
{
    if n < rows.len() {
        assert(rows.take(n + 1).drop_last() =~= rows.take(n));
        lemma_rows_total_front(rows, n + 1);
    } else {
        assert(rows.take(n) =~= rows);
    }
}

/// Computes the time that a merge took.
fn total_duration_ms(rec: &MergeMetricsRecord) -> (n: u64)
    requires
        duration_of(*rec) <= u64::MAX,
    ensures
        n == duration_of(*rec),
{
    let ghost rows = rec.phase_durations_ms.rows();
    let len = rec.phase_durations_ms.len();
    let mut n: u64 = 0;
    let mut i: usize = 0;
    assert(rows.take(0) =~= Seq::<(Seq<char>, u64)>::empty());
    while i < len
        invariant
            i <= len,
            len == rows.len(),
            rows == rec.phase_durations_ms.rows(),
            rows_total(rows) <= u64::MAX,
            n == rows_total(rows.take(i as int)),
        decreases len - i,
    {
        proof {
            assert(rows.take(i + 1).drop_last() =~= rows.take(i as int));
            assert(rows.take(i + 1).last() == rows[i as int]);
            lemma_rows_total_front(rows, i + 1);
        }
        n = n + *rec.phase_durations_ms.value_at(i);
        i = i + 1;
    }
    assert(rows.take(rows.len() as int) =~= rows);
    n
}

/// How many records satisfy a condition, counted over a sequence of answers.
pub open spec fn count_of(answers: Seq<bool>) -> nat
    decreases answers.len(),
{
    if answers.len() == 0 {
        0
    } else {
        count_of(answers.drop_last()) + (if answers.last() {
            1nat
        } else {
            0
        })
    }
}

/// The sum of numbers.
pub open spec fn sum_of(numbers: Seq<nat>) -> nat
    decreases numbers.len(),
{
    if numbers.len() == 0 {
        0
    } else {
        sum_of(numbers.drop_last()) + numbers.last()
    }
}

/// The sum of some numbers is no more than the sum of all.
proof fn lemma_sum_front(numbers: Seq<nat>, n: int)
    requires
        0 <= n <= numbers.len(),
    ensures
        sum_of(numbers.take(n)) <= sum_of(numbers),
    decreases numbers.len() - n,
{
    if n < numbers.len() {
        assert(numbers.take(n + 1).drop_last() =~= numbers.take(n));
        lemma_sum_front(numbers, n + 1);
    } else {
        assert(numbers.take(n) =~= numbers);
    }
}

/// Which merges were compensated.
pub open spec fn compensations(records: Seq<MergeMetricsRecord>) -> Seq<bool> {
    records.map_values(|r: MergeMetricsRecord| r.compensated)
}

/// Which merges were resumed.
pub open spec fn resumptions(records: Seq<MergeMetricsRecord>) -> Seq<bool> {
    records.map_values(|r: MergeMetricsRecord| r.resumed_from_phase is Some)
}

/// How many violations each merge had.
pub open spec fn violation_counts(records: Seq<MergeMetricsRecord>) -> Seq<nat> {
    records.map_values(|r: MergeMetricsRecord| r.cardinality_violations@.len())
}

/// How many edges each merge made.
pub open spec fn edge_counts(records: Seq<MergeMetricsRecord>) -> Seq<nat> {
    records.map_values(|r: MergeMetricsRecord| r.edges_regenerated as nat)
}

/// The times that a phase took, in the order of the merges that had it.
pub open spec fn phase_times(records: Seq<MergeMetricsRecord>, phase: Seq<char>) -> Seq<u64>
    decreases records.len(),
{
    if records.len() == 0 {
        Seq::empty()
    } else {
        let front = phase_times(records.drop_last(), phase);
        let m = records.last().phase_durations_ms@;
        if m.contains_key(phase) {
            front.push(m[phase])
        } else {
            front
        }
    }
}

/// Times as numbers.
pub open spec fn as_numbers(times: Seq<u64>) -> Seq<nat> {
    times.map_values(|t: u64| t as nat)
}

/// Some merge had a phase.
pub open spec fn has_phase(records: Seq<MergeMetricsRecord>, phase: Seq<char>) -> bool {
    exists|i: int|
        0 <= i < records.len() && (#[trigger] records[i]).phase_durations_ms@.contains_key(phase)
}

/// What merges took for one phase.
pub struct PhaseTimes {
    pub phase: String,
    /// The times, ascending.
    pub times: Vec<u64>,
    /// Their sum.
    pub total: u64,
}

/// The times of a phase stand in ascending order with their sum.
pub open spec fn times_of_phase(records: Seq<MergeMetricsRecord>, p: PhaseTimes) -> bool {
    let times = phase_times(records, p.phase@);
    &&& sorting::ascending(p.times@)
    &&& p.times@.to_multiset() == times.to_multiset()
    &&& p.total == sum_of(as_numbers(times))
}

/// What a number of merges come to.
pub struct MergeMetricsTotals {
    pub window_records: usize,
    pub compensated: usize,
    pub resumed: usize,
    pub edges_regenerated: usize,
    pub cardinality_violation_count: usize,
    pub phases: Vec<PhaseTimes>,
    /// The places of the slowest merges, slowest first.
    pub slowest_merges: Vec<usize>,
}

/// One merge comes before another: it took longer, or as long and was recorded earlier.
pub open spec fn slower(records: Seq<MergeMetricsRecord>, i: int, j: int) -> bool {
    duration_of(records[i]) > duration_of(records[j]) || (duration_of(records[i]) == duration_of(
        records[j],
    ) && i < j)
}

/// The places of the slowest merges, slowest first, and all that is left out comes after.
pub open spec fn slowest(records: Seq<MergeMetricsRecord>, places: Seq<usize>) -> bool {
    &&& forall|a: int| 0 <= a < places.len() ==> 0 <= #[trigger] places[a] < records.len()
    &&& forall|a: int, b: int|
        0 <= a < b < places.len() ==> slower(
            records,
            #[trigger] places[a] as int,
            #[trigger] places[b] as int,
        )
    &&& forall|a: int, i: int|
        #![trigger places[a], records[i]]
        0 <= a < places.len() && 0 <= i < records.len() && !places.contains(i as usize)
            ==> slower(records, places[a] as int, i)
}

/// The names of the phases of a number of merges: each once, in order.
pub open spec fn phase_names_of(records: Seq<MergeMetricsRecord>, names: Seq<Seq<char>>) -> bool {
    &&& sorting::texts_sorted(names)
    &&& names.no_duplicates()
    &&& forall|p: Seq<char>| #[trigger] names.contains(p) <==> has_phase(records, p)
}

/// The names under which times stand.
pub open spec fn names_of_times(phases: Seq<PhaseTimes>) -> Seq<Seq<char>> {
    phases.map_values(|p: PhaseTimes| p.phase@)
}

/// What the sums of measurements must stay under.
pub open spec fn sums_fit(records: Seq<MergeMetricsRecord>) -> bool {
    &&& sum_of(violation_counts(records)) <= usize::MAX
    &&& sum_of(edge_counts(records)) <= usize::MAX
    &&& forall|i: int|
        0 <= i < records.len() ==> duration_of(#[trigger] records[i]) <= u64::MAX
    &&& forall|p: Seq<char>| sum_of(as_numbers(#[trigger] phase_times(records, p))) <= u64::MAX
}

/// Adds the names of the phases of one merge to those found so far.
fn note_phases(rec: &MergeMetricsRecord, names: &mut Vec<String>)
    requires
        text::texts(old(names)@).no_duplicates(),
    ensures
        text::texts(final(names)@).no_duplicates(),
        forall|p: Seq<char>| #[trigger]
            text::texts(final(names)@).contains(p) <==> text::texts(old(names)@).contains(p)
                || rec.phase_durations_ms@.contains_key(p),
{
    let len = rec.phase_durations_ms.len();
    let ghost rows = rec.phase_durations_ms.rows();
    let ghost before = text::texts(names@);
    let mut i: usize = 0;
    while i < len
        invariant
            i <= len,
            len == rows.len(),
            rows == rec.phase_durations_ms.rows(),
            text::texts(names@).no_duplicates(),
            forall|p: Seq<char>| #[trigger]
                text::texts(names@).contains(p) <==> before.contains(p) || exists|k: int|
                    0 <= k < i && (#[trigger] rows[k]).0 == p,
        decreases len - i,
    {
        let name = rec.phase_durations_ms.key_at(i);
        let ghost now = text::texts(names@);
        if !texts_contain(names, name.as_str()) {
            let copy = owned(name.as_str());
            names.push(copy);
            assert(text::texts(names@) =~= now.push(rows[i as int].0));
        }
        proof {
            let after = text::texts(names@);
            assert forall|p: Seq<char>| #[trigger] after.contains(p) <==> before.contains(p)
                || exists|k: int| 0 <= k < i + 1 && (#[trigger] rows[k]).0 == p by {
                if after.contains(p) {
                    if now.contains(p) {
                        if !before.contains(p) {
                            let k = choose|k: int| 0 <= k < i && (#[trigger] rows[k]).0 == p;
                            assert(rows[k].0 == p);
                        }
                    } else {
                        let j = choose|j: int| 0 <= j < after.len() && after[j] == p;
                        if j < now.len() {
                            assert(now[j] == p);
                        }
                        assert(rows[i as int].0 == p);
                    }
                }
                if before.contains(p) || exists|k: int|
                    0 <= k < i + 1 && (#[trigger] rows[k]).0 == p {
                    if now.contains(p) {
                        let j = choose|j: int| 0 <= j < now.len() && now[j] == p;
                        assert(after[j] == p);
                    } else {
                        let k = choose|k: int| 0 <= k < i + 1 && (#[trigger] rows[k]).0 == p;
                        assert(k == i);
                        assert(after[now.len() as int] == p);
                    }
                }
            }
        }
        i = i + 1;
    }
    proof {
        assert(rec.phase_durations_ms.consistent());
        let after = text::texts(names@);
        assert forall|p: Seq<char>| #[trigger] after.contains(p) <==> before.contains(p)
            || rec.phase_durations_ms@.contains_key(p) by {
            if after.contains(p) && !before.contains(p) {
                let k = choose|k: int| 0 <= k < len && (#[trigger] rows[k]).0 == p;
                assert(rec.phase_durations_ms@.contains_pair(rows[k].0, rows[k].1));
            }
        }
    }
}

/// The names of the phases of a number of merges.
fn phase_names(records: &Vec<MergeMetricsRecord>) -> (r: Vec<String>)
    ensures
        phase_names_of(records@, text::texts(r@)),
{
    let mut names: Vec<String> = Vec::new();
    let mut i: usize = 0;
    while i < records.len()
        invariant
            i <= records.len(),
            text::texts(names@).no_duplicates(),
            forall|p: Seq<char>| #[trigger]
                text::texts(names@).contains(p) <==> has_phase(records@.take(i as int), p),
        decreases records.len() - i,
    {
        let ghost before = text::texts(names@);
        note_phases(&records[i], &mut names);
        proof {
            let front = records@.take(i as int);
            let more = records@.take(i + 1);
            assert forall|p: Seq<char>| #[trigger] text::texts(names@).contains(p) <==> has_phase(
                more,
                p,
            ) by {
                if text::texts(names@).contains(p) {
                    if before.contains(p) {
                        let k = choose|k: int|
                            0 <= k < front.len()
                                && (#[trigger] front[k]).phase_durations_ms@.contains_key(p);
                        assert(more[k] == front[k]);
                    } else {
                        assert(more[i as int].phase_durations_ms@.contains_key(p));
                    }
                }
                if has_phase(more, p) {
                    let k = choose|k: int|
                        0 <= k < more.len()
                            && (#[trigger] more[k]).phase_durations_ms@.contains_key(p);
                    if k < i {
                        assert(front[k] == more[k]);
                        assert(before.contains(p));
                    }
                }
            }
        }
        i = i + 1;
    }
    proof {
        assert(records@.take(records@.len() as int) =~= records@);
    }
    let ghost found = text::texts(names@);
    let sorted = sort_texts(names);
    proof {
        let s = text::texts(sorted@);
        assert(s.to_multiset() == found.to_multiset());
        sorting::lemma_same_items(found, s);
    }
    sorted
}

/// The times of one phase, in order, with their sum.
fn phase_of(records: &Vec<MergeMetricsRecord>, phase: &str) -> (r: PhaseTimes)
    requires
        sum_of(as_numbers(phase_times(records@, phase@))) <= u64::MAX,
    ensures
        r.phase@ == phase@,
        times_of_phase(records@, r),
{
    let name = owned(phase);
    let mut times: Vec<u64> = Vec::new();
    let mut total: u64 = 0;
    let mut i: usize = 0;
    let ghost all = phase_times(records@, phase@);
    proof {
        assert(records@.take(0) =~= Seq::<MergeMetricsRecord>::empty());
        assert(times@ =~= Seq::<u64>::empty());
        assert(as_numbers(Seq::<u64>::empty()) =~= Seq::<nat>::empty());
    }
    while i < records.len()
        invariant
            i <= records.len(),
            name@ == phase@,
            all == phase_times(records@, phase@),
            sum_of(as_numbers(all)) <= u64::MAX,
            sorting::ascending(times@),
            times@.to_multiset() == phase_times(records@.take(i as int), phase@).to_multiset(),
            total == sum_of(as_numbers(phase_times(records@.take(i as int), phase@))),
        decreases records.len() - i,
    {
        let ghost front = phase_times(records@.take(i as int), phase@);
        proof {
            assert(records@.take(i + 1).drop_last() =~= records@.take(i as int));
            assert(records@.take(i + 1).last() == records@[i as int]);
        }
        if let Some(t) = records[i].phase_durations_ms.get(&name) {
            let ghost before = times@;
            let ghost more = front.push(*t);
            proof {
                assert(phase_times(records@.take(i + 1), phase@) == more);
                assert(as_numbers(more).drop_last() =~= as_numbers(front));
                lemma_times_front(records@, phase@, i + 1);
            }
            insert_sorted(&mut times, *t);
            proof {
                let k = choose|k: int|
                    0 <= k <= before.len() && times@ == #[trigger] before.insert(k, *t);
                vstd::seq_lib::to_multiset_insert(before, k, *t);
                broadcast use vstd::seq_lib::group_to_multiset_ensures;

                assert(more.to_multiset() =~= front.to_multiset().insert(*t));
            }
            total = total + *t;
        }
        i = i + 1;
    }
    assert(records@.take(records@.len() as int) =~= records@);
    PhaseTimes { phase: name, times, total }
}

/// The times of a phase in some merges add up to no more than in all.
proof fn lemma_times_front(records: Seq<MergeMetricsRecord>, phase: Seq<char>, n: int)
    requires
        0 <= n <= records.len(),
    ensures
        sum_of(as_numbers(phase_times(records.take(n), phase))) <= sum_of(
            as_numbers(phase_times(records, phase)),
        ),
    decreases records.len() - n,
{
    if n < records.len() {
        let a = records.take(n);
        let b = records.take(n + 1);
        assert(b.drop_last() =~= a);
        let ta = phase_times(a, phase);
        let tb = phase_times(b, phase);
        if b.last().phase_durations_ms@.contains_key(phase) {
            assert(as_numbers(tb).drop_last() =~= as_numbers(ta));
        }
        lemma_times_front(records, phase, n + 1);
    } else {
        assert(records.take(n) =~= records);
    }
}

/// The place of the slowest merge that is not among those taken.
fn next_slowest(times: &Vec<u64>, taken: &Vec<usize>) -> (r: Option<usize>)
    ensures
        match r {
            Some(k) => {
                &&& k < times.len()
                &&& !taken@.contains(k)
                &&& forall|i: int|
                    0 <= i < times.len() && i != k && !taken@.contains(i as usize) ==> (
                    #[trigger] times[i] < times[k as int] || (times[i] == times[k as int] && k < i))
            },
            None => forall|i: int|
                0 <= i < times.len() ==> taken@.contains(#[trigger] (i as usize)),
        },
{
    let mut best: Option<usize> = None;
    let mut i: usize = 0;
    while i < times.len()
        invariant
            i <= times.len(),
            match best {
                Some(k) => {
                    &&& k < i
                    &&& !taken@.contains(k)
                    &&& forall|j: int|
                        0 <= j < i && j != k && !taken@.contains(j as usize) ==> (
                        #[trigger] times[j] < times[k as int] || (times[j] == times[k as int] && k
                            < j))
                },
                None => forall|j: int|
                    0 <= j < i ==> taken@.contains(#[trigger] (j as usize)),
            },
        decreases times.len() - i,
    {
        let mut seen = false;
        let mut a: usize = 0;
        while a < taken.len()
            invariant
                a <= taken.len(),
                seen <==> taken@.take(a as int).contains(i),
            decreases taken.len() - a,
        {
            let ghost before = taken@.take(a as int);
            let ghost more = taken@.take(a + 1);
            assert(more =~= before.push(taken@[a as int]));
            proof {
                if before.contains(i) {
                    let j = choose|j: int| 0 <= j < before.len() && before[j] == i;
                    assert(more[j] == i);
                }
                if taken@[a as int] == i {
                    assert(more[a as int] == i);
                }
            }
            if taken[a] == i {
                seen = true;
            }
            a = a + 1;
        }
        assert(taken@.take(taken@.len() as int) =~= taken@);
        if !seen {
            let better = match best {
                Some(k) => times[i] > times[k],
                None => true,
            };
            if better {
                best = Some(i);
            }
        }
        i = i + 1;
    }
    best
}

/// The places of the slowest merges, at most `limit`.
fn slowest_places(records: &Vec<MergeMetricsRecord>, limit: usize) -> (r: Vec<usize>)
    requires
        forall|i: int| 0 <= i < records.len() ==> duration_of(#[trigger] records[i]) <= u64::MAX,
    ensures
        slowest(records@, r@),
        r@.len() == (if records.len() < limit {
            records.len()
        } else {
            limit
        }),
{
    let mut times: Vec<u64> = Vec::new();
    let mut i: usize = 0;
    while i < records.len()
        invariant
            i <= records.len(),
            forall|j: int| 0 <= j < records.len() ==> duration_of(#[trigger] records[j]) <= u64::MAX,
            times.len() == i,
            forall|j: int| 0 <= j < i ==> #[trigger] times[j] == duration_of(records[j]),
        decreases records.len() - i,
    {
        times.push(total_duration_ms(&records[i]));
        i = i + 1;
    }
    let mut places: Vec<usize> = Vec::new();
    while places.len() < limit && places.len() < records.len()
        invariant
            times.len() == records.len(),
            forall|j: int| 0 <= j < records.len() ==> #[trigger] times[j] == duration_of(records[j]),
            slowest(records@, places@),
            places.len() <= limit,
            places.len() <= records.len(),
        decreases records.len() - places.len(),
    {
        let ghost before = places@;
        match next_slowest(&times, &places) {
            Some(k) => {
                places.push(k);
                proof {
                    assert forall|i: int|
                        #![trigger records@[i]]
                        0 <= i < records@.len() && i != k && !before.contains(
                            i as usize,
                        ) implies slower(records@, k as int, i) by {
                        assert(times[i] == duration_of(records[i]));
                        assert(times[k as int] == duration_of(records[k as int]));
                    }
                    lemma_slowest_grows(records@, before, k);
                }
            },
            None => {
                proof {
                    lemma_all_taken(before, records@.len());
                }
                assert(false);
            },
        }
    }
    places
}

/// The next slowest merge may be added to the slowest.
proof fn lemma_slowest_grows(records: Seq<MergeMetricsRecord>, places: Seq<usize>, k: usize)
    requires
        slowest(records, places),
        records.len() <= usize::MAX,
        k < records.len(),
        !places.contains(k),
        forall|i: int|
            #![trigger records[i]]
            0 <= i < records.len() && i != k && !places.contains(i as usize) ==> slower(
                records,
                k as int,
                i,
            ),
    ensures
        slowest(records, places.push(k)),
{
    let more = places.push(k);
    assert forall|a: int, b: int| 0 <= a < b < more.len() implies slower(
        records,
        #[trigger] more[a] as int,
        #[trigger] more[b] as int,
    ) by {
        if b == places.len() {
            assert(places[a] == more[a]);
            assert(records[k as int] == records[k as int]);
        }
    }
    assert forall|a: int, i: int|
        #![trigger more[a], records[i]]
        0 <= a < more.len() && 0 <= i < records.len() && !more.contains(i as usize) implies slower(
        records,
        more[a] as int,
        i,
    ) by {
        assert(!places.contains(i as usize)) by {
            if places.contains(i as usize) {
                let j = choose|j: int| 0 <= j < places.len() && places[j] == i as usize;
                assert(more[j] == i as usize);
            }
        }
        assert(more[places.len() as int] == k);
        if a < places.len() {
            assert(places[a] == more[a]);
        }
    }
}

/// Fewer places than numbers leave one out.
proof fn lemma_all_taken(places: Seq<usize>, n: nat)
    requires
        n <= usize::MAX,
        forall|i: int| 0 <= i < n ==> places.contains(#[trigger] (i as usize)),
    ensures
        places.len() >= n,
    decreases n,
{
    let all = Seq::new(n, |i: int| i as usize);
    assert(all.no_duplicates());
    all.unique_seq_to_set();
    places.lemma_cardinality_of_set();
    assert(all.to_set().subset_of(places.to_set())) by {
        assert forall|x: usize| all.to_set().contains(x) implies places.to_set().contains(x) by {
            let i = choose|i: int| 0 <= i < all.len() && all[i] == x;
            assert(places.contains(i as usize));
        }
    }
    vstd::set_lib::lemma_len_subset(all.to_set(), places.to_set());
}

/// What a number of merges come to; averages and ranks are taken from the totals.
pub fn rollup_merge_metrics(records: &Vec<MergeMetricsRecord>) -> (r: MergeMetricsTotals)
    requires
        sums_fit(records@),
    ensures
        r.window_records == records@.len(),
        r.compensated == count_of(compensations(records@)),
        r.resumed == count_of(resumptions(records@)),
        r.edges_regenerated == sum_of(edge_counts(records@)),
        r.cardinality_violation_count == sum_of(violation_counts(records@)),
        phase_names_of(records@, names_of_times(r.phases@)),
        forall|i: int|
            0 <= i < r.phases.len() ==> times_of_phase(records@, #[trigger] r.phases[i]),
        slowest(records@, r.slowest_merges@),
        r.slowest_merges@.len() == (if records@.len() < 5 {
            records@.len()
        } else {
            5
        }),
{
    let mut compensated: usize = 0;
    let mut resumed: usize = 0;
    let mut edges: usize = 0;
    let mut violations: usize = 0;
    let ghost c = compensations(records@);
    let ghost s = resumptions(records@);
    let ghost e = edge_counts(records@);
    let ghost v = violation_counts(records@);
    let mut i: usize = 0;
    proof {
        assert(c.take(0) =~= Seq::<bool>::empty());
        assert(s.take(0) =~= Seq::<bool>::empty());
        assert(e.take(0) =~= Seq::<nat>::empty());
        assert(v.take(0) =~= Seq::<nat>::empty());
    }
    while i < records.len()
        invariant
            i <= records.len(),
            c == compensations(records@),
            s == resumptions(records@),
            e == edge_counts(records@),
            v == violation_counts(records@),
            sum_of(e) <= usize::MAX,
            sum_of(v) <= usize::MAX,
            compensated <= i,
            resumed <= i,
            compensated == count_of(c.take(i as int)),
            resumed == count_of(s.take(i as int)),
            edges == sum_of(e.take(i as int)),
            violations == sum_of(v.take(i as int)),
        decreases records.len() - i,
    {
        let rec = &records[i];
        proof {
            assert(c.take(i + 1).drop_last() =~= c.take(i as int));
            assert(s.take(i + 1).drop_last() =~= s.take(i as int));
            assert(e.take(i + 1).drop_last() =~= e.take(i as int));
            assert(v.take(i + 1).drop_last() =~= v.take(i as int));
            lemma_sum_front(e, i + 1);
            lemma_sum_front(v, i + 1);
        }
        if rec.compensated {
            compensated = compensated + 1;
        }
        if rec.resumed_from_phase.is_some() {
            resumed = resumed + 1;
        }
        edges = edges + rec.edges_regenerated;
        violations = violations + rec.cardinality_violations.len();
        i = i + 1;
    }
    proof {
        assert(c.take(c.len() as int) =~= c);
        assert(s.take(s.len() as int) =~= s);
        assert(e.take(e.len() as int) =~= e);
        assert(v.take(v.len() as int) =~= v);
    }
    let names = phase_names(records);
    let mut phases: Vec<PhaseTimes> = Vec::new();
    let mut k: usize = 0;
    while k < names.len()
        invariant
            k <= names.len(),
            sums_fit(records@),
            phase_names_of(records@, text::texts(names@)),
            names_of_times(phases@) =~= text::texts(names@).take(k as int),
            forall|j: int|
                0 <= j < phases.len() ==> times_of_phase(records@, #[trigger] phases[j]),
        decreases names.len() - k,
    {
        let ghost before = phases@;
        let p = phase_of(records, names[k].as_str());
        phases.push(p);
        assert(names_of_times(phases@) =~= names_of_times(before).push(text::texts(names@)[k as int]));
        k = k + 1;
    }
    assert(names_of_times(phases@) =~= text::texts(names@));
    let slowest_merges = slowest_places(records, 5);
    MergeMetricsTotals {
        window_records: records.len(),
        compensated,
        resumed,
        edges_regenerated: edges,
        cardinality_violation_count: violations,
        phases,
        slowest_merges,
    }
}

/// How many records a request gets at most: at least one, and no more than 500.
pub open spec fn records_asked(limit: usize) -> nat {
    if limit < 1 {
        1
    } else if limit > 500 {
        500
    } else {
        limit as nat
    }
}

/// The recent records for a session, of those that were read.
pub fn list_merge_metrics(
    auth: &AuthProvider,
    session_id: u64,
    read: Vec<Option<MergeMetricsRecord>>,
    limit: usize,
    since_ms: Option<u64>,
) -> (r: Result<Vec<MergeMetricsRecord>, AuthError>)
    ensures
        match r {
            Ok(records) => auth@.contains_key(session_id) && records@ == at_most_last(
                kept_since(read@, since_ms),
                records_asked(limit),
            ),
            Err(e) => !auth@.contains_key(session_id) && e == AuthError::Unauthorized,
        },
{
    match auth.require_session(session_id) {
        Ok(_) => {},
        Err(e) => {
            return Err(e);
        },
    }
    let most: usize = if limit < 1 {
        1
    } else if limit > 500 {
        500
    } else {
        limit
    };
    Ok(read_merge_metrics_filtered(read, most, since_ms))
}

/// What is measured of a merge that was committed. It began when `started_at_ms` says.
pub fn record_of_merge(merge_id: MergeId, o: &MergeOutcome, started_at_ms: u64) -> (r:
    MergeMetricsRecord)
    ensures
        r.merge_id_hex@ == hex::hex_of(merge_id.0@),
        r.started_at_ms == started_at_ms,
        r.phase_durations_ms@ == merge_branch::durations(
            merge_branch::event_names(o.progress@),
            merge_branch::event_times(o.progress@),
            o.progress@.len() as int,
        ),
        r.edges_regenerated == o.phase_c.edges_regenerated,
        r.dangling_edges_removed == o.phase_c.dangling_edges_removed,
        r.signature_reresolved == o.phase_c.signature_reresolved,
        text::texts(r.cardinality_violations@) == text::texts(o.phase_c.cardinality_violations@),
        r.resumed_from_phase is None,
        !r.compensated,
{
    MergeMetricsRecord {
        merge_id_hex: hex16(&merge_id.0),
        started_at_ms,
        phase_durations_ms: phase_durations_from_timeline(&o.progress),
        edges_regenerated: o.phase_c.edges_regenerated,
        dangling_edges_removed: o.phase_c.dangling_edges_removed,
        signature_reresolved: o.phase_c.signature_reresolved,
        cardinality_violations: copy_texts(&o.phase_c.cardinality_violations),
        resumed_from_phase: None,
        compensated: false,
    }
}

/// What is measured of a merge that was recovered at a time.
pub fn record_of_recovery(e: &MergeRecoveryEntry, now_ms: u64) -> (r: MergeMetricsRecord)
    ensures
        r.merge_id_hex@ == hex::hex_of(e.merge_id.0@),
        r.started_at_ms == now_ms,
        r.phase_durations_ms@ == Map::<Seq<char>, u64>::empty(),
        r.edges_regenerated == e.edges_regenerated,
        r.dangling_edges_removed == e.dangling_edges_removed,
        r.signature_reresolved == e.signature_reresolved,
        text::texts(r.cardinality_violations@) == text::texts(e.cardinality_violations@),
        syntax::text_view(r.resumed_from_phase) == syntax::text_view(e.resumed_from_phase),
        r.compensated == e.compensated,
{
    MergeMetricsRecord {
        merge_id_hex: hex16(&e.merge_id.0),
        started_at_ms: now_ms,
        phase_durations_ms: Table::new(),
        edges_regenerated: e.edges_regenerated,
        dangling_edges_removed: e.dangling_edges_removed,
        signature_reresolved: e.signature_reresolved,
        cardinality_violations: copy_texts(&e.cardinality_violations),
        resumed_from_phase: match &e.resumed_from_phase {
            Some(t) => Some(owned(t.as_str())),
            None => None,
        },
        compensated: e.compensated,
    }
}

} // verus!
