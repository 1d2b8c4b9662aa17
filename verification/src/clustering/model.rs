//! What the clustering engine does, stated over mathematical values.
//!
//! A tick ages the clusters, drops those that have decayed, and then takes
//! the ledger entries of the trailing window one by one: each joins the
//! nearest cluster that is similar enough, or founds a cluster of its own.

use super::names::{cluster_name, serial_of};
use crate::ledger::store::{resolve, window};
use crate::types::{EntryView, Tempo};
use crate::vector::{similarity, SIM_ONE};
use vstd::prelude::*;

verus! {

/// Length of the trailing window that a tick looks at, in milliseconds.
pub const WINDOW_MS: u64 = 60_000;

/// The natural logarithm of ten, in millionths, rounded down.
pub const LN10_MICROS: u64 = 2_302_585;

/// A cluster as mathematical values.
pub struct ClusterView {
    pub id: Seq<char>,
    pub members: Seq<Seq<char>>,
    pub medoid_hash: Seq<char>,
    pub medoid_phrase: Seq<char>,
    pub centroid: Seq<i32>,
    pub persistence: nat,
    pub tempo: Tempo,
    pub last_update: u64,
}

/// The state of an engine as mathematical values. The clusters stand in the
/// order in which they were founded.
pub struct EngineView {
    pub clusters: Seq<ClusterView>,
    pub cluster_counter: nat,
    pub cosine_threshold: int,
    pub min_persistence: nat,
    pub min_members: nat,
}

/// What holds of every cluster that an engine keeps: it has members, no
/// member twice, a persistence of at least one and of at most one for each
/// member, a recorded medoid that is one of the members, and an identifier
/// made from a serial number.
pub open spec fn cluster_wf(c: ClusterView) -> bool {
    &&& c.members.len() >= 1
    &&& c.members.no_duplicates()
    &&& c.members.contains(c.medoid_hash)
    &&& 1 <= c.persistence <= c.members.len()
    &&& c.id == cluster_name(serial_of(c.id))
}

/// The serial numbers of the clusters rise along the sequence.
pub open spec fn ascending(clusters: Seq<ClusterView>) -> bool {
    forall|i: int, j: int|
        0 <= i < j < clusters.len() ==> serial_of(#[trigger] clusters[i].id) < serial_of(
            #[trigger] clusters[j].id,
        )
}

/// All serial numbers of the clusters are below `bound`.
pub open spec fn below(clusters: Seq<ClusterView>, bound: nat) -> bool {
    forall|i: int| 0 <= i < clusters.len() ==> serial_of(#[trigger] clusters[i].id) < bound
}

impl EngineView {
    /// The clusters are well formed, stand in the order of their serial
    /// numbers, and no serial number has reached the counter.
    pub open spec fn wf(self) -> bool {
        &&& forall|i: int| 0 <= i < self.clusters.len() ==> cluster_wf(#[trigger] self.clusters[i])
        &&& ascending(self.clusters)
        &&& below(self.clusters, self.cluster_counter)
    }

    /// Neither the counter nor the number of members of any cluster leaves
    /// the range of a 32-bit number when `n` more entries are assigned.
    pub open spec fn room_for(self, n: nat) -> bool {
        &&& self.cluster_counter + n <= u32::MAX
        &&& forall|i: int|
            0 <= i < self.clusters.len() ==> (#[trigger] self.clusters[i]).members.len() + n
                <= u32::MAX
    }

    /// The counter and the number of members of every cluster are within
    /// the range of a 32-bit number.
    pub open spec fn fits(self) -> bool {
        self.room_for(0)
    }
}

/// Whether a cluster has decayed away at `now`. Its weight after `dt`
/// seconds without an update is `exp(-dt / tau)`, and it is dropped once that
/// is less than one tenth, which is when `dt` exceeds `tau * ln 10`. With
/// `ln 10` cut to six decimals this decides every whole millisecond as the
/// exact value would, for time constants of two and of thirty seconds. A
/// time constant of zero means no decay, and a cluster updated later than
/// `now` has not aged.
pub open spec fn expired(c: ClusterView, now: u64) -> bool {
    &&& c.tempo.time_constant() > 0
    &&& (now - c.last_update) * 1000 > c.tempo.time_constant() * LN10_MICROS
}

/// The test that the decay pass applies to each cluster.
pub open spec fn alive(now: u64) -> spec_fn(ClusterView) -> bool {
    |c: ClusterView| !expired(c, now)
}

/// The engine after the decay pass.
pub open spec fn after_decay(e: EngineView, now: u64) -> EngineView {
    EngineView { clusters: e.clusters.filter(alive(now)), ..e }
}

/// Similarity of a vector to a cluster, taken against the cluster's centroid.
pub open spec fn affinity(c: ClusterView, v: Seq<i32>) -> int {
    similarity(v, c.centroid)
}

/// Cluster `i` is the one that a vector joins: its affinity is above the
/// threshold, no cluster has a greater one, and no earlier cluster an equal
/// one.
pub open spec fn is_nearest(clusters: Seq<ClusterView>, v: Seq<i32>, threshold: int, i: int) -> bool {
    &&& 0 <= i < clusters.len()
    &&& affinity(clusters[i], v) > threshold
    &&& forall|j: int|
        0 <= j < clusters.len() ==> affinity(#[trigger] clusters[j], v) <= affinity(clusters[i], v)
    &&& forall|j: int| 0 <= j < i ==> affinity(#[trigger] clusters[j], v) < affinity(clusters[i], v)
}

/// The cluster that a vector joins, if any is similar enough.
pub open spec fn nearest(clusters: Seq<ClusterView>, v: Seq<i32>, threshold: int) -> Option<int> {
    if exists|i: int| is_nearest(clusters, v, threshold, i) {
        Some(choose|i: int| is_nearest(clusters, v, threshold, i))
    } else {
        None
    }
}

/// A cluster after an entry has joined it. Its persistence rises by one if
/// the cluster is `settled`, that is, was founded on an earlier tick; a
/// cluster founded on this tick keeps its persistence of one until the
/// next. The centroid stays the founding vector.
pub open spec fn joined(c: ClusterView, entry: EntryView, settled: bool) -> ClusterView {
    ClusterView {
        members: c.members.push(entry.rationale_hash),
        persistence: if settled {
            c.persistence + 1
        } else {
            c.persistence
        },
        last_update: entry.timestamp,
        ..c
    }
}

/// The cluster that an entry founds.
pub open spec fn founded(entry: EntryView, serial: nat, phrase: Seq<char>) -> ClusterView {
    ClusterView {
        id: cluster_name(serial),
        members: seq![entry.rationale_hash],
        medoid_hash: entry.rationale_hash,
        medoid_phrase: phrase,
        centroid: entry.vector,
        persistence: 1,
        tempo: entry.tempo,
        last_update: entry.timestamp,
    }
}

/// The phrase recorded for a cluster whose founder has none on file.
pub open spec fn unknown_phrase() -> Seq<char> {
    seq!['u', 'n', 'k', 'n', 'o', 'w', 'n']
}

/// The phrase on file for a rationale hash.
pub open spec fn phrase_of(phrases: Map<Seq<char>, Seq<char>>, hash: Seq<char>) -> Seq<char> {
    if phrases.contains_key(hash) {
        phrases[hash]
    } else {
        unknown_phrase()
    }
}

/// The engine after one entry has been assigned: the entry joins its nearest
/// cluster unless it is a member already, or founds a new cluster if none is
/// near enough. The first `settled` clusters are those founded on earlier
/// ticks; the clusters after them were founded on this one.
pub open spec fn assign(
    e: EngineView,
    settled: nat,
    entry: EntryView,
    phrases: Map<Seq<char>, Seq<char>>,
) -> EngineView {
    match nearest(e.clusters, entry.vector, e.cosine_threshold) {
        Some(i) => if e.clusters[i].members.contains(entry.rationale_hash) {
            e
        } else {
            EngineView {
                clusters: e.clusters.update(i, joined(e.clusters[i], entry, i < settled)),
                ..e
            }
        },
        None => EngineView {
            clusters: e.clusters.push(
                founded(entry, e.cluster_counter, phrase_of(phrases, entry.rationale_hash)),
            ),
            cluster_counter: e.cluster_counter + 1,
            ..e
        },
    }
}

/// The engine after the entries have been assigned in order, the first
/// `settled` clusters being those founded on earlier ticks.
pub open spec fn assign_all(
    e: EngineView,
    settled: nat,
    entries: Seq<EntryView>,
    phrases: Map<Seq<char>, Seq<char>>,
) -> EngineView
    decreases entries.len(),
{
    if entries.len() == 0 {
        e
    } else {
        assign(
            assign_all(e, settled, entries.drop_last(), phrases),
            settled,
            entries.last(),
            phrases,
        )
    }
}

/// The engine after a tick at `now` over the given ledger. The clusters
/// that survive the decay pass are the settled ones: only they gain
/// persistence from the entries that join them on this tick.
pub open spec fn after_tick(
    e: EngineView,
    ledger: Seq<EntryView>,
    now: u64,
    phrases: Map<Seq<char>, Seq<char>>,
) -> EngineView {
    let aged = after_decay(e, now);
    assign_all(aged, aged.clusters.len(), window(ledger, WINDOW_MS, now), phrases)
}

/// Whether a cluster is mature: it has survived enough ticks and gathered
/// enough members.
pub open spec fn is_mature(c: ClusterView, min_persistence: nat, min_members: nat) -> bool {
    c.persistence >= min_persistence && c.members.len() >= min_members
}

/// The test that the maturity pass applies to each cluster.
pub open spec fn ripe(min_persistence: nat, min_members: nat) -> spec_fn(ClusterView) -> bool {
    |c: ClusterView| is_mature(c, min_persistence, min_members)
}

/// The identifiers of the clusters, in order.
pub open spec fn ids(clusters: Seq<ClusterView>) -> Seq<Seq<char>> {
    clusters.map_values(|c: ClusterView| c.id)
}

/// The identifiers of the mature clusters, in the order of the clusters.
pub open spec fn mature_ids(e: EngineView) -> Seq<Seq<char>> {
    ids(e.clusters.filter(ripe(e.min_persistence, e.min_members)))
}

/// Position of the cluster with the given identifier, if there is one.
pub open spec fn find_cluster(clusters: Seq<ClusterView>, id: Seq<char>) -> Option<int>
    decreases clusters.len(),
{
    if clusters.len() == 0 {
        None
    } else if clusters.last().id == id {
        Some(clusters.len() - 1)
    } else {
        find_cluster(clusters.drop_last(), id)
    }
}

/// Distance between two entries: one minus their similarity, and nothing
/// between an entry and itself.
pub open spec fn distance(a: EntryView, b: EntryView) -> int {
    if a.rationale_hash == b.rationale_hash {
        0
    } else {
        SIM_ONE - similarity(a.vector, b.vector)
    }
}

/// Sum of the distances from entry `i` to the first `n` entries.
pub open spec fn distance_sum(entries: Seq<EntryView>, i: int, n: nat) -> int
    decreases n,
{
    if n == 0 {
        0
    } else {
        distance_sum(entries, i, (n - 1) as nat) + distance(entries[i], entries[n - 1])
    }
}

/// Sum of the distances from entry `i` to all entries.
pub open spec fn total_distance(entries: Seq<EntryView>, i: int) -> int {
    distance_sum(entries, i, entries.len())
}

/// Entry `i` is the medoid: no entry has a smaller total distance, and no
/// earlier entry an equal one.
pub open spec fn is_medoid(entries: Seq<EntryView>, i: int) -> bool {
    &&& 0 <= i < entries.len()
    &&& forall|j: int|
        0 <= j < entries.len() ==> total_distance(entries, i) <= #[trigger] total_distance(
            entries,
            j,
        )
    &&& forall|j: int|
        0 <= j < i ==> total_distance(entries, i) < #[trigger] total_distance(entries, j)
}

/// The rationale hash of the medoid of some entries; none if there are no
/// entries.
pub open spec fn medoid(entries: Seq<EntryView>) -> Option<Seq<char>> {
    if entries.len() == 0 {
        None
    } else {
        Some(entries[choose|i: int| is_medoid(entries, i)].rationale_hash)
    }
}

/// The medoid of some members: the one, among those that the ledger knows,
/// with the least total distance to the others. Where the ledger knows none
/// of them it is the founding member, the first of the list; only an empty
/// list has none.
pub open spec fn medoid_of_members(ledger: Seq<EntryView>, members: Seq<Seq<char>>) -> Option<
    Seq<char>,
> {
    if members.len() == 0 {
        None
    } else if resolve(ledger, members).len() == 0 {
        Some(members[0])
    } else {
        medoid(resolve(ledger, members))
    }
}

/// The medoid of a cluster; none for an unknown cluster.
pub open spec fn medoid_of(e: EngineView, ledger: Seq<EntryView>, id: Seq<char>) -> Option<Seq<char>> {
    match find_cluster(e.clusters, id) {
        Some(k) => medoid_of_members(ledger, e.clusters[k].members),
        None => None,
    }
}

/// Sum of the similarities of entry `j` to the first `m` entries.
pub open spec fn row_sum(entries: Seq<EntryView>, j: int, m: nat) -> int
    decreases m,
{
    if m == 0 {
        0
    } else {
        row_sum(entries, j, (m - 1) as nat) + similarity(entries[m - 1].vector, entries[j].vector)
    }
}

/// Sum of the similarities of all unordered pairs among the first `n`
/// entries.
pub open spec fn pair_sum(entries: Seq<EntryView>, n: nat) -> int
    decreases n,
{
    if n == 0 {
        0
    } else {
        pair_sum(entries, (n - 1) as nat) + row_sum(entries, n - 1, (n - 1) as nat)
    }
}

/// Number of unordered pairs among `n` things.
pub open spec fn pair_count(n: nat) -> int {
    n * (n - 1) / 2
}

/// Quotient rounded toward zero.
pub open spec fn quotient_toward_zero(total: int, count: int) -> int {
    if total >= 0 {
        total / count
    } else {
        -((-total) / count)
    }
}

/// Mean similarity over all unordered pairs of entries, rounded toward zero;
/// zero when there is no pair.
pub open spec fn cohesion(entries: Seq<EntryView>) -> int {
    if entries.len() < 2 {
        0
    } else {
        quotient_toward_zero(pair_sum(entries, entries.len()), pair_count(entries.len()))
    }
}

/// The cohesion of a cluster. A cluster of one member is perfectly cohesive;
/// an unknown cluster, or one of which the ledger knows fewer than two
/// members, has cohesion zero. The mean is not clamped: it is negative where
/// the members are, on average, opposed.
pub open spec fn cohesion_of(e: EngineView, ledger: Seq<EntryView>, id: Seq<char>) -> int {
    match find_cluster(e.clusters, id) {
        Some(k) => if e.clusters[k].members.len() < 2 {
            SIM_ONE as int
        } else {
            cohesion(resolve(ledger, e.clusters[k].members))
        },
        None => 0,
    }
}

/// `find_cluster` finds a position that holds the identifier, and finds
/// nothing only if no position holds it.
pub proof fn lemma_find_cluster(clusters: Seq<ClusterView>, id: Seq<char>)
    ensures
        match find_cluster(clusters, id) {
            Some(k) => 0 <= k < clusters.len() && clusters[k].id == id,
            None => forall|j: int| 0 <= j < clusters.len() ==> (#[trigger] clusters[j]).id != id,
        },
    decreases clusters.len(),
{
    if clusters.len() > 0 && clusters.last().id != id {
        let earlier = clusters.drop_last();
        lemma_find_cluster(earlier, id);
        if find_cluster(earlier, id) is None {
            assert forall|j: int| 0 <= j < clusters.len() implies (#[trigger] clusters[j]).id
                != id by {
                if j < earlier.len() {
                    assert(earlier[j] == clusters[j]);
                }
            }
        }
    }
}

/// The entry that meets `is_medoid` is the one whose hash `medoid` gives.
pub proof fn lemma_medoid_unique(entries: Seq<EntryView>, i: int)
    requires
        is_medoid(entries, i),
    ensures
        medoid(entries) == Some(entries[i].rationale_hash),
{
    let k = choose|k: int| is_medoid(entries, k);
    assert(is_medoid(entries, k));
    if k < i {
        assert(total_distance(entries, i) < total_distance(entries, k));
        assert(total_distance(entries, k) <= total_distance(entries, i));
    } else if i < k {
        assert(total_distance(entries, k) < total_distance(entries, i));
        assert(total_distance(entries, i) <= total_distance(entries, k));
    }
}

/// The cluster that meets `is_nearest` is the one that `nearest` gives.
pub proof fn lemma_nearest_unique(clusters: Seq<ClusterView>, v: Seq<i32>, threshold: int, i: int)
    requires
        is_nearest(clusters, v, threshold, i),
    ensures
        nearest(clusters, v, threshold) == Some(i),
{
    let k = choose|k: int| is_nearest(clusters, v, threshold, k);
    assert(is_nearest(clusters, v, threshold, k));
    if k < i {
        assert(affinity(clusters[k], v) < affinity(clusters[i], v));
        assert(affinity(clusters[i], v) <= affinity(clusters[k], v));
    } else if i < k {
        assert(affinity(clusters[i], v) < affinity(clusters[k], v));
        assert(affinity(clusters[k], v) <= affinity(clusters[i], v));
    }
}

/// `nearest` gives a cluster exactly when one meets `is_nearest`.
pub proof fn lemma_nearest(clusters: Seq<ClusterView>, v: Seq<i32>, threshold: int)
    ensures
        match nearest(clusters, v, threshold) {
            Some(i) => is_nearest(clusters, v, threshold, i),
            None => forall|j: int|
                0 <= j < clusters.len() ==> affinity(#[trigger] clusters[j], v) <= threshold,
        },
{
    if nearest(clusters, v, threshold) is None {
        lemma_some_cluster_is_nearest(clusters, v, threshold, clusters.len());
        assert(clusters.take(clusters.len() as int) =~= clusters);
    } else {
        let i = choose|i: int| is_nearest(clusters, v, threshold, i);
        assert(is_nearest(clusters, v, threshold, i));
    }
}

/// Among the first `n` clusters, either none is above the threshold or one
/// of them is the nearest of those `n`.
proof fn lemma_some_cluster_is_nearest(clusters: Seq<ClusterView>, v: Seq<i32>, threshold: int, n: nat)
    requires
        n <= clusters.len(),
    ensures
        (forall|j: int| 0 <= j < n ==> affinity(#[trigger] clusters[j], v) <= threshold) || exists|
            i: int,
        |
            is_nearest(clusters.take(n as int), v, threshold, i),
    decreases n,
{
    if n > 0 {
        let m = (n - 1) as nat;
        lemma_some_cluster_is_nearest(clusters, v, threshold, m);
        let shorter = clusters.take(m as int);
        let longer = clusters.take(n as int);
        assert forall|j: int| 0 <= j < m implies shorter[j] == longer[j] by {}
        if exists|i: int| is_nearest(shorter, v, threshold, i) {
            let i = choose|i: int| is_nearest(shorter, v, threshold, i);
            if affinity(clusters[m as int], v) > affinity(shorter[i], v) {
                assert forall|j: int| 0 <= j < longer.len() implies affinity(
                    #[trigger] longer[j],
                    v,
                ) <= affinity(longer[m as int], v) by {
                    if j < m {
                        assert(affinity(shorter[j], v) <= affinity(shorter[i], v));
                    }
                }
                assert forall|j: int| 0 <= j < m implies affinity(#[trigger] longer[j], v)
                    < affinity(longer[m as int], v) by {
                    assert(affinity(shorter[j], v) <= affinity(shorter[i], v));
                }
                assert(is_nearest(longer, v, threshold, m as int));
            } else {
                assert forall|j: int| 0 <= j < longer.len() implies affinity(
                    #[trigger] longer[j],
                    v,
                ) <= affinity(longer[i], v) by {
                    if j < m {
                        assert(affinity(shorter[j], v) <= affinity(shorter[i], v));
                    }
                }
                assert forall|j: int| 0 <= j < i implies affinity(#[trigger] longer[j], v)
                    < affinity(longer[i], v) by {
                    assert(affinity(shorter[j], v) < affinity(shorter[i], v));
                }
                assert(is_nearest(longer, v, threshold, i));
            }
        } else if affinity(clusters[m as int], v) > threshold {
            assert forall|j: int| 0 <= j < longer.len() implies affinity(#[trigger] longer[j], v)
                <= affinity(longer[m as int], v) by {
                if j < m {
                    assert(affinity(clusters[j], v) <= threshold);
                }
            }
            assert forall|j: int| 0 <= j < m implies affinity(#[trigger] longer[j], v) < affinity(
                longer[m as int],
                v,
            ) by {
                assert(affinity(clusters[j], v) <= threshold);
            }
            assert(is_nearest(longer, v, threshold, m as int));
        }
    }
}

} // verus!
