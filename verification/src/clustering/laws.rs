//! What holds of the engine across ticks, and of its accessors.

use super::invariants::{lemma_after_decay_wf, lemma_after_tick_wf, lemma_assign_all_wf,
    lemma_assign_wf, lemma_filter_keeps_order};
use super::model::{after_decay, after_tick, alive, assign, assign_all, cluster_wf, cohesion,
    expired, find_cluster, is_medoid, joined, lemma_find_cluster, lemma_nearest, mature_ids,
    medoid, medoid_of, pair_count, pair_sum, ripe, row_sum, total_distance, ClusterView,
    EngineView, WINDOW_MS};
use super::names::{cluster_name, lemma_serial_of_name, serial_of};
use crate::ledger::store::{lemma_resolve, lookup, resolve, window};
use crate::types::{EntryView, Tempo};
use crate::vector::{is_unit, lemma_unit_similarity_in_range, similarity, SIM_ONE};
use vstd::prelude::*;

verus! {

/// A fast cluster is dropped once it has gone 4606 milliseconds without an
/// update, a slow one after 69078, an urgent one never: the first whole
/// milliseconds beyond `tau * ln 10`.
pub proof fn lemma_decay_thresholds(c: ClusterView, now: u64)
    ensures
        expired(c, now) <==> match c.tempo {
            Tempo::Fast => now - c.last_update >= 4606,
            Tempo::Slow => now - c.last_update >= 69078,
            Tempo::Urgent => false,
        },
{
}

/// What one tick is given.
pub struct TickInput {
    pub ledger: Seq<EntryView>,
    pub now: u64,
    pub phrases: Map<Seq<char>, Seq<char>>,
}

/// The engine after a series of ticks.
pub open spec fn after_ticks(e: EngineView, inputs: Seq<TickInput>) -> EngineView
    decreases inputs.len(),
{
    if inputs.len() == 0 {
        e
    } else {
        let input = inputs.last();
        after_tick(after_ticks(e, inputs.drop_last()), input.ledger, input.now, input.phrases)
    }
}

/// Whether the engine holds a cluster under the identifier.
pub open spec fn has_cluster(e: EngineView, id: Seq<char>) -> bool {
    find_cluster(e.clusters, id) is Some
}

/// The cluster that the engine holds under the identifier.
pub open spec fn cluster_by_id(e: EngineView, id: Seq<char>) -> ClusterView {
    e.clusters[find_cluster(e.clusters, id).unwrap()]
}

/// Whether the engine has ever given the identifier to a cluster.
pub open spec fn issued(e: EngineView, id: Seq<char>) -> bool {
    id == cluster_name(serial_of(id)) && serial_of(id) < e.cluster_counter
}

/// The identifier was given to a cluster that is no longer there.
pub open spec fn retired(e: EngineView, id: Seq<char>) -> bool {
    issued(e, id) && !has_cluster(e, id)
}

/// `later` is what `earlier` has become by entries joining it: it has at
/// least one member, the members it had come first and in their order, its
/// persistence is no less, and nothing else about it has changed.
pub open spec fn grown_from(later: ClusterView, earlier: ClusterView) -> bool {
    &&& later.id == earlier.id
    &&& later.persistence >= earlier.persistence
    &&& later.persistence >= 1
    &&& earlier.members.len() <= later.members.len()
    &&& later.members.take(earlier.members.len() as int) == earlier.members
    &&& later.medoid_hash == earlier.medoid_hash
    &&& later.medoid_phrase == earlier.medoid_phrase
    &&& later.centroid == earlier.centroid
    &&& later.tempo == earlier.tempo
}

/// What a step of the engine keeps of its past: every cluster that was there
/// is either still there, grown at most, or gone for good with its
/// identifier retired; and every identifier that was retired stays so.
pub open spec fn keeps_history(before: EngineView, after: EngineView) -> bool {
    &&& forall|id: Seq<char>| #[trigger]
        has_cluster(before, id) ==> if has_cluster(after, id) {
            grown_from(cluster_by_id(after, id), cluster_by_id(before, id))
        } else {
            retired(after, id)
        }
    &&& forall|id: Seq<char>| #[trigger] retired(before, id) ==> retired(after, id)
}

proof fn lemma_grown_from_chain(last: ClusterView, middle: ClusterView, first: ClusterView)
    requires
        grown_from(last, middle),
        grown_from(middle, first),
    ensures
        grown_from(last, first),
{
    let n = first.members.len() as int;
    let m = middle.members.len() as int;
    assert(last.members.take(n) =~= last.members.take(m).take(n));
}

/// In a well-formed engine each cluster is the one found under its
/// identifier.
pub proof fn lemma_found_under_own_id(e: EngineView, k: int)
    requires
        e.wf(),
        0 <= k < e.clusters.len(),
    ensures
        find_cluster(e.clusters, e.clusters[k].id) == Some(k),
        issued(e, e.clusters[k].id),
{
    let id = e.clusters[k].id;
    lemma_find_cluster(e.clusters, id);
    let found = find_cluster(e.clusters, id).unwrap();
    if found < k {
        assert(serial_of(e.clusters[found].id) < serial_of(e.clusters[k].id));
    } else if k < found {
        assert(serial_of(e.clusters[k].id) < serial_of(e.clusters[found].id));
    }
    assert(cluster_wf(e.clusters[k]));
}

/// Through the decay pass a cluster either goes or stays as it is, and no
/// identifier comes back.
pub proof fn lemma_decay_step(e: EngineView, now: u64, id: Seq<char>)
    requires
        e.wf(),
    ensures
        has_cluster(after_decay(e, now), id) ==> has_cluster(e, id) && cluster_by_id(
            after_decay(e, now),
            id,
        ) == cluster_by_id(e, id) && grown_from(cluster_by_id(e, id), cluster_by_id(e, id)),
        retired(e, id) ==> retired(after_decay(e, now), id),
        has_cluster(e, id) ==> issued(after_decay(e, now), id),
{
    let after = after_decay(e, now);
    lemma_filter_keeps_order(e.clusters, alive(now), e.cluster_counter);
    lemma_find_cluster(after.clusters, id);
    lemma_find_cluster(e.clusters, id);
    if has_cluster(after, id) {
        let k = find_cluster(after.clusters, id).unwrap();
        let i = choose|i: int| 0 <= i < e.clusters.len() && e.clusters[i] == after.clusters[k];
        lemma_found_under_own_id(e, i);
    }
    if has_cluster(e, id) {
        lemma_found_under_own_id(e, find_cluster(e.clusters, id).unwrap());
        let c = cluster_by_id(e, id);
        assert(cluster_wf(c));
        assert(c.members.take(c.members.len() as int) =~= c.members);
    }
}

/// Through the assignment of one entry every cluster stays, grown at most,
/// and no retired identifier comes back.
pub proof fn lemma_assign_step(
    e: EngineView,
    settled: nat,
    entry: EntryView,
    phrases: Map<Seq<char>, Seq<char>>,
    id: Seq<char>,
)
    requires
        e.wf(),
    ensures
        has_cluster(e, id) ==> has_cluster(assign(e, settled, entry, phrases), id) && grown_from(
            cluster_by_id(assign(e, settled, entry, phrases), id),
            cluster_by_id(e, id),
        ),
        retired(e, id) ==> retired(assign(e, settled, entry, phrases), id),
{
    let after = assign(e, settled, entry, phrases);
    lemma_assign_wf(e, settled, entry, phrases, 0);
    lemma_nearest(e.clusters, entry.vector, e.cosine_threshold);
    lemma_find_cluster(e.clusters, id);
    lemma_find_cluster(after.clusters, id);
    if has_cluster(e, id) {
        let k = find_cluster(e.clusters, id).unwrap();
        let c = e.clusters[k];
        assert(cluster_wf(c));
        assert(after.clusters[k].id == id);
        lemma_found_under_own_id(after, k);
        assert(after.clusters[k] == c || after.clusters[k] == joined(c, entry, k < settled));
        assert(c.members.take(c.members.len() as int) =~= c.members);
        assert(joined(c, entry, k < settled).members.take(c.members.len() as int)
            =~= c.members);
    }
    if retired(e, id) && has_cluster(after, id) {
        let k = find_cluster(after.clusters, id).unwrap();
        if k < e.clusters.len() {
            assert(e.clusters[k].id == id);
        } else {
            lemma_serial_of_name(e.cluster_counter);
        }
    }
}

/// Through the assignment of any number of entries every cluster stays,
/// grown at most, and no retired identifier comes back.
pub proof fn lemma_assign_all_step(
    e: EngineView,
    settled: nat,
    entries: Seq<EntryView>,
    phrases: Map<Seq<char>, Seq<char>>,
    id: Seq<char>,
)
    requires
        e.wf(),
    ensures
        has_cluster(e, id) ==> has_cluster(assign_all(e, settled, entries, phrases), id)
            && grown_from(
            cluster_by_id(assign_all(e, settled, entries, phrases), id),
            cluster_by_id(e, id),
        ),
        retired(e, id) ==> retired(assign_all(e, settled, entries, phrases), id),
    decreases entries.len(),
{
    if entries.len() > 0 {
        let before = assign_all(e, settled, entries.drop_last(), phrases);
        lemma_assign_all_step(e, settled, entries.drop_last(), phrases, id);
        lemma_assign_all_wf(e, settled, entries.drop_last(), phrases, 0);
        lemma_assign_step(before, settled, entries.last(), phrases, id);
        if has_cluster(e, id) {
            lemma_grown_from_chain(
                cluster_by_id(assign_all(e, settled, entries, phrases), id),
                cluster_by_id(before, id),
                cluster_by_id(e, id),
            );
        }
    } else if has_cluster(e, id) {
        lemma_find_cluster(e.clusters, id);
        let c = cluster_by_id(e, id);
        assert(cluster_wf(c));
        assert(c.members.take(c.members.len() as int) =~= c.members);
    }
}

/// Over one tick, a cluster that is still there has grown at most: its
/// persistence is no less and at least one, and the members it had come
/// first among its members. An identifier whose cluster is gone stays
/// without one.
pub proof fn lemma_tick_step(
    e: EngineView,
    ledger: Seq<EntryView>,
    now: u64,
    phrases: Map<Seq<char>, Seq<char>>,
    id: Seq<char>,
)
    requires
        e.wf(),
    ensures
        has_cluster(e, id) && has_cluster(after_tick(e, ledger, now, phrases), id) ==> grown_from(
            cluster_by_id(after_tick(e, ledger, now, phrases), id),
            cluster_by_id(e, id),
        ),
        has_cluster(e, id) && !has_cluster(after_tick(e, ledger, now, phrases), id) ==> retired(
            after_tick(e, ledger, now, phrases),
            id,
        ),
        retired(e, id) ==> retired(after_tick(e, ledger, now, phrases), id),
{
    let aged = after_decay(e, now);
    let entries = window(ledger, WINDOW_MS, now);
    let after = after_tick(e, ledger, now, phrases);
    lemma_after_decay_wf(e, now, 0);
    lemma_decay_step(e, now, id);
    lemma_assign_all_step(aged, aged.clusters.len(), entries, phrases, id);
    if has_cluster(e, id) && !has_cluster(aged, id) {
        assert(retired(aged, id));
    }
}

/// A tick keeps the engine's history: the statement of `lemma_tick_step`
/// for all identifiers at once.
pub proof fn lemma_tick_keeps_history(
    e: EngineView,
    ledger: Seq<EntryView>,
    now: u64,
    phrases: Map<Seq<char>, Seq<char>>,
)
    requires
        e.wf(),
    ensures
        keeps_history(e, after_tick(e, ledger, now, phrases)),
{
    let after = after_tick(e, ledger, now, phrases);
    assert forall|id: Seq<char>| #[trigger] has_cluster(e, id) implies if has_cluster(after, id) {
        grown_from(cluster_by_id(after, id), cluster_by_id(e, id))
    } else {
        retired(after, id)
    } by {
        lemma_tick_step(e, ledger, now, phrases, id);
    }
    assert forall|id: Seq<char>| #[trigger] retired(e, id) implies retired(after, id) by {
        lemma_tick_step(e, ledger, now, phrases, id);
    }
}

/// The engine stays well formed over any series of ticks.
pub proof fn lemma_after_ticks_wf(e: EngineView, inputs: Seq<TickInput>)
    requires
        e.wf(),
    ensures
        after_ticks(e, inputs).wf(),
    decreases inputs.len(),
{
    if inputs.len() > 0 {
        lemma_after_ticks_wf(e, inputs.drop_last());
        let input = inputs.last();
        lemma_after_tick_wf(
            after_ticks(e, inputs.drop_last()),
            input.ledger,
            input.now,
            input.phrases,
        );
    }
}

/// Once a cluster has been evicted, no later tick brings a cluster back
/// under its identifier.
pub proof fn lemma_evicted_never_returns(e: EngineView, inputs: Seq<TickInput>, id: Seq<char>)
    requires
        e.wf(),
        retired(e, id),
    ensures
        retired(after_ticks(e, inputs), id),
    decreases inputs.len(),
{
    if inputs.len() > 0 {
        lemma_evicted_never_returns(e, inputs.drop_last(), id);
        lemma_after_ticks_wf(e, inputs.drop_last());
        let input = inputs.last();
        lemma_tick_step(
            after_ticks(e, inputs.drop_last()),
            input.ledger,
            input.now,
            input.phrases,
            id,
        );
    }
}

/// A cluster that is there after a series of ticks was there all along and
/// has grown at most: its persistence has not decreased and is at least
/// one, and the members it had come first among its members.
pub proof fn lemma_persistence_never_decreases(e: EngineView, inputs: Seq<TickInput>, id: Seq<char>)
    requires
        e.wf(),
        has_cluster(e, id),
        has_cluster(after_ticks(e, inputs), id),
    ensures
        cluster_by_id(after_ticks(e, inputs), id).persistence >= cluster_by_id(e, id).persistence,
        grown_from(cluster_by_id(after_ticks(e, inputs), id), cluster_by_id(e, id)),
    decreases inputs.len(),
{
    if inputs.len() == 0 {
        lemma_find_cluster(e.clusters, id);
        let c = cluster_by_id(e, id);
        assert(cluster_wf(c));
        assert(c.members.take(c.members.len() as int) =~= c.members);
    } else {
        let earlier = after_ticks(e, inputs.drop_last());
        let input = inputs.last();
        lemma_after_ticks_wf(e, inputs.drop_last());
        lemma_tick_step(earlier, input.ledger, input.now, input.phrases, id);
        if !has_cluster(earlier, id) {
            lemma_still_issued(e, inputs.drop_last(), id);
            assert(retired(earlier, id));
        } else {
            lemma_persistence_never_decreases(e, inputs.drop_last(), id);
            lemma_grown_from_chain(
                cluster_by_id(after_ticks(e, inputs), id),
                cluster_by_id(earlier, id),
                cluster_by_id(e, id),
            );
        }
    }
}

/// An identifier that has been issued stays issued.
proof fn lemma_still_issued(e: EngineView, inputs: Seq<TickInput>, id: Seq<char>)
    requires
        e.wf(),
        has_cluster(e, id),
    ensures
        issued(after_ticks(e, inputs), id),
    decreases inputs.len(),
{
    lemma_find_cluster(e.clusters, id);
    lemma_found_under_own_id(e, find_cluster(e.clusters, id).unwrap());
    if inputs.len() > 0 {
        let earlier = after_ticks(e, inputs.drop_last());
        let input = inputs.last();
        lemma_still_issued(e, inputs.drop_last(), id);
        lemma_after_ticks_wf(e, inputs.drop_last());
        lemma_tick_step(earlier, input.ledger, input.now, input.phrases, id);
        if has_cluster(earlier, id) {
            let later = after_tick(earlier, input.ledger, input.now, input.phrases);
            if has_cluster(later, id) {
                lemma_after_tick_wf(earlier, input.ledger, input.now, input.phrases);
                lemma_find_cluster(later.clusters, id);
                lemma_found_under_own_id(later, find_cluster(later.clusters, id).unwrap());
            }
        }
    }
}

/// Entry `i` has the least total distance among the first `n` entries and
/// is the earliest of them to have it.
spec fn least_among(entries: Seq<EntryView>, n: nat, i: int) -> bool {
    &&& 0 <= i < n
    &&& forall|j: int|
        0 <= j < n ==> total_distance(entries, i) <= #[trigger] total_distance(entries, j)
    &&& forall|j: int|
        0 <= j < i ==> total_distance(entries, i) < #[trigger] total_distance(entries, j)
}

proof fn lemma_least_distance_exists(entries: Seq<EntryView>, n: nat)
    requires
        1 <= n <= entries.len(),
    ensures
        exists|i: int| least_among(entries, n, i),
    decreases n,
{
    if n == 1 {
        assert(least_among(entries, 1, 0));
    } else {
        let m = (n - 1) as nat;
        lemma_least_distance_exists(entries, m);
        let i = choose|i: int| least_among(entries, m, i);
        let last = n - 1;
        if total_distance(entries, last) < total_distance(entries, i) {
            assert(least_among(entries, n, last));
        } else {
            assert(least_among(entries, n, i));
        }
    }
}

/// Where there are entries, one of them is the medoid.
pub proof fn lemma_medoid_exists(entries: Seq<EntryView>)
    requires
        entries.len() > 0,
    ensures
        exists|i: int| is_medoid(entries, i),
{
    lemma_least_distance_exists(entries, entries.len());
    let i = choose|i: int| least_among(entries, entries.len(), i);
    assert(is_medoid(entries, i));
}

/// Whether the ledger knows any of the hashes.
pub open spec fn knows_any(ledger: Seq<EntryView>, hashes: Seq<Seq<char>>) -> bool {
    exists|i: int| 0 <= i < hashes.len() && lookup(ledger, #[trigger] hashes[i]) is Some
}

/// A known cluster of a well-formed engine always has a medoid, an unknown
/// one never. The medoid is one of the cluster's members: one that the
/// ledger knows if it knows any, and the founding member if it knows none.
pub proof fn lemma_medoid_is_member(e: EngineView, ledger: Seq<EntryView>, id: Seq<char>)
    requires
        e.wf(),
    ensures
        match medoid_of(e, ledger, id) {
            Some(hash) => {
                &&& has_cluster(e, id)
                &&& cluster_by_id(e, id).members.contains(hash)
                &&& knows_any(ledger, cluster_by_id(e, id).members) ==> lookup(ledger, hash) is Some
                &&& !knows_any(ledger, cluster_by_id(e, id).members) ==> hash == cluster_by_id(
                    e,
                    id,
                ).members[0]
            },
            None => !has_cluster(e, id),
        },
{
    lemma_find_cluster(e.clusters, id);
    if has_cluster(e, id) {
        let members = cluster_by_id(e, id).members;
        let entries = resolve(ledger, members);
        assert(cluster_wf(cluster_by_id(e, id)));
        lemma_resolve(ledger, members);
        if entries.len() > 0 {
            lemma_medoid_exists(entries);
            let i = choose|i: int| is_medoid(entries, i);
            assert(is_medoid(entries, i));
            assert(members.contains(entries[i].rationale_hash));
        } else {
            assert(members[0] == members[0]);
            assert(members.contains(members[0]));
        }
    }
}

/// Every cluster from position `settled` on has a persistence of one.
pub open spec fn fresh_from(e: EngineView, settled: nat) -> bool {
    forall|k: int| settled <= k < e.clusters.len() ==> (#[trigger] e.clusters[k]).persistence == 1
}

/// While entries are assigned, the clusters that are not settled keep a
/// persistence of one, whoever joins them.
pub proof fn lemma_fresh_stay_fresh(
    e: EngineView,
    settled: nat,
    entries: Seq<EntryView>,
    phrases: Map<Seq<char>, Seq<char>>,
)
    requires
        fresh_from(e, settled),
    ensures
        fresh_from(assign_all(e, settled, entries, phrases), settled),
    decreases entries.len(),
{
    if entries.len() > 0 {
        let before = assign_all(e, settled, entries.drop_last(), phrases);
        let after = assign_all(e, settled, entries, phrases);
        lemma_fresh_stay_fresh(e, settled, entries.drop_last(), phrases);
        lemma_nearest(before.clusters, entries.last().vector, before.cosine_threshold);
        assert forall|k: int| settled <= k < after.clusters.len() implies (
        #[trigger] after.clusters[k]).persistence == 1 by {
            if k < before.clusters.len() {
                assert(after.clusters[k].persistence == before.clusters[k].persistence);
            }
        }
    }
}

/// After a tick, every cluster that the tick founded has a persistence of
/// one, however many entries joined it: they stand behind the clusters that
/// survived the decay pass.
pub proof fn lemma_founded_on_this_tick(
    e: EngineView,
    ledger: Seq<EntryView>,
    now: u64,
    phrases: Map<Seq<char>, Seq<char>>,
)
    ensures
        fresh_from(after_tick(e, ledger, now, phrases), after_decay(e, now).clusters.len()),
{
    let aged = after_decay(e, now);
    lemma_fresh_stay_fresh(aged, aged.clusters.len(), window(ledger, WINDOW_MS, now), phrases);
}

/// A tick on an engine without clusters, whose threshold asks for a
/// persistence of two or more, reports nothing, whatever the ledger holds.
pub proof fn lemma_first_tick_reports_nothing(
    e: EngineView,
    ledger: Seq<EntryView>,
    now: u64,
    phrases: Map<Seq<char>, Seq<char>>,
)
    requires
        e.clusters.len() == 0,
        e.min_persistence >= 2,
    ensures
        mature_ids(after_tick(e, ledger, now, phrases)) == Seq::<Seq<char>>::empty(),
{
    reveal(Seq::filter);
    let aged = after_decay(e, now);
    assert(aged.clusters =~= e.clusters);
    let after = after_tick(e, ledger, now, phrases);
    lemma_founded_on_this_tick(e, ledger, now, phrases);
    lemma_thresholds_stay(aged, 0, window(ledger, WINDOW_MS, now), phrases);
    let pred = ripe(after.min_persistence, after.min_members);
    assert forall|k: int| 0 <= k < after.clusters.len() implies !pred(
        #[trigger] after.clusters[k],
    ) by {
        assert(after.clusters[k].persistence == 1);
    }
    assert(after.clusters.all(|c: ClusterView| !pred(c)));
    after.clusters.lemma_all_neg_filter_empty(pred);
    assert(mature_ids(after) =~= Seq::<Seq<char>>::empty());
}

/// While entries are assigned, the clusters that were there keep their
/// places and their identifiers.
proof fn lemma_places_stay(
    e: EngineView,
    settled: nat,
    entries: Seq<EntryView>,
    phrases: Map<Seq<char>, Seq<char>>,
    k: int,
)
    requires
        0 <= k < e.clusters.len(),
    ensures
        k < assign_all(e, settled, entries, phrases).clusters.len(),
        assign_all(e, settled, entries, phrases).clusters[k].id == e.clusters[k].id,
    decreases entries.len(),
{
    if entries.len() > 0 {
        let before = assign_all(e, settled, entries.drop_last(), phrases);
        lemma_places_stay(e, settled, entries.drop_last(), phrases, k);
        lemma_nearest(before.clusters, entries.last().vector, before.cosine_threshold);
    }
}

/// Where the threshold asks for a persistence of two or more, every cluster
/// that a tick reports was there before the tick: no cluster is reported on
/// the tick that founded it.
pub proof fn lemma_reported_were_founded_earlier(
    e: EngineView,
    ledger: Seq<EntryView>,
    now: u64,
    phrases: Map<Seq<char>, Seq<char>>,
    m: int,
)
    requires
        e.min_persistence >= 2,
        0 <= m < mature_ids(after_tick(e, ledger, now, phrases)).len(),
    ensures
        has_cluster(e, mature_ids(after_tick(e, ledger, now, phrases))[m]),
{
    let aged = after_decay(e, now);
    let settled = aged.clusters.len();
    let entries = window(ledger, WINDOW_MS, now);
    let after = after_tick(e, ledger, now, phrases);
    let pred = ripe(after.min_persistence, after.min_members);
    let reported = after.clusters.filter(pred);
    let c = reported[m];
    lemma_thresholds_stay(aged, settled, entries, phrases);
    lemma_founded_on_this_tick(e, ledger, now, phrases);
    after.clusters.lemma_filter_pred(pred, m);
    assert(reported.contains(c));
    after.clusters.lemma_filter_contains_rev(pred, c);
    let k = choose|k: int| 0 <= k < after.clusters.len() && after.clusters[k] == c;
    assert(after.clusters[k].persistence >= 2);
    assert(k < settled);
    lemma_places_stay(aged, settled, entries, phrases, k);
    assert(aged.clusters.contains(aged.clusters[k]));
    e.clusters.lemma_filter_contains_rev(alive(now), aged.clusters[k]);
    let j = choose|j: int| 0 <= j < e.clusters.len() && e.clusters[j] == aged.clusters[k];
    lemma_find_cluster(e.clusters, c.id);
    assert(e.clusters[j].id == c.id);
}

/// Whether the similarity of every pair of different entries lies between
/// `low` and `high`.
pub open spec fn pairs_within(entries: Seq<EntryView>, low: int, high: int) -> bool {
    forall|i: int, j: int|
        0 <= i < j < entries.len() ==> low <= #[trigger] similarity(
            entries[i].vector,
            entries[j].vector,
        ) <= high
}

proof fn lemma_row_sum_within(entries: Seq<EntryView>, j: int, m: nat, low: int, high: int)
    requires
        pairs_within(entries, low, high),
        m <= j < entries.len(),
    ensures
        m * low <= row_sum(entries, j, m) <= m * high,
    decreases m,
{
    if m > 0 {
        lemma_row_sum_within(entries, j, (m - 1) as nat, low, high);
        let s = similarity(entries[m - 1].vector, entries[j].vector);
        assert(low <= s <= high);
        assert(m * low == (m - 1) * low + low) by (nonlinear_arith);
        assert(m * high == (m - 1) * high + high) by (nonlinear_arith);
    } else {
        assert(0 * low == 0 && 0 * high == 0) by (nonlinear_arith);
    }
}

proof fn lemma_pair_sum_within(entries: Seq<EntryView>, n: nat, low: int, high: int)
    requires
        pairs_within(entries, low, high),
        n <= entries.len(),
    ensures
        pair_count(n) >= 0,
        pair_count(n) * low <= pair_sum(entries, n) <= pair_count(n) * high,
        n >= 2 ==> pair_count(n) >= 1,
    decreases n,
{
    if n > 0 {
        let m = (n - 1) as nat;
        lemma_pair_sum_within(entries, m, low, high);
        lemma_row_sum_within(entries, n - 1, m, low, high);
        assert(n * (n - 1) == m * (m - 1) + 2 * m) by (nonlinear_arith)
            requires
                m == n - 1,
        ;
        assert(m * (m - 1) >= 0) by (nonlinear_arith);
        assert(pair_count(n) == pair_count(m) + m);
        assert(pair_count(n) * low == pair_count(m) * low + m * low) by (nonlinear_arith)
            requires
                pair_count(n) == pair_count(m) + m,
        ;
        assert(pair_count(n) * high == pair_count(m) * high + m * high) by (nonlinear_arith)
            requires
                pair_count(n) == pair_count(m) + m,
        ;
    } else {
        assert(pair_count(0) == 0) by (nonlinear_arith);
        assert(0 * low == 0 && 0 * high == 0) by (nonlinear_arith);
    }
}

/// The cohesion of two or more entries lies within the range of their
/// pairwise similarities.
pub proof fn lemma_cohesion_within_pair_range(entries: Seq<EntryView>, low: int, high: int)
    requires
        entries.len() >= 2,
        pairs_within(entries, low, high),
    ensures
        low <= cohesion(entries) <= high,
{
    let n = entries.len();
    lemma_pair_sum_within(entries, n, low, high);
    let total = pair_sum(entries, n);
    let count = pair_count(n);
    if total >= 0 {
        assert(low <= total / count <= high) by (nonlinear_arith)
            requires
                count >= 1,
                total >= 0,
                count * low <= total <= count * high,
        ;
    } else {
        assert(low <= -((-total) / count) <= high) by (nonlinear_arith)
            requires
                count >= 1,
                total < 0,
                count * low <= total <= count * high,
        ;
    }
}

/// The cohesion of two or more unit vectors lies between minus one and one.
pub proof fn lemma_cohesion_of_unit_vectors(entries: Seq<EntryView>)
    requires
        entries.len() >= 2,
        forall|i: int| 0 <= i < entries.len() ==> is_unit(#[trigger] entries[i].vector),
    ensures
        -SIM_ONE <= cohesion(entries) <= SIM_ONE,
{
    assert forall|i: int, j: int| 0 <= i < j < entries.len() implies -SIM_ONE
        <= #[trigger] similarity(entries[i].vector, entries[j].vector) <= SIM_ONE by {
        lemma_unit_similarity_in_range(entries[i].vector, entries[j].vector);
    }
    lemma_cohesion_within_pair_range(entries, -SIM_ONE as int, SIM_ONE as int);
}

/// Assigning entries changes no threshold.
pub proof fn lemma_thresholds_stay(
    e: EngineView,
    settled: nat,
    entries: Seq<EntryView>,
    phrases: Map<Seq<char>, Seq<char>>,
)
    ensures
        assign_all(e, settled, entries, phrases).cosine_threshold == e.cosine_threshold,
        assign_all(e, settled, entries, phrases).min_persistence == e.min_persistence,
        assign_all(e, settled, entries, phrases).min_members == e.min_members,
    decreases entries.len(),
{
    if entries.len() > 0 {
        lemma_thresholds_stay(e, settled, entries.drop_last(), phrases);
    }
}

} // verus!
