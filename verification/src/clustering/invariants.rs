//! The engine's invariant survives every step of a tick.

use super::model::{after_decay, after_tick, alive, ascending, assign, assign_all, below,
    cluster_wf, joined, lemma_nearest, nearest, ClusterView, EngineView, WINDOW_MS};
use super::names::{lemma_serial_of_name, serial_of};
use crate::ledger::store::{window, within};
use crate::types::EntryView;
use vstd::prelude::*;

verus! {

/// Every cluster of a well-formed engine has at least one member, no member
/// twice, its recorded medoid among the members, and a persistence of at
/// least one and of at most the number of its members.
pub proof fn lemma_cluster_invariants(e: EngineView, k: int)
    requires
        e.wf(),
        0 <= k < e.clusters.len(),
    ensures
        e.clusters[k].members.len() >= 1,
        e.clusters[k].members.no_duplicates(),
        e.clusters[k].members.contains(e.clusters[k].medoid_hash),
        1 <= e.clusters[k].persistence <= e.clusters[k].members.len(),
{
    assert(cluster_wf(e.clusters[k]));
}

/// Every cluster that a filter keeps was there before, and the clusters kept
/// stand in the order in which they stood.
pub proof fn lemma_filter_keeps_order(
    clusters: Seq<ClusterView>,
    keep: spec_fn(ClusterView) -> bool,
    bound: nat,
)
    requires
        forall|i: int| 0 <= i < clusters.len() ==> cluster_wf(#[trigger] clusters[i]),
        ascending(clusters),
        below(clusters, bound),
    ensures
        forall|k: int|
            0 <= k < clusters.filter(keep).len() ==> cluster_wf(#[trigger] clusters.filter(keep)[k]),
        forall|k: int|
            0 <= k < clusters.filter(keep).len() ==> exists|i: int|
                0 <= i < clusters.len() && clusters[i] == #[trigger] clusters.filter(keep)[k],
        ascending(clusters.filter(keep)),
        below(clusters.filter(keep), bound),
    decreases clusters.len(),
{
    reveal(Seq::filter);
    let kept = clusters.filter(keep);
    if clusters.len() > 0 {
        let earlier = clusters.drop_last();
        let kept_earlier = earlier.filter(keep);
        lemma_filter_keeps_order(earlier, keep, bound);
        assert forall|k: int| 0 <= k < kept_earlier.len() implies exists|i: int|
            0 <= i < earlier.len() && clusters[i] == #[trigger] kept_earlier[k] by {
            let i = choose|i: int| 0 <= i < earlier.len() && earlier[i] == kept_earlier[k];
            assert(clusters[i] == earlier[i]);
        }
        if keep(clusters.last()) {
            assert(kept == kept_earlier.push(clusters.last()));
            assert forall|k: int| 0 <= k < kept.len() implies exists|i: int|
                0 <= i < clusters.len() && clusters[i] == #[trigger] kept[k] by {
                if k < kept_earlier.len() {
                    assert(kept[k] == kept_earlier[k]);
                    let i = choose|i: int| 0 <= i < earlier.len() && clusters[i] == kept_earlier[k];
                    assert(0 <= i < clusters.len() && clusters[i] == kept[k]);
                } else {
                    assert(clusters[clusters.len() - 1] == kept[k]);
                }
            }
            assert forall|a: int, b: int| 0 <= a < b < kept.len() implies serial_of(
                #[trigger] kept[a].id,
            ) < serial_of(#[trigger] kept[b].id) by {
                if b < kept_earlier.len() {
                    assert(kept[a] == kept_earlier[a]);
                    assert(kept[b] == kept_earlier[b]);
                } else {
                    assert(kept[a] == kept_earlier[a]);
                    let i = choose|i: int| 0 <= i < earlier.len() && clusters[i] == kept_earlier[a];
                    assert(serial_of(clusters[i].id) < serial_of(clusters[clusters.len() - 1].id));
                }
            }
        } else {
            assert(kept == kept_earlier);
            assert forall|k: int| 0 <= k < kept.len() implies exists|i: int|
                0 <= i < clusters.len() && clusters[i] == #[trigger] kept[k] by {
                let i = choose|i: int| 0 <= i < earlier.len() && clusters[i] == kept_earlier[k];
                assert(0 <= i < clusters.len() && clusters[i] == kept[k]);
            }
        }
    }
}

/// The decay pass keeps the engine well formed and takes no room away.
pub proof fn lemma_after_decay_wf(e: EngineView, now: u64, n: nat)
    requires
        e.wf(),
    ensures
        after_decay(e, now).wf(),
        e.room_for(n) ==> after_decay(e, now).room_for(n),
{
    lemma_filter_keeps_order(e.clusters, alive(now), e.cluster_counter);
    let kept = e.clusters.filter(alive(now));
    if e.room_for(n) {
        assert forall|k: int| 0 <= k < kept.len() implies (#[trigger] kept[k]).members.len() + n
            <= u32::MAX by {
            let i = choose|i: int| 0 <= i < e.clusters.len() && e.clusters[i] == kept[k];
            assert(e.clusters[i].members.len() + n <= u32::MAX);
        }
    }
}

/// Assigning one entry keeps the engine well formed and uses up room for at
/// most one entry.
pub proof fn lemma_assign_wf(
    e: EngineView,
    settled: nat,
    entry: EntryView,
    phrases: Map<Seq<char>, Seq<char>>,
    n: nat,
)
    requires
        e.wf(),
    ensures
        assign(e, settled, entry, phrases).wf(),
        e.room_for(n + 1) ==> assign(e, settled, entry, phrases).room_for(n),
{
    let after = assign(e, settled, entry, phrases);
    lemma_nearest(e.clusters, entry.vector, e.cosine_threshold);
    match nearest(e.clusters, entry.vector, e.cosine_threshold) {
        Some(i) => {
            if !e.clusters[i].members.contains(entry.rationale_hash) {
                let c = e.clusters[i];
                let grown = joined(c, entry, i < settled);
                assert(grown.members.no_duplicates()) by {
                    assert forall|a: int, b: int|
                        0 <= a < grown.members.len() && 0 <= b < grown.members.len() && a
                            != b implies grown.members[a] != grown.members[b] by {
                        if a < c.members.len() && b < c.members.len() {
                            assert(c.members[a] != c.members[b]);
                        } else if a < c.members.len() {
                            assert(c.members.contains(c.members[a]));
                        } else {
                            assert(c.members.contains(c.members[b]));
                        }
                    }
                }
                assert(grown.members.contains(grown.medoid_hash)) by {
                    let at = choose|at: int|
                        0 <= at < c.members.len() && c.members[at] == c.medoid_hash;
                    assert(grown.members[at] == grown.medoid_hash);
                }
                assert(cluster_wf(grown));
                assert forall|k: int| 0 <= k < after.clusters.len() implies cluster_wf(
                    #[trigger] after.clusters[k],
                ) by {
                    if k != i {
                        assert(after.clusters[k] == e.clusters[k]);
                    }
                }
                assert forall|k: int| 0 <= k < after.clusters.len() implies serial_of(
                    #[trigger] after.clusters[k].id,
                ) == serial_of(e.clusters[k].id) by {}
                assert(ascending(after.clusters)) by {
                    assert forall|a: int, b: int| 0 <= a < b < after.clusters.len() implies serial_of(
                        #[trigger] after.clusters[a].id,
                    ) < serial_of(#[trigger] after.clusters[b].id) by {
                        assert(serial_of(e.clusters[a].id) < serial_of(e.clusters[b].id));
                    }
                }
                assert(below(after.clusters, after.cluster_counter)) by {
                    assert forall|k: int| 0 <= k < after.clusters.len() implies serial_of(
                        #[trigger] after.clusters[k].id,
                    ) < after.cluster_counter by {
                        assert(serial_of(e.clusters[k].id) < e.cluster_counter);
                    }
                }
                if e.room_for(n + 1) {
                    assert forall|k: int| 0 <= k < after.clusters.len() implies (
                    #[trigger] after.clusters[k]).members.len() + n <= u32::MAX by {
                        assert(e.clusters[k].members.len() + n + 1 <= u32::MAX);
                    }
                }
            } else {
                if e.room_for(n + 1) {
                    assert forall|k: int| 0 <= k < after.clusters.len() implies (
                    #[trigger] after.clusters[k]).members.len() + n <= u32::MAX by {
                        assert(e.clusters[k].members.len() + n + 1 <= u32::MAX);
                    }
                }
            }
        },
        None => {
            let fresh = after.clusters.last();
            lemma_serial_of_name(e.cluster_counter);
            assert(fresh.members.no_duplicates());
            assert(fresh.members[0] == fresh.medoid_hash);
            assert(cluster_wf(fresh));
            assert forall|k: int| 0 <= k < after.clusters.len() implies cluster_wf(
                #[trigger] after.clusters[k],
            ) by {
                if k < e.clusters.len() {
                    assert(after.clusters[k] == e.clusters[k]);
                }
            }
            assert(ascending(after.clusters)) by {
                assert forall|a: int, b: int| 0 <= a < b < after.clusters.len() implies serial_of(
                    #[trigger] after.clusters[a].id,
                ) < serial_of(#[trigger] after.clusters[b].id) by {
                    assert(after.clusters[a] == e.clusters[a]);
                    assert(serial_of(e.clusters[a].id) < e.cluster_counter);
                    if b < e.clusters.len() {
                        assert(after.clusters[b] == e.clusters[b]);
                    }
                }
            }
            assert(below(after.clusters, after.cluster_counter)) by {
                assert forall|k: int| 0 <= k < after.clusters.len() implies serial_of(
                    #[trigger] after.clusters[k].id,
                ) < after.cluster_counter by {
                    if k < e.clusters.len() {
                        assert(after.clusters[k] == e.clusters[k]);
                        assert(serial_of(e.clusters[k].id) < e.cluster_counter);
                    }
                }
            }
            if e.room_for(n + 1) {
                assert forall|k: int| 0 <= k < after.clusters.len() implies (
                #[trigger] after.clusters[k]).members.len() + n <= u32::MAX by {
                    if k < e.clusters.len() {
                        assert(after.clusters[k] == e.clusters[k]);
                        assert(e.clusters[k].members.len() + n + 1 <= u32::MAX);
                    }
                }
            }
        },
    }
}

/// Assigning any number of entries keeps the engine well formed.
pub proof fn lemma_assign_all_wf(
    e: EngineView,
    settled: nat,
    entries: Seq<EntryView>,
    phrases: Map<Seq<char>, Seq<char>>,
    n: nat,
)
    requires
        e.wf(),
    ensures
        assign_all(e, settled, entries, phrases).wf(),
        e.room_for(entries.len() + n) ==> assign_all(e, settled, entries, phrases).room_for(n),
    decreases entries.len(),
{
    if entries.len() > 0 {
        lemma_assign_all_wf(e, settled, entries.drop_last(), phrases, n + 1);
        lemma_assign_wf(
            assign_all(e, settled, entries.drop_last(), phrases),
            settled,
            entries.last(),
            phrases,
            n,
        );
    }
}

/// A tick keeps the engine well formed, and within machine range where
/// there was room for the ledger's entries.
pub proof fn lemma_after_tick_wf(
    e: EngineView,
    ledger: Seq<EntryView>,
    now: u64,
    phrases: Map<Seq<char>, Seq<char>>,
)
    requires
        e.wf(),
    ensures
        after_tick(e, ledger, now, phrases).wf(),
        e.room_for(ledger.len()) ==> after_tick(e, ledger, now, phrases).fits(),
{
    let aged = after_decay(e, now);
    let entries = window(ledger, WINDOW_MS, now);
    lemma_after_decay_wf(e, now, ledger.len());
    ledger.lemma_filter_len(within(WINDOW_MS, now));
    if e.room_for(ledger.len()) {
        assert(aged.room_for(entries.len()));
    }
    lemma_assign_all_wf(aged, aged.clusters.len(), entries, phrases, 0);
}

} // verus!
