//! Streaming density clustering: the primary basin detection.
//!
//! The engine keeps its clusters in the order in which they were founded, so
//! that every tick is reproducible: of two clusters equally near an entry,
//! the older one takes it.

pub mod invariants;
pub mod laws;
pub mod model;
pub mod names;
pub mod symmetry;

use crate::ledger::store::{lemma_resolve, ref_views, within, Ledger};
use crate::types::{texts, EntryView, LedgerEntry, Tempo};
use crate::vector::{dot_product, similarity, SIM_ONE};
use invariants::{lemma_after_decay_wf, lemma_assign_wf};
use laws::{keeps_history, lemma_tick_keeps_history};
use model::{affinity, after_decay, after_tick, alive, assign, assign_all, cohesion_of,
    distance_sum, expired, find_cluster, ids, is_medoid, is_nearest, lemma_medoid_unique,
    lemma_nearest, lemma_nearest_unique, mature_ids, medoid_of, nearest, pair_count, pair_sum,
    ripe, row_sum, total_distance, ClusterView, EngineView, LN10_MICROS, WINDOW_MS};
use names::make_cluster_name;
use vstd::hash_map::StringHashMap;
use vstd::prelude::*;

verus! {

/// Join threshold of a new engine: three quarters, in similarity units.
pub const DEFAULT_THRESHOLD: i64 = 750_000_000_000_000_000;

/// The phrases of the packets, by rationale hash.
pub type PhraseBook = StringHashMap<String>;

/// Cluster, or basin, in vector space.
#[derive(Debug, Clone)]
pub struct Cluster {
    pub id: String,
    /// Rationale hashes, in the order in which they joined.
    pub members: Vec<String>,
    pub medoid_hash: String,
    pub medoid_phrase: String,
    /// The founding vector. Diagnostic only.
    pub centroid: Vec<i32>,
    /// One at founding, and one more for every entry that joined on a later
    /// tick.
    pub persistence: u32,
    /// Dominant tempo.
    pub tempo: Tempo,
    /// Timestamp of the last entry that joined.
    pub last_update: u64,
}

impl View for Cluster {
    type V = ClusterView;

    open spec fn view(&self) -> ClusterView {
        ClusterView {
            id: self.id@,
            members: texts(self.members@),
            medoid_hash: self.medoid_hash@,
            medoid_phrase: self.medoid_phrase@,
            centroid: self.centroid@,
            persistence: self.persistence as nat,
            tempo: self.tempo,
            last_update: self.last_update,
        }
    }
}

/// The clusters of a sequence as mathematical values.
pub open spec fn cluster_views(clusters: Seq<Cluster>) -> Seq<ClusterView> {
    clusters.map_values(|c: Cluster| c@)
}

/// A phrase book as a map from texts to texts.
pub open spec fn phrase_texts(phrases: Map<Seq<char>, String>) -> Map<Seq<char>, Seq<char>> {
    phrases.map_values(|s: String| s@)
}

/// Streaming clustering engine with two-tempo decay.
pub struct ClusterEngine {
    clusters: Vec<Cluster>,
    cluster_counter: u32,
    /// Least similarity, exclusive, at which an entry joins a cluster.
    cosine_threshold: i64,
    /// Least persistence of a mature cluster.
    min_persistence: u32,
    /// Least number of members of a mature cluster.
    min_members: usize,
}

impl View for ClusterEngine {
    type V = EngineView;

    closed spec fn view(&self) -> EngineView {
        EngineView {
            clusters: cluster_views(self.clusters@),
            cluster_counter: self.cluster_counter as nat,
            cosine_threshold: self.cosine_threshold as int,
            min_persistence: self.min_persistence as nat,
            min_members: self.min_members as nat,
        }
    }
}

/// Cosine similarity of two unit vectors of one dimension: their dot product.
pub fn cosine_similarity(a: &[i32], b: &[i32]) -> (sim: i64)
    requires
        a.len() == b.len(),
    ensures
        sim == similarity(a@, b@),
{
    dot_product(a, b)
}

/// Whether `text` occurs in `list`.
fn contains_text(list: &Vec<String>, text: &String) -> (found: bool)
    ensures
        found == texts(list@).contains(text@),
{
    let mut i: usize = 0;
    while i < list.len()
        invariant
            i <= list.len(),
            forall|j: int| 0 <= j < i ==> texts(list@)[j] != text@,
        decreases list.len() - i,
    {
        if list[i] == *text {
            assert(texts(list@)[i as int] == text@);
            return true;
        }
        i = i + 1;
    }
    false
}

/// Whether a cluster has decayed away at `now`: whether its weight
/// `exp(-dt / tau)`, `dt` seconds after its last update, is below one tenth.
pub fn is_expired(cluster: &Cluster, now: u64) -> (gone: bool)
    ensures
        gone == expired(cluster@, now),
{
    let tau = cluster.tempo.tau();
    if tau == 0 || now <= cluster.last_update {
        return false;
    }
    let age: u128 = (now - cluster.last_update) as u128;
    let limit: u128 = LN10_MICROS as u128;
    assert(tau * limit <= 30 * 2_302_585) by (nonlinear_arith)
        requires
            tau <= 30,
            limit == 2_302_585,
    ;
    age * 1000 > (tau as u128) * limit
}

/// Total distance from entry `c` to the others.
fn total_distance_of(entries: &Vec<&LedgerEntry>, c: usize) -> (total: i128)
    requires
        c < entries.len(),
        entries.len() <= u32::MAX,
    ensures
        total == total_distance(ref_views(entries@), c as int),
{
    let ghost views = ref_views(entries@);
    let candidate = entries[c];
    let mut total: i128 = 0;
    let mut j: usize = 0;
    while j < entries.len()
        invariant
            j <= entries.len(),
            entries.len() <= u32::MAX,
            c < entries.len(),
            views == ref_views(entries@),
            candidate == entries[c as int],
            total == distance_sum(views, c as int, j as nat),
            -(j * 0x1_0000_0000_0000_0000) <= total <= j * 0x1_0000_0000_0000_0000,
        decreases entries.len() - j,
    {
        let other = entries[j];
        if candidate.rationale_hash != other.rationale_hash {
            let sim = dot_product(candidate.vector.as_slice(), other.vector.as_slice());
            total = total + (SIM_ONE as i128 - sim as i128);
        }
        j = j + 1;
    }
    total
}

/// Sum of the similarities of entry `j` to the entries before it.
fn row_sum_of(entries: &Vec<&LedgerEntry>, j: usize) -> (total: i128)
    requires
        j < entries.len(),
        entries.len() <= u32::MAX,
    ensures
        total == row_sum(ref_views(entries@), j as int, j as nat),
        -(j * 0x8000_0000_0000_0000) <= total <= j * 0x7fff_ffff_ffff_ffff,
{
    let ghost views = ref_views(entries@);
    let mut total: i128 = 0;
    let mut i: usize = 0;
    while i < j
        invariant
            i <= j < entries.len(),
            entries.len() <= u32::MAX,
            views == ref_views(entries@),
            total == row_sum(views, j as int, i as nat),
            -(i * 0x8000_0000_0000_0000) <= total <= i * 0x7fff_ffff_ffff_ffff,
        decreases j - i,
    {
        let sim = dot_product(entries[i].vector.as_slice(), entries[j].vector.as_slice());
        total = total + sim as i128;
        i = i + 1;
    }
    total
}

/// One more thing makes as many more pairs as there were things.
proof fn lemma_pair_count_step(n: nat)
    ensures
        pair_count(n + 1) == pair_count(n) + n,
        pair_count(n) >= 0,
{
    assert((n + 1) * n == n * (n - 1) + 2 * n) by (nonlinear_arith);
    assert(n * (n - 1) >= 0) by (nonlinear_arith);
}

impl ClusterEngine {
    /// The engine's clusters are well formed and none has more members than
    /// a 32-bit number counts.
    pub open spec fn wf(&self) -> bool {
        self@.wf() && self@.fits()
    }

    /// An engine without clusters, with the default thresholds: a similarity
    /// above three quarters to join, and two ticks and two members to be
    /// mature.
    pub fn new() -> (engine: Self)
        ensures
            engine@ == (EngineView {
                clusters: Seq::empty(),
                cluster_counter: 0,
                cosine_threshold: DEFAULT_THRESHOLD as int,
                min_persistence: 2,
                min_members: 2,
            }),
            engine.wf(),
    {
        let engine = Self {
            clusters: Vec::new(),
            cluster_counter: 0,
            cosine_threshold: DEFAULT_THRESHOLD,
            min_persistence: 2,
            min_members: 2,
        };
        assert(engine@.clusters =~= Seq::<ClusterView>::empty());
        engine
    }

    /// Replaces the join threshold, given in similarity units.
    pub fn set_cosine_threshold(&mut self, threshold: i64)
        ensures
            final(self)@ == (EngineView { cosine_threshold: threshold as int, ..old(self)@ }),
    {
        self.cosine_threshold = threshold;
    }

    /// Whether `n` more entries can be assigned without the cluster counter
    /// or a cluster's number of members running out of range: what `tick`
    /// asks of a ledger of `n` entries.
    pub fn has_room_for(&self, n: usize) -> (ok: bool)
        ensures
            ok == self@.room_for(n as nat),
    {
        if n > u32::MAX as usize || self.cluster_counter > u32::MAX - n as u32 {
            return false;
        }
        let limit: u32 = u32::MAX - n as u32;
        let mut i: usize = 0;
        while i < self.clusters.len()
            invariant
                i <= self.clusters.len(),
                limit == u32::MAX - n,
                forall|j: int|
                    0 <= j < i ==> (#[trigger] self@.clusters[j]).members.len() <= limit,
            decreases self.clusters.len() - i,
        {
            if self.clusters[i].members.len() > limit as usize {
                assert(self@.clusters[i as int].members.len() + n > u32::MAX);
                return false;
            }
            i = i + 1;
        }
        true
    }

    /// Number of live clusters.
    pub fn cluster_count(&self) -> (n: usize)
        ensures
            n == self@.clusters.len(),
    {
        self.clusters.len()
    }

    /// The identifiers of the live clusters, oldest first.
    pub fn cluster_ids(&self) -> (all: Vec<String>)
        ensures
            texts(all@) == ids(self@.clusters),
    {
        let mut all: Vec<String> = Vec::new();
        let mut i: usize = 0;
        assert(texts(all@) =~= ids(self@.clusters.take(0)));
        while i < self.clusters.len()
            invariant
                i <= self.clusters.len(),
                texts(all@) == ids(self@.clusters.take(i as int)),
            decreases self.clusters.len() - i,
        {
            let ghost before = all@;
            let ghost upto = self@.clusters.take(i as int);
            all.push(self.clusters[i].id.clone());
            assert(texts(all@) =~= texts(before).push(self.clusters[i as int]@.id));
            assert(self@.clusters.take(i + 1) =~= upto.push(self.clusters[i as int]@));
            assert(ids(upto.push(self.clusters[i as int]@)) =~= ids(upto).push(
                self.clusters[i as int]@.id,
            ));
            i = i + 1;
        }
        assert(self@.clusters.take(i as int) =~= self@.clusters);
        all
    }

    /// Advances the engine by one tick at `current_time`: drops the clusters
    /// that have decayed, assigns every ledger entry of the trailing window,
    /// and returns the identifiers of the clusters that are mature. An entry
    /// that joins a cluster founded on an earlier tick raises its
    /// persistence by one; a cluster founded on this tick leaves it with a
    /// persistence of one. A cluster that is still there afterwards has lost
    /// neither members nor persistence; the identifier of one that is gone
    /// is never used again.
    pub fn tick(
        &mut self,
        ledger: &Ledger,
        current_time: u64,
        phrases: &PhraseBook,
    ) -> (mature: Vec<String>)
        requires
            old(self).wf(),
            old(self)@.room_for(ledger@.len()),
        ensures
            final(self)@ == after_tick(old(self)@, ledger@, current_time, phrase_texts(phrases@)),
            final(self).wf(),
            keeps_history(old(self)@, final(self)@),
            texts(mature@) == mature_ids(final(self)@),
    {
        proof {
            lemma_tick_keeps_history(
                old(self)@,
                ledger@,
                current_time,
                phrase_texts(phrases@),
            );
        }
        self.apply_decay(current_time);
        let settled = self.clusters.len();
        let recent = ledger.recent_window(WINDOW_MS, current_time);
        let ghost start = self@;
        let ghost entries = ref_views(recent@);
        let ghost book = phrase_texts(phrases@);
        proof {
            lemma_after_decay_wf(old(self)@, current_time, ledger@.len());
            ledger@.lemma_filter_len(within(WINDOW_MS, current_time));
            assert(entries.take(0) =~= Seq::<EntryView>::empty());
        }
        let mut i: usize = 0;
        while i < recent.len()
            invariant
                i <= recent.len(),
                entries == ref_views(recent@),
                book == phrase_texts(phrases@),
                settled == start.clusters.len(),
                self@ == assign_all(start, settled as nat, entries.take(i as int), book),
                self@.wf(),
                self@.room_for((recent.len() - i) as nat),
            decreases recent.len() - i,
        {
            proof {
                assert(entries.take(i + 1).drop_last() =~= entries.take(i as int));
                assert(entries.take(i + 1).last() == recent[i as int]@);
                lemma_assign_wf(
                    self@,
                    settled as nat,
                    recent[i as int]@,
                    book,
                    (recent.len() - i - 1) as nat,
                );
            }
            self.assign_or_create(recent[i], phrases, settled);
            i = i + 1;
        }
        assert(entries.take(i as int) =~= entries);
        self.find_mature_clusters()
    }

    /// Drops every cluster that has decayed away at `current_time`.
    fn apply_decay(&mut self, current_time: u64)
        ensures
            final(self)@ == after_decay(old(self)@, current_time),
    {
        let ghost before = self@.clusters;
        let ghost keep = alive(current_time);
        let ghost mut done: int = 0;
        let mut i: usize = 0;
        proof {
            assert(before.take(0) =~= Seq::<ClusterView>::empty());
            reveal(Seq::filter);
            assert(before.take(0).filter(keep) =~= Seq::<ClusterView>::empty());
            assert(self@.clusters =~= before.take(0).filter(keep) + before.skip(0));
        }
        while i < self.clusters.len()
            invariant
                0 <= done <= before.len(),
                keep == alive(current_time),
                before == old(self)@.clusters,
                i == before.take(done).filter(keep).len(),
                self@.clusters == before.take(done).filter(keep) + before.skip(done),
                self.cluster_counter == old(self).cluster_counter,
                self.cosine_threshold == old(self).cosine_threshold,
                self.min_persistence == old(self).min_persistence,
                self.min_members == old(self).min_members,
            decreases before.len() - done,
        {
            let ghost current = self@.clusters;
            let ghost kept = before.take(done).filter(keep);
            assert(current[i as int] == before[done]);
            proof {
                assert(before.take(done + 1) =~= before.take(done).push(before[done]));
                before.take(done).lemma_filter_push(before[done], keep);
            }
            if is_expired(&self.clusters[i], current_time) {
                self.clusters.remove(i);
                assert(self@.clusters =~= current.remove(i as int));
                assert(self@.clusters =~= kept + before.skip(done + 1));
            } else {
                i = i + 1;
                assert(self@.clusters =~= kept.push(before[done]) + before.skip(done + 1));
            }
            proof {
                done = done + 1;
            }
        }
        assert(before.take(done) =~= before);
        assert(self@.clusters =~= before.filter(keep));
    }

    /// Assigns an entry to the nearest cluster, or founds a cluster with it.
    /// The first `settled` clusters are those founded on earlier ticks: only
    /// they gain persistence when the entry joins.
    fn assign_or_create(&mut self, entry: &LedgerEntry, phrases: &PhraseBook, settled: usize)
        requires
            old(self)@.wf(),
            old(self)@.room_for(1),
        ensures
            final(self)@ == assign(old(self)@, settled as nat, entry@, phrase_texts(phrases@)),
    {
        let ghost e = self@;
        let ghost v = entry@.vector;
        let mut best_sim: i64 = self.cosine_threshold;
        let mut best: Option<usize> = None;
        let mut i: usize = 0;
        while i < self.clusters.len()
            invariant
                i <= self.clusters.len(),
                self@ == e,
                v == entry@.vector,
                match best {
                    Some(b) => {
                        &&& b < i
                        &&& best_sim == affinity(e.clusters[b as int], v)
                        &&& best_sim > e.cosine_threshold
                        &&& forall|j: int|
                            0 <= j < i ==> affinity(#[trigger] e.clusters[j], v) <= best_sim
                        &&& forall|j: int|
                            0 <= j < b ==> affinity(#[trigger] e.clusters[j], v) < best_sim
                    },
                    None => {
                        &&& best_sim == e.cosine_threshold
                        &&& forall|j: int|
                            0 <= j < i ==> affinity(#[trigger] e.clusters[j], v) <= best_sim
                    },
                },
            decreases self.clusters.len() - i,
        {
            let sim = dot_product(entry.vector.as_slice(), self.clusters[i].centroid.as_slice());
            assert(sim == affinity(e.clusters[i as int], v));
            if sim > best_sim {
                best_sim = sim;
                best = Some(i);
            }
            i = i + 1;
        }
        match best {
            Some(b) => {
                proof {
                    assert(is_nearest(e.clusters, v, e.cosine_threshold, b as int));
                    lemma_nearest_unique(e.clusters, v, e.cosine_threshold, b as int);
                }
                if !contains_text(&self.clusters[b].members, &entry.rationale_hash) {
                    let ghost before = self.clusters[b as int]@;
                    assert(model::cluster_wf(before));
                    let hash = entry.rationale_hash.clone();
                    let cluster = &mut self.clusters[b];
                    cluster.members.push(hash);
                    if b < settled {
                        cluster.persistence = cluster.persistence + 1;
                    }
                    cluster.last_update = entry.timestamp;
                    proof {
                        assert(self.clusters[b as int]@.members =~= before.members.push(
                            entry@.rationale_hash,
                        ));
                        assert(self@.clusters =~= e.clusters.update(
                            b as int,
                            model::joined(before, entry@, b < settled),
                        ));
                    }
                }
            },
            None => {
                proof {
                    lemma_nearest(e.clusters, v, e.cosine_threshold);
                    if nearest(e.clusters, v, e.cosine_threshold) is Some {
                        let k = nearest(e.clusters, v, e.cosine_threshold).unwrap();
                        assert(affinity(e.clusters[k], v) <= e.cosine_threshold);
                    }
                }
                let id = make_cluster_name(self.cluster_counter);
                self.cluster_counter = self.cluster_counter + 1;
                let phrase = match phrases.get(entry.rationale_hash.as_str()) {
                    Some(known) => known.clone(),
                    None => {
                        proof {
                            reveal_strlit("unknown");
                        }
                        let unknown = String::from_str("unknown");
                        assert(unknown@ =~= model::unknown_phrase());
                        unknown
                    },
                };
                let mut members: Vec<String> = Vec::new();
                members.push(entry.rationale_hash.clone());
                let cluster = Cluster {
                    id,
                    members,
                    medoid_hash: entry.rationale_hash.clone(),
                    medoid_phrase: phrase,
                    centroid: entry.vector.clone(),
                    persistence: 1,
                    tempo: entry.tempo,
                    last_update: entry.timestamp,
                };
                proof {
                    assert(cluster@.members =~= seq![entry@.rationale_hash]);
                    assert(cluster@.centroid =~= entry@.vector);
                    assert(cluster@ == model::founded(
                        entry@,
                        e.cluster_counter,
                        model::phrase_of(phrase_texts(phrases@), entry@.rationale_hash),
                    ));
                }
                self.clusters.push(cluster);
                assert(self@.clusters =~= e.clusters.push(cluster@));
            },
        }
    }

    /// The identifiers of the clusters that meet the maturity thresholds,
    /// oldest cluster first.
    pub fn find_mature_clusters(&self) -> (mature: Vec<String>)
        ensures
            texts(mature@) == mature_ids(self@),
    {
        let ghost pred = ripe(self@.min_persistence, self@.min_members);
        let mut mature: Vec<String> = Vec::new();
        let mut i: usize = 0;
        proof {
            reveal(Seq::filter);
            assert(self@.clusters.take(0) =~= Seq::<ClusterView>::empty());
            assert(texts(mature@) =~= ids(self@.clusters.take(0).filter(pred)));
        }
        while i < self.clusters.len()
            invariant
                i <= self.clusters.len(),
                pred == ripe(self@.min_persistence, self@.min_members),
                texts(mature@) == ids(self@.clusters.take(i as int).filter(pred)),
            decreases self.clusters.len() - i,
        {
            let cluster = &self.clusters[i];
            let ghost before = mature@;
            proof {
                assert(self@.clusters.take(i + 1) =~= self@.clusters.take(i as int).push(cluster@));
                self@.clusters.take(i as int).lemma_filter_push(cluster@, pred);
            }
            if cluster.persistence >= self.min_persistence && cluster.members.len()
                >= self.min_members {
                mature.push(cluster.id.clone());
                assert(texts(mature@) =~= texts(before).push(cluster@.id));
                assert(ids(self@.clusters.take(i as int).filter(pred).push(cluster@)) =~= ids(
                    self@.clusters.take(i as int).filter(pred),
                ).push(cluster@.id));
            }
            i = i + 1;
        }
        assert(self@.clusters.take(i as int) =~= self@.clusters);
        mature
    }

    /// Position of the cluster with the given identifier.
    fn position_of(&self, id: &str) -> (at: Option<usize>)
        ensures
            match at {
                Some(k) => find_cluster(self@.clusters, id@) == Some(k as int) && k
                    < self.clusters.len(),
                None => find_cluster(self@.clusters, id@) is None,
            },
    {
        let wanted = String::from_str(id);
        let mut i: usize = self.clusters.len();
        assert(self@.clusters.take(i as int) =~= self@.clusters);
        while i > 0
            invariant
                i <= self.clusters.len(),
                wanted@ == id@,
                find_cluster(self@.clusters, id@) == find_cluster(
                    self@.clusters.take(i as int),
                    id@,
                ),
            decreases i,
        {
            let ghost upto = self@.clusters.take(i as int);
            i = i - 1;
            assert(upto.last() == self.clusters[i as int]@);
            assert(upto.drop_last() =~= self@.clusters.take(i as int));
            if self.clusters[i].id == wanted {
                return Some(i);
            }
        }
        None
    }

    /// The cluster with the given identifier, or `None` if none has it.
    pub fn get_cluster(&self, id: &str) -> (found: Option<&Cluster>)
        ensures
            match found {
                Some(cluster) => match find_cluster(self@.clusters, id@) {
                    Some(k) => cluster@ == self@.clusters[k],
                    None => false,
                },
                None => find_cluster(self@.clusters, id@) is None,
            },
    {
        match self.position_of(id) {
            Some(k) => Some(&self.clusters[k]),
            None => None,
        }
    }

    /// The medoid of a cluster: among the members that the ledger knows, the
    /// one with the least total distance to the others, the earliest of
    /// them where several have the least. Where the ledger knows none of
    /// the members, the founding member. `None` only if the cluster is
    /// unknown.
    pub fn compute_medoid(&self, cluster_id: &str, ledger: &Ledger) -> (medoid: Option<String>)
        requires
            self.wf(),
            ledger.wf(),
        ensures
            match medoid {
                Some(hash) => medoid_of(self@, ledger@, cluster_id@) == Some(hash@),
                None => medoid_of(self@, ledger@, cluster_id@) is None,
            },
    {
        let k = match self.position_of(cluster_id) {
            Some(k) => k,
            None => {
                return None;
            },
        };
        let cluster = &self.clusters[k];
        let entries = ledger.get_batch(cluster.members.as_slice());
        let ghost views = ref_views(entries@);
        proof {
            lemma_resolve(ledger@, cluster@.members);
            assert(model::cluster_wf(self@.clusters[k as int]));
        }
        if cluster.members.len() == 0 {
            return None;
        }
        if entries.len() == 0 {
            assert(cluster@.members[0] == cluster.members[0]@);
            return Some(cluster.members[0].clone());
        }
        let mut best: usize = 0;
        let mut best_total: i128 = total_distance_of(&entries, 0);
        let mut i: usize = 1;
        while i < entries.len()
            invariant
                1 <= i <= entries.len(),
                entries.len() <= u32::MAX,
                views == ref_views(entries@),
                best < i,
                best_total == total_distance(views, best as int),
                forall|j: int| 0 <= j < i ==> best_total <= #[trigger] total_distance(views, j),
                forall|j: int| 0 <= j < best ==> best_total < #[trigger] total_distance(views, j),
            decreases entries.len() - i,
        {
            let total = total_distance_of(&entries, i);
            if total < best_total {
                best_total = total;
                best = i;
            }
            i = i + 1;
        }
        proof {
            assert(is_medoid(views, best as int));
            lemma_medoid_unique(views, best as int);
        }
        Some(entries[best].rationale_hash.clone())
    }

    /// The cohesion of a cluster: the mean similarity over all unordered
    /// pairs of the members that the ledger knows, rounded toward zero and
    /// not clamped. One for a cluster of a single member; zero for an
    /// unknown cluster and where the ledger knows fewer than two members.
    pub fn compute_cohesion(&self, cluster_id: &str, ledger: &Ledger) -> (value: i64)
        requires
            self.wf(),
            ledger.wf(),
        ensures
            value == cohesion_of(self@, ledger@, cluster_id@),
    {
        let k = match self.position_of(cluster_id) {
            Some(k) => k,
            None => {
                return 0;
            },
        };
        let cluster = &self.clusters[k];
        if cluster.members.len() < 2 {
            return SIM_ONE;
        }
        let entries = ledger.get_batch(cluster.members.as_slice());
        let ghost views = ref_views(entries@);
        proof {
            lemma_resolve(ledger@, cluster@.members);
            assert(model::cluster_wf(self@.clusters[k as int]));
        }
        let n = entries.len();
        if n < 2 {
            return 0;
        }
        let mut total: i128 = 0;
        let mut count: u64 = 0;
        let mut j: usize = 0;
        while j < n
            invariant
                j <= n,
                n == entries.len(),
                n <= u32::MAX,
                views == ref_views(entries@),
                total == pair_sum(views, j as nat),
                count == pair_count(j as nat),
                count <= j * 0xffff_ffff,
                -(count * 0x8000_0000_0000_0000) <= total <= count * 0x7fff_ffff_ffff_ffff,
            decreases n - j,
        {
            proof {
                lemma_pair_count_step(j as nat);
                assert(j * 0xffff_ffff + j <= (j + 1) * 0xffff_ffff) by (nonlinear_arith)
                    requires
                        j <= 0xffff_ffff,
                ;
            }
            let row = row_sum_of(&entries, j);
            total = total + row;
            count = count + j as u64;
            j = j + 1;
        }
        proof {
            lemma_pair_count_step((n - 1) as nat);
            lemma_pair_count_step((n - 2) as nat);
        }
        assert(count >= 1);
        if total >= 0 {
            let mean: u128 = total as u128 / count as u128;
            assert(mean <= 0x7fff_ffff_ffff_ffff) by (nonlinear_arith)
                requires
                    mean == total as u128 / count as u128,
                    0 <= total <= count * 0x7fff_ffff_ffff_ffff,
                    count >= 1,
            ;
            mean as i64
        } else {
            let mean: u128 = (-total) as u128 / count as u128;
            assert(mean <= 0x8000_0000_0000_0000) by (nonlinear_arith)
                requires
                    mean == (-total) as u128 / count as u128,
                    0 <= -total <= count * 0x8000_0000_0000_0000,
                    count >= 1,
            ;
            (-(mean as i128)) as i64
        }
    }
}

impl Default for ClusterEngine {
    fn default() -> (engine: Self)
        ensures
            engine@ == (EngineView {
                clusters: Seq::empty(),
                cluster_counter: 0,
                cosine_threshold: DEFAULT_THRESHOLD as int,
                min_persistence: 2,
                min_members: 2,
            }),
            engine.wf(),
    {
        Self::new()
    }
}

} // verus!
