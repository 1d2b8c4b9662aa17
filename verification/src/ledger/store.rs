//! In-memory, append-only ledger.

use crate::types::{texts, ConceptPacket, EntryView, LedgerEntry};
use vstd::hash_map::StringHashMap;
use vstd::prelude::*;

verus! {

/// The entries of a sequence as mathematical values.
pub open spec fn entry_views(entries: Seq<LedgerEntry>) -> Seq<EntryView> {
    entries.map_values(|e: LedgerEntry| e@)
}

/// The entries behind a sequence of references, as mathematical values.
pub open spec fn ref_views(entries: Seq<&LedgerEntry>) -> Seq<EntryView> {
    entries.map_values(|e: &LedgerEntry| e@)
}

/// The entry that a packet and its vector make.
pub open spec fn entry_of(packet: ConceptPacket, vector: Seq<i32>) -> EntryView {
    EntryView {
        vector,
        rationale_hash: packet.rationale_hash@,
        agent_id: packet.agent_id@,
        provenance: packet.provenance@,
        timestamp: packet.timestamp,
        tempo: packet.tempo,
        coords_2d: None,
    }
}

/// Position of the entry that a rationale hash stands for: the latest one
/// appended under it, if any.
pub open spec fn find_latest(entries: Seq<EntryView>, hash: Seq<char>) -> Option<int>
    decreases entries.len(),
{
    if entries.len() == 0 {
        None
    } else if entries.last().rationale_hash == hash {
        Some(entries.len() - 1)
    } else {
        find_latest(entries.drop_last(), hash)
    }
}

/// The entry that a rationale hash stands for, if any.
pub open spec fn lookup(entries: Seq<EntryView>, hash: Seq<char>) -> Option<EntryView> {
    match find_latest(entries, hash) {
        Some(i) => Some(entries[i]),
        None => None,
    }
}

/// The entries that the given hashes stand for, in the order of the hashes;
/// unknown hashes are passed over.
pub open spec fn resolve(entries: Seq<EntryView>, hashes: Seq<Seq<char>>) -> Seq<EntryView>
    decreases hashes.len(),
{
    if hashes.len() == 0 {
        Seq::empty()
    } else {
        let earlier = resolve(entries, hashes.drop_last());
        match lookup(entries, hashes.last()) {
            Some(entry) => earlier.push(entry),
            None => earlier,
        }
    }
}

/// Whether a timestamp lies within `window_ms` before `now`. A timestamp
/// later than `now` has a negative age and is always within.
pub open spec fn in_window(timestamp: u64, window_ms: u64, now: u64) -> bool {
    now - timestamp <= window_ms
}

/// The test that `recent_window` applies to each entry.
pub open spec fn within(window_ms: u64, now: u64) -> spec_fn(EntryView) -> bool {
    |e: EntryView| in_window(e.timestamp, window_ms, now)
}

/// The entries within `window_ms` before `now`, in insertion order.
pub open spec fn window(entries: Seq<EntryView>, window_ms: u64, now: u64) -> Seq<EntryView> {
    entries.filter(within(window_ms, now))
}

/// `find_latest` finds the last position that holds the hash, and finds
/// nothing only if no position holds it.
pub proof fn lemma_find_latest(entries: Seq<EntryView>, hash: Seq<char>)
    ensures
        match find_latest(entries, hash) {
            Some(i) => {
                &&& 0 <= i < entries.len()
                &&& entries[i].rationale_hash == hash
                &&& forall|j: int| i < j < entries.len() ==> entries[j].rationale_hash != hash
            },
            None => forall|j: int| 0 <= j < entries.len() ==> entries[j].rationale_hash != hash,
        },
    decreases entries.len(),
{
    if entries.len() > 0 && entries.last().rationale_hash != hash {
        let earlier = entries.drop_last();
        lemma_find_latest(earlier, hash);
        assert forall|j: int| 0 <= j < earlier.len() implies earlier[j] == entries[j] by {}
        match find_latest(earlier, hash) {
            Some(i) => {
                assert forall|j: int| i < j < entries.len() implies entries[j].rationale_hash
                    != hash by {
                    if j < earlier.len() {
                        assert(earlier[j] == entries[j]);
                    }
                }
            },
            None => {
                assert forall|j: int| 0 <= j < entries.len() implies entries[j].rationale_hash
                    != hash by {
                    if j < earlier.len() {
                        assert(earlier[j] == entries[j]);
                    }
                }
            },
        }
    }
}

/// Appending an entry makes it the one its hash stands for and leaves all
/// other hashes as they were.
pub proof fn lemma_find_latest_push(entries: Seq<EntryView>, entry: EntryView, hash: Seq<char>)
    ensures
        find_latest(entries.push(entry), hash) == if entry.rationale_hash == hash {
            Some(entries.len() as int)
        } else {
            find_latest(entries, hash)
        },
{
    assert(entries.push(entry).drop_last() =~= entries);
}

/// Every resolved entry carries one of the hashes, and there are no more
/// resolved entries than hashes.
pub proof fn lemma_resolve(entries: Seq<EntryView>, hashes: Seq<Seq<char>>)
    ensures
        resolve(entries, hashes).len() <= hashes.len(),
        forall|k: int|
            0 <= k < resolve(entries, hashes).len() ==> hashes.contains(
                (#[trigger] resolve(entries, hashes)[k]).rationale_hash,
            ),
        forall|k: int|
            0 <= k < resolve(entries, hashes).len() ==> lookup(
                entries,
                (#[trigger] resolve(entries, hashes)[k]).rationale_hash,
            ) == Some(resolve(entries, hashes)[k]),
        resolve(entries, hashes).len() == 0 <==> forall|i: int|
            0 <= i < hashes.len() ==> lookup(entries, #[trigger] hashes[i]) is None,
    decreases hashes.len(),
{
    if hashes.len() > 0 {
        let earlier = hashes.drop_last();
        lemma_resolve(entries, earlier);
        lemma_find_latest(entries, hashes.last());
        let found = resolve(entries, hashes);
        assert forall|k: int| 0 <= k < found.len() implies hashes.contains(
            (#[trigger] found[k]).rationale_hash,
        ) by {
            if k < resolve(entries, earlier).len() {
                let h = resolve(entries, earlier)[k].rationale_hash;
                assert(earlier.contains(h));
                let at = choose|at: int| 0 <= at < earlier.len() && earlier[at] == h;
                assert(hashes[at] == h);
            } else {
                assert(found[k].rationale_hash == hashes[hashes.len() - 1]);
            }
        }
        assert forall|k: int| 0 <= k < found.len() implies lookup(
            entries,
            (#[trigger] found[k]).rationale_hash,
        ) == Some(found[k]) by {
            if k < resolve(entries, earlier).len() {
                assert(found[k] == resolve(entries, earlier)[k]);
            }
        }
        if found.len() == 0 {
            assert forall|i: int| 0 <= i < hashes.len() implies lookup(
                entries,
                #[trigger] hashes[i],
            ) is None by {
                if i < earlier.len() {
                    assert(earlier[i] == hashes[i]);
                }
            }
        }
        if forall|i: int| 0 <= i < hashes.len() ==> lookup(entries, #[trigger] hashes[i]) is None {
            assert forall|i: int| 0 <= i < earlier.len() implies lookup(
                entries,
                #[trigger] earlier[i],
            ) is None by {
                assert(earlier[i] == hashes[i]);
            }
            assert(lookup(entries, hashes[hashes.len() - 1]) is None);
        }
    }
}

/// The window holds exactly the entries whose age is at most `window_ms`:
/// an entry of that very age is in it.
pub proof fn lemma_window_exact(entries: Seq<EntryView>, window_ms: u64, now: u64, e: EntryView)
    ensures
        window(entries, window_ms, now).contains(e) <==> entries.contains(e) && now - e.timestamp
            <= window_ms,
{
    let keep = within(window_ms, now);
    if window(entries, window_ms, now).contains(e) {
        entries.lemma_filter_contains_rev(keep, e);
        let k = choose|k: int|
            0 <= k < entries.filter(keep).len() && entries.filter(keep)[k] == e;
        entries.lemma_filter_pred(keep, k);
    }
    if entries.contains(e) && keep(e) {
        let i = choose|i: int| 0 <= i < entries.len() && entries[i] == e;
        entries.lemma_filter_contains(keep, i);
    }
}

/// Simple in-memory vector ledger. Entries are only ever added.
pub struct Ledger {
    entries: Vec<LedgerEntry>,
    index: StringHashMap<usize>,
}

impl View for Ledger {
    type V = Seq<EntryView>;

    closed spec fn view(&self) -> Seq<EntryView> {
        entry_views(self.entries@)
    }
}

impl Ledger {
    /// The index knows exactly the hashes that occur, each with the position
    /// of its latest entry.
    pub closed spec fn wf(&self) -> bool {
        forall|hash: Seq<char>|
            match #[trigger] find_latest(self@, hash) {
                Some(i) => self.index@.contains_key(hash) && self.index@[hash] == i,
                None => !self.index@.contains_key(hash),
            }
    }

    pub fn new() -> (ledger: Self)
        ensures
            ledger.wf(),
            ledger@ == Seq::<EntryView>::empty(),
    {
        let ledger = Self { entries: Vec::new(), index: StringHashMap::new() };
        assert(ledger@ =~= Seq::<EntryView>::empty());
        ledger
    }

    /// Appends a concept packet with its embedding. The vector is taken as it
    /// is: normalising it is the caller's part.
    pub fn append(&mut self, packet: ConceptPacket, vector: Vec<i32>)
        requires
            old(self).wf(),
        ensures
            final(self).wf(),
            final(self)@ == old(self)@.push(entry_of(packet, vector@)),
    {
        let idx = self.entries.len();
        let ghost before = self@;
        let ghost added = entry_of(packet, vector@);
        let entry = LedgerEntry {
            vector,
            rationale_hash: packet.rationale_hash.clone(),
            agent_id: packet.agent_id,
            provenance: packet.provenance,
            timestamp: packet.timestamp,
            tempo: packet.tempo,
            coords_2d: None,
        };
        assert(entry@ == added);
        self.index.insert(packet.rationale_hash, idx);
        self.entries.push(entry);
        proof {
            assert(self@ =~= before.push(added));
            assert forall|hash: Seq<char>|
                match #[trigger] find_latest(self@, hash) {
                    Some(i) => self.index@.contains_key(hash) && self.index@[hash] == i,
                    None => !self.index@.contains_key(hash),
                } by {
                lemma_find_latest_push(before, added, hash);
                assert(match find_latest(before, hash) {
                    Some(i) => old(self).index@.contains_key(hash) && old(self).index@[hash] == i,
                    None => !old(self).index@.contains_key(hash),
                });
            }
        }
    }

    /// The entry that a rationale hash stands for, or `None` for an unknown
    /// hash.
    pub fn get(&self, rationale_hash: &str) -> (found: Option<&LedgerEntry>)
        requires
            self.wf(),
        ensures
            match found {
                Some(entry) => lookup(self@, rationale_hash@) == Some(entry@),
                None => lookup(self@, rationale_hash@) is None,
            },
    {
        proof {
            lemma_find_latest(self@, rationale_hash@);
        }
        match self.index.get(rationale_hash) {
            Some(idx) => Some(&self.entries[*idx]),
            None => None,
        }
    }

    /// All entries, in insertion order.
    pub fn entries(&self) -> (all: &[LedgerEntry])
        ensures
            entry_views(all@) == self@,
    {
        self.entries.as_slice()
    }

    /// The entries that the given hashes stand for, unknown hashes skipped.
    pub fn get_batch(&self, hashes: &[String]) -> (found: Vec<&LedgerEntry>)
        requires
            self.wf(),
        ensures
            ref_views(found@) == resolve(self@, texts(hashes@)),
    {
        let mut found: Vec<&LedgerEntry> = Vec::new();
        let mut i: usize = 0;
        assert(texts(hashes@).take(0) =~= Seq::<Seq<char>>::empty());
        assert(ref_views(found@) =~= Seq::<EntryView>::empty());
        while i < hashes.len()
            invariant
                i <= hashes.len(),
                self.wf(),
                ref_views(found@) == resolve(self@, texts(hashes@).take(i as int)),
            decreases hashes.len() - i,
        {
            let ghost prefix = texts(hashes@).take(i as int);
            let ghost before = found@;
            assert(texts(hashes@).take(i + 1).drop_last() =~= prefix);
            assert(texts(hashes@).take(i + 1).last() == hashes[i as int]@);
            match self.get(hashes[i].as_str()) {
                Some(entry) => {
                    found.push(entry);
                    assert(ref_views(found@) =~= ref_views(before).push(entry@));
                },
                None => {},
            }
            i = i + 1;
        }
        assert(texts(hashes@).take(i as int) =~= texts(hashes@));
        found
    }

    /// The entries whose age at `now` is at most `window_ms`, in insertion
    /// order. An entry stamped later than `now` counts as having age zero.
    pub fn recent_window(&self, window_ms: u64, now: u64) -> (recent: Vec<&LedgerEntry>)
        ensures
            ref_views(recent@) == window(self@, window_ms, now),
    {
        let mut recent: Vec<&LedgerEntry> = Vec::new();
        let mut i: usize = 0;
        assert(self@.take(0) =~= Seq::<EntryView>::empty());
        assert(ref_views(recent@) =~= Seq::<EntryView>::empty());
        assert(Seq::<EntryView>::empty().filter(within(window_ms, now)) =~= Seq::<EntryView>::empty()) by {
            reveal(Seq::filter);
        }
        while i < self.entries.len()
            invariant
                i <= self.entries.len(),
                ref_views(recent@) == self@.take(i as int).filter(within(window_ms, now)),
            decreases self.entries.len() - i,
        {
            let entry = &self.entries[i];
            let ghost before = recent@;
            proof {
                assert(self@.take(i + 1) =~= self@.take(i as int).push(entry@));
                self@.take(i as int).lemma_filter_push(entry@, within(window_ms, now));
            }
            if now.saturating_sub(entry.timestamp) <= window_ms {
                recent.push(entry);
                assert(ref_views(recent@) =~= ref_views(before).push(entry@));
            }
            i = i + 1;
        }
        assert(self@.take(i as int) =~= self@);
        recent
    }

    /// Number of entries.
    pub fn len(&self) -> (n: usize)
        ensures
            n == self@.len(),
    {
        self.entries.len()
    }

    /// Whether the ledger holds no entry.
    pub fn is_empty(&self) -> (empty: bool)
        ensures
            empty == (self@.len() == 0),
    {
        self.entries.is_empty()
    }
}

impl Default for Ledger {
    fn default() -> (ledger: Self)
        ensures
            ledger.wf(),
            ledger@ == Seq::<EntryView>::empty(),
    {
        Self::new()
    }
}

} // verus!
