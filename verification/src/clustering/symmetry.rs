//! Cohesion does not depend on the order in which a cluster lists its
//! members.

use super::laws::{cluster_by_id, has_cluster};
use super::model::{cohesion, cohesion_of, pair_sum, row_sum, EngineView};
use crate::ledger::store::{lookup, resolve};
use crate::types::EntryView;
use crate::vector::{lemma_similarity_symmetric, similarity, SIM_ONE};
use vstd::prelude::*;
use vstd::seq_lib::{commutative_foldl, lemma_fold_left_permutation};

verus! {

/// The step that adds the weight of one entry to a running sum.
pub open spec fn add_weight(weight: spec_fn(EntryView) -> int) -> spec_fn(int, EntryView) -> int {
    |sum: int, e: EntryView| sum + weight(e)
}

/// Sum of the weights of some entries.
pub open spec fn total(entries: Seq<EntryView>, weight: spec_fn(EntryView) -> int) -> int {
    entries.fold_left(0, add_weight(weight))
}

/// Weight of the entry that a hash stands for; nothing for an unknown hash.
pub open spec fn weight_of_hash(
    ledger: Seq<EntryView>,
    weight: spec_fn(EntryView) -> int,
    hash: Seq<char>,
) -> int {
    match lookup(ledger, hash) {
        Some(e) => weight(e),
        None => 0,
    }
}

/// The step that adds the weight of one hash to a running sum.
pub open spec fn add_hash_weight(ledger: Seq<EntryView>, weight: spec_fn(EntryView) -> int) -> spec_fn(
    int,
    Seq<char>,
) -> int {
    |sum: int, hash: Seq<char>| sum + weight_of_hash(ledger, weight, hash)
}

/// Similarity to a fixed entry, as a weight.
pub open spec fn similarity_to(x: EntryView) -> spec_fn(EntryView) -> int {
    |e: EntryView| similarity(e.vector, x.vector)
}

/// Sum of the similarities of `x` to all of the entries, as a weight of `x`.
pub open spec fn row_total(entries: Seq<EntryView>) -> spec_fn(EntryView) -> int {
    |x: EntryView| total(entries, similarity_to(x))
}

/// Similarity of an entry to itself, as a weight.
pub open spec fn self_similarity() -> spec_fn(EntryView) -> int {
    |x: EntryView| similarity(x.vector, x.vector)
}

/// The weight that counts entries.
pub open spec fn unit_weight() -> spec_fn(EntryView) -> int {
    |x: EntryView| 1
}

proof fn lemma_total_push(entries: Seq<EntryView>, x: EntryView, weight: spec_fn(EntryView) -> int)
    ensures
        total(entries.push(x), weight) == total(entries, weight) + weight(x),
{
    assert(entries.push(x).drop_last() =~= entries);
}

proof fn lemma_total_of_resolved(
    ledger: Seq<EntryView>,
    hashes: Seq<Seq<char>>,
    weight: spec_fn(EntryView) -> int,
)
    ensures
        total(resolve(ledger, hashes), weight) == hashes.fold_left(
            0,
            add_hash_weight(ledger, weight),
        ),
    decreases hashes.len(),
{
    if hashes.len() > 0 {
        lemma_total_of_resolved(ledger, hashes.drop_last(), weight);
        match lookup(ledger, hashes.last()) {
            Some(e) => {
                lemma_total_push(resolve(ledger, hashes.drop_last()), e, weight);
            },
            None => {},
        }
    }
}

/// A sum over the entries of some members does not depend on the order of
/// the members.
proof fn lemma_total_ignores_order(
    ledger: Seq<EntryView>,
    first: Seq<Seq<char>>,
    second: Seq<Seq<char>>,
    weight: spec_fn(EntryView) -> int,
)
    requires
        first.to_multiset() == second.to_multiset(),
    ensures
        total(resolve(ledger, first), weight) == total(resolve(ledger, second), weight),
{
    let step = add_hash_weight(ledger, weight);
    lemma_total_of_resolved(ledger, first, weight);
    lemma_total_of_resolved(ledger, second, weight);
    assert(commutative_foldl(step)) by {
        assert forall|x: Seq<char>, y: Seq<char>, v: int| #[trigger]
            step(step(v, x), y) == step(step(v, y), x) by {}
    }
    lemma_fold_left_permutation(first, second, step, 0int);
}

proof fn lemma_total_pointwise(
    entries: Seq<EntryView>,
    f: spec_fn(EntryView) -> int,
    g: spec_fn(EntryView) -> int,
)
    requires
        forall|i: int| 0 <= i < entries.len() ==> f(#[trigger] entries[i]) == g(entries[i]),
    ensures
        total(entries, f) == total(entries, g),
    decreases entries.len(),
{
    if entries.len() > 0 {
        let earlier = entries.drop_last();
        assert forall|i: int| 0 <= i < earlier.len() implies f(#[trigger] earlier[i]) == g(
            earlier[i],
        ) by {
            assert(earlier[i] == entries[i]);
        }
        lemma_total_pointwise(earlier, f, g);
        assert(f(entries[entries.len() - 1]) == g(entries[entries.len() - 1]));
    }
}

proof fn lemma_total_counts(entries: Seq<EntryView>)
    ensures
        total(entries, unit_weight()) == entries.len(),
    decreases entries.len(),
{
    if entries.len() > 0 {
        lemma_total_counts(entries.drop_last());
    }
}

/// The sum of similarities of entry `j` to the first `m` entries is a sum
/// over those entries.
proof fn lemma_row_sum_is_total(entries: Seq<EntryView>, j: int, m: nat)
    requires
        m <= entries.len(),
    ensures
        row_sum(entries, j, m) == total(entries.take(m as int), similarity_to(entries[j])),
    decreases m,
{
    if m > 0 {
        lemma_row_sum_is_total(entries, j, (m - 1) as nat);
        assert(entries.take(m as int).drop_last() =~= entries.take(m - 1));
        assert(entries.take(m as int).last() == entries[m - 1]);
    }
}

proof fn lemma_pair_sum_of_prefix(entries: Seq<EntryView>, n: nat, k: nat)
    requires
        k <= n <= entries.len(),
    ensures
        pair_sum(entries.take(n as int), k) == pair_sum(entries, k),
    decreases k,
{
    if k > 0 {
        lemma_pair_sum_of_prefix(entries, n, (k - 1) as nat);
        lemma_row_sum_of_prefix(entries, n, k - 1, (k - 1) as nat);
    }
}

proof fn lemma_row_sum_of_prefix(entries: Seq<EntryView>, n: nat, j: int, m: nat)
    requires
        m <= n <= entries.len(),
        0 <= j < n,
    ensures
        row_sum(entries.take(n as int), j, m) == row_sum(entries, j, m),
    decreases m,
{
    if m > 0 {
        lemma_row_sum_of_prefix(entries, n, j, (m - 1) as nat);
    }
}

/// Summing, over all entries, the similarity of each to a fixed one and to
/// all of the earlier ones.
proof fn lemma_total_of_rows_grows(entries: Seq<EntryView>, upto: Seq<EntryView>, x: EntryView)
    ensures
        total(upto, row_total(entries.push(x))) == total(upto, row_total(entries)) + total(
            upto,
            similarity_to(x),
        ),
    decreases upto.len(),
{
    if upto.len() > 0 {
        lemma_total_of_rows_grows(entries, upto.drop_last(), x);
        let y = upto.last();
        lemma_total_push(entries, x, similarity_to(y));
        lemma_similarity_symmetric(x.vector, y.vector);
    }
}

/// The sum over all ordered pairs is twice the sum over all unordered pairs
/// of different entries, and the sum over each entry paired with itself.
proof fn lemma_all_pairs(entries: Seq<EntryView>)
    ensures
        total(entries, row_total(entries)) == 2 * pair_sum(entries, entries.len()) + total(
            entries,
            self_similarity(),
        ),
    decreases entries.len(),
{
    if entries.len() > 0 {
        let n = entries.len();
        let earlier = entries.drop_last();
        let x = entries.last();
        assert(entries =~= earlier.push(x));
        assert(earlier =~= entries.take(n - 1));
        lemma_all_pairs(earlier);
        lemma_total_of_rows_grows(earlier, earlier, x);
        lemma_total_push(earlier, x, row_total(entries));
        lemma_total_push(earlier, x, similarity_to(x));
        lemma_total_push(earlier, x, self_similarity());
        lemma_pair_sum_of_prefix(entries, (n - 1) as nat, (n - 1) as nat);
        lemma_row_sum_is_total(entries, n - 1, (n - 1) as nat);
    }
}

/// The sum of the similarities of all unordered pairs of the entries of
/// some members does not depend on the order of the members, and neither
/// does the number of those entries.
pub proof fn lemma_pair_sum_ignores_order(
    ledger: Seq<EntryView>,
    first: Seq<Seq<char>>,
    second: Seq<Seq<char>>,
)
    requires
        first.to_multiset() == second.to_multiset(),
    ensures
        resolve(ledger, first).len() == resolve(ledger, second).len(),
        pair_sum(resolve(ledger, first), resolve(ledger, first).len()) == pair_sum(
            resolve(ledger, second),
            resolve(ledger, second).len(),
        ),
{
    let a = resolve(ledger, first);
    let b = resolve(ledger, second);
    lemma_total_counts(a);
    lemma_total_counts(b);
    lemma_total_ignores_order(ledger, first, second, unit_weight());
    lemma_total_ignores_order(ledger, first, second, self_similarity());
    assert forall|i: int| 0 <= i < a.len() implies row_total(a)(#[trigger] a[i]) == row_total(b)(
        a[i],
    ) by {
        lemma_total_ignores_order(ledger, first, second, similarity_to(a[i]));
    }
    lemma_total_pointwise(a, row_total(a), row_total(b));
    lemma_total_ignores_order(ledger, first, second, row_total(b));
    lemma_all_pairs(a);
    lemma_all_pairs(b);
}

/// The cohesion of the entries of some members does not depend on the order
/// of the members.
pub proof fn lemma_cohesion_ignores_member_order(
    ledger: Seq<EntryView>,
    first: Seq<Seq<char>>,
    second: Seq<Seq<char>>,
)
    requires
        first.to_multiset() == second.to_multiset(),
    ensures
        cohesion(resolve(ledger, first)) == cohesion(resolve(ledger, second)),
{
    lemma_pair_sum_ignores_order(ledger, first, second);
}

/// Two clusters with the same members, in whatever order, have the same
/// cohesion.
pub proof fn lemma_cohesion_is_symmetric(
    e1: EngineView,
    id1: Seq<char>,
    e2: EngineView,
    id2: Seq<char>,
    ledger: Seq<EntryView>,
)
    requires
        has_cluster(e1, id1),
        has_cluster(e2, id2),
        cluster_by_id(e1, id1).members.to_multiset() == cluster_by_id(e2, id2).members.to_multiset(),
    ensures
        cohesion_of(e1, ledger, id1) == cohesion_of(e2, ledger, id2),
{
    let first = cluster_by_id(e1, id1).members;
    let second = cluster_by_id(e2, id2).members;
    first.to_multiset_ensures();
    second.to_multiset_ensures();
    lemma_cohesion_ignores_member_order(ledger, first, second);
}

/// A cluster of a single member has cohesion one, whatever the ledger holds.
pub proof fn lemma_single_member_cohesion(e: EngineView, ledger: Seq<EntryView>, id: Seq<char>)
    requires
        has_cluster(e, id),
        cluster_by_id(e, id).members.len() == 1,
    ensures
        cohesion_of(e, ledger, id) == SIM_ONE,
{
}

} // verus!
