use sefi::clustering::{
    cosine_similarity, is_expired, Cluster, ClusterEngine, PhraseBook, DEFAULT_THRESHOLD,
};
use sefi::embed::EmbedService;
use sefi::ledger::store::Ledger;
use sefi::types::{ConceptPacket, Polarity, Tempo};
use sefi::vector::{ONE, SIM_ONE};

fn as_float(sim: i64) -> f64 {
    sim as f64 / SIM_ONE as f64
}

fn fixed(x: f64) -> i32 {
    (x * ONE as f64).round() as i32
}

fn packet(hash: &str, timestamp: u64, tempo: Tempo) -> ConceptPacket {
    ConceptPacket {
        phrase: format!("phrase of {}", hash),
        amp: 800_000_000,
        sigma: 1_000_000_000,
        polarity: Polarity::Attract,
        tempo,
        provenance: "test".to_string(),
        agent_id: "agent".to_string(),
        rationale_hash: hash.to_string(),
        timestamp,
    }
}

fn plane(x: f64, y: f64) -> Vec<i32> {
    vec![fixed(x), fixed(y)]
}

#[test]
fn mod_test_cosine_similarity() {
    let v1 = vec![fixed(1.0), fixed(0.0), fixed(0.0)];
    let v2 = vec![fixed(1.0), fixed(0.0), fixed(0.0)];
    let v3 = vec![fixed(0.0), fixed(1.0), fixed(0.0)];

    assert!((as_float(cosine_similarity(&v1, &v2)) - 1.0).abs() < 1e-5);
    assert!(as_float(cosine_similarity(&v1, &v3)).abs() < 1e-5);
}

#[test]
fn test_cluster_creation() {
    let mut engine = ClusterEngine::new();
    let ledger = Ledger::new();
    let phrases = PhraseBook::new();

    let mature = engine.tick(&ledger, 1000, &phrases);
    assert_eq!(mature.len(), 0, "No mature clusters initially");
}

#[test]
fn test_decay_fast_vs_slow() {
    let mut engine = ClusterEngine::new();
    let mut ledger = Ledger::new();
    let mut phrases = PhraseBook::new();
    let embed = EmbedService::new();

    let packet_fast = ConceptPacket {
        phrase: "fast alert".to_string(),
        amp: fixed(0.9),
        sigma: fixed(1.0) as i64,
        polarity: Polarity::Attract,
        tempo: Tempo::Fast,
        provenance: "test".to_string(),
        agent_id: "agent1".to_string(),
        rationale_hash: "hash_fast".to_string(),
        timestamp: 0,
    };

    let vector_fast = embed.embed(&packet_fast.phrase);
    phrases.insert("hash_fast".to_string(), packet_fast.phrase.clone());
    ledger.append(packet_fast, vector_fast);

    let packet_slow = ConceptPacket {
        phrase: "slow consensus".to_string(),
        amp: fixed(0.9),
        sigma: fixed(1.0) as i64,
        polarity: Polarity::Attract,
        tempo: Tempo::Slow,
        provenance: "test".to_string(),
        agent_id: "agent2".to_string(),
        rationale_hash: "hash_slow".to_string(),
        timestamp: 0,
    };

    let vector_slow = embed.embed(&packet_slow.phrase);
    phrases.insert("hash_slow".to_string(), packet_slow.phrase.clone());
    ledger.append(packet_slow, vector_slow);

    engine.tick(&ledger, 0, &phrases);
    assert_eq!(engine.cluster_count(), 2, "Should create 2 clusters");

    engine.tick(&ledger, 3000, &phrases);

    assert!(engine.cluster_count() <= 2, "Fast clusters may have decayed");
}

#[test]
fn test_medoid_computation() {
    let mut engine = ClusterEngine::new();
    let mut ledger = Ledger::new();
    let mut phrases = PhraseBook::new();
    let embed = EmbedService::new();

    let concepts = ["memory safety", "borrow checker", "zero cost abstractions"];

    for (i, phrase) in concepts.iter().enumerate() {
        let packet = ConceptPacket {
            phrase: phrase.to_string(),
            amp: fixed(0.8),
            sigma: fixed(1.0) as i64,
            polarity: Polarity::Attract,
            tempo: Tempo::Slow,
            provenance: "test".to_string(),
            agent_id: format!("agent{}", i),
            rationale_hash: format!("hash{}", i),
            timestamp: 1000,
        };

        let vector = embed.embed(phrase);
        phrases.insert(format!("hash{}", i), phrase.to_string());
        ledger.append(packet, vector);
    }

    engine.set_cosine_threshold(-SIM_ONE);
    engine.tick(&ledger, 1000, &phrases);

    assert!(engine.cluster_count() != 0);

    let cluster_id = engine.cluster_ids()[0].clone();

    let medoid_hash = engine.compute_medoid(&cluster_id, &ledger);
    assert!(medoid_hash.is_some(), "Should find a medoid");

    let cluster = engine.get_cluster(&cluster_id).unwrap();
    assert!(cluster.members.contains(&medoid_hash.unwrap()));
}

#[test]
fn test_cohesion_computation() {
    let mut engine = ClusterEngine::new();
    let mut ledger = Ledger::new();
    let mut phrases = PhraseBook::new();
    let embed = EmbedService::new();

    let concepts = ["memory safety", "memory safety again"];

    for (i, phrase) in concepts.iter().enumerate() {
        let packet = ConceptPacket {
            phrase: phrase.to_string(),
            amp: fixed(0.8),
            sigma: fixed(1.0) as i64,
            polarity: Polarity::Attract,
            tempo: Tempo::Slow,
            provenance: "test".to_string(),
            agent_id: format!("agent{}", i),
            rationale_hash: format!("hash{}", i),
            timestamp: 1000,
        };

        let vector = embed.embed(phrase);
        phrases.insert(format!("hash{}", i), phrase.to_string());
        ledger.append(packet, vector);
    }

    engine.set_cosine_threshold(0);
    engine.tick(&ledger, 1000, &phrases);

    let cluster_id = engine.cluster_ids()[0].clone();
    let cohesion = as_float(engine.compute_cohesion(&cluster_id, &ledger));

    assert!((0.0..=1.0).contains(&cohesion));
}

#[test]
fn new_engine_has_the_default_thresholds() {
    let mut engine = ClusterEngine::default();
    assert_eq!(engine.cluster_count(), 0);
    assert!(engine.cluster_ids().is_empty());
    assert!(engine.get_cluster("cluster_0").is_none());
    assert_eq!(DEFAULT_THRESHOLD, 750_000_000_000_000_000);

    // A similarity of exactly three quarters does not join.
    let mut ledger = Ledger::new();
    ledger.append(packet("a", 0, Tempo::Slow), vec![ONE, 0]);
    ledger.append(packet("b", 0, Tempo::Slow), vec![750_000_000, 0]);
    ledger.append(packet("c", 0, Tempo::Slow), vec![750_000_001, 0]);
    let mature = engine.tick(&ledger, 0, &PhraseBook::new());
    assert_eq!(engine.cluster_ids(), vec!["cluster_0", "cluster_1"]);
    assert_eq!(engine.get_cluster("cluster_0").unwrap().members, vec!["a", "c"]);
    assert_eq!(engine.get_cluster("cluster_1").unwrap().members, vec!["b"]);
    assert!(mature.is_empty());

    // Two members and a persistence of two make a cluster mature: the
    // first cluster gains a member on a later tick.
    ledger.append(packet("d", 1, Tempo::Slow), vec![760_000_000, 0]);
    let mature = engine.tick(&ledger, 1, &PhraseBook::new());
    assert_eq!(engine.get_cluster("cluster_0").unwrap().members, vec!["a", "c", "d"]);
    assert_eq!(engine.get_cluster("cluster_0").unwrap().persistence, 2);
    assert_eq!(engine.get_cluster("cluster_1").unwrap().persistence, 1);
    assert_eq!(mature, vec!["cluster_0"]);
}

#[test]
fn founding_a_cluster_records_the_entry() {
    let mut engine = ClusterEngine::new();
    let mut ledger = Ledger::new();
    let mut phrases = PhraseBook::new();
    phrases.insert("h1".to_string(), "memory safety".to_string());
    ledger.append(packet("h1", 700, Tempo::Fast), plane(0.6, 0.8));
    ledger.append(packet("h2", 800, Tempo::Urgent), plane(-0.6, -0.8));

    let mature = engine.tick(&ledger, 1000, &phrases);
    assert!(mature.is_empty());
    assert_eq!(engine.cluster_count(), 2);

    let first = engine.get_cluster("cluster_0").unwrap();
    assert_eq!(first.id, "cluster_0");
    assert_eq!(first.members, vec!["h1"]);
    assert_eq!(first.medoid_hash, "h1");
    assert_eq!(first.medoid_phrase, "memory safety");
    assert_eq!(first.centroid, plane(0.6, 0.8));
    assert_eq!(first.persistence, 1);
    assert_eq!(first.tempo, Tempo::Fast);
    assert_eq!(first.last_update, 700);

    let second = engine.get_cluster("cluster_1").unwrap();
    assert_eq!(second.members, vec!["h2"]);
    assert_eq!(second.medoid_phrase, "unknown");
    assert_eq!(second.tempo, Tempo::Urgent);
    assert_eq!(second.last_update, 800);
}

#[test]
fn joining_grows_the_cluster_and_keeps_the_centroid() {
    let mut engine = ClusterEngine::new();
    let mut ledger = Ledger::new();
    let phrases = PhraseBook::new();
    ledger.append(packet("a", 100, Tempo::Slow), plane(1.0, 0.0));
    ledger.append(packet("b", 300, Tempo::Fast), plane(0.8, 0.6));
    ledger.append(packet("c", 200, Tempo::Fast), plane(0.96, 0.28));

    // Joining on the tick that founded the cluster leaves its persistence.
    let mature = engine.tick(&ledger, 300, &phrases);
    assert_eq!(engine.cluster_count(), 1);
    let cluster = engine.get_cluster("cluster_0").unwrap();
    assert_eq!(cluster.members, vec!["a", "b", "c"]);
    assert_eq!(cluster.persistence, 1);
    assert_eq!(cluster.centroid, plane(1.0, 0.0));
    assert_eq!(cluster.medoid_hash, "a");
    assert_eq!(cluster.tempo, Tempo::Slow);
    assert_eq!(cluster.last_update, 200);
    assert!(mature.is_empty());

    // Each entry that joins on a later tick raises it by one.
    ledger.append(packet("d", 400, Tempo::Fast), plane(0.8, -0.6));
    ledger.append(packet("e", 350, Tempo::Fast), plane(0.96, -0.28));
    let mature = engine.tick(&ledger, 400, &phrases);
    let cluster = engine.get_cluster("cluster_0").unwrap();
    assert_eq!(cluster.members, vec!["a", "b", "c", "d", "e"]);
    assert_eq!(cluster.persistence, 3);
    assert_eq!(cluster.centroid, plane(1.0, 0.0));
    assert_eq!(cluster.medoid_hash, "a");
    assert_eq!(cluster.tempo, Tempo::Slow);
    assert_eq!(cluster.last_update, 350);
    assert_eq!(mature, vec!["cluster_0"]);
}

#[test]
fn an_entry_joins_only_once() {
    let mut engine = ClusterEngine::new();
    let mut ledger = Ledger::new();
    let phrases = PhraseBook::new();
    ledger.append(packet("a", 0, Tempo::Slow), plane(1.0, 0.0));
    ledger.append(packet("b", 0, Tempo::Slow), plane(0.8, 0.6));

    engine.tick(&ledger, 0, &phrases);
    engine.tick(&ledger, 10, &phrases);
    engine.tick(&ledger, 20, &phrases);
    let cluster = engine.get_cluster("cluster_0").unwrap();
    assert_eq!(cluster.members, vec!["a", "b"]);
    assert_eq!(cluster.persistence, 1);
    assert_eq!(engine.cluster_count(), 1);

    ledger.append(packet("c", 30, Tempo::Slow), plane(0.96, 0.28));
    engine.tick(&ledger, 30, &phrases);
    engine.tick(&ledger, 40, &phrases);
    let cluster = engine.get_cluster("cluster_0").unwrap();
    assert_eq!(cluster.members, vec!["a", "b", "c"]);
    assert_eq!(cluster.persistence, 2);
}

#[test]
fn the_threshold_is_exclusive() {
    let mut ledger = Ledger::new();
    ledger.append(packet("a", 0, Tempo::Slow), plane(1.0, 0.0));
    ledger.append(packet("b", 0, Tempo::Slow), plane(0.6, 0.8));
    let phrases = PhraseBook::new();

    let mut strict = ClusterEngine::new();
    strict.set_cosine_threshold(600_000_000_000_000_000);
    strict.tick(&ledger, 0, &phrases);
    assert_eq!(strict.cluster_count(), 2);

    let mut loose = ClusterEngine::new();
    loose.set_cosine_threshold(599_999_999_999_999_999);
    loose.tick(&ledger, 0, &phrases);
    assert_eq!(loose.cluster_count(), 1);
    assert_eq!(loose.get_cluster("cluster_0").unwrap().members, vec!["a", "b"]);
}

#[test]
fn the_nearest_cluster_takes_the_entry() {
    let mut engine = ClusterEngine::new();
    engine.set_cosine_threshold(500_000_000_000_000_000);
    let mut ledger = Ledger::new();
    let phrases = PhraseBook::new();
    ledger.append(packet("east", 0, Tempo::Slow), plane(1.0, 0.0));
    ledger.append(packet("north", 0, Tempo::Slow), plane(0.0, 1.0));
    ledger.append(packet("north_east_ish", 0, Tempo::Slow), plane(0.6, 0.8));
    ledger.append(packet("east_north_ish", 0, Tempo::Slow), plane(0.8, 0.6));

    engine.tick(&ledger, 0, &phrases);
    assert_eq!(engine.cluster_count(), 2);
    assert_eq!(engine.get_cluster("cluster_0").unwrap().members, vec!["east", "east_north_ish"]);
    assert_eq!(engine.get_cluster("cluster_1").unwrap().members, vec!["north", "north_east_ish"]);
}

#[test]
fn of_equally_near_clusters_the_older_takes_the_entry() {
    let mut engine = ClusterEngine::new();
    engine.set_cosine_threshold(500_000_000_000_000_000);
    let mut ledger = Ledger::new();
    let phrases = PhraseBook::new();
    ledger.append(packet("up", 0, Tempo::Slow), plane(0.6, 0.8));
    ledger.append(packet("down", 0, Tempo::Slow), plane(0.6, -0.8));
    ledger.append(packet("between", 0, Tempo::Slow), plane(1.0, 0.0));

    engine.tick(&ledger, 0, &phrases);
    assert_eq!(engine.cluster_count(), 2);
    assert_eq!(engine.get_cluster("cluster_0").unwrap().members, vec!["up", "between"]);
    assert_eq!(engine.get_cluster("cluster_1").unwrap().members, vec!["down"]);
}

#[test]
fn cluster_identifiers_count_up_in_decimal() {
    let mut engine = ClusterEngine::new();
    let mut ledger = Ledger::new();
    let phrases = PhraseBook::new();
    for i in 0..12 {
        let mut v = vec![0; 12];
        v[i] = ONE;
        ledger.append(packet(&format!("h{}", i), 0, Tempo::Slow), v);
    }
    engine.tick(&ledger, 0, &phrases);
    let expected: Vec<String> = (0..12).map(|i| format!("cluster_{}", i)).collect();
    assert_eq!(engine.cluster_ids(), expected);
    assert_eq!(engine.get_cluster("cluster_10").unwrap().members, vec!["h10"]);
    assert!(engine.get_cluster("cluster_12").is_none());
    assert!(engine.get_cluster("cluster_").is_none());
}

#[test]
fn fast_clusters_decay_after_two_time_constants_and_a_bit() {
    let mut ledger = Ledger::new();
    ledger.append(packet("f", 0, Tempo::Fast), plane(1.0, 0.0));
    let phrases = PhraseBook::new();
    let empty = Ledger::new();

    let mut engine = ClusterEngine::new();
    engine.tick(&ledger, 0, &phrases);
    engine.tick(&empty, 3000, &phrases);
    assert_eq!(engine.cluster_ids(), vec!["cluster_0"]);
    engine.tick(&empty, 4605, &phrases);
    assert_eq!(engine.cluster_ids(), vec!["cluster_0"]);
    engine.tick(&empty, 4606, &phrases);
    assert_eq!(engine.cluster_count(), 0);
}

#[test]
fn slow_clusters_decay_after_sixty_nine_seconds() {
    let mut ledger = Ledger::new();
    ledger.append(packet("s", 1000, Tempo::Slow), plane(1.0, 0.0));
    let phrases = PhraseBook::new();
    let empty = Ledger::new();

    let mut engine = ClusterEngine::new();
    engine.tick(&ledger, 1000, &phrases);
    engine.tick(&empty, 6000, &phrases);
    assert_eq!(engine.cluster_count(), 1);
    engine.tick(&empty, 70_077, &phrases);
    assert_eq!(engine.cluster_count(), 1);
    engine.tick(&empty, 70_078, &phrases);
    assert_eq!(engine.cluster_count(), 0);
}

#[test]
fn urgent_clusters_never_decay() {
    let mut ledger = Ledger::new();
    ledger.append(packet("u", 0, Tempo::Urgent), plane(1.0, 0.0));
    let phrases = PhraseBook::new();
    let empty = Ledger::new();

    let mut engine = ClusterEngine::new();
    engine.tick(&ledger, 0, &phrases);
    engine.tick(&empty, 1_000_000_000, &phrases);
    engine.tick(&empty, u64::MAX, &phrases);
    assert_eq!(engine.cluster_ids(), vec!["cluster_0"]);
}

#[test]
fn a_cluster_updated_in_the_future_has_not_aged() {
    let mut ledger = Ledger::new();
    ledger.append(packet("ahead", 50_000, Tempo::Fast), plane(1.0, 0.0));
    let phrases = PhraseBook::new();
    let empty = Ledger::new();

    let mut engine = ClusterEngine::new();
    engine.tick(&ledger, 0, &phrases);
    assert_eq!(engine.get_cluster("cluster_0").unwrap().last_update, 50_000);
    engine.tick(&empty, 10_000, &phrases);
    engine.tick(&empty, 54_605, &phrases);
    assert_eq!(engine.cluster_count(), 1);
    engine.tick(&empty, 54_606, &phrases);
    assert_eq!(engine.cluster_count(), 0);
}

#[test]
fn fast_and_slow_side_by_side() {
    let embed = EmbedService::new();
    let mut ledger = Ledger::new();
    let mut phrases = PhraseBook::new();
    phrases.insert("hash_fast".to_string(), "fast alert".to_string());
    phrases.insert("hash_slow".to_string(), "slow consensus".to_string());
    ledger.append(packet("hash_fast", 0, Tempo::Fast), embed.embed("fast alert"));
    ledger.append(packet("hash_slow", 0, Tempo::Slow), embed.embed("slow consensus"));
    let empty = Ledger::new();

    let mut engine = ClusterEngine::new();
    let mature = engine.tick(&ledger, 0, &phrases);
    assert!(mature.is_empty());
    assert_eq!(engine.cluster_ids(), vec!["cluster_0", "cluster_1"]);
    assert_eq!(engine.get_cluster("cluster_0").unwrap().medoid_phrase, "fast alert");
    assert_eq!(engine.get_cluster("cluster_1").unwrap().medoid_phrase, "slow consensus");

    // exp(-3/2) is about 0.223: the fast cluster is still there.
    engine.tick(&ledger, 3000, &phrases);
    assert_eq!(engine.cluster_ids(), vec!["cluster_0", "cluster_1"]);
    assert_eq!(engine.get_cluster("cluster_0").unwrap().persistence, 1);

    // Past 2 ln 10 seconds it is gone, the slow one is not.
    engine.tick(&empty, 4700, &phrases);
    assert_eq!(engine.cluster_ids(), vec!["cluster_1"]);
    engine.tick(&empty, 69_000, &phrases);
    assert_eq!(engine.cluster_ids(), vec!["cluster_1"]);

    // Past 30 ln 10 seconds the slow one is gone too.
    engine.tick(&empty, 69_100, &phrases);
    assert_eq!(engine.cluster_count(), 0);
}

#[test]
fn an_evicted_identifier_is_not_issued_again() {
    let mut ledger = Ledger::new();
    ledger.append(packet("f", 0, Tempo::Fast), plane(1.0, 0.0));
    ledger.append(packet("s", 0, Tempo::Slow), plane(0.0, 1.0));
    let phrases = PhraseBook::new();

    let mut engine = ClusterEngine::new();
    engine.tick(&ledger, 0, &phrases);
    assert_eq!(engine.cluster_ids(), vec!["cluster_0", "cluster_1"]);

    // The fast cluster is dropped; its entry is still in the window and
    // founds a cluster under a fresh identifier.
    engine.tick(&ledger, 5000, &phrases);
    assert_eq!(engine.cluster_ids(), vec!["cluster_1", "cluster_2"]);
    assert!(engine.get_cluster("cluster_0").is_none());
    assert_eq!(engine.get_cluster("cluster_2").unwrap().members, vec!["f"]);

    engine.tick(&ledger, 10_000, &phrases);
    assert_eq!(engine.cluster_ids(), vec!["cluster_1", "cluster_3"]);
    assert!(engine.get_cluster("cluster_0").is_none());
    assert!(engine.get_cluster("cluster_2").is_none());
}

#[test]
fn persistence_never_decreases() {
    let mut ledger = Ledger::new();
    let phrases = PhraseBook::new();
    let mut engine = ClusterEngine::new();
    let mut last = 0;
    for step in 0..6u64 {
        let angle = step as f64 * 0.05;
        ledger.append(
            packet(&format!("h{}", step), step * 1000, Tempo::Slow),
            plane(angle.cos(), angle.sin()),
        );
        engine.tick(&ledger, step * 1000, &phrases);
        engine.tick(&ledger, step * 1000 + 500, &phrases);
        let persistence = engine.get_cluster("cluster_0").unwrap().persistence;
        assert!(persistence >= last);
        assert!(persistence as usize <= engine.get_cluster("cluster_0").unwrap().members.len());
        last = persistence;
    }
    assert_eq!(last, 6);
}

#[test]
fn entries_outside_the_window_are_not_assigned() {
    let mut ledger = Ledger::new();
    ledger.append(packet("old", 0, Tempo::Slow), plane(1.0, 0.0));
    ledger.append(packet("edge", 40_000, Tempo::Slow), plane(0.0, 1.0));
    ledger.append(packet("new", 99_000, Tempo::Slow), plane(-1.0, 0.0));
    let phrases = PhraseBook::new();

    let mut engine = ClusterEngine::new();
    engine.tick(&ledger, 100_000, &phrases);
    assert_eq!(engine.cluster_count(), 2);
    assert_eq!(engine.get_cluster("cluster_0").unwrap().members, vec!["edge"]);
    assert_eq!(engine.get_cluster("cluster_1").unwrap().members, vec!["new"]);
}

#[test]
fn first_tick_reports_nothing_when_no_entry_joins() {
    let mut ledger = Ledger::new();
    ledger.append(packet("a", 0, Tempo::Slow), plane(1.0, 0.0));
    ledger.append(packet("b", 0, Tempo::Slow), plane(0.0, 1.0));
    ledger.append(packet("c", 0, Tempo::Slow), plane(-1.0, 0.0));
    let mut engine = ClusterEngine::new();
    let mature = engine.tick(&ledger, 0, &PhraseBook::new());
    assert!(mature.is_empty());
    assert_eq!(engine.cluster_count(), 3);
    for id in engine.cluster_ids() {
        assert_eq!(engine.get_cluster(&id).unwrap().persistence, 1);
    }
}

#[test]
fn first_tick_reports_nothing_even_when_entries_merge() {
    let embed = EmbedService::new();
    let mut ledger = Ledger::new();
    ledger.append(packet("one", 0, Tempo::Slow), embed.embed("memory safety"));
    ledger.append(packet("two", 0, Tempo::Slow), embed.embed("memory safety"));
    let mut engine = ClusterEngine::new();
    let mature = engine.tick(&ledger, 0, &PhraseBook::new());
    assert!(mature.is_empty());
    assert!(engine.find_mature_clusters().is_empty());
    assert_eq!(engine.get_cluster("cluster_0").unwrap().members, vec!["one", "two"]);
    assert_eq!(engine.get_cluster("cluster_0").unwrap().persistence, 1);

    // The same ledger on later ticks brings no new member, so nothing
    // matures.
    assert!(engine.tick(&ledger, 1, &PhraseBook::new()).is_empty());
    assert_eq!(engine.get_cluster("cluster_0").unwrap().persistence, 1);
}

#[test]
fn first_tick_reports_nothing_for_two_equal_vectors() {
    let mut ledger = Ledger::new();
    ledger.append(packet("h0", 0, Tempo::Slow), plane(1.0, 0.0));
    ledger.append(packet("h1", 0, Tempo::Slow), plane(1.0, 0.0));
    let mut engine = ClusterEngine::new();
    let mature = engine.tick(&ledger, 0, &PhraseBook::new());
    assert!(mature.is_empty());
    assert!(engine.find_mature_clusters().is_empty());
    assert_eq!(engine.cluster_ids(), vec!["cluster_0"]);
    assert_eq!(engine.get_cluster("cluster_0").unwrap().members, vec!["h0", "h1"]);
    assert_eq!(engine.get_cluster("cluster_0").unwrap().persistence, 1);
}

#[test]
fn a_cluster_founded_on_a_later_tick_starts_at_one_too() {
    let mut ledger = Ledger::new();
    ledger.append(packet("a", 0, Tempo::Slow), plane(1.0, 0.0));
    let mut engine = ClusterEngine::new();
    engine.tick(&ledger, 0, &PhraseBook::new());

    ledger.append(packet("a2", 10, Tempo::Slow), plane(0.8, 0.6));
    ledger.append(packet("b", 10, Tempo::Slow), plane(0.0, -1.0));
    ledger.append(packet("b2", 10, Tempo::Slow), plane(0.6, -0.8));
    let mature = engine.tick(&ledger, 10, &PhraseBook::new());
    assert_eq!(engine.get_cluster("cluster_0").unwrap().members, vec!["a", "a2"]);
    assert_eq!(engine.get_cluster("cluster_0").unwrap().persistence, 2);
    assert_eq!(engine.get_cluster("cluster_1").unwrap().members, vec!["b", "b2"]);
    assert_eq!(engine.get_cluster("cluster_1").unwrap().persistence, 1);
    assert_eq!(mature, vec!["cluster_0"]);
}

#[test]
fn mature_clusters_come_in_founding_order() {
    let mut ledger = Ledger::new();
    ledger.append(packet("a1", 0, Tempo::Slow), plane(1.0, 0.0));
    ledger.append(packet("b1", 0, Tempo::Slow), plane(0.0, 1.0));
    ledger.append(packet("c1", 0, Tempo::Slow), plane(-1.0, 0.0));
    ledger.append(packet("c2", 0, Tempo::Slow), plane(-0.8, 0.6));
    ledger.append(packet("a2", 0, Tempo::Slow), plane(0.8, -0.6));
    let mut engine = ClusterEngine::new();
    let mature = engine.tick(&ledger, 0, &PhraseBook::new());
    assert!(mature.is_empty());
    assert_eq!(engine.cluster_ids(), vec!["cluster_0", "cluster_1", "cluster_2"]);

    ledger.append(packet("c3", 1, Tempo::Slow), plane(-0.96, 0.28));
    ledger.append(packet("a3", 1, Tempo::Slow), plane(0.96, 0.28));
    let mature = engine.tick(&ledger, 1, &PhraseBook::new());
    assert_eq!(mature, vec!["cluster_0", "cluster_2"]);
    let again = engine.tick(&ledger, 2, &PhraseBook::new());
    assert_eq!(again, vec!["cluster_0", "cluster_2"]);
}

fn triangle() -> (ClusterEngine, Ledger) {
    let mut ledger = Ledger::new();
    ledger.append(packet("a", 0, Tempo::Slow), plane(1.0, 0.0));
    ledger.append(packet("b", 0, Tempo::Slow), plane(0.8, 0.6));
    ledger.append(packet("c", 0, Tempo::Slow), plane(0.6, 0.8));
    let mut engine = ClusterEngine::new();
    engine.set_cosine_threshold(-SIM_ONE);
    engine.tick(&ledger, 0, &PhraseBook::new());
    (engine, ledger)
}

#[test]
fn medoid_is_the_most_central_member() {
    let (engine, ledger) = triangle();
    assert_eq!(engine.get_cluster("cluster_0").unwrap().members, vec!["a", "b", "c"]);
    // Total distances: a 0.2 + 0.4, b 0.2 + 0.04, c 0.4 + 0.04.
    assert_eq!(engine.compute_medoid("cluster_0", &ledger), Some("b".to_string()));
}

#[test]
fn of_equally_central_members_the_earliest_is_the_medoid() {
    let mut ledger = Ledger::new();
    ledger.append(packet("x", 0, Tempo::Slow), plane(1.0, 0.0));
    ledger.append(packet("y", 0, Tempo::Slow), plane(0.0, 1.0));
    let mut engine = ClusterEngine::new();
    engine.set_cosine_threshold(-SIM_ONE);
    engine.tick(&ledger, 0, &PhraseBook::new());
    assert_eq!(engine.compute_medoid("cluster_0", &ledger), Some("x".to_string()));
}

#[test]
fn medoid_of_a_single_member_is_that_member() {
    let mut ledger = Ledger::new();
    ledger.append(packet("only", 0, Tempo::Slow), plane(1.0, 0.0));
    let mut engine = ClusterEngine::new();
    engine.tick(&ledger, 0, &PhraseBook::new());
    assert_eq!(engine.compute_medoid("cluster_0", &ledger), Some("only".to_string()));
}

#[test]
fn medoid_is_absent_only_for_unknown_clusters() {
    let (engine, ledger) = triangle();
    assert_eq!(engine.compute_medoid("cluster_7", &ledger), None);
    assert_eq!(engine.compute_medoid("", &ledger), None);
    assert_eq!(engine.compute_medoid("cluster_7", &Ledger::new()), None);
}

#[test]
fn medoid_is_the_founding_member_where_the_ledger_knows_no_member() {
    let (engine, _) = triangle();
    let elsewhere = Ledger::new();
    assert_eq!(engine.compute_medoid("cluster_0", &elsewhere), Some("a".to_string()));

    let mut strangers = Ledger::new();
    strangers.append(packet("x", 0, Tempo::Slow), plane(0.6, 0.8));
    strangers.append(packet("y", 0, Tempo::Slow), plane(0.8, 0.6));
    assert_eq!(engine.compute_medoid("cluster_0", &strangers), Some("a".to_string()));
}

#[test]
fn medoid_of_a_lone_founder_survives_an_empty_ledger() {
    let mut l1 = Ledger::new();
    l1.append(packet("h0", 0, Tempo::Slow), plane(1.0, 0.0));
    let mut engine = ClusterEngine::new();
    engine.tick(&l1, 0, &PhraseBook::new());
    let id = engine.cluster_ids()[0].clone();
    assert_eq!(engine.get_cluster(&id).unwrap().members, vec!["h0"]);

    let l2 = Ledger::new();
    assert_eq!(engine.compute_medoid(&id, &l2), Some("h0".to_string()));
    assert_eq!(engine.compute_medoid(&id, &l1), Some("h0".to_string()));
}

#[test]
fn medoid_looks_only_at_members_the_ledger_knows() {
    let (engine, _) = triangle();
    let mut partial = Ledger::new();
    partial.append(packet("c", 0, Tempo::Slow), plane(0.6, 0.8));
    partial.append(packet("stranger", 0, Tempo::Slow), plane(0.8, 0.6));
    assert_eq!(engine.compute_medoid("cluster_0", &partial), Some("c".to_string()));
}

#[test]
fn cohesion_is_the_mean_pairwise_similarity() {
    let (engine, ledger) = triangle();
    // (0.8 + 0.6 + 0.96) / 3, rounded toward zero.
    assert_eq!(engine.compute_cohesion("cluster_0", &ledger), 786_666_666_666_666_666);
}

#[test]
fn cohesion_of_a_single_member_is_one() {
    let mut ledger = Ledger::new();
    ledger.append(packet("only", 0, Tempo::Slow), plane(0.6, 0.8));
    let mut engine = ClusterEngine::new();
    engine.tick(&ledger, 0, &PhraseBook::new());
    assert_eq!(engine.compute_cohesion("cluster_0", &ledger), SIM_ONE);
    assert_eq!(engine.compute_cohesion("cluster_0", &Ledger::new()), SIM_ONE);
}

#[test]
fn cohesion_is_zero_without_a_pair() {
    let (engine, ledger) = triangle();
    assert_eq!(engine.compute_cohesion("cluster_9", &ledger), 0);
    assert_eq!(engine.compute_cohesion("cluster_0", &Ledger::new()), 0);
    let mut partial = Ledger::new();
    partial.append(packet("b", 0, Tempo::Slow), plane(0.8, 0.6));
    assert_eq!(engine.compute_cohesion("cluster_0", &partial), 0);
}

#[test]
fn cohesion_can_be_negative_and_rounds_toward_zero() {
    let mut ledger = Ledger::new();
    ledger.append(packet("east", 0, Tempo::Slow), plane(1.0, 0.0));
    ledger.append(packet("west", 0, Tempo::Slow), plane(-1.0, 0.0));
    ledger.append(packet("north", 0, Tempo::Slow), plane(0.0, 1.0));
    let mut engine = ClusterEngine::new();
    engine.set_cosine_threshold(i64::MIN);
    engine.tick(&ledger, 0, &PhraseBook::new());
    assert_eq!(engine.get_cluster("cluster_0").unwrap().members, vec!["east", "west", "north"]);
    assert_eq!(engine.compute_cohesion("cluster_0", &ledger), -333_333_333_333_333_333);
}

#[test]
fn cohesion_does_not_depend_on_the_order_of_members() {
    let vectors = [("a", plane(1.0, 0.0)), ("b", plane(0.8, 0.6)), ("c", plane(0.28, 0.96))];
    let orders = [[0, 1, 2], [0, 2, 1], [1, 0, 2], [1, 2, 0], [2, 0, 1], [2, 1, 0]];
    let mut seen = Vec::new();
    for order in orders {
        let mut ledger = Ledger::new();
        for i in order {
            ledger.append(packet(vectors[i].0, 0, Tempo::Slow), vectors[i].1.clone());
        }
        let mut engine = ClusterEngine::new();
        engine.set_cosine_threshold(-SIM_ONE);
        engine.tick(&ledger, 0, &PhraseBook::new());
        assert_eq!(engine.get_cluster("cluster_0").unwrap().members.len(), 3);
        seen.push(engine.compute_cohesion("cluster_0", &ledger));
    }
    // (0.8 + 0.28 + 0.8) / 3
    assert_eq!(seen, vec![626_666_666_666_666_666; 6]);
}

#[test]
fn near_duplicates_merge_under_an_accept_all_threshold() {
    let embed = EmbedService::new();
    let mut ledger = Ledger::new();
    let mut phrases = PhraseBook::new();
    let texts = ["memory safety", "memory safety!", "memory-safety"];
    let mut vectors = Vec::new();
    for (i, text) in texts.iter().enumerate() {
        let v = embed.embed(text);
        vectors.push(v.clone());
        phrases.insert(format!("hash{}", i), text.to_string());
        ledger.append(packet(&format!("hash{}", i), 1000, Tempo::Slow), v);
    }
    let mut engine = ClusterEngine::new();
    engine.set_cosine_threshold(-SIM_ONE);
    let mature = engine.tick(&ledger, 1000, &phrases);

    assert_eq!(engine.cluster_ids(), vec!["cluster_0"]);
    assert!(mature.is_empty());
    let cluster = engine.get_cluster("cluster_0").unwrap();
    assert_eq!(cluster.members, vec!["hash0", "hash1", "hash2"]);
    assert_eq!(cluster.medoid_phrase, "memory safety");

    let medoid = engine.compute_medoid("cluster_0", &ledger).unwrap();
    assert!(cluster.members.contains(&medoid));

    let sims = [
        cosine_similarity(&vectors[0], &vectors[1]),
        cosine_similarity(&vectors[0], &vectors[2]),
        cosine_similarity(&vectors[1], &vectors[2]),
    ];
    let cohesion = engine.compute_cohesion("cluster_0", &ledger);
    assert!(*sims.iter().min().unwrap() <= cohesion);
    assert!(cohesion <= *sims.iter().max().unwrap());
    let total: i128 = sims.iter().map(|s| *s as i128).sum();
    assert_eq!(cohesion as i128, total / 3);
}

#[test]
fn room_for_more_entries() {
    let mut engine = ClusterEngine::new();
    assert!(engine.has_room_for(0));
    assert!(engine.has_room_for(u32::MAX as usize));
    assert!(!engine.has_room_for(u32::MAX as usize + 1));

    let mut ledger = Ledger::new();
    ledger.append(packet("a", 0, Tempo::Slow), plane(1.0, 0.0));
    ledger.append(packet("b", 0, Tempo::Slow), plane(0.8, 0.6));
    ledger.append(packet("c", 0, Tempo::Slow), plane(0.0, -1.0));
    assert!(engine.has_room_for(ledger.len()));
    engine.tick(&ledger, 0, &PhraseBook::new());
    // Two clusters were founded, and the first has two members.
    assert!(engine.has_room_for(u32::MAX as usize - 2));
    assert!(!engine.has_room_for(u32::MAX as usize - 1));
}

#[test]
fn maturity_can_be_asked_again_between_ticks() {
    let (mut engine, mut ledger) = triangle();
    assert!(engine.find_mature_clusters().is_empty());
    ledger.append(packet("d", 5, Tempo::Slow), plane(0.28, 0.96));
    let reported = engine.tick(&ledger, 5, &PhraseBook::new());
    assert_eq!(reported, vec!["cluster_0"]);
    assert_eq!(engine.find_mature_clusters(), vec!["cluster_0"]);
    assert!(ClusterEngine::new().find_mature_clusters().is_empty());

    let mut ledger = Ledger::new();
    ledger.append(packet("a", 0, Tempo::Slow), plane(1.0, 0.0));
    ledger.append(packet("b", 0, Tempo::Slow), plane(0.0, 1.0));
    let mut singles = ClusterEngine::new();
    let reported = singles.tick(&ledger, 0, &PhraseBook::new());
    assert_eq!(reported, singles.find_mature_clusters());
    assert!(reported.is_empty());
}

fn lone_cluster(tempo: Tempo, last_update: u64) -> Cluster {
    Cluster {
        id: "cluster_0".to_string(),
        members: vec!["h".to_string()],
        medoid_hash: "h".to_string(),
        medoid_phrase: "unknown".to_string(),
        centroid: plane(1.0, 0.0),
        persistence: 1,
        tempo,
        last_update,
    }
}

#[test]
fn decay_agrees_with_the_exponential_at_every_millisecond() {
    for (tempo, tau) in [(Tempo::Fast, 2.0f64), (Tempo::Slow, 30.0f64)] {
        let cluster = lone_cluster(tempo, 0);
        for now in 0..150_000u64 {
            let dt = now as f64 / 1000.0;
            let decay = (-dt / tau).exp();
            assert_eq!(is_expired(&cluster, now), decay < 0.1, "{:?} at {}", tempo, now);
        }
    }
}

#[test]
fn decay_agrees_with_single_precision_arithmetic() {
    for (tempo, tau) in [(Tempo::Fast, 2.0f32), (Tempo::Slow, 30.0f32)] {
        let cluster = lone_cluster(tempo, 1_000);
        for now in 1_000..151_000u64 {
            let dt = (now - 1_000) as f32 / 1000.0;
            let decay = (-dt / tau).exp();
            assert_eq!(is_expired(&cluster, now), decay < 0.1, "{:?} at {}", tempo, now);
        }
    }
}

#[test]
fn decay_edges() {
    assert!(!is_expired(&lone_cluster(Tempo::Fast, 0), 4605));
    assert!(is_expired(&lone_cluster(Tempo::Fast, 0), 4606));
    assert!(!is_expired(&lone_cluster(Tempo::Slow, 0), 69_077));
    assert!(is_expired(&lone_cluster(Tempo::Slow, 0), 69_078));
    assert!(!is_expired(&lone_cluster(Tempo::Urgent, 0), u64::MAX));
    assert!(is_expired(&lone_cluster(Tempo::Fast, 0), u64::MAX));
    assert!(!is_expired(&lone_cluster(Tempo::Fast, u64::MAX), 0));
    assert!(!is_expired(&lone_cluster(Tempo::Slow, 7), 7));
}

#[test]
fn a_tick_only_adds_to_the_clusters_that_stay() {
    let mut ledger = Ledger::new();
    let phrases = PhraseBook::new();
    let mut engine = ClusterEngine::new();
    for step in 0..8u64 {
        let angle = step as f64 * 0.4;
        ledger.append(
            packet(&format!("h{}", step), step * 1500, Tempo::Fast),
            plane(angle.cos(), angle.sin()),
        );
        let before: Vec<Cluster> =
            engine.cluster_ids().iter().map(|id| engine.get_cluster(id).unwrap().clone()).collect();
        engine.tick(&ledger, step * 1500, &phrases);
        for c0 in before {
            match engine.get_cluster(&c0.id) {
                None => {}
                Some(c1) => {
                    assert!(c1.persistence >= c0.persistence);
                    assert!(c1.persistence >= 1);
                    assert_eq!(&c1.members[..c0.members.len()], &c0.members[..]);
                    assert_eq!(c1.centroid, c0.centroid);
                    assert_eq!(c1.medoid_hash, c0.medoid_hash);
                    assert!(c1.members.contains(&c1.medoid_hash));
                }
            }
        }
    }
    assert!(engine.cluster_count() > 0);
}

#[test]
fn an_evicted_identifier_stays_unused_over_many_ticks() {
    let mut ledger = Ledger::new();
    ledger.append(packet("f", 0, Tempo::Fast), plane(1.0, 0.0));
    let phrases = PhraseBook::new();
    let mut engine = ClusterEngine::new();
    engine.tick(&ledger, 0, &phrases);
    let mut gone: Vec<String> = Vec::new();
    for step in 1..10u64 {
        let before = engine.cluster_ids();
        engine.tick(&ledger, step * 5000, &phrases);
        for id in before {
            if engine.get_cluster(&id).is_none() {
                gone.push(id);
            }
        }
        for id in gone.iter() {
            assert!(engine.get_cluster(id).is_none());
        }
    }
    assert_eq!(gone.len(), 9);
    assert_eq!(engine.cluster_ids(), vec!["cluster_9"]);
}
