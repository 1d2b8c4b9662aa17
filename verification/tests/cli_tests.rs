use sefi::cli::{build_packet, parse_emit_args, parse_tempo, EmitRequest, DEFAULT_AMP};
use sefi::types::{Polarity, Tempo};

fn words(args: &[&str]) -> Vec<String> {
    args.iter().map(|a| a.to_string()).collect()
}

#[test]
fn emit_needs_a_phrase() {
    assert!(parse_emit_args(&Vec::new()).is_none());
}

#[test]
fn emit_defaults() {
    let request = parse_emit_args(&words(&["memory safety"])).unwrap();
    assert_eq!(request.phrase, "memory safety");
    assert_eq!(request.amp_text, None);
    assert_eq!(request.tempo, Tempo::Slow);
}

#[test]
fn emit_reads_both_options() {
    let request =
        parse_emit_args(&words(&["memory safety", "--amp", "0.9", "--tempo", "fast"])).unwrap();
    assert_eq!(request.phrase, "memory safety");
    assert_eq!(request.amp_text.as_deref(), Some("0.9"));
    assert_eq!(request.tempo, Tempo::Fast);

    let swapped = parse_emit_args(&words(&["p", "--tempo", "urgent", "--amp", "1"])).unwrap();
    assert_eq!(swapped.amp_text.as_deref(), Some("1"));
    assert_eq!(swapped.tempo, Tempo::Urgent);
}

#[test]
fn of_a_repeated_option_the_last_counts() {
    let request = parse_emit_args(&words(&[
        "p", "--amp", "0.1", "--tempo", "fast", "--amp", "0.2", "--tempo", "urgent",
    ]))
    .unwrap();
    assert_eq!(request.amp_text.as_deref(), Some("0.2"));
    assert_eq!(request.tempo, Tempo::Urgent);
}

#[test]
fn a_flag_in_last_place_is_passed_over() {
    let request = parse_emit_args(&words(&["p", "--tempo", "fast", "--amp"])).unwrap();
    assert_eq!(request.amp_text, None);
    assert_eq!(request.tempo, Tempo::Fast);

    let request = parse_emit_args(&words(&["p", "--tempo"])).unwrap();
    assert_eq!(request.tempo, Tempo::Slow);
}

#[test]
fn a_flag_takes_the_next_word_whatever_it_is() {
    let request = parse_emit_args(&words(&["p", "--amp", "--tempo", "fast"])).unwrap();
    assert_eq!(request.amp_text.as_deref(), Some("--tempo"));
    assert_eq!(request.tempo, Tempo::Slow);
}

#[test]
fn other_words_are_passed_over() {
    let request =
        parse_emit_args(&words(&["p", "extra", "--verbose", "--tempo", "fast", "tail"])).unwrap();
    assert_eq!(request.amp_text, None);
    assert_eq!(request.tempo, Tempo::Fast);

    let phrase_like_flag = parse_emit_args(&words(&["--amp", "0.3"])).unwrap();
    assert_eq!(phrase_like_flag.phrase, "--amp");
    assert_eq!(phrase_like_flag.amp_text, None);
}

#[test]
fn tempo_names() {
    assert_eq!(parse_tempo(&"fast".to_string()), Tempo::Fast);
    assert_eq!(parse_tempo(&"slow".to_string()), Tempo::Slow);
    assert_eq!(parse_tempo(&"urgent".to_string()), Tempo::Urgent);
    assert_eq!(parse_tempo(&"Fast".to_string()), Tempo::Slow);
    assert_eq!(parse_tempo(&"".to_string()), Tempo::Slow);
    assert_eq!(parse_tempo(&"fastest".to_string()), Tempo::Slow);
}

#[test]
fn packets_from_the_command_line() {
    let request = EmitRequest {
        phrase: "memory safety".to_string(),
        amp_text: Some("0.9".to_string()),
        tempo: Tempo::Fast,
    };
    let packet = build_packet(request, Some(900_000_000), 1_700_000_000_123);
    assert_eq!(packet.phrase, "memory safety");
    assert_eq!(packet.amp, 900_000_000);
    assert_eq!(packet.sigma, 1_000_000_000);
    assert_eq!(packet.polarity, Polarity::Attract);
    assert_eq!(packet.tempo, Tempo::Fast);
    assert_eq!(packet.provenance, "cli");
    assert_eq!(packet.agent_id, "human");
    assert_eq!(packet.rationale_hash, "cli_1700000000123");
    assert_eq!(packet.timestamp, 1_700_000_000_123);
}

#[test]
fn packets_without_a_readable_amplitude_get_one_half() {
    let request = EmitRequest { phrase: "p".to_string(), amp_text: None, tempo: Tempo::Slow };
    let packet = build_packet(request, None, 0);
    assert_eq!(packet.amp, DEFAULT_AMP);
    assert_eq!(packet.amp, 500_000_000);
    assert_eq!(packet.rationale_hash, "cli_0");

    let request = EmitRequest { phrase: "p".to_string(), amp_text: None, tempo: Tempo::Slow };
    assert_eq!(build_packet(request, None, u64::MAX).rationale_hash, "cli_18446744073709551615");
}
