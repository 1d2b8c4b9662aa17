//! The command line's rules: what the arguments of `emit` mean and which
//! packet they make. Reading the clock and printing are left to the caller.

use crate::clustering::names::{append_decimal, decimal};
use crate::types::{texts, ConceptPacket, Polarity, Tempo};
use crate::vector::ONE;
use vstd::prelude::*;

verus! {

/// Confidence of a packet whose `--amp` is missing or unreadable: one half.
pub const DEFAULT_AMP: i32 = 500_000_000;

/// What the arguments of `emit` ask for.
pub struct EmitRequest {
    pub phrase: String,
    /// The value given to the last `--amp`, as written.
    pub amp_text: Option<String>,
    pub tempo: Tempo,
}

/// An `emit` request as mathematical values.
pub struct EmitRequestView {
    pub phrase: Seq<char>,
    pub amp_text: Option<Seq<char>>,
    pub tempo: Tempo,
}

impl View for EmitRequest {
    type V = EmitRequestView;

    open spec fn view(&self) -> EmitRequestView {
        EmitRequestView {
            phrase: self.phrase@,
            amp_text: match self.amp_text {
                Some(text) => Some(text@),
                None => None,
            },
            tempo: self.tempo,
        }
    }
}

/// The word `--amp`.
pub open spec fn amp_flag() -> Seq<char> {
    seq!['-', '-', 'a', 'm', 'p']
}

/// The word `--tempo`.
pub open spec fn tempo_flag() -> Seq<char> {
    seq!['-', '-', 't', 'e', 'm', 'p', 'o']
}

/// The tempo that a word names; any word but `fast` and `urgent` means slow.
pub open spec fn tempo_named(name: Seq<char>) -> Tempo {
    if name == seq!['f', 'a', 's', 't'] {
        Tempo::Fast
    } else if name == seq!['u', 'r', 'g', 'e', 'n', 't'] {
        Tempo::Urgent
    } else {
        Tempo::Slow
    }
}

/// The options read from position `from` on, starting from the values that
/// hold so far. A flag takes the word after it; a flag in last place and any
/// other word are passed over. Of a repeated flag the last one counts.
pub open spec fn scan_options(
    args: Seq<Seq<char>>,
    from: int,
    amp_text: Option<Seq<char>>,
    tempo: Tempo,
) -> (Option<Seq<char>>, Tempo)
    decreases args.len() - from,
{
    if from < 0 || from >= args.len() {
        (amp_text, tempo)
    } else if args[from] == amp_flag() && from + 1 < args.len() {
        scan_options(args, from + 2, Some(args[from + 1]), tempo)
    } else if args[from] == tempo_flag() && from + 1 < args.len() {
        scan_options(args, from + 2, amp_text, tempo_named(args[from + 1]))
    } else {
        scan_options(args, from + 1, amp_text, tempo)
    }
}

/// What the arguments of `emit` ask for: the first is the phrase, the rest
/// are options. Without `--tempo` the tempo is slow.
pub open spec fn emit_request(args: Seq<Seq<char>>) -> EmitRequestView {
    let options = scan_options(args, 1, None, Tempo::Slow);
    EmitRequestView { phrase: args[0], amp_text: options.0, tempo: options.1 }
}

/// The tempo that a word names.
pub fn parse_tempo(name: &String) -> (tempo: Tempo)
    ensures
        tempo == tempo_named(name@),
{
    proof {
        reveal_strlit("fast");
        reveal_strlit("urgent");
    }
    let fast = String::from_str("fast");
    let urgent = String::from_str("urgent");
    assert(fast@ =~= seq!['f', 'a', 's', 't']);
    assert(urgent@ =~= seq!['u', 'r', 'g', 'e', 'n', 't']);
    if *name == fast {
        Tempo::Fast
    } else if *name == urgent {
        Tempo::Urgent
    } else {
        Tempo::Slow
    }
}

/// Reads the arguments of `emit`. `None` where the phrase is missing.
pub fn parse_emit_args(args: &Vec<String>) -> (request: Option<EmitRequest>)
    ensures
        match request {
            Some(r) => args.len() > 0 && r@ == emit_request(texts(args@)),
            None => args.len() == 0,
        },
{
    if args.len() == 0 {
        return None;
    }
    proof {
        reveal_strlit("--amp");
        reveal_strlit("--tempo");
    }
    let amp_word = String::from_str("--amp");
    let tempo_word = String::from_str("--tempo");
    assert(amp_word@ =~= amp_flag());
    assert(tempo_word@ =~= tempo_flag());
    let ghost words = texts(args@);
    let mut amp_text: Option<String> = None;
    let mut tempo = Tempo::Slow;
    let mut i: usize = 1;
    while i < args.len()
        invariant
            1 <= i <= args.len(),
            words == texts(args@),
            amp_word@ == amp_flag(),
            tempo_word@ == tempo_flag(),
            scan_options(
                words,
                i as int,
                match amp_text {
                    Some(text) => Some(text@),
                    None => None,
                },
                tempo,
            ) == scan_options(words, 1, None, Tempo::Slow),
        decreases args.len() - i,
    {
        assert(words[i as int] == args[i as int]@);
        if args[i] == amp_word && i + 1 < args.len() {
            assert(words[i + 1] == args[i + 1]@);
            amp_text = Some(args[i + 1].clone());
            i = i + 2;
        } else if args[i] == tempo_word && i + 1 < args.len() {
            assert(words[i + 1] == args[i + 1]@);
            tempo = parse_tempo(&args[i + 1]);
            i = i + 2;
        } else {
            i = i + 1;
        }
    }
    Some(EmitRequest { phrase: args[0].clone(), amp_text, tempo })
}

/// The word `cli`.
pub open spec fn cli_word() -> Seq<char> {
    seq!['c', 'l', 'i']
}

/// The word `human`.
pub open spec fn human_word() -> Seq<char> {
    seq!['h', 'u', 'm', 'a', 'n']
}

/// The rationale hash of a packet emitted from the command line at `now`.
pub open spec fn cli_hash(now: u64) -> Seq<char> {
    seq!['c', 'l', 'i', '_'] + decimal(now as nat)
}

/// The packet that an `emit` request makes at time `now`. `amp` is the
/// request's `--amp` as a number of billionths, where it was given and could
/// be read.
pub fn build_packet(request: EmitRequest, amp: Option<i32>, now: u64) -> (packet: ConceptPacket)
    ensures
        packet.phrase@ == request.phrase@,
        packet.amp == (match amp {
            Some(given) => given,
            None => DEFAULT_AMP,
        }),
        packet.sigma == ONE,
        packet.polarity == Polarity::Attract,
        packet.tempo == request.tempo,
        packet.provenance@ == cli_word(),
        packet.agent_id@ == human_word(),
        packet.rationale_hash@ == cli_hash(now),
        packet.timestamp == now,
{
    proof {
        reveal_strlit("cli");
        reveal_strlit("human");
        reveal_strlit("cli_");
    }
    let provenance = String::from_str("cli");
    let agent_id = String::from_str("human");
    let mut rationale_hash = String::from_str("cli_");
    assert(provenance@ =~= cli_word());
    assert(agent_id@ =~= human_word());
    assert(rationale_hash@ =~= seq!['c', 'l', 'i', '_']);
    append_decimal(&mut rationale_hash, now);
    ConceptPacket {
        phrase: request.phrase,
        amp: match amp {
            Some(given) => given,
            None => DEFAULT_AMP,
        },
        sigma: ONE as i64,
        polarity: Polarity::Attract,
        tempo: request.tempo,
        provenance,
        agent_id,
        rationale_hash,
        timestamp: now,
    }
}

} // verus!
