//! Embedding service: a deterministic map from text to unit vectors.
//!
//! The vector of a text is derived from SHA-256 digests of its canonical form,
//! so equal texts always embed alike and no model has to be loaded. Real
//! embedding models can stand in for it as long as they return unit vectors.

use crate::vector::{dot_prefix, dot_product, integer_sqrt, is_unit, isqrt, lemma_isqrt_bounds,
    similarity, ONE, SIM_ONE};
use sha2::{Digest, Sha256};
use vstd::bytes::{spec_u32_from_le_bytes, spec_u32_to_le_bytes, u32_from_le_bytes, u32_to_le_bytes};
use vstd::prelude::*;
use vstd::utf8::encode_utf8;

verus! {

/// Number of components of every embedding.
pub const EMBEDDING_DIM: usize = 768;

/// What `str::to_lowercase` returns for a text.
pub uninterp spec fn lowercased(text: Seq<char>) -> Seq<char>;

/// Whether a character is whitespace: whether it has the Unicode property
/// `White_Space`, which twenty-five characters have.
pub open spec fn is_white_space(c: char) -> bool {
    let code = c as u32;
    ||| 0x0009 <= code <= 0x000D
    ||| code == 0x0020
    ||| code == 0x0085
    ||| code == 0x00A0
    ||| code == 0x1680
    ||| 0x2000 <= code <= 0x200A
    ||| code == 0x2028
    ||| code == 0x2029
    ||| code == 0x202F
    ||| code == 0x205F
    ||| code == 0x3000
}

/// A text without its leading whitespace.
pub open spec fn trimmed_start(text: Seq<char>) -> Seq<char>
    decreases text.len(),
{
    if text.len() > 0 && is_white_space(text.first()) {
        trimmed_start(text.drop_first())
    } else {
        text
    }
}

/// A text without its trailing whitespace.
pub open spec fn trimmed_end(text: Seq<char>) -> Seq<char>
    decreases text.len(),
{
    if text.len() > 0 && is_white_space(text.last()) {
        trimmed_end(text.drop_last())
    } else {
        text
    }
}

/// A text without its leading and trailing whitespace.
pub open spec fn trimmed(text: Seq<char>) -> Seq<char> {
    trimmed_end(trimmed_start(text))
}

/// The SHA-256 digest of a byte string.
pub uninterp spec fn sha256_digest(data: Seq<u8>) -> Seq<u8>;

/// Calls `str::to_lowercase`. Trusted: the result is the lowercase form of
/// `text` as std computes it, a function of the text alone.
#[verifier::external_body]
fn to_lowercase(text: &str) -> (lowered: String)
    ensures
        lowered@ == lowercased(text@),
{
    text.to_lowercase()
}

/// Leading whitespace ends at position `i`.
proof fn lemma_trimmed_start(text: Seq<char>, i: int)
    requires
        0 <= i <= text.len(),
        forall|j: int| 0 <= j < i ==> is_white_space(#[trigger] text[j]),
        i == text.len() || !is_white_space(text[i]),
    ensures
        trimmed_start(text) == text.skip(i),
    decreases i,
{
    if i == 0 {
        assert(text.skip(0) =~= text);
    } else {
        let rest = text.drop_first();
        assert forall|j: int| 0 <= j < i - 1 implies is_white_space(#[trigger] rest[j]) by {
            assert(rest[j] == text[j + 1]);
        }
        lemma_trimmed_start(rest, i - 1);
        assert(rest.skip(i - 1) =~= text.skip(i));
    }
}

/// Trailing whitespace begins at position `k`.
proof fn lemma_trimmed_end(text: Seq<char>, k: int)
    requires
        0 <= k <= text.len(),
        forall|j: int| k <= j < text.len() ==> is_white_space(#[trigger] text[j]),
        k == 0 || !is_white_space(text[k - 1]),
    ensures
        trimmed_end(text) == text.take(k),
    decreases text.len() - k,
{
    if k == text.len() {
        assert(text.take(k) =~= text);
    } else {
        let rest = text.drop_last();
        assert forall|j: int| k <= j < rest.len() implies is_white_space(#[trigger] rest[j]) by {
            assert(rest[j] == text[j]);
        }
        lemma_trimmed_end(rest, k);
        assert(rest.take(k) =~= text.take(k));
    }
}

/// Whether a character is whitespace.
fn is_whitespace(c: char) -> (yes: bool)
    ensures
        yes == is_white_space(c),
{
    let code: u32 = c as u32;
    (0x0009 <= code && code <= 0x000D) || code == 0x0020 || code == 0x0085 || code == 0x00A0
        || code == 0x1680 || (0x2000 <= code && code <= 0x200A) || code == 0x2028 || code
        == 0x2029 || code == 0x202F || code == 0x205F || code == 0x3000
}

/// A text without its leading and trailing whitespace.
fn trim(text: &str) -> (inner: &str)
    ensures
        inner@ == trimmed(text@),
{
    let n = text.unicode_len();
    let mut start: usize = 0;
    let mut scanning = true;
    while scanning && start < n
        invariant
            start <= n,
            n == text@.len(),
            forall|j: int| 0 <= j < start ==> is_white_space(#[trigger] text@[j]),
            !scanning ==> start < n && !is_white_space(text@[start as int]),
        decreases (n - start) + (if scanning { 1int } else { 0int }),
    {
        if is_whitespace(text.get_char(start)) {
            start = start + 1;
        } else {
            scanning = false;
        }
    }
    let mut end: usize = n;
    let mut scanning = true;
    while scanning && end > start
        invariant
            start <= end <= n,
            n == text@.len(),
            forall|j: int| end <= j < n ==> is_white_space(#[trigger] text@[j]),
            !scanning ==> end > start && !is_white_space(text@[end - 1]),
        decreases end + (if scanning { 1int } else { 0int }),
    {
        if is_whitespace(text.get_char(end - 1)) {
            end = end - 1;
        } else {
            scanning = false;
        }
    }
    proof {
        let tail = text@.skip(start as int);
        lemma_trimmed_start(text@, start as int);
        assert forall|j: int| end - start <= j < tail.len() implies is_white_space(
            #[trigger] tail[j],
        ) by {
            assert(tail[j] == text@[j + start]);
        }
        lemma_trimmed_end(tail, end - start);
        assert(tail.take(end - start) =~= text@.subrange(start as int, end as int));
    }
    text.substring_char(start, end)
}

/// Calls `sha2::Sha256::digest`. Trusted: the result is the SHA-256 digest of
/// `data`, thirty-two bytes that depend on the data alone.
#[verifier::external_body]
fn sha256(data: &[u8]) -> (digest: [u8; 32])
    ensures
        digest@ == sha256_digest(data@),
{
    Sha256::digest(data).into()
}

/// The form of a text that decides its embedding: lowercase, then trimmed.
pub open spec fn canonical_text(text: Seq<char>) -> Seq<char> {
    trimmed(lowercased(text))
}

/// The digest from which all components of a text's embedding are drawn.
pub open spec fn seed_of(text: Seq<char>) -> Seq<u8> {
    sha256_digest(encode_utf8(canonical_text(text)))
}

/// The 32-bit word behind component `i`: the first four bytes, little-endian,
/// of the digest of the seed followed by `i` as four little-endian bytes.
pub open spec fn round_word(seed: Seq<u8>, i: u32) -> u32 {
    spec_u32_from_le_bytes(sha256_digest(seed + spec_u32_to_le_bytes(i)).subrange(0, 4))
}

/// Largest magnitude of a raw component.
pub const RAW_MAX: i64 = 0xffff_ffff;

/// A word mapped from `[0, 2^32 - 1]` onto `[-1, 1]`, counted in units of
/// `1 / (2^32 - 1)`. The result is odd, so never zero.
pub open spec fn raw_component(word: u32) -> i64 {
    (2 * word - RAW_MAX) as i64
}

/// The components of an embedding before it is scaled to unit length.
pub open spec fn raw_vector(seed: Seq<u8>) -> Seq<i64> {
    Seq::new(EMBEDDING_DIM as nat, |i: int| raw_component(round_word(seed, i as u32)))
}

/// Sum of the squares of the first `n` components.
pub open spec fn sum_sq_prefix(v: Seq<i64>, n: nat) -> int
    decreases n,
{
    if n == 0 {
        0
    } else {
        sum_sq_prefix(v, (n - 1) as nat) + v[n - 1] * v[n - 1]
    }
}

/// Squared Euclidean norm of a raw vector.
pub open spec fn sum_sq(v: Seq<i64>) -> int {
    sum_sq_prefix(v, v.len())
}

/// Magnitude of a component `r` of a vector with squared norm `q > 0` once the
/// vector is scaled to length `ONE`: `|r| * ONE / sqrt(q)`, rounded down.
pub open spec fn scaled_magnitude(r: int, q: int) -> nat {
    isqrt((r * r * SIM_ONE / q) as nat)
}

/// Component `r` of a vector with squared norm `q` after normalisation:
/// scaled to length `ONE` and rounded toward zero. The zero vector has no
/// direction and is left as it is.
pub open spec fn scaled_component(r: int, q: int) -> int {
    if q <= 0 {
        r
    } else if r >= 0 {
        scaled_magnitude(r, q) as int
    } else {
        -(scaled_magnitude(r, q) as int)
    }
}

/// A raw vector scaled to unit length, each component in billionths.
pub open spec fn normalized(v: Seq<i64>) -> Seq<i32> {
    Seq::new(v.len(), |i: int| scaled_component(v[i] as int, sum_sq(v)) as i32)
}

/// The embedding of a text.
pub open spec fn embedding(text: Seq<char>) -> Seq<i32> {
    normalized(raw_vector(seed_of(text)))
}

proof fn lemma_sum_sq_prefix_monotone(v: Seq<i64>, i: nat, n: nat)
    requires
        i <= n,
    ensures
        0 <= sum_sq_prefix(v, i) <= sum_sq_prefix(v, n),
    decreases n,
{
    if n == 0 {
    } else if i == n {
        lemma_sum_sq_prefix_monotone(v, (i - 1) as nat, (n - 1) as nat);
        assert(v[n - 1] * v[n - 1] >= 0) by (nonlinear_arith);
    } else {
        lemma_sum_sq_prefix_monotone(v, i, (n - 1) as nat);
        assert(v[n - 1] * v[n - 1] >= 0) by (nonlinear_arith);
    }
}

/// No square exceeds the sum of all squares.
proof fn lemma_square_within_sum(v: Seq<i64>, i: int)
    requires
        0 <= i < v.len(),
    ensures
        0 <= v[i] * v[i] <= sum_sq(v),
{
    lemma_sum_sq_prefix_monotone(v, i as nat, i as nat);
    lemma_sum_sq_prefix_monotone(v, (i + 1) as nat, v.len());
    assert(v[i] * v[i] >= 0) by (nonlinear_arith);
}

/// The scaled magnitude `c` of a component `r` is `|r| * ONE / sqrt(q)`
/// rounded down: `c * sqrt(q) <= |r| * ONE < (c + 1) * sqrt(q)`, stated here
/// with both sides squared. It is at most `ONE`.
pub proof fn lemma_scaled_magnitude(r: int, q: int)
    requires
        q > 0,
        r * r <= q,
    ensures
        scaled_magnitude(r, q) <= ONE,
        scaled_magnitude(r, q) * scaled_magnitude(r, q) * q <= r * r * SIM_ONE,
        (scaled_magnitude(r, q) + 1) * (scaled_magnitude(r, q) + 1) * q >= r * r * SIM_ONE + 1,
        r * r * SIM_ONE / q <= SIM_ONE,
        r * r * SIM_ONE / q >= 0,
{
    let m = r * r * SIM_ONE;
    let k = m / q;
    let c = scaled_magnitude(r, q);
    assert(0 <= m <= q * SIM_ONE) by (nonlinear_arith)
        requires
            m == r * r * SIM_ONE,
            r * r <= q,
            SIM_ONE == 1_000_000_000_000_000_000,
    ;
    assert(0 <= k <= SIM_ONE && k * q <= m < (k + 1) * q) by (nonlinear_arith)
        requires
            k == m / q,
            q > 0,
            0 <= m <= q * SIM_ONE,
    ;
    lemma_isqrt_bounds(k as nat);
    assert(c * c <= k < (c + 1) * (c + 1));
    assert(c <= ONE) by (nonlinear_arith)
        requires
            c * c <= k,
            k <= SIM_ONE,
            SIM_ONE == 1_000_000_000_000_000_000,
            ONE == 1_000_000_000,
    ;
    assert(c * c * q <= m) by (nonlinear_arith)
        requires
            c * c <= k,
            k * q <= m,
            q > 0,
    ;
    assert((c + 1) * (c + 1) * q >= m + 1) by (nonlinear_arith)
        requires
            (c + 1) * (c + 1) >= k + 1,
            (k + 1) * q >= m + 1,
            q > 0,
    ;
}

/// Scales a raw vector to unit length, each component rounded toward zero
/// to a whole number of billionths. The zero vector has no direction: it
/// comes back as it is.
pub fn normalize_vector(raw: &Vec<i64>) -> (unit: Vec<i32>)
    requires
        raw.len() <= 0xffff_ffff,
        forall|i: int| 0 <= i < raw.len() ==> -RAW_MAX <= #[trigger] raw[i] <= RAW_MAX,
    ensures
        unit@ == normalized(raw@),
{
    let n = raw.len();
    let mut q: u128 = 0;
    let mut i: usize = 0;
    while i < n
        invariant
            i <= n,
            n == raw.len(),
            n <= 0xffff_ffff,
            forall|j: int| 0 <= j < raw.len() ==> -RAW_MAX <= #[trigger] raw[j] <= RAW_MAX,
            q == sum_sq_prefix(raw@, i as nat),
            q <= i * (RAW_MAX * RAW_MAX),
        decreases n - i,
    {
        let r: i128 = raw[i] as i128;
        assert(0 <= r * r <= RAW_MAX * RAW_MAX) by (nonlinear_arith)
            requires
                -RAW_MAX <= r <= RAW_MAX,
        ;
        assert(i * (RAW_MAX * RAW_MAX) <= 0xffff_ffff * (RAW_MAX * RAW_MAX)) by (nonlinear_arith)
            requires
                i <= 0xffff_ffff,
        ;
        q = q + (r * r) as u128;
        i = i + 1;
        assert(i * (RAW_MAX * RAW_MAX) == (i - 1) * (RAW_MAX * RAW_MAX) + RAW_MAX * RAW_MAX)
            by (nonlinear_arith);
    }
    let mut unit: Vec<i32> = Vec::with_capacity(n);
    let mut i: usize = 0;
    while i < n
        invariant
            i <= n,
            n == raw.len(),
            forall|j: int| 0 <= j < raw.len() ==> -RAW_MAX <= #[trigger] raw[j] <= RAW_MAX,
            q == sum_sq(raw@),
            unit.len() == i,
            forall|j: int| 0 <= j < i ==> unit[j] == normalized(raw@)[j],
        decreases n - i,
    {
        let r: i64 = raw[i];
        proof {
            lemma_square_within_sum(raw@, i as int);
        }
        let c: i32 = if q == 0 {
            assert(r == 0) by (nonlinear_arith)
                requires
                    r * r <= 0,
            ;
            0
        } else {
            proof {
                lemma_scaled_magnitude(r as int, q as int);
            }
            let rr: i128 = r as i128;
            assert(0 <= rr * rr <= RAW_MAX * RAW_MAX) by (nonlinear_arith)
                requires
                    -RAW_MAX <= rr <= RAW_MAX,
            ;
            let m: u128 = (rr * rr) as u128 * (SIM_ONE as u128);
            let k: u64 = (m / q) as u64;
            let c: u32 = integer_sqrt(k);
            if r >= 0 {
                c as i32
            } else {
                -(c as i32)
            }
        };
        unit.push(c);
        i = i + 1;
    }
    assert(unit@ =~= normalized(raw@));
    unit
}

proof fn lemma_normalized_prefix(v: Seq<i64>, k: nat)
    requires
        sum_sq(v) > 0,
        k <= v.len(),
    ensures
        sum_sq(v) * dot_prefix(normalized(v), normalized(v), k) <= SIM_ONE * sum_sq_prefix(v, k),
        sum_sq(v) * (dot_prefix(normalized(v), normalized(v), k) + (2 * ONE + 1) * k) >= SIM_ONE
            * sum_sq_prefix(v, k) + k,
    decreases k,
{
    let q = sum_sq(v);
    let c = normalized(v);
    if k == 0 {
        assert(q * (0 + (2 * ONE + 1) * 0) >= SIM_ONE * 0 + 0) by (nonlinear_arith);
        assert(q * 0 <= SIM_ONE * 0) by (nonlinear_arith);
    } else {
        let j = (k - 1) as nat;
        lemma_normalized_prefix(v, j);
        lemma_square_within_sum(v, j as int);
        let r = v[j as int] as int;
        lemma_scaled_magnitude(r, q);
        let mag = scaled_magnitude(r, q) as int;
        let a0 = dot_prefix(c, c, j);
        let b0 = sum_sq_prefix(v, j);
        let t = c[j as int] * c[j as int];
        assert(c[j as int] == scaled_component(r, q) as i32);
        assert(t == mag * mag) by (nonlinear_arith)
            requires
                t == c[j as int] * c[j as int],
                c[j as int] == mag || c[j as int] == -mag,
        ;
        assert(q * (a0 + t) <= SIM_ONE * (b0 + r * r)) by (nonlinear_arith)
            requires
                q * a0 <= SIM_ONE * b0,
                t == mag * mag,
                mag * mag * q <= r * r * SIM_ONE,
        ;
        assert(q * (a0 + t + (2 * ONE + 1) * (j + 1)) >= SIM_ONE * (b0 + r * r) + (j + 1))
            by (nonlinear_arith)
            requires
                q * (a0 + (2 * ONE + 1) * j) >= SIM_ONE * b0 + j,
                t == mag * mag,
                0 <= mag <= ONE,
                q > 0,
                (mag + 1) * (mag + 1) * q >= r * r * SIM_ONE + 1,
        ;
    }
}

/// A vector that is not zero has unit length once normalised.
pub proof fn lemma_normalized_is_unit(v: Seq<i64>)
    requires
        sum_sq(v) > 0,
    ensures
        is_unit(normalized(v)),
{
    let q = sum_sq(v);
    let c = normalized(v);
    let n = v.len();
    lemma_normalized_prefix(v, n);
    let a = dot_prefix(c, c, n);
    assert(n >= 1);
    assert(a <= SIM_ONE) by (nonlinear_arith)
        requires
            q * a <= SIM_ONE * q,
            q > 0,
    ;
    assert(a + (2 * ONE + 1) * n > SIM_ONE) by (nonlinear_arith)
        requires
            q * (a + (2 * ONE + 1) * n) >= SIM_ONE * q + n,
            n >= 1,
            q > 0,
    ;
}

/// Texts with the same canonical form have the same embedding.
pub proof fn lemma_embedding_depends_on_canonical_text(a: Seq<char>, b: Seq<char>)
    requires
        canonical_text(a) == canonical_text(b),
    ensures
        embedding(a) == embedding(b),
{
}

/// Every embedding has `EMBEDDING_DIM` components and unit length.
pub proof fn lemma_embedding_is_unit(text: Seq<char>)
    ensures
        embedding(text).len() == EMBEDDING_DIM,
        is_unit(embedding(text)),
{
    let raw = raw_vector(seed_of(text));
    lemma_square_within_sum(raw, 0);
    assert(raw[0] * raw[0] > 0) by (nonlinear_arith)
        requires
            raw[0] != 0,
    ;
    lemma_normalized_is_unit(raw);
}

/// Embedding service that needs no model: vectors come from digests of the text.
pub struct EmbedService {
    _private: (),
}

impl EmbedService {
    pub fn new() -> (service: Self) {
        Self { _private: () }
    }

    /// Embeds a phrase as a unit vector of `EMBEDDING_DIM` components. The
    /// vector depends only on the text as lowercased and trimmed.
    pub fn embed(&self, text: &str) -> (vector: Vec<i32>)
        ensures
            vector@ == embedding(text@),
            vector.len() == EMBEDDING_DIM,
            is_unit(vector@),
    {
        let lowered = to_lowercase(text);
        let canonical = trim(lowered.as_str());
        let seed = sha256(canonical.as_bytes());

        let mut raw: Vec<i64> = Vec::with_capacity(EMBEDDING_DIM);
        let mut i: u32 = 0;
        while i < EMBEDDING_DIM as u32
            invariant
                i <= EMBEDDING_DIM,
                raw.len() == i,
                seed@ == seed_of(text@),
                forall|j: int| 0 <= j < i ==> raw[j] == #[trigger] raw_vector(seed@)[j],
            decreases EMBEDDING_DIM - i,
        {
            let mut block: Vec<u8> = Vec::with_capacity(36);
            let mut j: usize = 0;
            while j < 32
                invariant
                    j <= 32,
                    block@ == seed@.subrange(0, j as int),
                decreases 32 - j,
            {
                block.push(seed[j]);
                j = j + 1;
                assert(block@ =~= seed@.subrange(0, j as int));
            }
            let index_bytes = u32_to_le_bytes(i);
            let mut j: usize = 0;
            while j < 4
                invariant
                    j <= 4,
                    index_bytes.len() == 4,
                    block@ == seed@ + index_bytes@.subrange(0, j as int),
                decreases 4 - j,
            {
                block.push(index_bytes[j]);
                j = j + 1;
                assert(block@ =~= seed@ + index_bytes@.subrange(0, j as int));
            }
            assert(block@ =~= seed@ + spec_u32_to_le_bytes(i));
            let digest = sha256(block.as_slice());
            let mut head: Vec<u8> = Vec::with_capacity(4);
            head.push(digest[0]);
            head.push(digest[1]);
            head.push(digest[2]);
            head.push(digest[3]);
            assert(head@ =~= digest@.subrange(0, 4));
            let word = u32_from_le_bytes(head.as_slice());
            assert(word == round_word(seed@, i));
            raw.push(2 * (word as i64) - RAW_MAX);
            i = i + 1;
        }
        assert(raw@ =~= raw_vector(seed@));
        proof {
            lemma_embedding_is_unit(text@);
        }
        normalize_vector(&raw)
    }

    /// Cosine similarity of two vectors of one dimension. For unit vectors
    /// the cosine is the plain dot product, which is what this returns.
    pub fn cosine_similarity(a: &[i32], b: &[i32]) -> (sim: i64)
        requires
            a.len() == b.len(),
        ensures
            sim == similarity(a@, b@),
    {
        dot_product(a, b)
    }
}

impl Default for EmbedService {
    fn default() -> (service: Self) {
        Self::new()
    }
}

} // verus!
