//! Configuration defaults and the limits that loading enforces.
use vstd::prelude::*;
use crate::text::{from_chars, to_chars, trim_chars, trim_ws, TrimMode};

verus! {

/// Settings of the chat model.
#[derive(Clone, Debug)]
pub struct ApiConfig {
    pub model: String,
    pub max_tokens: u32,
    pub api_key: String,
}

impl Default for ApiConfig {
    fn default() -> (c: Self)
        ensures
            c.model@ == "openai/gpt-oss-20b"@,
            c.max_tokens == 1024,
            c.api_key@ == Seq::<char>::empty(),
    {
        ApiConfig { model: default_model(), max_tokens: default_max_tokens(), api_key: String::new() }
    }
}

/// The chat model used when none is configured.
pub fn default_model() -> (s: String)
    ensures
        s@ == "openai/gpt-oss-20b"@,
{
    "openai/gpt-oss-20b".to_owned()
}

/// The answer length limit used when none is configured.
pub fn default_max_tokens() -> (n: u32)
    ensures
        n == 1024,
{
    1024
}

/// The preferred recording chunk length, in seconds.
pub fn default_chunk_seconds() -> (n: u32)
    ensures
        n == 4,
{
    4
}

/// The shortest utterance cut at an endpoint, in seconds.
pub fn default_min_utterance_seconds() -> (n: u32)
    ensures
        n == 2,
{
    2
}

/// The longest recording chunk, in seconds.
pub fn default_max_utterance_seconds() -> (n: u32)
    ensures
        n == 10,
{
    10
}

/// The speech-to-text model used when none is configured.
pub fn default_transcription_model() -> (s: String)
    ensures
        s@ == "whisper-large-v3-turbo"@,
{
    "whisper-large-v3-turbo".to_owned()
}

/// How many transcriptions may run at once.
pub fn default_max_concurrent_transcriptions() -> (n: usize)
    ensures
        n == 2,
{
    2
}

/// The spoken language assumed when none is configured.
pub fn default_language() -> (s: String)
    ensures
        s@ == "en"@,
{
    "en".to_owned()
}

/// Whether silent chunks are skipped by default.
pub fn default_vad_enabled() -> (b: bool)
    ensures
        b,
{
    true
}

/// The trailing silence that ends an utterance, in milliseconds.
pub fn default_endpoint_silence_ms() -> (n: u64)
    ensures
        n == 900,
{
    900
}

/// How long the pipeline waits for more speech before answering, in milliseconds.
pub fn default_debounce_ms() -> (n: u64)
    ensures
        n == 300,
{
    300
}

/// Whether filler words are removed by default.
pub fn default_filler_filter() -> (b: bool)
    ensures
        b,
{
    true
}

/// `x` clamped into `[lo, hi]`.
pub open spec fn clamp(x: int, lo: int, hi: int) -> int {
    if x < lo {
        lo
    } else if x > hi {
        hi
    } else {
        x
    }
}

/// The integer timing settings of audio capture.
#[derive(Clone, Copy, Debug, PartialEq, Eq, Structural)]
pub struct AudioTiming {
    pub chunk_seconds: u32,
    pub min_utterance_seconds: u32,
    pub max_utterance_seconds: u32,
    pub max_concurrent_transcriptions: usize,
    pub endpoint_silence_ms: u64,
    pub debounce_ms: u64,
}

/// The timing settings after loading has forced them into their supported ranges.
pub open spec fn timing_within_limits(t: AudioTiming) -> bool {
    &&& 2 <= t.chunk_seconds <= 4
    &&& 1 <= t.min_utterance_seconds <= 4
    &&& t.min_utterance_seconds <= t.max_utterance_seconds <= 15
    &&& 1 <= t.max_concurrent_transcriptions <= 4
    &&& 100 <= t.endpoint_silence_ms <= 1500
    &&& 150 <= t.debounce_ms <= 700
}

/// `t` forced into the supported ranges: chunks of 2 to 4 seconds, utterances of at least
/// 1 to 4 and at most that minimum to 15 seconds, 1 to 4 concurrent transcriptions, 100 to
/// 1500 ms of endpoint silence and 150 to 700 ms of debounce.
pub open spec fn clamp_timing(t: AudioTiming) -> AudioTiming {
    let min_utt = clamp(t.min_utterance_seconds as int, 1, 4);
    AudioTiming {
        chunk_seconds: clamp(t.chunk_seconds as int, 2, 4) as u32,
        min_utterance_seconds: min_utt as u32,
        max_utterance_seconds: clamp(t.max_utterance_seconds as int, min_utt, 15) as u32,
        max_concurrent_transcriptions: clamp(t.max_concurrent_transcriptions as int, 1, 4) as usize,
        endpoint_silence_ms: clamp(t.endpoint_silence_ms as int, 100, 1500) as u64,
        debounce_ms: clamp(t.debounce_ms as int, 150, 700) as u64,
    }
}

impl AudioTiming {
    /// The settings forced into their supported ranges.
    pub fn clamped(self) -> (t: AudioTiming)
        ensures
            t == clamp_timing(self),
    {
        let min_utt = clamp_u32(self.min_utterance_seconds, 1, 4);
        AudioTiming {
            chunk_seconds: clamp_u32(self.chunk_seconds, 2, 4),
            min_utterance_seconds: min_utt,
            max_utterance_seconds: clamp_u32(self.max_utterance_seconds, min_utt, 15),
            max_concurrent_transcriptions: if self.max_concurrent_transcriptions < 1 {
                1
            } else if self.max_concurrent_transcriptions > 4 {
                4
            } else {
                self.max_concurrent_transcriptions
            },
            endpoint_silence_ms: clamp_u64(self.endpoint_silence_ms, 100, 1500),
            debounce_ms: clamp_u64(self.debounce_ms, 150, 700),
        }
    }
}

/// Whatever was configured, the clamped settings lie within the supported ranges.
pub proof fn lemma_clamped_within_limits(t: AudioTiming)
    ensures
        timing_within_limits(clamp_timing(t)),
{
}

/// Settings that already lie within the supported ranges are left as they are; so
/// clamping twice gives what clamping once gave.
pub proof fn lemma_clamp_keeps_valid_timing(t: AudioTiming)
    ensures
        timing_within_limits(t) ==> clamp_timing(t) == t,
        clamp_timing(clamp_timing(t)) == clamp_timing(t),
{
}

fn clamp_u32(x: u32, lo: u32, hi: u32) -> (r: u32)
    requires
        lo <= hi,
    ensures
        r == clamp(x as int, lo as int, hi as int),
{
    if x < lo {
        lo
    } else if x > hi {
        hi
    } else {
        x
    }
}

fn clamp_u64(x: u64, lo: u64, hi: u64) -> (r: u64)
    requires
        lo <= hi,
    ensures
        r == clamp(x as int, lo as int, hi as int),
{
    if x < lo {
        lo
    } else if x > hi {
        hi
    } else {
        x
    }
}

/// The API key to use: the configured one when set, otherwise the trimmed value of the
/// environment's key (empty when it has none).
pub open spec fn effective_api_key(configured: Seq<char>, from_env: Option<Seq<char>>) -> Seq<char> {
    if configured.len() > 0 {
        configured
    } else {
        match from_env {
            Some(k) => trim_ws(k),
            None => seq![],
        }
    }
}

/// The API key to use: `configured` unless it is empty, otherwise the trimmed
/// environment value, or the empty key.
pub fn resolve_api_key(configured: &str, from_env: Option<&str>) -> (k: String)
    ensures
        k@ == effective_api_key(
            configured@,
            match from_env {
                Some(e) => Some(e@),
                None => None,
            },
        ),
{
    if !configured.is_empty() {
        return configured.to_owned();
    }
    match from_env {
        Some(e) => {
            let v = to_chars(e);
            from_chars(&trim_chars(&v, TrimMode::Whitespace))
        },
        None => String::new(),
    }
}

} // verus!
