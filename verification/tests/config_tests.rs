use hyprly::config::{
    default_chunk_seconds, default_debounce_ms, default_endpoint_silence_ms, default_language,
    default_max_concurrent_transcriptions, default_max_tokens, default_max_utterance_seconds,
    default_min_utterance_seconds, default_model, default_transcription_model, default_vad_enabled,
    default_filler_filter, resolve_api_key, ApiConfig, AudioTiming,
};

#[test]
fn defaults() {
    let api = ApiConfig::default();
    assert_eq!(api.model, "openai/gpt-oss-20b");
    assert_eq!(api.max_tokens, 1024);
    assert_eq!(api.api_key, "");
    assert_eq!(default_model(), "openai/gpt-oss-20b");
    assert_eq!(default_max_tokens(), 1024);
    assert_eq!(default_chunk_seconds(), 4);
    assert_eq!(default_min_utterance_seconds(), 2);
    assert_eq!(default_max_utterance_seconds(), 10);
    assert_eq!(default_transcription_model(), "whisper-large-v3-turbo");
    assert_eq!(default_max_concurrent_transcriptions(), 2);
    assert_eq!(default_language(), "en");
    assert!(default_vad_enabled());
    assert_eq!(default_endpoint_silence_ms(), 900);
    assert_eq!(default_debounce_ms(), 300);
    assert!(default_filler_filter());
}

#[test]
fn timing_is_clamped() {
    let t = AudioTiming {
        chunk_seconds: 9,
        min_utterance_seconds: 0,
        max_utterance_seconds: 0,
        max_concurrent_transcriptions: 0,
        endpoint_silence_ms: 5,
        debounce_ms: 10_000,
    }
    .clamped();
    assert_eq!(
        t,
        AudioTiming {
            chunk_seconds: 4,
            min_utterance_seconds: 1,
            max_utterance_seconds: 1,
            max_concurrent_transcriptions: 1,
            endpoint_silence_ms: 100,
            debounce_ms: 700,
        }
    );
    let d = AudioTiming {
        chunk_seconds: 4,
        min_utterance_seconds: 2,
        max_utterance_seconds: 10,
        max_concurrent_transcriptions: 2,
        endpoint_silence_ms: 900,
        debounce_ms: 300,
    };
    assert_eq!(d.clamped(), d);
    let hi = AudioTiming { max_utterance_seconds: 99, max_concurrent_transcriptions: 9, ..d }.clamped();
    assert_eq!(hi.max_utterance_seconds, 15);
    assert_eq!(hi.max_concurrent_transcriptions, 4);
}

#[test]
fn api_key_falls_back_to_environment() {
    assert_eq!(resolve_api_key("gsk_conf", Some("gsk_env")), "gsk_conf");
    assert_eq!(resolve_api_key("", Some("  gsk_env \n")), "gsk_env");
    assert_eq!(resolve_api_key("", None), "");
}

#[test]
fn clamping_twice_is_clamping_once() {
    let t = AudioTiming {
        chunk_seconds: 1,
        min_utterance_seconds: 7,
        max_utterance_seconds: 3,
        max_concurrent_transcriptions: 100,
        endpoint_silence_ms: 2_000,
        debounce_ms: 0,
    };
    let once = t.clamped();
    assert_eq!(
        once,
        AudioTiming {
            chunk_seconds: 2,
            min_utterance_seconds: 4,
            max_utterance_seconds: 4,
            max_concurrent_transcriptions: 4,
            endpoint_silence_ms: 1_500,
            debounce_ms: 150,
        }
    );
    assert_eq!(once.clamped(), once);
}

#[test]
fn documented_endpoint_silence_is_kept() {
    let t = AudioTiming {
        chunk_seconds: 2,
        min_utterance_seconds: 2,
        max_utterance_seconds: 10,
        max_concurrent_transcriptions: 2,
        endpoint_silence_ms: 500,
        debounce_ms: 300,
    };
    assert_eq!(t.clamped().endpoint_silence_ms, 500);
    assert_eq!(t.clamped(), t);
}
