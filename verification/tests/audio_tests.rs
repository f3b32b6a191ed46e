use hyprly::audio::append_transcript;

#[test]
fn drops_duplicate_and_overlapping_chunks() {
    let mut transcript = "We should review the numbers".to_string();
    assert!(!append_transcript(&mut transcript, "review the numbers"));
    assert!(append_transcript(
        &mut transcript,
        "the numbers again tomorrow"
    ));
    assert_eq!(transcript, "We should review the numbers again tomorrow");
}

#[test]
fn appends_to_blank_transcript_without_leading_space() {
    let mut transcript = "   ".to_string();
    assert!(append_transcript(&mut transcript, "  hello   world "));
    assert_eq!(transcript, "   hello world");
    assert!(!append_transcript(&mut transcript, "   "));
    assert_eq!(transcript, "   hello world");
}

#[test]
fn overlap_ignores_case_and_punctuation() {
    let mut transcript = "Let's ship it.".to_string();
    assert!(append_transcript(&mut transcript, "SHIP IT today"));
    assert_eq!(transcript, "Let's ship it. today");
    assert!(!append_transcript(&mut transcript, "today!"));
}

use hyprly::audio::{
    default_sink_id, is_u32_text, ChunkOrder, EndpointState, IngestOutcome, PipelineState,
    RecordingLimits,
};
use hyprly::config::AudioTiming;

#[test]
fn pipeline_ingests_and_resets_on_new_topic() {
    let mut state = PipelineState::new(true);
    let o = state.ingest("um, write Python code for the Two Sum algorithm");
    assert_eq!(o, IngestOutcome { topic_reset: false, appended: true, ends_sentence: false });
    assert_eq!(state.clean_transcript, "Write Python code for the Two Sum algorithm");
    let o = state.ingest("uh");
    assert_eq!(o, IngestOutcome { topic_reset: false, appended: false, ends_sentence: false });
    let o = state.ingest("Now write a SQL query to find duplicate emails");
    assert!(o.topic_reset && o.appended);
    assert_eq!(state.clean_transcript, "Now write a SQL query to find duplicate emails");
    assert!(state.has_transcript());
    state.clear();
    assert!(!state.has_transcript());
    assert_eq!(state.raw_transcript, "");
}

#[test]
fn transcript_is_capped_to_its_last_bytes() {
    let mut state = PipelineState::new(false);
    let mut text = String::new();
    for i in 0..3000 {
        text.push_str(&format!("w{} ", i));
    }
    let o = state.ingest(&text);
    assert!(o.appended && !o.ends_sentence);
    assert_eq!(state.raw_transcript.len(), 12000);
    assert!(state.raw_transcript.ends_with("w2998 w2999"));
    assert_eq!(state.clean_transcript, state.raw_transcript);
}

#[test]
fn chunks_are_released_in_order() {
    let mut order = ChunkOrder::new(0);
    assert!(order.accept(1, "b").is_empty());
    assert!(order.accept(2, "c").is_empty());
    assert_eq!(order.accept(0, "a"), vec!["a", "b", "c"]);
    assert_eq!(order.accept(3, "d"), vec!["d"]);
    assert!(order.accept(5, "f").is_empty());
    assert_eq!(order.skip(4), vec!["f"]);
    assert!(order.skip(7).is_empty());
    assert_eq!(order.accept(6, "g"), vec!["g"]);
    assert_eq!(order.accept(8, "i"), vec!["i"]);
    assert!(order.accept(10, "k").is_empty());
}

#[test]
fn cap_never_splits_a_character() {
    let mut state = PipelineState::new(false);
    let long: String = std::iter::repeat('é').take(6000).collect();
    let text = format!("{} abc.", long);
    let o = state.ingest(&text);
    assert!(o.appended && o.ends_sentence);
    assert!(state.raw_transcript.len() <= 12000);
    assert_eq!(state.raw_transcript.len(), 11999);
    assert!(state.raw_transcript.ends_with("é abc."));
    assert_eq!(state.clean_transcript, state.raw_transcript);
}

#[test]
fn endpoint_after_trailing_silence() {
    let timing = AudioTiming {
        chunk_seconds: 4,
        min_utterance_seconds: 1,
        max_utterance_seconds: 2,
        max_concurrent_transcriptions: 2,
        endpoint_silence_ms: 800,
        debounce_ms: 300,
    };
    let limits = RecordingLimits::from_timing(&timing);
    assert_eq!(
        limits,
        RecordingLimits {
            preferred_samples: 64_000,
            min_samples: 16_000,
            max_samples: 32_000,
            endpoint_silence_samples: 12_800,
        }
    );
    let mut st = EndpointState::new();
    let mut frames = 0;
    let mut endpoint = false;
    while st.wants_more(&limits) {
        let speech = frames < 5;
        frames += 1;
        if st.on_frame(&limits, speech, 1600) {
            endpoint = true;
            break;
        }
    }
    assert!(endpoint);
    assert_eq!(frames, 13);
    assert!(st.stop_requested(&limits, endpoint));

    let mut quiet = EndpointState::new();
    while quiet.wants_more(&limits) {
        assert!(!quiet.on_frame(&limits, false, 1600));
    }
    assert_eq!(quiet.recorded_samples, 32_000);
    assert!(quiet.stop_requested(&limits, false));
}

#[test]
fn finds_default_sink_in_wpctl_output() {
    let out = "Audio\n ├─ Devices:\n │      42. Built-in\n ├─ Sinks:\n │      50. Speakers [vol: 0.4]\n │  *   54. Headphones [vol: 1.0]\n ├─ Sources:\n │  *   60. Mic\n";
    assert_eq!(default_sink_id(out), Some("54".to_string()));
    assert_eq!(default_sink_id("├─ Sources:\n *  60. Mic"), None);
    assert_eq!(default_sink_id("├─ Sinks:\n * no dot here\n * 7. later"), None);
    assert_eq!(default_sink_id("├─ Sinks:\n * abc. x\n * 7. later"), Some("7".to_string()));
    assert!(is_u32_text(&"+12".chars().collect()));
    assert!(!is_u32_text(&"4294967296".chars().collect()));
    assert!(is_u32_text(&"4294967295".chars().collect()));
    assert!(!is_u32_text(&"+".chars().collect()));
}

#[test]
fn continuous_speech_ends_at_the_chunk_length() {
    let timing = AudioTiming {
        chunk_seconds: 2,
        min_utterance_seconds: 2,
        max_utterance_seconds: 10,
        max_concurrent_transcriptions: 2,
        endpoint_silence_ms: 500,
        debounce_ms: 300,
    };
    let limits = RecordingLimits::from_timing(&timing);
    let mut st = EndpointState::new();
    while st.wants_more(&limits) {
        assert!(!st.on_frame(&limits, true, 1600));
    }
    assert_eq!(st.recorded_samples, 32_000);
    assert!(st.stop_requested(&limits, false));
}

#[test]
fn published_transcript_stays_capped_across_a_run() {
    let mut state = PipelineState::new(false);
    for i in 0..400 {
        let text = format!("note{} wörd{} é{}", i, i, i);
        state.ingest(&text);
        assert!(state.clean_transcript.len() <= 12000);
        assert_eq!(state.clean_transcript, state.raw_transcript);
        if i == 200 {
            state.clear();
            assert_eq!(state.clean_transcript, "");
        }
    }
    assert!(state.clean_transcript.ends_with("wörd399 é399"));
}
