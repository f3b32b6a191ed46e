use hyprly::audio::PipelineState;
use hyprly::schedule::{
    on_event, pipeline_start, AnswerPhase, PipelineEvent, PipelineStart, ReplyAction, Scheduler,
};

#[test]
fn new_words_arm_the_deadline_and_sentence_ends_answer_at_once() {
    let s = Scheduler::new();
    let (s, a) = on_event(
        s,
        PipelineEvent::Transcribed { topic_reset: false, appended: true, ends_sentence: false },
    );
    assert!(a.arm_deadline && !a.start_answer && !a.cancel_answer);
    assert!(s.deadline_armed);
    let (s, a) = on_event(
        s,
        PipelineEvent::Transcribed { topic_reset: false, appended: true, ends_sentence: true },
    );
    assert!(a.start_answer && !a.cancel_answer && !a.arm_deadline);
    assert_eq!(s, Scheduler { deadline_armed: false, phase: AnswerPhase::Streaming, generation: 1 });
}

#[test]
fn deadline_starts_an_answer_that_replaces_the_one_in_flight() {
    let s = Scheduler { deadline_armed: true, phase: AnswerPhase::Streaming, generation: 4 };
    let (t, a) = on_event(s, PipelineEvent::DeadlineReached { has_transcript: true });
    assert!(a.start_answer && a.cancel_answer);
    assert_eq!(t.generation, 5);
    let (u, a) = on_event(t, PipelineEvent::DeadlineReached { has_transcript: true });
    assert!(!a.start_answer);
    assert_eq!(u, t);
    let armed = Scheduler { deadline_armed: true, phase: AnswerPhase::Idle, generation: 0 };
    let (v, a) = on_event(armed, PipelineEvent::DeadlineReached { has_transcript: false });
    assert!(!a.start_answer && !v.deadline_armed);
}

#[test]
fn bad_reply_is_retried_once_then_shown_raw() {
    let s = Scheduler { deadline_armed: false, phase: AnswerPhase::Streaming, generation: 2 };
    let (s, a) = on_event(s, PipelineEvent::Reply { generation: 2, parsed: false });
    assert_eq!(a.reply, ReplyAction::Retry);
    assert_eq!(s.phase, AnswerPhase::Retrying);
    let (t, a) = on_event(s, PipelineEvent::Reply { generation: 2, parsed: false });
    assert_eq!(a.reply, ReplyAction::ShowRaw);
    assert_eq!(t.phase, AnswerPhase::Idle);
    let (_, a) = on_event(s, PipelineEvent::Reply { generation: 2, parsed: true });
    assert_eq!(a.reply, ReplyAction::Deliver);
    let (_, a) = on_event(s, PipelineEvent::ReplyFailed { generation: 2 });
    assert_eq!(a.reply, ReplyAction::ShowRaw);
}

#[test]
fn failed_first_request_and_stale_replies() {
    let s = Scheduler { deadline_armed: false, phase: AnswerPhase::Streaming, generation: 7 };
    let (t, a) = on_event(s, PipelineEvent::ReplyFailed { generation: 7 });
    assert_eq!(a.reply, ReplyAction::ShowError);
    assert_eq!(t.phase, AnswerPhase::Idle);
    let (u, a) = on_event(s, PipelineEvent::Reply { generation: 6, parsed: true });
    assert_eq!(a.reply, ReplyAction::Nothing);
    assert_eq!(u, s);
    let (v, a) = on_event(
        s,
        PipelineEvent::Transcribed { topic_reset: true, appended: false, ends_sentence: false },
    );
    assert!(a.cancel_answer && !a.start_answer);
    assert_eq!(v.phase, AnswerPhase::Idle);
}

#[test]
fn pipeline_runs_only_when_enabled_with_a_key() {
    assert_eq!(pipeline_start(false, "gsk"), PipelineStart::Disabled);
    assert_eq!(pipeline_start(true, ""), PipelineStart::MissingApiKey);
    assert_eq!(pipeline_start(true, "gsk"), PipelineStart::Run);
}

#[test]
fn finished_sentence_starts_an_answer_at_once() {
    let mut state = PipelineState::new(true);
    let o = state.ingest("what is a hash map?");
    assert!(o.appended && o.ends_sentence);
    let (s, a) = on_event(
        Scheduler::new(),
        PipelineEvent::Transcribed {
            topic_reset: o.topic_reset,
            appended: o.appended,
            ends_sentence: o.ends_sentence,
        },
    );
    assert!(a.start_answer && !a.arm_deadline);
    assert_eq!(s.phase, AnswerPhase::Streaming);
    let o = state.ingest("and how does it grow");
    assert!(o.appended && !o.ends_sentence);
}
