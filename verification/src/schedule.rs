//! When the meeting pipeline asks the model: the debounce deadline, answers in flight,
//! and what becomes of each reply.
use vstd::prelude::*;

verus! {

/// Where the answer in flight stands.
#[derive(Clone, Copy, Debug, PartialEq, Eq, Structural)]
pub enum AnswerPhase {
    /// No answer is in flight.
    Idle,
    /// The first reply is streaming.
    Streaming,
    /// The first reply was not valid JSON; the retry is streaming.
    Retrying,
}

/// The scheduling state of the pipeline.
#[derive(Clone, Copy, Debug, PartialEq, Eq, Structural)]
pub struct Scheduler {
    /// The debounce deadline is armed.
    pub deadline_armed: bool,
    /// The answer in flight, if any.
    pub phase: AnswerPhase,
    /// The number of the latest answer; replies to earlier ones are stale.
    pub generation: u64,
}

/// What happens to the pipeline.
#[derive(Clone, Copy, Debug, PartialEq, Eq, Structural)]
pub enum PipelineEvent {
    /// A transcription was taken in: it changed the topic, appended words, and the
    /// published transcript now ends a sentence.
    Transcribed { topic_reset: bool, appended: bool, ends_sentence: bool },
    /// The debounce deadline passed; whether there is a transcript to answer.
    DeadlineReached { has_transcript: bool },
    /// A reply to answer `generation` finished streaming; whether it parsed as an answer.
    Reply { generation: u64, parsed: bool },
    /// The request for answer `generation` failed.
    ReplyFailed { generation: u64 },
}

/// What to do with a finished reply.
#[derive(Clone, Copy, Debug, PartialEq, Eq, Structural)]
pub enum ReplyAction {
    /// Nothing: no reply was handled.
    Nothing,
    /// Show the parsed answer.
    Deliver,
    /// Ask the model once more to repair the first reply.
    Retry,
    /// Show the first reply's raw text as a plain answer.
    ShowRaw,
    /// Report the failure and show the last good answer.
    ShowError,
}

/// What the pipeline does after an event.
#[derive(Clone, Copy, Debug, PartialEq, Eq, Structural)]
pub struct PipelineAction {
    /// Cancel the answer in flight.
    pub cancel_answer: bool,
    /// Arm the debounce deadline anew.
    pub arm_deadline: bool,
    /// Start a fresh answer, numbered with the new state's generation.
    pub start_answer: bool,
    /// What to do with a finished reply.
    pub reply: ReplyAction,
}

/// No action.
pub open spec fn no_action() -> PipelineAction {
    PipelineAction { cancel_answer: false, arm_deadline: false, start_answer: false, reply: ReplyAction::Nothing }
}

/// The number after `g`, wrapping around.
pub open spec fn next_generation(g: u64) -> u64 {
    if g == u64::MAX {
        0
    } else {
        (g + 1) as u64
    }
}

/// A fresh answer starts: the one in flight is cancelled, the deadline disarmed.
pub open spec fn start_fresh(s: Scheduler) -> (Scheduler, PipelineAction) {
    (
        Scheduler { deadline_armed: false, phase: AnswerPhase::Streaming, generation: next_generation(s.generation) },
        PipelineAction {
            cancel_answer: s.phase != AnswerPhase::Idle,
            arm_deadline: false,
            start_answer: true,
            reply: ReplyAction::Nothing,
        },
    )
}

/// The next state and action:
/// - new words that end a sentence start an answer at once; other new words arm the
///   deadline; a change of topic cancels the answer in flight;
/// - an armed deadline that passes with a transcript starts an answer, cancelling the one
///   in flight;
/// - a parsed reply to the latest answer is delivered; an unparsed first reply asks for a
///   retry; an unparsed or failed retry falls back to the first reply's raw text; a failed
///   first request is reported; replies to earlier answers are ignored.
pub open spec fn scheduler_step(s: Scheduler, e: PipelineEvent) -> (Scheduler, PipelineAction) {
    match e {
        PipelineEvent::Transcribed { topic_reset, appended, ends_sentence } => {
            if appended && ends_sentence {
                start_fresh(s)
            } else {
                let in_flight = s.phase != AnswerPhase::Idle;
                (
                    Scheduler {
                        deadline_armed: s.deadline_armed || appended,
                        phase: if topic_reset { AnswerPhase::Idle } else { s.phase },
                        generation: s.generation,
                    },
                    PipelineAction {
                        cancel_answer: topic_reset && in_flight,
                        arm_deadline: appended,
                        start_answer: false,
                        reply: ReplyAction::Nothing,
                    },
                )
            }
        },
        PipelineEvent::DeadlineReached { has_transcript } => {
            if !s.deadline_armed {
                (s, no_action())
            } else if has_transcript {
                start_fresh(s)
            } else {
                (Scheduler { deadline_armed: false, ..s }, no_action())
            }
        },
        PipelineEvent::Reply { generation, parsed } => {
            if generation != s.generation || s.phase == AnswerPhase::Idle {
                (s, no_action())
            } else if parsed {
                (Scheduler { phase: AnswerPhase::Idle, ..s }, PipelineAction { reply: ReplyAction::Deliver, ..no_action() })
            } else if s.phase == AnswerPhase::Streaming {
                (Scheduler { phase: AnswerPhase::Retrying, ..s }, PipelineAction { reply: ReplyAction::Retry, ..no_action() })
            } else {
                (Scheduler { phase: AnswerPhase::Idle, ..s }, PipelineAction { reply: ReplyAction::ShowRaw, ..no_action() })
            }
        },
        PipelineEvent::ReplyFailed { generation } => {
            if generation != s.generation || s.phase == AnswerPhase::Idle {
                (s, no_action())
            } else if s.phase == AnswerPhase::Streaming {
                (Scheduler { phase: AnswerPhase::Idle, ..s }, PipelineAction { reply: ReplyAction::ShowError, ..no_action() })
            } else {
                (Scheduler { phase: AnswerPhase::Idle, ..s }, PipelineAction { reply: ReplyAction::ShowRaw, ..no_action() })
            }
        },
    }
}

impl Scheduler {
    /// Nothing armed, nothing in flight.
    pub fn new() -> (s: Self)
        ensures
            !s.deadline_armed,
            s.phase == AnswerPhase::Idle,
            s.generation == 0,
    {
        Scheduler { deadline_armed: false, phase: AnswerPhase::Idle, generation: 0 }
    }
}

fn nothing() -> (a: PipelineAction)
    ensures
        a == no_action(),
{
    PipelineAction { cancel_answer: false, arm_deadline: false, start_answer: false, reply: ReplyAction::Nothing }
}

fn fresh(s: Scheduler) -> (r: (Scheduler, PipelineAction))
    ensures
        r == start_fresh(s),
{
    let g = if s.generation == u64::MAX { 0 } else { s.generation + 1 };
    (
        Scheduler { deadline_armed: false, phase: AnswerPhase::Streaming, generation: g },
        PipelineAction {
            cancel_answer: s.phase != AnswerPhase::Idle,
            arm_deadline: false,
            start_answer: true,
            reply: ReplyAction::Nothing,
        },
    )
}

/// The scheduling decision for one event.
pub fn on_event(s: Scheduler, e: PipelineEvent) -> (r: (Scheduler, PipelineAction))
    ensures
        r == scheduler_step(s, e),
{
    let idle = s.phase == AnswerPhase::Idle;
    match e {
        PipelineEvent::Transcribed { topic_reset, appended, ends_sentence } => {
            if appended && ends_sentence {
                fresh(s)
            } else {
                (
                    Scheduler {
                        deadline_armed: s.deadline_armed || appended,
                        phase: if topic_reset { AnswerPhase::Idle } else { s.phase },
                        generation: s.generation,
                    },
                    PipelineAction {
                        cancel_answer: topic_reset && !idle,
                        arm_deadline: appended,
                        start_answer: false,
                        reply: ReplyAction::Nothing,
                    },
                )
            }
        },
        PipelineEvent::DeadlineReached { has_transcript } => {
            if !s.deadline_armed {
                (s, nothing())
            } else if has_transcript {
                fresh(s)
            } else {
                (Scheduler { deadline_armed: false, phase: s.phase, generation: s.generation }, nothing())
            }
        },
        PipelineEvent::Reply { generation, parsed } => {
            if generation != s.generation || idle {
                (s, nothing())
            } else {
                let (phase, reply) = if parsed {
                    (AnswerPhase::Idle, ReplyAction::Deliver)
                } else if s.phase == AnswerPhase::Streaming {
                    (AnswerPhase::Retrying, ReplyAction::Retry)
                } else {
                    (AnswerPhase::Idle, ReplyAction::ShowRaw)
                };
                (
                    Scheduler { deadline_armed: s.deadline_armed, phase, generation: s.generation },
                    PipelineAction { cancel_answer: false, arm_deadline: false, start_answer: false, reply },
                )
            }
        },
        PipelineEvent::ReplyFailed { generation } => {
            if generation != s.generation || idle {
                (s, nothing())
            } else {
                let reply = if s.phase == AnswerPhase::Streaming {
                    ReplyAction::ShowError
                } else {
                    ReplyAction::ShowRaw
                };
                (
                    Scheduler { deadline_armed: s.deadline_armed, phase: AnswerPhase::Idle, generation: s.generation },
                    PipelineAction { cancel_answer: false, arm_deadline: false, start_answer: false, reply },
                )
            }
        },
    }
}

/// A change of topic drops the answer for the old topic: unless it starts a fresh answer,
/// a transcription that changed the topic cancels the answer in flight (exactly when one
/// is) and leaves none in flight, whether or not it appended words; and if it does start
/// one, the old one is cancelled all the same.
pub proof fn lemma_topic_change_cancels_answer(
    s: Scheduler,
    appended: bool,
    ends_sentence: bool,
)
    ensures
        ({
            let (t, a) = scheduler_step(
                s,
                PipelineEvent::Transcribed { topic_reset: true, appended, ends_sentence },
            );
            &&& !a.start_answer ==> a.cancel_answer == (s.phase != AnswerPhase::Idle) && t.phase
                == AnswerPhase::Idle
            &&& a.start_answer ==> a.cancel_answer == (s.phase != AnswerPhase::Idle) && t.generation
                != s.generation
            &&& t.generation != s.generation || t.phase == AnswerPhase::Idle
        }),
{
}

/// Replies to an answer other than the latest change nothing and do nothing.
pub proof fn lemma_stale_reply_ignored(s: Scheduler, generation: u64, parsed: bool)
    requires
        generation != s.generation,
    ensures
        scheduler_step(s, PipelineEvent::Reply { generation, parsed }) == (s, no_action()),
        scheduler_step(s, PipelineEvent::ReplyFailed { generation }) == (s, no_action()),
{
}

/// At most one answer is in flight: whenever an answer starts, the one in flight (if
/// any) is cancelled, and the new one gets a new number.
pub proof fn lemma_one_answer_at_a_time(s: Scheduler, e: PipelineEvent)
    ensures
        ({
            let (t, a) = scheduler_step(s, e);
            a.start_answer ==> {
                &&& a.cancel_answer == (s.phase != AnswerPhase::Idle)
                &&& t.phase == AnswerPhase::Streaming
                &&& t.generation != s.generation
                &&& !t.deadline_armed
            }
        }),
{
}

/// A reply is retried at most once: an unparsed or failed retry falls back to the raw
/// text and leaves nothing in flight.
pub proof fn lemma_retry_at_most_once(s: Scheduler, e: PipelineEvent)
    requires
        s.phase == AnswerPhase::Retrying,
    ensures
        ({
            let (t, a) = scheduler_step(s, e);
            &&& a.reply != ReplyAction::Retry
            &&& a.reply == ReplyAction::ShowRaw ==> t.phase == AnswerPhase::Idle
        }),
{
}

/// Words that end a sentence start an answer at once; other new words arm the deadline
/// and start nothing.
pub proof fn lemma_sentence_end_answers_at_once(s: Scheduler, topic_reset: bool, ends_sentence: bool)
    ensures
        ({
            let (t, a) = scheduler_step(
                s,
                PipelineEvent::Transcribed { topic_reset, appended: true, ends_sentence },
            );
            &&& ends_sentence ==> a.start_answer && !a.arm_deadline
            &&& !ends_sentence ==> !a.start_answer && a.arm_deadline && t.deadline_armed
        }),
{
}

/// Whether the meeting pipeline runs: not when audio capture is disabled, and not without
/// an API key.
#[derive(Clone, Copy, Debug, PartialEq, Eq, Structural)]
pub enum PipelineStart {
    Disabled,
    MissingApiKey,
    Run,
}

/// Decides whether the meeting pipeline runs.
pub fn pipeline_start(enabled: bool, api_key: &str) -> (r: PipelineStart)
    ensures
        r == (if !enabled {
            PipelineStart::Disabled
        } else if api_key@.len() == 0 {
            PipelineStart::MissingApiKey
        } else {
            PipelineStart::Run
        }),
{
    if !enabled {
        return PipelineStart::Disabled;
    }
    let k = crate::text::to_chars(api_key);
    if k.len() == 0 {
        PipelineStart::MissingApiKey
    } else {
        PipelineStart::Run
    }
}

/// A transcription whose cleaned text ends a sentence and that appends words starts an
/// answer at once, whatever the scheduler was doing.
pub proof fn lemma_finished_sentence_starts_answer(
    raw: Seq<char>,
    published: Seq<char>,
    text: Seq<char>,
    config: crate::transcript::CleanConfig,
    s: Scheduler,
)
    requires
        crate::audio::ingested(raw, published, text, config).2.appended,
        crate::audio::ends_with_sentence_end(
            crate::text::trim_ws(crate::transcript::cleaned(text, config)),
        ),
    ensures
        ({
            let o = crate::audio::ingested(raw, published, text, config).2;
            let (t, a) = scheduler_step(
                s,
                PipelineEvent::Transcribed {
                    topic_reset: o.topic_reset,
                    appended: o.appended,
                    ends_sentence: o.ends_sentence,
                },
            );
            &&& a.start_answer
            &&& !a.arm_deadline
            &&& t.phase == AnswerPhase::Streaming
        }),
{
}

} // verus!
