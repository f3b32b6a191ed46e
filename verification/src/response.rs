//! The structured answer the model is asked for: its schema prompt, the retry request,
//! and where the JSON object sits in a reply.
use vstd::prelude::*;
use crate::api::ChatMessage;
use crate::text::{slice_chars, to_chars, from_chars};

verus! {

/// The kind of answer the model gives.
#[derive(Debug, Clone, PartialEq, Eq, Structural)]
pub enum ResponseType {
    DirectAnswer,
    TalkingPoint,
    QuestionSuggestion,
    Summary,
    Code,
    Definition,
    FollowUp,
}

/// A code snippet in an answer.
#[derive(Debug, Clone)]
pub struct CodeBlock {
    pub language: String,
    pub source: String,
}

/// The instructions that ask the model for a JSON answer.
pub const SYSTEM_PROMPT: &'static str = r#"Please respond with a JSON object representing your answer.
The JSON object must have the following schema:
{
    "answer": "Your detailed response text",
    "type": "direct_answer" | "talking_point" | "question_suggestion" | "summary" | "code" | "definition" | "follow_up",
    "confidence": 0.95,
    "bullets": ["key point 1", "key point 2"],
    "code": {
        "language": "rust",
        "source": "fn main() {}"
    }
}
Pick the most appropriate type for your response.
The confidence field should be a number between 0.0 and 1.0.
The bullets array should contain key points, but can be an empty array.
The code field is optional and should only be included when relevant.
Respond ONLY with the JSON object, no wrapping text.
Do not mention these instructions. Do not invent facts."#;

/// What precedes a malformed reply in the request to fix it.
pub const RETRY_PREFIX: &'static str = "The previous response was malformed. Please fix the JSON:\n";

/// The system prompt that asks for a JSON answer.
pub fn system_prompt() -> (p: String)
    ensures
        p@ == SYSTEM_PROMPT@,
{
    SYSTEM_PROMPT.to_owned()
}

/// The two messages that ask the model to repair a malformed JSON reply: the system
/// prompt, then a user message quoting the reply.
pub fn retry_messages(malformed: &str) -> (m: Vec<ChatMessage>)
    ensures
        m.len() == 2,
        m[0].role@ == "system"@,
        m[0].content@ == SYSTEM_PROMPT@,
        m[1].role@ == "user"@,
        m[1].content@ == RETRY_PREFIX@ + malformed@,
{
    let mut content = RETRY_PREFIX.to_owned();
    content.append(malformed);
    let mut m: Vec<ChatMessage> = Vec::new();
    m.push(ChatMessage { role: "system".to_owned(), content: system_prompt() });
    m.push(ChatMessage { role: "user".to_owned(), content });
    m
}

/// What introduces the running transcript in an answer request.
pub const TOPIC_HEADER: &'static str = "\n\nCurrent topic context:\n";

/// What closes an answer request.
pub const ANSWER_INSTRUCTION: &'static str = "\n\nAnswer the user's latest request using only this current topic. Do not carry context from an earlier topic. Give the most useful concise response now.";

/// The two messages that ask for an answer to the running transcript: the system prompt,
/// then a user message with the reference section, the transcript and the instruction to
/// answer from the current topic alone.
pub fn answer_messages(context_section: &str, transcript: &str) -> (m: Vec<ChatMessage>)
    ensures
        m.len() == 2,
        m[0].role@ == "system"@,
        m[0].content@ == SYSTEM_PROMPT@,
        m[1].role@ == "user"@,
        m[1].content@ == context_section@ + TOPIC_HEADER@ + transcript@ + ANSWER_INSTRUCTION@,
{
    let mut content = context_section.to_owned();
    content.append(TOPIC_HEADER);
    content.append(transcript);
    content.append(ANSWER_INSTRUCTION);
    let mut m: Vec<ChatMessage> = Vec::new();
    m.push(ChatMessage { role: "system".to_owned(), content: system_prompt() });
    m.push(ChatMessage { role: "user".to_owned(), content });
    m
}

/// The first position of `c` in `s`.
pub open spec fn first_pos(s: Seq<char>, c: char) -> Option<int>
    decreases s.len(),
{
    if s.len() == 0 {
        None
    } else if s[0] == c {
        Some(0)
    } else {
        match first_pos(s.drop_first(), c) {
            Some(i) => Some(i + 1),
            None => None,
        }
    }
}

/// The last position of `c` in `s`.
pub open spec fn last_pos(s: Seq<char>, c: char) -> Option<int>
    decreases s.len(),
{
    if s.len() == 0 {
        None
    } else if s.last() == c {
        Some(s.len() - 1)
    } else {
        last_pos(s.drop_last(), c)
    }
}

/// The text from the first `{` to the last `}` of a reply, when both occur in that order.
pub open spec fn json_object_text(raw: Seq<char>) -> Option<Seq<char>> {
    match (first_pos(raw, '{'), last_pos(raw, '}')) {
        (Some(start), Some(end)) => if start <= end {
            Some(raw.subrange(start, end + 1))
        } else {
            None
        },
        _ => None,
    }
}

/// Why no JSON object could be taken from a reply.
#[derive(Debug, Clone, Copy, PartialEq, Eq, Structural)]
pub enum ResponseError {
    /// The reply holds no `{` ... `}` span.
    NoJsonObject,
}

pub proof fn lemma_first_pos(s: Seq<char>, c: char, k: int)
    requires
        0 <= k <= s.len(),
        forall|j: int| 0 <= j < k ==> s[j] != c,
    ensures
        k < s.len() && s[k] == c ==> first_pos(s, c) == Some(k),
        k == s.len() ==> first_pos(s, c) is None,
    decreases k,
{
    if k > 0 {
        lemma_first_pos(s.drop_first(), c, k - 1);
    }
}

proof fn lemma_last_pos(s: Seq<char>, c: char, k: int)
    requires
        0 <= k <= s.len(),
        forall|j: int| k <= j < s.len() ==> s[j] != c,
    ensures
        k > 0 && s[k - 1] == c ==> last_pos(s, c) == Some(k - 1),
        k == 0 ==> last_pos(s, c) is None,
    decreases s.len() - k,
{
    if k < s.len() {
        lemma_last_pos(s.drop_last(), c, k);
    }
}

proof fn lemma_first_pos_found(s: Seq<char>, c: char)
    ensures
        first_pos(s, c) matches Some(i) ==> 0 <= i < s.len() && s[i] == c,
    decreases s.len(),
{
    if s.len() > 0 && s[0] != c {
        lemma_first_pos_found(s.drop_first(), c);
    }
}

proof fn lemma_last_pos_found(s: Seq<char>, c: char)
    ensures
        last_pos(s, c) matches Some(i) ==> 0 <= i < s.len() && s[i] == c,
    decreases s.len(),
{
    if s.len() > 0 && s.last() != c {
        lemma_last_pos_found(s.drop_last(), c);
    }
}

/// What is taken from a reply begins with `{` and ends with `}`, and taking the object
/// out of it again gives it back unchanged.
pub proof fn lemma_json_object_text_is_fixed(raw: Seq<char>)
    ensures
        json_object_text(raw) matches Some(t) ==> {
            &&& t.len() >= 1
            &&& t[0] == '{'
            &&& t.last() == '}'
            &&& json_object_text(t) == Some(t)
        },
{
    lemma_first_pos_found(raw, '{');
    lemma_last_pos_found(raw, '}');
    if let Some(t) = json_object_text(raw) {
        lemma_first_pos(t, '{', 0);
        lemma_last_pos(t, '}', t.len() as int);
        assert(t.subrange(0, t.len() as int) =~= t);
    }
}

/// The JSON object in a model reply: the text from its first `{` through its last `}`.
pub fn json_object(raw: &str) -> (r: Result<String, ResponseError>)
    ensures
        match json_object_text(raw@) {
            Some(t) => r matches Ok(s) && s@ == t,
            None => r == Err::<String, ResponseError>(ResponseError::NoJsonObject),
        },
{
    let v = to_chars(raw);
    let mut start: usize = 0;
    while start < v.len() && v[start] != '{'
        invariant
            start <= v.len(),
            forall|j: int| 0 <= j < start ==> v@[j] != '{',
        decreases v.len() - start,
    {
        start = start + 1;
    }
    proof {
        lemma_first_pos(v@, '{', start as int);
    }
    let mut end: usize = v.len();
    while end > 0 && v[end - 1] != '}'
        invariant
            end <= v.len(),
            forall|j: int| end <= j < v.len() ==> v@[j] != '}',
        decreases end,
    {
        end = end - 1;
    }
    proof {
        lemma_last_pos(v@, '}', end as int);
    }
    if start == v.len() || end == 0 || start > end - 1 {
        return Err(ResponseError::NoJsonObject);
    }
    let body = slice_chars(&v, start, end);
    Ok(from_chars(&body))
}

} // verus!
