use hyprly::response::{
    answer_messages, json_object, retry_messages, system_prompt, ResponseError, SYSTEM_PROMPT,
};

#[test]
fn finds_the_json_object() {
    assert_eq!(
        json_object("Sure! {\"answer\": \"x\"} thanks").unwrap(),
        "{\"answer\": \"x\"}"
    );
    assert_eq!(json_object("{a}{b}").unwrap(), "{a}{b}");
    assert_eq!(json_object("no braces"), Err(ResponseError::NoJsonObject));
    assert_eq!(json_object("} before {"), Err(ResponseError::NoJsonObject));
    assert_eq!(json_object("{ open"), Err(ResponseError::NoJsonObject));
    assert_eq!(json_object(""), Err(ResponseError::NoJsonObject));
}

#[test]
fn prompt_and_retry_messages() {
    let p = system_prompt();
    assert!(p.starts_with("Please respond with a JSON object"));
    assert!(p.ends_with("Do not invent facts."));
    assert_eq!(p, SYSTEM_PROMPT);
    let m = retry_messages("{oops");
    assert_eq!(m.len(), 2);
    assert_eq!(m[0].role, "system");
    assert_eq!(m[0].content, p);
    assert_eq!(m[1].role, "user");
    assert_eq!(
        m[1].content,
        "The previous response was malformed. Please fix the JSON:\n{oops"
    );
}

#[test]
fn answer_request_holds_context_and_transcript() {
    let m = answer_messages("CTX", "we talked");
    assert_eq!(m[0].role, "system");
    assert_eq!(m[1].role, "user");
    assert_eq!(
        m[1].content,
        "CTX\n\nCurrent topic context:\nwe talked\n\nAnswer the user's latest request using only this current topic. Do not carry context from an earlier topic. Give the most useful concise response now."
    );
}

#[test]
fn extracted_object_extracts_to_itself() {
    let t = json_object("Here: {\"a\": {\"b\": 1}} done }").unwrap();
    assert_eq!(t, "{\"a\": {\"b\": 1}} done }");
    assert!(t.starts_with('{') && t.ends_with('}'));
    assert_eq!(json_object(&t).unwrap(), t);
}
