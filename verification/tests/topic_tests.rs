use hyprly::topic::is_new_topic;

#[test]
fn detects_domain_switch() {
    assert!(is_new_topic(
        "Write Python code for the Two Sum algorithm",
        "Now write a SQL query to find duplicate emails"
    ));
}

#[test]
fn keeps_short_followups_in_context() {
    assert!(!is_new_topic(
        "Write Python code for the Two Sum algorithm",
        "Can you make it faster?"
    ));
}

#[test]
fn blank_history_never_starts_a_new_topic() {
    assert!(!is_new_topic("   ", "Now write a SQL query to find duplicate emails"));
    assert!(!is_new_topic("Write Python code", "a an the"));
}

#[test]
fn unrelated_long_utterance_is_a_new_topic() {
    assert!(is_new_topic(
        "We discussed the quarterly budget numbers",
        "Describe the photosynthesis process inside green leaves today"
    ));
    assert!(!is_new_topic(
        "We discussed the quarterly budget numbers",
        "The quarterly budget numbers need review"
    ));
}
