use hyprly::transcript::{
    clean, collapse_repeats, remove_false_starts, remove_fillers, remove_incomplete_fragment,
    CleanConfig,
};

#[test]
fn removes_fillers_but_preserves_meaning() {
    let config = CleanConfig::default();
    assert_eq!(
        clean(
            "Um, I think, uh, we should review the numbers again.",
            &config
        ),
        "I think we should review the numbers again."
    );
    assert_eq!(
        clean("Ah, yes, that's right.", &config),
        "Ah, yes, that's right."
    );
    assert_eq!(
        clean("I would like a review.", &config),
        "I would like a review."
    );
}

#[test]
fn keeps_intentful_false_start_phrases() {
    let config = CleanConfig::default();
    assert_eq!(
        clean("I mean this sincerely.", &config),
        "I mean this sincerely."
    );
    assert_eq!(
        clean("No wait, the migration is first.", &config),
        "The migration is first."
    );
}

#[test]
fn removes_only_obvious_trailing_fragments() {
    let config = CleanConfig::default();
    assert_eq!(
        clean("We should finish the migration. And", &config),
        "We should finish the migration."
    );
    assert_eq!(clean("Sounds good", &config), "Sounds good");
}

#[test]
fn squeezes_whitespace_and_capitalizes() {
    let config = CleanConfig {
        remove_fillers: false,
        collapse_repeats: false,
        remove_false_starts: false,
        remove_incomplete_fragments: false,
        custom_fillers: Vec::new(),
    };
    assert_eq!(clean("  hello\t\n  world  ", &config), "Hello world");
    assert_eq!(clean("", &config), "");
    assert_eq!(clean("   ", &config), "");
}

#[test]
fn custom_fillers_are_lowercased_and_removed() {
    let config = CleanConfig {
        custom_fillers: vec!["Basically".to_string()],
        ..CleanConfig::default()
    };
    assert_eq!(
        remove_fillers("basically, we ship today", &config),
        "we ship today"
    );
    assert_eq!(
        remove_fillers("we ship, basically today", &config),
        "we ship today"
    );
}

#[test]
fn like_is_kept_only_in_context() {
    let config = CleanConfig::default();
    assert_eq!(remove_fillers("it was like fine", &config), "it was fine");
    assert_eq!(remove_fillers("it looks like rain", &config), "it looks like rain");
    assert_eq!(remove_fillers("I like the plan", &config), "I like the plan");
    assert_eq!(remove_fillers("hmm well maybe", &config), "hmm well maybe");
    assert_eq!(remove_fillers("hmm maybe", &config), "maybe");
}

#[test]
fn collapses_repeated_words_by_key() {
    assert_eq!(collapse_repeats("the the The plan"), "the plan");
    assert_eq!(collapse_repeats("we, we should"), "we, should");
    assert_eq!(collapse_repeats("-- -- ok"), "-- -- ok");
    assert_eq!(collapse_repeats(""), "");
}

#[test]
fn false_start_segments_are_dropped() {
    assert_eq!(
        remove_false_starts("We go, SORRY, we stay"),
        "We go, we stay"
    );
    assert_eq!(remove_false_starts("actually"), "");
    assert_eq!(remove_false_starts("a,,b"), "a, , b");
    assert_eq!(remove_false_starts("rather nice"), "rather nice");
}

#[test]
fn trailing_fragment_only_after_a_sentence() {
    assert_eq!(remove_incomplete_fragment("  Done? so  "), "Done?");
    assert_eq!(remove_incomplete_fragment("We went and"), "We went and");
    assert_eq!(remove_incomplete_fragment("   "), "");
    assert_eq!(remove_incomplete_fragment("Stop! Because,"), "Stop!");
}

#[test]
fn cleaning_stages_are_stable_when_repeated() {
    let once = collapse_repeats("so so the the plan plan, plan");
    assert_eq!(once, "so the plan");
    assert_eq!(collapse_repeats(&once), once);
    let kept = remove_false_starts(" I mean , we ship,Actually,  today ");
    assert_eq!(kept, "we ship, today");
    assert_eq!(remove_false_starts(&kept), kept);
}

#[test]
fn fillers_never_survive_and_commas_before_them_go() {
    let config = CleanConfig::default();
    assert_eq!(remove_fillers("well,, um so", &config), "well, so");
    assert_eq!(remove_fillers("uh um er hmm", &config), "");
    assert_eq!(remove_fillers("ah okay then", &config), "ah okay then");
}
