use hyprly::mobile::{
    command_for_message, command_from_type, pairing_outcome_from, pairing_code, pairing_outcome, paused_after, MobileCommand,
    PairingOutcome,
};

#[test]
fn pairing_code_is_six_digits() {
    assert_eq!(pairing_code(0), "000000");
    assert_eq!(pairing_code(42), "000042");
    assert_eq!(pairing_code(1_234_567_890), "567890");
    assert_eq!(pairing_code(u128::MAX), "211455");
}

#[test]
fn pairing_requires_the_code() {
    assert_eq!(
        pairing_outcome("{\"type\":\"pair\",\"code\":\"123456\"}", "123456"),
        PairingOutcome::Accepted
    );
    assert_eq!(
        pairing_outcome("{\"type\":\"pair\",\"code\":\"000000\"}", "123456"),
        PairingOutcome::Rejected
    );
    assert_eq!(
        pairing_outcome("{\"type\":\"hello\",\"code\":\"123456\"}", "123456"),
        PairingOutcome::Rejected
    );
    assert_eq!(pairing_outcome("not json", "123456"), PairingOutcome::Ignored);
    assert_eq!(pairing_outcome("[1,2]", "123456"), PairingOutcome::Rejected);
}

#[test]
fn phone_commands() {
    assert_eq!(command_for_message("{\"type\":\"pause\"}"), Some(MobileCommand::Pause));
    assert_eq!(command_for_message("{\"type\":\"resume\"}"), Some(MobileCommand::Resume));
    assert_eq!(
        command_for_message("{\"type\":\"clear_transcript\"}"),
        Some(MobileCommand::ClearTranscript)
    );
    assert_eq!(command_for_message("{\"type\":\"dance\"}"), None);
    assert_eq!(command_for_message("pause"), None);
    assert!(paused_after(MobileCommand::Pause, false));
    assert!(!paused_after(MobileCommand::Resume, true));
    assert!(paused_after(MobileCommand::ClearTranscript, true));
}

#[test]
fn every_pairing_code_is_decimal() {
    for seed in [0u128, 9, 999_999, 1_000_000, 31_415_926_535, u128::MAX / 3] {
        let c = pairing_code(seed);
        assert_eq!(c.len(), 6);
        assert!(c.chars().all(|ch| ch.is_ascii_digit()));
    }
}

#[test]
fn decisions_on_parsed_fields() {
    let pair = Some(Some("pair".to_string()));
    let code = Some(Some("123456".to_string()));
    assert_eq!(pairing_outcome_from(&pair, &code, "123456"), PairingOutcome::Accepted);
    assert_eq!(pairing_outcome_from(&pair, &code, "654321"), PairingOutcome::Rejected);
    assert_eq!(pairing_outcome_from(&pair, &Some(None), "123456"), PairingOutcome::Rejected);
    assert_eq!(pairing_outcome_from(&Some(None), &code, "123456"), PairingOutcome::Rejected);
    assert_eq!(pairing_outcome_from(&None, &None, "123456"), PairingOutcome::Ignored);
    assert_eq!(command_from_type(&Some(Some("pause".to_string()))), Some(MobileCommand::Pause));
    assert_eq!(
        command_from_type(&Some(Some("clear_transcript".to_string()))),
        Some(MobileCommand::ClearTranscript)
    );
    assert_eq!(command_from_type(&Some(Some("Pause".to_string()))), None);
    assert_eq!(command_from_type(&None), None);
}
