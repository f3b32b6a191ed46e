//! The phone link: pairing and the commands a paired phone may send.
use vstd::prelude::*;
use crate::text::{eq_str, to_chars};

verus! {

/// A command from the paired phone.
#[derive(Clone, Debug, Copy, PartialEq, Eq, Structural)]
pub enum MobileCommand {
    Pause,
    Resume,
    ClearTranscript,
}

/// The decimal digit `d` as a character.
pub open spec fn digit_char(d: int) -> char {
    (48 + d) as char
}

/// The last six decimal digits of `n`, most significant first.
pub open spec fn six_digits(n: int) -> Seq<char> {
    seq![
        digit_char((n / 100000) % 10),
        digit_char((n / 10000) % 10),
        digit_char((n / 1000) % 10),
        digit_char((n / 100) % 10),
        digit_char((n / 10) % 10),
        digit_char(n % 10),
    ]
}

fn digit(d: u32) -> (c: char)
    requires
        d < 10,
    ensures
        c == digit_char(d as int),
{
    let b: u8 = 48 + d as u8;
    b as char
}

/// The six-digit pairing code for a seed: the seed modulo one million, zero-padded.
pub fn pairing_code(seed: u128) -> (code: String)
    ensures
        code@ == six_digits((seed % 1_000_000) as int),
{
    let n = (seed % 1_000_000) as u32;
    let mut s = String::new();
    s.push(digit((n / 100000) % 10));
    s.push(digit((n / 10000) % 10));
    s.push(digit((n / 1000) % 10));
    s.push(digit((n / 100) % 10));
    s.push(digit((n / 10) % 10));
    s.push(digit(n % 10));
    assert(s@ =~= six_digits(n as int));
    s
}

/// A pairing code is six characters, each a decimal digit.
pub proof fn lemma_pairing_code_digits(n: int)
    requires
        0 <= n,
    ensures
        six_digits(n).len() == 6,
        forall|i: int| 0 <= i < 6 ==> '0' <= #[trigger] six_digits(n)[i] <= '9',
{
    let c = six_digits(n);
    assert forall|i: int| 0 <= i < 6 implies '0' <= #[trigger] c[i] <= '9' by {
        let d = if i == 0 {
            (n / 100000) % 10
        } else if i == 1 {
            (n / 10000) % 10
        } else if i == 2 {
            (n / 1000) % 10
        } else if i == 3 {
            (n / 100) % 10
        } else if i == 4 {
            (n / 10) % 10
        } else {
            n % 10
        };
        assert(0 <= d < 10);
        assert(c[i] == digit_char(d));
    }
}

/// What `serde_json` finds under `key` when it parses `text` as a JSON value: `None` when
/// the text is not JSON, `Some(None)` when the value has no string under that key, and
/// `Some(Some(s))` when it has the string `s` there.
pub uninterp spec fn json_string_field(text: Seq<char>, key: Seq<char>) -> Option<Option<Seq<char>>>;

/// The characters of a doubly optional string.
pub open spec fn nested_view(r: Option<Option<String>>) -> Option<Option<Seq<char>>> {
    match r {
        None => None,
        Some(None) => Some(None),
        Some(Some(s)) => Some(Some(s@)),
    }
}

/// Parses `text` with `serde_json::from_str` into a `serde_json::Value` and reads the
/// string under `key` with `Value::get` and `Value::as_str`. The contract claims only
/// that the answer is the function of the text and the key that `json_string_field`
/// names.
#[verifier::external_body]
fn json_str_field(text: &str, key: &str) -> (r: Option<Option<String>>)
    ensures
        nested_view(r) == json_string_field(text@, key@),
{
    match serde_json::from_str::<serde_json::Value>(text) {
        Ok(value) => Some(value.get(key).and_then(|field| field.as_str()).map(|s| s.to_string())),
        Err(_) => None,
    }
}

/// How the first message of a phone connection is answered.
#[derive(Clone, Debug, Copy, PartialEq, Eq, Structural)]
pub enum PairingOutcome {
    /// The message is not JSON: the connection is dropped without a reply.
    Ignored,
    /// The message is not a pairing request with the right code: an error is sent.
    Rejected,
    /// The phone is paired.
    Accepted,
}

/// The answer to a first message whose `type` and `code` fields are as given: ignored when
/// the message is not JSON; accepted when its `type` is `pair` and its `code` is the
/// expected code; rejected otherwise.
pub open spec fn pairing_outcome_fields(
    type_field: Option<Option<Seq<char>>>,
    code_field: Option<Option<Seq<char>>>,
    code: Seq<char>,
) -> PairingOutcome {
    match type_field {
        None => PairingOutcome::Ignored,
        Some(t) => if t == Some("pair"@) && code_field == Some(Some(code)) {
            PairingOutcome::Accepted
        } else {
            PairingOutcome::Rejected
        },
    }
}

/// The answer to a first message: ignored unless it is JSON; accepted when its `type` is
/// `pair` and its `code` is the expected code; rejected otherwise.
pub open spec fn pairing_outcome_of(first: Seq<char>, code: Seq<char>) -> PairingOutcome {
    pairing_outcome_fields(json_string_field(first, "type"@), json_string_field(first, "code"@), code)
}

/// A phone is accepted only when its first message carries the expected code.
pub proof fn lemma_accepted_only_with_code(first: Seq<char>, code: Seq<char>)
    ensures
        pairing_outcome_of(first, code) == PairingOutcome::Accepted ==> json_string_field(
            first,
            "code"@,
        ) == Some(Some(code)),
{
}

fn is_some_str(v: &Option<Option<String>>, lit: &str) -> (b: bool)
    ensures
        b == (nested_view(*v) == Some(Some(lit@))),
{
    match v {
        Some(Some(s)) => {
            let c = to_chars(s.as_str());
            eq_str(&c, lit)
        },
        _ => false,
    }
}

/// Decides how to answer a first message from its parsed `type` and `code` fields.
pub fn pairing_outcome_from(
    type_field: &Option<Option<String>>,
    code_field: &Option<Option<String>>,
    code: &str,
) -> (o: PairingOutcome)
    ensures
        o == pairing_outcome_fields(nested_view(*type_field), nested_view(*code_field), code@),
{
    if type_field.is_none() {
        return PairingOutcome::Ignored;
    }
    if !is_some_str(type_field, "pair") {
        return PairingOutcome::Rejected;
    }
    if is_some_str(code_field, code) {
        PairingOutcome::Accepted
    } else {
        PairingOutcome::Rejected
    }
}

/// Decides how to answer the first message of a phone connection, given the pairing code.
pub fn pairing_outcome(first: &str, code: &str) -> (o: PairingOutcome)
    ensures
        o == pairing_outcome_of(first@, code@),
{
    let t = json_str_field(first, "type");
    let c = json_str_field(first, "code");
    pairing_outcome_from(&t, &c, code)
}

/// The command that a message's `type` field names.
pub open spec fn command_of_type(t: Option<Option<Seq<char>>>) -> Option<MobileCommand> {
    if t == Some(Some("pause"@)) {
        Some(MobileCommand::Pause)
    } else if t == Some(Some("resume"@)) {
        Some(MobileCommand::Resume)
    } else if t == Some(Some("clear_transcript"@)) {
        Some(MobileCommand::ClearTranscript)
    } else {
        None
    }
}

/// The command a message from a paired phone carries in its `type` field.
pub open spec fn command_of_message(text: Seq<char>) -> Option<MobileCommand> {
    command_of_type(json_string_field(text, "type"@))
}

/// The command that a parsed `type` field names, if any.
pub fn command_from_type(type_field: &Option<Option<String>>) -> (c: Option<MobileCommand>)
    ensures
        c == command_of_type(nested_view(*type_field)),
{
    if is_some_str(type_field, "pause") {
        Some(MobileCommand::Pause)
    } else if is_some_str(type_field, "resume") {
        Some(MobileCommand::Resume)
    } else if is_some_str(type_field, "clear_transcript") {
        Some(MobileCommand::ClearTranscript)
    } else {
        None
    }
}

/// The command in a text message from a paired phone, if it carries one.
pub fn command_for_message(text: &str) -> (c: Option<MobileCommand>)
    ensures
        c == command_of_message(text@),
{
    let t = json_str_field(text, "type");
    command_from_type(&t)
}

/// Whether the recorder is paused after a command: pausing sets it, resuming clears it,
/// and other commands leave it as it was.
pub fn paused_after(command: MobileCommand, paused: bool) -> (p: bool)
    ensures
        p == match command {
            MobileCommand::Pause => true,
            MobileCommand::Resume => false,
            MobileCommand::ClearTranscript => paused,
        },
{
    match command {
        MobileCommand::Pause => true,
        MobileCommand::Resume => false,
        MobileCommand::ClearTranscript => paused,
    }
}

} // verus!
