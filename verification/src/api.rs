//! Chat messages and the server-sent-event stream of a chat completion.
use vstd::prelude::*;
use crate::markdown::{lines, lines_chars, starts_with};
use crate::text::{eq_str, from_chars, matches_at, slice_chars, to_chars, views};

verus! {

/// One message of a chat request.
#[derive(Debug, Clone)]
pub struct ChatMessage {
    pub role: String,
    pub content: String,
}

/// The payload of one server-sent-event line: the text after `data: `, unless it is the
/// `[DONE]` marker.
pub open spec fn event_data(line: Seq<char>) -> Option<Seq<char>> {
    if starts_with(line, "data: "@) {
        let d = line.skip(6);
        if d == "[DONE]"@ {
            None
        } else {
            Some(d)
        }
    } else {
        None
    }
}

/// The payloads among the first `n` lines.
pub open spec fn payload_pass(ls: Seq<Seq<char>>, n: int) -> Seq<Seq<char>>
    decreases n,
{
    if n <= 0 {
        seq![]
    } else {
        let prev = payload_pass(ls, n - 1);
        match event_data(ls[n - 1]) {
            Some(d) => prev.push(d),
            None => prev,
        }
    }
}

/// The event payloads of a chunk of a streamed response, in order.
pub open spec fn event_payloads(chunk: Seq<char>) -> Seq<Seq<char>> {
    let ls = lines(chunk);
    payload_pass(ls, ls.len() as int)
}

/// The `data: ` payloads of a chunk of a server-sent-event stream, skipping `[DONE]`.
pub fn event_payloads_of(chunk: &str) -> (r: Vec<String>)
    ensures
        r@.map_values(|s: String| s@) == event_payloads(chunk@),
{
    proof {
        reveal_strlit("data: ");
    }
    let v = to_chars(chunk);
    let ls = lines_chars(&v);
    let ghost lv = lines(v@);
    let prefix = to_chars("data: ");
    let mut r: Vec<String> = Vec::new();
    let mut i: usize = 0;
    while i < ls.len()
        invariant
            i <= ls.len(),
            views(ls@) == lv,
            prefix@ == "data: "@,
            prefix@.len() == 6,
            r@.map_values(|s: String| s@) == payload_pass(lv, i as int),
        decreases ls.len() - i,
    {
        let line = &ls[i];
        assert(line@ == lv[i as int]);
        let ghost before = r@.map_values(|s: String| s@);
        if line.len() >= 6 && matches_at(line, &prefix, 0) {
            assert(line@.subrange(0, 6) =~= line@.take(6));
            let d = slice_chars(line, 6, line.len());
            assert(d@ =~= line@.skip(6));
            if !eq_str(&d, "[DONE]") {
                let s = from_chars(&d);
                r.push(s);
                assert(r@.map_values(|s: String| s@) =~= before.push(d@));
            }
        } else {
            assert(!starts_with(line@, "data: "@)) by {
                if line@.len() >= 6 {
                    assert(line@.subrange(0, 6) =~= line@.take(6));
                }
            }
        }
        i = i + 1;
    }
    r
}

/// What `serde_json` finds as the text of the first streamed choice's delta in one event
/// payload: `Some(t)` when the payload is JSON with a string `t` under
/// `choices[0].delta.content`, `None` otherwise.
pub uninterp spec fn chat_delta(payload: Seq<char>) -> Option<Seq<char>>;

/// The characters of an optional string.
pub open spec fn opt_view(r: Option<String>) -> Option<Seq<char>> {
    match r {
        Some(s) => Some(s@),
        None => None,
    }
}

/// Parses `payload` with `serde_json::from_str` into a `serde_json::Value` and reads
/// `choices[0].delta.content` with `Value::get`, `Value::as_array`, `first` and
/// `Value::as_str`. The contract claims only that the answer is the function of the
/// payload that `chat_delta` names.
#[verifier::external_body]
fn delta_content(payload: &str) -> (r: Option<String>)
    ensures
        opt_view(r) == chat_delta(payload@),
{
    match serde_json::from_str::<serde_json::Value>(payload) {
        Ok(value) => value
            .get("choices")
            .and_then(|c| c.as_array())
            .and_then(|c| c.first())
            .and_then(|c| c.get("delta"))
            .and_then(|d| d.get("content"))
            .and_then(|t| t.as_str())
            .map(|t| t.to_string()),
        Err(_) => None,
    }
}

/// The text pieces of the payloads among the first `n`, in order, leaving out those that
/// carry none.
pub open spec fn pieces_pass(payloads: Seq<Seq<char>>, n: int) -> Seq<Seq<char>>
    decreases n,
{
    if n <= 0 {
        seq![]
    } else {
        pieces_pass(payloads, n - 1) + match chat_delta(payloads[n - 1]) {
            Some(t) => seq![t],
            None => seq![],
        }
    }
}

/// The text pieces of a chunk of a streamed chat completion.
pub open spec fn stream_pieces_of(chunk: Seq<char>) -> Seq<Seq<char>> {
    let ps = event_payloads(chunk);
    pieces_pass(ps, ps.len() as int)
}

/// The answer text that one chunk of a streamed chat completion carries, piece by piece:
/// the delta of each `data: ` payload, in order.
pub fn stream_pieces(chunk: &str) -> (r: Vec<String>)
    ensures
        r@.map_values(|s: String| s@) == stream_pieces_of(chunk@),
{
    let payloads = event_payloads_of(chunk);
    let ghost ps = event_payloads(chunk@);
    let mut r: Vec<String> = Vec::new();
    let mut i: usize = 0;
    while i < payloads.len()
        invariant
            i <= payloads.len(),
            payloads@.map_values(|s: String| s@) == ps,
            r@.map_values(|s: String| s@) == pieces_pass(ps, i as int),
        decreases payloads.len() - i,
    {
        let ghost before = r@.map_values(|s: String| s@);
        assert(payloads@[i as int]@ == ps[i as int]);
        match delta_content(payloads[i].as_str()) {
            Some(t) => {
                r.push(t);
                assert(r@.map_values(|s: String| s@) =~= before + seq![t@]);
            },
            None => {
                assert(before + Seq::<Seq<char>>::empty() =~= before);
            },
        }
        i = i + 1;
    }
    r
}

} // verus!
