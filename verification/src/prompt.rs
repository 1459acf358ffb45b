//! Prompt building: the outgoing request value, temperature clamping,
//! and normalization of the user's message.
//!
//! Text is carried as UTF-8 bytes (`Vec<u8>`); the temperature is held
//! in thousandths, so that the sampling range 0.0..=1.0 becomes 0..=1000.

use vstd::prelude::*;

verus! {

/// The author of a chat message.
#[derive(Clone, Copy, Debug, PartialEq, Eq, Structural)]
pub enum Role {
    System,
    User,
    Assistant,
}

/// One chat message: an author role and its UTF-8 content.
pub struct Message {
    pub role: Role,
    pub content: Vec<u8>,
}

/// The outgoing request: model id, ordered conversation, sampling
/// parameters, and the streaming flag. Immutable once built.
pub struct Request {
    pub model: Vec<u8>,
    pub messages: Vec<Message>,
    /// Sampling temperature in thousandths: 0..=1000 stands for 0.0..=1.0.
    pub temperature_milli: u32,
    pub max_tokens: u64,
    pub stream: bool,
}

/// The largest admissible temperature, in thousandths (1.0).
pub const TEMPERATURE_MAX_MILLI: u32 = 1000;

/// The largest admissible token budget.
pub const MAX_TOKENS_LIMIT: u64 = 2048;

/// A well-formed request: temperature within 0..=1000 thousandths and
/// the token budget within 1..=2048.
pub open spec fn request_wf(r: Request) -> bool {
    &&& r.temperature_milli <= TEMPERATURE_MAX_MILLI
    &&& 1 <= r.max_tokens <= MAX_TOKENS_LIMIT
}

/// Clamping rule: a temperature inside 0..=1000 thousandths is kept;
/// anything outside is replaced by the fallback 1000 (that is, 1.0).
pub open spec fn clamp_temperature_spec(t: int) -> int {
    if 0 <= t <= TEMPERATURE_MAX_MILLI { t } else { TEMPERATURE_MAX_MILLI as int }
}

/// Clamps a temperature, given in thousandths, to 0..=1000;
/// out-of-range values fall back to 1000 (1.0).
pub fn clamp_temperature(t: i64) -> (r: u32)
    ensures
        r as int == clamp_temperature_spec(t as int),
        r <= TEMPERATURE_MAX_MILLI,
{
    if 0 <= t && t <= TEMPERATURE_MAX_MILLI as i64 {
        t as u32
    } else {
        TEMPERATURE_MAX_MILLI
    }
}

/// The bytes of `"how"`.
pub open spec fn how_bytes() -> Seq<u8> {
    seq![104u8, 111u8, 119u8]
}

/// The bytes of `"how to "`.
pub open spec fn how_to_bytes() -> Seq<u8> {
    seq![104u8, 111u8, 119u8, 32u8, 116u8, 111u8, 32u8]
}

/// Normalization rule: a message that already starts with `how` is kept;
/// any other message has `how to ` prepended.
pub open spec fn normalize_message_spec(m: Seq<u8>) -> Seq<u8> {
    if m.len() >= 3 && m.take(3) == how_bytes() {
        m
    } else {
        how_to_bytes() + m
    }
}

/// Normalizes the user's message: prepends `how to ` unless the
/// message already starts with `how`.
pub fn normalize_message(m: Vec<u8>) -> (r: Vec<u8>)
    ensures
        r@ == normalize_message_spec(m@),
{
    if m.len() >= 3 && m[0] == 104u8 && m[1] == 111u8 && m[2] == 119u8 {
        proof {
            assert(m@.take(3) =~= how_bytes());
        }
        m
    } else {
        proof {
            if m@.len() >= 3 {
                assert(m@.take(3)[0] == m@[0]);
                assert(m@.take(3)[1] == m@[1]);
                assert(m@.take(3)[2] == m@[2]);
            }
        }
        let mut r: Vec<u8> = Vec::new();
        r.push(104u8);
        r.push(111u8);
        r.push(119u8);
        r.push(32u8);
        r.push(116u8);
        r.push(111u8);
        r.push(32u8);
        let mut i: usize = 0;
        while i < m.len()
            invariant
                i <= m@.len(),
                r@ == how_to_bytes() + m@.take(i as int),
            decreases m@.len() - i,
        {
            r.push(m[i]);
            proof {
                assert(m@.take(i + 1) =~= m@.take(i as int).push(m@[i as int]));
            }
            i = i + 1;
        }
        proof {
            assert(m@.take(m@.len() as int) =~= m@);
        }
        r
    }
}

/// Joining rule: words separated by single spaces, in order.
pub open spec fn join_words_spec(ws: Seq<Seq<u8>>) -> Seq<u8>
    decreases ws.len(),
{
    if ws.len() == 0 {
        Seq::empty()
    } else if ws.len() == 1 {
        ws[0]
    } else {
        join_words_spec(ws.drop_last()) + seq![32u8] + ws.last()
    }
}

/// Joins the free-text words of the command line into one message,
/// separated by single spaces.
pub fn join_words(ws: &Vec<Vec<u8>>) -> (r: Vec<u8>)
    ensures
        r@ == join_words_spec(ws.deep_view()),
{
    let mut r: Vec<u8> = Vec::new();
    let mut i: usize = 0;
    while i < ws.len()
        invariant
            i <= ws@.len(),
            r@ == join_words_spec(ws.deep_view().take(i as int)),
        decreases ws@.len() - i,
    {
        if i > 0 {
            r.push(32u8);
        }
        let w = &ws[i];
        let mut j: usize = 0;
        while j < w.len()
            invariant
                j <= w@.len(),
                i < ws@.len(),
                w == ws@[i as int],
                r@ == if i == 0 {
                    w@.take(j as int)
                } else {
                    join_words_spec(ws.deep_view().take(i as int)) + seq![32u8] + w@.take(
                        j as int,
                    )
                },
            decreases w@.len() - j,
        {
            r.push(w[j]);
            proof {
                assert(w@.take(j + 1) =~= w@.take(j as int).push(w@[j as int]));
            }
            j = j + 1;
        }
        proof {
            assert(w@.take(w@.len() as int) =~= w@);
            let dv = ws.deep_view();
            assert(dv.take(i + 1).drop_last() =~= dv.take(i as int));
            assert(dv.take(i + 1).last() == dv[i as int]);
            assert(dv[i as int] == w@);
            if i == 0 {
                assert(join_words_spec(dv.take(1)) == dv.take(1)[0]);
                assert(dv.take(1)[0] == w@);
            }
        }
        i = i + 1;
    }
    proof {
        assert(ws.deep_view().take(ws@.len() as int) =~= ws.deep_view());
    }
    r
}

/// The fixed system primer that opens every conversation.
pub fn primer() -> (r: String)
    ensures
        r@ == "You're a very smart life assisstant versatile in all possible things. \n     Your task is to give me a very concise on point answer to the questions I'm about to ask you"@,
{
    "You're a very smart life assisstant versatile in all possible things. \n     Your task is to give me a very concise on point answer to the questions I'm about to ask you".to_owned()
}

/// Builds the two-message conversation: the system primer first, the
/// user's (already normalized) message second.
pub fn conversation(primer_content: Vec<u8>, user_content: Vec<u8>) -> (ms: Vec<Message>)
    ensures
        ms@.len() == 2,
        ms@[0].role == Role::System,
        ms@[0].content@ == primer_content@,
        ms@[1].role == Role::User,
        ms@[1].content@ == user_content@,
{
    let mut ms: Vec<Message> = Vec::new();
    ms.push(Message { role: Role::System, content: primer_content });
    ms.push(Message { role: Role::User, content: user_content });
    ms
}

/// Assembles the immutable request value from validated inputs.
/// Pure construction: every field equals the corresponding argument.
pub fn build_request(
    model: Vec<u8>,
    messages: Vec<Message>,
    temperature_milli: u32,
    max_tokens: u64,
    stream: bool,
) -> (r: Request)
    requires
        temperature_milli <= TEMPERATURE_MAX_MILLI,
        1 <= max_tokens <= MAX_TOKENS_LIMIT,
    ensures
        r.model@ == model@,
        r.messages == messages,
        r.temperature_milli == temperature_milli,
        r.max_tokens == max_tokens,
        r.stream == stream,
        request_wf(r),
{
    Request { model, messages, temperature_milli, max_tokens, stream }
}

} // verus!
